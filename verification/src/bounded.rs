//! Reading within limits.
use vstd::prelude::*;

verus! {

/// What kind of failure a read met with.
#[derive(Clone, Copy, Debug, PartialEq, Eq, Structural)]
pub enum ErrorKind {
    /// What was to be read cannot be read this way.
    InvalidInput,
    /// What was read is more than is allowed.
    InvalidData,
    /// There was less to read than expected.
    UnexpectedEof,
    /// Memory is not to be had, or not allowed.
    OutOfMemory,
    /// The file system failed.
    Other,
}

/// Reads all that `read` hands out, if that is not more than `limit` bytes.
///
/// `read` is called with `limit`. It reads to the end, or until it has more bytes than that.
pub fn read_to_end_bounded<F: FnOnce(usize) -> Result<Vec<u8>, ErrorKind>>(
    limit: usize,
    read: F,
) -> (result: Result<Vec<u8>, ErrorKind>)
    requires
        read.requires((limit,)),
    ensures
        match result {
            Ok(data) => data@.len() <= limit && read.ensures((limit,), Ok(data)),
            Err(kind) => {
                ||| read.ensures((limit,), Err(kind))
                ||| kind == ErrorKind::InvalidData && exists|data: Vec<u8>|
                    data@.len() > limit && #[trigger] read.ensures((limit,), Ok(data))
            },
        },
{
    match read(limit) {
        Ok(data) => if data.len() > limit {
            assert(read.ensures((limit,), Ok(data)));
            Err(ErrorKind::InvalidData)
        } else {
            Ok(data)
        },
        Err(kind) => Err(kind),
    }
}

} // verus!
