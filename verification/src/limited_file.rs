//! A limit on how far a file may extend.
use vstd::prelude::*;

use crate::bounded::ErrorKind;
use crate::complete::{end_of, Target};

verus! {

/// How far a temporary pack may extend on Motor OS.
pub const MAX_EXTENT: u64 = 134217728;

/// A newly created file, together with the place at which it is read and written next, and a limit on
/// how far it may extend. It is accounted for at the place where bytes reach the file, so that
/// buffers before it need not be flushed for that.
#[derive(Debug)]
pub struct LimitedFile<W> {
    inner: W,
    position: u64,
    max_extent: Option<u64>,
}

impl<W> LimitedFile<W> {
    /// The file.
    pub closed spec fn file(&self) -> W {
        self.inner
    }

    /// The place at which the file is read and written next.
    pub closed spec fn position(&self) -> u64 {
        self.position
    }

    /// How far the file may extend, if there is a limit.
    pub closed spec fn max_extent(&self) -> Option<u64> {
        self.max_extent
    }

    /// `len` bytes can be written without extending the file too far.
    pub open spec fn has_room(&self, len: nat) -> bool {
        &&& end_of(self.position(), len) is Some
        &&& self.max_extent() matches Some(limit) ==> self.position() + len <= limit
    }

    /// Limits a new file as is fit for the system.
    pub fn for_target(inner: W, target: Target) -> (file: LimitedFile<W>)
        ensures
            file.file() == inner,
            file.position() == 0,
            file.max_extent() == match target {
                Target::Motor => Some(MAX_EXTENT),
                Target::Other => None,
            },
    {
        let max_extent = match target {
            Target::Motor => Some(MAX_EXTENT),
            Target::Other => None,
        };
        LimitedFile::new(inner, max_extent)
    }

    /// Limits a new file to `max_extent` bytes.
    pub fn new(inner: W, max_extent: Option<u64>) -> (file: LimitedFile<W>)
        ensures
            file.file() == inner,
            file.position() == 0,
            file.max_extent() == max_extent,
    {
        LimitedFile { inner, position: 0, max_extent }
    }

    /// The file itself. What is read, written or sought there has to be told here.
    pub fn inner_mut(&mut self) -> (inner: &mut W)
        ensures
            *inner == old(self).file(),
            final(self).file() == *final(inner),
            final(self).position() == old(self).position(),
            final(self).max_extent() == old(self).max_extent(),
    {
        &mut self.inner
    }

    /// Gives up the limit.
    pub fn into_inner(self) -> (inner: W)
        ensures
            inner == self.file(),
    {
        self.inner
    }

    /// The place that is reached after `bytes` bytes.
    pub fn next_position(&self, bytes: usize) -> (result: Result<u64, ErrorKind>)
        ensures
            result == match end_of(self.position(), bytes as nat) {
                Some(position) => Ok::<u64, ErrorKind>(position),
                None => Err::<u64, ErrorKind>(ErrorKind::Other),
            },
    {
        match self.position.checked_add(bytes as u64) {
            Some(position) => Ok(position),
            None => Err(ErrorKind::Other),
        }
    }

    /// Says whether there is anything to write. Fails where writing `len` bytes would extend the file
    /// too far; nothing is to be written then.
    pub fn begin_write(&self, len: usize) -> (result: Result<bool, ErrorKind>)
        ensures
            result == if len == 0 {
                Ok::<bool, ErrorKind>(false)
            } else if end_of(self.position(), len as nat) is None {
                Err::<bool, ErrorKind>(ErrorKind::Other)
            } else if !self.has_room(len as nat) {
                Err::<bool, ErrorKind>(ErrorKind::InvalidData)
            } else {
                Ok::<bool, ErrorKind>(true)
            },
    {
        if len == 0 {
            return Ok(false);
        }
        let requested_end: u64 = match self.next_position(len) {
            Ok(end) => end,
            Err(kind) => {
                return Err(kind);
            },
        };
        if let Some(limit) = self.max_extent {
            if requested_end > limit {
                return Err(ErrorKind::InvalidData);
            }
        }
        Ok(true)
    }

    /// Takes account of `bytes` bytes that were read or written.
    pub fn advance(&mut self, bytes: usize) -> (result: Result<usize, ErrorKind>)
        ensures
            final(self).file() == old(self).file(),
            final(self).max_extent() == old(self).max_extent(),
            match end_of(old(self).position(), bytes as nat) {
                Some(position) => {
                    &&& result == Ok::<usize, ErrorKind>(bytes)
                    &&& final(self).position() == position
                    &&& final(self).position() == old(self).position() + bytes
                },
                None => {
                    &&& result == Err::<usize, ErrorKind>(ErrorKind::Other)
                    &&& final(self).position() == old(self).position()
                },
            },
    {
        match self.next_position(bytes) {
            Ok(position) => {
                self.position = position;
                Ok(bytes)
            },
            Err(kind) => Err(kind),
        }
    }

    /// Takes account of a new place in the file.
    pub fn sought(&mut self, position: u64)
        ensures
            final(self).file() == old(self).file(),
            final(self).max_extent() == old(self).max_extent(),
            final(self).position() == position,
    {
        self.position = position;
    }
}

/// A write is admitted exactly if it ends within the limit, if there is one, and at a place that a file
/// can have.
pub proof fn lemma_what_is_admitted<W>(file: LimitedFile<W>, len: nat)
    ensures
        file.has_room(len) <==> {
            &&& file.position() + len <= u64::MAX
            &&& file.max_extent() is Some ==> file.position() + len <= file.max_extent()->0
        },
        match end_of(file.position(), len) {
            Some(end) => end == file.position() + len,
            None => file.position() + len > u64::MAX,
        },
{
}

/// Whatever part of an admitted write is done, the file does not extend beyond its limit.
pub proof fn lemma_writes_respect_the_extent<W>(file: LimitedFile<W>, len: nat, written: nat)
    requires
        file.has_room(len),
        written <= len,
    ensures
        end_of(file.position(), written) is Some,
        file.max_extent() matches Some(limit) ==> end_of(file.position(), written)->0 <= limit,
{
}

/// What the bytes of a file are kept in.
pub struct Store {
    /// How many bytes there are.
    pub len: nat,
    /// Where the next byte is read or written.
    pub position: u64,
}

/// What is done with a limited file.
pub enum Operation {
    /// `written` of `len` bytes were written.
    Write { len: nat, written: nat },
    /// That many bytes were read.
    Read { count: nat },
    /// The place was changed.
    Seek { to: u64 },
}

impl Store {
    /// The store after an operation.
    pub open spec fn after(self, operation: Operation) -> Store {
        match operation {
            Operation::Write { written, .. } => Store {
                len: if written > 0 && self.position + written > self.len {
                    self.position as nat + written
                } else {
                    self.len
                },
                position: (self.position + written) as u64,
            },
            Operation::Read { count } => Store {
                len: self.len,
                position: (self.position + count) as u64,
            },
            Operation::Seek { to } => Store { len: self.len, position: to },
        }
    }

    /// The store can take part in the operation: it writes no more than it is told to, and does not read
    /// beyond its end.
    pub open spec fn allows(self, operation: Operation) -> bool {
        match operation {
            Operation::Write { len, written } => written <= len,
            Operation::Read { count } => count == 0 || self.position + count <= self.len,
            Operation::Seek { .. } => true,
        }
    }
}

/// The operation is done with a limited file: a write only where `begin_write` admits it, and each
/// operation is taken account of by `advance` or `sought`.
pub open spec fn is_done<W>(
    file: LimitedFile<W>,
    operation: Operation,
    next: LimitedFile<W>,
) -> bool {
    &&& next.max_extent() == file.max_extent()
    &&& match operation {
        Operation::Write { len, written } => {
            &&& file.has_room(len)
            &&& end_of(file.position(), written) == Some(next.position())
        },
        Operation::Read { count } => end_of(file.position(), count) == Some(next.position()),
        Operation::Seek { to } => next.position() == to,
    }
}

/// `operations` are done one after the other, on a file that is new at first, and `files` and `stores`
/// are what there is in between.
pub open spec fn is_history<W>(
    files: Seq<LimitedFile<W>>,
    stores: Seq<Store>,
    operations: Seq<Operation>,
) -> bool {
    &&& files.len() == operations.len() + 1
    &&& stores.len() == operations.len() + 1
    &&& files[0].position() == 0
    &&& stores[0] == Store { len: 0, position: 0 }
    &&& forall|i: int|
        0 <= i < operations.len() ==> {
            let operation = #[trigger] operations[i];
            &&& is_done(files[i], operation, files[i + 1])
            &&& stores[i].allows(operation)
            &&& stores[i + 1] == stores[i].after(operation)
        }
}

/// Whatever is written, read and sought, a file never gets longer than its limit, and the place that
/// is kept is that of the store.
pub proof fn lemma_extent_holds<W>(
    files: Seq<LimitedFile<W>>,
    stores: Seq<Store>,
    operations: Seq<Operation>,
    upto: int,
)
    requires
        is_history(files, stores, operations),
        0 <= upto < files.len(),
    ensures
        files[upto].position() == stores[upto].position,
        files[upto].max_extent() == files[0].max_extent(),
        files[0].max_extent() matches Some(limit) ==> stores[upto].len <= limit,
    decreases upto,
{
    if upto > 0 {
        lemma_extent_holds(files, stores, operations, upto - 1);
        let operation = operations[upto - 1];
        assert(is_done(files[upto - 1], operation, files[upto]));
        if let Operation::Write { len, written } = operation {
            lemma_writes_respect_the_extent(files[upto - 1], len, written);
        }
    }
}

} // verus!
