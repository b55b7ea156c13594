//! Limits on the commit-graph files that are held in memory.
use vstd::prelude::*;

use crate::bounded::{read_to_end_bounded, ErrorKind};

verus! {

/// The most bytes of a file that lists the graphs of a chain.
pub const MAX_CHAIN_BYTES: usize = 32768;

/// The most bytes of a graph.
pub const MAX_GRAPH_BYTES: usize = 16777216;

/// The most bytes of all graphs of a chain.
pub const MAX_TOTAL_BYTES: usize = 33554432;

/// The most graphs of a chain.
pub const MAX_FILES: usize = 256;

/// Hands out what files hold, as long as that is not too much, and not from too many files.
pub struct Reader {
    max_file_bytes: usize,
    remaining_bytes: usize,
    remaining_files: usize,
}

/// What a reader still allows.
pub struct Allowance {
    /// The most bytes of a file.
    pub max_file_bytes: nat,
    /// The most bytes of all files to come.
    pub remaining_bytes: nat,
    /// The most files to come.
    pub remaining_files: nat,
}

impl View for Reader {
    type V = Allowance;

    closed spec fn view(&self) -> Allowance {
        Allowance {
            max_file_bytes: self.max_file_bytes as nat,
            remaining_bytes: self.remaining_bytes as nat,
            remaining_files: self.remaining_files as nat,
        }
    }
}

impl Allowance {
    /// The most bytes of the next file.
    pub open spec fn next(self) -> nat {
        if self.max_file_bytes < self.remaining_bytes {
            self.max_file_bytes
        } else {
            self.remaining_bytes
        }
    }

    /// What is still allowed after a file of `len` bytes.
    pub open spec fn after(self, len: nat) -> Allowance {
        Allowance {
            max_file_bytes: self.max_file_bytes,
            remaining_bytes: (self.remaining_bytes - len) as nat,
            remaining_files: (self.remaining_files - 1) as nat,
        }
    }
}

impl Reader {
    /// Allows up to `max_files` files of up to `max_file_bytes` bytes each, and of up to
    /// `max_total_bytes` bytes together.
    pub fn new(max_file_bytes: usize, max_total_bytes: usize, max_files: usize) -> (reader: Reader)
        ensures
            reader@ == (Allowance {
                max_file_bytes: max_file_bytes as nat,
                remaining_bytes: max_total_bytes as nat,
                remaining_files: max_files as nat,
            }),
    {
        Reader {
            max_file_bytes,
            remaining_bytes: max_total_bytes,
            remaining_files: max_files,
        }
    }

    /// What a chain of graphs may take.
    pub fn for_graph() -> (reader: Reader)
        ensures
            reader@ == (Allowance {
                max_file_bytes: MAX_GRAPH_BYTES as nat,
                remaining_bytes: MAX_TOTAL_BYTES as nat,
                remaining_files: MAX_FILES as nat,
            }),
    {
        Reader::new(MAX_GRAPH_BYTES, MAX_TOTAL_BYTES, MAX_FILES)
    }

    /// What a single graph may take.
    pub fn for_file() -> (reader: Reader)
        ensures
            reader@ == (Allowance {
                max_file_bytes: MAX_GRAPH_BYTES as nat,
                remaining_bytes: MAX_GRAPH_BYTES as nat,
                remaining_files: 1,
            }),
    {
        Reader::new(MAX_GRAPH_BYTES, MAX_GRAPH_BYTES, 1)
    }

    /// Reads the next file with `read`, which is called with the most bytes that are allowed, and
    /// which reads to the end or until it has more bytes than that. A file that cannot be handed out
    /// does not count.
    pub fn read<F: FnOnce(usize) -> Result<Vec<u8>, ErrorKind>>(&mut self, read: F) -> (result:
        Result<Vec<u8>, ErrorKind>)
        requires
            old(self)@.remaining_files > 0 ==> read.requires((old(self)@.next() as usize,)),
        ensures
            match result {
                Ok(data) => {
                    &&& read.ensures((old(self)@.next() as usize,), Ok(data))
                    &&& hands_out(old(self)@, data@.len(), final(self)@)
                },
                Err(kind) => {
                    &&& final(self)@ == old(self)@
                    &&& {
                        ||| kind == ErrorKind::InvalidData && old(self)@.remaining_files == 0
                        ||| {
                            &&& old(self)@.remaining_files > 0
                            &&& {
                                ||| read.ensures((old(self)@.next() as usize,), Err(kind))
                                ||| kind == ErrorKind::InvalidData && exists|data: Vec<u8>|
                                    data@.len() > old(self)@.next() && #[trigger] read.ensures(
                                        (old(self)@.next() as usize,),
                                        Ok(data),
                                    )
                            }
                        }
                    }
                },
            },
    {
        if self.remaining_files == 0 {
            return Err(ErrorKind::InvalidData);
        }
        let limit: usize = if self.max_file_bytes < self.remaining_bytes {
            self.max_file_bytes
        } else {
            self.remaining_bytes
        };
        match read_to_end_bounded(limit, read) {
            Ok(data) => {
                self.remaining_files = self.remaining_files - 1;
                self.remaining_bytes = self.remaining_bytes - data.len();
                Ok(data)
            },
            Err(kind) => Err(kind),
        }
    }
}

/// What a reader allows for the next file, and for all of them, are numbers that a `usize` holds.
pub proof fn lemma_allowance_fits(reader: Reader)
    ensures
        reader@.max_file_bytes <= usize::MAX,
        reader@.remaining_bytes <= usize::MAX,
        reader@.remaining_files <= usize::MAX,
        reader@.next() as usize == reader@.next(),
{
}

/// The next file may have as many bytes as any file, and as many as are left for all, whichever is less.
/// Once a file is handed out, its bytes and the file itself count; nothing else changes.
pub proof fn lemma_what_the_next_file_may_have(before: Allowance, len: nat, after: Allowance)
    ensures
        before.next() <= before.max_file_bytes,
        before.next() <= before.remaining_bytes,
        before.next() == before.max_file_bytes || before.next() == before.remaining_bytes,
        hands_out(before, len, after) <==> {
            &&& before.remaining_files > 0
            &&& len <= before.max_file_bytes
            &&& len <= before.remaining_bytes
            &&& after.remaining_files + 1 == before.remaining_files
            &&& after.remaining_bytes + len == before.remaining_bytes
            &&& after.max_file_bytes == before.max_file_bytes
        },
{
}

/// The bytes of all files together.
pub open spec fn total(lengths: Seq<nat>) -> nat
    decreases lengths.len(),
{
    if lengths.len() == 0 {
        0
    } else {
        total(lengths.drop_last()) + lengths.last()
    }
}

/// The reader allowed `before` when it handed out a file of `len` bytes, and allows `after` since.
pub open spec fn hands_out(before: Allowance, len: nat, after: Allowance) -> bool {
    &&& before.remaining_files > 0
    &&& len <= before.next()
    &&& after == before.after(len)
}

/// `lengths` are those of the files that a reader handed out, one after the other, and `states` are
/// what it allowed in between.
pub open spec fn handed_out(states: Seq<Allowance>, lengths: Seq<nat>) -> bool {
    &&& states.len() == lengths.len() + 1
    &&& forall|i: int|
        0 <= i < lengths.len() ==> hands_out(states[i], #[trigger] lengths[i], states[i + 1])
}

/// However many files are read, a reader hands out no more files and no more bytes than it was made
/// for, and no file is longer than it was made for.
pub proof fn lemma_limits_hold(states: Seq<Allowance>, lengths: Seq<nat>)
    requires
        handed_out(states, lengths),
    ensures
        lengths.len() + states.last().remaining_files == states[0].remaining_files,
        total(lengths) + states.last().remaining_bytes == states[0].remaining_bytes,
        forall|i: int|
            0 <= i < lengths.len() ==> #[trigger] lengths[i] <= states[0].max_file_bytes,
    decreases lengths.len(),
{
    if lengths.len() > 0 {
        let before = lengths.drop_last();
        let earlier = states.drop_last();
        let last = lengths.len() - 1;
        assert forall|i: int| 0 <= i < before.len() implies hands_out(
            earlier[i],
            #[trigger] before[i],
            earlier[i + 1],
        ) by {
            assert(before[i] == lengths[i]);
        }
        lemma_limits_hold(earlier, before);
        lemma_file_limit_stays(states, lengths, last);
        assert(hands_out(states[last], lengths[last], states[last + 1]));
        assert forall|i: int| 0 <= i < lengths.len() implies #[trigger] lengths[i]
            <= states[0].max_file_bytes by {
            if i < last {
                assert(before[i] == lengths[i]);
            }
        }
    }
}

proof fn lemma_file_limit_stays(states: Seq<Allowance>, lengths: Seq<nat>, upto: int)
    requires
        handed_out(states, lengths),
        0 <= upto <= lengths.len(),
    ensures
        states[upto].max_file_bytes == states[0].max_file_bytes,
    decreases upto,
{
    if upto > 0 {
        lemma_file_limit_stays(states, lengths, upto - 1);
        assert(hands_out(states[upto - 1], lengths[upto - 1], states[upto]));
    }
}

} // verus!
