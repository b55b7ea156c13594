//! Pack files that are held in memory, within a limit on all of them together.
use vstd::prelude::*;

use crate::bounded::ErrorKind;
use crate::thin::reserve_exact;

verus! {

/// The most bytes of a pack file on Motor OS.
pub const MAX_FILE_BYTES: usize = 134217728;

/// The most bytes of all pack files that are in use on Motor OS.
pub const MAX_LIVE_BYTES: usize = 268435456;

/// The sum of all sizes.
pub open spec fn total(sizes: Seq<usize>) -> nat
    decreases sizes.len(),
{
    if sizes.len() == 0 {
        0
    } else {
        total(sizes.drop_last()) + sizes.last() as nat
    }
}

/// `sizes` without the last one that is `size`.
pub open spec fn without(sizes: Seq<usize>, size: usize) -> Seq<usize>
    decreases sizes.len(),
{
    if sizes.len() == 0 {
        sizes
    } else if sizes.last() == size {
        sizes.drop_last()
    } else {
        without(sizes.drop_last(), size).push(sizes.last())
    }
}

proof fn lemma_total_without(sizes: Seq<usize>, size: usize)
    requires
        sizes.contains(size),
    ensures
        total(sizes) == total(without(sizes, size)) + size,
    decreases sizes.len(),
{
    if sizes.last() != size {
        let index = choose|index: int| 0 <= index < sizes.len() && sizes[index] == size;
        let rest = sizes.drop_last();
        assert(rest[index] == size);
        lemma_total_without(rest, size);
        assert(without(sizes, size).drop_last() =~= without(rest, size));
    }
}

/// A number of bytes that are set aside from a budget, until they are released.
#[derive(Debug)]
pub struct Reservation {
    bytes: usize,
}

impl View for Reservation {
    type V = usize;

    closed spec fn view(&self) -> usize {
        self.bytes
    }
}

/// A limit on the bytes that are in use at the same time.
pub struct Budget {
    used: usize,
    limit: usize,
    live: Ghost<Seq<usize>>,
}

/// What a budget has handed out.
pub struct BudgetView {
    /// The sizes of the reservations that have not been released.
    pub live: Seq<usize>,
    /// The most bytes that may be in use at the same time.
    pub limit: usize,
}

impl View for Budget {
    type V = BudgetView;

    closed spec fn view(&self) -> BudgetView {
        BudgetView { live: self.live@, limit: self.limit }
    }
}

impl BudgetView {
    /// The bytes that are in use.
    pub open spec fn used(self) -> nat {
        total(self.live)
    }

    /// `bytes` more can be set aside.
    pub open spec fn admits(self, bytes: usize) -> bool {
        self.used() + bytes <= self.limit
    }
}

impl Budget {
    /// The account is true, and the limit is kept.
    pub closed spec fn wf(&self) -> bool {
        &&& self.used == self@.used()
        &&& self.used <= self.limit
    }

    /// Nothing is in use.
    pub fn new(limit: usize) -> (budget: Budget)
        ensures
            budget.wf(),
            budget@ == (BudgetView { live: Seq::empty(), limit }),
    {
        Budget { used: 0, limit, live: Ghost(Seq::empty()) }
    }

    /// Sets `bytes` aside, unless that would exceed the limit.
    pub fn reserve(&mut self, bytes: usize) -> (result: Result<Reservation, ErrorKind>)
        requires
            old(self).wf(),
        ensures
            final(self).wf(),
            match result {
                Ok(reservation) => {
                    &&& old(self)@.admits(bytes)
                    &&& old(self)@.used() + bytes <= old(self)@.limit
                    &&& final(self)@.used() == old(self)@.used() + bytes
                    &&& final(self)@.limit == old(self)@.limit
                    &&& reservation@ == bytes
                    &&& final(self)@ == (BudgetView {
                        live: old(self)@.live.push(bytes),
                        ..old(self)@
                    })
                },
                Err(kind) => {
                    &&& !old(self)@.admits(bytes)
                    &&& old(self)@.used() + bytes > old(self)@.limit
                    &&& kind == ErrorKind::OutOfMemory
                    &&& final(self)@ == old(self)@
                },
            },
    {
        let next: usize = match self.used.checked_add(bytes) {
            Some(next) => next,
            None => {
                return Err(ErrorKind::OutOfMemory);
            },
        };
        if next > self.limit {
            return Err(ErrorKind::OutOfMemory);
        }
        proof {
            let grown = self.live@.push(bytes);
            assert(grown.drop_last() =~= self.live@);
        }
        self.used = next;
        self.live = Ghost(self.live@.push(bytes));
        Ok(Reservation { bytes })
    }

    /// Takes back what was set aside. A reservation is known by its size alone: one of the same size
    /// that another budget has made is taken for one of this budget.
    pub fn release(&mut self, reservation: Reservation)
        requires
            old(self).wf(),
            old(self)@.live.contains(reservation@),
        ensures
            final(self).wf(),
            final(self)@ == (BudgetView {
                live: without(old(self)@.live, reservation@),
                ..old(self)@
            }),
            final(self)@.used() == old(self)@.used() - reservation@,
    {
        proof {
            lemma_total_without(self.live@, reservation.bytes);
        }
        self.used = self.used - reservation.bytes;
        self.live = Ghost(without(self.live@, reservation.bytes));
    }

    /// The number of bytes in use.
    pub fn used(&self) -> (used: usize)
        requires
            self.wf(),
        ensures
            used == self@.used(),
    {
        self.used
    }
}

/// What is in use never exceeds the limit.
pub proof fn lemma_limit_is_kept(budget: Budget)
    requires
        budget.wf(),
    ensures
        budget@.used() <= budget@.limit,
{
}

/// Releasing what was just set aside restores the budget.
pub proof fn lemma_release_undoes_reserve(live: Seq<usize>, bytes: usize)
    ensures
        live.push(bytes).contains(bytes),
        without(live.push(bytes), bytes) == live,
{
    assert(live.push(bytes)[live.len() as int] == bytes);
    assert(live.push(bytes).drop_last() =~= live);
}

/// What is in use is the sum of all that was set aside: nothing at first, as much more with each
/// reservation as it is for, and as much less once it is released. A reservation is refused exactly if it
/// would bring what is in use above the limit.
pub proof fn lemma_what_is_in_use(live: Seq<usize>, limit: usize, bytes: usize)
    ensures
        total(Seq::<usize>::empty()) == 0,
        total(live.push(bytes)) == total(live) + bytes,
        live.contains(bytes) ==> total(without(live, bytes)) == total(live) - bytes,
        live.contains(bytes) ==> without(live, bytes).len() == live.len() - 1,
        (BudgetView { live, limit }).used() == total(live),
        (BudgetView { live, limit }).admits(bytes) <==> total(live) + bytes <= limit,
{
    assert(live.push(bytes).drop_last() =~= live);
    if live.contains(bytes) {
        lemma_total_without(live, bytes);
        lemma_without_is_shorter(live, bytes);
    }
}

proof fn lemma_without_is_shorter(sizes: Seq<usize>, size: usize)
    requires
        sizes.contains(size),
    ensures
        without(sizes, size).len() == sizes.len() - 1,
    decreases sizes.len(),
{
    if sizes.last() != size {
        let index = choose|index: int| 0 <= index < sizes.len() && sizes[index] == size;
        assert(sizes.drop_last()[index] == size);
        lemma_without_is_shorter(sizes.drop_last(), size);
    }
}

/// Once everything is released, nothing is in use.
pub proof fn lemma_nothing_live_uses_nothing(budget: Budget)
    requires
        budget.wf(),
        budget@.live.len() == 0,
    ensures
        budget@.used() == 0,
{
}

/// A pack file in memory, with what it takes of a budget.
#[derive(Debug)]
pub struct MMap {
    data: Vec<u8>,
    reservation: Reservation,
}

impl View for MMap {
    type V = Seq<u8>;

    /// The bytes of the file.
    closed spec fn view(&self) -> Seq<u8> {
        self.data@
    }
}

impl MMap {
    /// What the file takes of the budget.
    pub closed spec fn reserved(&self) -> usize {
        self.reservation@
    }

    /// Frees the bytes and hands out what is then to be released.
    pub fn into_reservation(self) -> (reservation: Reservation)
        ensures
            reservation@ == self.reserved(),
    {
        let MMap { data: _, reservation } = self;
        reservation
    }
}

impl std::ops::Deref for MMap {
    type Target = [u8];

    /// The bytes of the file.
    fn deref(&self) -> (bytes: &[u8])
        ensures
            bytes@ == self@,
    {
        self.data.as_slice()
    }
}

/// Sets aside what a file of `len` bytes takes, if a file may have that many, and if the budget admits
/// them.
pub fn set_aside(len: usize, file_limit: usize, budget: &mut Budget) -> (result: Result<
    Reservation,
    ErrorKind,
>)
    requires
        old(budget).wf(),
    ensures
        final(budget).wf(),
        if len > file_limit {
            &&& result == Err::<Reservation, ErrorKind>(ErrorKind::InvalidData)
            &&& final(budget)@ == old(budget)@
        } else if !old(budget)@.admits(len) {
            &&& result == Err::<Reservation, ErrorKind>(ErrorKind::OutOfMemory)
            &&& final(budget)@ == old(budget)@
        } else {
            &&& result matches Ok(reservation) && reservation@ == len
            &&& final(budget)@ == (BudgetView { live: old(budget)@.live.push(len), ..old(budget)@ })
        },
{
    if len > file_limit {
        return Err(ErrorKind::InvalidData);
    }
    budget.reserve(len)
}

/// Decides on what was read of a file that was said to have `len` bytes, and for which that many were
/// set aside. They are released unless exactly that many were read.
pub fn keep(
    read: Result<Vec<u8>, ErrorKind>,
    len: usize,
    reservation: Reservation,
    budget: &mut Budget,
) -> (result: Result<MMap, ErrorKind>)
    requires
        old(budget).wf(),
        old(budget)@.live.contains(reservation@),
        reservation@ == len,
    ensures
        final(budget).wf(),
        match read {
            Ok(data) => if data@.len() < len {
                result == Err::<MMap, ErrorKind>(ErrorKind::UnexpectedEof)
            } else if data@.len() > len {
                result == Err::<MMap, ErrorKind>(ErrorKind::InvalidData)
            } else {
                result matches Ok(map) && map@ == data@ && map.reserved() == len
            },
            Err(kind) => result == Err::<MMap, ErrorKind>(kind),
        },
        final(budget)@ == if result is Ok {
            old(budget)@
        } else {
            BudgetView { live: without(old(budget)@.live, len), ..old(budget)@ }
        },
{
    let kind: ErrorKind = match read {
        Ok(data) => if data.len() < len {
            ErrorKind::UnexpectedEof
        } else if data.len() > len {
            ErrorKind::InvalidData
        } else {
            return Ok(MMap { data, reservation });
        },
        Err(kind) => kind,
    };
    budget.release(reservation);
    Err(kind)
}

/// Reads a file that is said to have `len` bytes, if it may have that many, and if the budget admits
/// them.
///
/// `read` is called with a buffer and with `len`, but not where a limit rejects the file. It appends what it reads to the buffer. It reads to
/// the end of the file, or until it has more bytes than `len`. Whether memory for the buffer can be
/// had, if any is needed, depends on the machine.
pub fn read_with_limits<F: FnOnce(Vec<u8>, usize) -> Result<Vec<u8>, ErrorKind>>(
    read: F,
    len: usize,
    file_limit: usize,
    budget: &mut Budget,
) -> (result: Result<MMap, ErrorKind>)
    requires
        old(budget).wf(),
        len <= file_limit && old(budget)@.admits(len) ==> forall|buffer: Vec<u8>|
            buffer@.len() == 0 ==> #[trigger] read.requires((buffer, len)),
    ensures
        final(budget).wf(),
        len > file_limit ==> result == Err::<MMap, ErrorKind>(ErrorKind::InvalidData),
        len <= file_limit && !old(budget)@.admits(len) ==> result == Err::<MMap, ErrorKind>(
            ErrorKind::OutOfMemory,
        ),
        match result {
            Ok(map) => {
                &&& map@.len() == len
                &&& map.reserved() == len
                &&& exists|buffer: Vec<u8>, data: Vec<u8>|
                    buffer@.len() == 0 && #[trigger] read.ensures((buffer, len), Ok(data)) && map@
                        == data@
                &&& final(budget)@ == (BudgetView {
                    live: old(budget)@.live.push(len),
                    ..old(budget)@
                })
            },
            Err(kind) => {
                &&& final(budget)@ == old(budget)@
                &&& {
                    ||| len > file_limit
                    ||| kind == ErrorKind::OutOfMemory && (len > 0 || !old(budget)@.admits(len))
                    ||| exists|buffer: Vec<u8>, read_result: Result<Vec<u8>, ErrorKind>|
                        {
                            &&& buffer@.len() == 0
                            &&& #[trigger] read.ensures((buffer, len), read_result)
                            &&& match read_result {
                                Ok(data) => if kind == ErrorKind::UnexpectedEof {
                                    data@.len() < len
                                } else {
                                    kind == ErrorKind::InvalidData && data@.len() > len
                                },
                                Err(other) => kind == other,
                            }
                        }
                }
            },
        },
{
    let reservation = match set_aside(len, file_limit, budget) {
        Ok(reservation) => reservation,
        Err(kind) => {
            return Err(kind);
        },
    };
    proof {
        lemma_release_undoes_reserve(old(budget)@.live, len);
    }
    let mut buffer: Vec<u8> = Vec::new();
    if reserve_exact(&mut buffer, len).is_err() {
        return keep(Err(ErrorKind::OutOfMemory), len, reservation, budget);
    }
    let outcome = read(buffer, len);
    assert(read.ensures((buffer, len), outcome));
    keep(outcome, len, reservation, budget)
}

/// Decides whether a file can be read into memory at all: it has to be a regular file, of a length
/// that memory can have.
pub fn check_file(is_file: bool, len: u64) -> (result: Result<usize, ErrorKind>)
    ensures
        result == if !is_file {
            Err::<usize, ErrorKind>(ErrorKind::InvalidInput)
        } else if len > usize::MAX {
            Err::<usize, ErrorKind>(ErrorKind::InvalidData)
        } else {
            Ok::<usize, ErrorKind>(len as usize)
        },
{
    if !is_file {
        return Err(ErrorKind::InvalidInput);
    }
    if len > usize::MAX as u64 {
        return Err(ErrorKind::InvalidData);
    }
    Ok(len as usize)
}

} // verus!
