//! Which bases a thin pack lacks, and whether those it has rest on whole objects.
use std::collections::TryReserveError;

use vstd::layout::size_of;
use vstd::prelude::*;

use crate::data::{base_pack_offset, Header};
use crate::hash::{lemma_key_is_unique, ObjectId};
use crate::index::Error;
use crate::sort::{
    lemma_same_contents, position_of, sort_by_key, sorted, strictly_sorted, Keyed,
};
use crate::traverse;

verus! {

/// An object that came with the pack.
#[derive(Clone, Copy, Debug)]
pub struct Received {
    pub id: ObjectId,
    pub offset: u64,
    pub header: Header,
}

impl Keyed for Received {
    /// Received objects are ordered by id.
    open spec fn key(&self) -> int {
        self.id.key()
    }

    fn precedes(&self, other: &Received) -> (before: bool) {
        self.id.precedes(&other.id)
    }
}

/// What a received object needs before it can be reconstructed.
pub enum Dependency {
    /// Nothing that the pack would have to hold: it is whole, or its base is looked up elsewhere.
    Root,
    /// The received object at this index.
    On(int),
    /// An object that nobody has.
    Nowhere,
}

/// `index` is where the object with id `id` stands.
pub open spec fn at_id(received: Seq<Received>, id: ObjectId, index: int) -> bool {
    0 <= index < received.len() && received[index].id == id
}

/// An object with id `id` was received.
pub open spec fn has_id(received: Seq<Received>, id: ObjectId) -> bool {
    exists|index: int| at_id(received, id, index)
}

/// `index` is the first place at which an object with offset `offset` stands.
pub open spec fn at_offset(received: Seq<Received>, offset: u64, index: int) -> bool {
    &&& 0 <= index < received.len()
    &&& received[index].offset == offset
    &&& forall|other: int| 0 <= other < index ==> (#[trigger] received[other]).offset != offset
}

/// What the object at `index` needs, where the objects of `missing` are looked up elsewhere.
pub open spec fn dependency(
    received: Seq<Received>,
    missing: Seq<ObjectId>,
    index: int,
) -> Dependency {
    let item = received[index];
    match item.header {
        Header::OfsDelta { base_distance } => match base_pack_offset(item.offset, base_distance) {
            Some(offset) => if exists|base: int| at_offset(received, offset, base) {
                Dependency::On(choose|base: int| at_offset(received, offset, base))
            } else {
                Dependency::Nowhere
            },
            None => Dependency::Nowhere,
        },
        Header::RefDelta { base_id } => if has_id(received, base_id) {
            Dependency::On(choose|base: int| at_id(received, base_id, base))
        } else if missing.contains(base_id) {
            Dependency::Root
        } else {
            Dependency::Nowhere
        },
        _ => Dependency::Root,
    }
}

/// Where one stands after going from `start` to its dependency, and so on, `steps` times. `None`
/// where there is no dependency to go to.
pub open spec fn walk(
    received: Seq<Received>,
    missing: Seq<ObjectId>,
    start: int,
    steps: nat,
) -> Option<int>
    decreases steps,
{
    if steps == 0 {
        Some(start)
    } else {
        match walk(received, missing, start, (steps - 1) as nat) {
            Some(index) => match dependency(received, missing, index) {
                Dependency::On(base) => Some(base),
                _ => None,
            },
            None => None,
        }
    }
}

/// The walk from `start` arrives at a root after `steps` steps.
pub open spec fn rooted_after(
    received: Seq<Received>,
    missing: Seq<ObjectId>,
    start: int,
    steps: nat,
) -> bool {
    &&& walk(received, missing, start, steps) matches Some(index)
    &&& dependency(received, missing, index) is Root
}

/// The dependency chain of the object at `start` ends in a root.
pub open spec fn rooted(received: Seq<Received>, missing: Seq<ObjectId>, start: int) -> bool {
    exists|steps: nat| rooted_after(received, missing, start, steps)
}

/// The walk from `start` first goes wrong at `index`, after `steps` steps: it has been there before,
/// or nobody has what it needs.
pub open spec fn fails_after(
    received: Seq<Received>,
    missing: Seq<ObjectId>,
    start: int,
    index: int,
    steps: nat,
) -> bool {
    &&& walk(received, missing, start, steps) == Some(index)
    &&& forall|a: nat, b: nat|
        a < b < steps ==> #[trigger] walk(received, missing, start, a) != #[trigger] walk(
            received,
            missing,
            start,
            b,
        )
    &&& {
        ||| dependency(received, missing, index) is Nowhere
        ||| exists|earlier: nat|
            earlier < steps && #[trigger] walk(received, missing, start, earlier) == Some(index)
    }
}

/// `missing` are the `candidates` that were not received, in order.
pub open spec fn is_missing_of(
    missing: Seq<ObjectId>,
    received: Seq<Received>,
    candidates: Seq<ObjectId>,
) -> bool {
    &&& sorted(missing)
    &&& missing.to_multiset() == candidates.to_multiset().filter(
        |id: ObjectId| !has_id(received, id),
    )
}

/// The object at `start` was received, is a candidate, and is the first of those in order whose
/// dependency chain does not end in a root.
pub open spec fn first_unrooted(
    received: Seq<Received>,
    candidates: Seq<ObjectId>,
    missing: Seq<ObjectId>,
    start: int,
) -> bool {
    &&& 0 <= start < received.len()
    &&& candidates.contains(received[start].id)
    &&& !rooted(received, missing, start)
    &&& forall|other: int|
        0 <= other < start && candidates.contains(#[trigger] received[other].id) ==> rooted(
            received,
            missing,
            other,
        )
}

/// The first candidate, in order, that was received and does not end in a root has a dependency chain
/// that goes wrong at the object with id `object_id`.
pub open spec fn is_unrooted_chain(
    received: Seq<Received>,
    candidates: Seq<ObjectId>,
    object_id: ObjectId,
) -> bool {
    exists|missing: Seq<ObjectId>, start: int, index: int, steps: nat|
        {
            &&& is_missing_of(missing, received, candidates)
            &&& first_unrooted(received, candidates, missing, start)
            &&& #[trigger] fails_after(received, missing, start, index, steps)
            &&& 0 <= index < received.len()
            &&& object_id == received[index].id
        }
}

/// `missing` are the candidates that were not received, and all that were received end in a root.
pub open spec fn completes(
    missing: Seq<ObjectId>,
    received: Seq<Received>,
    candidates: Seq<ObjectId>,
) -> bool {
    &&& is_missing_of(missing, received, candidates)
    &&& forall|i: int|
        0 <= i < received.len() && candidates.contains(#[trigger] received[i].id) ==> rooted(
            received,
            missing,
            i,
        )
}

/// The place of a received object, ordered by where it stands in the pack.
#[derive(Clone, Copy)]
struct OffsetIndex {
    offset: u64,
    index: usize,
}

impl Keyed for OffsetIndex {
    closed spec fn key(&self) -> int {
        self.offset * 0x1_0000_0000_0000_0000int + self.index
    }

    fn precedes(&self, other: &OffsetIndex) -> (before: bool) {
        self.offset < other.offset || (self.offset == other.offset && self.index < other.index)
    }
}

/// `table` lists every received object once, ordered by offset.
spec fn is_offset_table(table: Seq<OffsetIndex>, received: Seq<Received>) -> bool {
    &&& sorted(table)
    &&& forall|p: int|
        0 <= p < table.len() ==> (#[trigger] table[p]).index < received.len()
            && received[table[p].index as int].offset == table[p].offset
    &&& forall|i: int|
        0 <= i < received.len() ==> table.contains(
            #[trigger] offset_index(received, i),
        )
}

spec fn offset_index(received: Seq<Received>, index: int) -> OffsetIndex {
    OffsetIndex { offset: received[index].offset, index: index as usize }
}

/// A `Vec` can hold `count` records: they take no more than `isize::MAX` bytes.
pub open spec fn can_be_held<T>(count: nat) -> bool {
    count * size_of::<T>() <= isize::MAX
}

/// Calls `Vec::try_reserve_exact`, which leaves the contents as they are. It fails where the records
/// would take more bytes than any `Vec` can have, and it does nothing, and succeeds, where no more
/// records are asked for. Whether memory can be had otherwise depends on the machine.
#[verifier::external_body]
pub(crate) fn reserve_exact<T>(vec: &mut Vec<T>, additional: usize) -> (result: Result<
    (),
    TryReserveError,
>)
    ensures
        final(vec)@ == old(vec)@,
        result is Ok ==> can_be_held::<T>(old(vec)@.len() + additional as nat),
        additional == 0 ==> result is Ok,
{
    vec.try_reserve_exact(additional)
}

/// Fills `out` with the numbers from zero to `len`, without `len` itself.
fn indices(len: usize, mut out: Vec<usize>) -> (filled: Vec<usize>)
    requires
        out@.len() == 0,
    ensures
        filled@ == Seq::new(len as nat, |i: int| i as usize),
{
    for i in 0..len
        invariant
            out@ == Seq::new(i as nat, |j: int| j as usize),
    {
        out.push(i);
        assert(out@ =~= Seq::new((i + 1) as nat, |j: int| j as usize));
    }
    out
}

/// Memory for a search for missing bases.
pub struct Room {
    by_offset: Vec<usize>,
    table: Vec<OffsetIndex>,
    missing: Vec<ObjectId>,
    starts: Vec<usize>,
    state: Vec<State>,
    path: Vec<usize>,
}

impl Room {
    /// The memory has not been used yet.
    pub closed spec fn is_unused(&self) -> bool {
        &&& self.by_offset@.len() == 0
        &&& self.table@.len() == 0
        &&& self.missing@.len() == 0
        &&& self.starts@.len() == 0
        &&& self.state@.len() == 0
    }

    /// Sets memory aside for a search among `received` objects for that many candidates. That fails
    /// for more of them than memory can ever hold, and succeeds where there is nothing to hold. Whether
    /// memory can be had otherwise depends on the machine.
    pub fn reserve(received: usize, candidates: usize) -> (result: Result<Room, Error>)
        ensures
            match result {
                Ok(room) => {
                    &&& room.is_unused()
                    &&& can_be_held::<usize>(received as nat)
                    &&& can_be_held::<usize>(candidates as nat)
                    &&& can_be_held::<ObjectId>(candidates as nat)
                },
                Err(error) => error is OutOfMemory && (received > 0 || candidates > 0),
            },
    {
        let mut room = Room {
            by_offset: Vec::new(),
            table: Vec::new(),
            missing: Vec::new(),
            starts: Vec::new(),
            state: Vec::new(),
            path: Vec::new(),
        };
        if reserve_exact(&mut room.by_offset, received).is_err() || reserve_exact(
            &mut room.table,
            received,
        ).is_err() || reserve_exact(
            &mut room.missing,
            candidates,
        ).is_err() || reserve_exact(&mut room.starts, candidates).is_err() || reserve_exact(
            &mut room.state,
            received,
        ).is_err() || (received > 0 && room.path.try_reserve(received).is_err()) {
            return Err(Error::OutOfMemory);
        }
        Ok(room)
    }
}

fn offset_table(
    received: &[Received],
    by_offset: Vec<usize>,
    mut table: Vec<OffsetIndex>,
) -> (ordered: Vec<OffsetIndex>)
    requires
        by_offset@.len() == 0,
        table@.len() == 0,
    ensures
        is_offset_table(ordered@, received@),
{
    let by_offset = indices(received.len(), by_offset);
    for i in 0..by_offset.len()
        invariant
            by_offset@ == Seq::new(received@.len(), |j: int| j as usize),
            table@.len() == i,
            forall|j: int| 0 <= j < i ==> #[trigger] table@[j] == offset_index(received@, j),
    {
        let index = by_offset[i];
        table.push(OffsetIndex { offset: received[index].offset, index });
    }
    let ordered = sort_by_key(&table);
    proof {
        assert forall|p: int| 0 <= p < ordered@.len() implies (#[trigger] ordered@[p]).index
            < received@.len() && received@[ordered@[p].index as int].offset == ordered@[p].offset by {
            assert(ordered@.contains(ordered@[p]));
            lemma_same_contents(ordered@, table@, ordered@[p]);
            let j = choose|j: int| 0 <= j < table@.len() && table@[j] == ordered@[p];
            assert(table@[j] == offset_index(received@, j));
        }
        assert forall|i: int| 0 <= i < received@.len() implies ordered@.contains(
            #[trigger] offset_index(received@, i),
        ) by {
            assert(table@[i] == offset_index(received@, i));
            lemma_same_contents(ordered@, table@, table@[i]);
        }
    }
    ordered
}

fn index_at_offset(received: &[Received], table: &Vec<OffsetIndex>, offset: u64) -> (found: Option<
    usize,
>)
    requires
        is_offset_table(table@, received@),
    ensures
        match found {
            Some(index) => at_offset(received@, offset, index as int),
            None => forall|index: int| !at_offset(received@, offset, index),
        },
{
    let probe = OffsetIndex { offset, index: 0 };
    let position = crate::sort::lower_bound(table.as_slice(), &probe);
    if position < table.len() && table[position].offset == offset {
        let index = table[position].index;
        proof {
            assert forall|other: int| 0 <= other < index implies (#[trigger] received@[other]).offset
                != offset by {
                let record = offset_index(received@, other);
                assert(table@.contains(record));
                let p = choose|p: int| 0 <= p < table@.len() && table@[p] == record;
                if received@[other].offset == offset {
                    assert(record.key() < table@[position as int].key());
                    assert(p < position);
                }
            }
        }
        Some(index)
    } else {
        proof {
            assert forall|index: int| !at_offset(received@, offset, index) by {
                if at_offset(received@, offset, index) {
                    let record = offset_index(received@, index);
                    assert(table@.contains(record));
                    let p = choose|p: int| 0 <= p < table@.len() && table@[p] == record;
                    assert(record.key() >= probe.key());
                    assert(p >= position);
                    assert(table@[position as int].key() <= table@[p].key());
                    assert(table@[position as int].key() >= probe.key());
                }
            }
        }
        None
    }
}

fn index_of_id(received: &[Received], id: &ObjectId) -> (found: Option<usize>)
    requires
        strictly_sorted(received@),
    ensures
        match found {
            Some(index) => at_id(received@, *id, index as int),
            None => !has_id(received@, *id),
        },
{
    let probe = Received { id: *id, offset: 0, header: Header::Blob };
    let found = position_of(received, &probe);
    proof {
        if let Some(index) = found {
            lemma_key_is_unique(received@[index as int].id, *id);
        }
    }
    found
}

fn contains_id(ids: &Vec<ObjectId>, id: &ObjectId) -> (found: bool)
    requires
        sorted(ids@),
    ensures
        found == ids@.contains(*id),
{
    match position_of(ids.as_slice(), id) {
        Some(position) => {
            proof {
                lemma_key_is_unique(ids@[position as int], *id);
            }
            true
        },
        None => false,
    }
}

/// What a received object needs, as it is looked up.
enum Next {
    Root,
    On(usize),
    Nowhere,
}

impl Next {
    spec fn is(self, dependency: Dependency) -> bool {
        match self {
            Next::Root => dependency is Root,
            Next::On(index) => dependency == Dependency::On(index as int),
            Next::Nowhere => dependency is Nowhere,
        }
    }
}

fn next_of(
    received: &[Received],
    table: &Vec<OffsetIndex>,
    missing: &Vec<ObjectId>,
    index: usize,
) -> (next: Next)
    requires
        strictly_sorted(received@),
        is_offset_table(table@, received@),
        sorted(missing@),
        index < received@.len(),
    ensures
        next.is(dependency(received@, missing@, index as int)),
        next matches Next::On(base) ==> base < received@.len(),
{
    let item = received[index];
    match item.header {
        Header::OfsDelta { base_distance } => {
            match Header::verified_base_pack_offset(item.offset, base_distance) {
                Some(offset) => match index_at_offset(received, table, offset) {
                    Some(base) => {
                        proof {
                            let chosen = choose|b: int| at_offset(received@, offset, b);
                            assert(at_offset(received@, offset, base as int));
                            assert(at_offset(received@, offset, chosen));
                            assert(chosen == base) by {
                                if chosen < base {
                                    assert(received@[chosen].offset != offset);
                                }
                                if base < chosen {
                                    assert(received@[base as int].offset != offset);
                                }
                            }
                        }
                        Next::On(base)
                    },
                    None => Next::Nowhere,
                },
                None => Next::Nowhere,
            }
        },
        Header::RefDelta { base_id } => match index_of_id(received, &base_id) {
            Some(base) => {
                proof {
                    let chosen = choose|b: int| at_id(received@, base_id, b);
                    assert(at_id(received@, base_id, base as int));
                    assert(at_id(received@, base_id, chosen));
                    assert(chosen == base) by {
                        if chosen < base {
                            assert(received@[chosen].key() < received@[base as int].key());
                        }
                        if base < chosen {
                            assert(received@[base as int].key() < received@[chosen].key());
                        }
                    }
                }
                Next::On(base)
            },
            None => if contains_id(missing, &base_id) {
                Next::Root
            } else {
                Next::Nowhere
            },
        },
        Header::Commit | Header::Tree | Header::Blob | Header::Tag => Next::Root,
    }
}

/// How far the walk over the dependencies has got with an object.
#[derive(Clone, Copy, PartialEq, Eq, Structural)]
enum State {
    Unknown,
    Visiting,
    Rooted,
}

/// What is known between walks: nothing is being visited, and what is marked is rooted.
spec fn settled(state: Seq<State>, received: Seq<Received>, missing: Seq<ObjectId>) -> bool {
    &&& state.len() == received.len()
    &&& forall|i: int| 0 <= i < state.len() ==> #[trigger] state[i] != State::Visiting
    &&& forall|i: int|
        0 <= i < state.len() && #[trigger] state[i] == State::Rooted ==> rooted(
            received,
            missing,
            i,
        )
}

/// `path` is the walk from `start` so far, and `current` is where it leads to.
spec fn is_path(
    path: Seq<usize>,
    current: int,
    start: int,
    received: Seq<Received>,
    missing: Seq<ObjectId>,
) -> bool {
    &&& forall|t: int|
        0 <= t < path.len() ==> #[trigger] path[t] < received.len() && walk(
            received,
            missing,
            start,
            t as nat,
        ) == Some(path[t] as int)
    &&& walk(received, missing, start, path.len()) == Some(current)
    &&& 0 <= current < received.len()
    &&& path.no_duplicates()
}

proof fn lemma_path_is_short(path: Seq<usize>, bound: int)
    requires
        path.no_duplicates(),
        forall|t: int| 0 <= t < path.len() ==> #[trigger] path[t] < bound,
        bound >= 0,
    ensures
        path.len() <= bound,
{
    let numbers = path.map_values(|index: usize| index as int);
    assert(numbers.no_duplicates());
    numbers.unique_seq_to_set();
    let range = vstd::set_lib::set_int_range(0, bound);
    vstd::set_lib::lemma_int_range(0, bound);
    assert(numbers.to_set().subset_of(range)) by {
        assert forall|n: int| numbers.to_set().contains(n) implies range.contains(n) by {
            let t = choose|t: int| 0 <= t < numbers.len() && numbers[t] == n;
            assert(path[t] < bound);
        }
    }
    vstd::set_lib::lemma_len_subset(numbers.to_set(), range);
}

/// An object that depends on a rooted one is rooted.
proof fn lemma_rooted_through(
    received: Seq<Received>,
    missing: Seq<ObjectId>,
    index: int,
    base: int,
)
    requires
        dependency(received, missing, index) == Dependency::On(base),
        rooted(received, missing, base),
    ensures
        rooted(received, missing, index),
{
    let steps = choose|steps: nat| rooted_after(received, missing, base, steps);
    lemma_walk_from_base(received, missing, index, base, steps);
    assert(rooted_after(received, missing, index, steps + 1));
}

proof fn lemma_walk_from_base(
    received: Seq<Received>,
    missing: Seq<ObjectId>,
    index: int,
    base: int,
    steps: nat,
)
    requires
        dependency(received, missing, index) == Dependency::On(base),
    ensures
        walk(received, missing, index, steps + 1) == walk(received, missing, base, steps),
    decreases steps,
{
    if steps > 0 {
        lemma_walk_from_base(received, missing, index, base, (steps - 1) as nat);
    } else {
        assert(walk(received, missing, index, 0) == Some(index));
        assert(walk(received, missing, index, 1) == Some(base));
    }
}

/// Everything on the path to a rooted object is rooted.
proof fn lemma_path_is_rooted(
    path: Seq<usize>,
    current: int,
    start: int,
    received: Seq<Received>,
    missing: Seq<ObjectId>,
    from: int,
)
    requires
        is_path(path, current, start, received, missing),
        rooted(received, missing, current),
        0 <= from <= path.len(),
    ensures
        forall|t: int|
            from <= t < path.len() ==> rooted(received, missing, #[trigger] path[t] as int),
    decreases path.len() - from,
{
    if from < path.len() {
        lemma_path_is_rooted(path, current, start, received, missing, from + 1);
        let here = path[from] as int;
        let next = if from + 1 < path.len() {
            path[from + 1] as int
        } else {
            current
        };
        assert(walk(received, missing, start, from as nat) == Some(here));
        assert(walk(received, missing, start, (from + 1) as nat) == Some(next));
        assert(dependency(received, missing, here) == Dependency::On(next));
        lemma_rooted_through(received, missing, here, next);
    }
}

/// A walk that comes back to its own path never ends.
proof fn lemma_cycle_is_unrooted(
    path: Seq<usize>,
    current: usize,
    start: int,
    received: Seq<Received>,
    missing: Seq<ObjectId>,
)
    requires
        is_path(path, current as int, start, received, missing),
        path.contains(current),
    ensures
        !rooted(received, missing, start),
{
    if rooted(received, missing, start) {
        let steps = choose|steps: nat| rooted_after(received, missing, start, steps);
        lemma_cycle_stays_on_path(path, current, start, received, missing, steps);
        let t = choose|t: int|
            0 <= t < path.len() && walk(received, missing, start, steps) == Some(path[t] as int);
        let next = if t + 1 < path.len() {
            path[t + 1] as int
        } else {
            current as int
        };
        assert(walk(received, missing, start, t as nat) == Some(path[t] as int));
        assert(walk(received, missing, start, (t + 1) as nat) == Some(next));
    }
}

proof fn lemma_cycle_stays_on_path(
    path: Seq<usize>,
    current: usize,
    start: int,
    received: Seq<Received>,
    missing: Seq<ObjectId>,
    steps: nat,
)
    requires
        is_path(path, current as int, start, received, missing),
        path.contains(current),
    ensures
        exists|t: int|
            0 <= t < path.len() && walk(received, missing, start, steps) == Some(
                #[trigger] path[t] as int,
            ),
    decreases steps,
{
    if steps == 0 {
        assert(walk(received, missing, start, 0) == Some(start));
        assert(walk(received, missing, start, 0) == Some(path[0] as int));
    } else {
        lemma_cycle_stays_on_path(path, current, start, received, missing, (steps - 1) as nat);
        let t = choose|t: int|
            0 <= t < path.len() && walk(received, missing, start, (steps - 1) as nat) == Some(
                path[t] as int,
            );
        assert(walk(received, missing, start, t as nat) == Some(path[t] as int));
        if t + 1 < path.len() {
            assert(walk(received, missing, start, (t + 1) as nat) == Some(path[t + 1] as int));
            assert(walk(received, missing, start, steps) == Some(path[t + 1] as int));
        } else {
            assert(walk(received, missing, start, (t + 1) as nat) == Some(current as int));
            let again = choose|again: int| 0 <= again < path.len() && path[again] == current;
            assert(walk(received, missing, start, steps) == Some(path[again] as int));
        }
    }
}

/// A walk that leads nowhere does not end in a root.
proof fn lemma_dead_end_is_unrooted(
    path: Seq<usize>,
    current: int,
    start: int,
    received: Seq<Received>,
    missing: Seq<ObjectId>,
)
    requires
        is_path(path, current, start, received, missing),
        dependency(received, missing, current) is Nowhere,
    ensures
        !rooted(received, missing, start),
{
    if rooted(received, missing, start) {
        let steps = choose|steps: nat| rooted_after(received, missing, start, steps);
        if steps < path.len() {
            let t = steps as int;
            let next = if t + 1 < path.len() {
                path[t + 1] as int
            } else {
                current
            };
            assert(walk(received, missing, start, t as nat) == Some(path[t] as int));
            assert(walk(received, missing, start, (t + 1) as nat) == Some(next));
        } else {
            lemma_walk_is_over(received, missing, start, path.len(), steps);
        }
    }
}

proof fn lemma_walk_is_over(
    received: Seq<Received>,
    missing: Seq<ObjectId>,
    start: int,
    end: nat,
    steps: nat,
)
    requires
        walk(received, missing, start, end) matches Some(index) && dependency(
            received,
            missing,
            index,
        ) is Nowhere,
        steps > end,
    ensures
        walk(received, missing, start, steps) is None,
    decreases steps,
{
    if steps > end + 1 {
        lemma_walk_is_over(received, missing, start, end, (steps - 1) as nat);
    }
}

/// The walk along `path` fails at `current`.
proof fn lemma_path_fails(
    path: Seq<usize>,
    current: usize,
    start: int,
    received: Seq<Received>,
    missing: Seq<ObjectId>,
)
    requires
        is_path(path, current as int, start, received, missing),
        dependency(received, missing, current as int) is Nowhere || path.contains(current),
    ensures
        fails_after(received, missing, start, current as int, path.len()),
{
    assert forall|a: nat, b: nat| a < b < path.len() implies #[trigger] walk(
        received,
        missing,
        start,
        a,
    ) != #[trigger] walk(received, missing, start, b) by {
        assert(walk(received, missing, start, a) == Some(path[a as int] as int));
        assert(walk(received, missing, start, b) == Some(path[b as int] as int));
    }
    if path.contains(current) {
        let earlier = choose|t: int| 0 <= t < path.len() && path[t] == current;
        assert(walk(received, missing, start, earlier as nat) == Some(path[earlier] as int));
    }
}

/// Follows the dependencies of the object at `start` to their end, and marks those on the way.
fn trace<I: Fn() -> bool>(
    received: &[Received],
    table: &Vec<OffsetIndex>,
    missing: &Vec<ObjectId>,
    state: &mut Vec<State>,
    path: &mut Vec<usize>,
    start: usize,
    interrupted: &I,
) -> (result: Result<(), Error>)
    requires
        strictly_sorted(received@),
        is_offset_table(table@, received@),
        sorted(missing@),
        settled(old(state)@, received@, missing@),
        start < received@.len(),
        interrupted.requires(()),
    ensures
        result is Ok || result->Err_0 is UnrootedDeltaChain ==> interrupted.ensures((), false),
        match result {
            Ok(()) => settled(final(state)@, received@, missing@) && rooted(
                received@,
                missing@,
                start as int,
            ),
            Err(Error::UnrootedDeltaChain { object_id }) => {
                &&& !rooted(received@, missing@, start as int)
                &&& exists|index: int, steps: nat|
                    #[trigger] fails_after(received@, missing@, start as int, index, steps)
                        && 0 <= index < received@.len() && object_id == received@[index].id
            },
            Err(Error::TreeTraversal(traverse::Error::Interrupted)) => interrupted.ensures(
                (),
                true,
            ),
            Err(_) => false,
        },
{
    path.clear();
    let total: usize = received.len();
    let mut current: usize = start;
    loop
        invariant
            total == received@.len(),
            strictly_sorted(received@),
            is_offset_table(table@, received@),
            sorted(missing@),
            interrupted.requires(()),
            is_path(path@, current as int, start as int, received@, missing@),
            state@.len() == received@.len(),
            forall|i: int|
                0 <= i < state@.len() ==> (#[trigger] state@[i] == State::Visiting
                    <==> path@.contains(i as usize)),
            forall|i: int|
                0 <= i < state@.len() && #[trigger] state@[i] == State::Rooted ==> rooted(
                    received@,
                    missing@,
                    i,
                ),
        ensures
            interrupted.ensures((), false),
            rooted(received@, missing@, current as int),
        decreases received@.len() - path@.len(),
    {
        if interrupted() {
            return Err(Error::TreeTraversal(traverse::Error::Interrupted));
        }
        match state[current] {
            State::Rooted => {
                break;
            },
            State::Visiting => {
                proof {
                    lemma_cycle_is_unrooted(path@, current, start as int, received@, missing@);
                    lemma_path_fails(path@, current, start as int, received@, missing@);
                }
                return Err(Error::UnrootedDeltaChain { object_id: received[current].id });
            },
            State::Unknown => {},
        }
        match next_of(received, table, missing, current) {
            Next::Root => {
                proof {
                    assert(walk(received@, missing@, current as int, 0) == Some(current as int));
                    assert(rooted_after(received@, missing@, current as int, 0));
                }
                break;
            },
            Next::Nowhere => {
                proof {
                    lemma_dead_end_is_unrooted(
                        path@,
                        current as int,
                        start as int,
                        received@,
                        missing@,
                    );
                    lemma_path_fails(path@, current, start as int, received@, missing@);
                }
                return Err(Error::UnrootedDeltaChain { object_id: received[current].id });
            },
            Next::On(base) => {
                let ghost before = path@;
                let ghost marks = state@;
                state.set(current, State::Visiting);
                path.push(current);
                proof {
                    assert(!before.contains(current));
                    lemma_path_is_short(path@, received@.len() as int);
                    assert(path@[before.len() as int] == current);
                    assert forall|i: int| 0 <= i < state@.len() implies (#[trigger] state@[i]
                        == State::Visiting <==> path@.contains(i as usize)) by {
                        if i == current {
                        } else {
                            assert(state@[i] == marks[i]);
                            if before.contains(i as usize) {
                                let t = choose|t: int|
                                    0 <= t < before.len() && before[t] == i as usize;
                                assert(path@[t] == i as usize);
                            }
                        }
                    }
                }
                current = base;
            },
        }
    }
    proof {
        lemma_path_is_rooted(path@, current as int, start as int, received@, missing@, 0);
        if path@.len() > 0 {
            assert(walk(received@, missing@, start as int, 0) == Some(path@[0] as int));
        } else {
            assert(walk(received@, missing@, start as int, 0) == Some(start as int));
        }
    }
    let ghost marks = state@;
    for t in 0..path.len()
        invariant
            total == received@.len(),
            state@.len() == received@.len(),
            marks.len() == state@.len(),
            forall|u: int| 0 <= u < path@.len() ==> #[trigger] path@[u] < received@.len(),
            forall|i: int|
                0 <= i < marks.len() ==> (#[trigger] marks[i] == State::Visiting
                    <==> path@.contains(i as usize)),
            forall|i: int|
                0 <= i < state@.len() && #[trigger] state@[i] != marks[i] ==> state@[i]
                    == State::Rooted && path@.contains(i as usize),
            forall|u: int| 0 <= u < t ==> state@[#[trigger] path@[u] as int] == State::Rooted,
    {
        state.set(path[t], State::Rooted);
        assert(path@.contains(path@[t as int]));
    }
    proof {
        assert forall|i: int| 0 <= i < state@.len() implies #[trigger] state@[i]
            != State::Visiting by {
            if state@[i] == State::Visiting {
                assert(marks[i] == State::Visiting);
                let u = choose|u: int| 0 <= u < path@.len() && path@[u] == i as usize;
                assert(state@[path@[u] as int] == State::Rooted);
            }
        }
        assert forall|i: int|
            0 <= i < state@.len() && #[trigger] state@[i] == State::Rooted implies rooted(
            received@,
            missing@,
            i,
        ) by {
            if marks[i] != State::Rooted {
                let u = choose|u: int| 0 <= u < path@.len() && path@[u] == i as usize;
                assert(rooted(received@, missing@, path@[u] as int));
            }
        }
    }
    Ok(())
}

/// The candidates in order, parted into those that were not received and the places of those that
/// were.
fn split_candidates(
    received: &[Received],
    candidates: &Vec<ObjectId>,
    missing: &mut Vec<ObjectId>,
    starts: &mut Vec<usize>,
)
    requires
        strictly_sorted(received@),
        old(missing)@.len() == 0,
        old(starts)@.len() == 0,
    ensures
        is_missing_of(final(missing)@, received@, candidates@),
        forall|k: int|
            0 <= k < final(starts)@.len() ==> #[trigger] final(starts)@[k] < received@.len()
                && candidates@.contains(received@[final(starts)@[k] as int].id),
        forall|k: int, l: int|
            0 <= k <= l < final(starts)@.len() ==> #[trigger] final(starts)@[k]
                <= #[trigger] final(starts)@[l],
        forall|i: int|
            0 <= i < received@.len() && candidates@.contains(#[trigger] received@[i].id)
                ==> final(starts)@.contains(i as usize),
{
    let ordered = sort_by_key(candidates);
    let ghost absent = |id: ObjectId| !has_id(received@, id);
    proof {
        ordered@.take(0).to_multiset_ensures();
        assert(missing@ =~= ordered@.take(0));
        assert(missing@.to_multiset() =~= ordered@.take(0).to_multiset().filter(absent));
    }
    for k in 0..ordered.len()
        invariant
            strictly_sorted(received@),
            sorted(ordered@),
            absent == (|id: ObjectId| !has_id(received@, id)),
            sorted(missing@),
            forall|m: int| 0 <= m < missing@.len() ==> ordered@.take(k as int).contains(
                #[trigger] missing@[m],
            ),
            missing@.to_multiset() == ordered@.take(k as int).to_multiset().filter(absent),
            forall|m: int|
                0 <= m < starts@.len() ==> #[trigger] starts@[m] < received@.len() && ordered@.take(
                    k as int,
                ).contains(received@[starts@[m] as int].id),
            forall|m: int, l: int|
                0 <= m <= l < starts@.len() ==> #[trigger] starts@[m] <= #[trigger] starts@[l],
            forall|j: int, i: int|
                0 <= j < k && at_id(received@, #[trigger] ordered@[j], i) ==> starts@.contains(
                    #[trigger] index_of(i),
                ),
    {
        let candidate = ordered[k];
        let ghost seen = ordered@.take(k as int);
        let ghost missing_before = missing@;
        let ghost starts_before = starts@;
        proof {
            assert(ordered@.take(k + 1) =~= seen.push(candidate));
            seen.to_multiset_ensures();
            missing@.to_multiset_ensures();
            assert forall|m: int| 0 <= m < seen.len() implies (#[trigger] seen[m]).key()
                <= candidate.key() by {
                assert(seen[m] == ordered@[m]);
            }
            assert forall|id: ObjectId| seen.contains(id) implies seen.push(candidate).contains(
                id,
            ) by {
                let m = choose|m: int| 0 <= m < seen.len() && seen[m] == id;
                assert(seen.push(candidate)[m] == id);
            }
            assert(seen.push(candidate)[k as int] == candidate);
        }
        match index_of_id(received, &candidate) {
            Some(index) => {
                starts.push(index);
                proof {
                    assert(at_id(received@, candidate, index as int));
                    assert(missing@.to_multiset() =~= seen.push(candidate).to_multiset().filter(
                        absent,
                    ));
                    assert forall|m: int, l: int| 0 <= m <= l < starts@.len() implies
                        #[trigger] starts@[m] <= #[trigger] starts@[l] by {
                        if l == starts_before.len() && m < l {
                            let id = received@[starts@[m] as int].id;
                            assert(seen.contains(id));
                            let p = choose|p: int| 0 <= p < seen.len() && seen[p] == id;
                            assert(id.key() <= candidate.key());
                            if starts@[m] > index {
                                assert(received@[index as int].key()
                                    < received@[starts@[m] as int].key());
                            }
                        }
                    }
                    assert forall|j: int, i: int|
                        0 <= j < k + 1 && at_id(
                            received@,
                            #[trigger] ordered@[j],
                            i,
                        ) implies starts@.contains(#[trigger] index_of(i)) by {
                        if j == k {
                            if i < index {
                                assert(received@[i].key() < received@[index as int].key());
                            }
                            if index < i {
                                assert(received@[index as int].key() < received@[i].key());
                            }
                            assert(starts@[starts_before.len() as int] == index_of(i));
                        } else {
                            assert(starts_before.contains(index_of(i)));
                            let m = choose|m: int|
                                0 <= m < starts_before.len() && starts_before[m] == index_of(i);
                            assert(starts@[m] == index_of(i));
                        }
                    }
                }
            },
            None => {
                missing.push(candidate);
                proof {
                    assert(missing@.to_multiset() =~= seen.push(candidate).to_multiset().filter(
                        absent,
                    ));
                    assert forall|a: int, b: int| 0 <= a <= b < missing@.len() implies (
                    #[trigger] missing@[a]).key() <= (#[trigger] missing@[b]).key() by {
                        if b == missing_before.len() && a < b {
                            assert(seen.contains(missing_before[a]));
                        }
                    }
                }
            },
        }
    }
    proof {
        assert(ordered@.take(ordered@.len() as int) =~= ordered@);
        assert forall|k: int| 0 <= k < starts@.len() implies #[trigger] starts@[k] < received@.len()
            && candidates@.contains(received@[starts@[k] as int].id) by {
            lemma_same_contents(ordered@, candidates@, received@[starts@[k] as int].id);
        }
        assert forall|i: int|
            0 <= i < received@.len() && candidates@.contains(
                #[trigger] received@[i].id,
            ) implies starts@.contains(i as usize) by {
            lemma_same_contents(ordered@, candidates@, received@[i].id);
            let j = choose|j: int| 0 <= j < ordered@.len() && ordered@[j] == received@[i].id;
            assert(at_id(received@, ordered@[j], i));
            assert(starts@.contains(index_of(i)));
        }
    }
}

spec fn index_of(index: int) -> usize {
    index as usize
}

/// Returns the lookup candidates that are not already represented by a received object, in order.
///
/// Candidates that were received must have a dependency chain that ends in a whole received object or
/// in a candidate that really is external. Otherwise a virtual lookup root merely hides a cycle that
/// would remain unresolved in the published pack. `received` must be sorted by unique object id.
pub fn missing_bases<I: Fn() -> bool>(
    received: &[Received],
    candidates: Vec<ObjectId>,
    interrupted: I,
) -> (result: Result<Vec<ObjectId>, Error>)
    requires
        strictly_sorted(received@),
        interrupted.requires(()),
    ensures
        (result is Ok || result->Err_0 is UnrootedDeltaChain) && (exists|i: int|
            0 <= i < received@.len() && candidates@.contains(#[trigger] received@[i].id))
            ==> interrupted.ensures((), false),
        match result {
            Ok(missing) => completes(missing@, received@, candidates@),
            Err(Error::UnrootedDeltaChain { object_id }) => is_unrooted_chain(
                received@,
                candidates@,
                object_id,
            ),
            Err(Error::TreeTraversal(traverse::Error::Interrupted)) => {
                &&& interrupted.ensures((), true)
                &&& exists|i: int|
                    0 <= i < received@.len() && candidates@.contains(#[trigger] received@[i].id)
            },
            Err(error) => {
                &&& error is OutOfMemory
                &&& received@.len() > 0 || candidates@.len() > 0
            },
        },
{
    match Room::reserve(received.len(), candidates.len()) {
        Ok(room) => missing_bases_in(received, candidates, interrupted, room),
        Err(error) => Err(error),
    }
}

/// Does what `missing_bases` does, in memory that was set aside before.
pub fn missing_bases_in<I: Fn() -> bool>(
    received: &[Received],
    candidates: Vec<ObjectId>,
    interrupted: I,
    room: Room,
) -> (result: Result<Vec<ObjectId>, Error>)
    requires
        strictly_sorted(received@),
        interrupted.requires(()),
        room.is_unused(),
    ensures
        (result is Ok || result->Err_0 is UnrootedDeltaChain) && (exists|i: int|
            0 <= i < received@.len() && candidates@.contains(#[trigger] received@[i].id))
            ==> interrupted.ensures((), false),
        match result {
            Ok(missing) => completes(missing@, received@, candidates@),
            Err(Error::UnrootedDeltaChain { object_id }) => is_unrooted_chain(
                received@,
                candidates@,
                object_id,
            ),
            Err(Error::TreeTraversal(traverse::Error::Interrupted)) => {
                &&& interrupted.ensures((), true)
                &&& exists|i: int|
                    0 <= i < received@.len() && candidates@.contains(#[trigger] received@[i].id)
            },
            Err(_) => false,
        },
{
    let Room { by_offset, table, mut missing, mut starts, mut state, mut path } = room;
    let table = offset_table(received, by_offset, table);
    split_candidates(received, &candidates, &mut missing, &mut starts);
    for i in 0..received.len()
        invariant
            state@.len() == i,
            forall|j: int| 0 <= j < i ==> #[trigger] state@[j] == State::Unknown,
    {
        state.push(State::Unknown);
    }
    for k in 0..starts.len()
        invariant
            strictly_sorted(received@),
            interrupted.requires(()),
            is_offset_table(table@, received@),
            is_missing_of(missing@, received@, candidates@),
            settled(state@, received@, missing@),
            forall|m: int|
                0 <= m < starts@.len() ==> #[trigger] starts@[m] < received@.len()
                    && candidates@.contains(received@[starts@[m] as int].id),
            forall|m: int, l: int|
                0 <= m <= l < starts@.len() ==> #[trigger] starts@[m] <= #[trigger] starts@[l],
            forall|i: int|
                0 <= i < received@.len() && candidates@.contains(#[trigger] received@[i].id)
                    ==> starts@.contains(i as usize),
            forall|m: int|
                0 <= m < k ==> rooted(received@, missing@, #[trigger] starts@[m] as int),
            k > 0 ==> interrupted.ensures((), false),
    {
        let start = starts[k];
        assert(candidates@.contains(received@[start as int].id));
        if interrupted() {
            return Err(Error::TreeTraversal(traverse::Error::Interrupted));
        }
        match trace(received, &table, &missing, &mut state, &mut path, start, &interrupted) {
            Ok(()) => {},
            Err(error) => {
                proof {
                    if !rooted(received@, missing@, start as int) {
                        assert forall|other: int|
                            0 <= other < start && candidates@.contains(
                                #[trigger] received@[other].id,
                            ) implies rooted(received@, missing@, other) by {
                            let m = choose|m: int|
                                0 <= m < starts@.len() && starts@[m] == other as usize;
                            if m >= k {
                                assert(starts@[k as int] <= starts@[m]);
                            }
                        }
                        assert(first_unrooted(received@, candidates@, missing@, start as int));
                    }
                }
                return Err(error);
            },
        }
    }
    proof {
        assert forall|i: int|
            0 <= i < received@.len() && candidates@.contains(
                #[trigger] received@[i].id,
            ) implies rooted(received@, missing@, i) by {
            let m = choose|m: int| 0 <= m < starts@.len() && starts@[m] == i as usize;
            assert(rooted(received@, missing@, starts@[m] as int));
        }
    }
    Ok(missing)
}

/// `index` is the first place at which an id equals the one before it.
pub open spec fn first_repeat(ids: Seq<ObjectId>, index: int) -> bool {
    &&& 0 < index < ids.len()
    &&& ids[index - 1] == ids[index]
    &&& forall|earlier: int| 0 < earlier < index ==> ids[earlier - 1] != #[trigger] ids[earlier]
}

/// Fails with the first id that equals the one before it.
pub fn ensure_unique(ids: &[ObjectId]) -> (result: Result<(), Error>)
    ensures
        match result {
            Ok(()) => forall|index: int| !first_repeat(ids@, index),
            Err(Error::DuplicateObject { object_id }) => exists|index: int|
                #[trigger] first_repeat(ids@, index) && object_id == ids@[index],
            Err(_) => false,
        },
{
    let mut previous: Option<ObjectId> = None;
    for i in 0..ids.len()
        invariant
            i == 0 ==> previous is None,
            i > 0 ==> previous == Some(ids@[i - 1]),
            forall|index: int| 0 < index < i ==> ids@[index - 1] != #[trigger] ids@[index],
    {
        let id = ids[i];
        if let Some(last) = previous {
            if last.same(&id) {
                assert(first_repeat(ids@, i as int));
                return Err(Error::DuplicateObject { object_id: id });
            }
        }
        previous = Some(id);
    }
    Ok(())
}

/// Where ids are in order, none repeats the one before it exactly if no two are the same.
pub proof fn lemma_ordered_ids_are_unique(ids: Seq<ObjectId>)
    requires
        sorted(ids),
    ensures
        (forall|index: int| !first_repeat(ids, index)) <==> ids.no_duplicates(),
        ids.no_duplicates() <==> strictly_sorted(ids),
{
    if !ids.no_duplicates() {
        let (i, j) = choose|i: int, j: int| 0 <= i < j < ids.len() && ids[i] == ids[j];
        assert(ids[i].key() <= ids[i + 1].key() <= ids[j].key());
        lemma_key_is_unique(ids[i], ids[i + 1]);
        lemma_some_repeat_is_first(ids, i + 1);
    }
    if ids.no_duplicates() {
        assert forall|i: int, j: int| 0 <= i < j < ids.len() implies (#[trigger] ids[i]).key() < (
        #[trigger] ids[j]).key() by {
            if ids[i].key() == ids[j].key() {
                lemma_key_is_unique(ids[i], ids[j]);
            }
        }
    }
}

proof fn lemma_some_repeat_is_first(ids: Seq<ObjectId>, index: int)
    requires
        0 < index < ids.len(),
        ids[index - 1] == ids[index],
    ensures
        exists|first: int| first_repeat(ids, first),
    decreases index,
{
    if !first_repeat(ids, index) {
        let earlier = choose|earlier: int|
            0 < earlier < index && ids[earlier - 1] == #[trigger] ids[earlier];
        lemma_some_repeat_is_first(ids, earlier);
    }
}

/// What is missing is determined by what was received and by the candidates.
pub proof fn lemma_missing_is_determined(
    a: Seq<ObjectId>,
    b: Seq<ObjectId>,
    received: Seq<Received>,
    candidates: Seq<ObjectId>,
)
    requires
        is_missing_of(a, received, candidates),
        is_missing_of(b, received, candidates),
    ensures
        a == b,
{
    let leq = |x: ObjectId, y: ObjectId| x.key() <= y.key();
    assert(vstd::relations::total_ordering(leq)) by {
        assert forall|x: ObjectId, y: ObjectId| #[trigger] leq(x, y) && #[trigger] leq(
            y,
            x,
        ) implies x == y by {
            lemma_key_is_unique(x, y);
        }
    }
    vstd::seq_lib::lemma_sorted_unique(a, b, leq);
}

/// A base that was received is not added again, and every candidate that was not received is.
pub proof fn lemma_missing_are_the_absent_candidates(
    missing: Seq<ObjectId>,
    received: Seq<Received>,
    candidates: Seq<ObjectId>,
    id: ObjectId,
)
    requires
        is_missing_of(missing, received, candidates),
    ensures
        missing.contains(id) <==> candidates.contains(id) && !has_id(received, id),
{
    missing.to_multiset_ensures();
    candidates.to_multiset_ensures();
    let absent = |id: ObjectId| !has_id(received, id);
    assert(candidates.to_multiset().filter(absent).count(id) == missing.to_multiset().count(id));
}

/// A received object depends on what its header says. A delta that tells a distance `d` at offset `o`
/// depends on a received object at `o - d`, and on nobody's where there is none. A delta that names an id
/// depends on the received object with that id; where there is none, on the missing base with that id, or
/// on nobody's. A whole object depends on nothing.
pub proof fn lemma_objects_depend_on_their_base(
    received: Seq<Received>,
    missing: Seq<ObjectId>,
    index: int,
)
    requires
        0 <= index < received.len(),
    ensures
        match received[index].header {
            Header::OfsDelta { base_distance } => match dependency(received, missing, index) {
                Dependency::On(base) => {
                    &&& 0 <= base < received.len()
                    &&& base_distance > 0
                    &&& received[base].offset + base_distance == received[index].offset
                },
                Dependency::Nowhere => base_distance > 0 ==> forall|base: int|
                    0 <= base < received.len() ==> (#[trigger] received[base]).offset
                        + base_distance != received[index].offset,
                Dependency::Root => false,
            },
            Header::RefDelta { base_id } => match dependency(received, missing, index) {
                Dependency::On(base) => 0 <= base < received.len() && received[base].id == base_id,
                Dependency::Root => missing.contains(base_id) && forall|base: int|
                    0 <= base < received.len() ==> (#[trigger] received[base]).id != base_id,
                Dependency::Nowhere => !missing.contains(base_id) && forall|base: int|
                    0 <= base < received.len() ==> (#[trigger] received[base]).id != base_id,
            },
            _ => dependency(received, missing, index) is Root,
        },
{
    match received[index].header {
        Header::OfsDelta { base_distance } => {
            if let Some(offset) = base_pack_offset(received[index].offset, base_distance) {
                if !(exists|base: int| at_offset(received, offset, base)) {
                    assert forall|base: int| 0 <= base < received.len() implies (
                    #[trigger] received[base]).offset + base_distance
                        != received[index].offset by {
                        if received[base].offset == offset {
                            lemma_some_place_is_first(received, offset, base);
                        }
                    }
                }
            }
        },
        Header::RefDelta { base_id } => {
            if has_id(received, base_id) {
                let base = choose|base: int| at_id(received, base_id, base);
                assert(at_id(received, base_id, base));
            } else {
                assert forall|base: int| 0 <= base < received.len() implies (
                #[trigger] received[base]).id != base_id by {
                    assert(!at_id(received, base_id, base));
                }
            }
        },
        _ => {},
    }
}

proof fn lemma_some_place_is_first(received: Seq<Received>, offset: u64, place: int)
    requires
        0 <= place < received.len(),
        received[place].offset == offset,
    ensures
        exists|first: int| at_offset(received, offset, first),
    decreases place,
{
    if !at_offset(received, offset, place) {
        let other = choose|other: int|
            0 <= other < place && (#[trigger] received[other]).offset == offset;
        lemma_some_place_is_first(received, offset, other);
    }
}

/// The base that the delta at `index` tells, by its distance or by its id, was received, and has a smaller
/// rank; or it is named by an id that is looked up elsewhere. Whole objects need none.
pub open spec fn has_ranked_base(
    received: Seq<Received>,
    external: Seq<ObjectId>,
    rank: spec_fn(int) -> nat,
    index: int,
) -> bool {
    match received[index].header {
        Header::OfsDelta { base_distance } => {
            &&& base_distance > 0
            &&& exists|base: int|
                0 <= base < received.len() && (#[trigger] received[base]).offset + base_distance
                    == received[index].offset
            &&& forall|base: int|
                0 <= base < received.len() && (#[trigger] received[base]).offset + base_distance
                    == received[index].offset ==> rank(base) < rank(index)
        },
        Header::RefDelta { base_id } => {
            &&& external.contains(base_id) || exists|base: int|
                0 <= base < received.len() && (#[trigger] received[base]).id == base_id
            &&& forall|base: int|
                0 <= base < received.len() && (#[trigger] received[base]).id == base_id ==> rank(
                    base,
                ) < rank(index)
        },
        _ => true,
    }
}

proof fn lemma_ranked_bases_root(
    received: Seq<Received>,
    missing: Seq<ObjectId>,
    rank: spec_fn(int) -> nat,
    index: int,
)
    requires
        forall|i: int|
            0 <= i < received.len() ==> #[trigger] has_ranked_base(received, missing, rank, i),
        0 <= index < received.len(),
    ensures
        rooted(received, missing, index),
    decreases rank(index),
{
    assert(has_ranked_base(received, missing, rank, index));
    lemma_objects_depend_on_their_base(received, missing, index);
    match dependency(received, missing, index) {
        Dependency::On(base) => {
            assert(0 <= base < received.len());
            assert(received[base].offset >= 0);
            lemma_ranked_bases_root(received, missing, rank, base);
            lemma_rooted_through(received, missing, index, base);
        },
        Dependency::Root => {
            assert(walk(received, missing, index, 0) == Some(index));
            assert(rooted_after(received, missing, index, 0));
        },
        Dependency::Nowhere => {
            assert(false);
        },
    }
}

/// A pack whose deltas can be resolved is not rejected. If received objects can be ranked so that the base
/// of every delta was received and has a smaller rank, or is a candidate that was not received, then no
/// dependency chain is unrooted, however long it is and whatever deltas it is made of.
pub proof fn lemma_resolvable_packs_are_accepted(
    received: Seq<Received>,
    candidates: Seq<ObjectId>,
    rank: spec_fn(int) -> nat,
    object_id: ObjectId,
)
    requires
        forall|i: int|
            0 <= i < received.len() ==> #[trigger] has_ranked_base(received, candidates, rank, i),
    ensures
        !is_unrooted_chain(received, candidates, object_id),
{
    if is_unrooted_chain(received, candidates, object_id) {
        let (missing, start, index, steps) = choose|
            missing: Seq<ObjectId>,
            start: int,
            index: int,
            steps: nat,
        |
            {
                &&& is_missing_of(missing, received, candidates)
                &&& first_unrooted(received, candidates, missing, start)
                &&& #[trigger] fails_after(received, missing, start, index, steps)
                &&& 0 <= index < received.len()
                &&& object_id == received[index].id
            };
        assert forall|i: int| 0 <= i < received.len() implies #[trigger] has_ranked_base(
            received,
            missing,
            rank,
            i,
        ) by {
            assert(has_ranked_base(received, candidates, rank, i));
            if let Header::RefDelta { base_id } = received[i].header {
                lemma_missing_are_the_absent_candidates(missing, received, candidates, base_id);
                if has_id(received, base_id) {
                    let base = choose|base: int| at_id(received, base_id, base);
                    assert(received[base].id == base_id);
                }
            }
        }
        lemma_ranked_bases_root(received, missing, rank, start);
    }
}

/// A sound pack is not rejected. If the base of every received delta was received at a smaller offset, or
/// is a candidate that was not received, then no dependency chain is unrooted.
pub proof fn lemma_sound_packs_are_accepted(
    received: Seq<Received>,
    candidates: Seq<ObjectId>,
    object_id: ObjectId,
)
    requires
        forall|i: int|
            0 <= i < received.len() ==> match (#[trigger] received[i]).header {
                Header::OfsDelta { base_distance } => base_distance > 0 && exists|base: int|
                    0 <= base < received.len() && (#[trigger] received[base]).offset
                        + base_distance == received[i].offset,
                Header::RefDelta { base_id } => {
                    &&& candidates.contains(base_id) || exists|base: int|
                        0 <= base < received.len() && (#[trigger] received[base]).id == base_id
                    &&& forall|base: int|
                        0 <= base < received.len() && (#[trigger] received[base]).id == base_id
                            ==> received[base].offset < received[i].offset
                },
                _ => true,
            },
    ensures
        !is_unrooted_chain(received, candidates, object_id),
{
    let rank = |i: int| received[i].offset as nat;
    assert forall|i: int| 0 <= i < received.len() implies #[trigger] has_ranked_base(
        received,
        candidates,
        rank,
        i,
    ) by {
        assert(received[i].offset >= 0);
    }
    lemma_resolvable_packs_are_accepted(received, candidates, rank, object_id);
}

/// The object at `index` is a delta, and everything that could be its base is in `closed`: every received
/// object at its distance or with the id that it names. Nothing else is looked up for it.
pub open spec fn stays_within(
    received: Seq<Received>,
    external: Seq<ObjectId>,
    closed: Set<int>,
    index: int,
) -> bool {
    match received[index].header {
        Header::OfsDelta { base_distance } => forall|base: int|
            0 <= base < received.len() && (#[trigger] received[base]).offset + base_distance
                == received[index].offset ==> closed.contains(base),
        Header::RefDelta { base_id } => {
            &&& forall|base: int|
                0 <= base < received.len() && (#[trigger] received[base]).id == base_id
                    ==> closed.contains(base)
            &&& external.contains(base_id) ==> exists|base: int|
                0 <= base < received.len() && (#[trigger] received[base]).id == base_id
        },
        _ => false,
    }
}

/// A pack whose deltas go round in circles, or lead nowhere, is rejected. If there are received deltas
/// whose bases are always among themselves, and one of them is a candidate, then nothing completes the
/// pack.
pub proof fn lemma_circles_are_rejected(
    received: Seq<Received>,
    candidates: Seq<ObjectId>,
    missing: Seq<ObjectId>,
    closed: Set<int>,
    start: int,
)
    requires
        forall|i: int|
            #[trigger] closed.contains(i) ==> 0 <= i < received.len() && stays_within(
                received,
                candidates,
                closed,
                i,
            ),
        closed.contains(start),
        candidates.contains(received[start].id),
    ensures
        !completes(missing, received, candidates),
{
    if completes(missing, received, candidates) {
        assert(candidates.contains(received[start].id));
        assert(rooted(received, missing, start));
        let steps = choose|steps: nat| rooted_after(received, missing, start, steps);
        lemma_walk_stays_within(received, candidates, missing, closed, start, steps);
        let end = walk(received, missing, start, steps)->0;
        lemma_no_root_within(received, candidates, missing, closed, end);
    }
}

proof fn lemma_no_root_within(
    received: Seq<Received>,
    candidates: Seq<ObjectId>,
    missing: Seq<ObjectId>,
    closed: Set<int>,
    index: int,
)
    requires
        is_missing_of(missing, received, candidates),
        0 <= index < received.len(),
        stays_within(received, candidates, closed, index),
    ensures
        !(dependency(received, missing, index) is Root),
        dependency(received, missing, index) matches Dependency::On(base) ==> closed.contains(base),
{
    lemma_objects_depend_on_their_base(received, missing, index);
    if let Header::RefDelta { base_id } = received[index].header {
        lemma_missing_are_the_absent_candidates(missing, received, candidates, base_id);
    }
}

proof fn lemma_walk_stays_within(
    received: Seq<Received>,
    candidates: Seq<ObjectId>,
    missing: Seq<ObjectId>,
    closed: Set<int>,
    start: int,
    steps: nat,
)
    requires
        is_missing_of(missing, received, candidates),
        forall|i: int|
            #[trigger] closed.contains(i) ==> 0 <= i < received.len() && stays_within(
                received,
                candidates,
                closed,
                i,
            ),
        closed.contains(start),
    ensures
        walk(received, missing, start, steps) matches Some(index) ==> closed.contains(index),
    decreases steps,
{
    if steps > 0 {
        lemma_walk_stays_within(
            received,
            candidates,
            missing,
            closed,
            start,
            (steps - 1) as nat,
        );
        if let Some(before) = walk(received, missing, start, (steps - 1) as nat) {
            lemma_no_root_within(received, candidates, missing, closed, before);
        }
    }
}

/// The object that is reported for an unrooted chain was received and is a delta. Either nobody has its
/// base, or its chain comes back to it.
pub proof fn lemma_reported_object_has_no_root(
    received: Seq<Received>,
    candidates: Seq<ObjectId>,
    object_id: ObjectId,
)
    requires
        is_unrooted_chain(received, candidates, object_id),
    ensures
        exists|missing: Seq<ObjectId>, index: int|
            {
                &&& 0 <= index < received.len()
                &&& received[index].id == object_id
                &&& received[index].header is OfsDelta || received[index].header is RefDelta
                &&& is_missing_of(missing, received, candidates)
                &&& !(#[trigger] rooted(received, missing, index))
                &&& {
                    ||| dependency(received, missing, index) is Nowhere
                    ||| exists|steps: nat|
                        steps > 0 && #[trigger] walk(received, missing, index, steps) == Some(index)
                }
            },
{
    let (missing, start, index, steps) = choose|
        missing: Seq<ObjectId>,
        start: int,
        index: int,
        steps: nat,
    |
        {
            &&& is_missing_of(missing, received, candidates)
            &&& first_unrooted(received, candidates, missing, start)
            &&& #[trigger] fails_after(received, missing, start, index, steps)
            &&& 0 <= index < received.len()
            &&& object_id == received[index].id
        };
    if rooted(received, missing, index) {
        lemma_rooted_along_the_walk(received, missing, start, index, steps);
    }
    lemma_objects_depend_on_their_base(received, missing, index);
    if dependency(received, missing, index) is Root {
        assert(walk(received, missing, index, 0) == Some(index));
        assert(rooted_after(received, missing, index, 0));
    }
    if !(dependency(received, missing, index) is Nowhere) {
        let earlier = choose|earlier: nat|
            earlier < steps && #[trigger] walk(received, missing, start, earlier) == Some(index);
        lemma_walk_goes_on(received, missing, start, index, earlier, steps);
        assert(walk(received, missing, index, (steps - earlier) as nat) == Some(index));
    }
}

/// An unrooted chain is reported for the candidate that comes first: it was received and does not end in a
/// root, every received candidate with a smaller id does, and what is reported lies on its chain.
pub proof fn lemma_first_candidate_is_reported(
    received: Seq<Received>,
    candidates: Seq<ObjectId>,
    object_id: ObjectId,
)
    requires
        strictly_sorted(received),
        is_unrooted_chain(received, candidates, object_id),
    ensures
        exists|missing: Seq<ObjectId>, start: int, index: int, steps: nat|
            {
                &&& is_missing_of(missing, received, candidates)
                &&& 0 <= start < received.len()
                &&& candidates.contains(received[start].id)
                &&& !rooted(received, missing, start)
                &&& forall|other: int|
                    0 <= other < received.len() && candidates.contains(
                        (#[trigger] received[other]).id,
                    ) && received[other].id.key() < received[start].id.key() ==> rooted(
                        received,
                        missing,
                        other,
                    )
                &&& #[trigger] walk(received, missing, start, steps) == Some(index)
                &&& 0 <= index < received.len()
                &&& (#[trigger] received[index]).id == object_id
            },
{
    let (missing, start, index, steps) = choose|
        missing: Seq<ObjectId>,
        start: int,
        index: int,
        steps: nat,
    |
        {
            &&& is_missing_of(missing, received, candidates)
            &&& first_unrooted(received, candidates, missing, start)
            &&& #[trigger] fails_after(received, missing, start, index, steps)
            &&& 0 <= index < received.len()
            &&& object_id == received[index].id
        };
    assert(walk(received, missing, start, steps) == Some(index));
    assert forall|other: int|
        0 <= other < received.len() && candidates.contains((#[trigger] received[other]).id)
            && received[other].id.key() < received[start].id.key() implies rooted(
        received,
        missing,
        other,
    ) by {
        if start < other {
            assert(received[start].key() < received[other].key());
        }
        assert(candidates.contains(received[other].id));
    }
}

proof fn lemma_rooted_along_the_walk(
    received: Seq<Received>,
    missing: Seq<ObjectId>,
    start: int,
    index: int,
    steps: nat,
)
    requires
        walk(received, missing, start, steps) == Some(index),
        rooted(received, missing, index),
    ensures
        rooted(received, missing, start),
    decreases steps,
{
    if steps > 0 {
        let before = walk(received, missing, start, (steps - 1) as nat)->0;
        lemma_rooted_through(received, missing, before, index);
        lemma_rooted_along_the_walk(received, missing, start, before, (steps - 1) as nat);
    }
}

proof fn lemma_walk_goes_on(
    received: Seq<Received>,
    missing: Seq<ObjectId>,
    start: int,
    middle: int,
    before: nat,
    steps: nat,
)
    requires
        walk(received, missing, start, before) == Some(middle),
        before <= steps,
    ensures
        walk(received, missing, middle, (steps - before) as nat) == walk(
            received,
            missing,
            start,
            steps,
        ),
    decreases steps,
{
    if before < steps {
        lemma_walk_goes_on(received, missing, start, middle, before, (steps - 1) as nat);
        assert((steps - 1 - before) as nat == ((steps - before) as nat - 1) as nat);
    }
}

/// What is missing are the candidates that were not received, none of those that were, and as often as
/// they are candidates.
pub proof fn lemma_missing_is_what_was_not_received(
    missing: Seq<ObjectId>,
    received: Seq<Received>,
    candidates: Seq<ObjectId>,
    id: ObjectId,
)
    requires
        is_missing_of(missing, received, candidates),
    ensures
        missing.to_multiset().count(id) == if exists|i: int|
            0 <= i < received.len() && (#[trigger] received[i]).id == id {
            0
        } else {
            candidates.to_multiset().count(id)
        },
{
    let absent = |id: ObjectId| !has_id(received, id);
    assert(missing.to_multiset().count(id) == candidates.to_multiset().filter(absent).count(id));
    if exists|i: int| 0 <= i < received.len() && (#[trigger] received[i]).id == id {
        let i = choose|i: int| 0 <= i < received.len() && (#[trigger] received[i]).id == id;
        assert(at_id(received, id, i));
    } else if has_id(received, id) {
        let i = choose|i: int| at_id(received, id, i);
        assert(received[i].id == id);
    }
}

} // verus!
