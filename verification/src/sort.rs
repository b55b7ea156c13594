//! Ordering of records by a key, and search in what has been ordered.
use vstd::prelude::*;

verus! {

/// A record that is ordered by an integer key.
pub trait Keyed: Copy {
    /// The key by which the record is ordered.
    spec fn key(&self) -> int;

    /// Whether this record comes strictly before `other`.
    fn precedes(&self, other: &Self) -> (before: bool)
        ensures
            before == (self.key() < other.key()),
    ;
}

/// Keys never decrease from one record to the next.
pub open spec fn sorted<T: Keyed>(records: Seq<T>) -> bool {
    forall|i: int, j: int|
        0 <= i <= j < records.len() ==> (#[trigger] records[i]).key() <= (#[trigger] records[j]).key()
}

/// Keys increase from one record to the next.
pub open spec fn strictly_sorted<T: Keyed>(records: Seq<T>) -> bool {
    forall|i: int, j: int|
        0 <= i < j < records.len() ==> (#[trigger] records[i]).key() < (#[trigger] records[j]).key()
}

/// The records with key `key`, in the order in which they occur.
pub open spec fn with_key<T: Keyed>(records: Seq<T>, key: int) -> Seq<T> {
    records.filter(|record: T| record.key() == key)
}

/// `records` holds what `unordered` holds, and records with the same key keep their order.
pub open spec fn stable_permutation<T: Keyed>(records: Seq<T>, unordered: Seq<T>) -> bool {
    &&& records.to_multiset() == unordered.to_multiset()
    &&& forall|key: int| #[trigger] with_key(records, key) == with_key(unordered, key)
}

proof fn lemma_with_key_add<T: Keyed>(a: Seq<T>, b: Seq<T>, key: int)
    ensures
        with_key(a + b, key) == with_key(a, key) + with_key(b, key),
{
    Seq::filter_distributes_over_add(a, b, |record: T| record.key() == key);
}

proof fn lemma_with_key_none<T: Keyed>(records: Seq<T>, key: int)
    requires
        forall|i: int| 0 <= i < records.len() ==> (#[trigger] records[i]).key() != key,
    ensures
        with_key(records, key) == Seq::<T>::empty(),
    decreases records.len(),
{
    reveal(Seq::filter);
    if records.len() > 0 {
        assert forall|i: int| 0 <= i < records.drop_last().len() implies (
        #[trigger] records.drop_last()[i]).key() != key by {
            assert(records.drop_last()[i] == records[i]);
        }
        lemma_with_key_none(records.drop_last(), key);
    }
}

/// What has the same contents holds the same records.
pub proof fn lemma_same_contents<T>(a: Seq<T>, b: Seq<T>, record: T)
    requires
        a.to_multiset() == b.to_multiset(),
    ensures
        a.contains(record) <==> b.contains(record),
{
    a.to_multiset_ensures();
    b.to_multiset_ensures();
    assert(a.contains(record) <==> a.to_multiset().count(record) > 0);
    assert(b.contains(record) <==> b.to_multiset().count(record) > 0);
}

/// Merges two ordered lists; of two records with the same key the one from `left` comes first.
fn merge<T: Keyed>(left: &Vec<T>, right: &Vec<T>) -> (merged: Vec<T>)
    requires
        sorted(left@),
        sorted(right@),
    ensures
        sorted(merged@),
        stable_permutation(merged@, left@ + right@),
{
    let mut merged: Vec<T> = Vec::new();
    let mut i: usize = 0;
    let mut j: usize = 0;
    proof {
        assert(left@.take(0) + right@.take(0) =~= Seq::<T>::empty());
    }
    while i < left.len() || j < right.len()
        invariant
            i <= left@.len(),
            j <= right@.len(),
            sorted(left@),
            sorted(right@),
            sorted(merged@),
            merged@.to_multiset() == (left@.take(i as int) + right@.take(j as int)).to_multiset(),
            forall|key: int| #[trigger]
                with_key(merged@, key) == with_key(left@.take(i as int), key) + with_key(
                    right@.take(j as int),
                    key,
                ),
            forall|m: int, k: int|
                0 <= m < merged@.len() && i <= k < left@.len() ==> (#[trigger] merged@[m]).key() <= (
                #[trigger] left@[k]).key(),
            forall|m: int, k: int|
                0 <= m < merged@.len() && j <= k < right@.len() ==> (#[trigger] merged@[m]).key() <= (
                #[trigger] right@[k]).key(),
            forall|k: int, m: int|
                0 <= k < j && i <= m < left@.len() ==> (#[trigger] right@[k]).key() < (
                #[trigger] left@[m]).key(),
        decreases (left@.len() - i) + (right@.len() - j),
    {
        let ghost before = merged@;
        let ghost l = left@.take(i as int);
        let ghost r = right@.take(j as int);
        let from_right = j < right.len() && (i >= left.len() || right[j].precedes(&left[i]));
        if from_right {
            let record = right[j];
            merged.push(record);
            proof {
                let r2 = right@.take(j + 1);
                assert(r2 =~= r.push(record));
                assert(l + r2 =~= (l + r).push(record));
                before.to_multiset_ensures();
                (l + r).to_multiset_ensures();
                assert forall|key: int| #[trigger] with_key(merged@, key) == with_key(l, key)
                    + with_key(r2, key) by {
                    assert(before.push(record) =~= before + seq![record]);
                    assert(r.push(record) =~= r + seq![record]);
                    lemma_with_key_add(before, seq![record], key);
                    lemma_with_key_add(r, seq![record], key);
                    assert(with_key(before, key) == with_key(l, key) + with_key(r, key));
                    assert(with_key(merged@, key) =~= with_key(l, key) + with_key(r2, key));
                }
            }
            j = j + 1;
        } else {
            let record = left[i];
            merged.push(record);
            proof {
                let l2 = left@.take(i + 1);
                assert(l2 =~= l.push(record));
                before.to_multiset_ensures();
                (l + r).to_multiset_ensures();
                l.to_multiset_ensures();
                vstd::seq_lib::lemma_multiset_commutative(l, r);
                vstd::seq_lib::lemma_multiset_commutative(l2, r);
                assert((l2 + r).to_multiset() =~= (l + r).to_multiset().insert(record));
                assert forall|key: int| #[trigger] with_key(merged@, key) == with_key(l2, key)
                    + with_key(r, key) by {
                    assert(before.push(record) =~= before + seq![record]);
                    assert(l.push(record) =~= l + seq![record]);
                    lemma_with_key_add(before, seq![record], key);
                    lemma_with_key_add(l, seq![record], key);
                    assert(with_key(before, key) == with_key(l, key) + with_key(r, key));
                    if record.key() == key {
                        // What has come from the right so far precedes this record strictly.
                        assert forall|k: int| 0 <= k < r.len() implies (#[trigger] r[k]).key()
                            != key by {
                            assert(right@[k].key() < left@[i as int].key());
                        }
                        lemma_with_key_none(r, key);
                    } else {
                        assert forall|k: int| 0 <= k < seq![record].len() implies (
                        #[trigger] seq![record][k]).key() != key by {}
                        lemma_with_key_none(seq![record], key);
                    }
                    assert(with_key(merged@, key) =~= with_key(l2, key) + with_key(r, key));
                }
            }
            i = i + 1;
        }
    }
    proof {
        assert(left@.take(left@.len() as int) =~= left@);
        assert(right@.take(right@.len() as int) =~= right@);
        assert forall|key: int| #[trigger] with_key(merged@, key) == with_key(
            left@ + right@,
            key,
        ) by {
            lemma_with_key_add(left@, right@, key);
        }
    }
    merged
}

/// Orders `records` by key; records with the same key keep their order.
pub fn sort_by_key<T: Keyed>(records: &Vec<T>) -> (ordered: Vec<T>)
    ensures
        sorted(ordered@),
        stable_permutation(ordered@, records@),
{
    proof {
        assert(records@.subrange(0, records@.len() as int) =~= records@);
    }
    sort_range(records, 0, records.len())
}

fn sort_range<T: Keyed>(records: &Vec<T>, from: usize, to: usize) -> (ordered: Vec<T>)
    requires
        from <= to <= records@.len(),
    ensures
        sorted(ordered@),
        stable_permutation(ordered@, records@.subrange(from as int, to as int)),
    decreases to - from,
{
    if to - from < 2 {
        let mut ordered: Vec<T> = Vec::new();
        if from < to {
            ordered.push(records[from]);
        }
        assert(ordered@ =~= records@.subrange(from as int, to as int));
        ordered
    } else {
        let middle: usize = from + (to - from) / 2;
        let left = sort_range(records, from, middle);
        let right = sort_range(records, middle, to);
        let ordered = merge(&left, &right);
        proof {
            let l = records@.subrange(from as int, middle as int);
            let r = records@.subrange(middle as int, to as int);
            assert(records@.subrange(from as int, to as int) =~= l + r);
            vstd::seq_lib::lemma_multiset_commutative(left@, right@);
            vstd::seq_lib::lemma_multiset_commutative(l, r);
            assert forall|key: int| #[trigger] with_key(ordered@, key) == with_key(l + r, key) by {
                lemma_with_key_add(l, r, key);
                lemma_with_key_add(left@, right@, key);
                assert(with_key(ordered@, key) == with_key(left@ + right@, key));
                assert(with_key(left@, key) == with_key(l, key));
                assert(with_key(right@, key) == with_key(r, key));
            }
        }
        ordered
    }
}

/// The position of the first record in `records` that does not come before `probe`.
pub fn lower_bound<T: Keyed>(records: &[T], probe: &T) -> (position: usize)
    requires
        sorted(records@),
    ensures
        position <= records@.len(),
        forall|i: int| 0 <= i < position ==> (#[trigger] records@[i]).key() < probe.key(),
        forall|i: int|
            position <= i < records@.len() ==> (#[trigger] records@[i]).key() >= probe.key(),
{
    let mut low: usize = 0;
    let mut high: usize = records.len();
    while low < high
        invariant
            low <= high <= records@.len(),
            sorted(records@),
            forall|i: int| 0 <= i < low ==> (#[trigger] records@[i]).key() < probe.key(),
            forall|i: int|
                high <= i < records@.len() ==> (#[trigger] records@[i]).key() >= probe.key(),
        decreases high - low,
    {
        let middle: usize = low + (high - low) / 2;
        if records[middle].precedes(probe) {
            low = middle + 1;
        } else {
            high = middle;
        }
    }
    low
}

/// The position of a record with the key of `probe`, if there is one; the first one where there
/// are several.
pub fn position_of<T: Keyed>(records: &[T], probe: &T) -> (found: Option<usize>)
    requires
        sorted(records@),
    ensures
        match found {
            Some(position) => {
                &&& position < records@.len()
                &&& records@[position as int].key() == probe.key()
                &&& forall|i: int|
                    0 <= i < position ==> (#[trigger] records@[i]).key() < probe.key()
            },
            None => forall|i: int|
                0 <= i < records@.len() ==> (#[trigger] records@[i]).key() != probe.key(),
        },
{
    let position = lower_bound(records, probe);
    if position < records.len() && !probe.precedes(&records[position]) {
        Some(position)
    } else {
        None
    }
}

} // verus!
