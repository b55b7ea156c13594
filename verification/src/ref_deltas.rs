//! The deltas that wait for a base which is named by its id.
use vstd::prelude::*;

use crate::hash::{lemma_key_is_unique, ObjectId};
use crate::sort::{lower_bound, position_of, strictly_sorted, Keyed};

verus! {

/// For each base that has not been resolved, the indices of the deltas that wait for it. Bases are
/// ordered by id.
pub struct RefDeltaChildren {
    bases: Vec<ObjectId>,
    children: Vec<Vec<u32>>,
}

impl View for RefDeltaChildren {
    type V = Map<ObjectId, Seq<u32>>;

    /// The deltas that wait for each base.
    closed spec fn view(&self) -> Map<ObjectId, Seq<u32>> {
        Map::new(
            |base: ObjectId| self.bases@.contains(base),
            |base: ObjectId| self.children@[self.bases@.index_of(base)]@,
        )
    }
}

impl RefDeltaChildren {
    /// The bases are in order, none twice, and each has its list of deltas.
    pub closed spec fn wf(&self) -> bool {
        &&& strictly_sorted(self.bases@)
        &&& self.children@.len() == self.bases@.len()
    }

    /// The bases in order.
    pub closed spec fn ordered(&self) -> Seq<ObjectId> {
        self.bases@
    }

    proof fn lemma_place(&self, index: int)
        requires
            self.wf(),
            0 <= index < self.bases@.len(),
        ensures
            self.bases@.contains(self.bases@[index]),
            self.bases@.index_of(self.bases@[index]) == index,
            self@.dom().contains(self.bases@[index]),
            self@[self.bases@[index]] == self.children@[index]@,
    {
        let base = self.bases@[index];
        let found = self.bases@.index_of(base);
        assert(self.bases@.contains(base));
        if found < index {
            assert(self.bases@[found].key() < self.bases@[index].key());
        }
        if index < found {
            assert(self.bases@[index].key() < self.bases@[found].key());
        }
    }

    /// The order lists the bases that are waited for, each once, and no others.
    pub proof fn lemma_ordered(&self)
        requires
            self.wf(),
        ensures
            strictly_sorted(self.ordered()),
            forall|base: ObjectId| self@.dom().contains(base) <==> self.ordered().contains(base),
    {
    }

    /// No delta waits.
    pub fn new() -> (waiting: RefDeltaChildren)
        ensures
            waiting.wf(),
            waiting@ == Map::<ObjectId, Seq<u32>>::empty(),
    {
        let waiting = RefDeltaChildren { bases: Vec::new(), children: Vec::new() };
        assert(waiting@ =~= Map::<ObjectId, Seq<u32>>::empty());
        waiting
    }

    /// Whether no delta waits.
    pub fn is_empty(&self) -> (empty: bool)
        requires
            self.wf(),
        ensures
            empty == (self@ == Map::<ObjectId, Seq<u32>>::empty()),
            empty == (self.ordered().len() == 0),
    {
        let empty = self.bases.len() == 0;
        proof {
            if empty {
                assert(self@ =~= Map::<ObjectId, Seq<u32>>::empty());
            } else {
                self.lemma_place(0);
            }
        }
        empty
    }

    /// The number of bases that are waited for.
    pub fn len(&self) -> (len: usize)
        requires
            self.wf(),
        ensures
            len == self.ordered().len(),
    {
        self.bases.len()
    }

    /// The bases that are waited for, in order.
    pub fn keys(&self) -> (bases: Vec<ObjectId>)
        requires
            self.wf(),
        ensures
            bases@ == self.ordered(),
    {
        let mut bases: Vec<ObjectId> = Vec::new();
        for i in 0..self.bases.len()
            invariant
                bases@ == self.bases@.take(i as int),
        {
            bases.push(self.bases[i]);
            assert(bases@ =~= self.bases@.take(i + 1));
        }
        assert(self.bases@.take(self.bases@.len() as int) =~= self.bases@);
        bases
    }

    fn position(&self, base: &ObjectId) -> (found: Option<usize>)
        requires
            self.wf(),
        ensures
            match found {
                Some(index) => index < self.bases@.len() && self.bases@[index as int] == *base,
                None => !self.bases@.contains(*base),
            },
    {
        let found = position_of(self.bases.as_slice(), base);
        proof {
            if let Some(index) = found {
                lemma_key_is_unique(self.bases@[index as int], *base);
            }
        }
        found
    }

    /// Whether a delta waits for `base`.
    pub fn contains_key(&self, base: &ObjectId) -> (found: bool)
        requires
            self.wf(),
        ensures
            found == self@.dom().contains(*base),
    {
        self.position(base).is_some()
    }

    /// The first base, in order, that is waited for.
    pub fn first_key(&self) -> (first: Option<ObjectId>)
        requires
            self.wf(),
        ensures
            match first {
                Some(base) => self.ordered().len() > 0 && base == self.ordered()[0]
                    && self@.dom().contains(base) && forall|other: ObjectId| #[trigger]
                    self@.dom().contains(other) ==> base.key() <= other.key(),
                None => self.ordered().len() == 0 && self@ == Map::<ObjectId, Seq<u32>>::empty(),
            },
    {
        if self.bases.len() > 0 {
            proof {
                self.lemma_place(0);
                assert forall|other: ObjectId| #[trigger]
                    self@.dom().contains(other) implies self.bases@[0].key() <= other.key() by {
                    let i = choose|i: int| 0 <= i < self.bases@.len() && self.bases@[i] == other;
                    if i > 0 {
                        assert(self.bases@[0].key() < self.bases@[i].key());
                    }
                }
            }
            Some(self.bases[0])
        } else {
            assert(self@ =~= Map::<ObjectId, Seq<u32>>::empty());
            None
        }
    }

    /// Takes out the deltas that wait for `base`.
    pub fn remove(&mut self, base: &ObjectId) -> (children: Option<Vec<u32>>)
        requires
            old(self).wf(),
        ensures
            final(self).wf(),
            final(self)@ == old(self)@.remove(*base),
            match children {
                Some(children) => old(self)@.dom().contains(*base) && children@ == old(
                    self,
                )@[*base],
                None => !old(self)@.dom().contains(*base),
            },
    {
        match self.position(base) {
            Some(index) => {
                let ghost before = *self;
                let removed_base = self.bases.remove(index);
                let children = self.children.remove(index);
                proof {
                    before.lemma_place(index as int);
                    assert forall|i: int, j: int| 0 <= i < j < self.bases@.len() implies (
                    #[trigger] self.bases@[i]).key() < (#[trigger] self.bases@[j]).key() by {
                        let i2 = if i < index {
                            i
                        } else {
                            i + 1
                        };
                        let j2 = if j < index {
                            j
                        } else {
                            j + 1
                        };
                        assert(before.bases@[i2].key() < before.bases@[j2].key());
                    }
                    assert forall|other: ObjectId| self@.dom().contains(other) == before@.remove(
                        *base,
                    ).dom().contains(other) by {
                        if self.bases@.contains(other) {
                            let i = choose|i: int|
                                0 <= i < self.bases@.len() && self.bases@[i] == other;
                            let i2 = if i < index {
                                i
                            } else {
                                i + 1
                            };
                            assert(before.bases@[i2] == other);
                            if other == *base {
                                before.lemma_place(i2);
                            }
                        }
                        if before.bases@.contains(other) && other != *base {
                            let i = choose|i: int|
                                0 <= i < before.bases@.len() && before.bases@[i] == other;
                            let i2 = if i < index {
                                i
                            } else {
                                i - 1
                            };
                            assert(self.bases@[i2] == other);
                        }
                    }
                    assert forall|other: ObjectId|
                        self@.dom().contains(other) implies #[trigger] self@[other]
                        == before@.remove(*base)[other] by {
                        let i = choose|i: int|
                            0 <= i < self.bases@.len() && self.bases@[i] == other;
                        let i2 = if i < index {
                            i
                        } else {
                            i + 1
                        };
                        self.lemma_place(i);
                        before.lemma_place(i2);
                        assert(before@.remove(*base).dom().contains(other));
                    }
                    assert(self@ =~= before@.remove(*base));
                }
                Some(children)
            },
            None => {
                assert(self@.remove(*base) =~= self@);
                None
            },
        }
    }

    /// Lets the delta `child` wait for `base`.
    pub fn add(&mut self, base: ObjectId, child: u32)
        requires
            old(self).wf(),
        ensures
            final(self).wf(),
            final(self)@ == old(self)@.insert(
                base,
                if old(self)@.dom().contains(base) {
                    old(self)@[base].push(child)
                } else {
                    seq![child]
                },
            ),
    {
        let ghost before = *self;
        match self.position(&base) {
            Some(index) => {
                proof {
                    self.lemma_place(index as int);
                }
                let mut children = self.children.remove(index);
                children.push(child);
                self.children.insert(index, children);
                proof {
                    assert(self.children@ =~= before.children@.update(index as int, children));
                    let after = before@.insert(base, before@[base].push(child));
                    assert forall|other: ObjectId|
                        self@.dom().contains(other) implies #[trigger] self@[other]
                        == after[other] by {
                        let i = choose|i: int|
                            0 <= i < self.bases@.len() && self.bases@[i] == other;
                        self.lemma_place(i);
                        before.lemma_place(i);
                    }
                    assert(self@ =~= after);
                }
            },
            None => {
                let index = lower_bound(self.bases.as_slice(), &base);
                let mut children: Vec<u32> = Vec::new();
                children.push(child);
                self.bases.insert(index, base);
                self.children.insert(index, children);
                proof {
                    let after = before@.insert(base, seq![child]);
                    assert(children@ =~= seq![child]);
                    assert forall|i: int, j: int| 0 <= i < j < self.bases@.len() implies (
                    #[trigger] self.bases@[i]).key() < (#[trigger] self.bases@[j]).key() by {
                        lemma_inserted_order(before.bases@, base, index as int, i, j);
                    }
                    assert forall|other: ObjectId| self@.dom().contains(other)
                        == after.dom().contains(other) by {
                        if before.bases@.contains(other) {
                            let i = choose|i: int|
                                0 <= i < before.bases@.len() && before.bases@[i] == other;
                            let i2 = if i < index {
                                i
                            } else {
                                i + 1
                            };
                            assert(self.bases@[i2] == other);
                        }
                        assert(self.bases@[index as int] == base);
                        if self.bases@.contains(other) && other != base {
                            let i = choose|i: int|
                                0 <= i < self.bases@.len() && self.bases@[i] == other;
                            let i2 = if i < index {
                                i
                            } else {
                                i - 1
                            };
                            assert(before.bases@[i2] == other);
                        }
                    }
                    assert forall|other: ObjectId|
                        self@.dom().contains(other) implies #[trigger] self@[other]
                        == after[other] by {
                        let i = choose|i: int|
                            0 <= i < self.bases@.len() && self.bases@[i] == other;
                        self.lemma_place(i);
                        if i < index {
                            before.lemma_place(i);
                        } else if i > index {
                            before.lemma_place(i - 1);
                        }
                    }
                    assert(self@ =~= after);
                }
            },
        }
    }
}

proof fn lemma_inserted_order(ids: Seq<ObjectId>, id: ObjectId, index: int, i: int, j: int)
    requires
        strictly_sorted(ids),
        !ids.contains(id),
        0 <= index <= ids.len(),
        forall|k: int| 0 <= k < index ==> (#[trigger] ids[k]).key() < id.key(),
        forall|k: int| index <= k < ids.len() ==> (#[trigger] ids[k]).key() >= id.key(),
        0 <= i < j < ids.len() + 1,
    ensures
        ids.insert(index, id)[i].key() < ids.insert(index, id)[j].key(),
{
    if i < index && j > index {
        assert(ids[i].key() < ids[j - 1].key());
    } else if i == index {
        assert(ids[j - 1].key() >= id.key());
        if ids[j - 1].key() == id.key() {
            lemma_key_is_unique(ids[j - 1], id);
        }
    } else if i > index {
        assert(ids[i - 1].key() < ids[j - 1].key());
    } else if j < index {
        assert(ids[i].key() < ids[j].key());
    }
}

} // verus!
