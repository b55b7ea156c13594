//! Traversal of a delta tree: which bases from outside the pack it needs, and when it is complete.
use vstd::prelude::*;

use crate::data;
use crate::hash::{
    compute_hash, lemma_id_is_its_bytes, object_digest, CollisionAttack, HashKind, ObjectId,
    ObjectKind,
};
use crate::ref_deltas::RefDeltaChildren;
use crate::sort::{strictly_sorted, Keyed};
use crate::thin::{can_be_held, reserve_exact};

verus! {

/// Why a traversal failed.
#[derive(Debug)]
pub enum Error {
    /// A compressed entry could not be inflated.
    ZlibInflate,
    /// The resolver failed to obtain the bytes of the entry at `pack_offset`.
    ResolveFailed { pack_offset: u64 },
    /// The header of an entry could not be decoded.
    EntryType,
    /// One of the object inspectors failed.
    Inspect,
    /// The operation was interrupted.
    Interrupted,
    /// An entry was too large to fit in memory.
    OutOfMemory,
    /// The traversal exceeded its cumulative allocation allowance.
    AggregateAllocationLimit,
    /// The delta depth exceeds the supported range.
    DeltaDepthOverflow,
    /// A delta refers to a base at an offset that was never added to the tree.
    OutOfPackRefDelta { base_pack_offset: u64 },
    /// The base object of a ref-delta could not be found.
    UnresolvedRefDelta { base_id: ObjectId },
    /// The base object of a ref-delta could not be looked up.
    ExternalBaseLookup { base_id: ObjectId },
    /// The lookup of a base yielded another object.
    ExternalBaseIdMismatch { expected: ObjectId, actual: ObjectId },
    /// An object could not be hashed.
    ObjectHash,
    /// A thread could not be started.
    SpawnThread,
    /// A delta could not be applied.
    Delta,
}

impl From<std::collections::TryReserveError> for Error {
    fn from(error: std::collections::TryReserveError) -> Error {
        Error::OutOfMemory
    }
}

impl vstd::std_specs::convert::FromSpecImpl<std::collections::TryReserveError> for Error {
    open spec fn obeys_from_spec() -> bool {
        true
    }

    open spec fn from_spec(error: std::collections::TryReserveError) -> Error {
        Error::OutOfMemory
    }
}

/// What an object inspector is told of the object it inspects.
pub struct Context<'a> {
    /// The pack entry that describes the object.
    pub entry: &'a data::Entry,
    /// The offset at which `entry` ends in the pack.
    pub entry_end: u64,
    /// The decompressed object itself.
    pub decompressed: &'a [u8],
    /// The number of bases that the object rests on; zero for an object that is no delta.
    pub level: u16,
}

/// How a traversal is to be done.
#[derive(Clone, Copy, Debug)]
pub struct Options {
    /// The number of threads to use, or as many as there are logical cores.
    pub thread_limit: Option<usize>,
    /// The kind of the ids that the pack holds.
    pub object_hash: HashKind,
    /// The size above which a single allocation is rejected, if there is one.
    pub alloc_limit_bytes: Option<usize>,
}

/// A node of the delta tree.
#[derive(Debug)]
pub struct Item<T> {
    /// Where the entry begins in the pack.
    pub offset: u64,
    /// Where the next entry begins.
    pub next_offset: u64,
    /// What was computed of the object.
    pub data: T,
}

impl<T: Copy> Clone for Item<T> {
    fn clone(&self) -> (item: Item<T>)
        ensures
            item == *self,
    {
        *self
    }
}

impl<T: Copy> Copy for Item<T> {

}

/// What a traversal yields.
#[derive(Debug)]
pub struct Outcome<T> {
    /// The items that have no base in the pack.
    pub roots: Vec<Item<T>>,
    /// The items that are deltas to another object.
    pub children: Vec<Item<T>>,
}

/// `id` is the id, of kind `hash`, of an object with this kind and content.
pub open spec fn is_id_of(id: ObjectId, hash: HashKind, kind: ObjectKind, data: Seq<u8>) -> bool {
    object_digest(hash, kind, data) == Some(id@) && id.kind() == hash
}

/// An id names an object exactly if its bytes are the digest of the kind and the content of that object,
/// and the hash function is the one that made it.
pub proof fn lemma_what_an_id_names(id: ObjectId, hash: HashKind, kind: ObjectKind, data: Seq<u8>)
    ensures
        is_id_of(id, hash, kind, data) <==> {
            &&& object_digest(hash, kind, data) is Some
            &&& object_digest(hash, kind, data)->0 == id@
            &&& match id {
                ObjectId::Sha1(_) => hash == HashKind::Sha1,
                ObjectId::Sha256(_) => hash == HashKind::Sha256,
            }
        },
{
}

/// An object that was looked up as a base.
pub struct BaseObject {
    pub kind: ObjectKind,
    pub content: Seq<u8>,
}

impl BaseObject {
    /// The object has the id `id`, of kind `hash`.
    pub open spec fn has_id(self, id: ObjectId, hash: HashKind) -> bool {
        is_id_of(id, hash, self.kind, self.content)
    }
}

/// Compares the id `actual`, computed of an object that was looked up as `expected`.
pub fn check_base_id(expected: &ObjectId, actual: Result<ObjectId, CollisionAttack>) -> (result:
    Result<(), Error>)
    ensures
        result == match actual {
            Ok(id) => if id == *expected {
                Ok::<(), Error>(())
            } else {
                Err::<(), Error>(Error::ExternalBaseIdMismatch { expected: *expected, actual: id })
            },
            Err(_) => Err::<(), Error>(Error::ObjectHash),
        },
{
    match actual {
        Ok(id) => if id.same(expected) {
            Ok(())
        } else {
            Err(Error::ExternalBaseIdMismatch { expected: *expected, actual: id })
        },
        Err(_) => Err(Error::ObjectHash),
    }
}

/// What an object lookup answers.
pub enum Lookup<'a> {
    /// The lookup itself failed.
    Failed,
    /// There is no such object.
    Absent,
    /// The object was found.
    Found { kind: ObjectKind, data: &'a [u8] },
}

/// What the search for external bases is to be told next.
pub enum Event<'a> {
    /// Go on; `interrupted` tells whether an interruption was requested in the meantime.
    Continue { interrupted: bool },
    /// The answer to `Action::LookUp`.
    LookedUp(Lookup<'a>),
    /// Whether the base could be copied, in answer to `Action::Copy`.
    Copied(Result<(), Error>),
    /// Whether the deltas on the base could be resolved, in answer to `Action::Resolve`.
    Resolved(Result<(), Error>),
}

/// What is to be done for the search for external bases.
pub enum Action {
    /// Come back with `Event::Continue`.
    Continue,
    /// Look up the object with this id.
    LookUp { base_id: ObjectId },
    /// Copy the object that was found, within the allocation budget.
    Copy,
    /// Resolve these deltas on the base that was copied.
    Resolve { base_id: ObjectId, kind: ObjectKind, children: Vec<u32> },
    /// All deltas are resolved; these are the external bases that they needed.
    Done { external_bases: Vec<ObjectId> },
    /// The traversal fails.
    Fail(Error),
}

/// What the search waits for.
pub enum Stage {
    /// To go on to the next base.
    Ready,
    /// The answer to the lookup of this base.
    LookingUp(ObjectId),
    /// The copy of the base with this id and kind. The ghost value is its content.
    Copying(ObjectId, ObjectKind, Ghost<Seq<u8>>),
    /// The resolution of the deltas on the base with this id and kind. The ghost value is its content.
    Resolving(ObjectId, ObjectKind, Ghost<Seq<u8>>),
    /// Nothing any more.
    Over,
}

/// The search for the bases that a pack refers to and does not hold.
pub struct ExternalBases {
    pending: Vec<ObjectId>,
    next: usize,
    found: Vec<ObjectId>,
    contents: Ghost<Seq<BaseObject>>,
    stage: Stage,
    object_hash: HashKind,
}

/// What the search for external bases knows.
pub struct ExternalBasesView {
    /// The bases to look for, in order.
    pub pending: Seq<ObjectId>,
    /// How many of them have been dealt with, or are being dealt with.
    pub next: int,
    /// The bases that were found and resolved.
    pub found: Seq<ObjectId>,
    /// The objects that were found under these ids.
    pub contents: Seq<BaseObject>,
    /// What the search waits for.
    pub stage: Stage,
    /// The kind of the ids.
    pub object_hash: HashKind,
}

impl View for ExternalBases {
    type V = ExternalBasesView;

    closed spec fn view(&self) -> ExternalBasesView {
        ExternalBasesView {
            pending: self.pending@,
            next: self.next as int,
            found: self.found@,
            contents: self.contents@,
            stage: self.stage,
            object_hash: self.object_hash,
        }
    }
}

impl ExternalBasesView {
    /// The base that is being dealt with, if there is one.
    pub open spec fn current(self) -> Option<ObjectId> {
        match self.stage {
            Stage::LookingUp(base_id) => Some(base_id),
            Stage::Copying(base_id, _, _) => Some(base_id),
            Stage::Resolving(base_id, _, _) => Some(base_id),
            _ => None,
        }
    }

    /// The bases come in order and none twice. Those found are among those dealt with. What was found,
    /// and what is copied or resolved, has been seen to have the id that it was looked up by.
    pub open spec fn wf(self) -> bool {
        &&& strictly_sorted(self.pending)
        &&& 0 <= self.next <= self.pending.len()
        &&& strictly_sorted(self.found)
        &&& forall|i: int|
            0 <= i < self.found.len() ==> self.pending.take(
                if self.current() is Some {
                    self.next - 1
                } else {
                    self.next
                },
            ).contains(#[trigger] self.found[i])
        &&& self.current() matches Some(base_id) ==> self.next > 0 && base_id
            == self.pending[self.next - 1]
        &&& self.contents.len() == self.found.len()
        &&& forall|i: int|
            0 <= i < self.found.len() ==> self.contents[i].has_id(
                #[trigger] self.found[i],
                self.object_hash,
            )
        &&& self.stage matches Stage::Copying(base_id, kind, data) ==> is_id_of(
            base_id,
            self.object_hash,
            kind,
            data@,
        )
        &&& self.stage matches Stage::Resolving(base_id, kind, data) ==> is_id_of(
            base_id,
            self.object_hash,
            kind,
            data@,
        )
    }

    /// This is how a search for the bases of `waiting` begins.
    pub open spec fn begins(
        self,
        waiting: RefDeltaChildren,
        has_lookup: bool,
        object_hash: HashKind,
    ) -> bool {
        &&& self.wf()
        &&& self.pending == (if has_lookup {
            waiting.ordered()
        } else {
            Seq::<ObjectId>::empty()
        })
        &&& self.next == 0
        &&& self.found == Seq::<ObjectId>::empty()
        &&& self.contents == Seq::<BaseObject>::empty()
        &&& self.stage is Ready
        &&& self.object_hash == object_hash
    }

    /// The event is one that the search waits for.
    pub open spec fn expects(self, event: Event) -> bool {
        match event {
            Event::Continue { .. } => self.stage is Ready,
            Event::LookedUp(_) => self.stage is LookingUp,
            Event::Copied(_) => self.stage is Copying,
            Event::Resolved(_) => self.stage is Resolving,
        }
    }
}

/// What the search does on `event`: `next` and `left` are what it knows and what still waits
/// afterwards.
pub open spec fn transition(
    view: ExternalBasesView,
    waiting: RefDeltaChildren,
    event: Event,
    next: ExternalBasesView,
    left: RefDeltaChildren,
    action: Action,
) -> bool {
    match event {
        Event::Continue { interrupted } => {
            &&& left == waiting
            &&& if view.next < view.pending.len() {
                let base_id = view.pending[view.next];
                if interrupted {
                    &&& action == Action::Fail(Error::Interrupted)
                    &&& next == ExternalBasesView { stage: Stage::Over, ..view }
                } else if waiting@.dom().contains(base_id) {
                    &&& action == Action::LookUp { base_id }
                    &&& next == ExternalBasesView {
                        next: view.next + 1,
                        stage: Stage::LookingUp(base_id),
                        ..view
                    }
                } else {
                    &&& action == Action::Continue
                    &&& next == ExternalBasesView { next: view.next + 1, ..view }
                }
            } else {
                &&& next == ExternalBasesView { stage: Stage::Over, ..view }
                &&& if waiting.ordered().len() > 0 {
                    action == Action::Fail(
                        Error::UnresolvedRefDelta { base_id: waiting.ordered()[0] },
                    )
                } else {
                    action matches Action::Done { external_bases } && external_bases@ == view.found
                }
            }
        },
        Event::LookedUp(lookup) => {
            let base_id = view.current()->0;
            &&& left == waiting
            &&& match lookup {
                Lookup::Failed => {
                    &&& action == Action::Fail(Error::ExternalBaseLookup { base_id })
                    &&& next == ExternalBasesView { stage: Stage::Over, ..view }
                },
                Lookup::Absent => {
                    &&& action == Action::Continue
                    &&& next == ExternalBasesView { stage: Stage::Ready, ..view }
                },
                Lookup::Found { kind, data } => {
                    if is_id_of(base_id, view.object_hash, kind, data@) {
                        &&& action == Action::Copy
                        &&& next == ExternalBasesView {
                            stage: Stage::Copying(base_id, kind, Ghost(data@)),
                            ..view
                        }
                    } else {
                        &&& next == ExternalBasesView { stage: Stage::Over, ..view }
                        &&& match object_digest(view.object_hash, kind, data@) {
                            Some(_) => {
                                &&& action matches Action::Fail(
                                    Error::ExternalBaseIdMismatch { expected, actual },
                                )
                                &&& expected == base_id
                                &&& is_id_of(actual, view.object_hash, kind, data@)
                            },
                            None => action == Action::Fail(Error::ObjectHash),
                        }
                    }
                },
            }
        },
        Event::Copied(copied) => {
            let base_id = view.current()->0;
            let kind = view.stage->Copying_1;
            match copied {
                Ok(()) => {
                    &&& left@ == waiting@.remove(base_id)
                    &&& if waiting@.dom().contains(base_id) {
                        &&& action matches Action::Resolve {
                            base_id: resolved,
                            kind: resolved_kind,
                            children,
                        }
                        &&& resolved == base_id
                        &&& resolved_kind == kind
                        &&& children@ == waiting@[base_id]
                        &&& next == ExternalBasesView {
                            stage: Stage::Resolving(base_id, kind, view.stage->Copying_2),
                            ..view
                        }
                    } else {
                        &&& action == Action::Fail(Error::UnresolvedRefDelta { base_id })
                        &&& next == ExternalBasesView { stage: Stage::Over, ..view }
                    }
                },
                Err(error) => {
                    &&& left == waiting
                    &&& action == Action::Fail(error)
                    &&& next == ExternalBasesView { stage: Stage::Over, ..view }
                },
            }
        },
        Event::Resolved(resolved) => {
            let base_id = view.current()->0;
            &&& left == waiting
            &&& match resolved {
                Ok(()) => {
                    &&& action == Action::Continue
                    &&& next == ExternalBasesView {
                        found: view.found.push(base_id),
                        contents: view.contents.push(
                            BaseObject {
                                kind: view.stage->Resolving_1,
                                content: view.stage->Resolving_2@,
                            },
                        ),
                        stage: Stage::Ready,
                        ..view
                    }
                },
                Err(error) => {
                    &&& action == Action::Fail(error)
                    &&& next == ExternalBasesView { stage: Stage::Over, ..view }
                },
            }
        },
    }
}

impl ExternalBases {
    /// Prepares to look for the bases of `waiting`, once everything that rests on objects of the pack
    /// is resolved. Without a lookup there is nothing to look for. Whether memory for the bases can be
    /// had, if there are any, depends on the machine.
    pub fn new(waiting: &RefDeltaChildren, has_lookup: bool, object_hash: HashKind) -> (result:
        Result<ExternalBases, Error>)
        requires
            waiting.wf(),
        ensures
            match result {
                Ok(search) => {
                    &&& search@.begins(*waiting, has_lookup, object_hash)
                    &&& has_lookup ==> can_be_held::<ObjectId>(waiting.ordered().len())
                },
                Err(error) => error is OutOfMemory && has_lookup && waiting.ordered().len() > 0,
            },
    {
        let mut found: Vec<ObjectId> = Vec::new();
        if has_lookup {
            if let Err(error) = reserve_exact(&mut found, waiting.len()) {
                return Err(Error::from(error));
            }
        }
        Ok(ExternalBases::begin(waiting, has_lookup, object_hash, found))
    }

    /// Does what `new` does, with memory for the bases that are found.
    pub fn begin(
        waiting: &RefDeltaChildren,
        has_lookup: bool,
        object_hash: HashKind,
        found: Vec<ObjectId>,
    ) -> (search: ExternalBases)
        requires
            waiting.wf(),
            found@.len() == 0,
        ensures
            search@.begins(*waiting, has_lookup, object_hash),
    {
        proof {
            waiting.lemma_ordered();
        }
        let pending: Vec<ObjectId> = if has_lookup {
            waiting.keys()
        } else {
            Vec::new()
        };
        assert(found@ =~= Seq::<ObjectId>::empty());
        assert(!has_lookup ==> pending@ =~= Seq::<ObjectId>::empty());
        ExternalBases {
            pending,
            next: 0,
            found,
            contents: Ghost(Seq::empty()),
            stage: Stage::Ready,
            object_hash,
        }
    }

    /// Takes in `event` and says what is to be done.
    pub fn step(&mut self, event: Event<'_>, waiting: &mut RefDeltaChildren) -> (action: Action)
        requires
            old(self)@.wf(),
            old(waiting).wf(),
            old(self)@.expects(event),
        ensures
            final(self)@.wf(),
            final(waiting).wf(),
            transition(
                old(self)@,
                *old(waiting),
                event,
                final(self)@,
                *final(waiting),
                action,
            ),
    {
        match event {
            Event::Continue { interrupted } => self.go_on(interrupted, waiting),
            Event::LookedUp(lookup) => self.looked_up(lookup, Ghost(*waiting)),
            Event::Copied(copied) => self.copied_base(copied, waiting),
            Event::Resolved(resolved) => self.resolved_base(resolved, Ghost(*waiting)),
        }
    }
}

impl ExternalBases {
    fn go_on(&mut self, interrupted: bool, waiting: &RefDeltaChildren) -> (action: Action)
        requires
            old(self)@.wf(),
            old(self)@.stage is Ready,
            waiting.wf(),
        ensures
            final(self)@.wf(),
            transition(
                old(self)@,
                *waiting,
                Event::Continue { interrupted },
                final(self)@,
                *waiting,
                action,
            ),
    {
        let ghost before = self@;
        if self.next < self.pending.len() {
            if interrupted {
                self.stage = Stage::Over;
                return Action::Fail(Error::Interrupted);
            }
            let base_id = self.pending[self.next];
            self.next = self.next + 1;
            if !waiting.contains_key(&base_id) {
                proof {
                    lemma_found_stay_found(before.pending, before.found, before.next);
                }
                return Action::Continue;
            }
            self.stage = Stage::LookingUp(base_id);
            Action::LookUp { base_id }
        } else {
            self.stage = Stage::Over;
            match waiting.first_key() {
                Some(base_id) => Action::Fail(Error::UnresolvedRefDelta { base_id }),
                None => {
                    let mut external_bases: Vec<ObjectId> = Vec::new();
                    for i in 0..self.found.len()
                        invariant
                            external_bases@ == self.found@.take(i as int),
                    {
                        external_bases.push(self.found[i]);
                        assert(external_bases@ =~= self.found@.take(i + 1));
                    }
                    assert(self.found@.take(self.found@.len() as int) =~= self.found@);
                    Action::Done { external_bases }
                },
            }
        }
    }

    fn looked_up(&mut self, lookup: Lookup<'_>, Ghost(waiting): Ghost<RefDeltaChildren>) -> (action:
        Action)
        requires
            old(self)@.wf(),
            old(self)@.stage is LookingUp,
        ensures
            final(self)@.wf(),
            transition(
                old(self)@,
                waiting,
                Event::LookedUp(lookup),
                final(self)@,
                waiting,
                action,
            ),
    {
        let base_id = match self.stage {
            Stage::LookingUp(base_id) => base_id,
            _ => {
                assert(false);
                return Action::Continue;
            },
        };
        proof {
            lemma_found_stay_found(self@.pending, self@.found, self@.next - 1);
        }
        match lookup {
            Lookup::Failed => {
                self.stage = Stage::Over;
                Action::Fail(Error::ExternalBaseLookup { base_id })
            },
            Lookup::Absent => {
                self.stage = Stage::Ready;
                Action::Continue
            },
            Lookup::Found { kind, data } => {
                let actual = compute_hash(self.object_hash, kind, data);
                proof {
                    if let Ok(id) = actual {
                        if is_id_of(base_id, self.object_hash, kind, data@) {
                            lemma_id_is_its_bytes(id, base_id);
                        }
                    }
                }
                match check_base_id(&base_id, actual) {
                    Ok(()) => {
                        self.stage = Stage::Copying(base_id, kind, Ghost(data@));
                        Action::Copy
                    },
                    Err(error) => {
                        self.stage = Stage::Over;
                        Action::Fail(error)
                    },
                }
            },
        }
    }

    fn copied_base(
        &mut self,
        copied: Result<(), Error>,
        waiting: &mut RefDeltaChildren,
    ) -> (action: Action)
        requires
            old(self)@.wf(),
            old(waiting).wf(),
            old(self)@.stage is Copying,
        ensures
            final(self)@.wf(),
            final(waiting).wf(),
            transition(
                old(self)@,
                *old(waiting),
                Event::Copied(copied),
                final(self)@,
                *final(waiting),
                action,
            ),
    {
        let (base_id, kind, content) = match self.stage {
            Stage::Copying(base_id, kind, content) => (base_id, kind, content),
            _ => {
                assert(false);
                return Action::Continue;
            },
        };
        proof {
            lemma_found_stay_found(self@.pending, self@.found, self@.next - 1);
        }
        match copied {
            Ok(()) => match waiting.remove(&base_id) {
                Some(children) => {
                    self.stage = Stage::Resolving(base_id, kind, content);
                    Action::Resolve { base_id, kind, children }
                },
                None => {
                    self.stage = Stage::Over;
                    Action::Fail(Error::UnresolvedRefDelta { base_id })
                },
            },
            Err(error) => {
                self.stage = Stage::Over;
                Action::Fail(error)
            },
        }
    }

    fn resolved_base(
        &mut self,
        resolved: Result<(), Error>,
        Ghost(waiting): Ghost<RefDeltaChildren>,
    ) -> (action: Action)
        requires
            old(self)@.wf(),
            old(self)@.stage is Resolving,
        ensures
            final(self)@.wf(),
            transition(
                old(self)@,
                waiting,
                Event::Resolved(resolved),
                final(self)@,
                waiting,
                action,
            ),
    {
        let (base_id, kind, content) = match self.stage {
            Stage::Resolving(base_id, kind, content) => (base_id, kind, content),
            _ => {
                assert(false);
                return Action::Continue;
            },
        };
        let ghost before = self@;
        proof {
            lemma_found_stay_found(before.pending, before.found, before.next - 1);
        }
        match resolved {
            Ok(()) => {
                self.found.push(base_id);
                self.contents = Ghost(self.contents@.push(BaseObject { kind, content: content@ }));
                self.stage = Stage::Ready;
                proof {
                    lemma_found_grows(before.pending, before.found, before.next - 1);
                }
                Action::Continue
            },
            Err(error) => {
                self.stage = Stage::Over;
                Action::Fail(error)
            },
        }
    }
}

/// When the search is done, no delta waits for a base any more. The external bases that it reports
/// come in order and none twice. Each is one that was waited for when the search began, and was found
/// to be the id of the object that it was looked up as.
pub proof fn lemma_done_leaves_nothing_waiting(
    view: ExternalBasesView,
    waiting: RefDeltaChildren,
    event: Event,
    next: ExternalBasesView,
    left: RefDeltaChildren,
    action: Action,
)
    requires
        view.wf(),
        view.expects(event),
        waiting.wf(),
        transition(view, waiting, event, next, left, action),
        action is Done,
    ensures
        left@ == Map::<ObjectId, Seq<u32>>::empty(),
        strictly_sorted(action->external_bases@),
        forall|i: int|
            0 <= i < action->external_bases@.len() ==> view.pending.contains(
                #[trigger] action->external_bases@[i],
            ) && view.contents[i].has_id(action->external_bases@[i], view.object_hash),
{
    waiting.lemma_ordered();
    assert forall|base: ObjectId| !(#[trigger] left@.dom().contains(base)) by {
        assert(!waiting.ordered().contains(base));
    }
    assert(left@ =~= Map::<ObjectId, Seq<u32>>::empty());
    let bases = action->external_bases@;
    assert forall|i: int| 0 <= i < bases.len() implies view.pending.contains(
        #[trigger] bases[i],
    ) && view.contents[i].has_id(bases[i], view.object_hash) by {
        assert(bases[i] == view.found[i]);
        assert(view.pending.take(view.next).contains(view.found[i]));
        let p = choose|p: int|
            0 <= p < view.pending.take(view.next).len() && view.pending.take(view.next)[p]
                == view.found[i];
        assert(view.pending[p] == bases[i]);
    }
}

/// Without a lookup, a traversal is complete exactly if no delta is left waiting for a base. Otherwise
/// it fails, and names the first base that is waited for.
pub proof fn lemma_absent_bases_are_reported(
    view: ExternalBasesView,
    waiting: RefDeltaChildren,
    object_hash: HashKind,
    interrupted: bool,
    next: ExternalBasesView,
    left: RefDeltaChildren,
    action: Action,
)
    requires
        waiting.wf(),
        view.begins(waiting, false, object_hash),
        transition(view, waiting, Event::Continue { interrupted }, next, left, action),
    ensures
        action is Done <==> waiting@ == Map::<ObjectId, Seq<u32>>::empty(),
        action is Done ==> action->external_bases@.len() == 0,
        action !is Done ==> action == Action::Fail(
            Error::UnresolvedRefDelta { base_id: waiting.ordered()[0] },
        ),
{
    waiting.lemma_ordered();
    if action is Done {
        lemma_done_leaves_nothing_waiting(
            view,
            waiting,
            Event::Continue { interrupted },
            next,
            left,
            action,
        );
    } else {
        assert(waiting.ordered().contains(waiting.ordered()[0]));
        assert(waiting@.dom().contains(waiting.ordered()[0]));
    }
}

/// Deltas are handed out with a base whose content has the id that they wait for, and they wait no
/// more afterwards: nobody can hand them out again.
pub proof fn lemma_deltas_are_handed_out_once(
    view: ExternalBasesView,
    waiting: RefDeltaChildren,
    event: Event,
    next: ExternalBasesView,
    left: RefDeltaChildren,
    action: Action,
)
    requires
        view.wf(),
        view.expects(event),
        waiting.wf(),
        transition(view, waiting, event, next, left, action),
        action is Resolve,
    ensures
        waiting@.dom().contains(action->Resolve_base_id),
        action->children@ == waiting@[action->Resolve_base_id],
        left@ == waiting@.remove(action->Resolve_base_id),
        is_id_of(
            action->Resolve_base_id,
            view.object_hash,
            action->kind,
            view.stage->Copying_2@,
        ),
{
}

impl ExternalBasesView {
    /// A bound on the number of events that the search still needs.
    pub open spec fn remaining(self) -> int {
        4 * (self.pending.len() - self.next) + match self.stage {
            Stage::Over => 0int,
            Stage::Ready => 1,
            Stage::Resolving(_, _, _) => 2,
            Stage::Copying(_, _, _) => 3,
            Stage::LookingUp(_) => 4,
        }
    }
}

/// The search comes to an end: every event brings it closer.
pub proof fn lemma_search_ends(
    view: ExternalBasesView,
    waiting: RefDeltaChildren,
    event: Event,
    next: ExternalBasesView,
    left: RefDeltaChildren,
    action: Action,
)
    requires
        view.wf(),
        view.expects(event),
        transition(view, waiting, event, next, left, action),
    ensures
        next.remaining() < view.remaining(),
        next.wf() ==> next.remaining() >= 0,
        next.stage is Over <==> action is Done || action is Fail,
{
}

proof fn lemma_found_stay_found(pending: Seq<ObjectId>, found: Seq<ObjectId>, upto: int)
    requires
        0 <= upto < pending.len(),
        forall|i: int| 0 <= i < found.len() ==> pending.take(upto).contains(#[trigger] found[i]),
    ensures
        forall|i: int|
            0 <= i < found.len() ==> pending.take(upto + 1).contains(#[trigger] found[i]),
{
    assert forall|i: int| 0 <= i < found.len() implies pending.take(upto + 1).contains(
        #[trigger] found[i],
    ) by {
        let p = choose|p: int| 0 <= p < upto && pending.take(upto)[p] == found[i];
        assert(pending.take(upto + 1)[p] == found[i]);
    }
}

proof fn lemma_found_grows(pending: Seq<ObjectId>, found: Seq<ObjectId>, place: int)
    requires
        strictly_sorted(pending),
        strictly_sorted(found),
        0 <= place < pending.len(),
        forall|i: int| 0 <= i < found.len() ==> pending.take(place).contains(#[trigger] found[i]),
    ensures
        strictly_sorted(found.push(pending[place])),
        forall|i: int|
            0 <= i < found.push(pending[place]).len() ==> pending.take(place + 1).contains(
                #[trigger] found.push(pending[place])[i],
            ),
{
    let grown = found.push(pending[place]);
    lemma_found_stay_found(pending, found, place);
    assert(pending.take(place + 1)[place] == pending[place]);
    assert forall|i: int, j: int| 0 <= i < j < grown.len() implies (#[trigger] grown[i]).key() < (
    #[trigger] grown[j]).key() by {
        if j == found.len() {
            let p = choose|p: int| 0 <= p < place && pending.take(place)[p] == found[i];
            assert(pending[p].key() < pending[place].key());
        }
    }
    assert forall|i: int| 0 <= i < grown.len() implies pending.take(place + 1).contains(
        #[trigger] grown[i],
    ) by {
        if i < found.len() {
            assert(grown[i] == found[i]);
        }
    }
}

} // verus!
