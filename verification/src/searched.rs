//! What a search for external bases asks for, and what it reports in the end.
use vstd::prelude::*;

use crate::hash::{object_digest, HashKind, ObjectId};
use crate::ref_deltas::RefDeltaChildren;
use crate::sort::{strictly_sorted, Keyed};
use crate::traverse::{
    is_id_of, transition, Action, Error, Event, ExternalBasesView, Lookup, Stage,
};

verus! {

/// A whole search, step by step. What waits before each step is given by `waiting`: it may change in
/// between, as deltas on objects of the pack are resolved. `left` is what waits after each step.
pub open spec fn is_search(
    views: Seq<ExternalBasesView>,
    waiting: Seq<RefDeltaChildren>,
    events: Seq<Event>,
    left: Seq<RefDeltaChildren>,
    actions: Seq<Action>,
) -> bool {
    &&& views.len() == events.len() + 1
    &&& waiting.len() == events.len()
    &&& left.len() == events.len()
    &&& actions.len() == events.len()
    &&& forall|i: int| 0 <= i < views.len() ==> (#[trigger] views[i]).wf()
    &&& forall|i: int|
        0 <= i < events.len() ==> {
            let event = #[trigger] events[i];
            &&& waiting[i].wf()
            &&& views[i].expects(event)
            &&& transition(views[i], waiting[i], event, views[i + 1], left[i], actions[i])
        }
}

/// The event tells that the deltas on a base were resolved.
pub open spec fn tells_resolved(event: Event) -> bool {
    event is Resolved && event->Resolved_0 is Ok
}

/// The bases whose deltas were handed out and then resolved, in order, within the first `upto` steps: an
/// action asked to resolve the deltas on the base, and the event that came next told that it was done.
pub open spec fn resolved_bases(events: Seq<Event>, actions: Seq<Action>, upto: int) -> Seq<
    ObjectId,
>
    decreases upto,
{
    if upto <= 1 {
        Seq::empty()
    } else {
        let before = resolved_bases(events, actions, upto - 1);
        match actions[upto - 2] {
            Action::Resolve { base_id, .. } => if tells_resolved(events[upto - 1]) {
                before.push(base_id)
            } else {
                before
            },
            _ => before,
        }
    }
}

proof fn lemma_found_are_resolved(
    views: Seq<ExternalBasesView>,
    waiting: Seq<RefDeltaChildren>,
    events: Seq<Event>,
    left: Seq<RefDeltaChildren>,
    actions: Seq<Action>,
    upto: int,
)
    requires
        is_search(views, waiting, events, left, actions),
        views[0].stage is Ready,
        views[0].found.len() == 0,
        0 <= upto < views.len(),
    ensures
        views[upto].found == resolved_bases(events, actions, upto),
        views[upto].stage is Resolving ==> upto > 0 && actions[upto - 1] is Resolve,
        upto > 0 ==> match actions[upto - 1] {
            Action::Resolve { base_id, .. } => views[upto].stage matches Stage::Resolving(id, _, _)
                && id == base_id,
            _ => !(views[upto].stage is Resolving),
        },
    decreases upto,
{
    if upto > 0 {
        lemma_found_are_resolved(views, waiting, events, left, actions, upto - 1);
        let event = events[upto - 1];
        assert(views[upto - 1].expects(event));
    } else {
        assert(views[0].found =~= Seq::<ObjectId>::empty());
    }
}

/// When a search is done, the external bases that it reports are exactly those whose deltas were handed
/// out and resolved, whatever their kind, in the order in which that happened. Neither is one left out,
/// nor is another reported.
pub proof fn lemma_reported_bases_are_those_resolved(
    views: Seq<ExternalBasesView>,
    waiting: Seq<RefDeltaChildren>,
    events: Seq<Event>,
    left: Seq<RefDeltaChildren>,
    actions: Seq<Action>,
)
    requires
        is_search(views, waiting, events, left, actions),
        views[0].stage is Ready,
        views[0].found.len() == 0,
        actions.len() > 0,
        actions.last() is Done,
    ensures
        actions.last()->external_bases@ == resolved_bases(events, actions, events.len() as int),
        forall|i: int|
            0 <= i < actions.len() - 1 && (#[trigger] actions[i]) is Resolve && tells_resolved(
                events[i + 1],
            ) ==> actions.last()->external_bases@.contains(
                actions[i]->Resolve_base_id,
            ),
        forall|k: int|
            0 <= k < actions.last()->external_bases@.len() ==> exists|i: int|
                {
                    &&& 0 <= i < actions.len() - 1
                    &&& (#[trigger] actions[i]) is Resolve
                    &&& tells_resolved(events[i + 1])
                    &&& actions[i]->Resolve_base_id
                        == #[trigger] actions.last()->external_bases@[k]
                },
{
    let last = events.len() - 1;
    lemma_found_are_resolved(views, waiting, events, left, actions, last);
    let event = events[last];
    assert(views[last].expects(event));
    assert(event is Continue);
    assert(resolved_bases(events, actions, last + 1) == resolved_bases(events, actions, last));
    let bases = actions.last()->external_bases@;
    assert forall|i: int|
        0 <= i < actions.len() - 1 && (#[trigger] actions[i]) is Resolve && tells_resolved(
            events[i + 1],
        ) implies bases.contains(actions[i]->Resolve_base_id) by {
        lemma_resolved_are_listed(events, actions, i, events.len() as int);
    }
    assert forall|k: int| 0 <= k < bases.len() implies exists|i: int|
        {
            &&& 0 <= i < actions.len() - 1
            &&& (#[trigger] actions[i]) is Resolve
            &&& tells_resolved(events[i + 1])
            &&& actions[i]->Resolve_base_id == #[trigger] bases[k]
        } by {
        lemma_listed_are_resolved(events, actions, k, events.len() as int);
    }
}

proof fn lemma_resolved_are_listed(events: Seq<Event>, actions: Seq<Action>, i: int, upto: int)
    requires
        0 <= i < upto - 1,
        upto <= events.len(),
        events.len() == actions.len(),
        actions[i] is Resolve,
        tells_resolved(events[i + 1]),
    ensures
        resolved_bases(events, actions, upto).contains(actions[i]->Resolve_base_id),
    decreases upto,
{
    let before = resolved_bases(events, actions, upto - 1);
    let all = resolved_bases(events, actions, upto);
    let id = actions[i]->Resolve_base_id;
    if i == upto - 2 {
        assert(all == before.push(id));
        assert(all[before.len() as int] == id);
    } else {
        lemma_resolved_are_listed(events, actions, i, upto - 1);
        let k = choose|k: int| 0 <= k < before.len() && before[k] == id;
        assert(all[k] == id);
    }
}

proof fn lemma_listed_are_resolved(events: Seq<Event>, actions: Seq<Action>, k: int, upto: int)
    requires
        0 <= k < resolved_bases(events, actions, upto).len(),
        upto <= events.len(),
        events.len() == actions.len(),
    ensures
        exists|i: int|
            {
                &&& 0 <= i < upto - 1
                &&& (#[trigger] actions[i]) is Resolve
                &&& tells_resolved(events[i + 1])
                &&& actions[i]->Resolve_base_id == resolved_bases(events, actions, upto)[k]
            },
    decreases upto,
{
    let before = resolved_bases(events, actions, upto - 1);
    if k < before.len() {
        lemma_listed_are_resolved(events, actions, k, upto - 1);
        assert(resolved_bases(events, actions, upto)[k] == before[k]);
    } else {
        let i = upto - 2;
        assert(actions[i] is Resolve);
        assert(tells_resolved(events[i + 1]));
    }
}

/// How the search answers to what follows the lookup of a base. A failed lookup is reported for that
/// base, and one that finds nothing is passed over. An object is accepted exactly if the digest of its kind
/// and content is the id that was looked up; otherwise the error tells both ids.
pub proof fn lemma_lookups_are_checked(
    before: ExternalBasesView,
    waiting: RefDeltaChildren,
    told: Event,
    view: ExternalBasesView,
    left: RefDeltaChildren,
    base_id: ObjectId,
    now_waiting: RefDeltaChildren,
    lookup: Lookup,
    next: ExternalBasesView,
    now_left: RefDeltaChildren,
    action: Action,
)
    requires
        before.wf(),
        before.expects(told),
        transition(before, waiting, told, view, left, Action::LookUp { base_id }),
        transition(view, now_waiting, Event::LookedUp(lookup), next, now_left, action),
    ensures
        told == (Event::Continue { interrupted: false }),
        waiting@.dom().contains(base_id),
        before.pending.contains(base_id),
        now_left == now_waiting,
        match lookup {
            Lookup::Failed => action == Action::Fail(Error::ExternalBaseLookup { base_id }),
            Lookup::Absent => action is Continue,
            Lookup::Found { kind, data } => match object_digest(before.object_hash, kind, data@) {
                None => action == Action::Fail(Error::ObjectHash),
                Some(bytes) => if bytes == base_id@ && base_id.kind() == before.object_hash {
                    action is Copy
                } else {
                    &&& action matches Action::Fail(
                        Error::ExternalBaseIdMismatch { expected, actual },
                    )
                    &&& expected == base_id
                    &&& actual@ == bytes
                    &&& actual.kind() == before.object_hash
                },
            },
        },
{
    assert(before.pending[before.next] == base_id);
}

/// How the search answers once the object that was accepted for a base is copied: the deltas that wait
/// for that base are handed out, all of them and in their order, together with the kind of the object, and
/// no longer wait. Where none waits any more, the base stays unresolved; a failure is passed on.
pub proof fn lemma_waiting_deltas_are_handed_out(
    before: ExternalBasesView,
    waiting: RefDeltaChildren,
    told: Event,
    view: ExternalBasesView,
    left: RefDeltaChildren,
    base_id: ObjectId,
    found_waiting: RefDeltaChildren,
    lookup: Lookup,
    found: ExternalBasesView,
    found_left: RefDeltaChildren,
    now_waiting: RefDeltaChildren,
    copied: Result<(), Error>,
    next: ExternalBasesView,
    now_left: RefDeltaChildren,
    action: Action,
)
    requires
        before.wf(),
        before.expects(told),
        transition(before, waiting, told, view, left, Action::LookUp { base_id }),
        transition(view, found_waiting, Event::LookedUp(lookup), found, found_left, Action::Copy),
        transition(found, now_waiting, Event::Copied(copied), next, now_left, action),
    ensures
        lookup is Found,
        match copied {
            Ok(()) => if now_waiting@.dom().contains(base_id) {
                &&& action matches Action::Resolve { base_id: resolved, kind, children }
                &&& resolved == base_id
                &&& kind == lookup->kind
                &&& is_id_of(base_id, before.object_hash, kind, lookup->data@)
                &&& children@ == now_waiting@[base_id]
                &&& now_left@ == now_waiting@.remove(base_id)
            } else {
                action == Action::Fail(Error::UnresolvedRefDelta { base_id })
            },
            Err(error) => action == Action::Fail(error) && now_left == now_waiting,
        },
{
}

/// After deltas were handed out, a failure to resolve them is passed on, and otherwise the search goes on.
pub proof fn lemma_resolutions_are_heeded(
    before: ExternalBasesView,
    waiting: RefDeltaChildren,
    told: Event,
    view: ExternalBasesView,
    left: RefDeltaChildren,
    asked: Action,
    now_waiting: RefDeltaChildren,
    event: Event,
    next: ExternalBasesView,
    now_left: RefDeltaChildren,
    action: Action,
)
    requires
        before.wf(),
        before.expects(told),
        transition(before, waiting, told, view, left, asked),
        asked is Resolve,
        view.expects(event),
        transition(view, now_waiting, event, next, now_left, action),
    ensures
        event is Resolved,
        now_left == now_waiting,
        match event->Resolved_0 {
            Ok(()) => action is Continue,
            Err(error) => action == Action::Fail(error),
        },
{
}

/// The bases that were looked up, in order, within the first `upto` steps.
pub open spec fn looked_up_bases(actions: Seq<Action>, upto: int) -> Seq<ObjectId>
    decreases upto,
{
    if upto <= 0 {
        Seq::empty()
    } else {
        let before = looked_up_bases(actions, upto - 1);
        match actions[upto - 1] {
            Action::LookUp { base_id } => before.push(base_id),
            _ => before,
        }
    }
}

/// The base was looked up within the first `upto` steps, or it was found that no delta waits for it any
/// more.
pub open spec fn was_dealt_with(
    waiting: Seq<RefDeltaChildren>,
    events: Seq<Event>,
    actions: Seq<Action>,
    base_id: ObjectId,
    upto: int,
) -> bool {
    exists|i: int|
        {
            &&& 0 <= i < upto
            &&& events[i] is Continue
            &&& {
                ||| (#[trigger] actions[i]) == Action::LookUp { base_id }
                ||| !waiting[i]@.dom().contains(base_id)
            }
        }
}

proof fn lemma_bases_are_dealt_with(
    views: Seq<ExternalBasesView>,
    waiting: Seq<RefDeltaChildren>,
    events: Seq<Event>,
    left: Seq<RefDeltaChildren>,
    actions: Seq<Action>,
    upto: int,
)
    requires
        is_search(views, waiting, events, left, actions),
        views[0].next == 0,
        0 <= upto < views.len(),
    ensures
        views[upto].pending == views[0].pending,
        views[upto].object_hash == views[0].object_hash,
        forall|p: int|
            0 <= p < views[upto].next ==> was_dealt_with(
                waiting,
                events,
                actions,
                #[trigger] views[0].pending[p],
                upto,
            ),
    decreases upto,
{
    if upto > 0 {
        lemma_bases_are_dealt_with(views, waiting, events, left, actions, upto - 1);
        let i = upto - 1;
        let event = events[i];
        let pending = views[0].pending;
        assert(views[i].expects(event));
        assert(views[i].next <= views[upto].next <= views[i].next + 1);
        assert forall|p: int| 0 <= p < views[upto].next implies was_dealt_with(
            waiting,
            events,
            actions,
            #[trigger] pending[p],
            upto,
        ) by {
            if p < views[i].next {
                assert(was_dealt_with(waiting, events, actions, pending[p], upto - 1));
                let step = choose|step: int|
                    {
                        &&& 0 <= step < upto - 1
                        &&& events[step] is Continue
                        &&& {
                            ||| (#[trigger] actions[step]) == Action::LookUp { base_id: pending[p] }
                            ||| !waiting[step]@.dom().contains(pending[p])
                        }
                    };
                assert(0 <= step < upto);
                assert(actions[step] == actions[step]);
            } else {
                assert(p == views[i].next);
                assert(actions[i] == Action::LookUp { base_id: pending[p] }
                    || !waiting[i]@.dom().contains(pending[p]));
            }
        }
    }
}

/// No base is forgotten. When a search with a lookup is done, or fails because a base was not found, every
/// base that was waited for in the beginning has been looked up, or no delta waited for it any more.
pub proof fn lemma_no_base_is_forgotten(
    views: Seq<ExternalBasesView>,
    waiting: Seq<RefDeltaChildren>,
    events: Seq<Event>,
    left: Seq<RefDeltaChildren>,
    actions: Seq<Action>,
    first: RefDeltaChildren,
    base_id: ObjectId,
    object_hash: HashKind,
)
    requires
        is_search(views, waiting, events, left, actions),
        first.wf(),
        views[0].begins(first, true, object_hash),
        actions.len() > 0,
        events.last() is Continue,
        actions.last() is Done || (actions.last() is Fail && actions.last()->Fail_0
            is UnresolvedRefDelta),
        first@.dom().contains(base_id),
    ensures
        was_dealt_with(waiting, events, actions, base_id, events.len() as int),
{
    let last = events.len() - 1;
    let event = events[last];
    lemma_bases_are_dealt_with(views, waiting, events, left, actions, last);
    lemma_bases_are_dealt_with(views, waiting, events, left, actions, last + 1);
    first.lemma_ordered();
    assert(first.ordered().contains(base_id));
    let p = choose|p: int| 0 <= p < first.ordered().len() && first.ordered()[p] == base_id;
    assert(views[0].pending[p] == base_id);
    assert(views[last].expects(event));
    assert(views[last + 1].next == views[0].pending.len());
}

proof fn lemma_lookups_follow_the_order(
    views: Seq<ExternalBasesView>,
    waiting: Seq<RefDeltaChildren>,
    events: Seq<Event>,
    left: Seq<RefDeltaChildren>,
    actions: Seq<Action>,
    upto: int,
)
    requires
        is_search(views, waiting, events, left, actions),
        views[0].next == 0,
        0 <= upto < views.len(),
    ensures
        views[upto].pending == views[0].pending,
        strictly_sorted(looked_up_bases(actions, upto)),
        forall|k: int|
            0 <= k < looked_up_bases(actions, upto).len() ==> views[0].pending.take(
                views[upto].next,
            ).contains(#[trigger] looked_up_bases(actions, upto)[k]),
    decreases upto,
{
    if upto > 0 {
        lemma_lookups_follow_the_order(views, waiting, events, left, actions, upto - 1);
        let i = upto - 1;
        let event = events[i];
        let pending = views[0].pending;
        assert(views[i].expects(event));
        assert(views[i].wf());
        assert(views[upto].wf());
        let before = looked_up_bases(actions, i);
        let all = looked_up_bases(actions, upto);
        assert forall|k: int| 0 <= k < all.len() implies pending.take(
            views[upto].next,
        ).contains(#[trigger] all[k]) by {
            if k < before.len() {
                assert(before[k] == all[k]);
                let p = choose|p: int|
                    0 <= p < views[i].next && pending.take(views[i].next)[p] == before[k];
                assert(pending.take(views[upto].next)[p] == all[k]);
            } else {
                assert(pending.take(views[upto].next)[views[i].next] == all[k]);
            }
        }
        assert forall|a: int, b: int| 0 <= a < b < all.len() implies (#[trigger] all[a]).key() < (
        #[trigger] all[b]).key() by {
            if b < before.len() {
                assert(before[a].key() < before[b].key());
            } else {
                assert(before[a] == all[a]);
                let p = choose|p: int|
                    0 <= p < views[i].next && pending.take(views[i].next)[p] == before[a];
                assert(pending[p].key() < pending[views[i].next].key());
            }
        }
    }
}

/// Bases are looked up in order, none twice, and only such as were waited for in the beginning.
pub proof fn lemma_bases_are_looked_up_once(
    views: Seq<ExternalBasesView>,
    waiting: Seq<RefDeltaChildren>,
    events: Seq<Event>,
    left: Seq<RefDeltaChildren>,
    actions: Seq<Action>,
    first: RefDeltaChildren,
    object_hash: HashKind,
)
    requires
        is_search(views, waiting, events, left, actions),
        first.wf(),
        views[0].begins(first, true, object_hash),
    ensures
        strictly_sorted(looked_up_bases(actions, actions.len() as int)),
        looked_up_bases(actions, actions.len() as int).no_duplicates(),
        forall|k: int|
            0 <= k < looked_up_bases(actions, actions.len() as int).len()
                ==> first@.dom().contains(
                #[trigger] looked_up_bases(actions, actions.len() as int)[k],
            ),
{
    let upto = actions.len() as int;
    lemma_lookups_follow_the_order(views, waiting, events, left, actions, upto);
    first.lemma_ordered();
    let all = looked_up_bases(actions, upto);
    assert forall|k: int| 0 <= k < all.len() implies first@.dom().contains(#[trigger] all[k]) by {
        let p = choose|p: int|
            0 <= p < views[upto].next && views[0].pending.take(views[upto].next)[p] == all[k];
        assert(views[upto].wf());
        assert(first.ordered()[p] == all[k]);
        assert(first.ordered().contains(all[k]));
    }
    assert forall|a: int, b: int| 0 <= a < all.len() && 0 <= b < all.len() && a != b implies all[a]
        != all[b] by {
        if a < b {
            assert(all[a].key() < all[b].key());
        } else {
            assert(all[b].key() < all[a].key());
        }
    }
}

/// A search whose bases are all dealt with ends. It is done exactly if no delta waits any more; otherwise it
/// fails, and names the base that is waited for and has the smallest id.
pub proof fn lemma_how_a_search_ends(
    view: ExternalBasesView,
    waiting: RefDeltaChildren,
    interrupted: bool,
    next: ExternalBasesView,
    left: RefDeltaChildren,
    action: Action,
)
    requires
        view.wf(),
        view.stage is Ready,
        view.next == view.pending.len(),
        waiting.wf(),
        transition(view, waiting, Event::Continue { interrupted }, next, left, action),
    ensures
        action is Done <==> forall|base: ObjectId| !(#[trigger] waiting@.dom().contains(base)),
        !(action is Done) ==> {
            &&& action matches Action::Fail(Error::UnresolvedRefDelta { base_id })
            &&& waiting@.dom().contains(base_id)
            &&& forall|other: ObjectId| #[trigger]
                waiting@.dom().contains(other) ==> base_id.key() <= other.key()
        },
{
    waiting.lemma_ordered();
    let ordered = waiting.ordered();
    if ordered.len() > 0 {
        assert(ordered.contains(ordered[0]));
        assert(waiting@.dom().contains(ordered[0]));
        assert forall|other: ObjectId| #[trigger]
            waiting@.dom().contains(other) implies ordered[0].key() <= other.key() by {
            assert(ordered.contains(other));
            let i = choose|i: int| 0 <= i < ordered.len() && ordered[i] == other;
            if i > 0 {
                assert(ordered[0].key() < ordered[i].key());
            }
        }
    } else {
        assert forall|base: ObjectId| !(#[trigger] waiting@.dom().contains(base)) by {
            assert(!ordered.contains(base));
        }
    }
}

/// An interruption is heeded before each base: while one is requested nothing is looked up. It is reported
/// exactly where bases are left.
pub proof fn lemma_interruptions_are_heeded(
    view: ExternalBasesView,
    waiting: RefDeltaChildren,
    interrupted: bool,
    next: ExternalBasesView,
    left: RefDeltaChildren,
    action: Action,
)
    requires
        view.wf(),
        view.stage is Ready,
        transition(view, waiting, Event::Continue { interrupted }, next, left, action),
    ensures
        left == waiting,
        interrupted && view.next < view.pending.len() <==> action == Action::Fail(
            Error::Interrupted,
        ),
        action matches Action::LookUp { base_id } ==> !interrupted && base_id
            == view.pending[view.next] && waiting@.dom().contains(base_id),
        view.next < view.pending.len() && !interrupted && waiting@.dom().contains(
            view.pending[view.next],
        ) ==> action is LookUp,
{
}

} // verus!
