//! How a publication goes, from the first question to the files that it reports.
use vstd::prelude::*;

use crate::bundle::{file_name, publishes, FileKind, PublishAction, PublishEvent, PublishStage};
use crate::index;

verus! {

/// The event is one that is waited for at this stage.
pub open spec fn is_awaited(stage: PublishStage, event: PublishEvent) -> bool {
    match event {
        PublishEvent::Begin => stage is Start,
        PublishEvent::Found { .. } => stage is FindingData || stage is FindingIndex,
        PublishEvent::Performed(_) => stage is WritingKeep || stage is PersistingData
            || stage is PersistingIndex,
    }
}

/// How a publication begins: a pack without objects is done with, and nothing of it is published. Any
/// other is first looked for, under the name of its data file.
pub proof fn lemma_how_a_publication_begins(
    stage: PublishStage,
    outcome: index::Outcome,
    next: PublishStage,
    action: PublishAction,
)
    requires
        publishes(stage, outcome, PublishEvent::Begin, next, action),
    ensures
        if outcome.num_objects == 0 {
            &&& action matches PublishAction::Done(written)
            &&& written.outcome == outcome
            &&& written.data_name is None
            &&& written.index_name is None
            &&& written.keep_name is None
        } else {
            &&& action matches PublishAction::Find { kind, name }
            &&& kind == FileKind::Data
            &&& name@ == file_name(outcome.data_hash, FileKind::Data)
        },
{
}

/// How a publication goes on from what it asked last.
///
/// If the pack is there, its index is looked for next; if not, the mark is written, then the pack is moved
/// into place, and then its index is looked for. If that is there, the publication is done; if not, it is
/// moved into place first. Each file goes by the name that the hash of the pack gives it, and a failure
/// is passed on.
pub proof fn lemma_how_a_publication_goes_on(
    before: PublishStage,
    outcome: index::Outcome,
    told: PublishEvent,
    stage: PublishStage,
    asked: PublishAction,
    event: PublishEvent,
    next: PublishStage,
    action: PublishAction,
)
    requires
        is_awaited(before, told),
        publishes(before, outcome, told, stage, asked),
        is_awaited(stage, event),
        publishes(stage, outcome, event, next, action),
    ensures
        match asked {
            PublishAction::Find { kind, name } => {
                &&& name@ == file_name(outcome.data_hash, kind)
                &&& event matches PublishEvent::Found { exists }
                &&& match kind {
                    FileKind::Data => if exists {
                        action matches PublishAction::Find { kind: FileKind::Index, .. }
                    } else {
                        action is WriteKeep
                    },
                    FileKind::Index => if exists {
                        action is Done
                    } else {
                        action matches PublishAction::Persist { kind: FileKind::Index, .. }
                    },
                    FileKind::Keep => false,
                }
            },
            PublishAction::WriteKeep { name } => {
                &&& name@ == file_name(outcome.data_hash, FileKind::Keep)
                &&& event is Performed
                &&& match event->Performed_0 {
                    Ok(_) => action matches PublishAction::Persist { kind: FileKind::Data, .. },
                    Err(error) => action == PublishAction::Fail(error),
                }
            },
            PublishAction::Persist { kind, name } => {
                &&& name@ == file_name(outcome.data_hash, kind)
                &&& event is Performed
                &&& match event->Performed_0 {
                    Ok(_) => match kind {
                        FileKind::Data => action matches PublishAction::Find {
                            kind: FileKind::Index,
                            ..
                        },
                        FileKind::Index => action is Done,
                        FileKind::Keep => false,
                    },
                    Err(error) => action == PublishAction::Fail(error),
                }
            },
            PublishAction::Done(_) => false,
            PublishAction::Fail(_) => false,
        },
        match action {
            PublishAction::Find { kind, name } => name@ == file_name(outcome.data_hash, kind),
            PublishAction::WriteKeep { name } => name@ == file_name(
                outcome.data_hash,
                FileKind::Keep,
            ),
            PublishAction::Persist { kind, name } => name@ == file_name(outcome.data_hash, kind),
            _ => true,
        },
{
}

/// A whole publication, step by step.
pub open spec fn is_publication(
    stages: Seq<PublishStage>,
    outcome: index::Outcome,
    events: Seq<PublishEvent>,
    actions: Seq<PublishAction>,
) -> bool {
    &&& stages.len() == events.len() + 1
    &&& actions.len() == events.len()
    &&& stages[0] is Start
    &&& forall|i: int|
        0 <= i < events.len() ==> {
            let event = #[trigger] events[i];
            &&& is_awaited(stages[i], event)
            &&& publishes(stages[i], outcome, event, stages[i + 1], actions[i])
        }
}

/// A mark was written with one of the first `upto` actions.
pub open spec fn has_marked(actions: Seq<PublishAction>, upto: int) -> bool {
    exists|i: int| 0 <= i < upto && (#[trigger] actions[i]) is WriteKeep
}

/// The pack was moved into place with one of the first `upto` actions.
pub open spec fn has_moved(actions: Seq<PublishAction>, kind: FileKind, upto: int) -> bool {
    exists|i: int|
        {
            &&& 0 <= i < upto
            &&& (#[trigger] actions[i]) is Persist
            &&& actions[i]->Persist_kind == kind
        }
}

proof fn lemma_marks_are_remembered(
    stages: Seq<PublishStage>,
    outcome: index::Outcome,
    events: Seq<PublishEvent>,
    actions: Seq<PublishAction>,
    upto: int,
)
    requires
        is_publication(stages, outcome, events, actions),
        0 <= upto < stages.len(),
    ensures
        match stages[upto] {
            PublishStage::Start | PublishStage::FindingData => {
                &&& !has_marked(actions, upto)
                &&& !has_moved(actions, FileKind::Data, upto)
            },
            PublishStage::WritingKeep => {
                &&& has_marked(actions, upto)
                &&& !has_moved(actions, FileKind::Data, upto)
            },
            PublishStage::PersistingData => {
                &&& has_marked(actions, upto)
                &&& has_moved(actions, FileKind::Data, upto)
            },
            PublishStage::FindingIndex { kept } | PublishStage::PersistingIndex { kept } => {
                &&& kept == has_marked(actions, upto)
                &&& kept == has_moved(actions, FileKind::Data, upto)
            },
            PublishStage::Over => true,
        },
    decreases upto,
{
    if upto > 0 {
        let i = upto - 1;
        lemma_marks_are_remembered(stages, outcome, events, actions, i);
        let event = events[i];
        assert(is_awaited(stages[i], event));
        if has_marked(actions, i) {
            let j = choose|j: int| 0 <= j < i && (#[trigger] actions[j]) is WriteKeep;
            assert(actions[j] is WriteKeep);
            assert(has_marked(actions, upto));
        }
        if has_moved(actions, FileKind::Data, i) {
            let j = choose|j: int|
                {
                    &&& 0 <= j < i
                    &&& (#[trigger] actions[j]) is Persist
                    &&& actions[j]->Persist_kind == FileKind::Data
                };
            assert(actions[j] is Persist);
            assert(has_moved(actions, FileKind::Data, upto));
        }
        if has_marked(actions, upto) && !has_marked(actions, i) {
            let j = choose|j: int| 0 <= j < upto && (#[trigger] actions[j]) is WriteKeep;
            assert(j == i) by {
                if j < i {
                    assert(has_marked(actions, i));
                }
            }
        }
        if has_moved(actions, FileKind::Data, upto) && !has_moved(actions, FileKind::Data, i) {
            let j = choose|j: int|
                {
                    &&& 0 <= j < upto
                    &&& (#[trigger] actions[j]) is Persist
                    &&& actions[j]->Persist_kind == FileKind::Data
                };
            assert(j == i) by {
                if j < i {
                    assert(has_moved(actions, FileKind::Data, i));
                }
            }
        }
        if actions[i] is WriteKeep {
            assert(has_marked(actions, upto));
        }
        if actions[i] is Persist && actions[i]->Persist_kind == FileKind::Data {
            assert(has_moved(actions, FileKind::Data, upto));
        }
    }
}

/// What a publication reports is what it did. The pack and its index are reported under their names, unless
/// there was nothing to publish. A mark is reported, under its name, exactly if one was written, and that
/// is exactly if the pack itself was moved into place.
pub proof fn lemma_what_a_publication_reports(
    stages: Seq<PublishStage>,
    outcome: index::Outcome,
    events: Seq<PublishEvent>,
    actions: Seq<PublishAction>,
)
    requires
        is_publication(stages, outcome, events, actions),
        actions.len() > 0,
        actions.last() is Done,
    ensures
        ({
            let written = actions.last()->Done_0;
            let upto = actions.len() as int;
            &&& written.outcome == outcome
            &&& has_marked(actions, upto) == has_moved(actions, FileKind::Data, upto)
            &&& if outcome.num_objects == 0 {
                &&& written.data_name is None
                &&& written.index_name is None
                &&& written.keep_name is None
            } else {
                &&& written.data_name is Some
                &&& written.data_name->0@ == file_name(outcome.data_hash, FileKind::Data)
                &&& written.index_name is Some
                &&& written.index_name->0@ == file_name(outcome.data_hash, FileKind::Index)
                &&& written.keep_name is Some <==> has_marked(actions, upto)
                &&& written.keep_name is Some ==> written.keep_name->0@ == file_name(
                    outcome.data_hash,
                    FileKind::Keep,
                )
            }
        }),
{
    let last = actions.len() - 1;
    let event = events[last];
    lemma_marks_are_remembered(stages, outcome, events, actions, last);
    assert(is_awaited(stages[last], event));
    assert(has_marked(actions, last + 1) == has_marked(actions, last)) by {
        if has_marked(actions, last) {
            let j = choose|j: int| 0 <= j < last && (#[trigger] actions[j]) is WriteKeep;
            assert(actions[j] is WriteKeep);
        }
    }
    assert(has_moved(actions, FileKind::Data, last + 1) == has_moved(
        actions,
        FileKind::Data,
        last,
    )) by {
        if has_moved(actions, FileKind::Data, last) {
            let j = choose|j: int|
                {
                    &&& 0 <= j < last
                    &&& (#[trigger] actions[j]) is Persist
                    &&& actions[j]->Persist_kind == FileKind::Data
                };
            assert(actions[j] is Persist);
        }
    }
    if event is Begin && last > 0 {
        let told = events[last - 1];
        assert(is_awaited(stages[last - 1], told));
        assert(!(stages[last] is Start));
    }
    if outcome.num_objects == 0 && last > 0 {
        let told = events[0];
        assert(is_awaited(stages[0], told));
        assert(stages[1] is Over);
        let then = events[1];
        assert(is_awaited(stages[1], then));
    }
}

} // verus!
