//! What a completed pack looks like: its objects, and the file that holds it.
use vstd::prelude::*;

use crate::complete::{
    ids_of, lemma_account_is_kept, lemma_limit_on_bases, lemma_objects_are_counted, transition,
    Action, CompletionView, EncodedEntry, Error, Event, Plan, Stage,
};
use crate::data::{be_number, header, lemma_header_reads_back, Version, HEADER_LEN};
use crate::hash::{digest, object_digest, HashKind, ObjectId};
use crate::index::{self, first_duplicate, occurs_twice, TreeEntry};
use crate::sort::{strictly_sorted, Keyed};
use crate::thin::first_repeat;
use crate::traverse::{self, Item, Lookup};

verus! {

/// Once a pack is complete, it counts every object that it was received with and every base that was
/// appended, and it lists each of them: those received unchanged, and then the bases in order, each
/// under the id that the object has which was looked up for it.
pub proof fn lemma_complete_pack_counts_its_objects(view: CompletionView)
    requires
        view.wf(),
        view.stage is Complete,
    ensures
        view.num_objects == view.origin.num_objects + view.origin.missing_bases@.len(),
        view.items.len() == view.origin.items@.len() + view.origin.missing_bases@.len(),
        view.items.take(view.origin.items@.len() as int) == view.origin.items@,
        forall|i: int|
            0 <= i < view.origin.missing_bases@.len() ==> view.items[view.origin.items@.len()
                + i].data.id == #[trigger] view.origin.missing_bases@[i] && view.bases[i].has_id(
                view.origin.missing_bases@[i],
                view.plan.object_hash,
            ),
{
    assert(view.items.take(view.origin.items@.len() as int) =~= view.origin.items@);
    assert forall|i: int| 0 <= i < view.origin.missing_bases@.len() implies view.items[
        view.origin.items@.len() + i].data.id == #[trigger] view.origin.missing_bases@[i]
        && view.bases[i].has_id(view.origin.missing_bases@[i], view.plan.object_hash) by {
        assert(view.items[view.origin.items@.len() + i].data.id == view.missing[i]);
    }
}

/// A file, and the place in it at which the next byte is read or written.
pub struct FileView {
    pub content: Seq<u8>,
    pub position: int,
}

impl FileView {
    /// The file after `bytes` were written.
    pub open spec fn written(self, bytes: Seq<u8>) -> FileView {
        let end = self.position + bytes.len();
        FileView {
            content: self.content.take(self.position) + bytes + if end < self.content.len() {
                self.content.skip(end)
            } else {
                Seq::<u8>::empty()
            },
            position: end,
        }
    }

    /// The file after it was cut, or filled up with zeros, to a length of `len`.
    pub open spec fn truncated(self, len: int) -> FileView {
        FileView {
            content: if len <= self.content.len() {
                self.content.take(len)
            } else {
                self.content + Seq::new((len - self.content.len()) as nat, |i: int| 0u8)
            },
            position: len,
        }
    }

    /// The file, at another place in it.
    pub open spec fn at(self, position: int) -> FileView {
        FileView { content: self.content, position }
    }

    /// The file after `action` was performed.
    pub open spec fn after(self, action: Action) -> FileView {
        match action {
            Action::Truncate { len } => self.truncated(len as int),
            Action::Write(bytes) => self.written(bytes@),
            Action::WriteAtStart(bytes) => self.at(0).written(bytes@).at(0),
            Action::Hash { len } => self.at(self.position + len),
            Action::WriteTrailer(id) => self.written(id@),
            _ => self,
        }
    }
}

/// The event tells that the last action was performed on the file.
pub open spec fn tells_success(event: Event) -> bool {
    match event {
        Event::Performed { ok } => ok,
        Event::Hashed(hashed) => hashed is Some,
        _ => false,
    }
}

/// The file that the completion works on, after `event` has told that its last action was performed.
pub open spec fn file_after(view: CompletionView, event: Event, file: FileView) -> FileView {
    match event {
        Event::Performed { ok: true } => match view.stage {
            Stage::Trimming(_) => file.truncated(view.entries_end + view.plan.object_hash.len()),
            Stage::Truncating => file.truncated(view.entries_end as int),
            Stage::WritingHeader { header, .. } => file.written(header@),
            Stage::WritingContent { content, .. } => file.written(content@),
            Stage::WritingPackHeader => file.at(0).written(
                header(view.plan.pack_version, view.num_objects),
            ).at(0),
            Stage::WritingTrailer(id) => file.written(id@),
            _ => file,
        },
        Event::Hashed(Some(_)) => file.at(file.position + view.entries_end),
        _ => file,
    }
}

/// The file is what the last action makes of it: `file_after` says no more than that.
pub proof fn lemma_file_follows_the_actions(
    before: CompletionView,
    told: Event,
    view: CompletionView,
    action: Action,
    event: Event,
    file: FileView,
)
    requires
        before.wf(),
        before.expects(told),
        transition(before, told, view, action),
        view.expects(event),
    ensures
        file_after(view, event, file) == if tells_success(event) {
            file.after(action)
        } else {
            file
        },
{
}

/// If a hash is reported, it is that of the entries and the header of the pack.
pub open spec fn hashed_truly(view: CompletionView, event: Event, file: FileView) -> bool {
    event matches Event::Hashed(Some(id)) ==> digest(
        view.plan.object_hash,
        file.content.subrange(file.position, file.position + view.entries_end),
    ) == Some(id@)
}

impl CompletionView {
    /// The entries that were received, `received` being the file as it was, and those appended.
    pub open spec fn entries(self, received: Seq<u8>) -> Seq<u8> {
        received.subrange(HEADER_LEN as int, self.origin.entries_end as int) + self.appended
    }

    /// The header of the pack and its entries, as they are to be.
    pub open spec fn body(self, received: Seq<u8>) -> Seq<u8> {
        header(self.plan.pack_version, self.num_objects) + self.entries(received)
    }

    /// What the file holds, `received` being what it held at first.
    pub open spec fn layout(self, file: FileView, received: Seq<u8>) -> bool {
        let unfinished = received.take(self.origin.entries_end as int) + self.appended;
        match self.stage {
            Stage::Start | Stage::Flushing | Stage::Reserving | Stage::Truncating
            | Stage::Trimming(_) => file.content == received,
            Stage::Ready | Stage::LookingUp(_) | Stage::Encoding(_) | Stage::WritingHeader {
                ..
            } => {
                &&& file.content == unfinished
                &&& file.position == unfinished.len()
            },
            Stage::WritingContent { header, .. } => {
                &&& file.content == unfinished + header@
                &&& file.position == unfinished.len() + header@.len()
            },
            Stage::WritingPackHeader => file.content == unfinished,
            Stage::Hashing => file.content == self.body(received) && file.position == 0,
            Stage::WritingTrailer(id) => {
                &&& file.content == self.body(received)
                &&& file.position == file.content.len()
                &&& digest(self.plan.object_hash, file.content) == Some(id@)
            },
            Stage::Complete => if self.rewrites() {
                &&& self.pack_hash matches Some(id)
                &&& file.content == self.body(received) + id@
                &&& digest(self.plan.object_hash, self.body(received)) == Some(id@)
            } else {
                file.content == (FileView { content: received, position: 0 }).truncated(
                    self.origin.entries_end + self.plan.object_hash.len(),
                ).content
            },
            Stage::Failed => true,
        }
    }
}

/// What the file holds is as the completion takes it to be, whatever happens.
pub proof fn lemma_layout_is_kept(
    view: CompletionView,
    event: Event,
    next: CompletionView,
    action: Action,
    file: FileView,
    received: Seq<u8>,
)
    requires
        view.wf(),
        view.expects(event),
        transition(view, event, next, action),
        view.layout(file, received),
        hashed_truly(view, event, file),
        HEADER_LEN <= view.origin.entries_end <= received.len(),
    ensures
        next.layout(file_after(view, event, file), received),
{
    let after = file_after(view, event, file);
    let unfinished = received.take(view.origin.entries_end as int) + view.appended;
    match event {
        Event::Performed { ok: true } => match view.stage {
            Stage::Truncating => {
                assert(after.content =~= unfinished);
            },
            Stage::WritingHeader { header, .. } => {
                assert(after.content =~= unfinished + header@);
            },
            Stage::WritingContent { header, content, .. } => {
                assert(after.content =~= received.take(view.origin.entries_end as int) + (
                view.appended + (header@ + content@)));
            },
            Stage::WritingPackHeader => {
                assert(after.content =~= next.body(received));
            },
            Stage::WritingTrailer(id) => {
                assert(after.content =~= next.body(received) + id@);
            },
            _ => {},
        },
        Event::Hashed(Some(_)) => {
            assert(file.content.subrange(0, view.entries_end as int) =~= file.content);
        },
        _ => {},
    }
}

/// A whole completion, step by step: each event is taken in as `transition` says, the file is changed as
/// the last action asks where the event tells that this was done, and any hash that is reported is true.
pub open spec fn is_run(
    views: Seq<CompletionView>,
    events: Seq<Event>,
    actions: Seq<Action>,
    files: Seq<FileView>,
) -> bool {
    &&& views.len() == events.len() + 1
    &&& actions.len() == events.len()
    &&& files.len() == views.len()
    &&& views[0].wf()
    &&& views[0].stage is Start
    &&& forall|i: int|
        0 <= i < events.len() ==> {
            let event = #[trigger] events[i];
            &&& views[i].expects(event)
            &&& transition(views[i], event, views[i + 1], actions[i])
            &&& files[i + 1] == if i > 0 && tells_success(event) {
                files[i].after(actions[i - 1])
            } else {
                files[i]
            }
            &&& hashed_truly(views[i], event, files[i])
        }
}

proof fn lemma_run_keeps_layout(
    views: Seq<CompletionView>,
    events: Seq<Event>,
    actions: Seq<Action>,
    files: Seq<FileView>,
    upto: int,
)
    requires
        is_run(views, events, actions, files),
        HEADER_LEN <= views[0].origin.entries_end <= files[0].content.len(),
        0 <= upto < views.len(),
    ensures
        views[upto].wf(),
        views[upto].origin == views[0].origin,
        views[upto].plan == views[0].plan,
        views[upto].layout(files[upto], files[0].content),
    decreases upto,
{
    if upto > 0 {
        let i = upto - 1;
        lemma_run_keeps_layout(views, events, actions, files, i);
        let event = events[i];
        lemma_account_is_kept(views[i], event, views[i + 1], actions[i]);
        if i > 0 {
            let told = events[i - 1];
            assert(views[i - 1].expects(told));
            lemma_run_keeps_layout(views, events, actions, files, i - 1);
            lemma_file_follows_the_actions(
                views[i - 1],
                told,
                views[i],
                actions[i - 1],
                event,
                files[i],
            );
        }
        lemma_layout_is_kept(
            views[i],
            event,
            views[i + 1],
            actions[i],
            files[i],
            files[0].content,
        );
    }
}

/// A pack that had to be completed ends up as a header that counts all its objects, the entries that
/// were received, the entries of the bases, and the hash over all of that. A pack that was received
/// whole is only cut to its length.
pub proof fn lemma_completed_pack(
    views: Seq<CompletionView>,
    events: Seq<Event>,
    actions: Seq<Action>,
    files: Seq<FileView>,
)
    requires
        is_run(views, events, actions, files),
        HEADER_LEN <= views[0].origin.entries_end <= files[0].content.len(),
        views.last().stage is Complete,
    ensures
        ({
            let origin = views[0].origin;
            let plan = views[0].plan;
            let end = views.last();
            let received = files[0].content;
            let content = files.last().content;
            if plan.restore || origin.missing_bases@.len() > 0 {
                &&& end.pack_hash matches Some(id)
                &&& content == header(
                    plan.pack_version,
                    (origin.num_objects + origin.missing_bases@.len()) as u32,
                ) + received.subrange(HEADER_LEN as int, origin.entries_end as int) + end.appended
                    + id@
                &&& digest(
                    plan.object_hash,
                    content.take(content.len() - id@.len()),
                ) == Some(id@)
            } else {
                &&& end.pack_hash == origin.pack_hash
                &&& origin.entries_end + plan.object_hash.len() <= received.len() ==> content
                    == received.take(origin.entries_end + plan.object_hash.len())
            }
        }),
{
    lemma_run_keeps_layout(views, events, actions, files, views.len() - 1);
    let end = views.last();
    let received = files[0].content;
    let content = files.last().content;
    lemma_complete_pack_counts_its_objects(end);
    if end.rewrites() {
        let id = end.pack_hash->0;
        assert(content.take(content.len() - id@.len()) =~= end.body(received));
        assert(content =~= header(
            end.plan.pack_version,
            (end.origin.num_objects + end.origin.missing_bases@.len()) as u32,
        ) + received.subrange(HEADER_LEN as int, end.origin.entries_end as int) + end.appended
            + id@);
    }
}

/// The entries that were reported for bases within the first `upto` events, in order.
pub open spec fn encoded_entries(events: Seq<Event>, upto: int) -> Seq<EncodedEntry>
    decreases upto,
{
    if upto <= 0 {
        Seq::empty()
    } else {
        let before = encoded_entries(events, upto - 1);
        match events[upto - 1] {
            Event::Encoded(Some(entry)) => before.push(entry),
            _ => before,
        }
    }
}

/// The ids of the objects that were looked up with the first `upto` actions, in order.
pub open spec fn looked_up_objects(actions: Seq<Action>, upto: int) -> Seq<ObjectId>
    decreases upto,
{
    if upto <= 0 {
        Seq::empty()
    } else {
        let before = looked_up_objects(actions, upto - 1);
        match actions[upto - 1] {
            Action::LookUp { object_id } => before.push(object_id),
            _ => before,
        }
    }
}

/// The bytes of entries, one after the other: the header of each and then its compressed content.
pub open spec fn bytes_of(entries: Seq<EncodedEntry>) -> Seq<u8>
    decreases entries.len(),
{
    if entries.len() == 0 {
        Seq::empty()
    } else {
        let entry = entries.last();
        bytes_of(entries.drop_last()) + (entry.header@ + entry.compressed->0@)
    }
}

/// The item is listed for the base with id `id`, whose entry is `entries[k]`: it has that id, the checksum
/// of the entry, and the place of the entry behind what was received.
pub open spec fn is_listed(
    item: Item<TreeEntry>,
    id: ObjectId,
    entries: Seq<EncodedEntry>,
    k: int,
    start: u64,
) -> bool {
    &&& item.data.id == id
    &&& entries[k].compressed is Some
    &&& entries[k].crc32 == Some(item.data.crc32)
    &&& item.offset == start + bytes_of(entries.take(k)).len()
    &&& item.next_offset == item.offset + entries[k].header@.len() + entries[k].compressed->0@.len()
}

/// The completion has done what was reported to it: what it appended are the entries that it was told.
spec fn follows_the_entries(view: CompletionView, entries: Seq<EncodedEntry>) -> bool {
    view.stage is Failed || {
        let received = view.origin.items@.len() as int;
        &&& entries.len() >= view.done()
        &&& view.appended == bytes_of(entries.take(view.done()))
        &&& forall|k: int|
            0 <= k < view.done() ==> #[trigger] is_listed(
                view.items[received + k],
                view.missing[k],
                entries,
                k,
                view.origin.entries_end,
            )
        &&& match view.stage {
            Stage::WritingHeader { compressed, crc32, header, .. } => {
                &&& entries.len() == view.done() + 1
                &&& entries.last().header@ == header@
                &&& entries.last().compressed == compressed
                &&& entries.last().crc32 == crc32
            },
            Stage::WritingContent { crc32, header, content, .. } => {
                &&& entries.len() == view.done() + 1
                &&& entries.last().header@ == header@
                &&& entries.last().compressed is Some
                &&& entries.last().compressed->0@ == content@
                &&& entries.last().crc32 == crc32
            },
            _ => entries.len() == view.done(),
        }
    }
}

proof fn lemma_step_follows_the_entries(
    view: CompletionView,
    event: Event,
    next: CompletionView,
    action: Action,
    entries: Seq<EncodedEntry>,
)
    requires
        view.wf(),
        next.wf(),
        view.expects(event),
        transition(view, event, next, action),
        follows_the_entries(view, entries),
    ensures
        follows_the_entries(
            next,
            match event {
                Event::Encoded(Some(entry)) => entries.push(entry),
                _ => entries,
            },
        ),
{
    let received = view.origin.items@.len() as int;
    let start = view.origin.entries_end;
    match event {
        Event::Encoded(Some(entry)) => {
            let more = entries.push(entry);
            assert(more.take(view.done()) =~= entries.take(view.done()));
            assert forall|k: int| 0 <= k < view.done() implies #[trigger] is_listed(
                next.items[received + k],
                next.missing[k],
                more,
                k,
                start,
            ) by {
                assert(is_listed(view.items[received + k], view.missing[k], entries, k, start));
                assert(more.take(k) =~= entries.take(k));
            }
        },
        Event::Performed { ok: true } => {
            if view.stage is WritingContent && next.stage is Ready {
                let done = view.done();
                assert(entries.take(done + 1) =~= entries);
                assert(entries.drop_last() =~= entries.take(done));
                assert(next.done() == done + 1);
                assert(next.appended =~= bytes_of(entries.take(done + 1)));
                assert forall|k: int| 0 <= k < done + 1 implies #[trigger] is_listed(
                    next.items[received + k],
                    next.missing[k],
                    entries,
                    k,
                    start,
                ) by {
                    if k < done {
                        assert(is_listed(
                            view.items[received + k],
                            view.missing[k],
                            entries,
                            k,
                            start,
                        ));
                    }
                }
            }
        },
        _ => {},
    }
}

proof fn lemma_run_follows_the_entries(
    views: Seq<CompletionView>,
    events: Seq<Event>,
    actions: Seq<Action>,
    files: Seq<FileView>,
    upto: int,
)
    requires
        is_run(views, events, actions, files),
        HEADER_LEN <= views[0].origin.entries_end <= files[0].content.len(),
        0 <= upto < views.len(),
    ensures
        follows_the_entries(views[upto], encoded_entries(events, upto)),
        views[upto].missing == views[0].missing,
        looked_up_objects(actions, upto) == views[0].missing.take(views[upto].next),
    decreases upto,
{
    if upto > 0 {
        let i = upto - 1;
        lemma_run_follows_the_entries(views, events, actions, files, i);
        lemma_run_keeps_layout(views, events, actions, files, i);
        lemma_run_keeps_layout(views, events, actions, files, upto);
        let event = events[i];
        assert(views[i].expects(event));
        lemma_step_follows_the_entries(
            views[i],
            event,
            views[upto],
            actions[i],
            encoded_entries(events, i),
        );
        if actions[i] is LookUp {
            assert(views[0].missing.take(views[upto].next) =~= views[0].missing.take(
                views[i].next,
            ).push(actions[i]->object_id));
        }
    } else {
        assert(views[0].appended =~= bytes_of(encoded_entries(events, 0).take(0)));
        assert(looked_up_objects(actions, 0) =~= views[0].missing.take(0));
    }
}

/// A pack that is complete lists for each base what was reported of its entry. The bases were looked up
/// in their order, each once. For the one with number `k`, an entry was reported, and the index lists the
/// id of that base, the checksum that came with its entry, and the place at which the bytes of that entry
/// were written. What follows the received entries in the file are the bytes of these entries, header
/// and compressed content of each, and then the hash.
pub proof fn lemma_bases_are_listed_as_reported(
    views: Seq<CompletionView>,
    events: Seq<Event>,
    actions: Seq<Action>,
    files: Seq<FileView>,
)
    requires
        is_run(views, events, actions, files),
        HEADER_LEN <= views[0].origin.entries_end <= files[0].content.len(),
        views.last().stage is Complete,
    ensures
        ({
            let origin = views[0].origin;
            let plan = views[0].plan;
            let end = views.last();
            let received = files[0].content;
            let content = files.last().content;
            let entries = encoded_entries(events, events.len() as int);
            let bases = origin.missing_bases@;
            &&& looked_up_objects(actions, actions.len() as int) == bases
            &&& entries.len() == bases.len()
            &&& end.items.len() == origin.items@.len() + bases.len()
            &&& forall|i: int|
                0 <= i < origin.items@.len() ==> #[trigger] end.items[i] == origin.items@[i]
            &&& forall|k: int|
                0 <= k < bases.len() ==> {
                    let item = #[trigger] end.items[origin.items@.len() + k];
                    &&& item.data.id == bases[k]
                    &&& entries[k].crc32 == Some(item.data.crc32)
                    &&& entries[k].compressed is Some
                    &&& item.offset == origin.entries_end + bytes_of(entries.take(k)).len()
                    &&& item.next_offset == item.offset + entries[k].header@.len()
                        + entries[k].compressed->0@.len()
                    &&& plan.restore || bases.len() > 0 ==> content.subrange(
                        item.offset as int,
                        item.next_offset as int,
                    ) == entries[k].header@ + entries[k].compressed->0@
                }
            &&& end.num_objects == origin.num_objects + bases.len()
            &&& end.entries_end == origin.entries_end + bytes_of(entries).len()
            &&& plan.restore || bases.len() > 0 ==> {
                let hash = end.pack_hash->0;
                &&& end.pack_hash is Some
                &&& content.len() == end.entries_end + hash@.len()
                &&& content.take(4) == seq![80u8, 65u8, 67u8, 75u8]
                &&& be_number(content, 4) == match plan.pack_version {
                    Version::V2 => 2int,
                    Version::V3 => 3int,
                }
                &&& be_number(content, 8) == origin.num_objects + bases.len()
                &&& content.subrange(12, origin.entries_end as int) == received.subrange(
                    12,
                    origin.entries_end as int,
                )
                &&& content.subrange(origin.entries_end as int, end.entries_end as int) == bytes_of(
                    entries,
                )
                &&& content.skip(end.entries_end as int) == hash@
                &&& digest(plan.object_hash, content.take(end.entries_end as int)) == Some(hash@)
            }
        }),
{
    let last = views.len() - 1;
    lemma_run_keeps_layout(views, events, actions, files, last);
    lemma_run_follows_the_entries(views, events, actions, files, last);
    lemma_completed_pack(views, events, actions, files);
    let origin = views[0].origin;
    let plan = views[0].plan;
    let end = views.last();
    let received = files[0].content;
    let content = files.last().content;
    let entries = encoded_entries(events, events.len() as int);
    let bases = origin.missing_bases@;
    let first = origin.items@.len() as int;
    lemma_complete_pack_counts_its_objects(end);
    assert(bases.take(bases.len() as int) =~= bases);
    assert(entries.take(bases.len() as int) =~= entries);
    assert forall|k: int| 0 <= k < bases.len() implies is_listed(
        #[trigger] end.items[first + k],
        bases[k],
        entries,
        k,
        origin.entries_end,
    ) by {
        assert(is_listed(end.items[first + k], end.missing[k], entries, k, origin.entries_end));
    }
    if plan.restore || bases.len() > 0 {
        let hash = end.pack_hash->0;
        let head = header(plan.pack_version, end.num_objects);
        lemma_header_reads_back(plan.pack_version, end.num_objects);
        let body = end.body(received);
        assert(content =~= body + hash@);
        assert(body.len() == end.entries_end);
        assert(content.take(4) =~= head.take(4));
        assert forall|i: int| 0 <= i < 12 implies #[trigger] content[i] == head[i] by {}
        assert(content.subrange(12, origin.entries_end as int) =~= received.subrange(
            12,
            origin.entries_end as int,
        ));
        assert(content.subrange(origin.entries_end as int, end.entries_end as int)
            =~= end.appended);
        assert(content.skip(end.entries_end as int) =~= hash@);
        assert(content.take(end.entries_end as int) =~= body);
        assert forall|k: int| 0 <= k < bases.len() implies content.subrange(
            (#[trigger] end.items[first + k]).offset as int,
            end.items[first + k].next_offset as int,
        ) == entries[k].header@ + entries[k].compressed->0@ by {
            let item = end.items[first + k];
            assert(is_listed(item, bases[k], entries, k, origin.entries_end));
            lemma_entry_lies_in_the_bytes(entries, k);
            let from = bytes_of(entries.take(k)).len() as int;
            let len = (entries[k].header@ + entries[k].compressed->0@).len() as int;
            assert(content.subrange(item.offset as int, item.next_offset as int) =~= bytes_of(
                entries,
            ).subrange(from, from + len));
        }
    }
}

/// Among the bytes of entries, those of each begin where those of the entries before it end.
proof fn lemma_entry_lies_in_the_bytes(entries: Seq<EncodedEntry>, k: int)
    requires
        0 <= k < entries.len(),
    ensures
        ({
            let from = bytes_of(entries.take(k)).len() as int;
            let bytes = entries[k].header@ + entries[k].compressed->0@;
            &&& from + bytes.len() <= bytes_of(entries).len()
            &&& bytes_of(entries).subrange(from, from + bytes.len()) == bytes
        }),
    decreases entries.len(),
{
    let from = bytes_of(entries.take(k)).len() as int;
    let bytes = entries[k].header@ + entries[k].compressed->0@;
    let rest = entries.drop_last();
    if k == entries.len() - 1 {
        assert(entries.take(k) =~= rest);
        assert(bytes_of(entries).subrange(from, from + bytes.len()) =~= bytes);
    } else {
        lemma_entry_lies_in_the_bytes(rest, k);
        assert(rest.take(k) =~= entries.take(k));
        assert(bytes_of(entries).subrange(from, from + bytes.len()) =~= bytes_of(rest).subrange(
            from,
            from + bytes.len(),
        ));
    }
}

/// A base has more bytes than it may have.
pub open spec fn is_too_large(plan: Plan, len: nat) -> bool {
    ||| plan.alloc_limit_bytes matches Some(limit) && len > limit
    ||| plan.target is Motor && len > 16 * 1024 * 1024
}

/// How the completion answers to the lookup of a base. Where it fails or finds nothing, the error tells
/// the base. What is found is refused if it is too large, or if the digest of its kind and content is not
/// the id that was looked up. Otherwise it is to be encoded for the place behind all entries, as hard as the
/// plan asks.
pub proof fn lemma_bases_are_checked(
    before: CompletionView,
    told: Event,
    view: CompletionView,
    object_id: ObjectId,
    lookup: Lookup,
    next: CompletionView,
    action: Action,
)
    requires
        before.wf(),
        before.expects(told),
        transition(before, told, view, Action::LookUp { object_id }),
        transition(view, Event::LookedUp(lookup), next, action),
    ensures
        told == (Event::Continue { interrupted: false }),
        before.plan.has_lookup,
        before.missing.contains(object_id),
        match lookup {
            Lookup::Failed => action == Action::Fail(Error::Find { object_id }),
            Lookup::Absent => action == Action::Fail(Error::MissingExternalBase { object_id }),
            Lookup::Found { kind, data } => {
                let digest = object_digest(before.plan.object_hash, kind, data@);
                if is_too_large(before.plan, data@.len()) {
                    action == Action::Fail(
                        Error::IndexWrite(
                            index::Error::TreeTraversal(traverse::Error::OutOfMemory),
                        ),
                    )
                } else if digest is None {
                    action == Action::Fail(
                        Error::IndexWrite(index::Error::TreeTraversal(traverse::Error::ObjectHash)),
                    )
                } else if digest->0 == object_id@ && object_id.kind() == before.plan.object_hash {
                    action == Action::Encode {
                        pack_offset: before.entries_end,
                        compression: before.plan.compression,
                    }
                } else {
                    &&& action matches Action::Fail(
                        Error::ExternalBaseIdMismatch { expected, actual },
                    )
                    &&& expected == object_id
                    &&& actual@ == digest->0
                }
            },
        },
{
    assert(before.missing[before.next] == object_id);
    if let Lookup::Found { data, .. } = lookup {
        lemma_limit_on_bases(before.plan.target, before.plan.alloc_limit_bytes, data@.len());
    }
}

/// How an entry is written once it was reported for a base: first its header, then its compressed
/// content, and then the completion goes on. It fails where content or checksum are missing, and where
/// the entry would end beyond what an offset can tell.
pub proof fn lemma_entries_are_written(
    before: CompletionView,
    told: Event,
    encoding: CompletionView,
    asked: Action,
    encoded: Option<EncodedEntry>,
    writing: CompletionView,
    first: Action,
    header_written: bool,
    half: CompletionView,
    second: Action,
    content_written: bool,
    next: CompletionView,
    action: Action,
)
    requires
        before.wf(),
        encoding.wf(),
        before.expects(told),
        transition(before, told, encoding, asked),
        asked is Encode,
        transition(encoding, Event::Encoded(encoded), writing, first),
        encoded is Some ==> transition(
            writing,
            Event::Performed { ok: header_written },
            half,
            second,
        ),
        encoded is Some && header_written && encoded->0.compressed is Some ==> transition(
            half,
            Event::Performed { ok: content_written },
            next,
            action,
        ),
    ensures
        match encoded {
            None => first == Action::Fail(Error::PackIter),
            Some(entry) => {
                &&& first == Action::Write(entry.header)
                &&& if !header_written {
                    second == Action::Fail(Error::Io)
                } else if entry.compressed is None {
                    second == Action::Fail(Error::NoCompressedData)
                } else {
                    &&& second == Action::Write(entry.compressed->0)
                    &&& if !content_written {
                        action == Action::Fail(Error::Io)
                    } else if entry.crc32 is None {
                        action == Action::Fail(Error::NoChecksum)
                    } else if asked->Encode_pack_offset + entry.header@.len()
                        + entry.compressed->0@.len() > u64::MAX {
                        action == Action::Fail(Error::LengthOverflow)
                    } else {
                        action is Continue
                    }
                }
            },
        },
{
}

/// How a completion begins. An interruption stops it at once. Otherwise what was received is flushed. A
/// pack that is not restored and lacks no base needs its trailing hash, and is cut behind it. Any other
/// pack needs a number of objects that can be counted.
pub proof fn lemma_how_a_completion_begins(
    before: CompletionView,
    interrupted: bool,
    view: CompletionView,
    first: Action,
    ok: bool,
    next: CompletionView,
    action: Action,
)
    requires
        before.wf(),
        before.stage is Start,
        transition(before, Event::Continue { interrupted }, view, first),
        !interrupted ==> transition(view, Event::Performed { ok }, next, action),
    ensures
        interrupted ==> first == Action::Fail(
            Error::IndexWrite(index::Error::TreeTraversal(traverse::Error::Interrupted)),
        ),
        !interrupted ==> first is Flush,
        !interrupted && !ok ==> action == Action::Fail(Error::Io),
        !interrupted && ok ==> {
            let origin = before.origin;
            let count = origin.num_objects + origin.missing_bases@.len();
            if before.plan.restore || origin.missing_bases@.len() > 0 {
                if count > u32::MAX || (before.plan.target is Motor && count > 65536) {
                    action is Fail && action->Fail_0 is IndexWrite
                } else {
                    action is Reserve
                }
            } else if origin.pack_hash is None {
                action == Action::Fail(Error::IndexWrite(index::Error::IteratorInvariantTrailer))
            } else {
                let len = origin.entries_end + match before.plan.object_hash {
                    HashKind::Sha1 => 20int,
                    HashKind::Sha256 => 32int,
                };
                if len > u64::MAX {
                    action == Action::Fail(Error::LengthOverflow)
                } else {
                    action matches Action::Truncate { len: cut } && cut == len
                }
            }
        },
{
    lemma_objects_are_counted(
        before.origin.num_objects,
        before.origin.missing_bases@.len(),
        before.plan.target,
    );
}

/// How a completion goes on once memory was asked for. Without it, it fails. With it, the file is cut
/// behind the entries that were received, and then the bases follow.
pub proof fn lemma_how_appending_begins(
    before: CompletionView,
    told: Event,
    view: CompletionView,
    ok: bool,
    cutting: CompletionView,
    first: Action,
    cut: bool,
    next: CompletionView,
    action: Action,
)
    requires
        before.wf(),
        before.expects(told),
        transition(before, told, view, Action::Reserve),
        transition(view, Event::Reserved { ok }, cutting, first),
        ok ==> transition(cutting, Event::Performed { ok: cut }, next, action),
    ensures
        !ok ==> first == Action::Fail(Error::IndexWrite(index::Error::OutOfMemory)),
        ok ==> first == (Action::Truncate { len: before.origin.entries_end }),
        ok && !cut ==> action == Action::Fail(Error::Io),
        ok && cut ==> action is Continue && next.items == before.origin.items@ && next.entries_end
            == before.origin.entries_end,
{
    if !(before.stage is Failed) {
        assert(before.items =~= before.origin.items@);
    }
}

/// The hash that is told in the end is that of the pack: the one that it was received with if nothing was
/// to be done with it, and otherwise the one that was computed.
pub proof fn lemma_done_tells_the_hash(
    view: CompletionView,
    event: Event,
    next: CompletionView,
    action: Action,
)
    requires
        view.wf(),
        view.expects(event),
        transition(view, event, next, action),
        action is Done,
    ensures
        next.pack_hash == Some(action->pack_hash),
        !view.plan.restore && view.origin.missing_bases@.len() == 0 ==> view.origin.pack_hash
            == Some(action->pack_hash),
{
}

/// How a completion goes on to the next base. While there is one, an interruption stops it, and so does
/// the lack of a lookup; otherwise it is looked up. When there is none left, the header is written, whatever
/// is asked for: it tells the version of the pack and the number of its objects.
pub proof fn lemma_how_a_completion_goes_on(
    view: CompletionView,
    interrupted: bool,
    next: CompletionView,
    action: Action,
)
    requires
        view.wf(),
        view.stage is Ready,
        transition(view, Event::Continue { interrupted }, next, action),
    ensures
        if view.items.len() < view.origin.items@.len() + view.origin.missing_bases@.len() {
            let object_id = view.origin.missing_bases@[view.items.len()
                - view.origin.items@.len()];
            if interrupted {
                action == Action::Fail(
                    Error::IndexWrite(index::Error::TreeTraversal(traverse::Error::Interrupted)),
                )
            } else if !view.plan.has_lookup {
                action == Action::Fail(Error::MissingExternalBase { object_id })
            } else {
                action == Action::LookUp { object_id }
            }
        } else {
            &&& action matches Action::WriteAtStart(bytes)
            &&& bytes@.take(4) == seq![80u8, 65u8, 67u8, 75u8]
            &&& be_number(bytes@, 4) == match view.plan.pack_version {
                Version::V2 => 2int,
                Version::V3 => 3int,
            }
            &&& be_number(bytes@, 8) == view.origin.num_objects + view.origin.missing_bases@.len()
        },
{
    if !(view.next < view.missing.len()) {
        lemma_objects_are_counted(
            view.origin.num_objects,
            view.origin.missing_bases@.len(),
            view.plan.target,
        );
        lemma_header_reads_back(view.plan.pack_version, view.final_count()->Ok_0);
    }
}

/// How a completion ends. After the header is written, the hash over the header and all entries is asked
/// for. The hash that is reported is written behind them, and is then the hash of the pack.
pub proof fn lemma_how_a_completion_ends(
    before: CompletionView,
    told: Event,
    view: CompletionView,
    asked: Action,
    ok: bool,
    hashing: CompletionView,
    first: Action,
    hashed: Option<ObjectId>,
    writing: CompletionView,
    second: Action,
    written: bool,
    next: CompletionView,
    action: Action,
)
    requires
        before.wf(),
        view.wf(),
        before.expects(told),
        transition(before, told, view, asked),
        asked is WriteAtStart,
        transition(view, Event::Performed { ok }, hashing, first),
        ok ==> transition(hashing, Event::Hashed(hashed), writing, second),
        ok && hashed is Some ==> transition(
            writing,
            Event::Performed { ok: written },
            next,
            action,
        ),
    ensures
        !ok ==> first == Action::Fail(Error::Io),
        ok ==> first == (Action::Hash { len: before.entries_end }),
        ok && hashed is None ==> second == Action::Fail(Error::IndexWrite(index::Error::Io)),
        ok && hashed is Some ==> second == Action::WriteTrailer(hashed->0),
        ok && hashed is Some && !written ==> action == Action::Fail(Error::Io),
        ok && hashed is Some && written ==> {
            &&& action == (Action::Done { pack_hash: hashed->0 })
            &&& next.pack_hash == hashed
        },
{
}

/// A base that came with the pack is not appended, so a complete pack holds no object twice, and no
/// duplicate is found when its index is made: not if it was received without duplicates, and its
/// missing bases are in order and not among its objects.
pub proof fn lemma_complete_pack_has_no_duplicates(view: CompletionView)
    requires
        view.wf(),
        view.stage is Complete,
        strictly_sorted(view.origin.items@),
        strictly_sorted(view.origin.missing_bases@),
        forall|i: int|
            0 <= i < view.origin.items@.len() ==> !view.origin.missing_bases@.contains(
                (#[trigger] view.origin.items@[i]).data.id,
            ),
    ensures
        ids_of(view.items).no_duplicates(),
        forall|id: ObjectId| !occurs_twice(view.items, id),
        forall|id: ObjectId| !first_duplicate(view.items, id),
        forall|index: int| !first_repeat(ids_of(view.items), index),
{
    let received = view.origin.items@.len() as int;
    assert forall|i: int, j: int| 0 <= i < j < view.items.len() implies (
    #[trigger] view.items[i]).data.id != (#[trigger] view.items[j]).data.id by {
        if j < received {
            assert(view.items[i] == view.origin.items@[i]);
            assert(view.items[j] == view.origin.items@[j]);
            assert(view.origin.items@[i].key() < view.origin.items@[j].key());
        } else {
            assert(view.items[j].data.id == view.missing[j - received]);
            if i < received {
                assert(view.items[i] == view.origin.items@[i]);
            } else {
                assert(view.items[i].data.id == view.missing[i - received]);
                assert(view.missing[i - received].key() < view.missing[j - received].key());
            }
        }
    }
    let ids = ids_of(view.items);
    assert forall|i: int, j: int| 0 <= i < ids.len() && 0 <= j < ids.len() && i != j implies ids[i]
        != ids[j] by {
        assert(ids[i] == view.items[i].data.id);
        assert(ids[j] == view.items[j].data.id);
    }
}

} // verus!
