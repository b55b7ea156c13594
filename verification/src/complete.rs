//! Completion of a pack: the bases that it lacks are appended, and its header and its trailing hash
//! are made to match.
use gix_zlib::Compression;
use vstd::prelude::*;

use crate::data::{self, encode_header, header};
use crate::hash::{compute_hash, lemma_id_is_its_bytes, object_digest, HashKind, ObjectId};
use crate::index::{
    self, all_items, first_duplicate, is_index_of, sort_items, Contents, Prepared, TreeEntry,
};
use crate::sort::Keyed;
use crate::thin::{can_be_held, ensure_unique, first_repeat, reserve_exact};
use crate::traverse::{self, is_id_of, BaseObject, Item, Lookup};

verus! {

/// Why a pack could not be written.
#[derive(Debug)]
pub enum Error {
    /// Reading or writing failed.
    Io,
    /// The pack would be longer than its offsets can tell.
    LengthOverflow,
    /// The entry that was made of a base has no compressed data.
    NoCompressedData,
    /// The entry that was made of a base has no checksum.
    NoChecksum,
    /// An entry could not be read, or none could be made of a base.
    PackIter,
    /// The lookup of a base failed.
    Find { object_id: ObjectId },
    /// A base that the pack needs cannot be had.
    MissingExternalBase { object_id: ObjectId },
    /// The lookup of a base yielded another object.
    ExternalBaseIdMismatch { expected: ObjectId, actual: ObjectId },
    /// The index could not be written.
    IndexWrite(index::Error),
    /// A file could not be moved into place.
    Persist,
}

impl From<index::Error> for Error {
    fn from(error: index::Error) -> Error {
        Error::IndexWrite(error)
    }
}

impl vstd::std_specs::convert::FromSpecImpl<index::Error> for Error {
    open spec fn obeys_from_spec() -> bool {
        true
    }

    open spec fn from_spec(error: index::Error) -> Error {
        Error::IndexWrite(error)
    }
}

/// The system that the library runs on, as far as its limits depend on it.
#[derive(Clone, Copy, Debug, PartialEq, Eq, Structural)]
pub enum Target {
    /// Motor OS, where memory and temporary files are scarce.
    Motor,
    /// Any other system.
    Other,
}

/// The most objects that a pack may hold on Motor OS.
pub const MAX_ENTRIES: usize = 65536;

/// The largest base that is read into memory on Motor OS.
pub const MAX_BASE_BYTES: usize = 16777216;

/// The most bytes that a base may have, if there is a limit.
pub open spec fn base_limit(target: Target, alloc_limit_bytes: Option<usize>) -> Option<usize> {
    match target {
        Target::Motor => Some(
            match alloc_limit_bytes {
                Some(limit) => if limit < MAX_BASE_BYTES {
                    limit
                } else {
                    MAX_BASE_BYTES
                },
                None => MAX_BASE_BYTES,
            },
        ),
        Target::Other => alloc_limit_bytes,
    }
}

/// Determines the most bytes that a base may have.
pub fn effective_base_limit(target: Target, alloc_limit_bytes: Option<usize>) -> (limit: Option<
    usize,
>)
    ensures
        limit == base_limit(target, alloc_limit_bytes),
{
    match target {
        Target::Motor => {
            let limit: usize = match alloc_limit_bytes {
                Some(limit) => limit,
                None => MAX_BASE_BYTES,
            };
            Some(
                if limit < MAX_BASE_BYTES {
                    limit
                } else {
                    MAX_BASE_BYTES
                },
            )
        },
        Target::Other => alloc_limit_bytes,
    }
}

/// Determines the number of objects of a pack once `missing` bases are appended. A pack cannot hold
/// more objects than its header can count, and on Motor OS not more than `MAX_ENTRIES`.
pub fn final_count(num_objects: u32, missing: usize, target: Target) -> (result: Result<
    u32,
    index::Error,
>)
    ensures
        result == counted(num_objects, missing as nat, target),
{
    let received: usize = num_objects as usize;
    let count: usize = match received.checked_add(missing) {
        Some(count) => count,
        None => {
            return Err(index::Error::IteratorInvariantTooManyObjects(usize::MAX));
        },
    };
    if count > u32::MAX as usize {
        return Err(index::Error::IteratorInvariantTooManyObjects(count));
    }
    if target == Target::Motor && count > MAX_ENTRIES {
        return Err(index::Error::EntryCountLimit { max_entries: MAX_ENTRIES });
    }
    Ok(count as u32)
}

/// The number of objects once `missing` bases are appended, or why there cannot be that many.
pub open spec fn counted(num_objects: u32, missing: nat, target: Target) -> Result<
    u32,
    index::Error,
> {
    let count = num_objects + missing;
    if count > usize::MAX {
        Err(index::Error::IteratorInvariantTooManyObjects(usize::MAX))
    } else if count > u32::MAX {
        Err(index::Error::IteratorInvariantTooManyObjects(count as usize))
    } else if target == Target::Motor && count > MAX_ENTRIES {
        Err(index::Error::EntryCountLimit { max_entries: MAX_ENTRIES })
    } else {
        Ok(count as u32)
    }
}

/// How hard something is compressed, as `gix_zlib` has it. The library only hands it on.
#[verifier::external_type_specification]
#[verifier::external_body]
pub struct ExCompression(Compression);

/// How a pack is to be completed.
#[derive(Clone, Copy, Debug)]
pub struct Plan {
    /// Whether the pack is restored from partial input, so that its header and trailer are made anew.
    pub restore: bool,
    /// Whether objects can be looked up.
    pub has_lookup: bool,
    /// The version of the pack.
    pub pack_version: data::Version,
    /// The kind of the ids.
    pub object_hash: HashKind,
    /// The size above which a single allocation is rejected, if there is one.
    pub alloc_limit_bytes: Option<usize>,
    /// How hard the bases that are appended are compressed.
    pub compression: Compression,
    /// The system that this runs on.
    pub target: Target,
}

/// A base, encoded as an entry of a pack.
#[derive(Debug)]
pub struct EncodedEntry {
    /// The bytes of the header of the entry.
    pub header: Vec<u8>,
    /// The compressed content.
    pub compressed: Option<Vec<u8>>,
    /// The checksum over header and compressed content.
    pub crc32: Option<u32>,
}

/// What the completion is to be told next.
pub enum Event<'a> {
    /// Go on; `interrupted` tells whether an interruption was requested in the meantime.
    Continue { interrupted: bool },
    /// Whether the file could be worked on as the last action asked.
    Performed { ok: bool },
    /// Whether memory for the bases could be had.
    Reserved { ok: bool },
    /// The answer to `Action::LookUp`.
    LookedUp(Lookup<'a>),
    /// The answer to `Action::Encode`, or `None` where the object could not be encoded.
    Encoded(Option<EncodedEntry>),
    /// The answer to `Action::Hash`, or `None` where the hash could not be computed.
    Hashed(Option<ObjectId>),
}

/// What is to be done for the completion.
pub enum Action {
    /// Come back with `Event::Continue`.
    Continue,
    /// Flush what has been written.
    Flush,
    /// Have `Completion::reserve` set memory aside.
    Reserve,
    /// Cut the file to this length and go to its end.
    Truncate { len: u64 },
    /// Look up the object with this id.
    LookUp { object_id: ObjectId },
    /// Encode the object that was found as an entry that begins at this offset, compressed this hard.
    Encode { pack_offset: u64, compression: Compression },
    /// Write these bytes.
    Write(Vec<u8>),
    /// Flush what has been written, write these bytes at the start of the file, flush them, and go
    /// back to the start.
    WriteAtStart([u8; 12]),
    /// Compute the hash over this many bytes, and leave the file behind them.
    Hash { len: u64 },
    /// Write the bytes of this id and flush them.
    WriteTrailer(ObjectId),
    /// The pack is complete.
    Done { pack_hash: ObjectId },
    /// The pack cannot be completed.
    Fail(Error),
}

/// What the completion waits for.
pub enum Stage {
    /// To begin.
    Start,
    /// The flush of what was received.
    Flushing,
    /// The memory for the bases.
    Reserving,
    /// A pack that was received whole to be cut to its length.
    Trimming(ObjectId),
    /// A pack that is rewritten to be cut to its entries.
    Truncating,
    /// To go on to the next base.
    Ready,
    /// The answer to the lookup of this base.
    LookingUp(ObjectId),
    /// The entry for this base.
    Encoding(ObjectId),
    /// The header of the entry to be written, which then ends at `header_end` if that fits an offset.
    /// The ghost value is that header.
    WritingHeader {
        id: ObjectId,
        compressed: Option<Vec<u8>>,
        crc32: Option<u32>,
        header_end: Option<u64>,
        header: Ghost<Seq<u8>>,
    },
    /// The content of the entry to be written, which then ends at `end` if that fits an offset. The
    /// ghost values are the header and the content.
    WritingContent {
        id: ObjectId,
        crc32: Option<u32>,
        end: Option<u64>,
        header: Ghost<Seq<u8>>,
        content: Ghost<Seq<u8>>,
    },
    /// The header of the pack to be written.
    WritingPackHeader,
    /// The hash of the pack.
    Hashing,
    /// The hash to be written behind the entries.
    WritingTrailer(ObjectId),
    /// Nothing any more: the pack is complete.
    Complete,
    /// Nothing any more: the pack could not be completed.
    Failed,
}

/// The completion of a pack.
pub struct Completion {
    plan: Plan,
    items: Vec<Item<TreeEntry>>,
    missing: Vec<ObjectId>,
    next: usize,
    pack_hash: Option<ObjectId>,
    num_objects: u32,
    entries_end: u64,
    stage: Stage,
    appended: Ghost<Seq<u8>>,
    bases: Ghost<Seq<BaseObject>>,
    origin: Ghost<Prepared>,
}

/// What the completion knows.
pub struct CompletionView {
    /// How the pack is to be completed.
    pub plan: Plan,
    /// The objects of the pack, those that were appended last.
    pub items: Seq<Item<TreeEntry>>,
    /// The bases to append, in order.
    pub missing: Seq<ObjectId>,
    /// How many of them have been dealt with, or are being dealt with.
    pub next: int,
    /// The hash of the pack.
    pub pack_hash: Option<ObjectId>,
    /// The number of objects that the header of the pack counts.
    pub num_objects: u32,
    /// Where the last entry ends.
    pub entries_end: u64,
    /// What the completion waits for.
    pub stage: Stage,
    /// The bytes of the entries that were appended.
    pub appended: Seq<u8>,
    /// The objects that were looked up as bases and accepted.
    pub bases: Seq<BaseObject>,
    /// The pack as it was received.
    pub origin: Prepared,
}

impl View for Completion {
    type V = CompletionView;

    closed spec fn view(&self) -> CompletionView {
        CompletionView {
            plan: self.plan,
            items: self.items@,
            missing: self.missing@,
            next: self.next as int,
            pack_hash: self.pack_hash,
            num_objects: self.num_objects,
            entries_end: self.entries_end,
            stage: self.stage,
            appended: self.appended@,
            bases: self.bases@,
            origin: self.origin@,
        }
    }
}

/// The end of something of length `len` that begins at `start`, if that fits an offset.
pub open spec fn end_of(start: u64, len: nat) -> Option<u64> {
    if start + len > u64::MAX {
        None
    } else {
        Some((start + len) as u64)
    }
}

/// The item at `i` begins where the one before it ends, and the first one that was appended, at
/// `first`, begins at `start`.
pub open spec fn lies_next(
    items: Seq<Item<TreeEntry>>,
    i: int,
    first: int,
    start: u64,
) -> bool {
    items[i].offset == if i == first {
        start
    } else {
        items[i - 1].next_offset
    }
}

impl CompletionView {
    /// The base that is being dealt with, if there is one.
    pub open spec fn current(self) -> Option<ObjectId> {
        match self.stage {
            Stage::LookingUp(id) => Some(id),
            Stage::Encoding(id) => Some(id),
            Stage::WritingHeader { id, .. } => Some(id),
            Stage::WritingContent { id, .. } => Some(id),
            _ => None,
        }
    }

    /// How many bases have been appended.
    pub open spec fn done(self) -> int {
        if self.current() is Some {
            self.next - 1
        } else {
            self.next
        }
    }

    /// How many bases have been accepted.
    pub open spec fn accepted(self) -> int {
        if self.stage is LookingUp {
            self.next - 1
        } else {
            self.next
        }
    }

    /// The header of the pack and its trailer are made anew.
    pub open spec fn rewrites(self) -> bool {
        self.plan.restore || self.origin.missing_bases@.len() > 0
    }

    /// The number of objects once all bases are appended.
    pub open spec fn final_count(self) -> Result<u32, index::Error> {
        counted(self.origin.num_objects, self.origin.missing_bases@.len(), self.plan.target)
    }

    /// Unless the completion has failed, it has kept account of what it did.
    pub open spec fn wf(self) -> bool {
        self.stage is Failed || {
            &&& self.missing == self.origin.missing_bases@
            &&& 0 <= self.next <= self.missing.len()
            &&& self.current() matches Some(id) ==> self.next > 0 && id == self.missing[self.next
                - 1]
            &&& self.bases_have_their_ids()
            &&& self.appended_follow_received()
            &&& self.appended_are_consecutive()
            &&& self.stage_is_sound()
        }
    }

    /// Each base that was accepted has been seen to have the id that it was looked up by.
    pub open spec fn bases_have_their_ids(self) -> bool {
        &&& self.bases.len() == self.accepted()
        &&& forall|i: int|
            0 <= i < self.bases.len() ==> (#[trigger] self.bases[i]).has_id(
                self.missing[i],
                self.plan.object_hash,
            )
    }

    /// What was received comes first and is unchanged. Each base that was appended is one more
    /// object of the pack, in the order of the bases, under the id that it has been seen to have.
    pub open spec fn appended_follow_received(self) -> bool {
        let received = self.origin.items@.len() as int;
        &&& self.items.len() == received + self.done()
        &&& forall|i: int| 0 <= i < received ==> #[trigger] self.items[i] == self.origin.items@[i]
        &&& forall|i: int|
            received <= i < self.items.len() ==> (#[trigger] self.items[i]).data.id
                == self.missing[i - received] && self.bases[i - received].has_id(
                self.items[i].data.id,
                self.plan.object_hash,
            )
    }

    /// The first object that was appended begins where the entries of the pack ended, every other one
    /// where the one before it ends, and the last one ends where the entries now end.
    pub open spec fn appended_are_consecutive(self) -> bool {
        let received = self.origin.items@.len() as int;
        &&& forall|i: int|
            received <= i < self.items.len() ==> #[trigger] lies_next(
                self.items,
                i,
                received,
                self.origin.entries_end,
            )
        &&& self.entries_end == self.origin.entries_end + self.appended.len()
        &&& self.entries_end == (if self.done() == 0 {
            self.origin.entries_end
        } else {
            self.items.last().next_offset
        })
    }

    /// What the completion remembers of its last action is true.
    pub open spec fn stage_is_sound(self) -> bool {
        match self.stage {
            Stage::Start | Stage::Flushing => self.is_untouched(),
            Stage::Reserving | Stage::Truncating => {
                &&& self.is_untouched()
                &&& self.rewrites()
                &&& self.final_count() is Ok
            },
            Stage::Trimming(id) => {
                &&& self.is_untouched()
                &&& !self.rewrites()
                &&& self.pack_hash == Some(id)
                &&& self.entries_end + self.plan.object_hash.len() <= u64::MAX
            },
            Stage::WritingHeader { header_end, header, .. } => {
                &&& self.is_appending()
                &&& header_end == end_of(self.entries_end, header@.len())
            },
            Stage::WritingContent { end, header, content, .. } => {
                &&& self.is_appending()
                &&& end == end_of(self.entries_end, header@.len() + content@.len())
            },
            Stage::Ready | Stage::LookingUp(_) | Stage::Encoding(_) => self.is_appending(),
            Stage::WritingPackHeader | Stage::Hashing | Stage::WritingTrailer(_) => {
                &&& self.rewrites()
                &&& self.next == self.missing.len()
                &&& self.final_count() == Ok::<u32, index::Error>(self.num_objects)
            },
            Stage::Complete => {
                &&& self.pack_hash is Some
                &&& self.next == self.missing.len()
                &&& if self.rewrites() {
                    self.final_count() == Ok::<u32, index::Error>(self.num_objects)
                } else {
                    self.is_untouched()
                }
            },
            Stage::Failed => true,
        }
    }

    /// Nothing has been done yet.
    pub open spec fn is_untouched(self) -> bool {
        &&& self.next == 0
        &&& self.num_objects == self.origin.num_objects
        &&& self.pack_hash == self.origin.pack_hash
        &&& self.appended.len() == 0
    }

    /// Bases are being appended.
    pub open spec fn is_appending(self) -> bool {
        &&& self.rewrites()
        &&& self.num_objects == self.origin.num_objects
        &&& self.final_count() is Ok
    }

    /// The event is one that the completion waits for.
    pub open spec fn expects(self, event: Event) -> bool {
        match event {
            Event::Continue { .. } => self.stage is Start || self.stage is Ready,
            Event::Performed { .. } => self.stage is Flushing || self.stage is Trimming
                || self.stage is Truncating || self.stage is WritingHeader
                || self.stage is WritingContent || self.stage is WritingPackHeader
                || self.stage is WritingTrailer,
            Event::Reserved { .. } => self.stage is Reserving,
            Event::LookedUp(_) => self.stage is LookingUp,
            Event::Encoded(_) => self.stage is Encoding,
            Event::Hashed(_) => self.stage is Hashing,
        }
    }

    /// `self`, but waiting for something else.
    pub open spec fn at(self, stage: Stage) -> CompletionView {
        CompletionView { stage, ..self }
    }
}

/// The completion fails with `error`.
pub open spec fn fails(
    view: CompletionView,
    next: CompletionView,
    action: Action,
    error: Error,
) -> bool {
    &&& action == Action::Fail(error)
    &&& next == view.at(Stage::Failed)
}

/// What the completion does when it is told to go on.
pub open spec fn on_continue(
    view: CompletionView,
    interrupted: bool,
    next: CompletionView,
    action: Action,
) -> bool {
    let stop = Error::IndexWrite(index::Error::TreeTraversal(traverse::Error::Interrupted));
    if view.stage is Start {
        if interrupted {
            fails(view, next, action, stop)
        } else {
            &&& action == Action::Flush
            &&& next == view.at(Stage::Flushing)
        }
    } else if view.next < view.missing.len() {
        let object_id = view.missing[view.next];
        if interrupted {
            fails(view, next, action, stop)
        } else if !view.plan.has_lookup {
            fails(view, next, action, Error::MissingExternalBase { object_id })
        } else {
            &&& action == Action::LookUp { object_id }
            &&& next == CompletionView {
                next: view.next + 1,
                stage: Stage::LookingUp(object_id),
                ..view
            }
        }
    } else {
        let count = view.final_count()->Ok_0;
        &&& action matches Action::WriteAtStart(bytes)
        &&& bytes@ == header(view.plan.pack_version, count)
        &&& next == CompletionView {
            num_objects: count,
            stage: Stage::WritingPackHeader,
            ..view
        }
    }
}

/// What the completion does once the file was worked on as it asked.
pub open spec fn on_performed(view: CompletionView, next: CompletionView, action: Action) -> bool {
    match view.stage {
        Stage::Flushing => if view.rewrites() {
            match view.final_count() {
                Ok(_) => {
                    &&& action == Action::Reserve
                    &&& next == view.at(Stage::Reserving)
                },
                Err(error) => fails(view, next, action, Error::IndexWrite(error)),
            }
        } else {
            match view.pack_hash {
                Some(id) => match end_of(view.entries_end, view.plan.object_hash.len()) {
                    Some(len) => {
                        &&& action == Action::Truncate { len }
                        &&& next == view.at(Stage::Trimming(id))
                    },
                    None => fails(view, next, action, Error::LengthOverflow),
                },
                None => fails(
                    view,
                    next,
                    action,
                    Error::IndexWrite(index::Error::IteratorInvariantTrailer),
                ),
            }
        },
        Stage::Trimming(pack_hash) => {
            &&& action == Action::Done { pack_hash }
            &&& next == view.at(Stage::Complete)
        },
        Stage::Truncating => {
            &&& action == Action::Continue
            &&& next == view.at(Stage::Ready)
        },
        Stage::WritingHeader { id, compressed, crc32, header_end, header } => match compressed {
            Some(content) => {
                &&& action == Action::Write(content)
                &&& next == view.at(
                    Stage::WritingContent {
                        id,
                        crc32,
                        end: end_of(view.entries_end, header@.len() + content@.len()),
                        header,
                        content: Ghost(content@),
                    },
                )
            },
            None => fails(view, next, action, Error::NoCompressedData),
        },
        Stage::WritingContent { id, crc32, end, header, content } => match crc32 {
            Some(crc32) => match end {
                Some(end) => {
                    &&& action == Action::Continue
                    &&& next == CompletionView {
                        items: view.items.push(
                            Item {
                                offset: view.entries_end,
                                next_offset: end,
                                data: TreeEntry { id, crc32 },
                            },
                        ),
                        entries_end: end,
                        stage: Stage::Ready,
                        appended: view.appended + (header@ + content@),
                        ..view
                    }
                },
                None => fails(view, next, action, Error::LengthOverflow),
            },
            None => fails(view, next, action, Error::NoChecksum),
        },
        Stage::WritingPackHeader => {
            &&& action == Action::Hash { len: view.entries_end }
            &&& next == view.at(Stage::Hashing)
        },
        Stage::WritingTrailer(pack_hash) => {
            &&& action == Action::Done { pack_hash }
            &&& next == CompletionView {
                pack_hash: Some(pack_hash),
                stage: Stage::Complete,
                ..view
            }
        },
        _ => false,
    }
}

/// What the completion does with the answer to the lookup of a base.
pub open spec fn on_looked_up(
    view: CompletionView,
    lookup: Lookup,
    next: CompletionView,
    action: Action,
) -> bool {
    let object_id = view.current()->0;
    match lookup {
        Lookup::Failed => fails(view, next, action, Error::Find { object_id }),
        Lookup::Absent => fails(view, next, action, Error::MissingExternalBase { object_id }),
        Lookup::Found { kind, data } => {
            if base_limit(view.plan.target, view.plan.alloc_limit_bytes) matches Some(limit)
                && data@.len() > limit {
                fails(
                    view,
                    next,
                    action,
                    Error::IndexWrite(index::Error::TreeTraversal(traverse::Error::OutOfMemory)),
                )
            } else if is_id_of(object_id, view.plan.object_hash, kind, data@) {
                &&& action == Action::Encode {
                    pack_offset: view.entries_end,
                    compression: view.plan.compression,
                }
                &&& next == CompletionView {
                    stage: Stage::Encoding(object_id),
                    bases: view.bases.push(BaseObject { kind, content: data@ }),
                    ..view
                }
            } else {
                &&& next == view.at(Stage::Failed)
                &&& match object_digest(view.plan.object_hash, kind, data@) {
                    Some(_) => {
                        &&& action matches Action::Fail(
                            Error::ExternalBaseIdMismatch { expected, actual },
                        )
                        &&& expected == object_id
                        &&& is_id_of(actual, view.plan.object_hash, kind, data@)
                    },
                    None => action == Action::Fail(
                        Error::IndexWrite(index::Error::TreeTraversal(traverse::Error::ObjectHash)),
                    ),
                }
            }
        },
    }
}

/// What the completion does on `event`: `next` is what it knows afterwards.
pub open spec fn transition(
    view: CompletionView,
    event: Event,
    next: CompletionView,
    action: Action,
) -> bool {
    match event {
        Event::Continue { interrupted } => on_continue(view, interrupted, next, action),
        Event::Performed { ok } => if ok {
            on_performed(view, next, action)
        } else {
            fails(view, next, action, Error::Io)
        },
        Event::Reserved { ok } => if ok {
            &&& action == Action::Truncate { len: view.entries_end }
            &&& next == view.at(Stage::Truncating)
        } else {
            fails(view, next, action, Error::IndexWrite(index::Error::OutOfMemory))
        },
        Event::LookedUp(lookup) => on_looked_up(view, lookup, next, action),
        Event::Encoded(encoded) => match encoded {
            Some(entry) => {
                &&& action == Action::Write(entry.header)
                &&& next == view.at(
                    Stage::WritingHeader {
                        id: view.current()->0,
                        compressed: entry.compressed,
                        crc32: entry.crc32,
                        header_end: end_of(view.entries_end, entry.header@.len()),
                        header: Ghost(entry.header@),
                    },
                )
            },
            None => fails(view, next, action, Error::PackIter),
        },
        Event::Hashed(hashed) => match hashed {
            Some(id) => {
                &&& action == Action::WriteTrailer(id)
                &&& next == view.at(Stage::WritingTrailer(id))
            },
            None => fails(view, next, action, Error::IndexWrite(index::Error::Io)),
        },
    }
}

proof fn lemma_next_lies_next(
    items: Seq<Item<TreeEntry>>,
    item: Item<TreeEntry>,
    origin: Prepared,
)
    requires
        items.len() >= origin.items@.len(),
        forall|i: int|
            origin.items@.len() <= i < items.len() ==> #[trigger] lies_next(
                items,
                i,
                origin.items@.len() as int,
                origin.entries_end,
            ),
        item.offset == if items.len() == origin.items@.len() {
            origin.entries_end
        } else {
            items.last().next_offset
        },
    ensures
        forall|i: int|
            origin.items@.len() <= i <= items.len() ==> #[trigger] lies_next(
                items.push(item),
                i,
                origin.items@.len() as int,
                origin.entries_end,
            ),
{
    assert forall|i: int| origin.items@.len() <= i <= items.len() implies #[trigger] lies_next(
        items.push(item),
        i,
        origin.items@.len() as int,
        origin.entries_end,
    ) by {
        if i < items.len() {
            assert(lies_next(items, i, origin.items@.len() as int, origin.entries_end));
        }
    }
}

/// The end of something of length `len` that begins at `start`.
fn checked_end(start: Option<u64>, len: usize) -> (end: Option<u64>)
    ensures
        end == match start {
            Some(start) => end_of(start, len as nat),
            None => None,
        },
{
    match start {
        Some(start) => start.checked_add(len as u64),
        None => None,
    }
}

impl Completion {
    /// Prepares to complete a pack as `plan` says.
    pub fn new(prepared: Prepared, plan: Plan) -> (completion: Completion)
        ensures
            completion@.wf(),
            completion@.stage is Start,
            completion@.plan == plan,
            completion@.origin == prepared,
            completion@.items == prepared.items@,
            completion@.missing == prepared.missing_bases@,
            completion@.next == 0,
            completion@.pack_hash == prepared.pack_hash,
            completion@.num_objects == prepared.num_objects,
            completion@.entries_end == prepared.entries_end,
            completion@.appended == Seq::<u8>::empty(),
            completion@.bases == Seq::<BaseObject>::empty(),
    {
        let ghost origin = prepared;
        Completion {
            plan,
            items: prepared.items,
            missing: prepared.missing_bases,
            next: 0,
            pack_hash: prepared.pack_hash,
            num_objects: prepared.num_objects,
            entries_end: prepared.entries_end,
            stage: Stage::Start,
            appended: Ghost(Seq::empty()),
            bases: Ghost(Seq::empty()),
            origin: Ghost(origin),
        }
    }

    /// Sets memory aside for as many more objects as there are bases to append. That fails for more
    /// objects than memory can ever hold, and succeeds where there is no base to append. Whether memory
    /// can be had otherwise depends on the machine.
    pub fn reserve(&mut self) -> (event: Event<'static>)
        requires
            old(self)@.stage is Reserving,
        ensures
            final(self)@ == old(self)@,
            event is Reserved,
            event->Reserved_ok ==> can_be_held::<Item<TreeEntry>>(
                old(self)@.items.len() + old(self)@.missing.len(),
            ),
            old(self)@.missing.len() == 0 ==> event->Reserved_ok,
    {
        let additional: usize = self.missing.len();
        Event::Reserved { ok: reserve_exact(&mut self.items, additional).is_ok() }
    }

    /// Takes in `event` and says what is to be done.
    pub fn step(&mut self, event: Event<'_>) -> (action: Action)
        requires
            old(self)@.wf(),
            old(self)@.expects(event),
        ensures
            final(self)@.wf(),
            transition(old(self)@, event, final(self)@, action),
    {
        match event {
            Event::Continue { interrupted } => self.go_on(interrupted),
            Event::Performed { ok } => if ok {
                self.performed()
            } else {
                self.fail(Error::Io)
            },
            Event::Reserved { ok } => if ok {
                self.stage = Stage::Truncating;
                Action::Truncate { len: self.entries_end }
            } else {
                self.fail(Error::IndexWrite(index::Error::OutOfMemory))
            },
            Event::LookedUp(lookup) => self.looked_up(lookup),
            Event::Encoded(encoded) => self.encoded(encoded),
            Event::Hashed(hashed) => match hashed {
                Some(id) => {
                    self.stage = Stage::WritingTrailer(id);
                    Action::WriteTrailer(id)
                },
                None => self.fail(Error::IndexWrite(index::Error::Io)),
            },
        }
    }

    /// Hands out the pack once it is complete. No base is missing any more.
    pub fn into_prepared(self) -> (prepared: Prepared)
        requires
            self@.stage is Complete,
        ensures
            prepared.items@ == self@.items,
            prepared.missing_bases@.len() == 0,
            prepared.pack_hash == self@.pack_hash,
            prepared.num_objects == self@.num_objects,
            prepared.entries_end == self@.entries_end,
    {
        Prepared {
            items: self.items,
            missing_bases: Vec::new(),
            pack_hash: self.pack_hash,
            num_objects: self.num_objects,
            entries_end: self.entries_end,
        }
    }
}

impl Completion {
    fn fail(&mut self, error: Error) -> (action: Action)
        requires
            old(self)@.wf(),
        ensures
            final(self)@.wf(),
            fails(old(self)@, final(self)@, action, error),
    {
        self.stage = Stage::Failed;
        Action::Fail(error)
    }

    fn go_on(&mut self, interrupted: bool) -> (action: Action)
        requires
            old(self)@.wf(),
            old(self)@.stage is Start || old(self)@.stage is Ready,
        ensures
            final(self)@.wf(),
            on_continue(old(self)@, interrupted, final(self)@, action),
    {
        let stop = Error::IndexWrite(index::Error::TreeTraversal(traverse::Error::Interrupted));
        if let Stage::Start = self.stage {
            if interrupted {
                return self.fail(stop);
            }
            self.stage = Stage::Flushing;
            return Action::Flush;
        }
        if self.next < self.missing.len() {
            if interrupted {
                return self.fail(stop);
            }
            let object_id = self.missing[self.next];
            if !self.plan.has_lookup {
                return self.fail(Error::MissingExternalBase { object_id });
            }
            self.next = self.next + 1;
            self.stage = Stage::LookingUp(object_id);
            return Action::LookUp { object_id };
        }
        match final_count(self.num_objects, self.missing.len(), self.plan.target) {
            Ok(count) => {
                self.num_objects = count;
                self.stage = Stage::WritingPackHeader;
                Action::WriteAtStart(encode_header(self.plan.pack_version, count))
            },
            Err(error) => {
                assert(false);
                self.fail(Error::IndexWrite(error))
            },
        }
    }

    fn performed(&mut self) -> (action: Action)
        requires
            old(self)@.wf(),
            old(self)@.expects(Event::Performed { ok: true }),
        ensures
            final(self)@.wf(),
            on_performed(old(self)@, final(self)@, action),
    {
        let mut stage = Stage::Failed;
        std::mem::swap(&mut stage, &mut self.stage);
        match stage {
            Stage::Flushing => self.flushed(),
            Stage::Trimming(pack_hash) => {
                self.stage = Stage::Complete;
                Action::Done { pack_hash }
            },
            Stage::Truncating => {
                self.stage = Stage::Ready;
                Action::Continue
            },
            Stage::WritingHeader { id, compressed, crc32, header_end, header } => {
                match compressed {
                    Some(content) => {
                        let end = checked_end(header_end, content.len());
                        self.stage = Stage::WritingContent {
                            id,
                            crc32,
                            end,
                            header,
                            content: Ghost(content@),
                        };
                        Action::Write(content)
                    },
                    None => Action::Fail(Error::NoCompressedData),
                }
            },
            Stage::WritingContent { id, crc32, end, header, content } => match crc32 {
                Some(crc32) => match end {
                    Some(end) => {
                        let ghost before = self.items@;
                        self.items.push(
                            Item {
                                offset: self.entries_end,
                                next_offset: end,
                                data: TreeEntry { id, crc32 },
                            },
                        );
                        self.entries_end = end;
                        self.stage = Stage::Ready;
                        self.appended = Ghost(self.appended@ + (header@ + content@));
                        proof {
                            lemma_next_lies_next(before, self.items@.last(), self.origin@);
                        }
                        Action::Continue
                    },
                    None => Action::Fail(Error::LengthOverflow),
                },
                None => Action::Fail(Error::NoChecksum),
            },
            Stage::WritingPackHeader => {
                self.stage = Stage::Hashing;
                Action::Hash { len: self.entries_end }
            },
            Stage::WritingTrailer(pack_hash) => {
                self.pack_hash = Some(pack_hash);
                self.stage = Stage::Complete;
                Action::Done { pack_hash }
            },
            _ => {
                assert(false);
                Action::Fail(Error::Io)
            },
        }
    }

    fn looked_up(&mut self, lookup: Lookup<'_>) -> (action: Action)
        requires
            old(self)@.wf(),
            old(self)@.stage is LookingUp,
        ensures
            final(self)@.wf(),
            on_looked_up(old(self)@, lookup, final(self)@, action),
    {
        let object_id = match self.stage {
            Stage::LookingUp(object_id) => object_id,
            _ => {
                assert(false);
                return Action::Continue;
            },
        };
        let (kind, data) = match lookup {
            Lookup::Failed => {
                return self.fail(Error::Find { object_id });
            },
            Lookup::Absent => {
                return self.fail(Error::MissingExternalBase { object_id });
            },
            Lookup::Found { kind, data } => (kind, data),
        };
        if let Some(limit) = effective_base_limit(self.plan.target, self.plan.alloc_limit_bytes) {
            if data.len() > limit {
                return self.fail(
                    Error::IndexWrite(index::Error::TreeTraversal(traverse::Error::OutOfMemory)),
                );
            }
        }
        match compute_hash(self.plan.object_hash, kind, data) {
            Ok(actual) => {
                if !actual.same(&object_id) {
                    proof {
                        if is_id_of(object_id, self.plan.object_hash, kind, data@) {
                            lemma_id_is_its_bytes(actual, object_id);
                        }
                    }
                    return self.fail(Error::ExternalBaseIdMismatch { expected: object_id, actual });
                }
                self.stage = Stage::Encoding(object_id);
                self.bases = Ghost(self.bases@.push(BaseObject { kind, content: data@ }));
                Action::Encode {
                    pack_offset: self.entries_end,
                    compression: self.plan.compression,
                }
            },
            Err(_) => self.fail(
                Error::IndexWrite(index::Error::TreeTraversal(traverse::Error::ObjectHash)),
            ),
        }
    }

    fn encoded(&mut self, encoded: Option<EncodedEntry>) -> (action: Action)
        requires
            old(self)@.wf(),
            old(self)@.stage is Encoding,
        ensures
            final(self)@.wf(),
            transition(old(self)@, Event::Encoded(encoded), final(self)@, action),
    {
        let id = match self.stage {
            Stage::Encoding(id) => id,
            _ => {
                assert(false);
                return Action::Continue;
            },
        };
        match encoded {
            Some(entry) => {
                let header_end = checked_end(Some(self.entries_end), entry.header.len());
                self.stage = Stage::WritingHeader {
                    id,
                    compressed: entry.compressed,
                    crc32: entry.crc32,
                    header_end,
                    header: Ghost(entry.header@),
                };
                Action::Write(entry.header)
            },
            None => self.fail(Error::PackIter),
        }
    }

    fn flushed(&mut self) -> (action: Action)
        requires
            old(self)@.at(Stage::Flushing).wf(),
            old(self)@.stage is Failed,
        ensures
            final(self)@.wf(),
            on_performed(old(self)@.at(Stage::Flushing), final(self)@, action),
    {
        if self.plan.restore || self.missing.len() > 0 {
            return match final_count(self.num_objects, self.missing.len(), self.plan.target) {
                Ok(_) => {
                    self.stage = Stage::Reserving;
                    Action::Reserve
                },
                Err(error) => Action::Fail(Error::IndexWrite(error)),
            };
        }
        match self.pack_hash {
            Some(pack_hash) => match checked_end(
                Some(self.entries_end),
                self.plan.object_hash.len_in_bytes(),
            ) {
                Some(len) => {
                    self.stage = Stage::Trimming(pack_hash);
                    Action::Truncate { len }
                },
                None => Action::Fail(Error::LengthOverflow),
            },
            None => Action::Fail(Error::IndexWrite(index::Error::IteratorInvariantTrailer)),
        }
    }
}

/// The completion keeps its account, whatever happens.
pub proof fn lemma_account_is_kept(
    view: CompletionView,
    event: Event,
    next: CompletionView,
    action: Action,
)
    requires
        view.wf(),
        view.expects(event),
        transition(view, event, next, action),
    ensures
        next.wf(),
        next.origin == view.origin,
        next.plan == view.plan,
{
    if let Event::Performed { ok: true } = event {
        if let Stage::WritingContent { .. } = view.stage {
            if next.stage is Ready {
                lemma_next_lies_next(view.items, next.items.last(), view.origin);
            }
        }
    }
}

impl CompletionView {
    /// A bound on the number of events that the completion still needs.
    pub open spec fn remaining(self) -> int {
        8 * (self.missing.len() - self.next) + match self.stage {
            Stage::Complete | Stage::Failed => 0int,
            Stage::WritingTrailer(_) => 1,
            Stage::Hashing => 2,
            Stage::WritingPackHeader => 3,
            Stage::Ready => 4,
            Stage::WritingContent { .. } => 5,
            Stage::WritingHeader { .. } => 6,
            Stage::Encoding(_) => 7,
            Stage::LookingUp(_) => 8,
            Stage::Truncating | Stage::Trimming(_) => 9,
            Stage::Reserving => 10,
            Stage::Flushing => 11,
            Stage::Start => 12,
        }
    }
}

/// The completion comes to an end: every event brings it closer.
pub proof fn lemma_completion_ends(
    view: CompletionView,
    event: Event,
    next: CompletionView,
    action: Action,
)
    requires
        view.wf(),
        view.expects(event),
        transition(view, event, next, action),
    ensures
        0 <= next.remaining() < view.remaining(),
        next.stage is Complete <==> action is Done,
        next.stage is Failed <==> action is Fail,
{
}

/// The ids of `items`.
pub open spec fn ids_of(items: Seq<Item<TreeEntry>>) -> Seq<ObjectId> {
    items.map_values(|item: Item<TreeEntry>| item.data.id)
}

/// Hands out what the index of a complete pack lists: its objects, ordered by id if bases were
/// appended. Fails at the first object that equals the one before it.
pub fn index_contents(prepared: Prepared, pack_hash: ObjectId, appended: bool) -> (result: Result<
    Contents,
    index::Error,
>)
    ensures
        match result {
            Ok(contents) => {
                &&& contents.pack_hash == pack_hash
                &&& contents.num_objects == prepared.num_objects
                &&& if appended {
                    is_index_of(contents.items@, prepared.items@)
                } else {
                    contents.items == prepared.items
                }
                &&& forall|index: int| !first_repeat(ids_of(contents.items@), index)
            },
            Err(index::Error::DuplicateObject { object_id }) => if appended {
                first_duplicate(prepared.items@, object_id)
            } else {
                exists|index: int|
                    #[trigger] first_repeat(ids_of(prepared.items@), index) && object_id == ids_of(
                        prepared.items@,
                    )[index]
            },
            Err(_) => false,
        },
{
    let num_objects = prepared.num_objects;
    if appended {
        let empty: Vec<Item<TreeEntry>> = Vec::new();
        let outcome = traverse::Outcome { roots: prepared.items, children: empty };
        assert(all_items(outcome) =~= prepared.items@);
        return match sort_items(outcome) {
            Ok(items) => {
                proof {
                    assert forall|index: int| !first_repeat(ids_of(items@), index) by {
                        if first_repeat(ids_of(items@), index) {
                            assert(items@[index - 1].key() < items@[index].key());
                            assert(ids_of(items@)[index - 1] == items@[index - 1].data.id);
                            assert(ids_of(items@)[index] == items@[index].data.id);
                        }
                    }
                }
                Ok(Contents { items, pack_hash, num_objects })
            },
            Err(error) => Err(error),
        };
    }
    let items = prepared.items;
    let ids = item_ids(&items);
    match ensure_unique(ids.as_slice()) {
        Ok(()) => Ok(Contents { items, pack_hash, num_objects }),
        Err(error) => Err(error),
    }
}

fn item_ids(items: &Vec<Item<TreeEntry>>) -> (ids: Vec<ObjectId>)
    ensures
        ids@ == ids_of(items@),
{
    let mut ids: Vec<ObjectId> = Vec::new();
    for i in 0..items.len()
        invariant
            ids@ == ids_of(items@).take(i as int),
    {
        ids.push(items[i].data.id);
        assert(ids@ =~= ids_of(items@).take(i + 1));
    }
    assert(ids_of(items@).take(items@.len() as int) =~= ids_of(items@));
    ids
}

/// Objects are counted as they are: the received ones and the missing bases together. They cannot be
/// counted exactly if there are more than fit 32 bits, or on Motor OS more than 65536, and the error tells
/// which limit it is.
pub proof fn lemma_objects_are_counted(num_objects: u32, missing: nat, target: Target)
    ensures
        match counted(num_objects, missing, target) {
            Ok(count) => {
                &&& count == num_objects + missing
                &&& target is Motor ==> count <= 65536
            },
            Err(index::Error::IteratorInvariantTooManyObjects(count)) => {
                &&& num_objects + missing > u32::MAX
                &&& count == num_objects + missing || (count == usize::MAX && num_objects + missing
                    > usize::MAX)
            },
            Err(index::Error::EntryCountLimit { max_entries }) => {
                &&& target is Motor
                &&& max_entries == 65536
                &&& 65536 < num_objects + missing <= u32::MAX
            },
            Err(_) => false,
        },
{
}

/// A base may have as many bytes as the caller allows. On Motor OS it may not have more than sixteen
/// mebibytes either, whatever the caller allows.
pub proof fn lemma_limit_on_bases(target: Target, alloc_limit_bytes: Option<usize>, len: nat)
    ensures
        (base_limit(target, alloc_limit_bytes) matches Some(limit) && len > limit) <==> {
            ||| alloc_limit_bytes matches Some(limit) && len > limit
            ||| target is Motor && len > 16 * 1024 * 1024
        },
{
}

} // verus!
