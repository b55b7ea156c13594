//! Writing of a pack together with its index: how the files are named, and when they are moved into
//! place.
use std::marker::PhantomData;
use std::ops::Range;

use gix_zlib::Compression;
use vstd::prelude::*;
use vstd::std_specs::convert::FromSpec;
use vstd::string::*;

pub use crate::complete::Error;
use crate::complete::{Plan, Target};
use crate::data;
use crate::hash::{
    hex_value, lemma_hex_reads_back, lemma_id_is_its_bytes, spec_hex, HashKind, ObjectId,
};
use crate::index;

verus! {

/// The steps of pack writing whose progress is reported.
#[derive(Clone, Copy, Debug)]
pub enum ProgressId {
    /// The number of bytes read from the input pack.
    ReadPackBytes,
    /// The logical steps towards an index on disk. Underneath there is more progress information on
    /// the index itself.
    IndexingSteps(PhantomData<index::ProgressId>),
}

impl From<ProgressId> for [u8; 4] {
    fn from(id: ProgressId) -> [u8; 4] {
        match id {
            ProgressId::ReadPackBytes => [66u8, 87u8, 82u8, 66u8],
            ProgressId::IndexingSteps(_) => [66u8, 87u8, 67u8, 73u8],
        }
    }
}

impl vstd::std_specs::convert::FromSpecImpl<ProgressId> for [u8; 4] {
    open spec fn obeys_from_spec() -> bool {
        true
    }

    open spec fn from_spec(id: ProgressId) -> [u8; 4] {
        match id {
            ProgressId::ReadPackBytes => [66u8, 87u8, 82u8, 66u8],
            ProgressId::IndexingSteps(_) => [66u8, 87u8, 67u8, 73u8],
        }
    }
}

/// Both steps have an id of their own, and one that no step of index writing has, so that the progress
/// of each can be selected by it.
pub proof fn lemma_progress_ids_differ(a: ProgressId, b: ProgressId, c: index::ProgressId)
    ensures
        (a is ReadPackBytes) != (b is ReadPackBytes) ==> <[u8; 4] as FromSpec<
            ProgressId,
        >>::from_spec(a) != <[u8; 4] as FromSpec<ProgressId>>::from_spec(b),
        <[u8; 4] as FromSpec<ProgressId>>::from_spec(a) != <[u8; 4] as FromSpec<
            index::ProgressId,
        >>::from_spec(c),
{
    let first = <[u8; 4] as FromSpec<ProgressId>>::from_spec(a);
    let second = <[u8; 4] as FromSpec<ProgressId>>::from_spec(b);
    let third = <[u8; 4] as FromSpec<index::ProgressId>>::from_spec(c);
    assert((a is ReadPackBytes) != (b is ReadPackBytes) ==> first@[2] != second@[2]);
    assert(first@[0] != third@[0]);
}

/// Finds the bytes of an entry in a pack, or `None` if they do not lie in it.
pub fn resolve_entry(range: Range<u64>, mapped_file: &[u8]) -> (entry: Option<&[u8]>)
    ensures
        if range.start <= range.end <= mapped_file@.len() {
            &&& entry matches Some(bytes)
            &&& bytes@ == mapped_file@.subrange(range.start as int, range.end as int)
        } else {
            entry is None
        },
{
    if range.start <= range.end && range.end <= mapped_file.len() as u64 {
        Some(
            vstd::slice::slice_subrange(mapped_file, range.start as usize, range.end as usize),
        )
    } else {
        None
    }
}

/// Whether reading a pack with that many objects pays for a thread of its own.
pub fn reads_eagerly(num_objects: usize) -> (eagerly: bool)
    ensures
        eagerly == (num_objects > 25000),
{
    num_objects > 25000
}

/// The files that a pack is published as.
#[derive(Clone, Copy, Debug, PartialEq, Eq, Structural)]
pub enum FileKind {
    /// The pack itself.
    Data,
    /// Its index.
    Index,
    /// A mark that keeps the pack from being collected.
    Keep,
}

impl FileKind {
    /// The name extension of such a file.
    pub open spec fn extension(self) -> Seq<char> {
        match self {
            FileKind::Data => ".pack"@,
            FileKind::Index => ".idx"@,
            FileKind::Keep => ".keep"@,
        }
    }
}

/// The name of a file of the pack with this hash.
pub open spec fn file_name(pack_hash: ObjectId, kind: FileKind) -> Seq<char> {
    "pack-"@ + spec_hex(pack_hash@) + kind.extension()
}

/// The names of the files of a pack differ in their extensions only. Before it, each has the same stem:
/// `pack-`, and then two hexadecimal digits for each byte of the hash, in the order of the bytes.
pub proof fn lemma_files_of_a_pack_share_a_stem(pack_hash: ObjectId, a: FileKind, b: FileKind)
    ensures
        ({
            let stem = file_name(pack_hash, a).take(5int + 2 * pack_hash@.len());
            &&& stem == file_name(pack_hash, b).take(5int + 2 * pack_hash@.len())
            &&& stem.len() == 5 + 2 * pack_hash@.len()
            &&& stem.take(5) == seq!['p', 'a', 'c', 'k', '-']
            &&& forall|i: int|
                0 <= i < pack_hash@.len() ==> 16 * hex_value(stem[5 + 2 * i]) + hex_value(
                    stem[6 + 2 * i],
                ) == #[trigger] pack_hash@[i]
            &&& forall|i: int|
                5 <= i < stem.len() ==> '0' <= #[trigger] stem[i] <= '9' || 'a' <= stem[i] <= 'f'
            &&& file_name(pack_hash, a).skip(5int + 2 * pack_hash@.len()) == match a {
                FileKind::Data => seq!['.', 'p', 'a', 'c', 'k'],
                FileKind::Index => seq!['.', 'i', 'd', 'x'],
                FileKind::Keep => seq!['.', 'k', 'e', 'e', 'p'],
            }
        }),
{
    reveal_strlit("pack-");
    reveal_strlit(".pack");
    reveal_strlit(".idx");
    reveal_strlit(".keep");
    let hex = spec_hex(pack_hash@);
    let len = 5int + 2 * pack_hash@.len();
    lemma_hex_reads_back(pack_hash@);
    let stem = file_name(pack_hash, a).take(len);
    assert(stem =~= "pack-"@ + hex);
    assert(file_name(pack_hash, b).take(len) =~= "pack-"@ + hex);
    assert(stem.take(5) =~= seq!['p', 'a', 'c', 'k', '-']);
    assert forall|i: int| 0 <= i < pack_hash@.len() implies 16 * hex_value(stem[5 + 2 * i])
        + hex_value(stem[6 + 2 * i]) == #[trigger] pack_hash@[i] by {
        assert(stem[5 + 2 * i] == hex[2 * i]);
        assert(stem[6 + 2 * i] == hex[2 * i + 1]);
    }
    assert forall|i: int| 5 <= i < stem.len() implies '0' <= #[trigger] stem[i] <= '9' || 'a'
        <= stem[i] <= 'f' by {
        assert(stem[i] == hex[i - 5]);
    }
    let extension = match a {
        FileKind::Data => seq!['.', 'p', 'a', 'c', 'k'],
        FileKind::Index => seq!['.', 'i', 'd', 'x'],
        FileKind::Keep => seq!['.', 'k', 'e', 'e', 'p'],
    };
    assert(file_name(pack_hash, a).skip(len) =~= extension);
}

/// Packs with different hashes of the same kind have different names, and so have different files of a
/// pack.
pub proof fn lemma_names_tell_packs_apart(
    first: ObjectId,
    second: ObjectId,
    a: FileKind,
    b: FileKind,
)
    requires
        first.kind() == second.kind(),
        file_name(first, a) == file_name(second, b),
    ensures
        first == second,
        a == b,
{
    lemma_files_of_a_pack_share_a_stem(first, a, a);
    lemma_files_of_a_pack_share_a_stem(second, b, b);
    let len = 5int + 2 * first@.len();
    assert(first@.len() == second@.len());
    assert(first@ =~= second@) by {
        assert forall|i: int| 0 <= i < first@.len() implies first@[i] == second@[i] by {
            let stem = file_name(first, a).take(len);
            assert(16 * hex_value(stem[5 + 2 * i]) + hex_value(stem[6 + 2 * i]) == first@[i]);
            assert(16 * hex_value(stem[5 + 2 * i]) + hex_value(stem[6 + 2 * i]) == second@[i]);
        }
    }
    lemma_id_is_its_bytes(first, second);
    let rest = file_name(first, a).skip(len);
    assert(rest == file_name(second, b).skip(len));
    if a != b {
        assert(rest[1] == 'p' || rest[1] == 'i' || rest[1] == 'k');
    }
}

/// Composes the name of a file of the pack with this hash.
pub fn name_of(pack_hash: &ObjectId, kind: FileKind) -> (name: String)
    ensures
        name@ == file_name(*pack_hash, kind),
{
    let mut name = "pack-".to_owned();
    let hex = pack_hash.to_hex();
    name.append(hex.as_str());
    name.append(
        match kind {
            FileKind::Data => ".pack",
            FileKind::Index => ".idx",
            FileKind::Keep => ".keep",
        },
    );
    name
}

/// All packs without entries and without trailer, of the same version and kind of hash, have the same
/// name.
pub proof fn lemma_empty_packs_share_a_name(
    first: ObjectId,
    second: ObjectId,
    a: index::Indexed,
    b: index::Indexed,
    version: data::Version,
    kind: FileKind,
)
    requires
        index::is_pack_hash(Some(first), a, version),
        index::is_pack_hash(Some(second), b, version),
        a.trailer is None && a.num_objects == 0,
        b.trailer is None && b.num_objects == 0,
        a.object_hash == b.object_hash,
    ensures
        file_name(first, kind) == file_name(second, kind),
{
    index::lemma_empty_packs_are_alike(Some(first), Some(second), a, b, version);
}

/// How the entries of a pack are read.
#[derive(Clone, Copy, Debug, PartialEq, Eq, Structural)]
pub enum Mode {
    /// The trailing hash is taken as it is.
    AsIs,
    /// The trailing hash is computed and compared.
    Verify,
    /// As many entries as possible are taken, and the trailing hash is computed.
    Restore,
}

/// How a pack is to be written.
#[derive(Clone, Copy, Debug)]
pub struct Options {
    /// The number of threads to use, or as many as there are logical cores.
    pub thread_limit: Option<usize>,
    /// How the entries of the pack are read.
    pub iteration_mode: Mode,
    /// The version of the index to write.
    pub index_version: index::Version,
    /// The kind of the ids.
    pub object_hash: HashKind,
    /// The size above which a single allocation is rejected, if there is one.
    pub alloc_limit_bytes: Option<usize>,
    /// How hard the bases that are appended are compressed.
    pub compression: Compression,
}

impl Options {
    /// How a pack is to be completed that is written like this.
    pub fn plan(&self, pack_version: data::Version, has_lookup: bool, target: Target) -> (plan: Plan)
        ensures
            plan == (Plan {
                restore: self.iteration_mode == Mode::Restore,
                has_lookup,
                pack_version,
                object_hash: self.object_hash,
                alloc_limit_bytes: self.alloc_limit_bytes,
                compression: self.compression,
                target,
            }),
    {
        Plan {
            restore: self.iteration_mode == Mode::Restore,
            has_lookup,
            pack_version,
            object_hash: self.object_hash,
            alloc_limit_bytes: self.alloc_limit_bytes,
            compression: self.compression,
            target,
        }
    }
}

/// A pack that was written.
#[derive(Debug)]
pub struct WriteOutcome {
    /// What is known of the index.
    pub outcome: index::Outcome,
    /// The name of the pack, unless it was not published.
    pub data_name: Option<String>,
    /// The name of its index, unless it was not published.
    pub index_name: Option<String>,
    /// The name of the mark that keeps the pack, unless the pack was there before.
    pub keep_name: Option<String>,
}

/// The name is that of a file of the pack with this hash, if it is to have one.
pub open spec fn is_name(
    name: Option<String>,
    pack_hash: ObjectId,
    kind: FileKind,
    published: bool,
) -> bool {
    if published {
        name matches Some(name) && name@ == file_name(pack_hash, kind)
    } else {
        name is None
    }
}

impl WriteOutcome {
    /// The pack is published under the names that its hash gives it, with a mark if it is `kept`.
    pub open spec fn is_published(self, outcome: index::Outcome, published: bool, kept: bool) -> bool {
        &&& self.outcome == outcome
        &&& is_name(self.data_name, outcome.data_hash, FileKind::Data, published)
        &&& is_name(self.index_name, outcome.data_hash, FileKind::Index, published)
        &&& is_name(self.keep_name, outcome.data_hash, FileKind::Keep, published && kept)
    }

    /// A pack that was written without being published.
    pub fn discarded(outcome: index::Outcome) -> (written: WriteOutcome)
        ensures
            written.is_published(outcome, false, false),
    {
        WriteOutcome { outcome, data_name: None, index_name: None, keep_name: None }
    }
}

/// What the publication is to be told next.
pub enum PublishEvent {
    /// Go on.
    Begin,
    /// Whether there is such a file, in answer to `PublishAction::Find`.
    Found { exists: bool },
    /// Whether the last action could be performed.
    Performed(Result<(), Error>),
}

/// What is to be done for the publication.
pub enum PublishAction {
    /// See whether there is a file with this name.
    Find { kind: FileKind, name: String },
    /// Write an empty file with this name.
    WriteKeep { name: String },
    /// Move the file of this kind into place under this name.
    Persist { kind: FileKind, name: String },
    /// The pack is published, or is not to be.
    Done(WriteOutcome),
    /// The pack cannot be published.
    Fail(Error),
}

/// What the publication waits for.
#[derive(Clone, Copy)]
pub enum PublishStage {
    Start,
    FindingData,
    WritingKeep,
    PersistingData,
    FindingIndex { kept: bool },
    PersistingIndex { kept: bool },
    Over,
}

/// The publication of a pack with its index.
pub struct Publication {
    outcome: index::Outcome,
    stage: PublishStage,
}

impl Publication {
    /// What is known of the index.
    pub closed spec fn outcome(&self) -> index::Outcome {
        self.outcome
    }

    /// What the publication waits for.
    pub closed spec fn stage(&self) -> PublishStage {
        self.stage
    }

    /// The event is one that the publication waits for.
    pub open spec fn expects(&self, event: PublishEvent) -> bool {
        match event {
            PublishEvent::Begin => self.stage() is Start,
            PublishEvent::Found { .. } => self.stage() is FindingData
                || self.stage() is FindingIndex,
            PublishEvent::Performed(_) => self.stage() is WritingKeep
                || self.stage() is PersistingData || self.stage() is PersistingIndex,
        }
    }
}

/// The action is to see whether there is a file of this kind.
pub open spec fn finds(action: PublishAction, pack_hash: ObjectId, kind: FileKind) -> bool {
    &&& action matches PublishAction::Find { kind: asked, name }
    &&& asked == kind
    &&& name@ == file_name(pack_hash, kind)
}

/// The action is to move the file of this kind into place.
pub open spec fn persists(action: PublishAction, pack_hash: ObjectId, kind: FileKind) -> bool {
    &&& action matches PublishAction::Persist { kind: asked, name }
    &&& asked == kind
    &&& name@ == file_name(pack_hash, kind)
}

/// What the publication does on `event`: `next` is what it waits for afterwards.
pub open spec fn publishes(
    stage: PublishStage,
    outcome: index::Outcome,
    event: PublishEvent,
    next: PublishStage,
    action: PublishAction,
) -> bool {
    let hash = outcome.data_hash;
    match event {
        PublishEvent::Begin => if outcome.num_objects == 0 {
            &&& next is Over
            &&& action matches PublishAction::Done(written) && written.is_published(
                outcome,
                false,
                false,
            )
        } else {
            next is FindingData && finds(action, hash, FileKind::Data)
        },
        PublishEvent::Found { exists } => match stage {
            PublishStage::FindingIndex { kept } => if exists {
                &&& next is Over
                &&& action matches PublishAction::Done(written) && written.is_published(
                    outcome,
                    true,
                    kept,
                )
            } else {
                &&& next == PublishStage::PersistingIndex { kept }
                &&& persists(action, hash, FileKind::Index)
            },
            _ => if exists {
                &&& next == PublishStage::FindingIndex { kept: false }
                &&& finds(action, hash, FileKind::Index)
            } else {
                &&& next is WritingKeep
                &&& action matches PublishAction::WriteKeep { name } && name@ == file_name(
                    hash,
                    FileKind::Keep,
                )
            },
        },
        PublishEvent::Performed(Err(error)) => {
            &&& next is Over
            &&& action == PublishAction::Fail(error)
        },
        PublishEvent::Performed(Ok(())) => match stage {
            PublishStage::WritingKeep => next is PersistingData && persists(
                action,
                hash,
                FileKind::Data,
            ),
            PublishStage::PersistingIndex { kept } => {
                &&& next is Over
                &&& action matches PublishAction::Done(written) && written.is_published(
                    outcome,
                    true,
                    kept,
                )
            },
            _ => {
                &&& next == PublishStage::FindingIndex { kept: true }
                &&& finds(action, hash, FileKind::Index)
            },
        },
    }
}

impl Publication {
    /// Prepares to publish a pack whose index came out like this.
    pub fn new(outcome: index::Outcome) -> (publication: Publication)
        ensures
            publication.outcome() == outcome,
            publication.stage() is Start,
    {
        Publication { outcome, stage: PublishStage::Start }
    }

    fn find(&self, kind: FileKind) -> (action: PublishAction)
        ensures
            finds(action, self.outcome().data_hash, kind),
    {
        PublishAction::Find { kind, name: name_of(&self.outcome.data_hash, kind) }
    }

    fn persist(&self, kind: FileKind) -> (action: PublishAction)
        ensures
            persists(action, self.outcome().data_hash, kind),
    {
        PublishAction::Persist { kind, name: name_of(&self.outcome.data_hash, kind) }
    }

    fn published(&self, kept: bool) -> (written: WriteOutcome)
        ensures
            written.is_published(self.outcome(), true, kept),
    {
        let hash = self.outcome.data_hash;
        WriteOutcome {
            outcome: self.outcome,
            data_name: Some(name_of(&hash, FileKind::Data)),
            index_name: Some(name_of(&hash, FileKind::Index)),
            keep_name: if kept {
                Some(name_of(&hash, FileKind::Keep))
            } else {
                None
            },
        }
    }

    /// Takes in `event` and says what is to be done. A pack without objects is not published. One that
    /// is there already is left alone, and gets no mark. A new one is marked before it is moved into
    /// place, so that it cannot be collected in between. Its index is moved into place last, unless
    /// there is one.
    pub fn step(&mut self, event: PublishEvent) -> (action: PublishAction)
        requires
            old(self).expects(event),
        ensures
            final(self).outcome() == old(self).outcome(),
            publishes(
                old(self).stage(),
                old(self).outcome(),
                event,
                final(self).stage(),
                action,
            ),
    {
        match event {
            PublishEvent::Begin => {
                if self.outcome.num_objects == 0 {
                    self.stage = PublishStage::Over;
                    return PublishAction::Done(WriteOutcome::discarded(self.outcome));
                }
                self.stage = PublishStage::FindingData;
                self.find(FileKind::Data)
            },
            PublishEvent::Found { exists } => match self.stage {
                PublishStage::FindingIndex { kept } => if exists {
                    self.stage = PublishStage::Over;
                    PublishAction::Done(self.published(kept))
                } else {
                    self.stage = PublishStage::PersistingIndex { kept };
                    self.persist(FileKind::Index)
                },
                _ => if exists {
                    self.stage = PublishStage::FindingIndex { kept: false };
                    self.find(FileKind::Index)
                } else {
                    self.stage = PublishStage::WritingKeep;
                    PublishAction::WriteKeep {
                        name: name_of(&self.outcome.data_hash, FileKind::Keep),
                    }
                },
            },
            PublishEvent::Performed(Err(error)) => {
                self.stage = PublishStage::Over;
                PublishAction::Fail(error)
            },
            PublishEvent::Performed(Ok(())) => match self.stage {
                PublishStage::WritingKeep => {
                    self.stage = PublishStage::PersistingData;
                    self.persist(FileKind::Data)
                },
                PublishStage::PersistingIndex { kept } => {
                    self.stage = PublishStage::Over;
                    PublishAction::Done(self.published(kept))
                },
                _ => {
                    self.stage = PublishStage::FindingIndex { kept: true };
                    self.find(FileKind::Index)
                },
            },
        }
    }
}

/// The files that a publication has found or made, as far as it goes.
pub struct Published {
    /// Files that there are.
    pub files: Set<FileKind>,
    /// Whether there was a pack of that name before.
    pub known: bool,
}

/// What there is once `event` is told.
pub open spec fn published_after(
    stage: PublishStage,
    event: PublishEvent,
    published: Published,
) -> Published {
    match event {
        PublishEvent::Found { exists: true } => match stage {
            PublishStage::FindingData => Published {
                files: published.files.insert(FileKind::Data),
                known: true,
            },
            _ => Published { files: published.files.insert(FileKind::Index), ..published },
        },
        PublishEvent::Performed(Ok(())) => match stage {
            PublishStage::WritingKeep => Published {
                files: published.files.insert(FileKind::Keep),
                ..published
            },
            PublishStage::PersistingData => Published {
                files: published.files.insert(FileKind::Data),
                ..published
            },
            _ => Published { files: published.files.insert(FileKind::Index), ..published },
        },
        _ => published,
    }
}

/// What there is at each stage. The pack is moved into place only after it was marked.
pub open spec fn is_underway(stage: PublishStage, published: Published) -> bool {
    match stage {
        PublishStage::Start | PublishStage::FindingData | PublishStage::WritingKeep => !published.known,
        PublishStage::PersistingData => {
            &&& !published.known
            &&& published.files.contains(FileKind::Keep)
        },
        PublishStage::FindingIndex { kept } | PublishStage::PersistingIndex { kept } => {
            &&& kept == !published.known
            &&& published.files.contains(FileKind::Data)
            &&& kept ==> published.files.contains(FileKind::Keep)
        },
        PublishStage::Over => true,
    }
}

/// A pack is moved into place only after the mark that keeps it is there, and an index only after its
/// pack. In the end there are the pack and its index under the names that are reported, and a mark is
/// reported exactly if the pack was new.
pub proof fn lemma_publication_order(
    stage: PublishStage,
    outcome: index::Outcome,
    event: PublishEvent,
    next: PublishStage,
    action: PublishAction,
    published: Published,
)
    requires
        publishes(stage, outcome, event, next, action),
        is_underway(stage, published),
        event is Begin ==> stage is Start,
        event is Found ==> stage is FindingData || stage is FindingIndex,
        event is Performed ==> stage is WritingKeep || stage is PersistingData
            || stage is PersistingIndex,
    ensures
        is_underway(next, published_after(stage, event, published)),
        ({
            let after = published_after(stage, event, published);
            match action {
                PublishAction::Persist { kind, .. } => {
                    &&& kind == FileKind::Data ==> after.files.contains(FileKind::Keep)
                    &&& kind == FileKind::Index ==> after.files.contains(FileKind::Data)
                },
                PublishAction::Done(written) => if outcome.num_objects == 0 && event is Begin {
                    written.is_published(outcome, false, false)
                } else {
                    &&& written.is_published(outcome, true, !after.known)
                    &&& after.files.contains(FileKind::Data)
                    &&& after.files.contains(FileKind::Index)
                    &&& !after.known ==> after.files.contains(FileKind::Keep)
                },
                _ => true,
            }
        }),
{
}

} // verus!
