//! Writing of an index: from the entries of a pack to the objects that its index lists.
use vstd::prelude::*;
use vstd::std_specs::convert::FromSpec;

use crate::data::{self, encode_header, Header, InputEntry, HEADER_LEN};
use crate::hash::{
    compute_hash, digest, hash_bytes, lemma_id_is_its_bytes, lemma_key_is_unique,
    lemma_order_is_lexicographic, object_digest,
    CollisionAttack, HashKind, ObjectId,
};
use crate::sort::{lemma_same_contents, sort_by_key, sorted, strictly_sorted, Keyed};
use crate::thin::{
    at_id, completes, ensure_unique, first_repeat, has_id, is_unrooted_chain,
    lemma_missing_are_the_absent_candidates, lemma_ordered_ids_are_unique, rooted, missing_bases_in, reserve_exact,
    Received, Room,
};
use crate::traverse::{self, is_id_of, Context, Item};

verus! {

/// The version of a pack index.
#[derive(Clone, Copy, Debug, PartialEq, Eq, Structural, PartialOrd, Ord, Hash)]
pub enum Version {
    V1,
    V2,
}

impl Default for Version {
    /// The version that is written unless another one is asked for.
    fn default() -> (version: Version)
        ensures
            version == Version::V2,
    {
        Version::V2
    }
}

/// Why an index could not be written.
#[derive(Debug)]
pub enum Error {
    /// Reading or writing failed.
    Io,
    /// Data could not be hashed.
    Hasher,
    /// There is no support for writing this version of an index.
    Unsupported(Version),
    /// The iterator failed to set a trailing hash.
    IteratorInvariantTrailer,
    /// Only `u32::MAX` objects can be stored in a pack.
    IteratorInvariantTooManyObjects(usize),
    /// The base of the entry at `pack_offset` is out of the pack.
    IteratorInvariantBaseOffset { pack_offset: u64, distance: u64 },
    /// The same object occurs twice.
    DuplicateObject { object_id: ObjectId },
    /// The dependencies of an object do not end in a whole object.
    UnrootedDeltaChain { object_id: ObjectId },
    /// A pack holds more entries than are supported.
    EntryCountLimit { max_entries: usize },
    /// The delta tree could not be built.
    Tree,
    /// The delta tree could not be traversed.
    TreeTraversal(traverse::Error),
    /// Memory could not be allocated.
    OutOfMemory,
}

/// What is known of an object while its index is made.
#[derive(Clone, Copy, Debug)]
pub struct TreeEntry {
    pub id: ObjectId,
    pub crc32: u32,
}

impl Keyed for Item<TreeEntry> {
    /// The objects of an index are ordered by id.
    open spec fn key(&self) -> int {
        self.data.id.key()
    }

    fn precedes(&self, other: &Item<TreeEntry>) -> (before: bool) {
        self.data.id.precedes(&other.data.id)
    }
}

/// Information gathered while an index was written.
#[derive(Clone, Copy, Debug, PartialEq, Eq, PartialOrd, Ord, Hash)]
pub struct Outcome {
    /// The version of the index.
    pub index_version: Version,
    /// The checksum of the index.
    pub index_hash: ObjectId,
    /// The hash of the pack, also found in its trailing bytes.
    pub data_hash: ObjectId,
    /// The number of objects in the pack.
    pub num_objects: u32,
}

/// The steps of index writing whose progress is reported.
#[derive(Clone, Copy, Debug)]
pub enum ProgressId {
    /// The number of objects that were indexed thus far.
    IndexObjects,
    /// The number of bytes that were decompressed to find where entries end.
    DecompressedBytes,
    /// The number of objects whose hashes were computed.
    ResolveObjects,
    /// The number of bytes that were decoded in total, over all resolved objects.
    DecodedBytes,
    /// The number of bytes written to the index file.
    IndexBytesWritten,
}

impl From<ProgressId> for [u8; 4] {
    fn from(id: ProgressId) -> [u8; 4] {
        match id {
            ProgressId::IndexObjects => [73u8, 87u8, 73u8, 79u8],
            ProgressId::DecompressedBytes => [73u8, 87u8, 68u8, 66u8],
            ProgressId::ResolveObjects => [73u8, 87u8, 82u8, 79u8],
            ProgressId::DecodedBytes => [73u8, 87u8, 68u8, 67u8],
            ProgressId::IndexBytesWritten => [73u8, 87u8, 66u8, 87u8],
        }
    }
}

impl vstd::std_specs::convert::FromSpecImpl<ProgressId> for [u8; 4] {
    open spec fn obeys_from_spec() -> bool {
        true
    }

    open spec fn from_spec(id: ProgressId) -> [u8; 4] {
        match id {
            ProgressId::IndexObjects => [73u8, 87u8, 73u8, 79u8],
            ProgressId::DecompressedBytes => [73u8, 87u8, 68u8, 66u8],
            ProgressId::ResolveObjects => [73u8, 87u8, 82u8, 79u8],
            ProgressId::DecodedBytes => [73u8, 87u8, 68u8, 67u8],
            ProgressId::IndexBytesWritten => [73u8, 87u8, 66u8, 87u8],
        }
    }
}

/// Each step has an id of its own, so that its progress can be selected by it.
pub proof fn lemma_progress_ids_differ(a: ProgressId, b: ProgressId)
    requires
        a != b,
    ensures
        <[u8; 4] as FromSpec<ProgressId>>::from_spec(a) != <[u8; 4] as FromSpec<
            ProgressId,
        >>::from_spec(b),
{
    let first = <[u8; 4] as FromSpec<ProgressId>>::from_spec(a);
    let second = <[u8; 4] as FromSpec<ProgressId>>::from_spec(b);
    assert(first@[2] != second@[2] || first@[3] != second@[3]);
}

/// Gives `entry` the id that was computed of its object.
pub fn set_id(entry: &mut TreeEntry, computed: Result<ObjectId, CollisionAttack>) -> (result: Result<
    (),
    CollisionAttack,
>)
    ensures
        match computed {
            Ok(id) => result is Ok && *final(entry) == (TreeEntry { id, ..*old(entry) }),
            Err(error) => result == Err::<(), CollisionAttack>(error) && *final(entry) == *old(entry),
        },
{
    match computed {
        Ok(id) => {
            entry.id = id;
            Ok(())
        },
        Err(error) => Err(error),
    }
}

/// Computes the id of a whole object, which is what every chain of deltas begins with, and enters it.
pub fn modify_base(
    entry: &mut TreeEntry,
    pack_entry: &data::Entry,
    decompressed: &[u8],
    hash: HashKind,
) -> (result: Result<(), CollisionAttack>)
    requires
        pack_entry.header.kind() is Some,
    ensures
        final(entry).crc32 == old(entry).crc32,
        match result {
            Ok(()) => is_id_of(
                final(entry).id,
                hash,
                pack_entry.header.kind()->0,
                decompressed@,
            ),
            Err(_) => {
                &&& object_digest(
                    hash,
                    pack_entry.header.kind()->0,
                    decompressed@,
                ) is None
                &&& *final(entry) == *old(entry)
            },
        },
{
    match pack_entry.header.as_kind() {
        Some(kind) => set_id(entry, compute_hash(hash, kind, decompressed)),
        None => {
            assert(false);
            Ok(())
        },
    }
}

/// Inspects an object that a traversal has reconstructed.
pub fn inspect_object(entry: &mut TreeEntry, context: &Context<'_>, hash: HashKind) -> (result: Result<
    (),
    CollisionAttack,
>)
    requires
        context.entry.header.kind() is Some,
    ensures
        final(entry).crc32 == old(entry).crc32,
        match result {
            Ok(()) => is_id_of(
                final(entry).id,
                hash,
                context.entry.header.kind()->0,
                context.decompressed@,
            ),
            Err(_) => {
                &&& object_digest(
                    hash,
                    context.entry.header.kind()->0,
                    context.decompressed@,
                ) is None
                &&& *final(entry) == *old(entry)
            },
        },
{
    modify_base(entry, context.entry, context.decompressed, hash)
}

/// The place of an object in the delta tree.
#[derive(Clone, Copy, Debug)]
pub enum Parent {
    /// The object is whole.
    Root,
    /// The object is a delta to the object with this id.
    ById(ObjectId),
    /// The object is a delta to the object at this offset of the pack.
    ByOffset(u64),
}

/// An object to add to the delta tree.
#[derive(Clone, Copy, Debug)]
pub struct Insertion {
    pub parent: Parent,
    pub offset: u64,
    pub data: TreeEntry,
}

/// The number of nodes that a delta tree is to have room for, from the bounds on the number of
/// entries.
pub fn tree_capacity(anticipated: usize, upper_bound: Option<usize>) -> (capacity: usize)
    ensures
        capacity == match upper_bound {
            Some(upper) => upper,
            None => anticipated,
        },
{
    match upper_bound {
        Some(upper) => upper,
        None => anticipated,
    }
}

/// What has been learned from the entries of a pack, as they came.
#[derive(Clone, Copy, Debug)]
pub struct Indexing {
    /// How many entries there were.
    pub num_objects: usize,
    /// The trailer that the last entry came with.
    pub last_seen_trailer: Option<ObjectId>,
    /// Where the last entry ends.
    pub pack_entries_end: u64,
    /// The kind of the ids.
    pub object_hash: HashKind,
}

/// The object that `entry` adds to the delta tree, with no id yet. There is none where the entry
/// names a base out of the pack.
pub open spec fn insertion(entry: InputEntry, null: ObjectId) -> Option<Insertion> {
    let data = TreeEntry { id: null, crc32: entry.crc32->0 };
    let offset = entry.pack_offset;
    match entry.header {
        Header::RefDelta { base_id } => Some(
            Insertion { parent: Parent::ById(base_id), offset, data },
        ),
        Header::OfsDelta { base_distance } => match data::base_pack_offset(offset, base_distance) {
            Some(base) => Some(Insertion { parent: Parent::ByOffset(base), offset, data }),
            None => None,
        },
        _ => Some(Insertion { parent: Parent::Root, offset, data }),
    }
}

/// The object that was added for `entry` has its offset and its checksum. A delta that tells a distance
/// hangs on what lies that far before it, a delta that names an id on the object with that id, and a
/// whole object on nothing.
pub open spec fn hangs_on_its_base(entry: InputEntry, added: Insertion) -> bool {
    &&& added.offset == entry.pack_offset
    &&& entry.crc32 == Some(added.data.crc32)
    &&& match entry.header {
        Header::OfsDelta { base_distance } => {
            &&& added.parent matches Parent::ByOffset(base)
            &&& base + base_distance == entry.pack_offset
            &&& base < entry.pack_offset
        },
        Header::RefDelta { base_id } => added.parent == Parent::ById(base_id),
        _ => added.parent is Root,
    }
}

/// Every object is added to the delta tree where it belongs: a delta that tells a distance `d` at offset
/// `o` is a child of what lies at `o - d`, a delta that names an id is a child of the object with that
/// id, and whole objects, and only these, are roots. None is added exactly if the distance is zero or
/// leads out of the pack.
pub proof fn lemma_deltas_hang_on_their_base(entry: InputEntry, null: ObjectId)
    requires
        entry.crc32 is Some,
    ensures
        match insertion(entry, null) {
            Some(added) => {
                &&& added.offset == entry.pack_offset
                &&& entry.crc32 == Some(added.data.crc32)
                &&& match added.parent {
                    Parent::ByOffset(base) => {
                        &&& entry.header matches Header::OfsDelta { base_distance }
                        &&& base + base_distance == entry.pack_offset
                        &&& base < entry.pack_offset
                    },
                    Parent::ById(id) => entry.header matches Header::RefDelta { base_id } && base_id
                        == id,
                    Parent::Root => !(entry.header is OfsDelta) && !(entry.header is RefDelta),
                }
            },
            None => {
                &&& entry.header matches Header::OfsDelta { base_distance }
                &&& base_distance == 0 || base_distance > entry.pack_offset
            },
        },
{
}

impl Indexing {
    /// What has been learned once `entry` has come too.
    pub open spec fn after(self, entry: InputEntry) -> Indexing {
        Indexing {
            num_objects: (self.num_objects + 1) as usize,
            last_seen_trailer: entry.trailer,
            pack_entries_end: entry.end() as u64,
            object_hash: self.object_hash,
        }
    }

    /// What all of `entries` teach: how many there are, and of the last one its trailer and its end.
    pub open spec fn of(entries: Seq<InputEntry>, object_hash: HashKind) -> Indexing {
        if entries.len() == 0 {
            Indexing {
                num_objects: 0,
                last_seen_trailer: None,
                pack_entries_end: HEADER_LEN,
                object_hash,
            }
        } else {
            Indexing {
                num_objects: entries.len() as usize,
                last_seen_trailer: entries.last().trailer,
                pack_entries_end: entries.last().end() as u64,
                object_hash,
            }
        }
    }

    /// No entry has come yet: the pack ends with its header.
    pub fn new(object_hash: HashKind) -> (indexing: Indexing)
        ensures
            indexing == Indexing::of(Seq::<InputEntry>::empty(), object_hash),
    {
        Indexing {
            num_objects: 0,
            last_seen_trailer: None,
            pack_entries_end: HEADER_LEN,
            object_hash,
        }
    }

    /// Takes in the next entry and says what to add to the delta tree.
    pub fn push(&mut self, entry: &InputEntry) -> (result: Result<Insertion, Error>)
        requires
            entry.crc32 is Some,
            entry.end() <= u64::MAX,
            old(self).num_objects < usize::MAX,
        ensures
            match result {
                Ok(added) => {
                    &&& insertion(*entry, added.data.id) == Some(added)
                    &&& hangs_on_its_base(*entry, added)
                    &&& added.data.id.kind() == old(self).object_hash
                    &&& added.data.id@ == Seq::new(added.data.id.kind().len(), |i: int| 0u8)
                    &&& *final(self) == old(self).after(*entry)
                    &&& final(self).num_objects == old(self).num_objects + 1
                    &&& final(self).last_seen_trailer == entry.trailer
                    &&& final(self).pack_entries_end == entry.pack_offset + entry.header_size
                        + entry.compressed_size
                    &&& final(self).object_hash == old(self).object_hash
                },
                Err(error) => {
                    &&& entry.header matches Header::OfsDelta { base_distance }
                    &&& data::base_pack_offset(entry.pack_offset, base_distance) is None
                    &&& base_distance == 0 || base_distance > entry.pack_offset
                    &&& error == Error::IteratorInvariantBaseOffset {
                        pack_offset: entry.pack_offset,
                        distance: base_distance,
                    }
                    &&& *final(self) == *old(self)
                },
            },
    {
        let null = self.object_hash.null();
        let crc32: u32 = match entry.crc32 {
            Some(crc32) => crc32,
            None => {
                assert(false);
                0
            },
        };
        let parent = match entry.header {
            Header::Tree | Header::Blob | Header::Commit | Header::Tag => Parent::Root,
            Header::RefDelta { base_id } => Parent::ById(base_id),
            Header::OfsDelta { base_distance } => {
                match Header::verified_base_pack_offset(entry.pack_offset, base_distance) {
                    Some(base) => Parent::ByOffset(base),
                    None => {
                        return Err(
                            Error::IteratorInvariantBaseOffset {
                                pack_offset: entry.pack_offset,
                                distance: base_distance,
                            },
                        );
                    },
                }
            },
        };
        let entry_len: u64 = entry.header_size as u64 + entry.compressed_size;
        self.pack_entries_end = entry.pack_offset + entry_len;
        self.last_seen_trailer = entry.trailer;
        self.num_objects = self.num_objects + 1;
        Ok(Insertion { parent, offset: entry.pack_offset, data: TreeEntry { id: null, crc32 } })
    }

    /// Ends the intake of entries. A pack cannot hold more objects than its header can count.
    pub fn finish(self) -> (result: Result<Indexed, Error>)
        ensures
            match result {
                Ok(indexed) => {
                    &&& indexed.num_objects == self.num_objects
                    &&& indexed.trailer == self.last_seen_trailer
                    &&& indexed.entries_end == self.pack_entries_end
                    &&& indexed.object_hash == self.object_hash
                },
                Err(error) => {
                    &&& self.num_objects > u32::MAX
                    &&& error == Error::IteratorInvariantTooManyObjects(self.num_objects)
                },
            },
    {
        if self.num_objects > u32::MAX as usize {
            return Err(Error::IteratorInvariantTooManyObjects(self.num_objects));
        }
        Ok(
            Indexed {
                num_objects: self.num_objects as u32,
                trailer: self.last_seen_trailer,
                entries_end: self.pack_entries_end,
                object_hash: self.object_hash,
            },
        )
    }
}

/// Taking in entries one by one teaches what all of them teach.
pub proof fn lemma_entries_add_up(entries: Seq<InputEntry>, entry: InputEntry, hash: HashKind)
    requires
        entries.len() < usize::MAX,
    ensures
        Indexing::of(entries, hash).after(entry) == Indexing::of(
            entries.push(entry),
            hash,
        ),
{
    assert(entries.push(entry).last() == entry);
}

/// After any entries, what is known is how many there were, the trailer of the last one, and the first
/// byte behind the last one. Before the first one a pack ends with its header of twelve bytes.
pub proof fn lemma_last_entry_counts(entries: Seq<InputEntry>, hash: HashKind)
    requires
        entries.len() <= usize::MAX,
        entries.len() > 0 ==> entries.last().pack_offset + entries.last().header_size
            + entries.last().compressed_size <= u64::MAX,
    ensures
        Indexing::of(entries, hash).num_objects == entries.len(),
        Indexing::of(entries, hash).object_hash == hash,
        if entries.len() == 0 {
            &&& Indexing::of(entries, hash).last_seen_trailer is None
            &&& Indexing::of(entries, hash).pack_entries_end == 12
        } else {
            &&& Indexing::of(entries, hash).last_seen_trailer == entries.last().trailer
            &&& Indexing::of(entries, hash).pack_entries_end == entries.last().pack_offset
                + entries.last().header_size + entries.last().compressed_size
        },
{
}

/// What has been learned from all the entries of a pack.
#[derive(Clone, Copy, Debug)]
pub struct Indexed {
    pub num_objects: u32,
    pub trailer: Option<ObjectId>,
    pub entries_end: u64,
    pub object_hash: HashKind,
}

/// All objects of the pack, in the order in which the traversal hands them out.
pub open spec fn all_items(outcome: traverse::Outcome<TreeEntry>) -> Seq<Item<TreeEntry>> {
    outcome.roots@ + outcome.children@
}

/// `items` are `all`, ordered by id, and no id occurs twice.
pub open spec fn is_index_of(items: Seq<Item<TreeEntry>>, all: Seq<Item<TreeEntry>>) -> bool {
    &&& strictly_sorted(items)
    &&& items.to_multiset() == all.to_multiset()
}

/// Two items have the id `id`.
pub open spec fn occurs_twice(all: Seq<Item<TreeEntry>>, id: ObjectId) -> bool {
    exists|i: int, j: int|
        0 <= i < j < all.len() && (#[trigger] all[i]).data.id == id && (#[trigger] all[j]).data.id
            == id
}

/// Of the ids that occur twice, `id` is the first in order.
pub open spec fn first_duplicate(all: Seq<Item<TreeEntry>>, id: ObjectId) -> bool {
    &&& occurs_twice(all, id)
    &&& forall|other: ObjectId| #[trigger] occurs_twice(all, other) ==> id.key() <= other.key()
}

/// Orders the objects of a pack by id. Fails where an object occurs twice.
pub fn sort_items(outcome: traverse::Outcome<TreeEntry>) -> (result: Result<
    Vec<Item<TreeEntry>>,
    Error,
>)
    ensures
        match result {
            Ok(items) => is_index_of(items@, all_items(outcome)),
            Err(Error::DuplicateObject { object_id }) => first_duplicate(
                all_items(outcome),
                object_id,
            ),
            Err(_) => false,
        },
{
    let ghost all = all_items(outcome);
    let traverse::Outcome { roots, mut children } = outcome;
    let mut unordered = roots;
    unordered.append(&mut children);
    let items = sort_by_key(&unordered);
    let mut ids: Vec<ObjectId> = Vec::new();
    for i in 0..items.len()
        invariant
            ids@.len() == i,
            forall|j: int| 0 <= j < i ==> #[trigger] ids@[j] == items@[j].data.id,
    {
        ids.push(items[i].data.id);
    }
    let unique = ensure_unique(ids.as_slice());
    proof {
        assert(unordered@ =~= all);
        assert(sorted(ids@)) by {
            assert forall|i: int, j: int| 0 <= i <= j < ids@.len() implies (
            #[trigger] ids@[i]).key() <= (#[trigger] ids@[j]).key() by {
                assert(items@[i].key() <= items@[j].key());
            }
        }
        lemma_ordered_ids_are_unique(ids@);
        if unique is Ok {
            assert forall|i: int, j: int| 0 <= i < j < items@.len() implies (
            #[trigger] items@[i]).key() < (#[trigger] items@[j]).key() by {
                assert(ids@[i].key() < ids@[j].key());
            }
        }
    }
    match unique {
        Ok(()) => Ok(items),
        Err(error) => {
            proof {
                let index = choose|index: int|
                    #[trigger] first_repeat(ids@, index) && error == Error::DuplicateObject {
                        object_id: ids@[index],
                    };
                lemma_first_repeat_is_first_duplicate(items@, all, ids@, index);
            }
            Err(error)
        },
    }
}

/// How often an id occurs does not depend on the order of the items.
proof fn lemma_twice_in_any_order(a: Seq<Item<TreeEntry>>, b: Seq<Item<TreeEntry>>, id: ObjectId)
    requires
        a.to_multiset() == b.to_multiset(),
        occurs_twice(a, id),
    ensures
        occurs_twice(b, id),
{
    let (i, j) = choose|i: int, j: int|
        0 <= i < j < a.len() && (#[trigger] a[i]).data.id == id && (#[trigger] a[j]).data.id == id;
    a.to_multiset_ensures();
    b.to_multiset_ensures();
    if a[i] != a[j] {
        assert(a.contains(a[i]));
        assert(a.contains(a[j]));
        lemma_same_contents(a, b, a[i]);
        lemma_same_contents(a, b, a[j]);
        let k = choose|k: int| 0 <= k < b.len() && b[k] == a[i];
        let l = choose|l: int| 0 <= l < b.len() && b[l] == a[j];
        if k < l {
            assert(b[k].data.id == id && b[l].data.id == id);
        } else {
            assert(b[l].data.id == id && b[k].data.id == id);
        }
    } else {
        lemma_two_places(a, i, j);
        lemma_count_needs_places(b, a[i]);
    }
}

/// What stands in two places is counted twice.
proof fn lemma_two_places<T>(records: Seq<T>, i: int, j: int)
    requires
        0 <= i < j < records.len(),
        records[i] == records[j],
    ensures
        records.to_multiset().count(records[i]) >= 2,
{
    let front = records.take(j);
    let back = records.skip(j);
    assert(records =~= front + back);
    vstd::seq_lib::lemma_multiset_commutative(front, back);
    front.to_multiset_ensures();
    back.to_multiset_ensures();
    assert(front[i] == records[i]);
    assert(back[0] == records[i]);
    assert(front.to_multiset().count(records[i]) > 0);
    assert(back.to_multiset().count(records[i]) > 0);
}

/// What is counted twice stands in two places.
proof fn lemma_count_needs_places<T>(records: Seq<T>, record: T)
    requires
        records.to_multiset().count(record) >= 2,
    ensures
        exists|k: int, l: int|
            0 <= k < l < records.len() && #[trigger] records[k] == record && #[trigger] records[l]
                == record,
{
    records.to_multiset_ensures();
    assert(records.contains(record));
    let k = choose|k: int| 0 <= k < records.len() && records[k] == record;
    let rest = records.remove(k);
    rest.to_multiset_ensures();
    assert(rest.to_multiset().count(record) >= 1);
    assert(rest.contains(record));
    let m = choose|m: int| 0 <= m < rest.len() && rest[m] == record;
    if m < k {
        assert(records[m] == record);
    } else {
        assert(records[m + 1] == record);
    }
}

/// In ordered items, an id that equals a later one equals the next one.
proof fn lemma_duplicates_are_adjacent(items: Seq<Item<TreeEntry>>, i: int, j: int)
    requires
        sorted(items),
        0 <= i < j < items.len(),
        items[i].data.id == items[j].data.id,
    ensures
        items[i + 1].data.id == items[i].data.id,
{
    assert(items[i].key() <= items[i + 1].key() <= items[j].key());
    lemma_key_is_unique(items[i].data.id, items[i + 1].data.id);
}

/// In ordered items, the first id that equals the one before it is the first duplicate.
proof fn lemma_first_repeat_is_first_duplicate(
    items: Seq<Item<TreeEntry>>,
    all: Seq<Item<TreeEntry>>,
    ids: Seq<ObjectId>,
    index: int,
)
    requires
        sorted(items),
        items.to_multiset() == all.to_multiset(),
        ids.len() == items.len(),
        forall|i: int| 0 <= i < ids.len() ==> #[trigger] ids[i] == items[i].data.id,
        first_repeat(ids, index),
    ensures
        first_duplicate(all, ids[index]),
{
    let id = ids[index];
    assert(items[index - 1].data.id == ids[index - 1]);
    assert(items[index].data.id == id);
    assert(occurs_twice(items, id));
    lemma_twice_in_any_order(items, all, id);
    assert forall|other: ObjectId| #[trigger] occurs_twice(all, other) implies id.key()
        <= other.key() by {
        lemma_twice_in_any_order(all, items, other);
        let (i, j) = choose|i: int, j: int|
            0 <= i < j < items.len() && (#[trigger] items[i]).data.id == other && (
            #[trigger] items[j]).data.id == other;
        lemma_duplicates_are_adjacent(items, i, j);
        assert(ids[i] == items[i].data.id);
        assert(ids[i + 1] == items[i + 1].data.id);
        assert(index <= i + 1);
        assert(items[index].key() <= items[i + 1].key());
    }
}

/// An index lists every object of the pack and nothing else, as often as the pack holds it, and in the
/// order of the bytes of the ids.
pub proof fn lemma_index_is_in_the_order_of_bytes(
    items: Seq<Item<TreeEntry>>,
    all: Seq<Item<TreeEntry>>,
)
    requires
        is_index_of(items, all),
    ensures
        items.len() == all.len(),
        forall|item: Item<TreeEntry>| items.contains(item) <==> all.contains(item),
        forall|i: int, j: int|
            0 <= i < j < items.len() && (#[trigger] items[i]).data.id.kind() == (
            #[trigger] items[j]).data.id.kind() ==> bytes_precede(
                items[i].data.id@,
                items[j].data.id@,
            ),
{
    items.to_multiset_ensures();
    all.to_multiset_ensures();
    assert forall|item: Item<TreeEntry>| items.contains(item) <==> all.contains(item) by {
        lemma_same_contents(items, all, item);
    }
    assert forall|i: int, j: int|
        0 <= i < j < items.len() && (#[trigger] items[i]).data.id.kind() == (
        #[trigger] items[j]).data.id.kind() implies bytes_precede(
        items[i].data.id@,
        items[j].data.id@,
    ) by {
        assert(items[i].key() < items[j].key());
        lemma_order_is_lexicographic(items[i].data.id, items[j].data.id);
        lemma_lexicographic_is_first_difference(items[i].data.id@, items[j].data.id@);
    }
}

/// What is indexed of a pack are all objects that its traversal hands out, roots and children alike, each
/// as often as it occurs among them.
pub proof fn lemma_roots_and_children_are_indexed(
    items: Seq<Item<TreeEntry>>,
    outcome: traverse::Outcome<TreeEntry>,
    item: Item<TreeEntry>,
)
    requires
        is_index_of(items, all_items(outcome)),
    ensures
        items.to_multiset().count(item) == outcome.roots@.to_multiset().count(item)
            + outcome.children@.to_multiset().count(item),
        items.len() == outcome.roots@.len() + outcome.children@.len(),
        items.contains(item) <==> outcome.roots@.contains(item) || outcome.children@.contains(item),
{
    let all = all_items(outcome);
    vstd::seq_lib::lemma_multiset_commutative(outcome.roots@, outcome.children@);
    assert(all =~= outcome.roots@ + outcome.children@);
    items.to_multiset_ensures();
    all.to_multiset_ensures();
    outcome.roots@.to_multiset_ensures();
    outcome.children@.to_multiset_ensures();
    assert(items.contains(item) <==> items.to_multiset().count(item) > 0);
    assert(outcome.roots@.contains(item) <==> outcome.roots@.to_multiset().count(item) > 0);
    assert(outcome.children@.contains(item) <==> outcome.children@.to_multiset().count(item) > 0);
}

/// `a` and `b` agree up to some place, where `a` has the smaller byte.
pub open spec fn bytes_precede(a: Seq<u8>, b: Seq<u8>) -> bool {
    exists|place: int|
        {
            &&& 0 <= place < a.len()
            &&& place < b.len()
            &&& #[trigger] a[place] < b[place]
            &&& forall|before: int| 0 <= before < place ==> #[trigger] a[before] == b[before]
        }
}

proof fn lemma_lexicographic_is_first_difference(a: Seq<u8>, b: Seq<u8>)
    requires
        crate::hash::lexicographic(a, b),
    ensures
        bytes_precede(a, b),
{
    let place = choose|place: int|
        #![trigger a.take(place)]
        0 <= place < a.len() && place < b.len() && a.take(place) == b.take(place) && a[place]
            < b[place];
    assert forall|before: int| 0 <= before < place implies #[trigger] a[before] == b[before] by {
        assert(a.take(place)[before] == a[before]);
        assert(b.take(place)[before] == b[before]);
    }
    assert(a[place] < b[place]);
}

/// A duplicate that is reported is the id of two objects, and no other id of two objects has bytes that
/// come before its own.
pub proof fn lemma_first_duplicate_is_reported(
    all: Seq<Item<TreeEntry>>,
    id: ObjectId,
    i: int,
    j: int,
)
    requires
        first_duplicate(all, id),
        0 <= i < j < all.len(),
        all[i].data.id == all[j].data.id,
        all[i].data.id.kind() == id.kind(),
    ensures
        exists|a: int, b: int|
            0 <= a < b < all.len() && (#[trigger] all[a]).data.id == id && (
            #[trigger] all[b]).data.id == id,
        all[i].data.id == id || bytes_precede(id@, all[i].data.id@),
{
    let other = all[i].data.id;
    assert(occurs_twice(all, other));
    if other != id {
        if id.key() == other.key() {
            lemma_key_is_unique(id, other);
        }
        lemma_order_is_lexicographic(id, other);
        lemma_lexicographic_is_first_difference(id@, other@);
    }
}

/// `received` are the objects of `items` with their headers, as `header_of` finds them between the
/// offsets of an item.
pub open spec fn is_received<H: Fn(u64, u64) -> Result<Header, traverse::Error>>(
    received: Seq<Received>,
    items: Seq<Item<TreeEntry>>,
    header_of: H,
) -> bool {
    &&& received.len() == items.len()
    &&& forall|i: int|
        0 <= i < items.len() ==> {
            let object = #[trigger] received[i];
            &&& object.id == items[i].data.id
            &&& object.offset == items[i].offset
            &&& header_of.ensures((items[i].offset, items[i].next_offset), Ok(object.header))
        }
}

/// What is read of the objects of a pack is one record for each, in their order: its id, where it begins,
/// and the header that is found between where it begins and where the next one does.
pub proof fn lemma_headers_belong_to_their_objects<
    H: Fn(u64, u64) -> Result<Header, traverse::Error>,
>(received: Seq<Received>, items: Seq<Item<TreeEntry>>, header_of: H)
    requires
        is_received(received, items, header_of),
    ensures
        received.len() == items.len(),
        forall|i: int|
            0 <= i < items.len() ==> {
                &&& (#[trigger] received[i]).id == items[i].data.id
                &&& received[i].offset == items[i].offset
                &&& header_of.ensures(
                    (items[i].offset, items[i].next_offset),
                    Ok(received[i].header),
                )
            },
{
}

/// Reads the header of every item into `received`.
pub fn read_headers<H: Fn(u64, u64) -> Result<Header, traverse::Error>>(
    items: &Vec<Item<TreeEntry>>,
    header_of: &H,
    received: Vec<Received>,
) -> (result: Result<Vec<Received>, traverse::Error>)
    requires
        received@.len() == 0,
        forall|offset: u64, next_offset: u64| header_of.requires((offset, next_offset)),
    ensures
        match result {
            Ok(received) => is_received(received@, items@, *header_of),
            Err(error) => exists|i: int, before: Seq<Received>|
                {
                    &&& 0 <= i < items@.len()
                    &&& #[trigger] is_received(before, items@.take(i), *header_of)
                    &&& header_of.ensures((items@[i].offset, items@[i].next_offset), Err(error))
                },
        },
{
    let mut received = received;
    for i in 0..items.len()
        invariant
            forall|offset: u64, next_offset: u64| header_of.requires((offset, next_offset)),
            is_received(received@, items@.take(i as int), *header_of),
    {
        let item = items[i];
        match header_of(item.offset, item.next_offset) {
            Ok(header) => {
                let ghost before = received@;
                received.push(Received { id: item.data.id, offset: item.offset, header });
                proof {
                    assert forall|k: int| 0 <= k < items@.take(i + 1).len() implies {
                        let object = #[trigger] received@[k];
                        &&& object.id == items@.take(i + 1)[k].data.id
                        &&& object.offset == items@.take(i + 1)[k].offset
                        &&& header_of.ensures(
                            (items@.take(i + 1)[k].offset, items@.take(i + 1)[k].next_offset),
                            Ok(object.header),
                        )
                    } by {
                        if k < i {
                            assert(received@[k] == before[k]);
                            assert(items@.take(i + 1)[k] == items@.take(i as int)[k]);
                        }
                    }
                }
            },
            Err(error) => {
                assert(is_received(received@, items@.take(i as int), *header_of));
                return Err(error);
            },
        }
    }
    assert(items@.take(items@.len() as int) =~= items@);
    Ok(received)
}

/// The hash by which a pack is known: its trailer, or the hash of its header if it has no entries.
/// There is none for a pack with entries and without trailer.
pub open spec fn is_pack_hash(
    pack_hash: Option<ObjectId>,
    indexed: Indexed,
    version: data::Version,
) -> bool {
    match indexed.trailer {
        Some(trailer) => pack_hash == Some(trailer),
        None => if indexed.num_objects == 0 {
            &&& pack_hash matches Some(id)
            &&& id.kind() == indexed.object_hash
            &&& digest(indexed.object_hash, data::header(version, 0)) == Some(id@)
        } else {
            pack_hash is None
        },
    }
}

/// Computes the hash by which a pack is known.
pub fn pack_hash(indexed: &Indexed, version: data::Version) -> (result: Result<
    Option<ObjectId>,
    Error,
>)
    ensures
        match result {
            Ok(pack_hash) => is_pack_hash(pack_hash, *indexed, version),
            Err(error) => {
                &&& error == Error::Hasher
                &&& indexed.trailer is None
                &&& indexed.num_objects == 0
                &&& digest(indexed.object_hash, data::header(version, 0)) is None
            },
        },
{
    match indexed.trailer {
        Some(trailer) => Ok(Some(trailer)),
        None => if indexed.num_objects == 0 {
            let header = encode_header(version, 0);
            match hash_bytes(indexed.object_hash, header.as_slice()) {
                Ok(id) => Ok(Some(id)),
                Err(_) => Err(Error::Hasher),
            }
        } else {
            Ok(None)
        },
    }
}

/// A pack is known by the trailer of its last entry, whatever else holds. Without one it is known by
/// nothing if it has entries, and otherwise by the hash of the twelve bytes that are the header of a pack
/// of no objects.
pub proof fn lemma_what_a_pack_is_known_by(
    pack_hash: Option<ObjectId>,
    indexed: Indexed,
    version: data::Version,
)
    requires
        is_pack_hash(pack_hash, indexed, version),
    ensures
        indexed.trailer is Some ==> pack_hash == indexed.trailer,
        indexed.trailer is None && indexed.num_objects > 0 ==> pack_hash is None,
        indexed.trailer is None && indexed.num_objects == 0 ==> {
            let number = match version {
                data::Version::V2 => 2u8,
                data::Version::V3 => 3u8,
            };
            &&& pack_hash matches Some(id)
            &&& id.kind() == indexed.object_hash
            &&& digest(
                indexed.object_hash,
                seq![80u8, 65u8, 67u8, 75u8, 0u8, 0u8, 0u8, number, 0u8, 0u8, 0u8, 0u8],
            ) == Some(id@)
        },
{
    let number = match version {
        data::Version::V2 => 2u8,
        data::Version::V3 => 3u8,
    };
    assert(data::header(version, 0) =~= seq![
        80u8,
        65u8,
        67u8,
        75u8,
        0u8,
        0u8,
        0u8,
        number,
        0u8,
        0u8,
        0u8,
        0u8,
    ]);
}

/// Two packs without entries and without trailer, of the same version and kind of hash, are known by
/// the same hash.
pub proof fn lemma_empty_packs_are_alike(
    a: Option<ObjectId>,
    b: Option<ObjectId>,
    first: Indexed,
    second: Indexed,
    version: data::Version,
)
    requires
        is_pack_hash(a, first, version),
        is_pack_hash(b, second, version),
        first.trailer is None && first.num_objects == 0,
        second.trailer is None && second.num_objects == 0,
        first.object_hash == second.object_hash,
    ensures
        a == b,
{
    lemma_id_is_its_bytes(a->0, b->0);
}

/// A pack that is ready to be completed and indexed.
#[derive(Debug)]
pub struct Prepared {
    /// The objects of the pack, ordered by id, none twice.
    pub items: Vec<Item<TreeEntry>>,
    /// The bases that the pack refers to and does not hold, in order.
    pub missing_bases: Vec<ObjectId>,
    /// The hash by which the pack is known.
    pub pack_hash: Option<ObjectId>,
    /// The number of objects in the pack.
    pub num_objects: u32,
    /// Where the last entry ends.
    pub entries_end: u64,
}

/// Finds the bases that the pack lacks: those `candidates` that are not among `items`.
pub fn missing_of<
    H: Fn(u64, u64) -> Result<Header, traverse::Error>,
    I: Fn() -> bool,
>(
    items: &Vec<Item<TreeEntry>>,
    candidates: Vec<ObjectId>,
    header_of: &H,
    interrupted: I,
    received: Vec<Received>,
    room: Room,
) -> (result: Result<Vec<ObjectId>, Error>)
    requires
        strictly_sorted(items@),
        received@.len() == 0,
        room.is_unused(),
        forall|offset: u64, next_offset: u64| header_of.requires((offset, next_offset)),
        interrupted.requires(()),
    ensures
        missing_found(result, items@, candidates@, *header_of, interrupted),
{
    let received = match read_headers(items, header_of, received) {
        Ok(received) => received,
        Err(error) => {
            return Err(Error::TreeTraversal(error));
        },
    };
    proof {
        assert forall|i: int, j: int| 0 <= i < j < received@.len() implies (
        #[trigger] received@[i]).key() < (#[trigger] received@[j]).key() by {
            assert(items@[i].key() < items@[j].key());
        }
    }
    let result = missing_bases_in(received.as_slice(), candidates, interrupted, room);
    proof {
        assert forall|i: int| 0 <= i < items@.len() && candidates@.contains(
            (#[trigger] items@[i]).data.id,
        ) implies candidates@.contains(received@[i].id) by {}
    }
    result
}

/// What the search for the bases that a pack lacks comes to, where memory is no matter. Before it
/// follows any chain, it has been told that there is no interruption.
pub open spec fn missing_found<
    H: Fn(u64, u64) -> Result<Header, traverse::Error>,
    I: Fn() -> bool,
>(
    result: Result<Vec<ObjectId>, Error>,
    items: Seq<Item<TreeEntry>>,
    candidates: Seq<ObjectId>,
    header_of: H,
    interrupted: I,
) -> bool {
    &&& (result is Ok || result->Err_0 is UnrootedDeltaChain) && (exists|i: int|
        0 <= i < items.len() && candidates.contains((#[trigger] items[i]).data.id))
        ==> interrupted.ensures((), false)
    &&& match result {
        Ok(missing) => exists|received: Seq<Received>|
            #[trigger] is_received(received, items, header_of) && completes(
                missing@,
                received,
                candidates,
            ),
        Err(Error::UnrootedDeltaChain { object_id }) => exists|received: Seq<Received>|
            #[trigger] is_received(received, items, header_of) && is_unrooted_chain(
                received,
                candidates,
                object_id,
            ),
        Err(Error::TreeTraversal(error)) => {
            ||| error is Interrupted && interrupted.ensures((), true) && exists|i: int|
                0 <= i < items.len() && candidates.contains((#[trigger] items[i]).data.id)
            ||| exists|i: int, before: Seq<Received>|
                {
                    &&& 0 <= i < items.len()
                    &&& #[trigger] is_received(before, items.take(i), header_of)
                    &&& header_of.ensures((items[i].offset, items[i].next_offset), Err(error))
                }
        },
        Err(_) => false,
    }
}

/// When the bases that a pack lacks are found, they are the candidates that are not among its objects, in
/// the order of their ids, and every object that is a candidate ends in a root, with the headers that the
/// objects have.
pub proof fn lemma_what_a_pack_lacks<
    H: Fn(u64, u64) -> Result<Header, traverse::Error>,
    I: Fn() -> bool,
>(
    missing: Vec<ObjectId>,
    items: Seq<Item<TreeEntry>>,
    candidates: Seq<ObjectId>,
    header_of: H,
    interrupted: I,
)
    requires
        missing_found(Ok(missing), items, candidates, header_of, interrupted),
    ensures
        forall|id: ObjectId|
            missing@.contains(id) <==> candidates.contains(id) && !(exists|i: int|
                0 <= i < items.len() && (#[trigger] items[i]).data.id == id),
        exists|received: Seq<Received>|
            {
                &&& #[trigger] is_received(received, items, header_of)
                &&& forall|i: int|
                    0 <= i < items.len() && candidates.contains((#[trigger] items[i]).data.id)
                        ==> rooted(received, missing@, i)
            },
{
    let received = choose|received: Seq<Received>|
        #[trigger] is_received(received, items, header_of) && completes(
            missing@,
            received,
            candidates,
        );
    assert forall|id: ObjectId|
        missing@.contains(id) <==> candidates.contains(id) && !(exists|i: int|
            0 <= i < items.len() && (#[trigger] items[i]).data.id == id) by {
        lemma_missing_are_the_absent_candidates(missing@, received, candidates, id);
        if has_id(received, id) {
            let i = choose|i: int| at_id(received, id, i);
            assert(received[i].id == id);
            assert(items[i].data.id == id);
        }
        if exists|i: int| 0 <= i < items.len() && (#[trigger] items[i]).data.id == id {
            let i = choose|i: int| 0 <= i < items.len() && (#[trigger] items[i]).data.id == id;
            assert(received[i].id == id);
            assert(at_id(received, id, i));
        }
    }
    assert forall|i: int|
        0 <= i < items.len() && candidates.contains((#[trigger] items[i]).data.id) implies rooted(
        received,
        missing@,
        i,
    ) by {
        assert(received[i].id == items[i].data.id);
    }
}

/// Prepares the index of a pack once its entries have come in and its delta tree is traversed:
/// orders the objects by id, finds the bases that are missing among the `candidates` that were looked
/// up during the traversal, and determines the hash of the pack. Without candidates nothing is
/// missing. Whether memory for the search can be had depends on the machine.
pub fn prepare<H: Fn(u64, u64) -> Result<Header, traverse::Error>, I: Fn() -> bool>(
    indexed: Indexed,
    outcome: traverse::Outcome<TreeEntry>,
    candidates: Vec<ObjectId>,
    header_of: H,
    interrupted: I,
    version: data::Version,
) -> (result: Result<Prepared, Error>)
    requires
        candidates@.len() > 0 ==> interrupted.requires(()) && forall|
            offset: u64,
            next_offset: u64,
        | #[trigger] header_of.requires((offset, next_offset)),
    ensures
        match result {
            Ok(prepared) => {
                &&& is_index_of(prepared.items@, all_items(outcome))
                &&& if candidates@.len() == 0 {
                    prepared.missing_bases@.len() == 0
                } else {
                    missing_found(
                        Ok(prepared.missing_bases),
                        prepared.items@,
                        candidates@,
                        header_of,
                        interrupted,
                    )
                }
                &&& is_pack_hash(prepared.pack_hash, indexed, version)
                &&& prepared.num_objects == indexed.num_objects
                &&& prepared.entries_end == indexed.entries_end
            },
            Err(Error::DuplicateObject { object_id }) => first_duplicate(
                all_items(outcome),
                object_id,
            ),
            Err(Error::Hasher) => {
                &&& indexed.trailer is None
                &&& indexed.num_objects == 0
                &&& digest(indexed.object_hash, data::header(version, 0)) is None
            },
            Err(Error::OutOfMemory) => {
                &&& candidates@.len() > 0
                &&& exists|items: Seq<Item<TreeEntry>>|
                    #[trigger] is_index_of(items, all_items(outcome))
            },
            Err(error) => {
                &&& candidates@.len() > 0
                &&& exists|items: Seq<Item<TreeEntry>>|
                    {
                        &&& #[trigger] is_index_of(items, all_items(outcome))
                        &&& missing_found(Err(error), items, candidates@, header_of, interrupted)
                    }
            },
        },
{
    let items = match sort_items(outcome) {
        Ok(items) => items,
        Err(error) => {
            return Err(error);
        },
    };
    assert(is_index_of(items@, all_items(outcome)));
    let mut missing_bases: Vec<ObjectId> = Vec::new();
    if candidates.len() > 0 {
        let mut received: Vec<Received> = Vec::new();
        if reserve_exact(&mut received, items.len()).is_err() {
            return Err(Error::OutOfMemory);
        }
        let room = match Room::reserve(items.len(), candidates.len()) {
            Ok(room) => room,
            Err(error) => {
                return Err(error);
            },
        };
        match missing_of(&items, candidates, &header_of, interrupted, received, room) {
            Ok(missing) => {
                missing_bases = missing;
            },
            Err(error) => {
                return Err(error);
            },
        }
    }
    match pack_hash(&indexed, version) {
        Ok(pack_hash) => Ok(
            Prepared {
                items,
                missing_bases,
                pack_hash,
                num_objects: indexed.num_objects,
                entries_end: indexed.entries_end,
            },
        ),
        Err(error) => Err(error),
    }
}

/// The bases that a prepared pack lacks come in order, none twice, and none of them is among its
/// objects: not if the candidates came in order and none twice.
pub proof fn lemma_missing_bases_are_new<H: Fn(u64, u64) -> Result<Header, traverse::Error>>(
    items: Seq<Item<TreeEntry>>,
    received: Seq<Received>,
    header_of: H,
    missing: Seq<ObjectId>,
    candidates: Seq<ObjectId>,
)
    requires
        is_received(received, items, header_of),
        completes(missing, received, candidates),
        strictly_sorted(candidates),
    ensures
        strictly_sorted(missing),
        forall|i: int|
            0 <= i < items.len() ==> !missing.contains((#[trigger] items[i]).data.id),
{
    candidates.to_multiset_ensures();
    missing.to_multiset_ensures();
    assert(candidates.no_duplicates()) by {
        assert forall|i: int, j: int|
            0 <= i < candidates.len() && 0 <= j < candidates.len() && i != j implies candidates[i]
            != candidates[j] by {
            if i < j {
                assert(candidates[i].key() < candidates[j].key());
            } else {
                assert(candidates[j].key() < candidates[i].key());
            }
        }
    }
    candidates.lemma_multiset_has_no_duplicates();
    assert forall|i: int, j: int| 0 <= i < j < missing.len() implies (#[trigger] missing[i]).key()
        < (#[trigger] missing[j]).key() by {
        assert(missing[i].key() <= missing[j].key());
        if missing[i].key() == missing[j].key() {
            let id = missing[i];
            lemma_key_is_unique(missing[i], missing[j]);
            lemma_two_places(missing, i, j);
            assert(candidates.to_multiset().count(id) >= 2);
            assert(candidates.to_multiset().contains(id));
        }
    }
    assert forall|i: int| 0 <= i < items.len() implies !missing.contains(
        (#[trigger] items[i]).data.id,
    ) by {
        let id = items[i].data.id;
        assert(received[i].id == id);
        assert(at_id(received, id, i));
        assert(has_id(received, id));
        lemma_missing_are_the_absent_candidates(missing, received, candidates, id);
    }
}

/// Only the default version of an index can be written.
pub fn check_version(version: Version) -> (result: Result<(), Error>)
    ensures
        result == if version == Version::V2 {
            Ok::<(), Error>(())
        } else {
            Err::<(), Error>(Error::Unsupported(version))
        },
{
    if version != Version::default() {
        return Err(Error::Unsupported(version));
    }
    Ok(())
}

/// What an index lists.
#[derive(Debug)]
pub struct Contents {
    /// The objects of the pack, ordered by id.
    pub items: Vec<Item<TreeEntry>>,
    /// The hash of the pack.
    pub pack_hash: ObjectId,
    /// The number of objects in the pack.
    pub num_objects: u32,
}

impl Prepared {
    /// Whether bases have to be appended to the pack.
    pub fn lacks_bases(&self) -> (lacks: bool)
        ensures
            lacks == (self.missing_bases@.len() > 0),
    {
        self.missing_bases.len() > 0
    }

    /// Hands out what the index lists. Fails if the entries came without a trailing hash.
    pub fn into_contents(self) -> (result: Result<Contents, Error>)
        ensures
            match result {
                Ok(contents) => {
                    &&& contents.items == self.items
                    &&& self.pack_hash == Some(contents.pack_hash)
                    &&& contents.num_objects == self.num_objects
                },
                Err(error) => error == Error::IteratorInvariantTrailer && self.pack_hash is None,
            },
    {
        match self.pack_hash {
            Some(pack_hash) => Ok(
                Contents { items: self.items, pack_hash, num_objects: self.num_objects },
            ),
            None => Err(Error::IteratorInvariantTrailer),
        }
    }
}

/// Sums up an index of these contents whose checksum is `index_hash`.
pub fn write_outcome(
    pack_hash: ObjectId,
    num_objects: u32,
    version: Version,
    index_hash: ObjectId,
) -> (outcome: Outcome)
    ensures
        outcome.index_version == version,
        outcome.index_hash == index_hash,
        outcome.data_hash == pack_hash,
        outcome.num_objects == num_objects,
{
    Outcome { index_version: version, index_hash, data_hash: pack_hash, num_objects }
}

} // verus!
