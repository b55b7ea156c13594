use std::collections::BTreeSet;

use gix_motor::data::{Entry, Header, InputEntry, Version as PackVersion};
use gix_motor::hash::{compute_hash, CollisionAttack, HashKind, ObjectId, ObjectKind};
use gix_motor::index::{
    check_version, inspect_object, missing_of, modify_base, pack_hash, prepare, read_headers, set_id, sort_items,
    tree_capacity, write_outcome, Error, Indexed, Indexing, Parent, Prepared, ProgressId,
    TreeEntry, Version,
};
use gix_motor::thin::Room;
use gix_motor::traverse::{self, Context, Item, Outcome};

const HASH: HashKind = HashKind::Sha1;

fn numbered(number: u8) -> ObjectId {
    ObjectId::Sha1([number; 20])
}

fn entry(header: Header, pack_offset: u64, trailer: Option<ObjectId>) -> InputEntry {
    InputEntry {
        header,
        header_size: 2,
        pack_offset,
        compressed: None,
        compressed_size: 10,
        crc32: Some(77),
        decompressed_size: 100,
        trailer,
    }
}

fn item(number: u8, offset: u64) -> Item<TreeEntry> {
    Item { offset, next_offset: offset + 12, data: TreeEntry { id: numbered(number), crc32: number.into() } }
}

fn indexed(num_objects: u32, trailer: Option<ObjectId>) -> Indexed {
    Indexed { num_objects, trailer, entries_end: 99, object_hash: HASH }
}

fn numbers(items: &[Item<TreeEntry>]) -> Vec<ObjectId> {
    items.iter().map(|item| item.data.id).collect()
}

#[test]
fn entries_become_nodes_of_the_delta_tree() {
    let mut indexing = Indexing::new(HASH);
    assert_eq!(indexing.pack_entries_end, 12);
    let root = indexing.push(&entry(Header::Blob, 12, None)).expect("whole");
    assert!(matches!(root.parent, Parent::Root));
    assert_eq!((root.offset, root.data.crc32, root.data.id), (12, 77, HASH.null()));
    let child = indexing
        .push(&entry(Header::OfsDelta { base_distance: 12 }, 24, Some(numbered(1))))
        .expect("in the pack");
    assert!(matches!(child.parent, Parent::ByOffset(12)));
    let child = indexing
        .push(&entry(Header::RefDelta { base_id: numbered(9) }, 36, Some(numbered(2))))
        .expect("anywhere");
    assert!(matches!(child.parent, Parent::ById(id) if id == numbered(9)));
    let indexed = indexing.finish().expect("not too many");
    assert_eq!(indexed.num_objects, 3);
    assert_eq!(indexed.trailer, Some(numbered(2)));
    assert_eq!(indexed.entries_end, 48);
}

#[test]
fn only_the_last_entry_gives_the_trailer() {
    let mut indexing = Indexing::new(HASH);
    indexing.push(&entry(Header::Tree, 12, Some(numbered(3)))).expect("whole");
    indexing.push(&entry(Header::Commit, 24, None)).expect("whole");
    indexing.push(&entry(Header::Tag, 36, None)).expect("whole");
    assert_eq!(indexing.finish().expect("not too many").trailer, None);
}

#[test]
fn a_base_out_of_the_pack_is_rejected() {
    let mut indexing = Indexing::new(HASH);
    for distance in [0, 25] {
        assert!(matches!(
            indexing.push(&entry(Header::OfsDelta { base_distance: distance }, 24, None)),
            Err(Error::IteratorInvariantBaseOffset { pack_offset: 24, distance: found })
                if found == distance
        ));
    }
    assert_eq!(indexing.num_objects, 0);
}

#[test]
fn more_objects_than_can_be_counted_are_rejected() {
    let mut indexing = Indexing::new(HASH);
    indexing.num_objects = u32::MAX as usize;
    assert_eq!(indexing.finish().expect("just countable").num_objects, u32::MAX);
    indexing.num_objects += 1;
    assert!(matches!(
        indexing.finish(),
        Err(Error::IteratorInvariantTooManyObjects(n)) if n == u32::MAX as usize + 1
    ));
}

#[test]
fn the_tree_has_room_for_the_upper_bound() {
    assert_eq!(tree_capacity(3, Some(8)), 8);
    assert_eq!(tree_capacity(3, None), 3);
}

#[test]
fn whole_objects_get_the_id_of_their_content() {
    let mut node = TreeEntry { id: HASH.null(), crc32: 5 };
    let pack_entry = Entry { header: Header::Blob, decompressed_size: 3, data_offset: 14 };
    modify_base(&mut node, &pack_entry, b"abc", HASH).expect("no collision");
    assert_eq!(node.id, compute_hash(HASH, ObjectKind::Blob, b"abc").expect("no collision"));
    assert_eq!(node.crc32, 5);
    let context = Context { entry: &pack_entry, entry_end: 20, decompressed: b"abd", level: 3 };
    inspect_object(&mut node, &context, HASH).expect("no collision");
    assert_eq!(node.id, compute_hash(HASH, ObjectKind::Blob, b"abd").expect("no collision"));
    assert_eq!(set_id(&mut node, Err(CollisionAttack)), Err(CollisionAttack));
    set_id(&mut node, Ok(numbered(4))).expect("an id");
    assert_eq!(node.id, numbered(4));
}

#[test]
fn items_are_ordered_by_id() {
    let outcome = Outcome { roots: vec![item(5, 12), item(1, 24)], children: vec![item(3, 36)] };
    let items = sort_items(outcome).expect("no duplicates");
    assert_eq!(numbers(&items), [numbered(1), numbered(3), numbered(5)]);
    assert_eq!(items[2].offset, 12);
}

#[test]
fn the_first_duplicate_in_order_is_reported() {
    let outcome = Outcome {
        roots: vec![item(5, 12), item(5, 24), item(2, 30)],
        children: vec![item(3, 36), item(3, 48)],
    };
    assert!(matches!(
        sort_items(outcome),
        Err(Error::DuplicateObject { object_id }) if object_id == numbered(3)
    ));
}

#[test]
fn the_hash_of_a_pack_is_its_trailer_or_that_of_an_empty_pack() {
    let hash = |indexed: Indexed| pack_hash(&indexed, PackVersion::V2).expect("no collision");
    assert_eq!(hash(indexed(3, Some(numbered(8)))), Some(numbered(8)));
    assert_eq!(hash(indexed(0, Some(numbered(8)))), Some(numbered(8)));
    assert_eq!(hash(indexed(3, None)), None);
    assert_eq!(
        hash(indexed(0, None)).map(|id| id.to_hex()),
        Some("029d08823bd8a8eab510ad6ac75c823cfd3ed31e".into())
    );
}

#[test]
fn a_pack_without_candidates_misses_nothing() {
    let outcome = Outcome { roots: vec![item(2, 12)], children: vec![item(1, 24)] };
    let prepared = prepare(
        indexed(2, Some(numbered(8))),
        outcome,
        Vec::new(),
        |_, _| panic!("no header is needed"),
        || true,
        PackVersion::V2,
    )
    .expect("prepared");
    assert_eq!(numbers(&prepared.items), [numbered(1), numbered(2)]);
    assert!(prepared.missing_bases.is_empty());
    assert!(!prepared.lacks_bases());
    assert_eq!(prepared.pack_hash, Some(numbered(8)));
    assert_eq!((prepared.num_objects, prepared.entries_end), (2, 99));
}

#[test]
fn candidates_that_were_not_received_are_missing() {
    let outcome = || Outcome { roots: vec![item(4, 12)], children: vec![item(1, 24), item(2, 36)] };
    let headers = |offset: u64, next_offset: u64| {
        assert_eq!(next_offset, offset + 12);
        Ok(match offset {
            12 => Header::Blob,
            24 => Header::RefDelta { base_id: numbered(7) },
            _ => Header::OfsDelta { base_distance: 12 },
        })
    };
    let candidates = vec![numbered(7), numbered(4), numbered(2)];
    let prepared = prepare(
        indexed(3, None),
        outcome(),
        candidates.clone(),
        headers,
        || false,
        PackVersion::V2,
    )
    .expect("prepared");
    assert_eq!(prepared.missing_bases, [numbered(7)]);
    assert!(prepared.lacks_bases());
    assert_eq!(prepared.pack_hash, None);
    assert!(matches!(
        prepare(
            indexed(3, None),
            outcome(),
            candidates,
            headers,
            || true,
            PackVersion::V2
        ),
        Err(Error::TreeTraversal(traverse::Error::Interrupted))
    ));
    assert!(matches!(
        prepare(
            indexed(3, None),
            outcome(),
            vec![numbered(2)],
            headers,
            || false,
            PackVersion::V2
        ),
        Err(Error::UnrootedDeltaChain { object_id }) if object_id == numbered(1)
    ));
}

#[test]
fn a_duplicate_is_reported_before_any_header_is_read() {
    let outcome = Outcome { roots: vec![item(2, 12), item(2, 24)], children: Vec::new() };
    assert!(matches!(
        prepare(
            indexed(2, None),
            outcome,
            vec![numbered(7)],
            |_, _| panic!("no header is needed"),
            || true,
            PackVersion::V2
        ),
        Err(Error::DuplicateObject { object_id }) if object_id == numbered(2)
    ));
}

#[test]
fn an_entry_that_cannot_be_read_is_reported() {
    let items = vec![item(1, 12), item(2, 24)];
    let headers = |offset: u64, _: u64| {
        if offset == 24 {
            Err(traverse::Error::ResolveFailed { pack_offset: offset })
        } else {
            Ok(Header::Tag)
        }
    };
    assert!(matches!(
        read_headers(&items, &headers, Vec::new()),
        Err(traverse::Error::ResolveFailed { pack_offset: 24 })
    ));
    let room = Room::reserve(2, 1).expect("memory");
    assert!(matches!(
        missing_of(&items, vec![numbered(9)], &headers, || false, Vec::new(), room),
        Err(Error::TreeTraversal(traverse::Error::ResolveFailed { pack_offset: 24 }))
    ));
    let received = read_headers(&items, &|_, _| Ok(Header::Tree), Vec::new()).expect("read");
    assert_eq!(received.len(), 2);
    assert_eq!((received[1].id, received[1].offset), (numbered(2), 24));
    assert!(matches!(received[1].header, Header::Tree));
}

#[test]
fn only_the_default_version_is_written() {
    assert_eq!(Version::default(), Version::V2);
    assert!(check_version(Version::V2).is_ok());
    assert!(matches!(check_version(Version::V1), Err(Error::Unsupported(Version::V1))));
}

#[test]
fn an_index_needs_the_hash_of_its_pack() {
    let prepared = |pack_hash| Prepared {
        items: vec![item(1, 12)],
        missing_bases: Vec::new(),
        pack_hash,
        num_objects: 1,
        entries_end: 24,
    };
    assert!(matches!(
        prepared(None).into_contents(),
        Err(Error::IteratorInvariantTrailer)
    ));
    let contents = prepared(Some(numbered(8))).into_contents().expect("a hash");
    assert_eq!(numbers(&contents.items), [numbered(1)]);
    let outcome = write_outcome(contents.pack_hash, contents.num_objects, Version::V2, numbered(6));
    assert_eq!(outcome.index_version, Version::V2);
    assert_eq!(outcome.index_hash, numbered(6));
    assert_eq!(outcome.data_hash, numbered(8));
    assert_eq!(outcome.num_objects, 1);
}

#[test]
fn index_progress_is_identified_by_four_letters() {
    let id = |id: ProgressId| <[u8; 4]>::from(id);
    assert_eq!(&id(ProgressId::IndexObjects), b"IWIO");
    assert_eq!(&id(ProgressId::DecompressedBytes), b"IWDB");
    assert_eq!(&id(ProgressId::ResolveObjects), b"IWRO");
    assert_eq!(&id(ProgressId::DecodedBytes), b"IWDC");
    assert_eq!(&id(ProgressId::IndexBytesWritten), b"IWBW");
    let ids: BTreeSet<[u8; 4]> = [
        id(ProgressId::IndexObjects),
        id(ProgressId::DecompressedBytes),
        id(ProgressId::ResolveObjects),
        id(ProgressId::DecodedBytes),
        id(ProgressId::IndexBytesWritten),
    ]
    .into();
    assert_eq!(ids.len(), 5, "each step can be selected by its id");
}
