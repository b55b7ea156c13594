use std::collections::BTreeMap;

use gix_motor::complete::{
    effective_base_limit, final_count, index_contents, Action, Completion, EncodedEntry, Error,
    Event, Plan, Target,
};
use gix_motor::data::{encode_header, Version};
use gix_motor::hash::{compute_hash, hash_bytes, HashKind, ObjectId, ObjectKind};
use gix_motor::index::{self, Prepared, TreeEntry};
use gix_motor::traverse::{self, Item, Lookup};

const HASH: HashKind = HashKind::Sha1;

fn blob(data: &[u8]) -> ObjectId {
    compute_hash(HASH, ObjectKind::Blob, data).expect("no collision")
}

fn item(id: ObjectId, offset: u64) -> Item<TreeEntry> {
    Item { offset, next_offset: offset + 4, data: TreeEntry { id, crc32: 1 } }
}

fn plan() -> Plan {
    Plan {
        restore: false,
        has_lookup: true,
        pack_version: Version::V2,
        object_hash: HASH,
        alloc_limit_bytes: None,
        compression: gix_zlib::Compression::BEST,
        target: Target::Other,
    }
}

/// A pack with two received objects of four bytes each, without its missing bases.
fn received(missing_bases: Vec<ObjectId>, pack_hash: Option<ObjectId>) -> (Prepared, Vec<u8>) {
    let mut file = encode_header(Version::V2, 2).to_vec();
    file.extend(b"onesdeltTRAILER-TRAILER-TRAILER");
    let mut items = vec![item(blob(b"ones"), 12), item(blob(b"delt"), 16)];
    items.sort_by_key(|item| item.data.id);
    (Prepared { items, missing_bases, pack_hash, num_objects: 2, entries_end: 20 }, file)
}

/// What a completion is run with.
struct World {
    objects: BTreeMap<ObjectId, Vec<u8>>,
    file: Vec<u8>,
    position: usize,
    fail_at: Option<usize>,
    interrupt_at: Option<usize>,
    encode: fn(&[u8]) -> Option<EncodedEntry>,
}

fn encode(data: &[u8]) -> Option<EncodedEntry> {
    Some(EncodedEntry {
        header: vec![b'<', data.len() as u8],
        compressed: Some(data.iter().rev().copied().collect()),
        crc32: Some(data.len() as u32),
    })
}

impl World {
    fn new(file: Vec<u8>, contents: &[&[u8]]) -> World {
        World {
            objects: contents.iter().map(|data| (blob(data), data.to_vec())).collect(),
            file,
            position: 0,
            fail_at: None,
            interrupt_at: None,
            encode,
        }
    }

    fn write(&mut self, bytes: &[u8]) {
        let end = self.position + bytes.len();
        if end > self.file.len() {
            self.file.resize(end, 0);
        }
        self.file[self.position..end].copy_from_slice(bytes);
        self.position = end;
    }

    fn complete(&mut self, prepared: Prepared, plan: Plan) -> Result<(Prepared, ObjectId), Error> {
        let mut completion = Completion::new(prepared, plan);
        let mut rounds = 0;
        let mut actions = 0;
        let mut looked_up: Vec<u8> = Vec::new();
        let mut action = completion.step(Event::Continue { interrupted: self.interrupt_at == Some(0) });
        loop {
            actions += 1;
            let ok = self.fail_at != Some(actions);
            action = match action {
                Action::Continue => {
                    rounds += 1;
                    completion.step(Event::Continue { interrupted: self.interrupt_at == Some(rounds) })
                }
                Action::Flush => completion.step(Event::Performed { ok }),
                Action::Reserve => {
                    let event = completion.reserve();
                    completion.step(event)
                }
                Action::Truncate { len } => {
                    self.file.resize(len as usize, 0);
                    self.position = len as usize;
                    completion.step(Event::Performed { ok })
                }
                Action::LookUp { object_id } => {
                    let lookup = match self.objects.get(&object_id) {
                        Some(data) => {
                            looked_up = data.clone();
                            Lookup::Found { kind: ObjectKind::Blob, data: &looked_up }
                        }
                        None if ok => Lookup::Absent,
                        None => Lookup::Failed,
                    };
                    completion.step(Event::LookedUp(lookup))
                }
                Action::Encode { pack_offset, compression } => {
                    assert_eq!(compression, gix_zlib::Compression::BEST);
                    assert_eq!(pack_offset as usize, self.position);
                    completion.step(Event::Encoded((self.encode)(&looked_up)))
                }
                Action::Write(bytes) => {
                    self.write(&bytes);
                    completion.step(Event::Performed { ok })
                }
                Action::WriteAtStart(bytes) => {
                    self.position = 0;
                    self.write(&bytes);
                    self.position = 0;
                    completion.step(Event::Performed { ok })
                }
                Action::Hash { len } => {
                    let hash = hash_bytes(HASH, &self.file[..len as usize]).expect("no collision");
                    self.position = len as usize;
                    completion.step(Event::Hashed(ok.then_some(hash)))
                }
                Action::WriteTrailer(id) => {
                    self.write(id.as_slice());
                    completion.step(Event::Performed { ok })
                }
                Action::Done { pack_hash } => return Ok((completion.into_prepared(), pack_hash)),
                Action::Fail(error) => return Err(error),
            };
        }
    }
}

#[test]
fn a_pack_that_was_received_whole_is_cut_to_its_length() {
    let trailer = blob(b"trailer");
    let (prepared, file) = received(Vec::new(), Some(trailer));
    let mut world = World::new(file.clone(), &[]);
    let (prepared, pack_hash) = world.complete(prepared, plan()).expect("complete");
    assert_eq!(pack_hash, trailer);
    assert_eq!(world.file, &file[..40]);
    assert_eq!(prepared.num_objects, 2);
    assert_eq!(prepared.pack_hash, Some(trailer));
}

#[test]
fn missing_bases_are_appended_and_the_pack_is_made_to_match() {
    let mut missing = vec![blob(b"base"), blob(b"another")];
    missing.sort();
    let contents: Vec<&[u8]> =
        missing.iter().map(|id| if *id == blob(b"base") { &b"base"[..] } else { &b"another"[..] }).collect();
    let (prepared, file) = received(missing.clone(), None);
    let mut world = World::new(file, &[b"base", b"another"]);
    let (prepared, pack_hash) = world.complete(prepared, plan()).expect("complete");

    let mut expected = encode_header(Version::V2, 4).to_vec();
    expected.extend(b"onesdelt");
    for content in &contents {
        expected.extend([b'<', content.len() as u8]);
        expected.extend(content.iter().rev());
    }
    assert_eq!(pack_hash, hash_bytes(HASH, &expected).expect("no collision"));
    assert_eq!(prepared.entries_end as usize, expected.len());
    expected.extend(pack_hash.as_slice());
    assert_eq!(world.file, expected);

    assert_eq!(prepared.num_objects, 4);
    assert_eq!(prepared.pack_hash, Some(pack_hash));
    assert!(prepared.missing_bases.is_empty());
    let appended = &prepared.items[2..];
    assert_eq!(appended[0].data.id, missing[0]);
    assert_eq!(appended[0].offset, 20);
    assert_eq!(appended[0].next_offset, appended[1].offset);
    assert_eq!(appended[1].data.id, missing[1]);
    assert_eq!(appended[1].data.crc32 as usize, contents[1].len());
    assert_eq!(appended[1].next_offset, prepared.entries_end);

    let contents = index_contents(prepared, pack_hash, true).expect("no duplicates");
    assert!(contents.items.windows(2).all(|pair| pair[0].data.id < pair[1].data.id));
    assert_eq!(contents.items.len(), 4);
    assert_eq!((contents.pack_hash, contents.num_objects), (pack_hash, 4));
}

#[test]
fn a_restored_pack_gets_a_new_header_and_trailer() {
    let (prepared, file) = received(Vec::new(), None);
    let mut world = World::new(file, &[]);
    let (prepared, pack_hash) =
        world.complete(prepared, Plan { restore: true, has_lookup: false, ..plan() }).expect("complete");
    let mut expected = encode_header(Version::V2, 2).to_vec();
    expected.extend(b"onesdelt");
    assert_eq!(pack_hash, hash_bytes(HASH, &expected).expect("no collision"));
    expected.extend(pack_hash.as_slice());
    assert_eq!(world.file, expected);
    assert_eq!(prepared.num_objects, 2);
}

#[test]
fn a_pack_without_trailer_is_rejected() {
    let (prepared, file) = received(Vec::new(), None);
    assert!(matches!(
        World::new(file, &[]).complete(prepared, plan()),
        Err(Error::IndexWrite(index::Error::IteratorInvariantTrailer))
    ));
}

#[test]
fn bases_that_cannot_be_had_are_reported() {
    let base = blob(b"base");
    let (prepared, file) = received(vec![base], None);
    assert!(matches!(
        World::new(file, &[]).complete(prepared, plan()),
        Err(Error::MissingExternalBase { object_id }) if object_id == base
    ));
    let (prepared, file) = received(vec![base], None);
    assert!(matches!(
        World::new(file, &[b"base"]).complete(prepared, Plan { has_lookup: false, ..plan() }),
        Err(Error::MissingExternalBase { object_id }) if object_id == base
    ));
    let (prepared, file) = received(vec![base], None);
    let mut world = World::new(file, &[]);
    world.fail_at = Some(5);
    assert!(matches!(
        world.complete(prepared, plan()),
        Err(Error::Find { object_id }) if object_id == base
    ));
    let (prepared, file) = received(vec![base], None);
    let mut world = World::new(file, &[]);
    world.objects.insert(base, b"other".to_vec());
    assert!(matches!(
        world.complete(prepared, plan()),
        Err(Error::ExternalBaseIdMismatch { expected, actual })
            if expected == base && actual == blob(b"other")
    ));
}

#[test]
fn large_bases_are_rejected() {
    let base = blob(b"base");
    for (limit, accepted) in [(4, true), (3, false)] {
        let (prepared, file) = received(vec![base], None);
        let result = World::new(file, &[b"base"])
            .complete(prepared, Plan { alloc_limit_bytes: Some(limit), ..plan() });
        if accepted {
            result.expect("within the limit");
        } else {
            assert!(matches!(
                result,
                Err(Error::IndexWrite(index::Error::TreeTraversal(traverse::Error::OutOfMemory)))
            ));
        }
    }
}

#[test]
fn a_limit_of_zero_rejects_every_base_that_is_not_empty() {
    for (content, accepted) in [(&b""[..], true), (&b"x"[..], false)] {
        let (prepared, file) = received(vec![blob(content)], None);
        let result = World::new(file, &[content])
            .complete(prepared, Plan { alloc_limit_bytes: Some(0), ..plan() });
        assert_eq!(result.is_ok(), accepted);
    }
}

#[test]
fn interruptions_are_noticed_before_each_base() {
    for at in [0, 1, 2] {
        let mut missing = vec![blob(b"base"), blob(b"another")];
        missing.sort();
        let (prepared, file) = received(missing, None);
        let mut world = World::new(file, &[b"base", b"another"]);
        world.interrupt_at = Some(at);
        assert!(matches!(
            world.complete(prepared, plan()),
            Err(Error::IndexWrite(index::Error::TreeTraversal(traverse::Error::Interrupted)))
        ));
    }
    let (prepared, file) = received(vec![blob(b"base")], None);
    let mut world = World::new(file, &[b"base"]);
    world.interrupt_at = Some(2);
    world.complete(prepared, plan()).expect("there is no base left");
}

#[test]
fn incomplete_entries_are_rejected() {
    let run = |encode: fn(&[u8]) -> Option<EncodedEntry>| {
        let (prepared, file) = received(vec![blob(b"base")], None);
        let mut world = World::new(file, &[b"base"]);
        world.encode = encode;
        world.complete(prepared, plan()).expect_err("rejected")
    };
    assert!(matches!(run(|_| None), Error::PackIter));
    assert!(matches!(
        run(|data| encode(data).map(|entry| EncodedEntry { compressed: None, ..entry })),
        Error::NoCompressedData
    ));
    assert!(matches!(
        run(|data| encode(data).map(|entry| EncodedEntry { crc32: None, ..entry })),
        Error::NoChecksum
    ));
}

#[test]
fn failures_of_the_file_are_reported() {
    for at in 1..=14 {
        let (prepared, file) = received(vec![blob(b"base")], None);
        let mut world = World::new(file, &[b"base"]);
        world.fail_at = Some(at);
        match world.complete(prepared, plan()) {
            Ok(_) => assert!([2, 4, 5, 6, 9].contains(&at) || at > 12, "action {at}"),
            Err(Error::Io) => assert!([1, 3, 7, 8, 10, 12].contains(&at), "action {at}"),
            Err(Error::IndexWrite(index::Error::Io)) => assert_eq!(at, 11),
            Err(_) => panic!("action {at}"),
        }
    }
}

#[test]
fn lengths_do_not_overflow() {
    let (mut prepared, file) = received(Vec::new(), Some(blob(b"trailer")));
    prepared.entries_end = u64::MAX - 19;
    assert!(matches!(World::new(file, &[]).complete(prepared, plan()), Err(Error::LengthOverflow)));

    let base = blob(b"base");
    let (mut prepared, _) = received(vec![base], None);
    prepared.entries_end = u64::MAX - 5;
    let mut completion = Completion::new(prepared, plan());
    completion.step(Event::Continue { interrupted: false });
    completion.step(Event::Performed { ok: true });
    completion.step(Event::Reserved { ok: true });
    completion.step(Event::Performed { ok: true });
    completion.step(Event::Continue { interrupted: false });
    completion.step(Event::LookedUp(Lookup::Found { kind: ObjectKind::Blob, data: b"base" }));
    completion.step(Event::Encoded(encode(b"base")));
    completion.step(Event::Performed { ok: true });
    assert!(matches!(
        completion.step(Event::Performed { ok: true }),
        Action::Fail(Error::LengthOverflow)
    ));
}

#[test]
fn memory_for_bases_may_be_missing() {
    let (prepared, _) = received(vec![blob(b"base")], None);
    let mut completion = Completion::new(prepared, plan());
    completion.step(Event::Continue { interrupted: false });
    assert!(matches!(completion.step(Event::Performed { ok: true }), Action::Reserve));
    assert!(matches!(
        completion.step(Event::Reserved { ok: false }),
        Action::Fail(Error::IndexWrite(index::Error::OutOfMemory))
    ));
}

#[test]
fn objects_are_counted_within_limits() {
    assert!(matches!(final_count(2, 3, Target::Other), Ok(5)));
    assert!(matches!(final_count(u32::MAX, 0, Target::Other), Ok(u32::MAX)));
    assert!(matches!(
        final_count(u32::MAX, 1, Target::Other),
        Err(index::Error::IteratorInvariantTooManyObjects(n)) if n == u32::MAX as usize + 1
    ));
    assert!(matches!(
        final_count(1, usize::MAX, Target::Other),
        Err(index::Error::IteratorInvariantTooManyObjects(usize::MAX))
    ));
    assert!(matches!(final_count(65_535, 1, Target::Motor), Ok(65_536)));
    assert!(matches!(
        final_count(65_535, 2, Target::Motor),
        Err(index::Error::EntryCountLimit { max_entries: 65_536 })
    ));
}

#[test]
fn bases_are_limited_as_the_system_asks() {
    let motor = 16 * 1024 * 1024;
    assert_eq!(effective_base_limit(Target::Other, None), None);
    assert_eq!(effective_base_limit(Target::Other, Some(usize::MAX)), Some(usize::MAX));
    assert_eq!(effective_base_limit(Target::Motor, None), Some(motor));
    assert_eq!(effective_base_limit(Target::Motor, Some(motor + 1)), Some(motor));
    assert_eq!(effective_base_limit(Target::Motor, Some(7)), Some(7));
}

#[test]
fn duplicates_are_found_in_a_complete_pack() {
    let twice = blob(b"ones");
    let (mut prepared, _) = received(Vec::new(), None);
    prepared.items.push(item(twice, 20));
    assert!(matches!(
        index_contents(prepared, twice, true),
        Err(index::Error::DuplicateObject { object_id }) if object_id == twice
    ));
    let (prepared, _) = received(Vec::new(), None);
    let ids: Vec<ObjectId> = prepared.items.iter().map(|item| item.data.id).collect();
    let contents = index_contents(prepared, twice, false).expect("no duplicates");
    assert_eq!(contents.items.iter().map(|item| item.data.id).collect::<Vec<_>>(), ids);
    let (mut prepared, _) = received(Vec::new(), None);
    prepared.items = vec![item(twice, 12), item(twice, 16)];
    assert!(matches!(
        index_contents(prepared, twice, false),
        Err(index::Error::DuplicateObject { object_id }) if object_id == twice
    ));
}

#[test]
fn index_errors_become_bundle_errors() {
    assert!(matches!(Error::from(index::Error::Tree), Error::IndexWrite(index::Error::Tree)));
}
