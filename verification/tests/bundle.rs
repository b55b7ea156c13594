use std::collections::BTreeSet;
use std::marker::PhantomData;

use gix_motor::bundle::{
    name_of, reads_eagerly, resolve_entry, Error, FileKind, Mode, Options, ProgressId,
    Publication, PublishAction, PublishEvent, WriteOutcome,
};
use gix_motor::complete::Target;
use gix_motor::data::Version as PackVersion;
use gix_motor::hash::{HashKind, ObjectId};
use gix_motor::index::{pack_hash, Indexed, Outcome, Version};
use gix_motor::mmap::{read_with_limits, Budget};

const HEX: &str = "0707070707070707070707070707070707070707";

fn outcome(num_objects: u32) -> Outcome {
    Outcome {
        index_version: Version::V2,
        index_hash: ObjectId::Sha1([3; 20]),
        data_hash: ObjectId::Sha1([7; 20]),
        num_objects,
    }
}

/// Publishes a pack into a set of file names. Yields the names in the order in which they were made.
fn publish(
    outcome: Outcome,
    files: &mut BTreeSet<String>,
    fail_at: Option<FileKind>,
) -> Result<(WriteOutcome, Vec<String>), Error> {
    let mut publication = Publication::new(outcome);
    let mut made = Vec::new();
    let mut action = publication.step(PublishEvent::Begin);
    loop {
        let mut make = |kind: FileKind, name: String| {
            if fail_at == Some(kind) {
                return Err(Error::Persist);
            }
            files.insert(name.clone());
            made.push(name);
            Ok(())
        };
        action = match action {
            PublishAction::WriteKeep { name } => {
                let result = make(FileKind::Keep, name);
                publication.step(PublishEvent::Performed(result))
            }
            PublishAction::Persist { kind, name } => {
                let result = make(kind, name);
                publication.step(PublishEvent::Performed(result))
            }
            PublishAction::Find { name, .. } => {
                publication.step(PublishEvent::Found { exists: files.contains(&name) })
            }
            PublishAction::Done(written) => return Ok((written, made)),
            PublishAction::Fail(error) => return Err(error),
        };
    }
}

#[test]
fn files_are_named_after_the_hash_of_the_pack() {
    let id = ObjectId::Sha1([7; 20]);
    assert_eq!(name_of(&id, FileKind::Data), format!("pack-{HEX}.pack"));
    assert_eq!(name_of(&id, FileKind::Index), format!("pack-{HEX}.idx"));
    assert_eq!(name_of(&id, FileKind::Keep), format!("pack-{HEX}.keep"));
}

#[test]
fn empty_packs_share_a_name() {
    let name = |entries_end: u64| {
        let indexed = Indexed { num_objects: 0, trailer: None, entries_end, object_hash: HashKind::Sha1 };
        let hash = pack_hash(&indexed, PackVersion::V2).expect("no collision").expect("a hash");
        name_of(&hash, FileKind::Data)
    };
    assert_eq!(name(12), "pack-029d08823bd8a8eab510ad6ac75c823cfd3ed31e.pack");
    assert_eq!(name(12), name(99));
}

#[test]
fn a_new_pack_is_marked_before_it_is_moved_into_place() {
    let mut files = BTreeSet::new();
    let (written, made) = publish(outcome(3), &mut files, None).expect("published");
    let name = |extension: &str| format!("pack-{HEX}.{extension}");
    assert_eq!(made, [name("keep"), name("pack"), name("idx")]);
    assert_eq!(written.outcome, outcome(3));
    assert_eq!(written.data_name, Some(name("pack")));
    assert_eq!(written.index_name, Some(name("idx")));
    assert_eq!(written.keep_name, Some(name("keep")));
}

#[test]
fn a_pack_that_is_there_is_left_alone() {
    let mut files = BTreeSet::from([format!("pack-{HEX}.pack")]);
    let (written, made) = publish(outcome(3), &mut files, None).expect("published");
    assert_eq!(made, [format!("pack-{HEX}.idx")]);
    assert_eq!(written.keep_name, None);
    assert_eq!(written.data_name, Some(format!("pack-{HEX}.pack")));
    let (written, made) = publish(outcome(3), &mut files, None).expect("published");
    assert!(made.is_empty());
    assert_eq!(written.index_name, Some(format!("pack-{HEX}.idx")));
}

#[test]
fn an_index_that_is_there_is_left_alone() {
    let mut files = BTreeSet::from([format!("pack-{HEX}.idx")]);
    let (written, made) = publish(outcome(1), &mut files, None).expect("published");
    assert_eq!(made, [format!("pack-{HEX}.keep"), format!("pack-{HEX}.pack")]);
    assert_eq!(written.keep_name, Some(format!("pack-{HEX}.keep")));
}

#[test]
fn an_empty_pack_is_not_published() {
    let mut files = BTreeSet::new();
    let (written, made) = publish(outcome(0), &mut files, None).expect("nothing to do");
    assert!(made.is_empty());
    assert!(written.data_name.is_none() && written.index_name.is_none() && written.keep_name.is_none());
    let written = WriteOutcome::discarded(outcome(5));
    assert_eq!(written.outcome, outcome(5));
    assert!(written.data_name.is_none() && written.index_name.is_none() && written.keep_name.is_none());
}

#[test]
fn failures_end_the_publication() {
    for kind in [FileKind::Keep, FileKind::Data, FileKind::Index] {
        let result = publish(outcome(3), &mut BTreeSet::new(), Some(kind));
        assert!(matches!(result, Err(Error::Persist)));
    }
}

#[test]
fn entries_are_found_in_the_pack() {
    let mut budget = Budget::new(10);
    let read = |mut buffer: Vec<u8>, _: usize| {
        buffer.extend(0..10);
        Ok(buffer)
    };
    let map = read_with_limits(read, 10, 10, &mut budget).expect("read");
    assert_eq!(resolve_entry(2..5, &map), Some(&[2, 3, 4][..]));
    assert_eq!(resolve_entry(0..10, &map).map(<[u8]>::len), Some(10));
    assert_eq!(resolve_entry(10..10, &map), Some(&[][..]));
    assert_eq!(resolve_entry(5..11, &map), None);
    assert_eq!(resolve_entry(std::ops::Range { start: 5, end: 4 }, &map), None);
    assert_eq!(resolve_entry((1 << 32)..(1 << 32) + 5, &map), None);
    assert_eq!(resolve_entry(0..u64::MAX, &map), None);
}

#[test]
fn large_packs_are_read_eagerly() {
    assert!(!reads_eagerly(25_000));
    assert!(reads_eagerly(25_001));
}

#[test]
fn options_determine_how_a_pack_is_completed() {
    for mode in [Mode::AsIs, Mode::Verify, Mode::Restore] {
        let options = Options {
            thread_limit: None,
            iteration_mode: mode,
            index_version: Version::V2,
            object_hash: HashKind::Sha256,
            alloc_limit_bytes: Some(9),
            compression: gix_zlib::Compression::BEST_SPEED,
        };
        let plan = options.plan(PackVersion::V3, true, Target::Motor);
        assert_eq!(plan.restore, mode == Mode::Restore);
        assert!(plan.has_lookup);
        assert_eq!(plan.pack_version, PackVersion::V3);
        assert_eq!(plan.object_hash, HashKind::Sha256);
        assert_eq!(plan.alloc_limit_bytes, Some(9));
        assert_eq!(plan.compression, gix_zlib::Compression::BEST_SPEED);
        assert_eq!(plan.target, Target::Motor);
    }
}

#[test]
fn pack_progress_is_identified_by_four_letters() {
    assert_eq!(&<[u8; 4]>::from(ProgressId::ReadPackBytes), b"BWRB");
    assert_eq!(&<[u8; 4]>::from(ProgressId::IndexingSteps(PhantomData)), b"BWCI");
}
