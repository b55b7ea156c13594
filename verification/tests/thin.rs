use gix_motor::data::Header;
use gix_motor::hash::{compute_hash, HashKind, ObjectId, ObjectKind};
use gix_motor::index::Error;
use gix_motor::thin::{ensure_unique, missing_bases, missing_bases_in, Received, Room};
use gix_motor::traverse;

fn id(data: &[u8]) -> ObjectId {
    compute_hash(HashKind::Sha1, ObjectKind::Blob, data).expect("hash object")
}

fn numbered(number: u8) -> ObjectId {
    let mut bytes = [0u8; 20];
    bytes[19] = number;
    ObjectId::Sha1(bytes)
}

fn object(number: u8, offset: u64, header: Header) -> Received {
    Received { id: numbered(number), offset, header }
}

#[test]
fn candidates_are_subtracted_and_must_retain_a_real_root() {
    let (a, b, c, external) = (id(b"A"), id(b"B"), id(b"C"), id(b"external"));
    let mut valid = [
        Received { id: a, offset: 12, header: Header::Blob },
        Received { id: b, offset: 20, header: Header::RefDelta { base_id: a } },
        Received { id: c, offset: 30, header: Header::OfsDelta { base_distance: 10 } },
    ];
    valid.sort_by_key(|item| item.id);
    assert_eq!(
        missing_bases(&valid, vec![a, b, c, external], || false)
            .expect("all received candidates are rooted"),
        [external]
    );

    let self_reference =
        [Received { id: a, offset: 12, header: Header::RefDelta { base_id: a } }];
    assert!(matches!(
        missing_bases(&self_reference, vec![a], || false),
        Err(Error::UnrootedDeltaChain { object_id }) if object_id == a
    ));

    let duplicate = [a, a];
    assert!(matches!(
        ensure_unique(&duplicate),
        Err(Error::DuplicateObject { object_id }) if object_id == a
    ));
}

#[test]
fn missing_bases_come_in_order_whatever_the_order_of_the_candidates() {
    let received = [object(2, 12, Header::Tree)];
    let candidates = vec![numbered(9), numbered(2), numbered(1), numbered(5)];
    assert_eq!(
        missing_bases(&received, candidates, || false).expect("rooted"),
        [numbered(1), numbered(5), numbered(9)]
    );
}

#[test]
fn a_delta_on_an_external_candidate_is_rooted() {
    let received = [
        object(1, 12, Header::RefDelta { base_id: numbered(7) }),
        object(2, 40, Header::OfsDelta { base_distance: 28 }),
    ];
    let candidates = vec![numbered(2), numbered(1), numbered(7)];
    assert_eq!(missing_bases(&received, candidates, || false).expect("rooted"), [numbered(7)]);
}

#[test]
fn a_delta_on_an_absent_object_is_unrooted() {
    let received = [
        object(1, 12, Header::RefDelta { base_id: numbered(7) }),
        object(2, 40, Header::OfsDelta { base_distance: 28 }),
    ];
    assert!(matches!(
        missing_bases(&received, vec![numbered(2)], || false),
        Err(Error::UnrootedDeltaChain { object_id }) if object_id == numbered(1)
    ));
}

#[test]
fn a_delta_on_an_offset_without_object_is_unrooted() {
    for base_distance in [0, 5, 41] {
        let received = [
            object(1, 12, Header::Blob),
            object(2, 40, Header::OfsDelta { base_distance }),
        ];
        assert!(matches!(
            missing_bases(&received, vec![numbered(2)], || false),
            Err(Error::UnrootedDeltaChain { object_id }) if object_id == numbered(2)
        ));
    }
}

#[test]
fn a_cycle_of_two_is_unrooted_where_it_closes() {
    let received = [
        object(1, 12, Header::RefDelta { base_id: numbered(2) }),
        object(2, 40, Header::RefDelta { base_id: numbered(1) }),
    ];
    assert!(matches!(
        missing_bases(&received, vec![numbered(2)], || false),
        Err(Error::UnrootedDeltaChain { object_id }) if object_id == numbered(2)
    ));
    assert_eq!(
        missing_bases(&received, vec![numbered(3)], || false).expect("nothing received is a candidate"),
        [numbered(3)]
    );
}

#[test]
fn an_interruption_stops_the_search_only_where_there_is_one() {
    let received = [object(1, 12, Header::Blob)];
    assert!(matches!(
        missing_bases(&received, vec![numbered(1)], || true),
        Err(Error::TreeTraversal(traverse::Error::Interrupted))
    ));
    assert_eq!(
        missing_bases(&received, vec![numbered(2)], || true).expect("no chain is followed"),
        [numbered(2)]
    );
}

#[test]
fn memory_can_be_set_aside_before_the_search() {
    let received = [object(1, 12, Header::Commit), object(3, 20, Header::Tag)];
    let room = Room::reserve(2, 3).expect("a little memory");
    let candidates = vec![numbered(3), numbered(2), numbered(1)];
    assert_eq!(
        missing_bases_in(&received, candidates, || false, room).expect("rooted"),
        [numbered(2)]
    );
    assert!(matches!(Room::reserve(usize::MAX, 0), Err(Error::OutOfMemory)));
}

#[test]
fn unique_ids_pass_and_the_first_repetition_is_reported() {
    assert!(ensure_unique(&[]).is_ok());
    assert!(ensure_unique(&[numbered(1), numbered(2), numbered(3)]).is_ok());
    assert!(matches!(
        ensure_unique(&[numbered(1), numbered(2), numbered(2), numbered(4), numbered(4)]),
        Err(Error::DuplicateObject { object_id }) if object_id == numbered(2)
    ));
}

#[test]
fn memory_for_nothing_can_always_be_set_aside() {
    let room = Room::reserve(0, 0).expect("nothing is needed");
    assert!(missing_bases_in(&[], Vec::new(), || false, room).expect("nothing to do").is_empty());
    assert!(matches!(Room::reserve(0, usize::MAX), Err(Error::OutOfMemory)));
    assert!(missing_bases(&[], Vec::new(), || true).expect("nothing to do").is_empty());
}
