use gix_motor::hash::ObjectId;
use gix_motor::ref_deltas::RefDeltaChildren;
use gix_motor::sort::{lower_bound, position_of, sort_by_key};
use gix_motor::thin::Received;
use gix_motor::data::Header;

fn numbered(number: u8) -> ObjectId {
    ObjectId::Sha1([number; 20])
}

#[test]
fn deltas_wait_for_their_base_in_the_order_of_bases() {
    let mut waiting = RefDeltaChildren::new();
    assert!(waiting.is_empty());
    assert_eq!(waiting.first_key(), None);
    waiting.add(numbered(5), 1);
    waiting.add(numbered(2), 7);
    waiting.add(numbered(5), 3);
    assert_eq!(waiting.len(), 2);
    assert_eq!(waiting.keys(), [numbered(2), numbered(5)]);
    assert_eq!(waiting.first_key(), Some(numbered(2)));
    assert!(waiting.contains_key(&numbered(5)));
    assert!(!waiting.contains_key(&numbered(3)));
    assert_eq!(waiting.remove(&numbered(5)), Some(vec![1, 3]));
    assert_eq!(waiting.remove(&numbered(5)), None);
    assert_eq!(waiting.keys(), [numbered(2)]);
}

#[test]
fn sorting_keeps_the_order_of_equal_keys() {
    let record = |number: u8, offset: u64| Received { id: numbered(number), offset, header: Header::Blob };
    let records = vec![record(3, 1), record(1, 2), record(3, 3), record(2, 4), record(1, 5), record(3, 0)];
    let sorted = sort_by_key(&records);
    let offsets: Vec<u64> = sorted.iter().map(|record| record.offset).collect();
    assert_eq!(offsets, [2, 5, 4, 1, 3, 0]);
    assert!(sort_by_key(&Vec::<ObjectId>::new()).is_empty());
}

#[test]
fn search_finds_what_is_there() {
    let ids: Vec<ObjectId> = [1, 3, 5, 7].into_iter().map(numbered).collect();
    assert_eq!(lower_bound(&ids, &numbered(0)), 0);
    assert_eq!(lower_bound(&ids, &numbered(3)), 1);
    assert_eq!(lower_bound(&ids, &numbered(4)), 2);
    assert_eq!(lower_bound(&ids, &numbered(8)), 4);
    assert_eq!(position_of(&ids, &numbered(7)), Some(3));
    assert_eq!(position_of(&ids, &numbered(6)), None);
}
