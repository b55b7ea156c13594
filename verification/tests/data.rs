use gix_motor::data::{encode_header, Header, Version, HEADER_LEN};
use gix_motor::hash::{HashKind, ObjectKind};

#[test]
fn headers_are_encoded_most_significant_byte_first() {
    assert_eq!(&encode_header(Version::V2, 0x0102_0304), b"PACK\0\0\0\x02\x01\x02\x03\x04");
    assert_eq!(&encode_header(Version::V3, u32::MAX), b"PACK\0\0\0\x03\xff\xff\xff\xff");
    assert_eq!(HEADER_LEN, 12);
}

#[test]
fn bases_lie_before_their_deltas() {
    assert_eq!(Header::verified_base_pack_offset(40, 28), Some(12));
    assert_eq!(Header::verified_base_pack_offset(40, 40), Some(0));
    assert_eq!(Header::verified_base_pack_offset(40, 41), None);
    assert_eq!(Header::verified_base_pack_offset(40, 0), None);
}

#[test]
fn only_whole_objects_have_a_kind() {
    assert_eq!(Header::Commit.as_kind(), Some(ObjectKind::Commit));
    assert_eq!(Header::Tree.as_kind(), Some(ObjectKind::Tree));
    assert_eq!(Header::Blob.as_kind(), Some(ObjectKind::Blob));
    assert_eq!(Header::Tag.as_kind(), Some(ObjectKind::Tag));
    assert_eq!(Header::OfsDelta { base_distance: 1 }.as_kind(), None);
    assert_eq!(Header::RefDelta { base_id: HashKind::Sha1.null() }.as_kind(), None);
}
