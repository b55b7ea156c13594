use gix_motor::data::{encode_header, Version};
use gix_motor::hash::{compute_hash, hash_bytes, HashKind, ObjectId, ObjectKind};
use gix_motor::sort::Keyed;

fn hex_of(hash: HashKind, kind: ObjectKind, data: &[u8]) -> String {
    compute_hash(hash, kind, data).expect("no collision").to_hex()
}

#[test]
fn objects_have_their_well_known_ids() {
    assert_eq!(
        hex_of(HashKind::Sha1, ObjectKind::Blob, b""),
        "e69de29bb2d1d6434b8b29ae775ad8c2e48c5391"
    );
    assert_eq!(
        hex_of(HashKind::Sha1, ObjectKind::Tree, b""),
        "4b825dc642cb6eb9a060e54bf8d69288fbee4904"
    );
    assert_eq!(
        hex_of(HashKind::Sha1, ObjectKind::Commit, b"a"),
        "93114cce67ec23976d15199514399203f69cc676"
    );
    assert_eq!(
        hex_of(HashKind::Sha1, ObjectKind::Tag, b"a"),
        "f2040f70b465f9575f0a52e3906c9426278b747d"
    );
    assert_eq!(
        hex_of(HashKind::Sha256, ObjectKind::Blob, b""),
        "473a0f4c3be8a93681a267e3b1e9a7dcda1185436fe141f7749120a303721813"
    );
}

#[test]
fn ids_agree_with_the_object_crate() {
    let data = b"some content";
    let id = compute_hash(HashKind::Sha1, ObjectKind::Blob, data).expect("no collision");
    let expected = gix_object::compute_hash(gix_hash::Kind::Sha1, gix_object::Kind::Blob, data)
        .expect("no collision");
    assert_eq!(id.as_slice(), expected.as_slice());
}

#[test]
fn bytes_have_their_well_known_hashes() {
    assert_eq!(
        hash_bytes(HashKind::Sha1, b"").expect("no collision").to_hex(),
        "da39a3ee5e6b4b0d3255bfef95601890afd80709"
    );
    assert_eq!(
        hash_bytes(HashKind::Sha1, &encode_header(Version::V2, 0)).expect("no collision").to_hex(),
        "029d08823bd8a8eab510ad6ac75c823cfd3ed31e"
    );
    assert_eq!(
        hash_bytes(HashKind::Sha256, &encode_header(Version::V3, 0)).expect("no collision").to_hex(),
        "470e681eac7b71c47f43de3a889c50f7f786d15355848369bc13712635157b12"
    );
}

#[test]
fn ids_are_ordered_by_their_bytes() {
    let mut ids = Vec::new();
    for (first, last) in [(0, 0), (0, 255), (1, 0), (255, 3)] {
        let mut bytes = [9u8; 20];
        bytes[0] = first;
        bytes[19] = last;
        ids.push(ObjectId::Sha1(bytes));
    }
    for (i, a) in ids.iter().enumerate() {
        for (j, b) in ids.iter().enumerate() {
            assert_eq!(a.precedes(b), i < j);
            assert_eq!(a < b, i < j);
            assert_eq!(a == b, i == j);
            assert_eq!(a.same(b), i == j);
        }
    }
    assert!(ObjectId::Sha1([255; 20]).precedes(&ObjectId::Sha256([0; 32])));
    assert!(!ObjectId::Sha256([0; 32]).precedes(&ObjectId::Sha1([255; 20])));
    assert!(ObjectId::Sha256([0; 32]).precedes(&ObjectId::Sha256([1; 32])));
}

#[test]
fn null_ids_are_zero() {
    assert_eq!(HashKind::Sha1.null(), ObjectId::Sha1([0; 20]));
    assert_eq!(HashKind::Sha256.null(), ObjectId::Sha256([0; 32]));
    assert_eq!(HashKind::Sha1.len_in_bytes(), 20);
    assert_eq!(HashKind::Sha256.len_in_bytes(), 32);
    assert_eq!(ObjectId::from_digest(HashKind::Sha1, &vec![3; 20]), ObjectId::Sha1([3; 20]));
    assert_eq!(ObjectId::from_digest(HashKind::Sha256, &vec![4; 32]), ObjectId::Sha256([4; 32]));
}

#[test]
fn ids_are_written_in_lower_case() {
    let mut bytes = [0u8; 20];
    bytes[0] = 0xab;
    bytes[19] = 0x0f;
    assert_eq!(ObjectId::Sha1(bytes).to_hex(), "ab0000000000000000000000000000000000000f");
}
