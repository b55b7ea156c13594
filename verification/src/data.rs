//! The format of pack data: its header and the headers of its entries.
use vstd::prelude::*;

use crate::hash::{ObjectId, ObjectKind};

verus! {

/// The version of a pack data file.
#[derive(Clone, Copy, Debug, PartialEq, Eq, Structural)]
pub enum Version {
    V2,
    V3,
}

impl Version {
    /// The number by which a pack names its version.
    pub open spec fn number(self) -> u32 {
        match self {
            Version::V2 => 2,
            Version::V3 => 3,
        }
    }

    fn to_number(&self) -> (number: u32)
        ensures
            number == self.number(),
    {
        match self {
            Version::V2 => 2,
            Version::V3 => 3,
        }
    }
}

/// The four bytes of `number`, most significant first.
pub open spec fn be_bytes(number: u32) -> Seq<u8> {
    seq![
        (number / 16777216) as u8,
        (number / 65536 % 256) as u8,
        (number / 256 % 256) as u8,
        (number % 256) as u8,
    ]
}

/// The number of bytes before the first entry of a pack.
pub const HEADER_LEN: u64 = 12;

/// The header of a pack: `PACK`, the version, and the number of objects.
pub open spec fn header(version: Version, num_objects: u32) -> Seq<u8> {
    seq![80u8, 65u8, 67u8, 75u8] + be_bytes(version.number()) + be_bytes(num_objects)
}

/// Encodes the header of a pack with the given number of objects.
pub fn encode_header(version: Version, num_objects: u32) -> (bytes: [u8; 12])
    ensures
        bytes@ == header(version, num_objects),
        bytes@.len() == HEADER_LEN,
{
    let v: u32 = version.to_number();
    let n: u32 = num_objects;
    let bytes: [u8; 12] = [
        80,
        65,
        67,
        75,
        (v / 16777216) as u8,
        (v / 65536 % 256) as u8,
        (v / 256 % 256) as u8,
        (v % 256) as u8,
        (n / 16777216) as u8,
        (n / 65536 % 256) as u8,
        (n / 256 % 256) as u8,
        (n % 256) as u8,
    ];
    assert(bytes@ =~= header(version, num_objects));
    bytes
}

/// The number that four bytes of a sequence spell, from `start` on, most significant byte first.
pub open spec fn be_number(bytes: Seq<u8>, start: int) -> int {
    bytes[start] * 16777216 + bytes[start + 1] * 65536 + bytes[start + 2] * 256 + bytes[start + 3]
}

/// A header reads back: it begins with `PACK`, then tells the version of the pack, and then how many
/// objects it holds.
pub proof fn lemma_header_reads_back(version: Version, num_objects: u32)
    ensures
        header(version, num_objects).len() == 12,
        header(version, num_objects).take(4) == seq![80u8, 65u8, 67u8, 75u8],
        be_number(header(version, num_objects), 4) == match version {
            Version::V2 => 2int,
            Version::V3 => 3int,
        },
        be_number(header(version, num_objects), 8) == num_objects,
{
    let bytes = header(version, num_objects);
    assert(bytes.take(4) =~= seq![80u8, 65u8, 67u8, 75u8]);
    lemma_bytes_spell_their_number(version.number());
    lemma_bytes_spell_their_number(num_objects);
    let first = be_bytes(version.number());
    let second = be_bytes(num_objects);
    assert(bytes[4] == first[0] && bytes[5] == first[1] && bytes[6] == first[2] && bytes[7]
        == first[3]);
    assert(bytes[8] == second[0] && bytes[9] == second[1] && bytes[10] == second[2] && bytes[11]
        == second[3]);
}

proof fn lemma_bytes_spell_their_number(number: u32)
    ensures
        be_number(be_bytes(number), 0) == number,
{
}

/// Each kind of object has one kind of entry that holds it whole, and a delta has none.
pub proof fn lemma_kinds_of_entries(entry: Header)
    ensures
        entry.kind() is None <==> entry is RefDelta || entry is OfsDelta,
        entry.kind() == Some(ObjectKind::Commit) <==> entry is Commit,
        entry.kind() == Some(ObjectKind::Tree) <==> entry is Tree,
        entry.kind() == Some(ObjectKind::Blob) <==> entry is Blob,
        entry.kind() == Some(ObjectKind::Tag) <==> entry is Tag,
{
}

/// The base of a delta lies before it, at the distance that the delta tells. It has none exactly if that
/// distance is zero or leads out of the pack.
pub proof fn lemma_base_lies_at_its_distance(pack_offset: u64, distance: u64)
    ensures
        match base_pack_offset(pack_offset, distance) {
            Some(base) => base + distance == pack_offset && base < pack_offset,
            None => distance == 0 || distance > pack_offset,
        },
{
}

/// What an entry of a pack holds: a whole object, or a delta to an object that is named by its id or
/// by its distance in the pack.
#[derive(Clone, Copy, Debug)]
pub enum Header {
    Commit,
    Tree,
    Blob,
    Tag,
    RefDelta { base_id: ObjectId },
    OfsDelta { base_distance: u64 },
}

/// The offset of the base of an entry at `pack_offset`: `distance` bytes before it. There is none
/// where the distance is zero or leads out of the pack.
pub open spec fn base_pack_offset(pack_offset: u64, distance: u64) -> Option<u64> {
    if distance == 0 || distance > pack_offset {
        None
    } else {
        Some((pack_offset - distance) as u64)
    }
}

impl Header {
    /// The kind of the object, for an entry that holds a whole one.
    pub open spec fn kind(self) -> Option<ObjectKind> {
        match self {
            Header::Commit => Some(ObjectKind::Commit),
            Header::Tree => Some(ObjectKind::Tree),
            Header::Blob => Some(ObjectKind::Blob),
            Header::Tag => Some(ObjectKind::Tag),
            _ => None,
        }
    }

    /// Returns the kind of the object, or `None` for a delta.
    pub fn as_kind(&self) -> (kind: Option<ObjectKind>)
        ensures
            kind == self.kind(),
            kind is None <==> self is RefDelta || self is OfsDelta,
            kind == Some(ObjectKind::Commit) <==> self is Commit,
            kind == Some(ObjectKind::Tree) <==> self is Tree,
            kind == Some(ObjectKind::Blob) <==> self is Blob,
            kind == Some(ObjectKind::Tag) <==> self is Tag,
    {
        match self {
            Header::Commit => Some(ObjectKind::Commit),
            Header::Tree => Some(ObjectKind::Tree),
            Header::Blob => Some(ObjectKind::Blob),
            Header::Tag => Some(ObjectKind::Tag),
            _ => None,
        }
    }

    /// Subtracts `distance` from `pack_offset`, or returns `None` where that leads nowhere.
    pub fn verified_base_pack_offset(pack_offset: u64, distance: u64) -> (offset: Option<u64>)
        ensures
            offset == base_pack_offset(pack_offset, distance),
            match offset {
                Some(base) => base + distance == pack_offset && base < pack_offset,
                None => distance == 0 || distance > pack_offset,
            },
    {
        if distance == 0 {
            return None;
        }
        pack_offset.checked_sub(distance)
    }
}

/// The header of an entry as it is decoded from a pack.
#[derive(Clone, Copy, Debug)]
pub struct Entry {
    /// What the entry holds.
    pub header: Header,
    /// The size of the entry once it is decompressed.
    pub decompressed_size: u64,
    /// Where in the pack the compressed bytes of the entry begin.
    pub data_offset: u64,
}

/// An entry of a pack as it is read from a stream.
#[derive(Debug)]
pub struct InputEntry {
    /// What the entry holds.
    pub header: Header,
    /// The number of bytes that the header takes in the pack.
    pub header_size: u16,
    /// Where in the pack the entry begins.
    pub pack_offset: u64,
    /// The compressed bytes, where they are kept.
    pub compressed: Option<Vec<u8>>,
    /// The number of compressed bytes.
    pub compressed_size: u64,
    /// The checksum over the header and the compressed bytes, where it is computed.
    pub crc32: Option<u32>,
    /// The size of the entry once it is decompressed.
    pub decompressed_size: u64,
    /// The hash over the whole pack, if this is the last entry.
    pub trailer: Option<ObjectId>,
}

impl InputEntry {
    /// The offset of the first byte behind the entry.
    pub open spec fn end(self) -> int {
        self.pack_offset + self.header_size + self.compressed_size
    }
}

} // verus!
