//! Object ids: what they hold, how they are ordered, how they are written, and how they are computed.
use gix_hash::hasher::Error as HasherError;
use vstd::arithmetic::power::pow;
use vstd::prelude::*;

use crate::sort::Keyed;

verus! {

/// The hash function that produces an object id.
#[derive(Clone, Copy, Debug, PartialEq, Eq, Structural)]
pub enum HashKind {
    Sha1,
    Sha256,
}

impl HashKind {
    /// How many bytes an id of this kind takes.
    pub open spec fn len(self) -> nat {
        match self {
            HashKind::Sha1 => 20,
            HashKind::Sha256 => 32,
        }
    }

    /// Returns the number of bytes that an id of this kind takes.
    pub fn len_in_bytes(&self) -> (len: usize)
        ensures
            len == self.len(),
    {
        match self {
            HashKind::Sha1 => 20,
            HashKind::Sha256 => 32,
        }
    }

    /// The id of this kind whose bytes are all zero.
    pub fn null(&self) -> (id: ObjectId)
        ensures
            id.kind() == *self,
            id@ == Seq::new(self.len(), |i: int| 0u8),
    {
        match self {
            HashKind::Sha1 => {
                let bytes: [u8; 20] = [0u8;20];
                assert(bytes@ =~= Seq::new(20, |i: int| 0u8));
                ObjectId::Sha1(bytes)
            },
            HashKind::Sha256 => {
                let bytes: [u8; 32] = [0u8;32];
                assert(bytes@ =~= Seq::new(32, |i: int| 0u8));
                ObjectId::Sha256(bytes)
            },
        }
    }
}

/// The kind of an object.
#[derive(Clone, Copy, Debug, PartialEq, Eq, Structural)]
pub enum ObjectKind {
    Tree,
    Blob,
    Commit,
    Tag,
}

/// The number that `bytes` spell in base 256, most significant byte first.
pub open spec fn be_value(bytes: Seq<u8>) -> nat
    decreases bytes.len(),
{
    if bytes.len() == 0 {
        0
    } else {
        be_value(bytes.drop_last()) * 256 + bytes.last() as nat
    }
}

/// `a` comes before `b` in lexicographic order: they agree up to some place, where `a` has the
/// smaller byte.
pub open spec fn lexicographic(a: Seq<u8>, b: Seq<u8>) -> bool {
    exists|place: int|
        #![trigger a.take(place)]
        0 <= place < a.len() && place < b.len() && a.take(place) == b.take(place) && a[place]
            < b[place]
}

/// An id that names an object by the hash of its content.
#[derive(Clone, Copy, Debug, PartialOrd, Ord, Hash)]
pub enum ObjectId {
    Sha1([u8; 20]),
    Sha256([u8; 32]),
}

impl View for ObjectId {
    type V = Seq<u8>;

    /// The bytes of the id.
    open spec fn view(&self) -> Seq<u8> {
        match self {
            ObjectId::Sha1(bytes) => bytes@,
            ObjectId::Sha256(bytes) => bytes@,
        }
    }
}

impl ObjectId {
    /// The hash function that the id comes from.
    pub open spec fn kind(&self) -> HashKind {
        match self {
            ObjectId::Sha1(_) => HashKind::Sha1,
            ObjectId::Sha256(_) => HashKind::Sha256,
        }
    }

    /// The id of kind `kind` with the bytes of `digest`.
    pub fn from_digest(kind: HashKind, digest: &Vec<u8>) -> (id: ObjectId)
        requires
            digest@.len() == kind.len(),
        ensures
            id.kind() == kind,
            id@ == digest@,
    {
        match kind {
            HashKind::Sha1 => {
                let mut bytes: [u8; 20] = [0u8;20];
                for i in 0..20usize
                    invariant
                        digest@.len() == 20,
                        forall|j: int| 0 <= j < i ==> bytes@[j] == digest@[j],
                {
                    bytes[i] = digest[i];
                }
                assert(bytes@ =~= digest@);
                ObjectId::Sha1(bytes)
            },
            HashKind::Sha256 => {
                let mut bytes: [u8; 32] = [0u8;32];
                for i in 0..32usize
                    invariant
                        digest@.len() == 32,
                        forall|j: int| 0 <= j < i ==> bytes@[j] == digest@[j],
                {
                    bytes[i] = digest[i];
                }
                assert(bytes@ =~= digest@);
                ObjectId::Sha256(bytes)
            },
        }
    }

    /// The bytes of the id.
    pub fn as_slice(&self) -> (bytes: &[u8])
        ensures
            bytes@ == self@,
    {
        match self {
            ObjectId::Sha1(bytes) => bytes.as_slice(),
            ObjectId::Sha256(bytes) => bytes.as_slice(),
        }
    }

    /// Whether both ids are the same.
    pub fn same(&self, other: &ObjectId) -> (equal: bool)
        ensures
            equal == (*self == *other),
    {
        let equal = !self.precedes(other) && !other.precedes(self);
        proof {
            if equal {
                lemma_key_is_unique(*self, *other);
            }
        }
        equal
    }

    /// The id in lower-case hexadecimal digits.
    pub fn to_hex(&self) -> (hex: String)
        ensures
            hex@ == spec_hex(self@),
    {
        let bytes = self.as_slice();
        let mut hex = String::new();
        for i in 0..bytes.len()
            invariant
                bytes@ == self@,
                hex@ == spec_hex(bytes@.take(i as int)),
        {
            let byte = bytes[i];
            hex.push(hex_digit(byte / 16));
            hex.push(hex_digit(byte % 16));
            assert(hex@ =~= spec_hex(bytes@.take(i + 1)));
        }
        assert(bytes@.take(bytes@.len() as int) =~= bytes@);
        hex
    }
}

impl PartialEq for ObjectId {
    fn eq(&self, other: &ObjectId) -> (equal: bool) {
        self.same(other)
    }
}

impl vstd::std_specs::cmp::PartialEqSpecImpl for ObjectId {
    open spec fn obeys_eq_spec() -> bool {
        true
    }

    open spec fn eq_spec(&self, other: &ObjectId) -> bool {
        *self == *other
    }
}

impl Eq for ObjectId {

}

impl Keyed for ObjectId {
    /// Ids are ordered by kind, and those of one kind by the number that their bytes spell.
    open spec fn key(&self) -> int {
        match self {
            ObjectId::Sha1(bytes) => be_value(bytes@) as int,
            ObjectId::Sha256(bytes) => pow(256, 20) + be_value(bytes@),
        }
    }

    fn precedes(&self, other: &ObjectId) -> (before: bool) {
        proof {
            lemma_be_value_bound(self@);
            lemma_be_value_bound(other@);
        }
        match (self, other) {
            (ObjectId::Sha1(a), ObjectId::Sha1(b)) => bytes_precede(a.as_slice(), b.as_slice()),
            (ObjectId::Sha1(_), ObjectId::Sha256(_)) => true,
            (ObjectId::Sha256(_), ObjectId::Sha1(_)) => false,
            (ObjectId::Sha256(a), ObjectId::Sha256(b)) => bytes_precede(a.as_slice(), b.as_slice()),
        }
    }
}

fn bytes_precede(a: &[u8], b: &[u8]) -> (before: bool)
    requires
        a@.len() == b@.len(),
    ensures
        before == (be_value(a@) < be_value(b@)),
{
    for i in 0..a.len()
        invariant
            a@.len() == b@.len(),
            forall|j: int| 0 <= j < i ==> a@[j] == b@[j],
    {
        if a[i] != b[i] {
            proof {
                assert(a@.take(i as int) =~= b@.take(i as int));
                if a@[i as int] < b@[i as int] {
                    lemma_be_value_less(a@, b@, i as int);
                } else {
                    lemma_be_value_less(b@, a@, i as int);
                }
            }
            return a[i] < b[i];
        }
    }
    assert(a@ =~= b@);
    false
}

proof fn lemma_be_value_less(a: Seq<u8>, b: Seq<u8>, place: int)
    requires
        a.len() == b.len(),
        0 <= place < a.len(),
        a.take(place) == b.take(place),
        a[place] < b[place],
    ensures
        be_value(a) < be_value(b),
    decreases a.len(),
{
    if place == a.len() - 1 {
        assert(a.drop_last() =~= a.take(place));
        assert(b.drop_last() =~= b.take(place));
    } else {
        assert(a.drop_last().take(place) =~= a.take(place));
        assert(b.drop_last().take(place) =~= b.take(place));
        lemma_be_value_less(a.drop_last(), b.drop_last(), place);
    }
}

proof fn lemma_be_value_bound(bytes: Seq<u8>)
    ensures
        be_value(bytes) < pow(256, bytes.len()),
    decreases bytes.len(),
{
    reveal(pow);
    if bytes.len() > 0 {
        lemma_be_value_bound(bytes.drop_last());
        let rest = pow(256, (bytes.len() - 1) as nat);
        assert(pow(256, bytes.len()) == 256 * rest);
    }
}

proof fn lemma_be_value_unique(a: Seq<u8>, b: Seq<u8>)
    requires
        a.len() == b.len(),
        be_value(a) == be_value(b),
    ensures
        a == b,
    decreases a.len(),
{
    if a.len() > 0 {
        lemma_be_value_unique(a.drop_last(), b.drop_last());
        assert(a =~= a.drop_last().push(a.last()));
        assert(b =~= b.drop_last().push(b.last()));
    } else {
        assert(a =~= b);
    }
}

/// No two ids have the same place in the order.
pub proof fn lemma_key_is_unique(a: ObjectId, b: ObjectId)
    requires
        a.key() == b.key(),
    ensures
        a == b,
{
    lemma_be_value_bound(a@);
    lemma_be_value_bound(b@);
    match (a, b) {
        (ObjectId::Sha1(x), ObjectId::Sha1(y)) => {
            lemma_be_value_unique(x@, y@);
            assert forall|i: int| 0 <= i < 20 implies x[i] == y[i] by {
                assert(x@[i] == y@[i]);
            }
            assert(x =~= y);
        },
        (ObjectId::Sha256(x), ObjectId::Sha256(y)) => {
            lemma_be_value_unique(x@, y@);
            assert forall|i: int| 0 <= i < 32 implies x[i] == y[i] by {
                assert(x@[i] == y@[i]);
            }
            assert(x =~= y);
        },
        _ => {},
    }
}

/// An id is determined by its kind and its bytes.
pub proof fn lemma_id_is_its_bytes(a: ObjectId, b: ObjectId)
    requires
        a.kind() == b.kind(),
        a@ == b@,
    ensures
        a == b,
{
    lemma_key_is_unique(a, b);
}

/// Ids of one kind are ordered as their bytes are in lexicographic order.
pub proof fn lemma_order_is_lexicographic(a: ObjectId, b: ObjectId)
    requires
        a.kind() == b.kind(),
    ensures
        a.key() < b.key() <==> lexicographic(a@, b@),
{
    if lexicographic(a@, b@) {
        let place = choose|place: int|
            #![trigger a@.take(place)]
            0 <= place < a@.len() && place < b@.len() && a@.take(place) == b@.take(place)
                && a@[place] < b@[place];
        lemma_be_value_less(a@, b@, place);
    }
    if a.key() < b.key() {
        assert(a@.take(0) =~= b@.take(0));
        lemma_first_difference(a@, b@, 0);
    }
}

proof fn lemma_first_difference(a: Seq<u8>, b: Seq<u8>, from: int)
    requires
        a.len() == b.len(),
        be_value(a) < be_value(b),
        0 <= from <= a.len(),
        a.take(from) == b.take(from),
    ensures
        lexicographic(a, b),
    decreases a.len() - from,
{
    if from == a.len() {
        assert(a.take(from) =~= a);
        assert(b.take(from) =~= b);
    } else if a[from] == b[from] {
        assert(a.take(from + 1) =~= a.take(from).push(a[from]));
        assert(b.take(from + 1) =~= b.take(from).push(b[from]));
        lemma_first_difference(a, b, from + 1);
    } else if a[from] > b[from] {
        lemma_be_value_less(b, a, from);
    }
}

/// The hexadecimal digit for a number below sixteen.
pub open spec fn spec_hex_digit(value: int) -> char {
    if value < 10 {
        (48 + value) as char
    } else {
        (87 + value) as char
    }
}

/// Two lower-case hexadecimal digits for each byte.
pub open spec fn spec_hex(bytes: Seq<u8>) -> Seq<char> {
    Seq::new(
        2 * bytes.len(),
        |i: int|
            if i % 2 == 0 {
                spec_hex_digit(bytes[i / 2] as int / 16)
            } else {
                spec_hex_digit(bytes[i / 2] as int % 16)
            },
    )
}

/// The number that a lower-case hexadecimal digit stands for.
pub open spec fn hex_value(digit: char) -> int {
    if '0' <= digit <= '9' {
        digit as int - '0' as int
    } else {
        digit as int - 'a' as int + 10
    }
}

/// What is written in hexadecimal digits reads back: there are two digits for each byte, in the order of
/// the bytes, the first for its upper half and the second for its lower half, and letters are in lower
/// case.
pub proof fn lemma_hex_reads_back(bytes: Seq<u8>)
    ensures
        spec_hex(bytes).len() == 2 * bytes.len(),
        forall|i: int|
            0 <= i < 2 * bytes.len() ==> {
                let digit = #[trigger] spec_hex(bytes)[i];
                '0' <= digit <= '9' || 'a' <= digit <= 'f'
            },
        forall|i: int|
            0 <= i < bytes.len() ==> 16 * hex_value(spec_hex(bytes)[2 * i]) + hex_value(
                spec_hex(bytes)[2 * i + 1],
            ) == #[trigger] bytes[i],
{
    assert forall|i: int| 0 <= i < bytes.len() implies 16 * hex_value(spec_hex(bytes)[2 * i])
        + hex_value(spec_hex(bytes)[2 * i + 1]) == #[trigger] bytes[i] by {
        assert((2 * i) / 2 == i && (2 * i) % 2 == 0);
        assert((2 * i + 1) / 2 == i && (2 * i + 1) % 2 == 1);
    }
}

fn hex_digit(value: u8) -> (digit: char)
    requires
        value < 16,
    ensures
        digit == spec_hex_digit(value as int),
{
    if value < 10 {
        (48 + value) as char
    } else {
        (87 + value) as char
    }
}

/// The error of a hash function that has detected an attempted collision, as `gix_hash` reports it.
#[verifier::external_type_specification]
#[verifier::external_body]
pub struct ExHasherError(HasherError);

/// The bytes of the id that `gix_object::compute_hash` gives to an object, or `None` where it
/// detects an attempted collision.
pub uninterp spec fn object_digest(hash: HashKind, kind: ObjectKind, data: Seq<u8>) -> Option<
    Seq<u8>,
>;

/// The bytes of the hash that a `gix_hash::Hasher` computes of `data`, or `None` where it detects an
/// attempted collision.
pub uninterp spec fn digest(hash: HashKind, data: Seq<u8>) -> Option<Seq<u8>>;

/// Calls `gix_object::compute_hash`. Nothing is claimed of the digest but that it depends on the
/// arguments alone and has the length of its kind, and that the call fails exactly where there is
/// no digest.
#[verifier::external_body]
fn outside_compute_hash(hash: HashKind, kind: ObjectKind, data: &[u8]) -> (result: Result<
    Vec<u8>,
    HasherError,
>)
    ensures
        match result {
            Ok(bytes) => object_digest(hash, kind, data@) == Some(bytes@) && bytes@.len()
                == hash.len(),
            Err(_) => object_digest(hash, kind, data@) is None,
        },
{
    let hash = match hash {
        HashKind::Sha1 => gix_hash::Kind::Sha1,
        HashKind::Sha256 => gix_hash::Kind::Sha256,
    };
    let kind = match kind {
        ObjectKind::Tree => gix_object::Kind::Tree,
        ObjectKind::Blob => gix_object::Kind::Blob,
        ObjectKind::Commit => gix_object::Kind::Commit,
        ObjectKind::Tag => gix_object::Kind::Tag,
    };
    gix_object::compute_hash(hash, kind, data).map(|id| id.as_slice().to_vec())
}

/// Feeds `data` to the hasher that `gix_hash::hasher` returns and finalizes it. Nothing is claimed
/// of the digest but that it depends on the arguments alone and has the length of its kind, and
/// that the call fails exactly where there is no digest.
#[verifier::external_body]
fn outside_hash(hash: HashKind, data: &[u8]) -> (result: Result<Vec<u8>, HasherError>)
    ensures
        match result {
            Ok(bytes) => digest(hash, data@) == Some(bytes@) && bytes@.len() == hash.len(),
            Err(_) => digest(hash, data@) is None,
        },
{
    let mut hasher = gix_hash::hasher(match hash {
        HashKind::Sha1 => gix_hash::Kind::Sha1,
        HashKind::Sha256 => gix_hash::Kind::Sha256,
    });
    hasher.update(data);
    hasher.try_finalize().map(|id| id.as_slice().to_vec())
}

/// Raised where a hash function detects that its input was crafted to collide with another.
#[derive(Clone, Copy, Debug, PartialEq, Eq, Structural)]
pub struct CollisionAttack;

/// Computes the id of an object of the given kind with content `data`.
pub fn compute_hash(hash: HashKind, kind: ObjectKind, data: &[u8]) -> (result: Result<
    ObjectId,
    CollisionAttack,
>)
    ensures
        match result {
            Ok(id) => object_digest(hash, kind, data@) == Some(id@) && id.kind() == hash,
            Err(_) => object_digest(hash, kind, data@) is None,
        },
{
    match outside_compute_hash(hash, kind, data) {
        Ok(bytes) => Ok(ObjectId::from_digest(hash, &bytes)),
        Err(_) => Err(CollisionAttack),
    }
}

/// Computes the hash of `data`.
pub fn hash_bytes(hash: HashKind, data: &[u8]) -> (result: Result<ObjectId, CollisionAttack>)
    ensures
        match result {
            Ok(id) => digest(hash, data@) == Some(id@) && id.kind() == hash,
            Err(_) => digest(hash, data@) is None,
        },
{
    match outside_hash(hash, data) {
        Ok(bytes) => Ok(ObjectId::from_digest(hash, &bytes)),
        Err(_) => Err(CollisionAttack),
    }
}

/// `String::push` appends the character to the end of the string.
pub assume_specification[ String::push ](s: &mut String, c: char)
    ensures
        final(s)@ == old(s)@.push(c),
;

} // verus!
