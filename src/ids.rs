//! Identifiers: the random 128-bit file id and the 256-bit chunk digest.
use vstd::prelude::*;

verus! {

/// The lowercase hexadecimal digit for `n` (`0 <= n < 16`).
pub open spec fn hex_digit(n: int) -> char {
    seq!['0', '1', '2', '3', '4', '5', '6', '7', '8', '9', 'a', 'b', 'c', 'd', 'e', 'f'][n]
}

/// The `k`-th four-bit group of `v`, counted from the most significant end.
pub open spec fn nibble(v: u128, k: int) -> int {
    (v as int / vstd::arithmetic::power2::pow2((4 * (31 - k)) as nat) as int) % 16
}

/// Number of hyphens in the canonical UUID text that stand before position `i`.
pub open spec fn hyphens_before(i: int) -> int {
    if i > 23 { 4 } else if i > 18 { 3 } else if i > 13 { 2 } else if i > 8 { 1 } else { 0 }
}

/// The canonical 8-4-4-4-12 lowercase hyphenated text of a 128-bit id.
pub open spec fn uuid_text(v: u128) -> Seq<char> {
    Seq::new(
        36,
        |i: int|
            if i == 8 || i == 13 || i == 18 || i == 23 {
                '-'
            } else {
                hex_digit(nibble(v, i - hyphens_before(i)))
            },
    )
}

/// What BLAKE3 gives for a byte sequence.
pub uninterp spec fn blake3_of(data: Seq<u8>) -> Seq<u8>;

/// Relies on `uuid::Uuid::new_v4`: a fresh random version-4 id, read as
/// its big-endian 128-bit value.
#[verifier::external_body]
fn random_uuid_v4() -> (r: u128) {
    uuid::Uuid::new_v4().as_u128()
}

/// Relies on `uuid::Uuid::from_u128` and the `Display` of `uuid::Uuid`:
/// the lowercase hyphenated form of the big-endian value.
#[verifier::external_body]
fn uuid_hyphenated(v: u128) -> (r: String)
    ensures
        r@ == uuid_text(v),
{
    uuid::Uuid::from_u128(v).to_string()
}

/// Relies on `blake3::hash` and `blake3::Hash::as_bytes`: the 32-byte
/// BLAKE3 digest of `data`.
#[verifier::external_body]
fn blake3_digest(data: &[u8]) -> (r: [u8; 32])
    ensures
        r@ == blake3_of(data@),
{
    *blake3::hash(data).as_bytes()
}

/// A stable identifier of a tracked file, kept for the file's lifetime even
/// when its path changes. It holds a random version-4 UUID.
#[derive(Clone, Copy, Debug, Hash, PartialEq, Eq, Structural)]
pub struct FileID {
    pub value: u128,
}

impl FileID {
    /// A new random id.
    pub fn new() -> (r: FileID) {
        FileID { value: random_uuid_v4() }
    }

    /// The id with the given 128-bit value.
    pub fn from_u128(value: u128) -> (r: FileID)
        ensures
            r.value == value,
    {
        FileID { value }
    }

    /// The 128-bit value of the id.
    pub fn as_u128(&self) -> (r: u128)
        ensures
            r == self.value,
    {
        self.value
    }

    /// The canonical hyphenated text of the id, as stored in the `files`
    /// and `file_sections` tables.
    pub fn to_string(&self) -> (r: String)
        ensures
            r@ == uuid_text(self.value),
    {
        uuid_hyphenated(self.value)
    }
}

impl Default for FileID {
    /// A new random id.
    fn default() -> (r: FileID) {
        FileID::new()
    }
}

/// The content address of a chunk: the BLAKE3 digest of its bytes.
#[derive(Clone, Copy, Debug, Hash, PartialEq, Eq)]
pub struct ChunkID {
    pub bytes: [u8; 32],
}

impl ChunkID {
    /// The id of the chunk whose bytes are `data`.
    pub fn of_bytes(data: &[u8]) -> (r: ChunkID)
        ensures
            r.bytes@ == blake3_of(data@),
    {
        ChunkID { bytes: blake3_digest(data) }
    }

    /// The id whose digest bytes are `bytes`.
    pub fn from_bytes(bytes: [u8; 32]) -> (r: ChunkID)
        ensures
            r.bytes == bytes,
    {
        ChunkID { bytes }
    }

    /// The raw 32 digest bytes.
    pub fn as_bytes(&self) -> (r: &[u8; 32])
        ensures
            *r == self.bytes,
    {
        &self.bytes
    }

    /// The digest bytes as a vector, the form the content store keeps.
    pub fn to_vec(&self) -> (r: Vec<u8>)
        ensures
            r@ == self.bytes@,
    {
        let mut r: Vec<u8> = Vec::new();
        let mut i: usize = 0;
        while i < 32
            invariant
                i <= 32,
                r@ == self.bytes@.subrange(0, i as int),
            decreases 32 - i,
        {
            r.push(self.bytes[i]);
            i += 1;
        }
        assert(r@ =~= self.bytes@);
        r
    }
}

} // verus!
