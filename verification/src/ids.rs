//! Identifiers: content hashes and segment ULIDs, held as plain integers.

use vstd::prelude::*;

verus! {

/// A 32-byte content hash, held as its two 16-byte halves read little-endian.
#[derive(Clone, Copy, Debug, PartialEq, Eq, PartialOrd, Ord, Hash, Structural)]
pub struct ContentHash {
    pub head: u128,
    pub tail: u128,
}

impl ContentHash {
    /// The hash that stands for a block of zeroes. A zero extent stores no
    /// body, so this value names no content.
    pub open spec fn is_zero(self) -> bool {
        self.head == 0 && self.tail == 0
    }

    /// The 32 bytes of the hash.
    pub open spec fn bytes(self) -> Seq<u8> {
        vstd::bytes::spec_u128_to_le_bytes(self.head) + vstd::bytes::spec_u128_to_le_bytes(
            self.tail,
        )
    }

    /// The hash that stands for a block of zeroes.
    pub fn zero() -> (h: Self)
        ensures
            h.is_zero(),
    {
        ContentHash { head: 0, tail: 0 }
    }

    /// The hash with these 32 bytes.
    pub fn from_bytes(bytes: &[u8; 32]) -> (h: Self)
        ensures
            h.bytes() == bytes@,
    {
        let all: &[u8] = bytes;
        let (head, tail) = all.split_at(16);
        let h = ContentHash {
            head: vstd::bytes::u128_from_le_bytes(head),
            tail: vstd::bytes::u128_from_le_bytes(tail),
        };
        proof {
            vstd::bytes::lemma_auto_spec_u128_to_from_le_bytes();
            assert(h.bytes() =~= bytes@);
        }
        h
    }

    /// The 32 bytes of the hash.
    pub fn to_bytes(&self) -> (bytes: Vec<u8>)
        ensures
            bytes@ == self.bytes(),
            bytes@.len() == 32,
    {
        let mut bytes = vstd::bytes::u128_to_le_bytes(self.head);
        let mut tail = vstd::bytes::u128_to_le_bytes(self.tail);
        bytes.append(&mut tail);
        bytes
    }

    /// Two hashes with the same bytes are the same.
    pub proof fn lemma_bytes_tell(a: ContentHash, b: ContentHash)
        requires
            a.bytes() == b.bytes(),
        ensures
            a == b,
    {
        vstd::bytes::lemma_auto_spec_u128_to_from_le_bytes();
        let ah = vstd::bytes::spec_u128_to_le_bytes(a.head);
        let bh = vstd::bytes::spec_u128_to_le_bytes(b.head);
        let at = vstd::bytes::spec_u128_to_le_bytes(a.tail);
        let bt = vstd::bytes::spec_u128_to_le_bytes(b.tail);
        assert(ah =~= a.bytes().subrange(0, 16));
        assert(bh =~= b.bytes().subrange(0, 16));
        assert(at =~= a.bytes().subrange(16, 32));
        assert(bt =~= b.bytes().subrange(16, 32));
    }
}

/// A ULID: 48 bits of milliseconds above 80 bits of randomness. ULIDs order
/// as the integers they are.
#[derive(Clone, Copy, Debug, PartialEq, Eq, PartialOrd, Ord, Hash, Structural)]
pub struct Ulid {
    pub value: u128,
}

// ---------------------------------------------------------------------------
// Hashing
// ---------------------------------------------------------------------------

/// The BLAKE3 digest of a byte string.
pub uninterp spec fn blake3_digest(bytes: Seq<u8>) -> Seq<u8>;

/// `blake3::hash`: the digest of `bytes`, which is 32 bytes long.
#[verifier::external_body]
fn blake3_hash(bytes: &[u8]) -> (digest: [u8; 32])
    ensures
        digest@ == blake3_digest(bytes@),
{
    *blake3::hash(bytes).as_bytes()
}

/// `h` is the content hash of `bytes`.
pub open spec fn hashes_to(bytes: Seq<u8>, h: ContentHash) -> bool {
    h.bytes() == blake3_digest(bytes)
}

/// The content hash of `bytes`.
pub fn content_hash(bytes: &[u8]) -> (h: ContentHash)
    ensures
        hashes_to(bytes@, h),
{
    ContentHash::from_bytes(&blake3_hash(bytes))
}

} // verus!
