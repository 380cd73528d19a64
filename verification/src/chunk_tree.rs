//! Chunk by chunk verification against an extent's own BLAKE3 hash.
//!
//! The hash of an extent is the root of a tree over its bytes. A slice at a
//! multiple of a [`ChunkSize`] is a subtree of that tree, with a chaining
//! value that goes into the root. A reader that has the chaining value of
//! every slice decodes one slice, works out the root again, and compares it
//! with the hash it trusts.

use std::ops::Range;

use vstd::prelude::*;

use crate::ids::{blake3_digest, ContentHash};
use crate::text::{chars_of, decimal, decimal_chars, extend_chars, hex_chars, hex_text, string_of};

verus! {

// ---------------------------------------------------------------------------
// BLAKE3 subtrees
// ---------------------------------------------------------------------------

/// Two to the `n`th.
pub open spec fn two_to(n: nat) -> int
    decreases n,
{
    if n == 0 {
        1
    } else {
        2 * two_to((n - 1) as nat)
    }
}

/// The largest power of two below `len`.
pub open spec fn left_len(len: int) -> int
    decreases len,
{
    if len <= 2 {
        1
    } else {
        2 * left_len((len + 1) / 2)
    }
}

/// `len` bytes at `offset` of an input can be a subtree of its tree: an offset
/// other than zero is a multiple of a power of two that is no smaller.
pub open spec fn fits_subtree(offset: int, len: int) -> bool {
    offset == 0 || exists|k: nat| k >= 10 && len <= #[trigger] two_to(k) && offset % two_to(k) == 0
}

/// The chaining value of the subtree of these bytes at `offset` of the input.
pub uninterp spec fn subtree_cv(offset: int, bytes: Seq<u8>) -> Seq<u8>;

/// The chaining value of the parent of two subtrees.
pub uninterp spec fn parent_cv(left: Seq<u8>, right: Seq<u8>) -> Seq<u8>;

/// The root hash of two subtrees.
pub uninterp spec fn root_hash(left: Seq<u8>, right: Seq<u8>) -> Seq<u8>;

/// `left` and `right` are the chaining values of the two subtrees that these
/// bytes at `offset` divide into.
pub open spec fn are_subtrees(
    left: Seq<u8>,
    right: Seq<u8>,
    offset: int,
    bytes: Seq<u8>,
) -> bool {
    let l = left_len(bytes.len() as int);
    &&& left == subtree_cv(offset, bytes.take(l))
    &&& right == subtree_cv(offset + l, bytes.skip(l))
}

/// `blake3::hazmat::HasherExt::finalize_non_root`: the chaining value of the
/// subtree that `bytes` are at `offset` of an input, a function of the two.
#[verifier::external_body]
fn hash_subtree(offset: u64, bytes: &[u8]) -> (cv: [u8; 32])
    requires
        offset % 1024 == 0,
        bytes@.len() > 0,
        fits_subtree(offset as int, bytes@.len() as int),
    ensures
        cv@ == subtree_cv(offset as int, bytes@),
{
    let mut hasher = blake3::Hasher::new();
    blake3::hazmat::HasherExt::set_input_offset(&mut hasher, offset);
    hasher.update(bytes);
    blake3::hazmat::HasherExt::finalize_non_root(&hasher)
}

/// `blake3::hazmat::left_subtree_len`: how many of `len` bytes, more than one
/// chunk of BLAKE3, are in the left subtree.
#[verifier::external_body]
fn left_subtree_len(len: u64) -> (l: u64)
    requires
        1024 < len <= 0x8000_0000_0000_0000,
    ensures
        l == left_len(len as int),
{
    blake3::hazmat::left_subtree_len(len)
}

/// `blake3::hazmat::merge_subtrees_non_root`: the chaining value of the parent
/// of two subtrees, a function of the two. Of the two subtrees that some bytes
/// divide into it is the chaining value of those bytes.
#[verifier::external_body]
fn merge_non_root(left: &[u8; 32], right: &[u8; 32]) -> (cv: [u8; 32])
    ensures
        cv@ == parent_cv(left@, right@),
        forall|offset: int, bytes: Seq<u8>|
            bytes.len() > 1024 && offset >= 0 && offset % 1024 == 0 && fits_subtree(
                offset,
                bytes.len() as int,
            ) && are_subtrees(left@, right@, offset, bytes) ==> cv@ == #[trigger] subtree_cv(
                offset,
                bytes,
            ),
{
    blake3::hazmat::merge_subtrees_non_root(left, right, blake3::hazmat::Mode::Hash)
}

/// `blake3::hazmat::merge_subtrees_root`: the root hash of two subtrees, a
/// function of the two. Of the two subtrees that a whole input divides into it
/// is the hash of that input.
#[verifier::external_body]
fn merge_root(left: &[u8; 32], right: &[u8; 32]) -> (hash: [u8; 32])
    ensures
        hash@ == root_hash(left@, right@),
        forall|bytes: Seq<u8>|
            bytes.len() > 1024 && are_subtrees(left@, right@, 0, bytes) ==> hash@
                == #[trigger] blake3_digest(bytes),
{
    *blake3::hazmat::merge_subtrees_root(left, right, blake3::hazmat::Mode::Hash).as_bytes()
}

// ---------------------------------------------------------------------------
// Arithmetic
// ---------------------------------------------------------------------------

proof fn lemma_two_to(n: nat)
    ensures
        two_to(n) >= 1,
    decreases n,
{
    if n > 0 {
        lemma_two_to((n - 1) as nat);
    }
}

proof fn lemma_two_to_divides(a: nat, b: nat)
    requires
        a <= b,
    ensures
        two_to(b) % two_to(a) == 0,
        two_to(a) <= two_to(b),
    decreases b,
{
    lemma_two_to(a);
    if a == b {
        assert(two_to(b) % two_to(a) == 0) by (nonlinear_arith)
            requires
                two_to(a) == two_to(b),
                two_to(a) >= 1,
        ;
    } else {
        lemma_two_to_divides(a, (b - 1) as nat);
        let (x, y) = (two_to((b - 1) as nat), two_to(a));
        lemma_two_to((b - 1) as nat);
        assert((2 * x) % y == 0) by (nonlinear_arith)
            requires
                x % y == 0,
                y >= 1,
        {
            let q = x / y;
            vstd::arithmetic::div_mod::lemma_fundamental_div_mod(x, y);
            assert(2 * x == y * (2 * q));
            vstd::arithmetic::div_mod::lemma_mod_multiples_basic(2 * q, y);
        }
    }
}

proof fn lemma_left_len(len: int) -> (m: nat)
    requires
        len >= 2,
    ensures
        left_len(len) == two_to(m),
        left_len(len) < len <= 2 * left_len(len),
    decreases len,
{
    if len == 2 {
        assert(two_to(0) == 1);
        0
    } else {
        let m = lemma_left_len((len + 1) / 2);
        assert(two_to(m + 1) == 2 * two_to(m));
        m + 1
    }
}

proof fn lemma_two_to_order(a: nat, b: nat)
    requires
        two_to(a) < 2 * two_to(b),
    ensures
        a <= b,
{
    if a > b {
        lemma_two_to_divides(b + 1, a);
    }
}

// ---------------------------------------------------------------------------
// Chunks
// ---------------------------------------------------------------------------

/// The smallest chunk a table may declare, as its log2: that of BLAKE3.
pub const MIN_LOG2: u8 = 10;

/// The largest chunk a table may declare, as its log2.
pub const MAX_LOG2: u8 = 28;

/// The chunk of the write path, as its log2.
pub const WRITE_CHUNK_LOG2: u8 = 17;

/// Why a chunk or a table is refused.
#[derive(Clone, Debug)]
pub enum ChunkError {
    /// The table declares a chunk of this log2.
    SizeOutOfRange { log2: u8 },
    /// The table has not as many chaining values as the extent has chunks.
    CountMismatch { held: usize, plain_len: usize, chunk_bytes: usize, expected: usize },
    /// The root of a lone chunk is not worked out from its chaining value.
    SingleChunk,
    /// The chunk is past the table.
    PastTable { index: usize },
    /// The chunk gives another extent hash than the one trusted.
    WrongRoot { index: usize, root: ContentHash, expected: ContentHash },
    /// The payload is too short for a table's header.
    MissingHeader,
    /// The payload is shorter than its table.
    ShortTable,
}

impl ChunkError {
    /// What is wrong, in words.
    pub open spec fn words(&self) -> Seq<char> {
        match self {
            ChunkError::SizeOutOfRange { log2 } => "chunk table declares a chunk of 2^"@ + decimal(
                *log2 as nat,
            ) + " bytes, outside 2^10..=2^28"@,
            ChunkError::CountMismatch { held, plain_len, chunk_bytes, expected } =>
                "chunk table holds "@ + decimal(*held as nat) + " chaining values for "@ + decimal(
                *plain_len as nat,
            ) + " bytes of plaintext at a "@ + decimal(*chunk_bytes as nat)
                + "-byte chunk, expected "@ + decimal(*expected as nat),
            ChunkError::SingleChunk => "an extent of one chunk has no root hash to reconstruct"@,
            ChunkError::PastTable { index } => "chunk "@ + decimal(*index as nat)
                + " is past the chunk table"@,
            ChunkError::WrongRoot { index, root, expected } => "chunk "@ + decimal(*index as nat)
                + " reconstructs extent hash "@ + hex_text(root.bytes()) + " instead of "@
                + hex_text(expected.bytes()),
            ChunkError::MissingHeader => "chunked payload missing its table header"@,
            ChunkError::ShortTable => "chunked payload shorter than its table"@,
        }
    }

    /// What is wrong, in words.
    pub fn message(&self) -> (s: String)
        ensures
            s@ == self.words(),
    {
        let mut text: Vec<char> = Vec::new();
        match self {
            ChunkError::SizeOutOfRange { log2 } => {
                push_words(&mut text, "chunk table declares a chunk of 2^");
                push_number(&mut text, *log2 as usize);
                push_words(&mut text, " bytes, outside 2^10..=2^28");
            },
            ChunkError::CountMismatch { held, plain_len, chunk_bytes, expected } => {
                push_words(&mut text, "chunk table holds ");
                push_number(&mut text, *held);
                push_words(&mut text, " chaining values for ");
                push_number(&mut text, *plain_len);
                push_words(&mut text, " bytes of plaintext at a ");
                push_number(&mut text, *chunk_bytes);
                push_words(&mut text, "-byte chunk, expected ");
                push_number(&mut text, *expected);
            },
            ChunkError::SingleChunk => {
                push_words(&mut text, "an extent of one chunk has no root hash to reconstruct");
            },
            ChunkError::PastTable { index } => {
                push_words(&mut text, "chunk ");
                push_number(&mut text, *index);
                push_words(&mut text, " is past the chunk table");
            },
            ChunkError::WrongRoot { index, root, expected } => {
                push_words(&mut text, "chunk ");
                push_number(&mut text, *index);
                push_words(&mut text, " reconstructs extent hash ");
                let digits = hex_chars(root.to_bytes().as_slice());
                extend_chars(&mut text, digits.as_slice());
                push_words(&mut text, " instead of ");
                let digits = hex_chars(expected.to_bytes().as_slice());
                extend_chars(&mut text, digits.as_slice());
            },
            ChunkError::MissingHeader => {
                push_words(&mut text, "chunked payload missing its table header");
            },
            ChunkError::ShortTable => {
                push_words(&mut text, "chunked payload shorter than its table");
            },
        }
        assert(text@ =~= self.words());
        string_of(text.as_slice())
    }
}

fn push_words(text: &mut Vec<char>, words: &str)
    ensures
        final(text)@ == old(text)@ + words@,
{
    let more = chars_of(words);
    extend_chars(text, more.as_slice());
}

fn push_number(text: &mut Vec<char>, n: usize)
    ensures
        final(text)@ == old(text)@ + decimal(n as nat),
{
    let more = decimal_chars(n as u64);
    extend_chars(text, more.as_slice());
}

/// Bytes of plaintext in a chunk, held as its log2: a power of two from one
/// chunk of BLAKE3 up.
#[derive(Clone, Copy, Debug, PartialEq, Eq, Structural)]
pub struct ChunkSize {
    log2: u8,
}

/// How many chunks of `size` bytes `len` bytes divide into.
pub open spec fn chunk_count(len: int, size: int) -> int {
    (len + size - 1) / size
}

/// The bytes of chunk `i`.
pub open spec fn chunk_of(plain: Seq<u8>, i: int, size: int) -> Seq<u8> {
    plain.subrange(
        i * size,
        if (i + 1) * size < plain.len() {
            (i + 1) * size
        } else {
            plain.len() as int
        },
    )
}

/// The chaining values of some arrays.
pub open spec fn cv_seqs(cvs: Seq<[u8; 32]>) -> Seq<Seq<u8>> {
    cvs.map_values(|c: [u8; 32]| c@)
}

/// `cvs` are the chaining values of the chunks of `plain`, which is at
/// `offset` of an input.
pub open spec fn are_chunk_cvs(
    cvs: Seq<Seq<u8>>,
    offset: int,
    plain: Seq<u8>,
    size: int,
) -> bool {
    &&& cvs.len() == chunk_count(plain.len() as int, size)
    &&& forall|i: int|
        0 <= i < cvs.len() ==> #[trigger] cvs[i] == subtree_cv(
            offset + i * size,
            chunk_of(plain, i, size),
        )
}

/// `cvs` are the chaining values of the chunks of `plain`, but for what stands
/// at `index`.
pub open spec fn are_other_cvs(
    cvs: Seq<Seq<u8>>,
    index: int,
    plain: Seq<u8>,
    size: int,
) -> bool {
    &&& cvs.len() == chunk_count(plain.len() as int, size)
    &&& forall|i: int|
        0 <= i < cvs.len() && i != index ==> #[trigger] cvs[i] == subtree_cv(
            i * size,
            chunk_of(plain, i, size),
        )
}

/// The chaining value of the tree over the chunks' chaining values, for `len`
/// bytes.
pub open spec fn tree_cv(cvs: Seq<Seq<u8>>, len: int, size: int) -> Seq<u8>
    decreases cvs.len(),
{
    let l = left_len(len);
    let k = l / size;
    if cvs.len() <= 1 || k <= 0 || k >= cvs.len() {
        cvs[0]
    } else {
        parent_cv(tree_cv(cvs.take(k), l, size), tree_cv(cvs.skip(k), len - l, size))
    }
}

/// The root hash of the tree over the chunks' chaining values.
pub open spec fn tree_root(cvs: Seq<Seq<u8>>, len: int, size: int) -> Seq<u8> {
    let l = left_len(len);
    let k = l / size;
    root_hash(tree_cv(cvs.take(k), l, size), tree_cv(cvs.skip(k), len - l, size))
}

proof fn lemma_count(len: int, size: int, n: int)
    requires
        size >= 1,
        len >= 0,
        n == chunk_count(len, size),
    ensures
        n >= 0,
        n * size >= len,
        len > 0 ==> n >= 1 && (n - 1) * size < len,
        len == 0 ==> n == 0,
        n >= 2 ==> len > size,
        n <= 1 ==> len <= size,
{
    let t = len + size - 1;
    vstd::arithmetic::div_mod::lemma_fundamental_div_mod(t, size);
    assert(0 <= t % size < size) by {
        vstd::arithmetic::div_mod::lemma_mod_bound(t, size);
    }
    assert(t == size * n + t % size);
    assert(n >= 0) by (nonlinear_arith)
        requires
            size * n > t - size,
            t >= size - 1,
            size >= 1,
    ;
    assert(n * size >= len) by (nonlinear_arith)
        requires
            t == size * n + t % size,
            t == len + size - 1,
            t % size < size,
    ;
    assert((n - 1) * size == size * n - size) by (nonlinear_arith);
    assert(len > 0 ==> n >= 1) by (nonlinear_arith)
        requires
            n * size >= len,
            size >= 1,
            n >= 0,
    ;
    assert(len == 0 ==> n == 0) by (nonlinear_arith)
        requires
            t == size * n + t % size,
            t == len + size - 1,
            t % size >= 0,
            n >= 0,
            size >= 1,
    ;
    assert(n >= 2 ==> (n - 1) * size >= size) by (nonlinear_arith)
        requires
            size >= 1,
    ;
    assert(n <= 1 ==> n * size <= size) by (nonlinear_arith)
        requires
            size >= 1,
    ;
}

/// Where more than one chunk divides, the left subtree is whole chunks.
proof fn lemma_split(len: int, log2: nat) -> (m: nat)
    requires
        len > two_to(log2),
        log2 >= 10,
    ensures
        left_len(len) == two_to(m),
        m >= log2,
        left_len(len) < len <= 2 * left_len(len),
        left_len(len) % two_to(log2) == 0,
        1 <= left_len(len) / two_to(log2) < chunk_count(len, two_to(log2)),
        (left_len(len) / two_to(log2)) * two_to(log2) == left_len(len),
        chunk_count(left_len(len), two_to(log2)) == left_len(len) / two_to(log2),
        chunk_count(len - left_len(len), two_to(log2)) == chunk_count(len, two_to(log2))
            - left_len(len) / two_to(log2),
{
    let size = two_to(log2);
    lemma_two_to(log2);
    let m = lemma_left_len(len);
    let l = left_len(len);
    lemma_two_to_order(log2, m);
    lemma_two_to_divides(log2, m);
    let k = l / size;
    vstd::arithmetic::div_mod::lemma_fundamental_div_mod(l, size);
    assert(k * size == l) by (nonlinear_arith)
        requires
            l == size * k + l % size,
            l % size == 0,
    ;
    assert(k >= 1) by (nonlinear_arith)
        requires
            k * size == l,
            l >= 1,
            size >= 1,
    ;
    let n = chunk_count(len, size);
    lemma_count(len, size, n);
    assert(k < n) by (nonlinear_arith)
        requires
            k * size == l,
            l < len,
            n * size >= len,
            size >= 1,
    ;
    assert(l + size - 1 == size * k + (size - 1)) by (nonlinear_arith)
        requires
            k * size == l,
    ;
    vstd::arithmetic::div_mod::lemma_fundamental_div_mod_converse(l + size - 1, size, k, size - 1);
    let t = len + size - 1;
    vstd::arithmetic::div_mod::lemma_fundamental_div_mod(t, size);
    vstd::arithmetic::div_mod::lemma_mod_bound(t, size);
    assert(t - l == size * (n - k) + t % size) by (nonlinear_arith)
        requires
            t == size * n + t % size,
            k * size == l,
    ;
    vstd::arithmetic::div_mod::lemma_fundamental_div_mod_converse(t - l, size, n - k, t % size);
    m
}

proof fn lemma_parts_fit(offset: int, len: int, log2: nat)
    requires
        offset >= 0,
        fits_subtree(offset, len),
        len > two_to(log2),
        log2 >= 10,
    ensures
        fits_subtree(offset, left_len(len)),
        fits_subtree(offset + left_len(len), len - left_len(len)),
        offset % 1024 == 0 ==> (offset + left_len(len)) % 1024 == 0,
{
    let m = lemma_split(len, log2);
    let l = left_len(len);
    assert(two_to(10) == 1024) by {
        reveal_with_fuel(two_to, 11);
    }
    lemma_two_to_divides(10, m);
    lemma_two_to(m);
    if offset == 0 {
        assert(l % two_to(m) == 0) by (nonlinear_arith)
            requires
                l == two_to(m),
                two_to(m) >= 1,
        ;
        assert(len - l <= two_to(m));
    } else {
        let k = choose|k: nat|
            k >= 10 && len <= #[trigger] two_to(k) && offset % two_to(k) == 0;
        assert(l <= two_to(k));
        lemma_two_to_order(m, k);
        lemma_two_to_divides(m, k);
        lemma_two_to(k);
        let (p, q) = (two_to(k), two_to(m));
        // A multiple of the larger power is one of the smaller.
        assert(offset % q == 0) by {
            vstd::arithmetic::div_mod::lemma_fundamental_div_mod(offset, p);
            vstd::arithmetic::div_mod::lemma_fundamental_div_mod(p, q);
            let (a, b) = (offset / p, p / q);
            assert(offset == q * (b * a)) by (nonlinear_arith)
                requires
                    offset == p * a + 0,
                    p == q * b + 0,
            ;
            vstd::arithmetic::div_mod::lemma_mod_multiples_basic(b * a, q);
            assert(offset == (b * a) * q) by (nonlinear_arith)
                requires
                    offset == q * (b * a),
            ;
        }
        assert((offset + l) % q == 0) by {
            vstd::arithmetic::div_mod::lemma_mod_add_multiples_vanish(offset, q);
        }
        assert(len - l <= two_to(m));
    }
    if offset % 1024 == 0 {
        vstd::arithmetic::div_mod::lemma_add_mod_noop(offset, l, 1024);
    }
}

proof fn lemma_parts_chunks(
    cvs: Seq<Seq<u8>>,
    offset: int,
    plain: Seq<u8>,
    log2: nat,
)
    requires
        plain.len() > two_to(log2),
        log2 >= 10,
        are_chunk_cvs(cvs, offset, plain, two_to(log2)),
    ensures
        ({
            let l = left_len(plain.len() as int);
            let k = l / two_to(log2);
            &&& are_chunk_cvs(cvs.take(k), offset, plain.take(l), two_to(log2))
            &&& are_chunk_cvs(cvs.skip(k), offset + l, plain.skip(l), two_to(log2))
        }),
{
    let size = two_to(log2);
    lemma_two_to(log2);
    let m = lemma_split(plain.len() as int, log2);
    let l = left_len(plain.len() as int);
    let k = l / size;
    let (left, right) = (cvs.take(k), cvs.skip(k));
    assert forall|i: int| 0 <= i < left.len() implies #[trigger] left[i] == subtree_cv(
        offset + i * size,
        chunk_of(plain.take(l), i, size),
    ) by {
        assert(left[i] == cvs[i]);
        assert((i + 1) * size <= l) by (nonlinear_arith)
            requires
                i + 1 <= k,
                k * size == l,
                size >= 1,
        ;
        assert(0 <= i * size <= (i + 1) * size) by (nonlinear_arith)
            requires
                i >= 0,
                size >= 1,
        ;
        assert(chunk_of(plain.take(l), i, size) =~= chunk_of(plain, i, size));
    }
    assert forall|i: int| 0 <= i < right.len() implies #[trigger] right[i] == subtree_cv(
        offset + l + i * size,
        chunk_of(plain.skip(l), i, size),
    ) by {
        assert(right[i] == cvs[i + k]);
        assert((i + k) * size == i * size + l) by (nonlinear_arith)
            requires
                k * size == l,
        ;
        assert((i + k + 1) * size == (i + 1) * size + l) by (nonlinear_arith)
            requires
                k * size == l,
        ;
        assert(0 <= i * size <= (i + 1) * size) by (nonlinear_arith)
            requires
                i >= 0,
                size >= 1,
        ;
        let n = cvs.len() as int;
        lemma_count(plain.len() as int, size, n);
        assert((i + k) * size <= (n - 1) * size) by (nonlinear_arith)
            requires
                i + k <= n - 1,
                size >= 1,
        ;
        assert(chunk_of(plain.skip(l), i, size) =~= chunk_of(plain, i + k, size));
    }
}

impl ChunkSize {
    /// The log2 of the size.
    pub closed spec fn exponent(self) -> nat {
        self.log2 as nat
    }

    /// The size in bytes.
    pub open spec fn size(self) -> int {
        two_to(self.exponent())
    }

    #[verifier::type_invariant]
    spec fn in_range(self) -> bool {
        MIN_LOG2 <= self.log2 <= MAX_LOG2
    }

    /// The chunk of this log2.
    pub fn from_log2(log2: u8) -> (r: Result<ChunkSize, ChunkError>)
        ensures
            r is Ok == (MIN_LOG2 <= log2 <= MAX_LOG2),
            r matches Ok(s) ==> s.exponent() == log2,
            r matches Err(e) ==> e == (ChunkError::SizeOutOfRange { log2 }),
    {
        if log2 < MIN_LOG2 || log2 > MAX_LOG2 {
            return Err(ChunkError::SizeOutOfRange { log2 });
        }
        Ok(ChunkSize { log2 })
    }

    /// The chunk of the write path.
    pub fn write_size() -> (s: ChunkSize)
        ensures
            s.exponent() == WRITE_CHUNK_LOG2,
    {
        ChunkSize { log2: WRITE_CHUNK_LOG2 }
    }

    /// The size in bytes.
    pub fn bytes(self) -> (n: usize)
        ensures
            n == self.size(),
            10 <= self.exponent() <= 28,
            1024 <= n <= 0x1000_0000,
            n % 1024 == 0,
    {
        proof {
            use_type_invariant(&self);
        }
        let mut n: usize = 1024;
        let mut i: u8 = 10;
        assert(two_to(10) == 1024) by {
            reveal_with_fuel(two_to, 11);
        }
        assert(two_to(28) == 0x1000_0000) by {
            reveal_with_fuel(two_to, 29);
        }
        while i < self.log2
            invariant
                10 <= i <= self.log2 <= 28,
                n == two_to(i as nat),
                two_to(28) == 0x1000_0000,
                1024 <= n,
            decreases self.log2 - i,
        {
            proof {
                lemma_two_to_divides(i as nat + 1, 28);
            }
            n = n * 2;
            i += 1;
        }
        proof {
            lemma_two_to_divides(self.log2 as nat, 28);
            lemma_two_to_divides(10, self.log2 as nat);
        }
        n
    }

    /// The log2 of the size.
    pub fn log2(self) -> (n: u8)
        ensures
            n == self.exponent(),
            MIN_LOG2 <= n <= MAX_LOG2,
    {
        proof {
            use_type_invariant(&self);
        }
        self.log2
    }

    /// How many chunks `plain_len` bytes divide into.
    pub fn count(self, plain_len: usize) -> (n: usize)
        ensures
            n == chunk_count(plain_len as int, self.size()),
    {
        let size = self.bytes();
        let whole: usize = plain_len / size;
        proof {
            let (len, s) = (plain_len as int, size as int);
            vstd::arithmetic::div_mod::lemma_fundamental_div_mod(len, s);
            vstd::arithmetic::div_mod::lemma_mod_bound(len, s);
            assert(whole < usize::MAX) by (nonlinear_arith)
                requires
                    len == s * whole + len % s,
                    len % s >= 0,
                    len <= usize::MAX,
                    s >= 1024,
                    whole >= 0,
            ;
            if plain_len % size == 0 {
                vstd::arithmetic::div_mod::lemma_fundamental_div_mod_converse(
                    len + s - 1,
                    s,
                    len / s,
                    s - 1,
                );
            } else {
                assert(len + s - 1 == s * (len / s + 1) + (len % s - 1)) by (nonlinear_arith)
                    requires
                        len == s * (len / s) + len % s,
                ;
                vstd::arithmetic::div_mod::lemma_fundamental_div_mod_converse(
                    len + s - 1,
                    s,
                    len / s + 1,
                    len % s - 1,
                );
            }
        }
        if plain_len % size == 0 {
            whole
        } else {
            whole + 1
        }
    }

    /// The bytes that chunk `index` of `plain_len` bytes takes.
    pub fn range(self, index: usize, plain_len: usize) -> (r: Range<usize>)
        requires
            (index + 1) * self.size() <= usize::MAX,
        ensures
            r.start == index * self.size(),
            r.end == (if (index + 1) * self.size() < plain_len {
                (index + 1) * self.size()
            } else {
                plain_len as int
            }),
    {
        let size = self.bytes();
        proof {
            assert((index + 1) * size == index * size + size) by (nonlinear_arith);
            assert(index * size >= 0) by (nonlinear_arith);
        }
        let start: usize = index * size;
        let end: usize = start + size;
        if end < plain_len {
            start..end
        } else {
            start..plain_len
        }
    }

    /// The chunks that hold the bytes from `start` to `end`.
    pub fn covering(self, start: usize, end: usize) -> (r: Range<usize>)
        ensures
            end <= start ==> r.start == 0 && r.end == 0,
            end > start ==> r.start == start as int / self.size() && r.end == (end - 1)
                / self.size() + 1,
    {
        if end <= start {
            return 0..0;
        }
        let size = self.bytes();
        let last: usize = (end - 1) / size;
        assert(last < usize::MAX) by (nonlinear_arith)
            requires
                last as int == (end - 1) / (size as int),
                size >= 1024,
                end <= usize::MAX,
                end >= 1,
        ;
        (start / size)..(last + 1)
    }

    /// The chaining value of chunk `index`, whose bytes are `chunk`.
    pub fn cv(self, index: usize, chunk: &[u8]) -> (cv: [u8; 32])
        requires
            chunk@.len() > 0,
            index * self.size() <= usize::MAX,
            fits_subtree(index * self.size(), chunk@.len() as int),
        ensures
            cv@ == subtree_cv(index * self.size(), chunk@),
    {
        let size = self.bytes();
        proof {
            assert(index * size >= 0) by (nonlinear_arith);
            vstd::arithmetic::div_mod::lemma_fundamental_div_mod(size as int, 1024);
            let q = size as int / 1024;
            assert(index * size == (index * q) * 1024) by (nonlinear_arith)
                requires
                    size as int == 1024 * q,
            ;
            vstd::arithmetic::div_mod::lemma_mod_multiples_basic(index * q, 1024);
        }
        hash_subtree((index * size) as u64, chunk)
    }

    /// The chaining value of every chunk of `plain`, in order.
    pub fn cvs(self, plain: &[u8]) -> (cvs: Vec<[u8; 32]>)
        ensures
            are_chunk_cvs(cv_seqs(cvs@), 0, plain@, self.size()),
    {
        let size = self.bytes();
        let n = self.count(plain.len());
        let ghost len = plain@.len() as int;
        let mut cvs: Vec<[u8; 32]> = Vec::new();
        let mut at: usize = 0;
        proof {
            lemma_count(len, size as int, n as int);
            assert(cvs@.len() * size == 0) by (nonlinear_arith)
                requires
                    cvs@.len() == 0,
            ;
        }
        while cvs.len() < n
            invariant
                size == self.size(),
                1024 <= size <= 0x1000_0000,
                self.exponent() >= 10,
                len == plain@.len() == plain.len(),
                n == chunk_count(len, size as int),
                n * size >= len,
                len > 0 ==> (n - 1) * size < len,
                len == 0 ==> n == 0,
                cvs@.len() <= n,
                cvs@.len() < n ==> at == cvs@.len() * size,
                forall|i: int|
                    0 <= i < cvs@.len() ==> (#[trigger] cvs@[i])@ == subtree_cv(
                        i * size,
                        chunk_of(plain@, i, size as int),
                    ),
            decreases n - cvs@.len(),
        {
            let index = cvs.len();
            proof {
                assert(index * size <= (n - 1) * size) by (nonlinear_arith)
                    requires
                        index <= n - 1,
                        size >= 1,
                ;
                assert((index + 1) * size == index * size + size) by (nonlinear_arith);
                if index < n - 1 {
                    assert((index + 1) * size <= (n - 1) * size) by (nonlinear_arith)
                        requires
                            index + 1 <= n - 1,
                            size >= 1,
                    ;
                } else {
                    assert((index + 1) * size == n * size);
                }
            }
            let end: usize = if plain.len() - at > size {
                at + size
            } else {
                plain.len()
            };
            let chunk = vstd::slice::slice_subrange(plain, at, end);
            proof {
                assert(chunk@ =~= chunk_of(plain@, index as int, size as int));
                assert((index * size) % (size as int) == 0) by {
                    vstd::arithmetic::div_mod::lemma_mod_multiples_basic(index as int, size as int);
                }
                assert(chunk@.len() <= two_to(self.exponent()));
            }
            let cv = self.cv(index, chunk);
            cvs.push(cv);
            if cvs.len() < n {
                at = end;
            }
        }
        proof {
            assert forall|i: int| 0 <= i < cv_seqs(cvs@).len() implies #[trigger] cv_seqs(cvs@)[i]
                == subtree_cv(0 + i * size, chunk_of(plain@, i, size as int)) by {
                assert(cv_seqs(cvs@)[i] == cvs@[i]@);
            }
        }
        cvs
    }

    /// Where BLAKE3 divides `len` bytes, in bytes and in chunks.
    fn split(self, len: u64) -> (at: (u64, usize))
        requires
            self.size() < len <= 0x8000_0000_0000_0000,
            len <= usize::MAX,
        ensures
            at.0 == left_len(len as int),
            at.1 == left_len(len as int) / self.size(),
            1 <= at.1 < chunk_count(len as int, self.size()),
            at.0 < len,
    {
        let size = self.bytes();
        proof {
            let _ = lemma_split(len as int, self.exponent());
        }
        let left: u64 = left_subtree_len(len);
        assert(left / (size as u64) <= left) by (nonlinear_arith)
            requires
                size >= 1,
        ;
        (left, (left / size as u64) as usize)
    }

    /// The chaining value of the tree over `cvs` from `from` up to `to`, for
    /// `len` bytes.
    fn merge_subtree(self, cvs: &[[u8; 32]], from: usize, to: usize, len: u64) -> (cv: [u8; 32])
        requires
            from < to <= cvs@.len(),
            0 < len <= 0x8000_0000_0000_0000,
            len <= usize::MAX,
            to - from == chunk_count(len as int, self.size()),
        ensures
            cv@ == tree_cv(
                cv_seqs(cvs@.subrange(from as int, to as int)),
                len as int,
                self.size(),
            ),
            forall|offset: int, bytes: Seq<u8>|
                offset >= 0 && offset % 1024 == 0 && bytes.len() == len && fits_subtree(
                    offset,
                    len as int,
                ) && are_chunk_cvs(
                    cv_seqs(cvs@.subrange(from as int, to as int)),
                    offset,
                    bytes,
                    self.size(),
                ) ==> cv@ == #[trigger] subtree_cv(offset, bytes),
        decreases to - from,
    {
        let size = self.bytes();
        let ghost here = cv_seqs(cvs@.subrange(from as int, to as int));
        proof {
            lemma_count(len as int, size as int, to - from);
        }
        if to - from == 1 {
            proof {
                assert(here[0] == cvs@[from as int]@);
                assert forall|offset: int, bytes: Seq<u8>|
                    offset >= 0 && offset % 1024 == 0 && bytes.len() == len && fits_subtree(
                        offset,
                        len as int,
                    ) && are_chunk_cvs(here, offset, bytes, size as int) implies here[0]
                    == #[trigger] subtree_cv(offset, bytes) by {
                    assert(here[0] == subtree_cv(
                        offset + 0 * size,
                        chunk_of(bytes, 0, size as int),
                    ));
                    assert(chunk_of(bytes, 0, size as int) =~= bytes);
                }
            }
            return cvs[from];
        }
        let (left_len_bytes, left_chunks) = self.split(len);
        let mid: usize = from + left_chunks;
        proof {
            let _ = lemma_split(len as int, self.exponent());
            lemma_left_len_pos(len as int);
            assert(cv_seqs(cvs@.subrange(from as int, mid as int)) =~= here.take(
                left_chunks as int,
            ));
            assert(cv_seqs(cvs@.subrange(mid as int, to as int)) =~= here.skip(left_chunks as int));
        }
        let left = self.merge_subtree(cvs, from, mid, left_len_bytes);
        let right = self.merge_subtree(cvs, mid, to, len - left_len_bytes);
        let cv = merge_non_root(&left, &right);
        proof {
            assert forall|offset: int, bytes: Seq<u8>|
                offset >= 0 && offset % 1024 == 0 && bytes.len() == len && fits_subtree(
                    offset,
                    len as int,
                ) && are_chunk_cvs(here, offset, bytes, size as int) implies cv@
                == #[trigger] subtree_cv(offset, bytes) by {
                let l = left_len(len as int);
                lemma_parts_fit(offset, len as int, self.exponent());
                lemma_parts_chunks(here, offset, bytes, self.exponent());
                assert(left@ == subtree_cv(offset, bytes.take(l)));
                assert(right@ == subtree_cv(offset + l, bytes.skip(l)));
                assert(are_subtrees(left@, right@, offset, bytes));
            }
        }
        cv
    }

    /// The extent hash that `cvs` give, for an extent of `plain_len` bytes. Of
    /// the chaining values of an extent's own chunks it is the extent's hash.
    pub fn root_from_cvs(self, cvs: &[[u8; 32]], plain_len: usize) -> (r: Result<
        ContentHash,
        ChunkError,
    >)
        requires
            plain_len <= 0x8000_0000_0000_0000,
        ensures
            ({
                let n = chunk_count(plain_len as int, self.size());
                match r {
                    Ok(hash) => cvs@.len() == n && n >= 2 && hash.bytes() == tree_root(
                        cv_seqs(cvs@),
                        plain_len as int,
                        self.size(),
                    ),
                    Err(ChunkError::CountMismatch { held, plain_len: len, chunk_bytes, expected }) =>
                        cvs@.len() != n && held == cvs@.len() && len == plain_len && chunk_bytes
                        == self.size() && expected == n,
                    Err(ChunkError::SingleChunk) => cvs@.len() == n && n < 2,
                    Err(_) => false,
                }
            }),
            r matches Ok(hash) ==> forall|plain: Seq<u8>|
                plain.len() == plain_len && are_chunk_cvs(cv_seqs(cvs@), 0, plain, self.size())
                    ==> hash.bytes() == #[trigger] blake3_digest(plain),
    {
        let size = self.bytes();
        let n = self.count(plain_len);
        if cvs.len() != n {
            return Err(
                ChunkError::CountMismatch {
                    held: cvs.len(),
                    plain_len,
                    chunk_bytes: size,
                    expected: n,
                },
            );
        }
        if cvs.len() < 2 {
            return Err(ChunkError::SingleChunk);
        }
        let ghost len = plain_len as int;
        let ghost here = cv_seqs(cvs@);
        proof {
            lemma_count(len, size as int, n as int);
            let _ = lemma_split(len, self.exponent());
            lemma_left_len_pos(len);
        }
        let (left_bytes, left_chunks) = self.split(plain_len as u64);
        proof {
            assert(cv_seqs(cvs@.subrange(0, left_chunks as int)) =~= here.take(left_chunks as int));
            assert(cv_seqs(cvs@.subrange(left_chunks as int, n as int)) =~= here.skip(
                left_chunks as int,
            ));
        }
        let left = self.merge_subtree(cvs, 0, left_chunks, left_bytes);
        let right = self.merge_subtree(cvs, left_chunks, n, plain_len as u64 - left_bytes);
        let hash = ContentHash::from_bytes(&merge_root(&left, &right));
        proof {
            assert forall|plain: Seq<u8>|
                plain.len() == plain_len && are_chunk_cvs(
                    here,
                    0,
                    plain,
                    size as int,
                ) implies hash.bytes() == #[trigger] blake3_digest(plain) by {
                let l = left_len(len);
                lemma_parts_fit(0, len, self.exponent());
                lemma_parts_chunks(here, 0, plain, self.exponent());
                assert(left@ == subtree_cv(0, plain.take(l)));
                assert(right@ == subtree_cv(l, plain.skip(l)));
                assert(are_subtrees(left@, right@, 0, plain));
            }
        }
        Ok(hash)
    }

    /// Whether `chunk` is chunk `index` of the extent with the hash
    /// `expected`: with its chaining value in place of the table's, the table
    /// gives that hash. A wrong chunk and a wrong table give another.
    pub fn verify_chunk(
        self,
        index: usize,
        chunk: &[u8],
        cvs: &[[u8; 32]],
        plain_len: usize,
        expected: &ContentHash,
    ) -> (r: Result<(), ChunkError>)
        requires
            plain_len <= 0x8000_0000_0000_0000,
            index < cvs@.len() ==> chunk@.len() > 0 && index * self.size() <= usize::MAX
                && fits_subtree(index * self.size(), chunk@.len() as int),
        ensures
            ({
                let n = chunk_count(plain_len as int, self.size());
                let root = tree_root(
                    cv_seqs(cvs@).update(
                        index as int,
                        subtree_cv(index * self.size(), chunk@),
                    ),
                    plain_len as int,
                    self.size(),
                );
                match r {
                    Ok(()) => index < cvs@.len() && cvs@.len() == n && n >= 2 && root
                        == expected.bytes(),
                    Err(ChunkError::PastTable { index: i }) => index >= cvs@.len() && i == index,
                    Err(
                        ChunkError::CountMismatch { held, plain_len: len, chunk_bytes, expected: e },
                    ) => index < cvs@.len() && cvs@.len() != n && held == cvs@.len() && len
                        == plain_len && chunk_bytes == self.size() && e == n,
                    Err(ChunkError::SingleChunk) => index < cvs@.len() && cvs@.len() == n && n < 2,
                    Err(ChunkError::WrongRoot { index: i, root: got, expected: e }) => index
                        < cvs@.len() && cvs@.len() == n && n >= 2 && i == index && got.bytes()
                        == root && e == *expected && root != expected.bytes(),
                    Err(_) => false,
                }
            }),
            forall|plain: Seq<u8>|
                (#[trigger] blake3_digest(plain)) == expected.bytes() && plain.len() == plain_len
                    && are_other_cvs(cv_seqs(cvs@), index as int, plain, self.size())
                    && cvs@.len() >= 2 && index < cvs@.len() && chunk@ == chunk_of(
                    plain,
                    index as int,
                    self.size(),
                ) ==> r is Ok,
    {
        if index >= cvs.len() {
            return Err(ChunkError::PastTable { index });
        }
        let mut with_chunk: Vec<[u8; 32]> = Vec::new();
        let mut i: usize = 0;
        while i < cvs.len()
            invariant
                i <= cvs@.len(),
                with_chunk@ == cvs@.take(i as int),
            decreases cvs.len() - i,
        {
            with_chunk.push(cvs[i]);
            assert(with_chunk@ =~= cvs@.take(i as int + 1));
            i += 1;
        }
        assert(with_chunk@ =~= cvs@);
        let cv = self.cv(index, chunk);
        with_chunk[index] = cv;
        let ghost changed = cv_seqs(cvs@).update(index as int, cv@);
        assert(cv_seqs(with_chunk@) =~= changed);
        match self.root_from_cvs(with_chunk.as_slice(), plain_len) {
            Err(e) => Err(e),
            Ok(root) => {
                proof {
                    assert forall|plain: Seq<u8>|
                        plain.len() == plain_len && are_other_cvs(
                            cv_seqs(cvs@),
                            index as int,
                            plain,
                            self.size(),
                        ) && chunk@ == chunk_of(plain, index as int, self.size()) implies root.bytes()
                        == #[trigger] blake3_digest(plain) by {
                        assert(are_chunk_cvs(changed, 0, plain, self.size()));
                    }
                    if root.bytes() == expected.bytes() {
                        ContentHash::lemma_bytes_tell(root, *expected);
                    }
                }
                if root == *expected {
                    Ok(())
                } else {
                    Err(ChunkError::WrongRoot { index, root, expected: *expected })
                }
            },
        }
    }
}

proof fn lemma_left_len_pos(len: int)
    requires
        len >= 2,
    ensures
        1 <= left_len(len) < len,
{
    let m = lemma_left_len(len);
    lemma_two_to(m);
}

// ---------------------------------------------------------------------------
// Tables
// ---------------------------------------------------------------------------

/// The bytes of a chunk in the table: its stored length and chaining value.
pub const TABLE_ENTRY_LEN: usize = 36;

/// The bytes of the table's header: the plaintext's length and the chunk's
/// log2.
pub const TABLE_HEADER_LEN: usize = 5;

/// The table at the head of a chunked payload.
pub struct ChunkTable {
    pub size: ChunkSize,
    /// Bytes that the whole extent decodes to.
    pub plain_len: usize,
    /// Stored bytes of each chunk, in order.
    pub stored_lengths: Vec<u32>,
    /// Chaining value of each chunk, in order.
    pub cvs: Vec<[u8; 32]>,
}

/// What a [`ChunkTable`] holds.
pub struct TableView {
    pub exponent: nat,
    pub plain_len: int,
    pub stored_lengths: Seq<u32>,
    pub cvs: Seq<Seq<u8>>,
}

impl View for ChunkTable {
    type V = TableView;

    open spec fn view(&self) -> TableView {
        TableView {
            exponent: self.size.exponent(),
            plain_len: self.plain_len as int,
            stored_lengths: self.stored_lengths@,
            cvs: cv_seqs(self.cvs@),
        }
    }
}

/// The bytes of the first `n` entries.
pub open spec fn entry_bytes(lengths: Seq<u32>, cvs: Seq<Seq<u8>>, n: int) -> Seq<u8>
    decreases n,
{
    if n <= 0 {
        Seq::empty()
    } else {
        entry_bytes(lengths, cvs, n - 1) + vstd::bytes::spec_u32_to_le_bytes(lengths[n - 1])
            + cvs[n - 1]
    }
}

/// The bytes of a table.
pub open spec fn table_bytes(t: TableView) -> Seq<u8> {
    let n = if t.stored_lengths.len() < t.cvs.len() {
        t.stored_lengths.len()
    } else {
        t.cvs.len()
    };
    vstd::bytes::spec_u32_to_le_bytes(t.plain_len as u32).push(t.exponent as u8) + entry_bytes(
        t.stored_lengths,
        t.cvs,
        n as int,
    )
}

/// The bytes that a table for `len` bytes in chunks of `size` takes.
pub open spec fn table_len(len: int, size: int) -> int {
    TABLE_HEADER_LEN + chunk_count(len, size) * TABLE_ENTRY_LEN
}

/// The plaintext's length that a header says.
pub open spec fn header_len(stored: Seq<u8>) -> int {
    vstd::bytes::spec_u32_from_le_bytes(stored.subrange(0, 4)) as int
}

/// The table that a payload begins with.
pub open spec fn table_read(stored: Seq<u8>) -> Result<TableView, ChunkError> {
    if stored.len() < TABLE_HEADER_LEN {
        Err(ChunkError::MissingHeader)
    } else if stored[4] < MIN_LOG2 || stored[4] > MAX_LOG2 {
        Err(ChunkError::SizeOutOfRange { log2: stored[4] })
    } else {
        let size = two_to(stored[4] as nat);
        let n = chunk_count(header_len(stored), size);
        if stored.len() < table_len(header_len(stored), size) {
            Err(ChunkError::ShortTable)
        } else {
            Ok(
                TableView {
                    exponent: stored[4] as nat,
                    plain_len: header_len(stored),
                    stored_lengths: Seq::new(
                        n as nat,
                        |i: int|
                            vstd::bytes::spec_u32_from_le_bytes(
                                stored.subrange(5 + 36 * i, 9 + 36 * i),
                            ),
                    ),
                    cvs: Seq::new(n as nat, |i: int| stored.subrange(9 + 36 * i, 41 + 36 * i)),
                },
            )
        }
    }
}

/// The stored bytes of the first `n` chunks.
pub open spec fn stored_before(lengths: Seq<u32>, n: int) -> int
    decreases n,
{
    if n <= 0 {
        0
    } else {
        stored_before(lengths, n - 1) + lengths[n - 1]
    }
}

/// Append `more` to `bytes`.
fn extend_bytes(bytes: &mut Vec<u8>, more: &[u8])
    ensures
        final(bytes)@ == old(bytes)@ + more@,
{
    let mut i: usize = 0;
    assert(old(bytes)@ + more@.take(0) =~= old(bytes)@);
    while i < more.len()
        invariant
            i <= more@.len(),
            bytes@ == old(bytes)@ + more@.take(i as int),
        decreases more.len() - i,
    {
        bytes.push(more[i]);
        assert(old(bytes)@ + more@.take(i as int + 1) =~= (old(bytes)@ + more@.take(
            i as int,
        )).push(more@[i as int]));
        i += 1;
    }
    assert(more@.take(more@.len() as int) =~= more@);
}

impl ChunkTable {
    /// The bytes that a table for `plain_len` bytes at `size` takes.
    pub fn encoded_len(plain_len: usize, size: ChunkSize) -> (n: usize)
        ensures
            n == table_len(plain_len as int, size.size()),
    {
        let n = size.count(plain_len);
        let bytes = size.bytes();
        proof {
            lemma_count(plain_len as int, bytes as int, n as int);
            assert(n * 36 + 5 <= usize::MAX) by (nonlinear_arith)
                requires
                    plain_len > 0 ==> (n - 1) * bytes < plain_len,
                    plain_len == 0 ==> n == 0,
                    bytes >= 1024,
                    plain_len <= usize::MAX,
                    usize::MAX >= 0xffff_ffff,
                    n >= 0,
            ;
        }
        TABLE_HEADER_LEN + n * TABLE_ENTRY_LEN
    }

    /// The plaintext's length and the chunk that a payload's header says.
    pub fn peek_header(stored: &[u8]) -> (r: Result<(usize, ChunkSize), ChunkError>)
        ensures
            match r {
                Ok((len, size)) => stored@.len() >= TABLE_HEADER_LEN && MIN_LOG2 <= stored@[4]
                    <= MAX_LOG2 && len == header_len(stored@) && size.exponent() == stored@[4],
                Err(e) => e == (if stored@.len() < TABLE_HEADER_LEN {
                    ChunkError::MissingHeader
                } else {
                    ChunkError::SizeOutOfRange { log2: stored@[4] }
                }) && (stored@.len() < TABLE_HEADER_LEN || stored@[4] < MIN_LOG2 || stored@[4]
                    > MAX_LOG2),
            },
    {
        if stored.len() < TABLE_HEADER_LEN {
            return Err(ChunkError::MissingHeader);
        }
        let head = vstd::slice::slice_subrange(stored, 0, 4);
        let len: u32 = vstd::bytes::u32_from_le_bytes(head);
        match ChunkSize::from_log2(stored[4]) {
            Ok(size) => Ok((len as usize, size)),
            Err(e) => Err(e),
        }
    }

    /// The table that a payload begins with.
    pub fn parse(stored: &[u8]) -> (r: Result<ChunkTable, ChunkError>)
        ensures
            match r {
                Ok(t) => table_read(stored@) == Ok::<TableView, ChunkError>(t@),
                Err(e) => table_read(stored@) == Err::<TableView, ChunkError>(e),
            },
    {
        let (plain_len, size) = match ChunkTable::peek_header(stored) {
            Ok(pair) => pair,
            Err(e) => {
                return Err(e);
            },
        };
        let n = size.count(plain_len);
        if stored.len() < ChunkTable::encoded_len(plain_len, size) {
            return Err(ChunkError::ShortTable);
        }
        let mut stored_lengths: Vec<u32> = Vec::new();
        let mut cvs: Vec<[u8; 32]> = Vec::new();
        let mut i: usize = 0;
        while i < n
            invariant
                i <= n,
                stored@.len() == stored.len(),
                5 + 36 * n <= stored@.len(),
                stored_lengths@.len() == i,
                cvs@.len() == i,
                forall|j: int|
                    0 <= j < i ==> #[trigger] stored_lengths@[j]
                        == vstd::bytes::spec_u32_from_le_bytes(
                        stored@.subrange(5 + 36 * j, 9 + 36 * j),
                    ),
                forall|j: int|
                    0 <= j < i ==> (#[trigger] cvs@[j])@ == stored@.subrange(
                        9 + 36 * j,
                        41 + 36 * j,
                    ),
            decreases n - i,
        {
            let at: usize = 5 + 36 * i;
            let head = vstd::slice::slice_subrange(stored, at, at + 4);
            stored_lengths.push(vstd::bytes::u32_from_le_bytes(head));
            let body = vstd::slice::slice_subrange(stored, at + 4, at + 36);
            let cv = match crate::keys::array_of_32(body) {
                Some(cv) => cv,
                None => [0;32],
            };
            cvs.push(cv);
            i += 1;
        }
        let t = ChunkTable { size, plain_len, stored_lengths, cvs };
        proof {
            let v = table_read(stored@)->Ok_0;
            assert(t@.stored_lengths =~= v.stored_lengths);
            assert(t@.cvs =~= v.cvs);
        }
        Ok(t)
    }

    /// Append the table's bytes.
    pub fn encode(&self, out: &mut Vec<u8>)
        ensures
            final(out)@ == old(out)@ + table_bytes(self@),
    {
        let ghost t = self@;
        let len = vstd::bytes::u32_to_le_bytes(#[verifier::truncate] (self.plain_len as u32));
        extend_bytes(out, len.as_slice());
        out.push(self.size.log2());
        let ghost head = out@;
        let n: usize = if self.stored_lengths.len() < self.cvs.len() {
            self.stored_lengths.len()
        } else {
            self.cvs.len()
        };
        let mut i: usize = 0;
        assert(head + entry_bytes(t.stored_lengths, t.cvs, 0) =~= head);
        while i < n
            invariant
                i <= n,
                n <= self.stored_lengths@.len(),
                n <= self.cvs@.len(),
                t == self@,
                out@ == head + entry_bytes(t.stored_lengths, t.cvs, i as int),
            decreases n - i,
        {
            let len = vstd::bytes::u32_to_le_bytes(self.stored_lengths[i]);
            extend_bytes(out, len.as_slice());
            extend_bytes(out, self.cvs[i].as_slice());
            proof {
                assert(t.cvs[i as int] == self.cvs@[i as int]@);
                assert(out@ =~= head + entry_bytes(t.stored_lengths, t.cvs, i as int + 1));
            }
            i += 1;
        }
        assert(out@ =~= old(out)@ + table_bytes(t));
    }

    /// The bytes that chunk `index` takes in the whole payload.
    pub fn chunk_span(&self, index: usize) -> (r: Result<Range<usize>, ChunkError>)
        requires
            table_len(self.plain_len as int, self.size.size()) + stored_before(
                self.stored_lengths@,
                self.stored_lengths@.len() as int,
            ) <= usize::MAX,
        ensures
            match r {
                Ok(span) => index < self.stored_lengths@.len() && span.start == table_len(
                    self.plain_len as int,
                    self.size.size(),
                ) + stored_before(self.stored_lengths@, index as int) && span.end == span.start
                    + self.stored_lengths@[index as int],
                Err(e) => index >= self.stored_lengths@.len() && e == (ChunkError::PastTable {
                    index,
                }),
            },
    {
        if index >= self.stored_lengths.len() {
            return Err(ChunkError::PastTable { index });
        }
        let mut start: usize = ChunkTable::encoded_len(self.plain_len, self.size);
        let mut i: usize = 0;
        let ghost lengths = self.stored_lengths@;
        let ghost head = start as int;
        proof {
            lemma_stored_grows(lengths, index as int + 1, lengths.len() as int);
        }
        while i < index
            invariant
                i <= index < lengths.len(),
                lengths == self.stored_lengths@,
                start == head + stored_before(lengths, i as int),
                head + stored_before(lengths, lengths.len() as int) <= usize::MAX,
            decreases index - i,
        {
            proof {
                lemma_stored_grows(lengths, i as int + 1, lengths.len() as int);
            }
            start = start + self.stored_lengths[i] as usize;
            i += 1;
        }
        Ok(start..start + self.stored_lengths[index] as usize)
    }
}

proof fn lemma_stored_grows(lengths: Seq<u32>, a: int, b: int)
    requires
        0 <= a <= b <= lengths.len(),
    ensures
        stored_before(lengths, a) <= stored_before(lengths, b),
    decreases b - a,
{
    if a < b {
        lemma_stored_grows(lengths, a, b - 1);
    }
}

proof fn lemma_entry_bytes(lengths: Seq<u32>, cvs: Seq<Seq<u8>>, n: int)
    requires
        0 <= n <= lengths.len(),
        n <= cvs.len(),
        forall|i: int| 0 <= i < cvs.len() ==> (#[trigger] cvs[i]).len() == 32,
    ensures
        entry_bytes(lengths, cvs, n).len() == 36 * n,
        forall|i: int|
            0 <= i < n ==> entry_bytes(lengths, cvs, n).subrange(36 * i, 36 * i + 4)
                == vstd::bytes::spec_u32_to_le_bytes(#[trigger] lengths[i]),
        forall|i: int|
            0 <= i < n ==> entry_bytes(lengths, cvs, n).subrange(36 * i + 4, 36 * i + 36)
                == #[trigger] cvs[i],
    decreases n,
{
    if n > 0 {
        lemma_entry_bytes(lengths, cvs, n - 1);
        vstd::bytes::lemma_auto_spec_u32_to_from_le_bytes();
        let before = entry_bytes(lengths, cvs, n - 1);
        let all = entry_bytes(lengths, cvs, n);
        let le = vstd::bytes::spec_u32_to_le_bytes(lengths[n - 1]);
        assert(le.len() == 4);
        assert(cvs[n - 1].len() == 32);
        assert forall|i: int| 0 <= i < n implies all.subrange(36 * i, 36 * i + 4)
            == vstd::bytes::spec_u32_to_le_bytes(#[trigger] lengths[i]) by {
            if i < n - 1 {
                assert(all.subrange(36 * i, 36 * i + 4) =~= before.subrange(36 * i, 36 * i + 4));
            } else {
                assert(all.subrange(36 * i, 36 * i + 4) =~= le);
            }
        }
        assert forall|i: int| 0 <= i < n implies all.subrange(36 * i + 4, 36 * i + 36)
            == #[trigger] cvs[i] by {
            if i < n - 1 {
                assert(all.subrange(36 * i + 4, 36 * i + 36) =~= before.subrange(
                    36 * i + 4,
                    36 * i + 36,
                ));
            } else {
                assert(all.subrange(36 * i + 4, 36 * i + 36) =~= cvs[i]);
            }
        }
    }
}

/// A payload that begins with a table's bytes gives that table back, whatever
/// follows, and with the chunk it was written at.
pub proof fn law_table_round_trip(t: TableView, rest: Seq<u8>)
    requires
        MIN_LOG2 <= t.exponent <= MAX_LOG2,
        0 <= t.plain_len <= u32::MAX,
        t.stored_lengths.len() == chunk_count(t.plain_len, two_to(t.exponent)),
        t.cvs.len() == t.stored_lengths.len(),
        forall|i: int| 0 <= i < t.cvs.len() ==> (#[trigger] t.cvs[i]).len() == 32,
    ensures
        table_read(table_bytes(t) + rest) == Ok::<TableView, ChunkError>(t),
        table_bytes(t).len() == table_len(t.plain_len, two_to(t.exponent)),
{
    let n = t.cvs.len() as int;
    vstd::bytes::lemma_auto_spec_u32_to_from_le_bytes();
    lemma_entry_bytes(t.stored_lengths, t.cvs, n);
    let le = vstd::bytes::spec_u32_to_le_bytes(t.plain_len as u32);
    assert(le.len() == 4);
    let entries = entry_bytes(t.stored_lengths, t.cvs, n);
    let stored = table_bytes(t) + rest;
    assert(stored.subrange(0, 4) =~= le);
    assert(stored[4] == t.exponent as u8);
    assert(header_len(stored) == t.plain_len);
    let v = table_read(stored)->Ok_0;
    assert forall|i: int| 0 <= i < n implies #[trigger] v.stored_lengths[i]
        == t.stored_lengths[i] by {
        assert(stored.subrange(5 + 36 * i, 9 + 36 * i) =~= entries.subrange(36 * i, 36 * i + 4));
    }
    assert(v.stored_lengths =~= t.stored_lengths);
    assert forall|i: int| 0 <= i < n implies #[trigger] v.cvs[i] == t.cvs[i] by {
        assert(stored.subrange(9 + 36 * i, 41 + 36 * i) =~= entries.subrange(
            36 * i + 4,
            36 * i + 36,
        ));
    }
    assert(v.cvs =~= t.cvs);
}

/// Somewhere in the trees over two tables two different pairs of subtrees have
/// one parent.
pub open spec fn tree_collides(a: Seq<Seq<u8>>, b: Seq<Seq<u8>>, len: int, size: int) -> bool
    decreases a.len(),
{
    let l = left_len(len);
    let k = l / size;
    if a.len() <= 1 || k <= 0 || k >= a.len() {
        false
    } else {
        let a_pair = (tree_cv(a.take(k), l, size), tree_cv(a.skip(k), len - l, size));
        let b_pair = (tree_cv(b.take(k), l, size), tree_cv(b.skip(k), len - l, size));
        ||| a_pair != b_pair && parent_cv(a_pair.0, a_pair.1) == parent_cv(b_pair.0, b_pair.1)
        ||| tree_collides(a.take(k), b.take(k), l, size)
        ||| tree_collides(a.skip(k), b.skip(k), len - l, size)
    }
}

/// Two different pairs of subtrees of the trees over two tables have one parent
/// or one root.
pub open spec fn root_collides(a: Seq<Seq<u8>>, b: Seq<Seq<u8>>, len: int, size: int) -> bool {
    let l = left_len(len);
    let k = l / size;
    let a_pair = (tree_cv(a.take(k), l, size), tree_cv(a.skip(k), len - l, size));
    let b_pair = (tree_cv(b.take(k), l, size), tree_cv(b.skip(k), len - l, size));
    ||| a_pair != b_pair && root_hash(a_pair.0, a_pair.1) == root_hash(b_pair.0, b_pair.1)
    ||| tree_collides(a.take(k), b.take(k), l, size)
    ||| tree_collides(a.skip(k), b.skip(k), len - l, size)
}

/// Two tables with one chaining value are the same, or their trees collide.
proof fn lemma_tree_tells(a: Seq<Seq<u8>>, b: Seq<Seq<u8>>, len: int, log2: nat)
    requires
        log2 >= 10,
        len > 0,
        a.len() == chunk_count(len, two_to(log2)),
        b.len() == a.len(),
        tree_cv(a, len, two_to(log2)) == tree_cv(b, len, two_to(log2)),
    ensures
        a == b || tree_collides(a, b, len, two_to(log2)),
    decreases a.len(),
{
    let size = two_to(log2);
    lemma_two_to(log2);
    lemma_count(len, size, a.len() as int);
    if a.len() <= 1 {
        assert(a =~= b);
    } else {
        let _ = lemma_split(len, log2);
        lemma_left_len_pos(len);
        let l = left_len(len);
        let k = l / size;
        if tree_cv(a.take(k), l, size) == tree_cv(b.take(k), l, size) && tree_cv(
            a.skip(k),
            len - l,
            size,
        ) == tree_cv(b.skip(k), len - l, size) {
            lemma_tree_tells(a.take(k), b.take(k), l, log2);
            lemma_tree_tells(a.skip(k), b.skip(k), len - l, log2);
            if a.take(k) == b.take(k) && a.skip(k) == b.skip(k) {
                assert(a =~= a.take(k) + a.skip(k));
                assert(b =~= b.take(k) + b.skip(k));
            }
        }
    }
}

/// A changed chunk, or a table changed elsewhere, does not give the extent's
/// hash, unless two digests agree: of the two chunks, or of two pairs of
/// subtrees at one place of the two trees. `genuine` are the chaining values of
/// the extent, and `held` is the table that the chunk is checked with.
pub proof fn law_a_changed_chunk_or_table_is_refused(
    size: ChunkSize,
    plain: Seq<u8>,
    genuine: Seq<Seq<u8>>,
    held: Seq<Seq<u8>>,
    index: int,
    chunk: Seq<u8>,
)
    requires
        size.exponent() >= MIN_LOG2,
        plain.len() > size.size(),
        are_chunk_cvs(genuine, 0, plain, size.size()),
        held.len() == genuine.len(),
        0 <= index < held.len(),
        tree_root(
            held.update(index, subtree_cv(index * size.size(), chunk)),
            plain.len() as int,
            size.size(),
        ) == tree_root(genuine, plain.len() as int, size.size()),
    ensures
        ({
            let bytes = chunk_of(plain, index, size.size());
            let offset = index * size.size();
            ||| chunk == bytes && forall|j: int|
                0 <= j < held.len() && j != index ==> #[trigger] held[j] == genuine[j]
            ||| chunk != bytes && subtree_cv(offset, chunk) == subtree_cv(offset, bytes)
            ||| root_collides(
                held.update(index, subtree_cv(offset, chunk)),
                genuine,
                plain.len() as int,
                size.size(),
            )
        }),
{
    let log2 = size.exponent();
    let s = size.size();
    let len = plain.len() as int;
    let shown = held.update(index, subtree_cv(index * s, chunk));
    let l = left_len(len);
    let k = l / s;
    lemma_two_to(log2);
    lemma_count(len, s, genuine.len() as int);
    let _ = lemma_split(len, log2);
    lemma_left_len_pos(len);
    if !root_collides(shown, genuine, len, s) {
        lemma_tree_tells(shown.take(k), genuine.take(k), l, log2);
        lemma_tree_tells(shown.skip(k), genuine.skip(k), len - l, log2);
        assert(shown =~= shown.take(k) + shown.skip(k));
        assert(genuine =~= genuine.take(k) + genuine.skip(k));
        assert(shown == genuine);
        assert(shown[index] == subtree_cv(0 + index * s, chunk_of(plain, index, s)));
        assert forall|j: int| 0 <= j < held.len() && j != index implies #[trigger] held[j]
            == genuine[j] by {
            assert(shown[j] == held[j]);
        }
    }
}

/// The chunks of some bytes, put end to end, are the bytes: chunk `i` starts
/// where `i` whole chunks end, each but the last is whole, none is empty, and
/// their count reaches the end.
pub proof fn law_the_chunks_are_the_bytes(plain: Seq<u8>, size: int, at: int)
    requires
        size >= 1,
        0 <= at < plain.len(),
    ensures
        0 <= at / size < chunk_count(plain.len() as int, size),
        0 <= at % size < chunk_of(plain, at / size, size).len() <= size,
        chunk_of(plain, at / size, size)[at % size] == plain[at],
        forall|i: int|
            0 <= i < chunk_count(plain.len() as int, size) - 1 ==> (#[trigger] chunk_of(
                plain,
                i,
                size,
            )).len() == size,
        (chunk_count(plain.len() as int, size) - 1) * size < plain.len() <= chunk_count(
            plain.len() as int,
            size,
        ) * size,
{
    let len = plain.len() as int;
    let n = chunk_count(len, size);
    lemma_count(len, size, n);
    vstd::arithmetic::div_mod::lemma_fundamental_div_mod(at, size);
    vstd::arithmetic::div_mod::lemma_mod_bound(at, size);
    vstd::arithmetic::div_mod::lemma_fundamental_div_mod(len + size - 1, size);
    vstd::arithmetic::div_mod::lemma_mod_bound(len + size - 1, size);
    let q = at / size;
    assert(q * size == size * q) by (nonlinear_arith);
    assert(n * size == size * n) by (nonlinear_arith);
    assert((n - 1) * size == n * size - size) by (nonlinear_arith);
    assert((q + 1) * size == q * size + size) by (nonlinear_arith);
    assert(0 <= q) by (nonlinear_arith)
        requires
            q * size + size > 0,
            size >= 1,
            at >= 0,
            q == at / size,
    ;
    assert(q < n) by (nonlinear_arith)
        requires
            q * size <= at,
            at < len,
            len <= n * size,
            size >= 1,
    ;
    assert forall|i: int| 0 <= i < n - 1 implies (#[trigger] chunk_of(plain, i, size)).len()
        == size by {
        assert((i + 1) * size == i * size + size) by (nonlinear_arith);
        assert(i * size >= 0) by (nonlinear_arith)
            requires
                i >= 0,
                size >= 1,
        ;
        assert((i + 1) * size <= (n - 1) * size) by (nonlinear_arith)
            requires
                i + 1 <= n - 1,
                size >= 1,
        ;
    }
}

/// No bytes make no chunk.
pub proof fn law_nothing_has_no_chunk(size: int)
    requires
        size >= 1,
    ensures
        chunk_count(0, size) == 0,
{
    vstd::arithmetic::div_mod::lemma_small_mod((size - 1) as nat, size as nat);
    vstd::arithmetic::div_mod::lemma_fundamental_div_mod(size - 1, size);
    let q = (size - 1) / size;
    assert(q == 0) by (nonlinear_arith)
        requires
            size * q == 0,
            size >= 1,
    ;
}

/// A chunk's stored bytes follow the table and those of the chunks before it:
/// spans neither overlap nor leave a gap.
pub proof fn law_spans_follow_each_other(lengths: Seq<u32>, n: int)
    requires
        0 <= n < lengths.len(),
    ensures
        stored_before(lengths, 0) == 0,
        stored_before(lengths, n + 1) == stored_before(lengths, n) + lengths[n],
        stored_before(lengths, n) >= 0,
    decreases n,
{
    if n > 0 {
        law_spans_follow_each_other(lengths, n - 1);
    }
}

/// Where a table says what: the plaintext's length in the first four bytes,
/// lowest first, the chunk's log2 in the fifth, and then of each chunk its
/// stored length and its chaining value.
pub proof fn law_where_a_table_says_what(t: TableView, i: int)
    requires
        0 <= t.plain_len <= u32::MAX,
        t.exponent <= MAX_LOG2,
        t.cvs.len() == t.stored_lengths.len(),
        forall|j: int| 0 <= j < t.cvs.len() ==> (#[trigger] t.cvs[j]).len() == 32,
        0 <= i < t.cvs.len(),
    ensures
        table_bytes(t).len() == 5 + 36 * t.cvs.len(),
        table_bytes(t).subrange(0, 4) == vstd::bytes::spec_u32_to_le_bytes(t.plain_len as u32),
        table_bytes(t)[4] == t.exponent,
        table_bytes(t).subrange(5 + 36 * i, 9 + 36 * i) == vstd::bytes::spec_u32_to_le_bytes(
            t.stored_lengths[i],
        ),
        table_bytes(t).subrange(9 + 36 * i, 41 + 36 * i) == t.cvs[i],
{
    let n = t.cvs.len() as int;
    vstd::bytes::lemma_auto_spec_u32_to_from_le_bytes();
    lemma_entry_bytes(t.stored_lengths, t.cvs, n);
    let entries = entry_bytes(t.stored_lengths, t.cvs, n);
    let all = table_bytes(t);
    let le = vstd::bytes::spec_u32_to_le_bytes(t.plain_len as u32);
    assert(le.len() == 4);
    assert(all =~= le.push(t.exponent as u8) + entries);
    assert(all.subrange(0, 4) =~= le);
    assert(all.subrange(5 + 36 * i, 9 + 36 * i) =~= entries.subrange(36 * i, 36 * i + 4));
    assert(entries.subrange(36 * i, 36 * i + 4) == vstd::bytes::spec_u32_to_le_bytes(
        t.stored_lengths[i],
    ));
    assert(all.subrange(9 + 36 * i, 41 + 36 * i) =~= entries.subrange(36 * i + 4, 36 * i + 36));
    assert(entries.subrange(36 * i + 4, 36 * i + 36) == t.cvs[i]);
}

/// A table that is cut short is refused, wherever it is cut: as one without a
/// header where the header is cut, and else as a short one.
pub proof fn law_a_cut_table_is_refused(t: TableView, cut: int)
    requires
        MIN_LOG2 <= t.exponent <= MAX_LOG2,
        0 <= t.plain_len <= u32::MAX,
        t.stored_lengths.len() == chunk_count(t.plain_len, two_to(t.exponent)),
        t.cvs.len() == t.stored_lengths.len(),
        forall|i: int| 0 <= i < t.cvs.len() ==> (#[trigger] t.cvs[i]).len() == 32,
        0 <= cut < table_bytes(t).len(),
    ensures
        cut < 5 ==> table_read(table_bytes(t).take(cut)) == Err::<TableView, ChunkError>(
            ChunkError::MissingHeader,
        ),
        cut >= 5 ==> table_read(table_bytes(t).take(cut)) == Err::<TableView, ChunkError>(
            ChunkError::ShortTable,
        ),
{
    law_table_round_trip(t, Seq::empty());
    vstd::bytes::lemma_auto_spec_u32_to_from_le_bytes();
    let all = table_bytes(t);
    let le = vstd::bytes::spec_u32_to_le_bytes(t.plain_len as u32);
    assert(le.len() == 4);
    if cut >= 5 {
        assert(all.take(cut).subrange(0, 4) =~= le);
        assert(all.take(cut)[4] == t.exponent as u8);
    }
}

/// A header whose log2 no chunk can have is refused, with that log2.
pub proof fn law_a_chunk_out_of_range_is_refused(stored: Seq<u8>)
    requires
        stored.len() >= 5,
        stored[4] < 10 || stored[4] > 28,
    ensures
        table_read(stored) == Err::<TableView, ChunkError>(
            ChunkError::SizeOutOfRange { log2: stored[4] },
        ),
{
}

/// The left subtree is the largest whose length is a power of two and that
/// leaves something to the right.
pub proof fn law_the_left_subtree_is_the_larger(len: int, m: nat)
    requires
        len >= 2,
        two_to(m) < len <= 2 * two_to(m),
    ensures
        left_len(len) == two_to(m),
{
    let a = lemma_left_len(len);
    lemma_two_to_order(a, m);
    lemma_two_to_order(m, a);
}

} // verus!
