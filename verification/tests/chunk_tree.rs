//! Chunk geometry, chunk verification and chunk tables.

use elide_core::chunk_tree::{
    ChunkError, ChunkSize, ChunkTable, MAX_LOG2, MIN_LOG2, WRITE_CHUNK_LOG2,
};
use elide_core::ids::content_hash;

/// Sizes every geometry test runs at: the smallest a table may declare,
/// two between, and the one the write path takes.
const SIZES: [u8; 5] = [MIN_LOG2, 12, 14, WRITE_CHUNK_LOG2, 20];

fn size(log2: u8) -> ChunkSize {
    ChunkSize::from_log2(log2).expect("a swept size is in range")
}

fn pattern(len: usize) -> Vec<u8> {
    (0..len).map(|i| (i / 97 % 251) as u8).collect()
}

/// The whole point: chaining values taken at chunk boundaries reconstruct
/// the hash `blake3::hash` produces over the same bytes. Lengths straddle
/// one chunk, exact multiples, and both sides of the power-of-two
/// boundaries where BLAKE3 splits its tree, at every size a table may
/// declare — the subtree property is what each size has to earn.
#[test]
fn chunk_chaining_values_reconstruct_the_extent_hash() {
    for log2 in SIZES {
        let s = size(log2);
        let c = s.bytes();
        // The tree shape follows the chunk count, so sweep it widely where
        // chunks are cheap and far enough elsewhere to cross a split.
        let max_chunks = match c {
            0..=16384 => 33,
            16385..=131072 => 17,
            _ => 5,
        };
        let mut lens: Vec<usize> = vec![c + 1, c + 4096, 3 * c + 7];
        for chunks in 2..=max_chunks {
            let exact = chunks * c;
            lens.extend([exact - c + 1, exact - 1, exact]);
        }

        for len in lens {
            let plain = pattern(len);
            let cvs = s.cvs(&plain);
            assert_eq!(cvs.len(), s.count(len), "count at {len} for 2^{log2}");
            assert_eq!(
                s.root_from_cvs(&cvs, len).expect("root"),
                content_hash(&plain),
                "reconstructed root at {len} bytes for a 2^{log2}-byte chunk"
            );
        }
    }
}

#[test]
fn a_chunk_verifies_against_the_extent_hash() {
    for log2 in SIZES {
        let s = size(log2);
        let len = 5 * s.bytes() + 1234;
        let plain = pattern(len);
        let cvs = s.cvs(&plain);
        let hash = content_hash(&plain);

        for index in 0..s.count(len) {
            let chunk = &plain[s.range(index, len)];
            s.verify_chunk(index, chunk, &cvs, len, &hash)
                .unwrap_or_else(|e| panic!("chunk {index} at 2^{log2} verifies: {e:?}"));
        }
    }
}

#[test]
fn a_chunk_whose_bytes_were_altered_is_refused() {
    let s = ChunkSize::write_size();
    let len = 4 * s.bytes();
    let plain = pattern(len);
    let cvs = s.cvs(&plain);
    let hash = content_hash(&plain);

    let mut tampered = plain[s.range(2, len)].to_vec();
    tampered[100] ^= 0xFF;
    let err = s
        .verify_chunk(2, &tampered, &cvs, len, &hash)
        .expect_err("altered chunk");
    assert!(
        err.message().contains("reconstructs extent hash"),
        "got: {err:?}"
    );
}

/// The table is unsigned, so a chaining value for a chunk the reader is
/// not decoding has to be covered too. It is, because every one of them
/// feeds the root.
#[test]
fn a_tampered_chaining_value_for_another_chunk_is_refused() {
    let s = ChunkSize::write_size();
    let len = 4 * s.bytes();
    let plain = pattern(len);
    let hash = content_hash(&plain);

    let mut cvs = s.cvs(&plain);
    cvs[3][0] ^= 0xFF;

    let err = s
        .verify_chunk(0, &plain[s.range(0, len)], &cvs, len, &hash)
        .expect_err("tampered sibling chaining value");
    assert!(
        err.message().contains("reconstructs extent hash"),
        "got: {err:?}"
    );
}

/// Two extents that share a chunk share its chaining value, which is what
/// makes the table a resemblance signal as well as a verifier.
#[test]
fn identical_chunks_have_identical_chaining_values() {
    let s = ChunkSize::write_size();
    let shared = pattern(s.bytes());
    let mut a = shared.clone();
    a.extend(pattern(s.bytes()).iter().map(|b| b ^ 0x11));
    let mut b = shared;
    b.extend(pattern(s.bytes()).iter().map(|b| b ^ 0x22));

    let (ca, cb) = (s.cvs(&a), s.cvs(&b));
    assert_eq!(ca[0], cb[0], "the shared chunk shares its chaining value");
    assert_ne!(ca[1], cb[1]);
}

/// Chunks of the same bytes at the same offset under *different* sizes are
/// different subtrees, so a table read at the wrong size reconstructs
/// nothing. This is what the declared size buys.
#[test]
fn the_same_bytes_under_a_different_chunk_size_do_not_verify() {
    let s = ChunkSize::write_size();
    let other = size(s.log2() - 1);
    let len = 4 * s.bytes();
    let plain = pattern(len);
    let hash = content_hash(&plain);

    let err = other
        .root_from_cvs(&s.cvs(&plain), len)
        .expect_err("a table read at the wrong size does not describe the extent");
    assert!(err.message().contains("expected 8"), "got: {err:?}");

    let cvs = other.cvs(&plain);
    let root = other
        .root_from_cvs(&cvs, len)
        .expect("root at its own size");
    assert_eq!(root, hash, "each size reconstructs the one extent hash");
}

/// A reader asking for chunk `i` cannot be handed chunk `j`'s bytes: the
/// chaining value it reconstructs is for the slot it was substituted into.
#[test]
fn one_chunks_bytes_do_not_verify_at_another_index() {
    let s = ChunkSize::write_size();
    let len = 4 * s.bytes();
    let plain = pattern(len);
    let cvs = s.cvs(&plain);
    let hash = content_hash(&plain);

    s.verify_chunk(1, &plain[s.range(0, len)], &cvs, len, &hash)
        .expect_err("chunk 0's bytes are not chunk 1's content");
}

/// A chaining value covers the chunk's offset as well as its bytes, so
/// repeated content within one extent still gets distinct values. This is
/// what stops the tree from being reorderable.
#[test]
fn repeated_content_at_different_offsets_gets_different_chaining_values() {
    let s = ChunkSize::write_size();
    let mut plain = pattern(s.bytes());
    plain.extend(pattern(s.bytes()));
    assert_eq!(plain[..s.bytes()], plain[s.bytes()..]);

    let cvs = s.cvs(&plain);
    assert_ne!(cvs[0], cvs[1], "identical bytes, different offsets");
}

#[test]
fn chunks_covering_a_range_are_the_ones_holding_it() {
    for log2 in SIZES {
        let s = size(log2);
        let c = s.bytes();
        assert_eq!(s.covering(0, 1), 0..1);
        assert_eq!(s.covering(0, c), 0..1);
        assert_eq!(s.covering(0, c + 1), 0..2);
        assert_eq!(s.covering(c - 1, c + 1), 0..2);
        assert_eq!(s.covering(c, 2 * c), 1..2);
        assert_eq!(s.covering(3 * c, 3 * c + 8), 3..4);
        assert_eq!(s.covering(10, 10), 0..0);
    }
}

#[test]
fn a_table_that_does_not_match_the_plaintext_length_is_refused() {
    let s = ChunkSize::write_size();
    let plain = pattern(3 * s.bytes());
    let cvs = s.cvs(&plain);
    let err = s
        .root_from_cvs(&cvs[..2], plain.len())
        .expect_err("short table");
    assert!(err.message().contains("expected 3"), "got: {err:?}");
}

#[test]
fn a_single_chunk_extent_has_no_root_to_reconstruct() {
    let s = ChunkSize::write_size();
    let plain = pattern(4096);
    let cvs = s.cvs(&plain);
    assert_eq!(cvs.len(), 1);
    s.root_from_cvs(&cvs, plain.len())
        .expect_err("one chunk has no derivable root");
}

/// A size off the power-of-two ladder or past what an extent can be is
/// refused where it is read, so nothing downstream slices at a geometry
/// that lands off a subtree boundary.
#[test]
fn a_chunk_size_outside_the_ladder_is_refused() {
    for log2 in [0, 1, MIN_LOG2 - 1, MAX_LOG2 + 1, 255] {
        let err = ChunkSize::from_log2(log2).expect_err("out of range");
        assert!(
            err.message().contains("chunk table declares"),
            "got: {err:?}"
        );
    }
    for log2 in [MIN_LOG2, MAX_LOG2] {
        ChunkSize::from_log2(log2).expect("bounds are inclusive");
    }
}

/// The header carries the size, so a table encoded at one size parses back
/// at that size whatever this build writes.
#[test]
fn a_table_round_trips_the_size_it_was_encoded_at() {
    for log2 in SIZES {
        let s = size(log2);
        let plain = pattern(3 * s.bytes() + 11);
        let table = ChunkTable {
            size: s,
            plain_len: plain.len(),
            stored_lengths: vec![7; s.count(plain.len())],
            cvs: s.cvs(&plain),
        };
        let mut encoded = Vec::new();
        table.encode(&mut encoded);
        assert_eq!(
            encoded.len(),
            ChunkTable::encoded_len(plain.len(), s),
            "encoded length at 2^{log2}"
        );

        let parsed = ChunkTable::parse(&encoded).expect("parse");
        assert_eq!(parsed.size, s);
        assert_eq!(parsed.plain_len, plain.len());
        assert_eq!(parsed.cvs, table.cvs);
        assert_eq!(parsed.stored_lengths, table.stored_lengths);
        assert_eq!(
            ChunkTable::peek_header(&encoded).expect("peek"),
            (plain.len(), s)
        );
    }
}

#[test]
fn a_chunk_of_the_write_path_is_128_kib() {
    let s = ChunkSize::write_size();
    assert_eq!(s.bytes(), 131_072);
    assert_eq!(s.log2(), 17);
    assert_eq!(s.count(0), 0);
    assert_eq!(s.count(131_073), 2);
    assert_eq!(s.range(1, 131_073), 131_072..131_073);
}

#[test]
fn a_table_of_three_chunks_has_a_known_shape() {
    let size = ChunkSize::from_log2(10).expect("in range");
    let table = ChunkTable {
        size,
        plain_len: 2500,
        stored_lengths: vec![100, 200, 50],
        cvs: vec![[1; 32], [2; 32], [3; 32]],
    };
    assert_eq!(ChunkTable::encoded_len(2500, size), 5 + 3 * 36);
    assert_eq!(table.chunk_span(0).expect("span"), 113..213);
    assert_eq!(table.chunk_span(2).expect("span"), 413..463);
    assert!(matches!(table.chunk_span(3), Err(ChunkError::PastTable { index: 3 })));
    let mut out = vec![0xaa];
    table.encode(&mut out);
    assert_eq!(&out[..6], &[0xaa, 0xc4, 0x09, 0, 0, 10]);
    assert_eq!(&out[6..11], &[100, 0, 0, 0, 1]);
}

#[test]
fn a_payload_without_its_table_is_refused() {
    assert!(matches!(ChunkTable::parse(&[1, 2, 3, 4]), Err(ChunkError::MissingHeader)));
    assert!(matches!(
        ChunkTable::parse(&[1, 0, 0, 0, 9]),
        Err(ChunkError::SizeOutOfRange { log2: 9 })
    ));
    assert!(matches!(ChunkTable::parse(&[1, 0, 0, 0, 10]), Err(ChunkError::ShortTable)));
    assert_eq!(
        ChunkError::SizeOutOfRange { log2: 9 }.message(),
        "chunk table declares a chunk of 2^9 bytes, outside 2^10..=2^28"
    );
    assert_eq!(ChunkError::PastTable { index: 12 }.message(), "chunk 12 is past the chunk table");
}

#[test]
fn a_chunk_past_the_table_is_refused() {
    let s = ChunkSize::write_size();
    let plain = pattern(2 * s.bytes());
    let cvs = s.cvs(&plain);
    let hash = content_hash(&plain);
    let err = s.verify_chunk(2, &plain[..10], &cvs, plain.len(), &hash).expect_err("past");
    assert!(matches!(err, ChunkError::PastTable { index: 2 }));
}

#[test]
fn the_tables_value_for_the_chunk_itself_is_not_consulted() {
    let size = size(MIN_LOG2);
    let plain = pattern(5000);
    let hash = content_hash(&plain);
    let mut cvs = size.cvs(&plain);
    cvs[2] = [0xff; 32];
    let r = size.range(2, plain.len());
    assert!(size.verify_chunk(2, &plain[r], &cvs, plain.len(), &hash).is_ok());
    let r = size.range(1, plain.len());
    assert!(size.verify_chunk(1, &plain[r], &cvs, plain.len(), &hash).is_err());
}
