//! Deltas: the codec, when one pays, the cache of sources and the choice of them.

use elide_core::delta_codec::{
    apply_delta, delta_is_worth_storing, dictionaryless_len, is_worth_storing, make_delta, within_one_extent,
    DeltaError, DELTA_DECOMPRESS_CAP, ZSTD_LEVEL,
};
use elide_core::delta_compute::{
    convert_against, count_source, match_filemaps, next_candidate, prior_choice,
    reserved_delta_sources, resemblance_choice, verify_source_plaintext, DeltaStats, FileFragments,
    Filemap, Fragment, PendingEntry, PriorChoice, ResemblanceChoice, ResemblanceStats,
    SegmentDeltaStats, SnapshotSourceMap,
};
use elide_core::extent_index::{ExtentIndex, ExtentLocation};
use elide_core::hash_set::Blake3HashSet;
use elide_core::ids::{content_hash, ContentHash, Ulid};
use elide_core::lbamap::LbaMap;
use elide_core::segment::{Codec, EntryKind, SegmentEntry};
use elide_core::source_cache::SourceCache;

/// Text-like content that zstd compresses substantially better than
/// lz4, which is what makes the two bars distinguishable.
fn compressible(len: usize) -> Vec<u8> {
    let mut out = Vec::with_capacity(len);
    let mut i = 0u32;
    while out.len() < len {
        out.extend_from_slice(format!("record {i} field=value status=ok\n").as_bytes());
        i += 1;
    }
    out.truncate(len);
    out
}

#[test]
fn delta_larger_than_the_stored_body_is_rejected() {
    let plain = compressible(8192);
    let stored = lz4_flex::compress_prepend_size(&plain).len() as u32;
    assert!(!delta_is_worth_storing(stored as usize, stored, &plain).expect("gate"));
    assert!(!delta_is_worth_storing(stored as usize + 1, stored, &plain).expect("gate"));
}

#[test]
fn delta_must_beat_plain_zstd_not_just_the_stored_body() {
    let plain = compressible(8192);
    let stored = lz4_flex::compress_prepend_size(&plain).len() as u32;
    let plain_zstd = dictionaryless_len(&plain).expect("control");
    assert!(
        plain_zstd < stored as usize,
        "fixture needs zstd to beat lz4 ({plain_zstd} vs {stored})"
    );

    // Between the two bars: smaller than the stored body, but the
    // dictionary added nothing a plain zstd encode would not have.
    let between = (plain_zstd + stored as usize) / 2;
    assert!(!delta_is_worth_storing(between, stored, &plain).expect("gate"));

    assert!(delta_is_worth_storing(plain_zstd - 1, stored, &plain).expect("gate"));
}

/// An import fragment can be far larger than a guest write, and a delta
/// over one decodes to the whole extent. Measured: importing one Ubuntu
/// cloud image produces a 62.2 MiB extent, which the previous 16 MiB
/// bound turned into a read error.
#[test]
fn a_delta_over_an_extent_larger_than_a_guest_write_applies() {
    let base: Vec<u8> = (0..24 << 20).map(|i| (i / 97 % 251) as u8).collect();
    let mut target = base.clone();
    target[1 << 20..2 << 20].fill(0x5A);

    let blob = zstd::bulk::Compressor::with_dictionary(ZSTD_LEVEL, &base)
        .expect("compressor")
        .compress(&target)
        .expect("compress");

    assert!(
        base.len() > 16 * 1024 * 1024,
        "the fixture has to exceed the bound this covers"
    );
    assert_eq!(apply_delta(&base, &blob).expect("apply"), target);
}

/// A zstd frame declares its window, its content size and optionally a
/// dictionary id, never the level that produced it, which is what makes
/// `ZSTD_LEVEL` a write-time choice with no read-time dependency.
#[test]
fn blobs_apply_regardless_of_the_level_that_produced_them() {
    let base = compressible(64 * 1024);
    let mut target = base.clone();
    target[4096..8192].fill(b'x');

    for level in [1, 3, ZSTD_LEVEL, 19] {
        let blob = zstd::bulk::Compressor::with_dictionary(level, &base)
            .expect("compressor")
            .compress(&target)
            .expect("compress");
        assert_eq!(
            apply_delta(&base, &blob).expect("apply"),
            target,
            "level {level}"
        );
    }
}

fn h(n: u8) -> ContentHash {
    content_hash(&[n])
}

#[test]
fn evicts_least_recently_used_once_the_budget_is_exceeded() {
    let mut cache = SourceCache::with_budget(1000);
    cache.put(h(1), vec![0u8; 400]);
    cache.put(h(2), vec![0u8; 400]);
    // Touching 1 makes 2 the least recently used.
    assert!(cache.get(h(1)).is_some());
    cache.put(h(3), vec![0u8; 400]);

    assert!(cache.bytes() <= 1000, "budget held: {}", cache.bytes());
    assert!(cache.contains(h(1)), "recently used survives");
    assert!(
        !cache.contains(h(2)),
        "least recently used evicted"
    );
    assert!(cache.contains(h(3)));
}

#[test]
fn keeps_a_source_larger_than_the_whole_budget() {
    let mut cache = SourceCache::with_budget(1000);
    cache.put(h(1), vec![0u8; 4000]);

    assert!(cache.contains(h(1)));
    assert_eq!(cache.bytes(), 4000, "an oversized sole entry is not evicted");
}

#[test]
fn an_oversized_entry_is_dropped_once_another_arrives() {
    let mut cache = SourceCache::with_budget(1000);
    cache.put(h(1), vec![0u8; 4000]);
    cache.put(h(2), vec![0u8; 100]);

    assert!(!cache.contains(h(1)));
    assert_eq!(cache.bytes(), 100);
}

#[test]
fn re_putting_the_same_hash_does_not_double_count() {
    let mut cache = SourceCache::with_budget(1000);
    cache.put(h(1), vec![0u8; 300]);
    cache.put(h(1), vec![0u8; 300]);

    assert_eq!(cache.bytes(), 300);
    assert_eq!(cache.len(), 1);
}

#[test]
fn a_source_whose_bytes_match_the_hash_is_served() {
    let seg = Ulid::from_parts(1, 2);
    let bytes = vec![0xABu8; 4096];
    let hash = content_hash(&bytes);
    assert!(verify_source_plaintext(&bytes, hash, seg).is_ok());
}

#[test]
fn a_source_whose_bytes_fail_the_content_check_is_skipped() {
    let seg = Ulid::from_parts(1, 2);
    // The index claims a hash the stored bytes do not have — a wrong
    // read must not become a dictionary.
    let claimed = content_hash(b"content the file does not hold");
    assert!(verify_source_plaintext(&vec![0xABu8; 4096], claimed, seg).is_err());
}

#[test]
fn read_source_extent_refuses_bytes_that_fail_the_content_check() {
    let seg = Ulid::from_parts(1, 2);
    let bytes = vec![0xABu8; 4096];
    let claimed = content_hash(b"content the file does not hold");
    let err = verify_source_plaintext(&bytes, claimed, seg)
        .expect_err("a wrong source read must error, not become a dictionary");
    assert_eq!(err.got, content_hash(&bytes));
    assert_eq!(err.expected, claimed);
    assert_eq!(err.segment_id, seg);
    assert_eq!(err.len, 4096);
}

#[test]
fn a_cached_source_reads_back() {
    let mut cache = SourceCache::new();
    cache.put(h(1), vec![1, 2, 3]);
    assert_eq!(cache.get(h(1)), Some(&vec![1, 2, 3]));
    assert_eq!(cache.get(h(2)), None);
    assert_eq!(cache.bytes(), 3);
}

#[test]
fn a_delta_applies_to_what_it_was_made_of() {
    let base = compressible(4096);
    let mut target = base.clone();
    target[7] = b'#';
    let blob = make_delta(&base, &target).expect("make");
    assert!(blob.len() < 100, "{}", blob.len());
    assert_eq!(apply_delta(&base, &blob).expect("apply"), target);
    assert!(matches!(apply_delta(&base, b"not a frame"), Err(DeltaError::Decompress(_))));
}

fn pending(start_lba: u64, lba_length: u32, hash: ContentHash, body: &[u8]) -> PendingEntry {
    let mut entry = SegmentEntry::new_dedup_ref(hash, start_lba, lba_length);
    entry.kind = EntryKind::Data;
    entry.stored_length = body.len() as u32;
    PendingEntry { entry, body: Some(body.to_vec()), sketch: None }
}

#[test]
fn a_converted_entry_names_its_source() {
    let source = compressible(8192);
    let mut child = source.clone();
    child[4000] = 0;
    let stored = lz4_flex::compress_prepend_size(&child);
    let mut p = pending(3, 2, content_hash(&child), &stored);
    let mut delta_body = vec![9u8; 5];
    let mut stats = SegmentDeltaStats::default();
    let done =
        convert_against(&mut p, content_hash(&source), &source, &child, &mut delta_body, &mut stats)
            .expect("convert");
    assert!(done);
    assert_eq!(p.entry.kind, EntryKind::Delta);
    assert!(p.body.is_none());
    assert_eq!(p.entry.stored_length, 0);
    let option = p.entry.delta_options[0];
    assert_eq!(option.source_hash, content_hash(&source));
    assert_eq!(option.delta_offset, 5);
    let blob = &delta_body[5..];
    assert_eq!(option.delta_length as usize, blob.len());
    assert_eq!(option.delta_hash, content_hash(blob));
    assert_eq!(apply_delta(&source, blob).expect("apply"), child);
    assert_eq!(stats.entries_converted, 1);
    assert_eq!(stats.original_body_bytes, stored.len() as u64);
    assert_eq!(stats.delta_body_bytes, blob.len() as u64);

    let mut total = DeltaStats::default();
    total.add_segment(&stats);
    total.add_segment(&SegmentDeltaStats::default());
    assert_eq!(total.segments_rewritten, 1);
    assert_eq!(total.delta_body_bytes, blob.len() as u64);
}

#[test]
fn an_unlike_source_converts_nothing() {
    let source: Vec<u8> = (0..4096u32).map(|i| (i.wrapping_mul(2654435761) >> 24) as u8).collect();
    let child = compressible(4096);
    let stored = zstd::bulk::compress(&child, ZSTD_LEVEL).expect("control");
    let mut p = pending(3, 1, content_hash(&child), &stored);
    let (mut delta_body, mut stats) = (Vec::new(), SegmentDeltaStats::default());
    let done =
        convert_against(&mut p, content_hash(&source), &source, &child, &mut delta_body, &mut stats)
            .expect("convert");
    assert!(!done);
    assert_eq!(p.entry.kind, EntryKind::Data);
    assert!(delta_body.is_empty());
    assert_eq!(stats, SegmentDeltaStats::default());
}

#[test]
fn a_block_over_other_content_is_tried_unless_it_is_a_source() {
    let prior = SnapshotSourceMap { runs: vec![(0, 4, h(1)), (10, 1, h(2))] };
    assert_eq!(prior.hash_for_lba(3), Some(h(1)));
    assert_eq!(prior.hash_for_lba(4), None);
    assert_eq!(prior.hash_for_lba(10), Some(h(2)));

    let pendings = vec![
        pending(0, 1, h(3), &[0; 8]),
        pending(10, 1, h(1), &[0; 8]),
        pending(10, 1, h(2), &[0; 8]),
        pending(20, 1, h(4), &[0; 8]),
        pending(1, 2, h(5), &[0; 8]),
    ];
    let reserved = reserved_delta_sources(&pendings, &prior);
    assert!(reserved.contains(&h(1)) && reserved.contains(&h(2)) && !reserved.contains(&h(3)));
    let mut stats = SegmentDeltaStats::default();
    let got: Vec<PriorChoice> =
        pendings.iter().map(|p| prior_choice(p, &prior, &reserved, &mut stats)).collect();
    assert_eq!(
        got,
        vec![
            PriorChoice::Try(h(1)),
            PriorChoice::Reserved,
            PriorChoice::Pass,
            PriorChoice::Pass,
            PriorChoice::Pass
        ]
    );
    assert_eq!(stats.entries_reserved_as_sources, 1);
}

#[test]
fn a_body_long_enough_to_sketch_is_probed() {
    let mut reserved = Blake3HashSet::new();
    reserved.insert(h(2));
    let mut stats = ResemblanceStats::default();
    let mut choice = |p: &PendingEntry| resemblance_choice(p, 8192, &reserved, &mut stats);
    assert_eq!(choice(&pending(0, 2, h(1), &[0; 8])), ResemblanceChoice::Probe);
    assert_eq!(choice(&pending(0, 1, h(1), &[0; 8])), ResemblanceChoice::Pass);
    assert_eq!(choice(&pending(0, 2, h(2), &[0; 8])), ResemblanceChoice::Reserved);
    let mut journal = pending(0, 2, h(1), &[0; 8]);
    journal.entry.journal = true;
    assert_eq!(choice(&journal), ResemblanceChoice::Pass);
    let mut empty = pending(0, 2, h(1), &[0; 8]);
    empty.body = None;
    assert_eq!(choice(&empty), ResemblanceChoice::Pass);
    assert_eq!(stats.delta.entries_reserved_as_sources, 1);

    let mut map = LbaMap::new();
    map.insert(0, 1, h(7), Ulid::from_parts(1, 1));
    let referenced = map.referenced_hashes(Blake3HashSet::new());
    let candidates = vec![h(1), h(6), h(7)];
    let mut stats = ResemblanceStats::default();
    assert_eq!(next_candidate(h(1), &candidates, &referenced, 0, &mut stats), 2);
    assert_eq!(stats.candidates_unreferenced, 1);
    assert_eq!(next_candidate(h(1), &candidates, &referenced, 3, &mut stats), 3);
    count_source(&mut stats, false, 100);
    count_source(&mut stats, true, 100);
    assert_eq!(
        (stats.candidates_tried, stats.dictionary_bytes_read, stats.dictionary_cache_hits),
        (2, 100, 1)
    );
}

fn file(path: &str, fragments: &[(u64, u64, u8)]) -> FileFragments {
    FileFragments {
        path: path.to_owned(),
        fragments: fragments
            .iter()
            .map(|f| Fragment { file_offset: f.0, byte_count: f.1, hash: h(f.2) })
            .collect(),
    }
}

#[test]
fn files_laid_out_alike_are_paired_by_fragment() {
    let mut index = ExtentIndex::new();
    for n in [11u8, 12, 13, 14] {
        index.insert_if_absent(
            h(n),
            ExtentLocation {
                segment_id: Ulid::from_parts(1, 1),
                body_offset: 0,
                body_length: 8,
                codec: Codec::Plain,
                inline: false,
            },
        );
    }
    let child = Filemap {
        files: vec![
            file("a", &[(0, 10, 1), (10, 5, 2), (15, 5, 13)]),
            file("b", &[(0, 10, 3)]),
            file("c", &[(0, 9, 4)]),
            file("d", &[(0, 9, 5), (9, 1, 6)]),
            file("e", &[(0, 9, 7)]),
        ],
    };
    let source = Filemap {
        files: vec![
            file("a", &[(0, 10, 11), (10, 5, 12), (15, 5, 13)]),
            file("c", &[(0, 8, 14)]),
            file("d", &[(0, 9, 14)]),
            file("e", &[(0, 9, 15)]),
        ],
    };
    assert_eq!(match_filemaps(&child, &source, &index), vec![(h(1), h(11)), (h(2), h(12))]);
}

#[test]
fn a_delta_pays_below_both_bars() {
    assert!(is_worth_storing(99, 100, 100));
    assert!(!is_worth_storing(100, 100, 200));
    assert!(!is_worth_storing(100, 200, 100));
    assert!(!is_worth_storing(0, 0, 1));
}

#[test]
fn a_delta_decodes_to_no_more_than_one_extent() {
    let base = compressible(4096);
    let at_cap = vec![0u8; DELTA_DECOMPRESS_CAP];
    let blob = make_delta(&base, &at_cap).expect("make");
    assert_eq!(apply_delta(&base, &blob).expect("apply").len(), DELTA_DECOMPRESS_CAP);
    let past_cap = vec![0u8; DELTA_DECOMPRESS_CAP + 1];
    let blob = make_delta(&base, &past_cap).expect("make");
    assert!(matches!(apply_delta(&base, &blob), Err(DeltaError::Decompress(_))));
    assert!(within_one_extent(at_cap).is_ok());
    assert!(matches!(within_one_extent(past_cap), Err(DeltaError::Decompress(_))));
}
