//! The block map, and the map rebuilt from segments.

use elide_core::extent_index::{DeltaLocation, ExtentIndex};
use elide_core::ids::{content_hash, ContentHash, Ulid};
use elide_core::lbamap::{ExtentRead, LbaMap};
use elide_core::rebuild::{
    highest_ulid, rebuild_segments, rebuild_segments_with_ceiling, ParsedSegment,
};
use elide_core::segment::{Codec, DeltaOption, EntryKind, SegmentEntry};

fn h(b: u8) -> ContentHash {
    content_hash(&[b; 32])
}

/// Deterministic ULID derived from a single byte; ordering matches the
/// byte ordering. Used for tests that don't care which segment claims
/// what, only that `insert` accepts a claimant.
fn u(b: u8) -> Ulid {
    Ulid::from_parts(b as u64, 0)
}

/// The claim counts are those of a recount over the map.
fn assert_claim_counts(map: &LbaMap) {
    let entries = map.iter_entries();
    for (_, _, hash, _) in &entries {
        let n = entries.iter().filter(|e| e.2 == *hash).count();
        assert_eq!(map.claim_refcount(hash) as usize, n);
    }
    for b in 0..=255u8 {
        if !entries.iter().any(|e| e.2 == h(b)) {
            assert_eq!(map.claim_refcount(&h(b)), 0);
        }
    }
}

// --- register_entry routing tests ---

fn entry(
    kind: EntryKind,
    start_lba: u64,
    lba_length: u32,
    hash: ContentHash,
) -> SegmentEntry {
    SegmentEntry {
        hash,
        start_lba,
        lba_length,
        codec: Codec::Plain,
        kind,
        stored_offset: 0,
        stored_length: 0,
        delta_options: Vec::new(),
        journal: false,
    }
}

fn delta_entry(
    start_lba: u64,
    lba_length: u32,
    hash: ContentHash,
    source: ContentHash,
) -> SegmentEntry {
    let mut e = entry(EntryKind::Delta, start_lba, lba_length, hash);
    e.delta_options = vec![DeltaOption {
        source_hash: source,
        delta_offset: 0,
        delta_length: 0,
        delta_hash: content_hash(&[0u8; 32]),
    }];
    e
}

#[test]
fn register_entry_canonical_kinds_make_no_claim() {
    let mut map = LbaMap::new();
    map.register_entry(&entry(EntryKind::CanonicalData, 0, 4, h(1)), u(1));
    map.register_entry(
        &entry(EntryKind::CanonicalInline, 0, 4, h(2)),
        u(1),
    );
    assert_eq!(map.len(), 0);
}

#[test]
fn register_entry_routes_body_kinds_to_plain_claim() {
    let mut map = LbaMap::new();
    for (i, kind) in [
        EntryKind::Data,
        EntryKind::Inline,
        EntryKind::DedupRef,
        EntryKind::Zero,
    ]
    .into_iter()
    .enumerate()
    {
        let start = i as u64 * 10;
        map.register_entry(&entry(kind, start, 4, h(i as u8)), u(1));
        assert_eq!(map.lookup(start), Some((h(i as u8), 0)));
    }
}

#[test]
fn register_entry_routes_delta_to_plain_claim() {
    let mut map = LbaMap::new();
    map.register_entry(&delta_entry(0, 4, h(1), h(9)), u(1));
    assert_eq!(map.lookup(0), Some((h(1), 0)));
    assert!(map.is_referenced(&h(1)));
}

#[test]
fn register_entry_consuming_inputs_overrides_input_claim_only() {
    let mut map = LbaMap::new();
    // u(5) is a consumed input despite being newer than the output u(3);
    // u(9) is a concurrent writer and must survive.
    map.insert(0, 4, h(1), u(5));
    map.insert(10, 4, h(2), u(9));
    let inputs: Vec<Ulid> = vec![u(5)];
    map.register_entry_consuming_inputs(
        &entry(EntryKind::Data, 0, 4, h(3)),
        u(3),
        &inputs,
    );
    map.register_entry_consuming_inputs(
        &entry(EntryKind::Data, 10, 4, h(4)),
        u(3),
        &inputs,
    );
    assert_eq!(map.lookup(0), Some((h(3), 0)));
    assert_eq!(map.lookup(10), Some((h(2), 0)));
}

/// The exact-extent path carries a hash forward under a new
/// claimant, which is what every unresliced entry of a GC fold does.
#[test]
fn consuming_inputs_restates_an_exact_extent_under_the_new_claimant() {
    let mut map = LbaMap::new();
    map.insert(8, 4, h(1), u(5));
    let inputs: Vec<Ulid> = vec![u(5)];

    let installed = map.insert_consuming_inputs(8, 4, h(1), u(7), &inputs);

    assert_eq!(installed, 4);
    assert_eq!(map.lookup(8), Some((h(1), 0)));
    assert_eq!(map.lookup(11), Some((h(1), 3)));
    assert!(map.is_referenced(&h(1)));
    assert_claim_counts(&map);
}

/// Same extent, different hash: the claim count moves across.
#[test]
fn consuming_inputs_exact_extent_moves_the_claim_count() {
    let mut map = LbaMap::new();
    map.insert(8, 4, h(1), u(5));
    let inputs: Vec<Ulid> = vec![u(5)];

    let installed = map.insert_consuming_inputs(8, 4, h(2), u(7), &inputs);

    assert_eq!(installed, 4);
    assert_eq!(map.lookup(8), Some((h(2), 0)));
    assert!(!map.is_referenced(&h(1)));
    assert!(map.is_referenced(&h(2)));
    assert_claim_counts(&map);
}

/// A claimant outside the consumed set keeps the whole extent.
#[test]
fn consuming_inputs_exact_extent_defers_to_a_blocking_claimant() {
    let mut map = LbaMap::new();
    map.insert(8, 4, h(1), u(9));
    let inputs: Vec<Ulid> = vec![u(5)];

    let installed = map.insert_consuming_inputs(8, 4, h(2), u(7), &inputs);

    assert_eq!(installed, 0);
    assert_eq!(map.lookup(8), Some((h(1), 0)));
    assert!(!map.is_referenced(&h(2)));
    assert_claim_counts(&map);
}

#[test]
fn register_entry_consuming_inputs_routes_delta_to_plain_claim() {
    let mut map = LbaMap::new();
    map.insert(0, 4, h(1), u(5));
    let inputs: Vec<Ulid> = vec![u(5)];
    map.register_entry_consuming_inputs(&delta_entry(0, 4, h(2), h(9)), u(3), &inputs);
    assert_eq!(map.lookup(0), Some((h(2), 0)));
}

/// A claimant above the output's view horizon names a write its pass
/// never classified: it keeps the range whatever the ULID order of
/// claimant and output says (u(20) < u(30) here).
#[test]
fn register_with_horizon_defers_to_claimant_above_horizon() {
    let mut map = LbaMap::new();
    map.insert(0, 4, h(2), u(20));
    let installed = map.register_entry_with_horizon(
        &entry(EntryKind::Data, 0, 4, h(1)),
        u(30),
        u(10),
    );
    assert_eq!(installed, 0);
    assert_eq!(map.lookup(0), Some((h(2), 0)));
    assert_claim_counts(&map);
}

/// A claimant at or below the horizon holds a claim the output's pass
/// classified dead; the output overrides it.
#[test]
fn register_with_horizon_overrides_claimant_below_horizon() {
    let mut map = LbaMap::new();
    map.insert(0, 4, h(3), u(5));
    let installed = map.register_entry_with_horizon(
        &entry(EntryKind::Data, 0, 4, h(1)),
        u(30),
        u(10),
    );
    assert_eq!(installed, 4);
    assert_eq!(map.lookup(0), Some((h(1), 0)));
    assert_claim_counts(&map);
}

/// Same hash above the horizon: identical bytes, so the output adopts
/// the claim under its higher ULID and no read changes.
#[test]
fn register_with_horizon_adopts_same_hash_above_horizon() {
    let mut map = LbaMap::new();
    map.insert(0, 4, h(1), u(20));
    let installed = map.register_entry_with_horizon(
        &entry(EntryKind::Data, 0, 4, h(1)),
        u(30),
        u(10),
    );
    assert_eq!(installed, 4);
    assert_eq!(map.lookup(0), Some((h(1), 0)));
    assert_claim_counts(&map);
}

// --- insert / lookup unit tests ---

#[test]
fn empty_lookup_returns_none() {
    let map = LbaMap::new();
    assert!(map.lookup(0).is_none());
    assert!(map.lookup(100).is_none());
}

#[test]
fn insert_and_lookup_exact() {
    let mut map = LbaMap::new();
    map.insert(10, 5, h(1), u(1));
    // First block of extent — offset 0.
    assert_eq!(map.lookup(10), Some((h(1), 0)));
    // Middle block — offset 2.
    assert_eq!(map.lookup(12), Some((h(1), 2)));
    // Last block — offset 4.
    assert_eq!(map.lookup(14), Some((h(1), 4)));
}

#[test]
fn lookup_miss_outside_extent() {
    let mut map = LbaMap::new();
    map.insert(10, 5, h(1), u(1)); // covers [10, 15)
    assert!(map.lookup(9).is_none());
    assert!(map.lookup(15).is_none());
    assert!(map.lookup(100).is_none());
}

#[test]
fn lookup_miss_in_gap() {
    let mut map = LbaMap::new();
    map.insert(0, 5, h(1), u(1)); // [0, 5)
    map.insert(10, 5, h(2), u(2)); // [10, 15)
    assert!(map.lookup(5).is_none());
    assert!(map.lookup(7).is_none());
    assert!(map.lookup(9).is_none());
}

#[test]
fn insert_overwrites_exact_range() {
    let mut map = LbaMap::new();
    map.insert(0, 10, h(1), u(1));
    map.insert(0, 10, h(2), u(2));
    assert_eq!(map.len(), 1);
    assert_eq!(map.lookup(0), Some((h(2), 0)));
    assert_eq!(map.lookup(9), Some((h(2), 9)));
}

#[test]
fn insert_trims_predecessor_tail() {
    // [0, 20) → A; then insert [10, 30) → B.
    // Expected: [0, 10) → A, [10, 30) → B.
    let mut map = LbaMap::new();
    map.insert(0, 20, h(1), u(1));
    map.insert(10, 20, h(2), u(2));
    assert_eq!(map.len(), 2);
    assert_eq!(map.lookup(5), Some((h(1), 5)));
    assert_eq!(map.lookup(9), Some((h(1), 9)));
    assert_eq!(map.lookup(10), Some((h(2), 0)));
    assert_eq!(map.lookup(29), Some((h(2), 19)));
}

#[test]
fn insert_splits_predecessor() {
    // [0, 100) → A; then insert [30, 20) → B (range [30, 50)).
    // Expected: [0, 30) → A, [30, 50) → B, [50, 100) → A.
    let mut map = LbaMap::new();
    map.insert(0, 100, h(1), u(1));
    map.insert(30, 20, h(2), u(2));
    assert_eq!(map.len(), 3);
    assert_eq!(map.lookup(0), Some((h(1), 0)));
    assert_eq!(map.lookup(29), Some((h(1), 29)));
    assert_eq!(map.lookup(30), Some((h(2), 0)));
    assert_eq!(map.lookup(49), Some((h(2), 19)));
    assert_eq!(map.lookup(50), Some((h(1), 50)));
    assert_eq!(map.lookup(99), Some((h(1), 99)));
}

#[test]
fn insert_removes_fully_covered_entries() {
    // Three adjacent entries; overwrite the middle two.
    let mut map = LbaMap::new();
    map.insert(0, 10, h(1), u(1)); // [0, 10)
    map.insert(10, 10, h(2), u(2)); // [10, 20)
    map.insert(20, 10, h(3), u(3)); // [20, 30)
    map.insert(8, 15, h(4), u(4)); // [8, 23) — covers parts of all three
    // Expected: [0, 8) → A, [8, 23) → D, [23, 30) → C.
    assert_eq!(map.len(), 3);
    assert_eq!(map.lookup(7), Some((h(1), 7)));
    assert_eq!(map.lookup(8), Some((h(4), 0)));
    assert_eq!(map.lookup(22), Some((h(4), 14)));
    assert_eq!(map.lookup(23), Some((h(3), 3)));
    assert_eq!(map.lookup(29), Some((h(3), 9)));
}

#[test]
fn insert_preserves_tail_of_last_covered_entry() {
    // [50, 100) → A; insert [30, 40) → B (range [30, 70)).
    // [50, 100) starts within [30, 70) but extends past 70.
    // Expected: [30, 70) → B, [70, 100) → A.
    // (Nothing before 30 to worry about.)
    let mut map = LbaMap::new();
    map.insert(50, 50, h(1), u(1)); // [50, 100)
    map.insert(30, 40, h(2), u(2)); // [30, 70)
    assert_eq!(map.len(), 2);
    assert_eq!(map.lookup(30), Some((h(2), 0)));
    assert_eq!(map.lookup(69), Some((h(2), 39)));
    assert_eq!(map.lookup(70), Some((h(1), 20)));
    assert_eq!(map.lookup(99), Some((h(1), 49)));
}

// --- rebuild ---

fn segment_of(ulid: &str, inputs: &[&str], entries: Vec<SegmentEntry>) -> ParsedSegment {
    ParsedSegment {
        ulid: Ulid::from_string(ulid).unwrap(),
        entries,
        inputs: inputs.iter().map(|i| Ulid::from_string(i).unwrap()).collect(),
    }
}

#[test]
fn rebuild_from_segments_in_order() {
    // Segment 1 (ULID "01A..."): covers [0, 10) → hash_1.
    // Segment 2 (ULID "01B..."): overwrites [5, 10) → hash_2.
    let map = rebuild_segments(&vec![vec![
        segment_of(
            "01AAAAAAAAAAAAAAAAAAAAAAAA",
            &[],
            vec![entry(EntryKind::Data, 0, 10, h(1))],
        ),
        segment_of(
            "01BBBBBBBBBBBBBBBBBBBBBBBB",
            &[],
            vec![entry(EntryKind::Data, 5, 5, h(2))],
        ),
    ]]);

    // [0, 5) should be from segment 1.
    assert_eq!(map.lookup(0), Some((h(1), 0)));
    assert_eq!(map.lookup(4), Some((h(1), 4)));
    // [5, 10) should be from segment 2 (newer wins).
    assert_eq!(map.lookup(5), Some((h(2), 0)));
    assert_eq!(map.lookup(9), Some((h(2), 4)));
}

#[test]
fn rebuild_low_ulid_pending_loses_to_higher_committed() {
    // The walk visits committed segments before pending ones, so the low
    // pending segment comes last; the higher committed claim still wins.
    let map = rebuild_segments(&vec![vec![
        segment_of(
            "01BBBBBBBBBBBBBBBBBBBBBBBB",
            &[],
            vec![entry(EntryKind::Data, 5, 5, h(2))],
        ),
        segment_of(
            "01AAAAAAAAAAAAAAAAAAAAAAAA",
            &[],
            vec![entry(EntryKind::Data, 0, 10, h(1))],
        ),
    ]]);

    // [0, 5): only the pending segment claims it.
    assert_eq!(map.lookup(0), Some((h(1), 0)));
    assert_eq!(map.lookup(4), Some((h(1), 4)));
    // [5, 10): the higher-ULID committed claim wins.
    assert_eq!(map.lookup(5), Some((h(2), 0)));
    assert_eq!(map.lookup(9), Some((h(2), 4)));
}

/// A flush lands while a pack closes; the pack output mints above it carrying
/// an input's claim the flush superseded. The output's recorded inputs
/// horizon lets the rebuild keep the flush.
#[test]
fn rebuild_output_defers_to_flush_above_its_horizon() {
    let map = rebuild_segments(&vec![vec![
        segment_of(
            "01DDDDDDDDDDDDDDDDDDDDDDDD",
            &["01BBBBBBBBBBBBBBBBBBBBBBBB"],
            vec![entry(EntryKind::Data, 0, 10, h(1))],
        ),
        segment_of(
            "01CCCCCCCCCCCCCCCCCCCCCCCC",
            &[],
            vec![entry(EntryKind::Data, 0, 10, h(2))],
        ),
    ]]);

    assert_eq!(map.lookup(0), Some((h(2), 0)));
    assert_eq!(map.lookup(9), Some((h(2), 9)));
}

/// The everyday state after a pack: an old segment still on disk holds a
/// claim the (since unlinked) input had superseded. The old claimant
/// sits below the output's inputs horizon, so the output overrides it.
#[test]
fn rebuild_output_overrides_stale_claim_below_its_horizon() {
    let map = rebuild_segments(&vec![vec![
        segment_of(
            "01AAAAAAAAAAAAAAAAAAAAAAAA",
            &[],
            vec![entry(EntryKind::Data, 0, 10, h(3))],
        ),
        segment_of(
            "01DDDDDDDDDDDDDDDDDDDDDDDD",
            &["01BBBBBBBBBBBBBBBBBBBBBBBB"],
            vec![entry(EntryKind::Data, 0, 10, h(1))],
        ),
    ]]);

    assert_eq!(map.lookup(0), Some((h(1), 0)));
    assert_eq!(map.lookup(9), Some((h(1), 9)));
}

#[test]
fn rebuild_empty_dirs_returns_empty_map() {
    let map = rebuild_segments(&vec![vec![]]);
    assert!(map.is_empty());
    let (map, ceiling) = rebuild_segments_with_ceiling(&vec![]);
    assert!(map.is_empty());
    assert_eq!(ceiling, None);
}

#[test]
fn rebuild_merges_ancestor_chain() {
    // Ancestor: LBA 0..10 → h(1). Live node: LBA 5..10 → h(2) (shadows it).
    let (map, ceiling) = rebuild_segments_with_ceiling(&vec![
        vec![segment_of(
            "01AAAAAAAAAAAAAAAAAAAAAAAA",
            &[],
            vec![entry(EntryKind::Data, 0, 10, h(1))],
        )],
        vec![segment_of(
            "01BBBBBBBBBBBBBBBBBBBBBBBB",
            &[],
            vec![entry(EntryKind::Data, 5, 5, h(2))],
        )],
    ]);

    // Ancestor range not overwritten.
    assert_eq!(map.lookup(0), Some((h(1), 0)));
    assert_eq!(map.lookup(4), Some((h(1), 4)));
    // Live node shadows ancestor.
    assert_eq!(map.lookup(5), Some((h(2), 0)));
    assert_eq!(map.lookup(9), Some((h(2), 4)));
    assert_eq!(ceiling, Ulid::from_string("01BBBBBBBBBBBBBBBBBBBBBBBB"));
}

#[test]
fn rebuild_registers_delta_source_hashes() {
    // A segment with a Delta entry claims its content hash, and the
    // named-source set over the extent index carries its source hashes,
    // which keeps the source bodies from being collected.
    let claimed = h(7);
    let source_a = h(11);
    let source_b = h(13);
    let unrelated = h(99);

    let options = vec![
        DeltaOption {
            source_hash: source_a,
            delta_offset: 0,
            delta_length: 16,
            delta_hash: content_hash(b"blob-a"),
        },
        DeltaOption {
            source_hash: source_b,
            delta_offset: 16,
            delta_length: 16,
            delta_hash: content_hash(b"blob-b"),
        },
    ];
    let segment = Ulid::from_string("01AAAAAAAAAAAAAAAAAAAAAAAA").unwrap();
    let map = rebuild_segments(&vec![vec![ParsedSegment {
        ulid: segment,
        entries: vec![SegmentEntry::new_delta(claimed, 0, 1, options.clone())],
        inputs: vec![],
    }]]);
    let mut referenced = map.claim_referenced_hashes();

    assert!(referenced.contains(&claimed));
    assert!(!referenced.contains(&source_a));
    let mut index = ExtentIndex::new();
    index.insert_delta_if_absent(claimed, DeltaLocation { segment_id: segment, options });
    index.add_named_delta_sources(&mut referenced);
    assert!(referenced.contains(&source_a));
    assert!(referenced.contains(&source_b));
    assert!(!referenced.contains(&unrelated));
}

#[test]
fn the_order_of_flushes_does_not_matter() {
    let segments = |order: [usize; 3]| {
        let mut all: Vec<ParsedSegment> = Vec::new();
        for i in order {
            let n = i as u8;
            all.push(ParsedSegment {
                ulid: u(n + 1),
                entries: vec![entry(EntryKind::Data, i as u64 * 3, 6, h(n))],
                inputs: vec![],
            });
        }
        rebuild_segments(&vec![all]).iter_entries_with_claimant()
    };
    let expected = segments([0, 1, 2]);
    for order in [[0, 2, 1], [1, 0, 2], [1, 2, 0], [2, 0, 1], [2, 1, 0]] {
        let got = segments(order);
        for lba in 0..12u64 {
            let at = |list: &[(u64, u32, ContentHash, u32, Ulid)]| {
                list.iter()
                    .find(|e| e.0 <= lba && lba < e.0 + e.1 as u64)
                    .map(|e| (e.2, e.3 as u64 + lba - e.0, e.4))
            };
            assert_eq!(at(&got), at(&expected));
        }
    }
}

#[test]
fn the_highest_ulid_is_the_horizon() {
    assert_eq!(highest_ulid(&[]), None);
    assert_eq!(highest_ulid(&[u(3), u(9), u(4)]), Some(u(9)));
}

#[test]
fn one_hash_is_found_wherever_it_lies() {
    let mut map = LbaMap::new();
    map.insert(0, 10, h(1), u(1));
    map.insert(3, 1, h(2), u(2));
    map.insert_with_offset(20, 2, 7, h(1), u(3));
    assert_eq!(map.lbas_for_hash(&h(1)), vec![(0, 3), (4, 6), (20, 2)]);
    assert_eq!(map.runs_for_hash(&h(1)), vec![(0, 3, 0), (4, 6, 4), (20, 2, 7)]);
    assert_eq!(map.lookup_with_claimant(5), Some((h(1), 5, u(1))));
    assert_eq!(map.hash_at(3), Some(h(2)));
    assert_eq!(map.hash_at(10), None);
    assert_eq!(map.lookup(21), Some((h(1), 8)));
    assert!(map.has_full_match(3, 1, &h(2)));
    assert!(!map.has_full_match(3, 2, &h(2)));
    assert!(!map.has_full_match(20, 2, &h(1)));
}

#[test]
fn a_claim_moves_up_and_never_down() {
    let mut map = LbaMap::new();
    map.insert(0, 4, h(1), u(3));
    map.insert(4, 4, h(1), u(9));
    assert_eq!(map.set_claimant_if_matches(0, 8, h(1), u(5)), 1);
    assert_eq!(map.claimant_at(0), Some(u(5)));
    assert_eq!(map.claimant_at(4), Some(u(9)));
    assert_eq!(map.claimant_at(8), None);
}

#[test]
fn delta_sources_count_as_referenced() {
    let mut map = LbaMap::new();
    map.insert(0, 4, h(1), u(3));
    let mut sources = elide_core::hash_set::Blake3HashSet::new();
    sources.insert(h(2));
    sources.insert(h(2));
    sources.extend(&[h(3), h(1)]);
    let view = map.referenced_hashes(sources);
    assert!(view.contains(&h(1)) && view.contains(&h(2)) && view.contains(&h(3)));
    assert!(!view.contains(&h(4)));
}

#[test]
fn a_copy_of_the_map_stands_alone() {
    let mut map = LbaMap::default();
    map.insert(0, 4, h(1), u(3));
    let copy = map.clone();
    map.insert(0, 4, h(2), u(4));
    assert_eq!(copy.lookup(0), Some((h(1), 0)));
    assert_eq!(map.lookup(0), Some((h(2), 0)));
    assert_eq!(copy.claim_refcount(&h(1)), 1);
}

// --- insert_if_newer tests ---

#[test]
fn insert_if_newer_installs_into_empty_map() {
    let mut map = LbaMap::new();
    map.insert_if_newer(0, 4, h(1), u(5));
    assert_eq!(map.lookup(0), Some((h(1), 0)));
    assert_eq!(map.lookup(3), Some((h(1), 3)));
}

#[test]
fn insert_if_newer_overrides_lower_claimant() {
    let mut map = LbaMap::new();
    map.insert(0, 4, h(1), u(2));
    map.insert_if_newer(0, 4, h(2), u(5));
    assert_eq!(map.lookup(0), Some((h(2), 0)));
}

#[test]
fn insert_if_newer_preserves_higher_claimant() {
    let mut map = LbaMap::new();
    map.insert(0, 4, h(1), u(9));
    map.insert_if_newer(0, 4, h(2), u(5));
    assert_eq!(map.lookup(0), Some((h(1), 0)));
}

#[test]
fn insert_if_newer_preserves_equal_claimant() {
    // Idempotency: replaying the same structural commit's output
    // shouldn't overwrite itself with stale split offsets.
    let mut map = LbaMap::new();
    map.insert(0, 4, h(1), u(5));
    map.insert_if_newer(0, 4, h(2), u(5));
    assert_eq!(map.lookup(0), Some((h(1), 0)));
}

#[test]
fn insert_if_newer_splits_around_higher_claimant_in_middle() {
    // Existing claim of [4, 6) at higher claimant; structural commit
    // wants to install [0, 10) → h(2) at lower claimant. Head and
    // tail get installed; middle is preserved.
    //
    // The tail gap [6, 10) inherits its `payload_block_offset` from
    // its distance to the original carry's start_lba (= 6) — without
    // this, reads at lba 6..9 would resolve to the carry's body
    // block 0..3 instead of block 6..9.
    let mut map = LbaMap::new();
    map.insert(4, 2, h(9), u(9));
    map.insert_if_newer(0, 10, h(2), u(5));
    assert_eq!(map.lookup(0), Some((h(2), 0)));
    assert_eq!(map.lookup(3), Some((h(2), 3)));
    assert_eq!(map.lookup(4), Some((h(9), 0)));
    assert_eq!(map.lookup(5), Some((h(9), 1)));
    assert_eq!(map.lookup(6), Some((h(2), 6)));
    assert_eq!(map.lookup(9), Some((h(2), 9)));
}

#[test]
fn insert_if_newer_blocked_by_overlapping_predecessor() {
    // Predecessor [0, 8) at higher claimant overlaps [4, 12); only
    // [8, 12) should be installed.  The installed entry's
    // `payload_block_offset` is its distance to the original carry's
    // start_lba (= 4), so lba 8 resolves to body block 4 of h(2),
    // not block 0.
    let mut map = LbaMap::new();
    map.insert(0, 8, h(9), u(9));
    map.insert_if_newer(4, 8, h(2), u(5));
    assert_eq!(map.lookup(4), Some((h(9), 4)));
    assert_eq!(map.lookup(7), Some((h(9), 7)));
    assert_eq!(map.lookup(8), Some((h(2), 4)));
    assert_eq!(map.lookup(11), Some((h(2), 7)));
}

#[test]
fn insert_if_newer_skips_when_predecessor_covers_entire_range() {
    let mut map = LbaMap::new();
    map.insert(0, 100, h(9), u(9));
    map.insert_if_newer(20, 30, h(2), u(5));
    assert_eq!(map.lookup(20), Some((h(9), 20)));
    assert_eq!(map.lookup(49), Some((h(9), 49)));
}

#[test]
fn insert_if_newer_trims_lower_claimant_predecessor() {
    // Lower-claimant predecessor [0, 10) gets trimmed by the new
    // [4, 8) claim at higher claimant — same as `insert` semantics.
    let mut map = LbaMap::new();
    map.insert(0, 10, h(1), u(2));
    map.insert_if_newer(4, 4, h(2), u(5));
    assert_eq!(map.lookup(3), Some((h(1), 3)));
    assert_eq!(map.lookup(4), Some((h(2), 0)));
    assert_eq!(map.lookup(7), Some((h(2), 3)));
    assert_eq!(map.lookup(8), Some((h(1), 8)));
}

#[test]
fn insert_consuming_inputs_overrides_consumed_higher_claimant() {
    // Sweep scenario: existing claimant u(9) is one of the inputs
    // sweep is consuming; new claimant u(5) is sweep's output ULID
    // (mint order: u_sweep=5, u_flush=9). Install must succeed
    // because u(9) names a segment sweep is about to delete.
    let mut map = LbaMap::new();
    map.insert(0, 4, h(1), u(9));
    let consumed: Vec<Ulid> = vec![u(9)];
    map.insert_consuming_inputs(0, 4, h(2), u(5), &consumed);
    assert_eq!(map.lookup(0), Some((h(2), 0)));
}

#[test]
fn insert_consuming_inputs_preserves_concurrent_higher_claimant() {
    // Existing claimant u(9) is NOT in the consumed set — it's a
    // concurrent writer. Sweep's output at u(5) must not clobber it.
    let mut map = LbaMap::new();
    map.insert(0, 4, h(1), u(9));
    let consumed: Vec<Ulid> = vec![u(7)];
    map.insert_consuming_inputs(0, 4, h(2), u(5), &consumed);
    assert_eq!(map.lookup(0), Some((h(1), 0)));
}

#[test]
fn insert_consuming_inputs_preserves_lower_nonconsumed_claimant() {
    // Existing claimant u(3) sorts BELOW the rewrite output's u(5)
    // but is not a consumed input — e.g. a claim stamped through a
    // WAL minted before the pass's checkpoint — and holds different
    // content (h(1) vs the carried h(2)). The rewrite's plan never
    // saw that write, so the install must leave it untouched: a lower
    // ULID grants no override once the content differs.
    let mut map = LbaMap::new();
    map.insert(0, 4, h(1), u(3));
    let consumed: Vec<Ulid> = vec![u(2)];
    map.insert_consuming_inputs(0, 4, h(2), u(5), &consumed);
    assert_eq!(map.lookup(0), Some((h(1), 0)));
    assert_eq!(map.claimant_at(0), Some(u(3)));
}

#[test]
fn insert_consuming_inputs_adopts_lower_nonconsumed_same_hash_claimant() {
    // Existing claimant u(3) sorts below the output u(5), is not a
    // consumed input, but holds the SAME hash — a second segment with
    // identical bytes (implicit dedup). The rebuild walks ascending
    // and lands on u(5); apply must adopt it too, or the in-memory
    // claimant drifts from the disk rebuild. The bytes are unchanged.
    let mut map = LbaMap::new();
    map.insert(0, 4, h(1), u(3));
    let consumed: Vec<Ulid> = vec![u(2)];
    map.insert_consuming_inputs(0, 4, h(1), u(5), &consumed);
    assert_eq!(map.lookup(0), Some((h(1), 0)));
    assert_eq!(map.claimant_at(0), Some(u(5)));
}

#[test]
fn insert_consuming_inputs_splits_around_concurrent_overlap() {
    // Mix: middle [4, 6) is held by a concurrent writer at u(20);
    // surrounding range was claimed by a consumed input at u(9).
    // Sweep's output at u(5) installs head and tail, leaves middle.
    // The tail gap inherits its `payload_block_offset` from its
    // distance to the carry's start_lba (= 6) so reads at lba 6..9
    // resolve to body block 6..9 of h(2), not block 0..3.
    let mut map = LbaMap::new();
    map.insert(0, 4, h(1), u(9));
    map.insert(4, 2, h(9), u(20));
    map.insert(6, 4, h(1), u(9));
    let consumed: Vec<Ulid> = vec![u(9)];
    map.insert_consuming_inputs(0, 10, h(2), u(5), &consumed);
    assert_eq!(map.lookup(0), Some((h(2), 0)));
    assert_eq!(map.lookup(3), Some((h(2), 3)));
    assert_eq!(map.lookup(4), Some((h(9), 0)));
    assert_eq!(map.lookup(5), Some((h(9), 1)));
    assert_eq!(map.lookup(6), Some((h(2), 6)));
    assert_eq!(map.lookup(9), Some((h(2), 9)));
}

#[test]
fn set_claimant_consuming_input_moves_consumed_higher_claimant() {
    // Delta-repack scenario: the input is the prep-time WAL-flush
    // segment at u(9); the pre-minted output ULID u(5) sorts below
    // it. The promotion must move the claim off the input the apply
    // is about to delete.
    let mut map = LbaMap::new();
    map.insert(0, 4, h(1), u(9));
    assert_eq!(map.set_claimant_consuming_input(0, 4, h(1), u(5), u(9)), 1);
    assert_eq!(map.claimant_at(0), Some(u(5)));
    assert_eq!(map.lookup(0), Some((h(1), 0)));
}

#[test]
fn set_claimant_consuming_input_preserves_concurrent_claimant() {
    // Existing claimant u(9) is not the consumed input — it's a
    // concurrent writer. The strict-newer guard still applies.
    let mut map = LbaMap::new();
    map.insert(0, 4, h(1), u(9));
    assert_eq!(map.set_claimant_consuming_input(0, 4, h(1), u(5), u(7)), 0);
    assert_eq!(map.claimant_at(0), Some(u(9)));
}

#[test]
fn set_claimant_consuming_input_requires_hash_match() {
    // A consumed-input claimant with a different hash is an
    // overwriter's sub-run; the promotion must not touch it.
    let mut map = LbaMap::new();
    map.insert(0, 4, h(3), u(9));
    assert_eq!(map.set_claimant_consuming_input(0, 4, h(1), u(5), u(9)), 0);
    assert_eq!(map.claimant_at(0), Some(u(9)));
}

// --- extents_in_range tests ---

fn extents_vec(map: &LbaMap, start: u64, end: u64) -> Vec<ExtentRead> {
    map.extents_in_range(start, end)
}

#[test]
fn extents_in_range_empty_map() {
    let map = LbaMap::new();
    assert!(extents_vec(&map, 0, 10).is_empty());
}

#[test]
fn extents_in_range_single_extent_fully_inside() {
    let mut map = LbaMap::new();
    map.insert(5, 3, h(1), u(1)); // [5, 8)
    let result = extents_vec(&map, 0, 10);
    assert_eq!(result.len(), 1);
    assert_eq!(result[0].hash, h(1));
    assert_eq!(result[0].range_start, 5);
    assert_eq!(result[0].range_end, 8);
    assert_eq!(result[0].payload_block_offset, 0);
}

#[test]
fn extents_in_range_predecessor_extends_into_range() {
    let mut map = LbaMap::new();
    map.insert(0, 10, h(1), u(1)); // [0, 10)
    // Request [5, 15) — predecessor starts before range but extends in.
    let result = extents_vec(&map, 5, 15);
    assert_eq!(result.len(), 1);
    assert_eq!(result[0].range_start, 5);
    assert_eq!(result[0].range_end, 10);
    assert_eq!(result[0].payload_block_offset, 5); // 5 blocks into the payload
}

#[test]
fn extents_in_range_multiple_extents() {
    let mut map = LbaMap::new();
    map.insert(0, 4, h(1), u(1)); // [0, 4)
    map.insert(4, 4, h(2), u(2)); // [4, 8)
    map.insert(8, 4, h(3), u(3)); // [8, 12)
    let result = extents_vec(&map, 2, 10);
    assert_eq!(result.len(), 3);
    // First: predecessor [0,4) clipped to [2,4)
    assert_eq!(result[0].range_start, 2);
    assert_eq!(result[0].range_end, 4);
    assert_eq!(result[0].payload_block_offset, 2);
    // Second: [4,8) fully inside
    assert_eq!(result[1].range_start, 4);
    assert_eq!(result[1].range_end, 8);
    assert_eq!(result[1].payload_block_offset, 0);
    // Third: [8,12) clipped to [8,10)
    assert_eq!(result[2].range_start, 8);
    assert_eq!(result[2].range_end, 10);
    assert_eq!(result[2].payload_block_offset, 0);
}

#[test]
fn extents_in_range_gap_between_extents() {
    let mut map = LbaMap::new();
    map.insert(0, 2, h(1), u(1)); // [0, 2)
    map.insert(5, 2, h(2), u(2)); // [5, 7) — gap at [2, 5)
    let result = extents_vec(&map, 0, 7);
    assert_eq!(result.len(), 2);
    assert_eq!(result[0].range_start, 0);
    assert_eq!(result[0].range_end, 2);
    assert_eq!(result[1].range_start, 5);
    assert_eq!(result[1].range_end, 7);
}

#[test]
fn extents_in_range_extent_ends_exactly_at_range_start() {
    let mut map = LbaMap::new();
    map.insert(0, 5, h(1), u(1)); // [0, 5) — ends exactly at range start
    map.insert(5, 5, h(2), u(2)); // [5, 10)
    let result = extents_vec(&map, 5, 10);
    assert_eq!(result.len(), 1);
    assert_eq!(result[0].hash, h(2));
}

#[test]
fn extents_in_range_split_extent_payload_offsets() {
    // Insert [0, 10) then split it with [3, 4). Tail [4, 10) gets payload_block_offset = 4.
    // extents_in_range over [5, 8) should return the tail clipped, with
    // payload_block_offset = 4 + (5 - 4) = 5.
    let mut map = LbaMap::new();
    map.insert(0, 10, h(1), u(1));
    map.insert(3, 1, h(2), u(2)); // splits [0,10) into [0,3), [3,4), [4,10) with offset=4
    let result = extents_vec(&map, 5, 8);
    assert_eq!(result.len(), 1);
    assert_eq!(result[0].hash, h(1));
    assert_eq!(result[0].range_start, 5);
    assert_eq!(result[0].range_end, 8);
    assert_eq!(result[0].payload_block_offset, 5); // 4 (tail offset) + 1 (5-4)
}

// --- claim refcount tests ---

#[test]
fn a_claim_is_counted_and_an_overwrite_moves_the_count() {
    let mut map = LbaMap::new();
    map.insert(0, 4, h(1), u(1));
    assert_eq!(map.claim_refcount(&h(1)), 1);
    assert!(map.is_referenced(&h(1)));

    map.insert(0, 4, h(2), u(2));
    assert_eq!(
        map.claim_refcount(&h(1)),
        0,
        "the displaced hash is no longer claimed"
    );
    assert!(!map.is_referenced(&h(1)));
    assert_eq!(map.claim_refcount(&h(2)), 1);
    assert_claim_counts(&map);
}

#[test]
fn a_hole_punch_leaves_both_fragments_counted() {
    let mut map = LbaMap::new();
    map.insert(0, 10, h(1), u(1));
    // Splits [0,10) into [0,3) and [4,10), both still claiming h(1).
    map.insert(3, 1, h(2), u(2));

    assert_eq!(map.claim_refcount(&h(1)), 2);
    assert!(
        map.is_referenced(&h(1)),
        "a hash claimed only by fragments is still live"
    );
    assert_claim_counts(&map);
}

#[test]
fn a_trim_keeps_the_surviving_fragment_counted() {
    let mut map = LbaMap::new();
    map.insert(0, 10, h(1), u(1));
    // Overwrites the tail, leaving [0,6) → h(1).
    map.insert(6, 4, h(2), u(2));

    assert_eq!(map.claim_refcount(&h(1)), 1);
    assert_eq!(map.claim_refcount(&h(2)), 1);
    assert_claim_counts(&map);
}

#[test]
fn separate_ranges_deduping_to_one_hash_count_separately() {
    let mut map = LbaMap::new();
    map.insert(0, 4, h(1), u(1));
    map.insert(100, 4, h(1), u(2));
    assert_eq!(map.claim_refcount(&h(1)), 2);

    map.insert(0, 4, h(9), u(3));
    assert_eq!(
        map.claim_refcount(&h(1)),
        1,
        "the far range still claims it after the near one is overwritten"
    );
    assert!(map.is_referenced(&h(1)));
    assert_claim_counts(&map);
}

#[test]
fn claim_counts_survive_a_churn_sequence() {
    // The oracle is the recount over `inner`; the point of the churn is
    // to drive every trim, split and displacement path into it.
    let mut map = LbaMap::new();
    let mut claimant = 0u8;
    for step in 0..40u64 {
        claimant += 1;
        let start = (step * 7) % 23;
        let len = 1 + (step % 5) as u32;
        map.insert(start, len, h((step % 6) as u8), u(claimant));
        assert_claim_counts(&map);
    }

    // The maintained set is exactly what a walk of the map finds.
    let walked: Vec<ContentHash> = map.iter_entries().into_iter().map(|e| e.2).collect();
    let referenced = map.claim_referenced_hashes();
    for n in 0..=6u8 {
        assert_eq!(referenced.contains(&h(n)), walked.contains(&h(n)));
        assert_eq!(referenced.contains(&h(n)), map.claim_refcount(&h(n)) > 0);
    }
}
