//! What of a segment is live, and what a repack makes of it.

use elide_core::extent_index::{DeltaLocation, ExtentIndex, ExtentLocation};
use elide_core::hash_set::Blake3HashSet;
use elide_core::ids::{content_hash, ContentHash, Ulid};
use elide_core::lbamap::{ExtentRead, LbaMap};
use elide_core::liveness::{is_index_entry_live, live_index_segments};
use elide_core::map_layers::Maps;
use elide_core::rebuild::ParsedSegment;
use elide_core::repack::{
    above_floor, admit_within_budget, emit_plan_outputs, execute_repack, live_hashes,
    make_candidate, pack_buckets, plan_repack, scan_segment, Admission, PlanOutput,
    RepackCandidate, RepackError, ScannedSegment, REPACK_ENTRY_CAP, REPACK_TARGET_LIVE,
};
use elide_core::segment::{Codec, DeltaOption, EntryKind, SegmentEntry};
use elide_core::segment_classify::{
    classify_entry, count_blocks, ClassifyCtx, EntryClassification,
};

fn h(b: u8) -> ContentHash {
    content_hash(&[b; 32])
}

fn u(n: u64) -> Ulid {
    Ulid::from_parts(n, 0)
}

fn entry(kind: EntryKind, start_lba: u64, lba_length: u32, hash: ContentHash) -> SegmentEntry {
    let mut e = SegmentEntry::new_dedup_ref(hash, start_lba, lba_length);
    e.kind = kind;
    e.stored_length = lba_length * 100;
    e
}

fn body(segment: u64) -> ExtentLocation {
    ExtentLocation {
        segment_id: u(segment),
        body_offset: 0,
        body_length: 400,
        codec: Codec::Lz4,
        inline: false,
    }
}

fn scanned(stored_bytes: u64, journal: bool) -> ScannedSegment {
    ScannedSegment {
        input: 0,
        seg_ulid: u(stored_bytes),
        stored_bytes,
        journal,
        all_live: false,
    }
}

fn admitted_bytes(a: &Admission) -> Vec<u64> {
    a.admitted.iter().map(|s| s.stored_bytes).collect()
}

#[test]
fn admission_spends_the_budget_on_the_smallest_segments() {
    // A budget of 10 over 8, 3 and 2: smallest-first fits two segments
    // and folds two objects away, where taking them in the order given
    // would fit 8 and 2 and fold one.
    let a = admit_within_budget(
        vec![scanned(8, false), scanned(3, false), scanned(2, false)],
        10,
    );
    assert_eq!(admitted_bytes(&a), vec![2, 3]);
    assert_eq!(a.spent, 5);
    assert_eq!(a.turned_away, 1);
    assert_eq!(a.turned_away_bytes, 8);
}

#[test]
fn admission_takes_journal_whatever_the_budget() {
    // The lift has to carry all pending journal above the pass's data
    // outputs, so the budget governs data alone.
    let a = admit_within_budget(
        vec![scanned(64, true), scanned(32, true), scanned(4, false)],
        1,
    );
    assert_eq!(admitted_bytes(&a), vec![64, 32]);
    assert_eq!(a.spent, 0, "journal spends none of the budget");
    assert_eq!(a.turned_away, 1);
    assert_eq!(a.turned_away_bytes, 4);
}

#[test]
fn a_segment_is_scanned_for_its_bodies() {
    let mut live = Blake3HashSet::new();
    live.insert(h(1));
    let entries = vec![
        entry(EntryKind::Data, 0, 2, h(1)),
        entry(EntryKind::DedupRef, 4, 2, h(2)),
        entry(EntryKind::Inline, 8, 1, h(1)),
    ];
    let s = scan_segment(3, u(7), &entries, &live);
    assert_eq!((s.input, s.seg_ulid, s.journal), (3, u(7), false));
    assert_eq!(s.stored_bytes, 300);
    assert!(s.all_live);
    let mut journal = vec![entry(EntryKind::Data, 0, 2, h(9))];
    journal[0].journal = true;
    let s = scan_segment(3, u(7), &journal, &live);
    assert!(s.journal && !s.all_live);
    assert!(above_floor(u(7), None));
    assert!(above_floor(u(7), Some(u(6))));
    assert!(!above_floor(u(7), Some(u(7))));
}

/// Segment 5 wrote blocks 0..4, 10..14, 20..24 and 30..34; the second was
/// overwritten, the third in part, and the fourth is a zero range.
fn maps() -> Maps {
    let mut map = LbaMap::new();
    map.insert(0, 4, h(1), u(5));
    map.insert(10, 4, h(9), u(6));
    map.insert(20, 4, h(3), u(5));
    map.insert(21, 1, h(8), u(6));
    map.insert(30, 4, ContentHash::zero(), u(5));
    let mut index = ExtentIndex::new();
    for n in [1u8, 2, 3, 4] {
        index.insert_if_absent(h(n), body(5));
    }
    index.insert_if_absent(h(9), body(6));
    index.insert_if_absent(h(8), body(6));
    Maps::new(map, index)
}

fn class_of(entry: &SegmentEntry, maps: &Maps, live: &Blake3HashSet) -> EntryClassification {
    classify_entry(
        entry,
        &ClassifyCtx {
            lba_map: &maps.lbamap,
            extent_index: &maps.extent_index,
            live_hashes: live,
            segment_id: u(5),
        },
    )
}

fn runs(list: &[ExtentRead]) -> Vec<(u64, u64, u32)> {
    list.iter().map(|r| (r.range_start, r.range_end, r.payload_block_offset)).collect()
}

#[test]
fn an_entry_is_classified_by_the_blocks_it_still_holds() {
    let maps = maps();
    let live = live_hashes(&maps);
    assert!(matches!(
        class_of(&entry(EntryKind::Data, 0, 4, h(1)), &maps, &live),
        EntryClassification::FullyLive
    ));
    // Overwritten, and nothing names it any more.
    assert!(matches!(
        class_of(&entry(EntryKind::Data, 10, 4, h(2)), &maps, &live),
        EntryClassification::DropAndRemoveHash
    ));
    // Overwritten, held elsewhere.
    assert!(matches!(
        class_of(&entry(EntryKind::Data, 10, 4, h(7)), &maps, &live),
        EntryClassification::Drop
    ));
    // Overwritten, and still named.
    let mut named = live_hashes(&maps);
    named.insert(h(2));
    assert!(matches!(
        class_of(&entry(EntryKind::Data, 10, 4, h(2)), &maps, &named),
        EntryClassification::DemoteToCanonical
    ));
    match class_of(&entry(EntryKind::Data, 20, 4, h(3)), &maps, &live) {
        EntryClassification::PartialDeath { live_runs, emit_canonical } => {
            assert_eq!(runs(&live_runs), vec![(20, 21, 0), (22, 24, 2)]);
            assert_eq!(count_blocks(&live_runs), 3);
            assert!(emit_canonical);
        }
        other => panic!("{other:?}"),
    }
    match class_of(&entry(EntryKind::Zero, 30, 4, ContentHash::zero()), &maps, &live) {
        EntryClassification::ZeroSubRuns(list) => assert_eq!(runs(&list), vec![(30, 34, 0)]),
        other => panic!("{other:?}"),
    }
    // A partly dead delta none of whose sources can be found waits.
    let mut delta = entry(EntryKind::Delta, 20, 4, h(3));
    delta.delta_options = vec![DeltaOption {
        source_hash: h(77),
        delta_offset: 0,
        delta_length: 1,
        delta_hash: h(1),
    }];
    assert!(matches!(
        class_of(&delta, &maps, &live),
        EntryClassification::DeferUnresolvableDelta
    ));
}

#[test]
fn an_index_entry_is_live_where_its_place_is_the_one_on_record() {
    let maps = maps();
    let mut index = maps.extent_index.duplicate();
    index.insert_delta_if_absent(h(40), DeltaLocation { segment_id: u(5), options: vec![] });
    index.insert_journal_if_absent(u(5), h(41), body(5));
    let mut live = live_hashes(&maps);
    live.insert(h(40));
    live.insert(h(41));
    let is_live = |segment: u64, e: &SegmentEntry| {
        is_index_entry_live(u(segment), e, &index, &maps.lbamap, &live)
    };
    assert!(is_live(5, &entry(EntryKind::Data, 0, 4, h(1))));
    assert!(!is_live(6, &entry(EntryKind::Data, 0, 4, h(1))));
    assert!(!is_live(5, &entry(EntryKind::Data, 10, 4, h(2))));
    assert!(is_live(6, &entry(EntryKind::DedupRef, 20, 4, h(3))));
    assert!(!is_live(5, &entry(EntryKind::DedupRef, 0, 4, h(3))));
    assert!(is_live(5, &entry(EntryKind::Zero, 33, 9, ContentHash::zero())));
    assert!(is_live(5, &entry(EntryKind::CanonicalDelta, 0, 0, h(40))));
    assert!(!is_live(6, &entry(EntryKind::CanonicalDelta, 0, 0, h(40))));
    let mut journal = entry(EntryKind::Data, 50, 1, h(41));
    journal.journal = true;
    assert!(is_live(5, &journal));
    assert!(!is_live(6, &journal));

    let segments = vec![
        ParsedSegment {
            ulid: u(5),
            entries: vec![entry(EntryKind::Data, 0, 4, h(1))],
            inputs: vec![],
        },
        ParsedSegment {
            ulid: u(4),
            entries: vec![entry(EntryKind::Data, 0, 4, h(50))],
            inputs: vec![],
        },
    ];
    assert_eq!(live_index_segments(&segments, &maps), vec![u(5)]);
}

fn candidate(ulid: u64, live_bytes: u64, live_entry_count: usize, all_live: bool) -> RepackCandidate {
    RepackCandidate {
        input: ulid as usize,
        seg_ulid: u(ulid),
        classifications: vec![EntryClassification::FullyLive],
        live_bytes,
        dead_bytes: 7,
        live_entry_count,
        owned_hashes: vec![h(ulid as u8)],
        claim_ranges: vec![(ulid, 1)],
        all_live,
    }
}

#[test]
fn buckets_are_filled_largest_first() {
    let t = REPACK_TARGET_LIVE;
    let cands = vec![
        candidate(1, t / 4, 1, false),
        candidate(2, t / 2, 1, false),
        candidate(3, t / 2 + 1, 1, false),
        candidate(4, 1, REPACK_ENTRY_CAP, false),
    ];
    let got: Vec<Vec<usize>> =
        pack_buckets(&cands).into_iter().map(|b| b.candidate_idxs).collect();
    assert_eq!(got, vec![vec![2, 0], vec![1], vec![3]]);
}

#[test]
fn a_plan_leads_with_the_journal_and_leaves_whole_segments_alone() {
    let journal = vec![candidate(9, 10, 1, false)];
    let t = REPACK_TARGET_LIVE;
    let data = vec![candidate(2, t, 1, true), candidate(4, 30, 1, false), candidate(3, 20, 1, true)];
    let plan = plan_repack(&journal, &data, &vec![u(30), u(31)], &vec![u(20)]).expect("plan");
    assert_eq!(plan.buckets.len(), 2);
    assert!(plan.buckets[0].journal);
    assert_eq!(plan.buckets[0].output.as_ref().unwrap().new_ulid, u(20));
    let ulids: Vec<Ulid> = plan.buckets[1].inputs.iter().map(|i| i.input_ulid).collect();
    assert_eq!(ulids, vec![u(3), u(4)]);
    let output = plan.buckets[1].output.as_ref().unwrap();
    assert_eq!(output.new_ulid, u(30));
    assert_eq!(
        output.outputs,
        vec![
            PlanOutput::Keep { input: u(3), entry_idx: 0 },
            PlanOutput::Keep { input: u(4), entry_idx: 0 }
        ]
    );
    assert_eq!(plan.buckets[1].bytes_freed, 14);
    assert!(plan.journal_untouched.is_empty());
    assert_eq!(plan.stats.segments_compacted, 3);
    assert_eq!(plan.stats.new_segments, 2);
    assert_eq!(plan.stats.bytes_freed, 21);

    assert!(matches!(
        plan_repack(&journal, &data, &vec![u(30)], &vec![]),
        Err(RepackError::NoJournalUlid)
    ));
    assert!(matches!(
        plan_repack(&journal, &data, &vec![], &vec![u(20)]),
        Err(RepackError::OutOfUlids)
    ));
    let whole = vec![candidate(9, 10, 1, true)];
    let plan = plan_repack(&whole, &vec![], &vec![], &vec![]).expect("plan");
    assert!(plan.buckets.is_empty());
    assert_eq!(plan.journal_untouched, vec![u(9)]);
}

#[test]
fn a_repack_keeps_what_lives() {
    let maps = maps();
    let entries = vec![
        entry(EntryKind::Data, 0, 4, h(1)),
        entry(EntryKind::Data, 10, 4, h(2)),
        entry(EntryKind::Data, 20, 4, h(3)),
        entry(EntryKind::Zero, 30, 4, ContentHash::zero()),
    ];
    let segments = vec![
        ParsedSegment { ulid: u(5), entries: entries.clone(), inputs: vec![] },
        ParsedSegment { ulid: u(2), entries: vec![], inputs: vec![] },
    ];
    let (admission, plan) =
        execute_repack(&segments, Some(u(2)), u64::MAX, &maps, &vec![u(50)], &vec![]);
    assert_eq!(admission.admitted.len(), 1);
    assert_eq!(admission.admitted[0].seg_ulid, u(5));
    let plan = plan.expect("plan");
    let output = plan.buckets[0].output.as_ref().expect("output");
    assert_eq!(
        output.outputs,
        vec![
            PlanOutput::Keep { input: u(5), entry_idx: 0 },
            PlanOutput::Canonical { input: u(5), entry_idx: 2 },
            PlanOutput::Run {
                input: u(5),
                entry_idx: 2,
                payload_block_offset: 0,
                start_lba: 20,
                lba_length: 1
            },
            PlanOutput::Run {
                input: u(5),
                entry_idx: 2,
                payload_block_offset: 2,
                start_lba: 22,
                lba_length: 2
            },
            PlanOutput::ZeroSplit { input: u(5), entry_idx: 3, start_lba: 30, lba_length: 4 },
        ]
    );
    // 400 bytes of the second entry, and a quarter of the third's.
    assert_eq!(plan.buckets[0].bytes_freed, 500);
    assert_eq!(plan.buckets[0].inputs[0].owned_hashes, vec![h(1), h(2), h(3)]);

    let live = live_hashes(&maps);
    let ctx = ClassifyCtx {
        lba_map: &maps.lbamap,
        extent_index: &maps.extent_index,
        live_hashes: &live,
        segment_id: u(5),
    };
    let scan = scan_segment(0, u(5), &entries, &live);
    let c = make_candidate(&scan, &entries, &ctx);
    assert_eq!((c.live_bytes, c.dead_bytes, c.live_entry_count), (700, 500, 5));
    let mut outputs = Vec::new();
    emit_plan_outputs(u(5), &c.classifications, &mut outputs);
    assert_eq!(outputs, output.outputs);
}
