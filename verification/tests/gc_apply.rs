//! Carrying out plans and repacks.

use elide_core::actor::PlanOutcome;
use elide_core::delta_compute::{PriorSourceCache, SnapshotSourceMap};
use elide_core::gc_apply::{
    apply_gc_plan, apply_repack_and_publish, execute_gc_plan_apply, GcApplyEvent, GcApplyStage,
    GcPlanApplyJob, PlanSwapEvent, PlanSwapStage, RepackApplyEvent, RepackApplyStage,
};
use elide_core::ids::{content_hash, ContentHash, Ulid};
use elide_core::segment::{Codec, EntryKind, SegmentEntry};

fn u(n: u64) -> Ulid {
    Ulid::from_parts(n, 0)
}

fn h(n: u8) -> ContentHash {
    content_hash(&[n])
}

fn entry(kind: EntryKind, start_lba: u64, lba_length: u32, hash: ContentHash) -> SegmentEntry {
    SegmentEntry {
        hash,
        start_lba,
        lba_length,
        codec: Codec::Plain,
        kind,
        stored_offset: 0,
        stored_length: 4096,
        delta_options: Vec::new(),
        journal: false,
    }
}

#[test]
fn a_plan_knows_what_its_inputs_held() {
    let mut job = GcPlanApplyJob::new(vec![u(4), u(5), u(6)]);
    assert_eq!(job.stage(), GcApplyStage::Prepare);
    assert_eq!(execute_gc_plan_apply(&mut job, GcApplyEvent::Went), GcApplyStage::Materialise);
    assert_eq!(job.next_input(), None);
    assert_eq!(execute_gc_plan_apply(&mut job, GcApplyEvent::Went), GcApplyStage::ReadIndex);
    assert_eq!(job.next_input(), Some(u(4)));
    let index = vec![
        entry(EntryKind::Data, 0, 4, h(50)),
        entry(EntryKind::DedupRef, 4, 2, h(51)),
        entry(EntryKind::CanonicalData, 9, 2, h(52)),
    ];
    assert_eq!(
        execute_gc_plan_apply(&mut job, GcApplyEvent::Index(index)),
        GcApplyStage::ReadIndex
    );
    // An input without an index is passed over.
    assert_eq!(job.next_input(), Some(u(5)));
    execute_gc_plan_apply(&mut job, GcApplyEvent::NoIndex);
    assert_eq!(job.next_input(), Some(u(6)));
    let index = vec![entry(EntryKind::Zero, 20, 8, h(0))];
    assert_eq!(execute_gc_plan_apply(&mut job, GcApplyEvent::Index(index)), GcApplyStage::Write);
    let written = GcApplyEvent::Written {
        body_section_start: 512,
        entries: vec![entry(EntryKind::Data, 0, 4, h(50)), entry(EntryKind::Data, 4, 2, h(51))],
    };
    assert_eq!(execute_gc_plan_apply(&mut job, written), GcApplyStage::Applied);

    let result = job.finish();
    assert!(result.applied);
    assert_eq!(result.inputs, vec![u(4), u(5), u(6)]);
    assert_eq!(
        result.input_old_entries,
        vec![(h(50), EntryKind::Data, u(4)), (h(52), EntryKind::CanonicalData, u(4))]
    );
    assert_eq!(result.input_claim_ranges, vec![(0, 4), (4, 2), (20, 8)]);
    assert_eq!(result.new_bss, 512);
    assert_eq!(result.entries.len(), 2);
    assert!(result.entry_hashes.contains(&h(50)) && result.entry_hashes.contains(&h(51)));
    assert!(!result.entry_hashes.contains(&h(52)));
}

#[test]
fn a_cancelled_plan_comes_to_nothing() {
    for steps in 0..2 {
        let mut job = GcPlanApplyJob::new(vec![u(4)]);
        for _ in 0..steps {
            execute_gc_plan_apply(&mut job, GcApplyEvent::Went);
        }
        assert_eq!(
            execute_gc_plan_apply(&mut job, GcApplyEvent::Cancelled),
            GcApplyStage::Cancelled
        );
        let result = job.finish();
        assert!(!result.applied);
        assert_eq!(result.inputs, vec![u(4)]);
        assert!(result.input_old_entries.is_empty() && result.input_claim_ranges.is_empty());
        assert!(result.entries.is_empty());
        assert_eq!(result.new_bss, 0);
    }
    let mut job = GcPlanApplyJob::new(Vec::new());
    execute_gc_plan_apply(&mut job, GcApplyEvent::Went);
    // Without inputs there is no index to read.
    assert_eq!(execute_gc_plan_apply(&mut job, GcApplyEvent::Went), GcApplyStage::Write);
    assert_eq!(execute_gc_plan_apply(&mut job, GcApplyEvent::Failed), GcApplyStage::Failed);
}

#[test]
fn a_plan_in_force_was_published() {
    let mut stage = PlanSwapStage::Prepare;
    for expected in [
        PlanSwapStage::Fold,
        PlanSwapStage::Swap,
        PlanSwapStage::Publish,
        PlanSwapStage::Over(PlanOutcome::Applied),
        PlanSwapStage::Over(PlanOutcome::Applied),
    ] {
        stage = apply_gc_plan(stage, PlanSwapEvent::Went);
        assert_eq!(stage, expected);
    }
    assert_eq!(
        apply_gc_plan(PlanSwapStage::Prepare, PlanSwapEvent::Skip(PlanOutcome::Diverged)),
        PlanSwapStage::Over(PlanOutcome::Diverged)
    );
    assert_eq!(
        apply_gc_plan(PlanSwapStage::Fold, PlanSwapEvent::Cancelled),
        PlanSwapStage::Over(PlanOutcome::Cancelled)
    );
    assert_eq!(
        apply_gc_plan(PlanSwapStage::Fold, PlanSwapEvent::Failed),
        PlanSwapStage::Over(PlanOutcome::Failed)
    );
    // What the swap refuses is removed.
    let stage = apply_gc_plan(PlanSwapStage::Swap, PlanSwapEvent::Cancelled);
    assert_eq!(stage, PlanSwapStage::RemoveOutput);
    assert_eq!(
        apply_gc_plan(stage, PlanSwapEvent::Went),
        PlanSwapStage::Over(PlanOutcome::Cancelled)
    );
}

#[test]
fn a_repack_unlinks_after_its_publish() {
    let finished = |segments_compacted, consumed_inputs| RepackApplyEvent::Finished {
        segments_compacted,
        consumed_inputs,
    };
    let mut stage = RepackApplyStage::Fold { bucket: 0 };
    for (event, expected) in [
        (RepackApplyEvent::Went, RepackApplyStage::Swap { bucket: 0 }),
        (RepackApplyEvent::Went, RepackApplyStage::Fold { bucket: 1 }),
        (RepackApplyEvent::Nothing, RepackApplyStage::Finish),
        (finished(0, 1), RepackApplyStage::Publish),
        (RepackApplyEvent::Went, RepackApplyStage::Unlink),
        (RepackApplyEvent::Went, RepackApplyStage::Check),
        (RepackApplyEvent::Went, RepackApplyStage::Done),
    ] {
        stage = apply_repack_and_publish(stage, event, 2);
        assert_eq!(stage, expected);
    }
    assert_eq!(
        apply_repack_and_publish(RepackApplyStage::Finish, finished(0, 0), 2),
        RepackApplyStage::Unlink
    );
    assert_eq!(
        apply_repack_and_publish(RepackApplyStage::Unlink, RepackApplyEvent::Failed, 2),
        RepackApplyStage::Failed
    );
}

#[test]
fn sources_are_kept_for_one_snapshot() {
    let mut cache = PriorSourceCache::new();
    assert!(cache.map_for(u(1)).is_none());
    cache.keep(u(1), SnapshotSourceMap { runs: vec![(3, 2, h(1))] });
    assert_eq!(cache.map_for(u(1)).unwrap().runs, vec![(3, 2, h(1))]);
    assert!(cache.map_for(u(2)).is_none());
    cache.keep(u(2), SnapshotSourceMap { runs: Vec::new() });
    assert!(cache.map_for(u(1)).is_none());
}
