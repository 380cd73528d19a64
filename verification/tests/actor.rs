//! The volume's actor: promotes, checkpoints, plans and who waits for them.

use elide_core::actor::{
    delta_region_body_length, execute_promote_segment, next_generations, promote_result, reap_step,
    retries_read, write_phases, write_promote, ActorState, BatchStep, CheckpointStep, ExclusiveRequest,
    LoopEvent, LoopStep, PlanOutcome, PlanRef, PromoteJob, PromoteShape, PromoteStage, PromoteWork,
    Publication, ReapStep, ReapStop, StageOutcome, WorkerEvent, WrittenSegment,
};
use elide_core::ids::{content_hash, Ulid};
use elide_core::rebuild::ParsedSegment;
use elide_core::segment::{EntryKind, SegmentEntry};

fn u(n: u64) -> Ulid {
    Ulid::from_parts(n, 0)
}

#[test]
fn a_checkpoint_that_flushed_waits_for_its_own_promote() {
    let mut s = ActorState::new();
    s.promote_sent();
    assert_eq!(s.start_gc_checkpoint(vec![u(1)], u(9), true, 7), CheckpointStep::SendPromote);
    s.promote_sent();
    assert!(s.refuses(ExclusiveRequest::GcCheckpoint));
    let e = s.handle_worker_result(WorkerEvent::PromoteApplied { ulid: u(8) });
    assert!(e.checkpoint.is_none());
    let e = s.handle_worker_result(WorkerEvent::PromoteApplied { ulid: u(9) });
    assert_eq!(e.checkpoint, Some((vec![u(1)], 7)));
    assert!(!s.refuses(ExclusiveRequest::GcCheckpoint));
    assert!(!s.work_in_flight());
}

#[test]
fn a_checkpoint_of_an_empty_log_waits_for_the_promotes_before_it() {
    let mut s = ActorState::new();
    assert_eq!(s.start_gc_checkpoint(vec![], u(1), false, 1), CheckpointStep::AnswerNow);
    s.promote_sent();
    s.promote_sent();
    assert_eq!(s.start_gc_checkpoint(vec![u(2)], u(1), false, 3), CheckpointStep::Wait);
    // A promote sent after the checkpoint does not delay it.
    s.promote_sent();
    let e = s.handle_worker_result(WorkerEvent::PromoteApplied { ulid: u(5) });
    assert!(e.checkpoint.is_none());
    let e = s.handle_worker_result(WorkerEvent::PromoteApplied { ulid: u(6) });
    assert_eq!(e.checkpoint, Some((vec![u(2)], 3)));
    assert!(s.work_in_flight());
}

#[test]
fn a_failed_promote_fails_the_checkpoint_and_is_tried_again() {
    let mut s = ActorState::new();
    s.promote_sent();
    s.start_gc_checkpoint(vec![u(2)], u(1), false, 3);
    s.park_promote_wal(u(5), 11);
    s.park_promote_wal(u(6), 12);
    s.park_promote_wal(u(5), 13);
    let job = PromoteJob { job: 4, segment_ulid: u(5) };
    let e = s.handle_worker_result(WorkerEvent::PromoteFailed { job });
    assert_eq!(e.checkpoint, Some((vec![u(2)], 3)));
    assert_eq!(e.waiting, vec![11, 13]);
    assert_eq!(s.retry_failed_promote(), Some(job));
    assert_eq!(s.retry_failed_promote(), None);
    s.stash_promote(job);
    assert_eq!(s.retry_failed_promote(), Some(job));
    assert_eq!(s.park_empty_promote_wal(None, 14), Some(14));
    assert_eq!(s.park_empty_promote_wal(Some(u(5)), 15), None);
    s.promote_sent();
    let e = s.handle_worker_result(WorkerEvent::PromoteApplied { ulid: u(5) });
    assert_eq!(e.waiting, vec![15]);
}

#[test]
fn a_checkpoint_whose_promote_cannot_be_sent_is_told_so() {
    let mut s = ActorState::new();
    s.start_gc_checkpoint(vec![], u(9), true, 7);
    assert_eq!(s.checkpoint_unsent(), Some(7));
    assert_eq!(s.checkpoint_unsent(), None);
}

#[test]
fn a_plan_is_held_back_while_a_promote_is_in_flight() {
    let mut s = ActorState::new();
    let plans = vec![
        PlanRef { plan: 1, new_ulid: u(1) },
        PlanRef { plan: 2, new_ulid: u(2) },
        PlanRef { plan: 3, new_ulid: u(3) },
    ];
    assert_eq!(s.start_gc_handoffs(plans.clone(), 5, Some(9)), BatchStep::Dispatch(plans[2]));
    s.handoff_sent();
    s.promote_sent();
    assert!(!s.reap_may_run());
    let e = s.handle_worker_result(WorkerEvent::PlanReady { plan: 3 });
    assert_eq!(e.apply_plan, None);
    let e = s.handle_worker_result(WorkerEvent::PromoteApplied { ulid: u(7) });
    assert_eq!(e.apply_plan, Some(3));
    assert!(s.reap_may_run());
    assert_eq!(s.handoff_finished(PlanOutcome::Applied), BatchStep::Dispatch(plans[1]));
    s.handoff_sent();
    let e = s.handle_worker_result(WorkerEvent::PlanReady { plan: 2 });
    assert_eq!(e.apply_plan, Some(2));
    assert_eq!(s.handoff_finished(PlanOutcome::Cancelled), BatchStep::Dispatch(plans[0]));
    s.handoff_sent();
    s.handle_worker_result(WorkerEvent::PlanReady { plan: 1 });
    assert_eq!(
        s.handoff_finished(PlanOutcome::Applied),
        BatchStep::Over { reply: Some(9), applied: Some(7) }
    );
    assert_eq!(s.dispatch_next_handoff(), BatchStep::Idle);
}

#[test]
fn a_batch_ends_early_where_a_plan_fails_or_contradicts_the_volume() {
    let plans = vec![PlanRef { plan: 1, new_ulid: u(1) }, PlanRef { plan: 2, new_ulid: u(2) }];
    let mut s = ActorState::new();
    s.start_gc_handoffs(plans.clone(), 1, Some(9));
    s.handoff_sent();
    assert_eq!(
        s.handoff_finished(PlanOutcome::Diverged),
        BatchStep::Over { reply: Some(9), applied: Some(1) }
    );
    s.start_gc_handoffs(plans.clone(), 1, None);
    s.handoff_sent();
    assert_eq!(
        s.handoff_finished(PlanOutcome::Failed),
        BatchStep::Over { reply: None, applied: None }
    );
    s.start_gc_handoffs(plans, 1, Some(4));
    assert_eq!(s.handoff_unsent(), BatchStep::Over { reply: Some(4), applied: None });
    assert_eq!(
        s.start_gc_handoffs(vec![], 6, Some(4)),
        BatchStep::Over { reply: Some(4), applied: Some(6) }
    );
}

#[test]
fn one_of_each_exclusive_request_runs_at_a_time() {
    let mut s = ActorState::new();
    for request in [
        ExclusiveRequest::ApplyGcHandoffs,
        ExclusiveRequest::CloseGeneration,
        ExclusiveRequest::GcCheckpoint,
        ExclusiveRequest::SignSnapshotManifest,
        ExclusiveRequest::Reclaim,
    ] {
        assert_eq!(s.next_step(LoopEvent::Exclusive(request)), LoopStep::Start(request));
    }
    s.close_generation_sent(1, Some(4));
    s.sign_snapshot_manifest_sent(2);
    s.reclaim_sent(3);
    for request in [
        ExclusiveRequest::CloseGeneration,
        ExclusiveRequest::SignSnapshotManifest,
        ExclusiveRequest::Reclaim,
    ] {
        assert_eq!(s.next_step(LoopEvent::Exclusive(request)), LoopStep::Refuse(request));
    }
    assert!(s.work_in_flight());
    let e = s.handle_worker_result(WorkerEvent::GenerationClosed);
    let closed = e.closed.expect("closed");
    assert_eq!((closed.reply, closed.rotated), (1, Some(4)));
    assert_eq!(s.handle_worker_result(WorkerEvent::ManifestSigned).waiting, vec![2]);
    assert_eq!(s.handle_worker_result(WorkerEvent::Reclaimed).waiting, vec![3]);
    assert!(s.handle_worker_result(WorkerEvent::Reclaimed).waiting.is_empty());
    assert!(!s.work_in_flight());
}

#[test]
fn the_loop_stops_where_it_is_told_to_or_nobody_is_left() {
    let s = ActorState::new();
    assert_eq!(s.next_step(LoopEvent::NoCallers), LoopStep::Stop);
    assert_eq!(s.next_step(LoopEvent::Shutdown), LoopStep::Stop);
    assert_eq!(s.next_step(LoopEvent::CheckPromote { needed: true }), LoopStep::DispatchPromote);
    assert_eq!(s.next_step(LoopEvent::CheckPromote { needed: false }), LoopStep::Wait);
    assert_eq!(s.next_step(LoopEvent::IdleTick), LoopStep::PromoteThenHandoffs);
    assert_eq!(s.next_step(LoopEvent::WorkerResult), LoopStep::TakeResult);
    assert_eq!(s.next_step(LoopEvent::WorkerGone), LoopStep::Wait);
}

#[test]
fn a_segment_promote_answers_one_caller() {
    let mut s = ActorState::new();
    s.segment_promote_sent(u(1), 4);
    s.segment_promote_sent(u(2), 5);
    s.segment_promote_sent(u(1), 6);
    assert_eq!(s.handle_worker_result(WorkerEvent::SegmentPromoted { ulid: u(1) }).waiting, vec![4]);
    assert_eq!(s.handle_worker_result(WorkerEvent::SegmentPromoted { ulid: u(1) }).waiting, vec![6]);
    assert_eq!(s.handle_worker_result(WorkerEvent::SegmentPromoted { ulid: u(2) }).waiting, vec![5]);
}

#[test]
fn a_publication_moves_the_generation_it_is_of() {
    assert_eq!(next_generations(3, 8, Publication::AppendsToWal), (4, 8));
    assert_eq!(next_generations(3, 8, Publication::ReplacesFiles), (4, 9));
}

#[test]
fn a_read_is_retried_on_a_fresh_view() {
    assert!(retries_read(0, true, 1, 2));
    assert!(!retries_read(0, false, 1, 2));
    assert!(!retries_read(0, true, 2, 2));
    assert!(retries_read(1, true, 1, 2));
    assert!(!retries_read(2, true, 1, 2));
}

#[test]
fn a_reap_stops_where_it_is_asked_to() {
    assert_eq!(reap_step(true, ReapStop::Never), ReapStep::Done);
    assert_eq!(reap_step(false, ReapStop::BeforePublish), ReapStep::Done);
    assert_eq!(reap_step(false, ReapStop::BeforeUnlink), ReapStep::Publish);
    assert_eq!(reap_step(false, ReapStop::Never), ReapStep::PublishAndUnlink);
}

#[test]
fn the_phases_of_a_write_add_up() {
    let p = write_phases(4096, 100, 110, 140, 200, Some(30), 260);
    assert_eq!((p.pre, p.wait, p.held, p.post, p.total), (10, 30, 60, 30, 160));
    assert_eq!(p.fua, Some(30));
    assert_eq!(write_phases(0, 1, 1, 1, 1, Some(9), 4).post, 0);
    assert_eq!(write_phases(0, 1, 1, 1, 1, None, 4).post, 3);
}

#[test]
fn a_promote_without_sources_still_writes() {
    let work =
        PromoteWork { deltas: true, has_prior: true, has_pendings: true, has_journal: true };
    let mut stage = PromoteStage::SyncWal;
    let mut seen = vec![stage];
    while stage != PromoteStage::Done {
        let outcome = if stage == PromoteStage::ProbeSnapshot {
            StageOutcome::Failed
        } else {
            StageOutcome::Went
        };
        stage = write_promote(stage, outcome, work);
        seen.push(stage);
    }
    assert_eq!(
        seen,
        vec![
            PromoteStage::SyncWal,
            PromoteStage::ReadBodies,
            PromoteStage::ProbeSnapshot,
            PromoteStage::DeltaByResemblance,
            PromoteStage::WritePrimary,
            PromoteStage::WriteJournal,
            PromoteStage::Done
        ]
    );
    assert_eq!(
        write_promote(PromoteStage::SyncWal, StageOutcome::Failed, work),
        PromoteStage::Failed
    );
    let plain =
        PromoteWork { deltas: false, has_prior: true, has_pendings: false, has_journal: false };
    assert_eq!(write_promote(PromoteStage::ReadBodies, StageOutcome::Went, plain), PromoteStage::Done);
    assert_eq!(
        write_promote(PromoteStage::LoadSources, StageOutcome::Went, work),
        PromoteStage::DeltaAgainstPrior
    );
}

fn entry(kind: EntryKind, stored_length: u32) -> SegmentEntry {
    let mut e = SegmentEntry::new_dedup_ref(content_hash(&[1]), 0, 1);
    e.kind = kind;
    e.stored_length = stored_length;
    e
}

#[test]
fn the_delta_region_follows_the_bodies() {
    let entries =
        vec![entry(EntryKind::Data, 100), entry(EntryKind::Inline, 7), entry(EntryKind::Data, 23)];
    assert_eq!(delta_region_body_length(&entries, 4), 123);
    assert_eq!(delta_region_body_length(&entries, 0), 0);
}

#[test]
fn an_output_without_entries_is_a_tombstone() {
    let seg = |entries, inputs| ParsedSegment { ulid: u(1), entries, inputs };
    assert_eq!(execute_promote_segment(false, &seg(vec![], vec![u(2)])), PromoteShape::Tombstone);
    assert_eq!(
        execute_promote_segment(true, &seg(vec![], vec![u(2)])),
        PromoteShape::Segment { reads_inline: false }
    );
    assert_eq!(
        execute_promote_segment(true, &seg(vec![entry(EntryKind::Inline, 3)], vec![])),
        PromoteShape::Segment { reads_inline: true }
    );
    assert_eq!(
        execute_promote_segment(false, &seg(vec![entry(EntryKind::Inline, 3)], vec![])),
        PromoteShape::Segment { reads_inline: false }
    );
}

#[test]
fn the_last_caller_takes_the_place_of_one_that_is_answered() {
    let mut s = ActorState::new();
    s.promote_sent();
    for (ulid, reply) in [(1, 10), (2, 11), (1, 12), (3, 13), (1, 14)] {
        s.park_promote_wal(u(ulid), reply);
    }
    let effects = s.handle_worker_result(WorkerEvent::PromoteApplied { ulid: u(1) });
    assert_eq!(effects.waiting, vec![10, 14, 12]);
    let left: Vec<u64> = s.pipeline.parked_promote_wal.iter().map(|p| p.reply).collect();
    assert_eq!(left, vec![13, 11]);
}

#[test]
fn a_promote_result_says_what_was_written() {
    let entries = vec![entry(EntryKind::Data, 100), entry(EntryKind::Delta, 0)];
    let journal =
        WrittenSegment { segment_ulid: u(9), body_section_start: 64, entries: Vec::new() };
    let result = promote_result(u(7), u(6), Some((512, entries)), 40, Some(journal));
    assert_eq!((result.primary.segment_ulid, result.old_wal_ulid), (u(7), u(6)));
    assert_eq!(result.primary.body_section_start, 512);
    assert_eq!(result.primary.entries.len(), 2);
    assert_eq!(result.delta_region_body_length, 100);
    let journal = result.journal.expect("a journal segment");
    assert_eq!((journal.segment_ulid, journal.body_section_start), (u(9), 64));

    let empty = promote_result(u(7), u(6), None, 0, None);
    assert_eq!(empty.primary.segment_ulid, u(7));
    assert_eq!((empty.primary.body_section_start, empty.delta_region_body_length), (0, 0));
    assert!(empty.primary.entries.is_empty() && empty.journal.is_none());
}
