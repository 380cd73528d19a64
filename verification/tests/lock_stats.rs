//! Occupancy counters, their windows and their reports.

use elide_core::lock_stats::{
    wait_bucket, AppendContext, LockSite, LockStats, LockStatsSnapshot, ReportPiece,
    DEPTH_BUCKETS, SITE_COUNT, WAIT_BUCKETS,
};

const NOW: u64 = 1_000;

fn ms(n: u64) -> u64 {
    n * 1_000_000
}

fn us(n: u64) -> u64 {
    n * 1_000
}

/// The text of a report, its times in milliseconds to one decimal.
trait ReportLine {
    fn report_line(&self) -> Option<String>;
}

impl ReportLine for LockStatsSnapshot {
    fn report_line(&self) -> Option<String> {
        self.report().map(|pieces| {
            pieces
                .iter()
                .map(|piece| match piece {
                    ReportPiece::Words(words) => words.to_string(),
                    ReportPiece::Site(site) => site.label().to_string(),
                    ReportPiece::Count(n) => n.to_string(),
                    ReportPiece::Millis(nanos) => format!("{:.1}ms", *nanos as f64 / 1_000_000.0),
                })
                .collect()
        })
    }
}

/// `ALL` drives `COUNT`, the report order and the index space, so a
/// variant missing from it would silently never be reported and would
/// alias another site's counters.
#[test]
fn all_sites_are_listed_once() {
    let mut seen = [false; SITE_COUNT];
    for site in LockSite::all() {
        let i = site.index();
        assert!(
            i < SITE_COUNT,
            "{} indexes outside the counter array",
            site.label()
        );
        assert!(!seen[i], "{} listed twice", site.label());
        seen[i] = true;
    }
    assert!(
        seen.iter().all(|s| *s),
        "a LockSite variant is missing from the list"
    );
}

#[test]
fn labels_are_distinct() {
    let mut labels: Vec<&str> = LockSite::all().iter().map(|s| s.label()).collect();
    labels.sort_unstable();
    let before = labels.len();
    labels.dedup();
    assert_eq!(before, labels.len(), "two sites share a label");
}

#[test]
fn record_accumulates_per_site() {
    let mut stats = LockStats::default();
    stats.record(LockSite::RepackApply, ms(1), ms(10));
    stats.record(LockSite::RepackApply, ms(2), ms(4));
    stats.record(LockSite::PromotePrep, 0, ms(3));

    let snap = stats.snapshot();
    let repack = snap.site(LockSite::RepackApply);
    assert_eq!(repack.acquisitions, 2);
    assert_eq!(
        repack.hold_nanos,
        ms(14)
    );
    assert_eq!(
        repack.wait_nanos,
        ms(3)
    );
    assert_eq!(
        repack.max_hold_nanos,
        ms(10),
        "max is the longest single hold, not the total"
    );
    assert_eq!(snap.site(LockSite::PromotePrep).acquisitions, 1);
    assert_eq!(snap.site(LockSite::ClosePrep).acquisitions, 0);
}

/// A window reports what accumulated in it, maximum included. A
/// maximum cannot subtract, so `take_window` resets it; carrying the
/// cumulative one instead would repeat an old spike in every window
/// and leave no way to tell when it happened.
#[test]
fn a_window_maximum_covers_only_that_window() {
    let mut stats = LockStats::default();
    stats.record(LockSite::GcPlanApply, 0, ms(20));
    let mark = stats.take_window();
    stats.record(LockSite::GcPlanApply, 0, ms(5));

    let window = stats.take_window().since(&mark);
    let site = window.site(LockSite::GcPlanApply);
    assert_eq!(site.acquisitions, 1);
    assert_eq!(site.hold_nanos, ms(5));
    assert_eq!(
        site.max_hold_nanos,
        ms(5),
        "the 20ms hold belongs to the window before this one"
    );
}

/// The peak outlives its window, so a spike stays visible in every
/// later report rather than scrolling away with the window it
/// happened in.
#[test]
fn the_peak_survives_the_window_it_happened_in() {
    let mut stats = LockStats::default();
    stats.record(LockSite::RepackApply, 0, ms(1700));
    stats.take_window();
    stats.record(LockSite::PromoteApply, 0, ms(2));

    let window = stats.take_window();
    assert_eq!(
        window.site(LockSite::RepackApply).max_hold_nanos,
        0,
        "the spike is not in this window"
    );
    let (site, peak) = window.peak().expect("a peak was recorded");
    assert_eq!(site, LockSite::RepackApply);
    assert_eq!(peak, ms(1700));
    assert!(
        window
            .report_line()
            .expect("sites acquired")
            .contains("peak repack-apply"),
        "the report names the all-time peak"
    );
}

/// A plain read must not disturb the window the reporter is
/// accumulating, or a handle sampling the counters would silently
/// truncate the next log line's maximum.
#[test]
fn snapshot_leaves_the_window_intact() {
    let mut stats = LockStats::default();
    stats.record(LockSite::ClosePrep, 0, ms(7));
    let peeked = stats.snapshot();
    assert_eq!(
        peeked.site(LockSite::ClosePrep).max_hold_nanos,
        ms(7)
    );
    assert_eq!(
        stats.take_window().site(LockSite::ClosePrep).max_hold_nanos,
        ms(7),
        "the peek consumed the window"
    );
}

#[test]
fn an_idle_window_reports_nothing() {
    assert!(LockStatsSnapshot::default().report_line().is_none());
}

/// A volume nobody is writing to still runs its tick, which takes the
/// mutex a handful of times for microseconds. Those acquisitions are
/// what the floor is for.
#[test]
fn a_tick_on_a_quiet_volume_falls_under_the_floor() {
    let mut stats = LockStats::default();
    for site in [
        LockSite::OwnSegments,
        LockSite::PublishSnapshot,
        LockSite::GcCheckpoint,
        LockSite::PromotePrep,
    ] {
        stats.record(site, 0, us(20));
    }
    stats.record_write_uncontended();

    let window = stats.snapshot();
    assert!(
        window.report_line().is_some(),
        "the sites acquired, so there is a line to suppress"
    );
    assert!(!window.worth_reporting(ms(1)));
}

/// Held time accumulates across suppressed windows, so a volume
/// sitting just under the floor surfaces once the holds add up
/// rather than never.
#[test]
fn holds_under_the_floor_add_up_to_a_report() {
    let mut stats = LockStats::default();
    let floor = ms(1);
    stats.record(LockSite::GcPlanApply, 0, us(600));
    assert!(!stats.snapshot().worth_reporting(floor));
    stats.record(LockSite::GcPlanApply, 0, us(600));
    assert!(stats.snapshot().worth_reporting(floor));
}

/// A guest that stalled is the measurement's whole point, so it earns
/// a line however little the actor side held.
#[test]
fn a_blocked_write_reports_under_any_floor() {
    let mut stats = LockStats::default();
    stats.record_write_blocked(us(30), NOW);
    assert!(stats.snapshot().worth_reporting(ms(1_000)));
}

/// Every guest write counts, but only the ones that blocked carry a
/// wait — an uncontended write reads no clock, so a zero wait would
/// be indistinguishable from an unmeasured one without `blocked`.
#[test]
fn writes_count_always_and_time_only_when_blocked() {
    let mut stats = LockStats::default();
    stats.record_write_uncontended();
    stats.record_write_uncontended();
    stats.record_write_blocked(ms(12), NOW);

    let writes = stats.snapshot().writes();
    assert_eq!(writes.acquisitions, 3);
    assert_eq!(writes.blocked, 1);
    assert_eq!(
        writes.wait_nanos,
        ms(12)
    );
    assert_eq!(
        writes.max_wait_nanos,
        ms(12)
    );
}

/// The write maxima window and survive on the same terms as a site's
/// hold: the worst stall a guest saw is the number worth keeping, and
/// it cannot be recovered by subtracting two totals.
#[test]
fn the_worst_write_stall_outlives_its_window() {
    let mut stats = LockStats::default();
    stats.record_write_blocked(ms(1700), NOW);
    let mark = stats.take_window();
    stats.record_write_blocked(ms(3), NOW);

    let window = stats.take_window().since(&mark);
    assert_eq!(window.writes().blocked, 1);
    assert_eq!(
        window.writes().max_wait_nanos,
        ms(3),
        "the 1700ms stall belongs to the window before this one"
    );
    assert_eq!(
        window.writes().peak_wait_nanos,
        ms(1700),
        "the worst stall stays visible after its window closes"
    );
}

/// A window in which only the guest wrote still reports, so write
/// waits cannot go unlogged for want of an actor-side acquisition.
#[test]
fn a_write_only_window_still_reports() {
    let mut stats = LockStats::default();
    stats.record_write_blocked(ms(4), NOW);
    let report = stats.snapshot().report_line().expect("the writes acquired");
    assert!(report.contains("writes n=1 blocked=1"), "got: {report}");
}

/// Every write charges its hold, whether or not it waited: an actor
/// loop yielding to the queue pays the uncontended holds too, so a
/// sum over the blocked ones alone would under-size the yield.
#[test]
fn a_write_charges_its_hold_whether_or_not_it_waited() {
    let mut stats = LockStats::default();
    stats.record_write_uncontended();
    stats.record_write_hold(ms(2), 0, 0, AppendContext::default());
    stats.record_write_parking();
    stats.record_write_blocked(ms(9), NOW);
    stats.record_write_hold(ms(5), 0, 0, AppendContext::default());

    let snap = stats.snapshot();
    assert_eq!(snap.writes.hold_nanos, 7_000_000);
    assert_eq!(snap.writes.max_hold_nanos, 5_000_000);
    let report = snap.report_line().expect("the writes acquired");
    assert!(report.contains("held=7.0ms maxheld=5.0ms"), "got: {report}");
}

/// The window maximum resets with the window while the sum keeps
/// running, matching how the wait figures either side of it read.
#[test]
fn the_window_hold_maximum_resets_and_the_sum_does_not() {
    let mut stats = LockStats::default();
    stats.record_write_uncontended();
    stats.record_write_hold(ms(6), 0, 0, AppendContext::default());
    assert_eq!(stats.take_window().writes.max_hold_nanos, 6_000_000);

    stats.record_write_uncontended();
    stats.record_write_hold(ms(1), 0, 0, AppendContext::default());
    let snap = stats.snapshot();
    assert_eq!(snap.writes.max_hold_nanos, 1_000_000);
    assert_eq!(snap.writes.hold_nanos, 7_000_000);
}

/// A write's WAL time is charged to what was in flight when it took
/// the mutex: a sync on the WAL inode, a worker job, both, or neither,
/// so a long append reads as blocked behind one or the other.
#[test]
fn a_wal_append_is_charged_to_what_was_in_flight() {
    let mut stats = LockStats::default();
    assert_eq!(stats.append_context(), AppendContext::default());
    {
        stats.sync_in_flight();
        let context = stats.append_context();
        assert!(context.sync_in_flight);
        assert!(!context.worker_running);
        stats.record_write_uncontended();
        stats.record_write_hold(ms(3), 0, ms(2), context);
        stats.worker_running();
        let context = stats.append_context();
        assert!(context.sync_in_flight);
        assert!(context.worker_running);
        stats.record_write_uncontended();
        stats.record_write_hold(ms(5), 0, ms(4), context);
        stats.worker_done();
        stats.sync_done();
    }
    assert_eq!(stats.append_context(), AppendContext::default());
    stats.record_write_uncontended();
    let context = stats.append_context();
    stats.record_write_hold(ms(1), 0, ms(1), context);

    let snap = stats.take_window();
    assert_eq!(snap.writes.by_append[0].writes, 1);
    assert_eq!(snap.writes.by_append[1].hold_nanos, 2_000_000);
    assert_eq!(snap.writes.by_append[3].max_hold_nanos, 4_000_000);
    let report = snap.report_line().expect("the writes acquired");
    assert!(
        report.contains(
            "; append idle n=1 held=1.0ms maxheld=1.0ms \
             sync n=1 held=2.0ms maxheld=2.0ms both n=1 held=4.0ms maxheld=4.0ms"
        ),
        "got: {report}"
    );
}

/// The hold splits into the WAL file calls and the map commit, each
/// summed and with its window maximum, so a long hold reads as one
/// or the other. The window maxima reset with the window.
#[test]
fn a_write_hold_splits_into_wal_time_and_map_time() {
    let mut stats = LockStats::default();
    stats.record_write_uncontended();
    stats.record_write_hold(ms(5), 0, ms(4), AppendContext::default());
    stats.record_write_uncontended();
    stats.record_write_hold(ms(3), 0, ms(1), AppendContext::default());

    let snap = stats.take_window();
    assert_eq!(snap.writes.wal_nanos, 5_000_000);
    assert_eq!(snap.writes.max_wal_nanos, 4_000_000);
    assert_eq!(snap.writes.map_nanos, 3_000_000);
    assert_eq!(snap.writes.max_map_nanos, 2_000_000);
    let report = snap.report_line().expect("the writes acquired");
    assert!(
        report.contains("; wal held=5.0ms maxheld=4.0ms map held=3.0ms maxheld=2.0ms"),
        "got: {report}"
    );

    stats.record_write_uncontended();
    stats.record_write_hold(ms(1), 0, ms(1), AppendContext::default());
    let next = stats.snapshot();
    assert_eq!(next.writes.max_wal_nanos, 1_000_000);
    assert_eq!(next.writes.max_map_nanos, 0);
    assert_eq!(next.writes.wal_nanos, 6_000_000);
}

/// A write's hold is charged to the frozen depth it ran under, so
/// the cost of one more layer reads off the per-depth means. Depths
/// past the last bucket land in it, and the window maximum resets
/// while the peak stands.
#[test]
fn a_write_hold_is_charged_to_its_frozen_depth() {
    let mut stats = LockStats::default();
    stats.record_write_uncontended();
    stats.record_write_hold(ms(1), 0, 0, AppendContext::default());
    stats.record_write_uncontended();
    stats.record_write_hold(ms(3), 2, 0, AppendContext::default());
    stats.record_write_uncontended();
    stats.record_write_hold(ms(2), 7, 0, AppendContext::default());

    let snap = stats.take_window();
    assert_eq!(snap.writes.by_depth[0].writes, 1);
    assert_eq!(snap.writes.by_depth[2].hold_nanos, 3_000_000);
    assert_eq!(snap.writes.by_depth[DEPTH_BUCKETS - 1].writes, 1);
    assert_eq!(snap.writes.max_depth, 7);
    let report = snap.report_line().expect("the writes acquired");
    assert!(
        report.contains(
            "depth max=7 peak=7 d0 n=1 held=1.0ms maxheld=1.0ms \
             d2 n=1 held=3.0ms maxheld=3.0ms d5+ n=1 held=2.0ms maxheld=2.0ms"
        ),
        "got: {report}"
    );

    stats.record_write_uncontended();
    stats.record_write_hold(ms(1), 1, 0, AppendContext::default());
    let next = stats.snapshot();
    assert_eq!(next.writes.max_depth, 1);
    assert_eq!(next.writes.peak_depth, 7);
    assert_eq!(next.writes.by_depth[2].max_hold_nanos, 0);
    assert_eq!(next.writes.by_depth[2].hold_nanos, 3_000_000);
}

/// A drain is attributed to the site that released, sized by the
/// queue standing at that moment, and timed from the release.
#[test]
fn a_drain_is_timed_from_the_release_that_left_the_queue() {
    let mut stats = LockStats::default();
    stats.record_write_parking();
    stats.record_write_parking();

    stats.record(LockSite::RepackApply, 0, ms(600));
    stats.arm_drain(LockSite::RepackApply, NOW);

    let later = NOW + ms(2);
    stats.record_write_blocked(ms(600), later);
    let mid = stats.snapshot().site(LockSite::RepackApply);
    assert_eq!(mid.drains, 0, "one writer is still queued");

    stats.record_write_blocked(ms(602), later);

    let site = stats.snapshot().site(LockSite::RepackApply);
    assert_eq!(site.drains, 1);
    assert_eq!(site.drain_queued, 2, "both writers stood behind the hold");
    assert!(
        site.drain_nanos >= ms(2),
        "the tail covers the time after release, got {}ns",
        site.drain_nanos
    );
    assert!(
        site.drain_nanos < ms(600),
        "the tail is not the hold, got {}ns",
        site.drain_nanos
    );
}

/// A hold releasing into a queue that already stands replaces the
/// arm holding it, and the arms-to-drains shortfall counts that.
#[test]
fn an_arm_over_a_standing_queue_shows_as_a_shortfall() {
    let mut stats = LockStats::default();
    stats.record_write_parking();
    stats.record_write_parking();

    stats.record(LockSite::RepackApply, 0, ms(600));
    stats.arm_drain(LockSite::RepackApply, NOW);
    stats.record(LockSite::PublishSnapshot, 0, us(50));
    stats.arm_drain(LockSite::PublishSnapshot, NOW);

    stats.record_write_blocked(ms(600), NOW);
    stats.record_write_blocked(ms(601), NOW);

    let snap = stats.snapshot();
    let repack = snap.site(LockSite::RepackApply);
    let publish = snap.site(LockSite::PublishSnapshot);
    assert_eq!(repack.arms, 1);
    assert_eq!(repack.drains, 0, "its arm was replaced");
    assert_eq!(publish.arms, 1);
    assert_eq!(publish.drains, 1, "the surviving arm closed");

    let report = snap.report_line().expect("sites acquired");
    assert!(
        report.contains("arms=1 drains=0"),
        "the replaced arm is visible: {report}"
    );
}

/// The queue's high-water mark bounds every `queued` figure, so a
/// window reports it beside them.
#[test]
fn the_queue_depth_high_water_mark_is_reported() {
    let mut stats = LockStats::default();
    stats.record_write_parking();
    stats.record_write_parking();
    stats.record_write_parking();
    stats.record_write_blocked(ms(1), NOW);
    stats.record_write_blocked(ms(1), NOW);
    stats.record_write_parking();
    stats.record_write_blocked(ms(1), NOW);
    stats.record_write_blocked(ms(1), NOW);

    let writes = stats.snapshot().writes();
    assert_eq!(writes.max_waiting, 3);
    assert_eq!(writes.peak_waiting, 3);
    let report = stats.snapshot().report_line().expect("the writes acquired");
    assert!(report.contains("maxq=3 peakq=3"), "got: {report}");
}

/// `queued` samples once at the release, so writes arriving during
/// the tail count as joined.
#[test]
fn writes_joining_a_standing_queue_are_counted() {
    let mut stats = LockStats::default();
    stats.record_write_parking();
    stats.arm_drain(LockSite::RepackApply, NOW);

    stats.record_write_parking();
    stats.record_write_parking();
    stats.record_write_blocked(ms(5), NOW);
    stats.record_write_blocked(ms(4), NOW);
    stats.record_write_blocked(ms(3), NOW);

    let site = stats.snapshot().site(LockSite::RepackApply);
    assert_eq!(site.drains, 1);
    assert_eq!(site.drain_queued, 1, "one writer stood at the release");
    assert_eq!(site.drain_joined, 2, "two more joined before it cleared");
}

/// A hold nobody waited on leaves no queue and no tail to time.
#[test]
fn a_hold_with_an_empty_queue_arms_nothing() {
    let mut stats = LockStats::default();
    stats.record(LockSite::GcPlanApply, 0, ms(400));
    stats.arm_drain(LockSite::GcPlanApply, NOW);

    stats.record_write_parking();
    stats.record_write_blocked(ms(1), NOW);

    assert_eq!(stats.snapshot().site(LockSite::GcPlanApply).drains, 0);
}

/// A drain windows and peaks on the same terms as a hold.
#[test]
fn a_drain_windows_like_a_hold() {
    let mut stats = LockStats::default();
    stats.record_write_parking();
    stats.arm_drain(LockSite::RepackApply, NOW);
    stats.record_write_blocked(ms(9), NOW);
    let mark = stats.take_window();
    assert!(mark.site(LockSite::RepackApply).max_drain_nanos > 0);

    let window = stats.take_window().since(&mark);
    assert_eq!(window.site(LockSite::RepackApply).drains, 0);
    assert_eq!(
        window.site(LockSite::RepackApply).max_drain_nanos,
        0,
        "the drain belongs to the window before this one"
    );
    assert!(
        window.site(LockSite::RepackApply).peak_drain_nanos > 0,
        "the worst drain stays visible after its window closes"
    );
}

/// The spread separates one long wait from many.
#[test]
fn the_wait_spread_separates_one_stall_from_many() {
    let mut stats = LockStats::default();
    stats.record_write_blocked(ms(111), NOW);
    for _ in 0..1000 {
        stats.record_write_blocked(us(200), NOW);
    }

    let writes = stats.snapshot().writes();
    assert_eq!(writes.wait_buckets[0], 1000, "sub-millisecond waits");
    assert_eq!(
        writes.wait_buckets[wait_bucket(ms(111))],
        1
    );
    let report = stats.snapshot().report_line().expect("the writes acquired");
    assert!(report.contains("<1ms=1000"), "got: {report}");
    assert!(report.contains("<1000ms=1"), "got: {report}");
}

/// Every wait lands in exactly one bucket, including one past the
/// last edge.
#[test]
fn every_wait_falls_in_one_bucket() {
    assert_eq!(wait_bucket(0), 0);
    assert_eq!(wait_bucket(us(999)), 0);
    assert_eq!(wait_bucket(ms(1)), 1);
    assert_eq!(wait_bucket(ms(9)), 1);
    assert_eq!(wait_bucket(ms(10)), 2);
    assert_eq!(wait_bucket(ms(999)), 3);
    assert_eq!(wait_bucket(ms(1_000)), 4);
    assert_eq!(wait_bucket(ms(60_000)), WAIT_BUCKETS - 1);
}

/// The report is ranked by hold, so the site costing writers the most
/// reads first whatever order the sites were declared in.
#[test]
fn report_ranks_by_hold_descending() {
    let mut stats = LockStats::default();
    stats.record(LockSite::PublishSnapshot, 0, ms(1));
    stats.record(LockSite::RepackApply, 0, ms(50));
    let report = stats.snapshot().report_line().expect("sites acquired");
    let repack = report.find("repack-apply").expect("repack-apply named");
    let publish = report.find("publish").expect("publish named");
    assert!(
        repack < publish,
        "expected hold-ranked order, got: {report}"
    );
}

#[test]
fn counters_agree_after_a_history() {
    let mut stats = LockStats::default();
    stats.record(LockSite::CheckPromote, us(1), ms(2));
    for n in [0, 4, 40, 400] {
        stats.record_write_parking();
        stats.arm_drain(LockSite::PromoteApply, NOW);
        stats.record_write_blocked(ms(n), NOW + 5);
    }
    stats.record_write_uncontended();
    let sync = AppendContext { sync_in_flight: true, worker_running: false };
    stats.record_write_hold(ms(3), 2, ms(1), sync);
    stats.take_window();
    stats.record_write_hold(ms(5), 9, ms(2), AppendContext::default());
    let w = stats.snapshot().writes();
    assert_eq!(w.wait_buckets.iter().sum::<u64>(), w.blocked);
    assert_eq!((w.blocked, w.acquisitions), (4, 5));
    assert!(w.max_wait_nanos <= w.peak_wait_nanos && w.peak_wait_nanos <= w.wait_nanos);
    assert_eq!(w.by_depth.iter().map(|h| h.writes).sum::<u64>(), 2);
    assert_eq!(w.by_append.iter().map(|h| h.writes).sum::<u64>(), 2);
    assert_eq!(w.by_depth.iter().map(|h| h.hold_nanos).sum::<u64>(), w.hold_nanos);
    assert_eq!(w.by_append.iter().map(|h| h.hold_nanos).sum::<u64>(), w.wal_nanos);
    assert_eq!(w.wal_nanos + w.map_nanos, w.hold_nanos);
    let site = stats.snapshot().site(LockSite::PromoteApply);
    assert_eq!((site.arms, site.drains), (4, 4));
    // The queue is empty: a release changes nothing.
    let before = stats.snapshot();
    stats.arm_drain(LockSite::PromoteApply, NOW + 9);
    stats.record_write_parking();
    stats.record_write_blocked(ms(1), NOW + 20);
    assert_eq!(stats.snapshot().site(LockSite::PromoteApply), before.site(LockSite::PromoteApply));
    // Either kind of reading says the same.
    let plain = stats.snapshot();
    let taken = stats.take_window();
    assert_eq!(plain.sites, taken.sites);
    assert_eq!(plain.writes, taken.writes);
}
