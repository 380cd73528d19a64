//! What holds of a mutex's counters after any history of calls.

use vstd::prelude::*;

use crate::lock_stats::{
    AppendContext, HoldSnapshot, LockSite, LockStats, LockStatsSnapshot, SiteSnapshot,
    WriteSnapshot, SITE_COUNT,
};

verus! {

/// A call that changes the counters.
pub enum LockCall {
    Record { site: LockSite, wait: u64, hold: u64 },
    ArmDrain { site: LockSite, now: u64 },
    WriteUncontended,
    WriteParking,
    WriteBlocked { nanos: u64, now: u64 },
    WriteHold { hold: u64, depth: usize, wal: u64, context: AppendContext },
    SyncBegins,
    SyncEnds,
    WorkerBegins,
    WorkerEnds,
    TakeWindow,
}

/// The call leads from `before` to `after`.
pub open spec fn called(before: LockStats, call: LockCall, after: LockStats) -> bool {
    match call {
        LockCall::Record { site, wait, hold } => before.records(site, wait, hold, after),
        LockCall::ArmDrain { site, now } => before.arms(site, now, after),
        LockCall::WriteUncontended => after == before.with_uncontended(),
        LockCall::WriteParking => after == before.with_parked(),
        LockCall::WriteBlocked { nanos, now } => before.unparks(nanos, now, after),
        LockCall::WriteHold { hold, depth, wal, context } => before.holds(
            hold,
            depth,
            wal,
            context,
            after,
        ),
        LockCall::SyncBegins => after == before.with_syncs(before.syncs_in_flight.wrapping_add(1)),
        LockCall::SyncEnds => after == before.with_syncs(before.syncs_in_flight.wrapping_sub(1)),
        LockCall::WorkerBegins => after == before.with_jobs(
            before.worker_jobs_running.wrapping_add(1),
        ),
        LockCall::WorkerEnds => after == before.with_jobs(
            before.worker_jobs_running.wrapping_sub(1),
        ),
        LockCall::TakeWindow => before.begins_window(after),
    }
}

/// The writes that the depth buckets count.
pub open spec fn depth_writes(w: WriteSnapshot) -> int {
    w.by_depth@[0].writes + w.by_depth@[1].writes + w.by_depth@[2].writes + w.by_depth@[3].writes
        + w.by_depth@[4].writes + w.by_depth@[5].writes
}

/// The time that the depth buckets count.
pub open spec fn depth_nanos(w: WriteSnapshot) -> int {
    w.by_depth@[0].hold_nanos + w.by_depth@[1].hold_nanos + w.by_depth@[2].hold_nanos
        + w.by_depth@[3].hold_nanos + w.by_depth@[4].hold_nanos + w.by_depth@[5].hold_nanos
}

/// The writes that the append buckets count.
pub open spec fn append_writes(w: WriteSnapshot) -> int {
    w.by_append@[0].writes + w.by_append@[1].writes + w.by_append@[2].writes
        + w.by_append@[3].writes
}

/// The time that the append buckets count.
pub open spec fn append_nanos(w: WriteSnapshot) -> int {
    w.by_append@[0].hold_nanos + w.by_append@[1].hold_nanos + w.by_append@[2].hold_nanos
        + w.by_append@[3].hold_nanos
}

/// The waits that the wait buckets count.
pub open spec fn waits_counted(w: WriteSnapshot) -> int {
    w.wait_buckets@[0] + w.wait_buckets@[1] + w.wait_buckets@[2] + w.wait_buckets@[3]
        + w.wait_buckets@[4] + w.wait_buckets@[5]
}

/// The part of a hold spent outside the log's file.
pub open spec fn map_part(hold: u64, wal: u64) -> int {
    if hold > wal {
        hold - wal
    } else {
        0
    }
}

/// The call takes no counter past its end. A write that blocked was parked, and
/// what ends had begun.
pub open spec fn unwrapped(before: LockStats, call: LockCall) -> bool {
    let w = before.writes;
    match call {
        LockCall::Record { site, wait, hold } => {
            let s = before.sites@[site.place()];
            s.acquisitions < u64::MAX && s.wait_nanos + wait <= u64::MAX && s.hold_nanos + hold
                <= u64::MAX
        },
        LockCall::ArmDrain { site, .. } => before.sites@[site.place()].arms < u64::MAX,
        LockCall::WriteUncontended => w.acquisitions < u64::MAX,
        LockCall::WriteParking => before.waiting < u64::MAX,
        LockCall::WriteBlocked { nanos, .. } => before.waiting > 0 && w.acquisitions < u64::MAX
            && w.wait_nanos + nanos <= u64::MAX,
        LockCall::WriteHold { hold, wal, .. } => depth_writes(w) < u64::MAX && w.hold_nanos + hold
            <= u64::MAX && w.wal_nanos + wal <= u64::MAX && w.map_nanos + map_part(hold, wal)
            <= u64::MAX,
        LockCall::SyncBegins => before.syncs_in_flight < u64::MAX,
        LockCall::SyncEnds => before.syncs_in_flight > 0,
        LockCall::WorkerBegins => before.worker_jobs_running < u64::MAX,
        LockCall::WorkerEnds => before.worker_jobs_running > 0,
        LockCall::TakeWindow => true,
    }
}

/// `states` are the counters before each of the calls and after the last, from
/// the first use on.
pub open spec fn is_history(states: Seq<LockStats>, calls: Seq<LockCall>) -> bool {
    &&& states.len() == calls.len() + 1
    &&& states[0].fresh()
    &&& forall|i: int|
        0 <= i < calls.len() ==> called(states[i], #[trigger] calls[i], states[i + 1])
            && unwrapped(states[i], calls[i])
}

/// How many of the calls counted a hold of a write.
pub open spec fn holds_in(calls: Seq<LockCall>) -> int
    decreases calls.len(),
{
    if calls.len() == 0 {
        0
    } else {
        holds_in(calls.drop_last()) + (if calls.last() is WriteHold {
            1int
        } else {
            0
        })
    }
}

/// How many writes were parked and have not been counted as blocked since.
pub open spec fn parked_in(calls: Seq<LockCall>) -> int
    decreases calls.len(),
{
    if calls.len() == 0 {
        0
    } else {
        parked_in(calls.drop_last()) + (match calls.last() {
            LockCall::WriteParking => 1int,
            LockCall::WriteBlocked { .. } => -1int,
            _ => 0int,
        })
    }
}

/// How many syncs begun are not over.
pub open spec fn syncs_in(calls: Seq<LockCall>) -> int
    decreases calls.len(),
{
    if calls.len() == 0 {
        0
    } else {
        syncs_in(calls.drop_last()) + (match calls.last() {
            LockCall::SyncBegins => 1int,
            LockCall::SyncEnds => -1int,
            _ => 0int,
        })
    }
}

/// How many worker jobs begun are not over.
pub open spec fn jobs_in(calls: Seq<LockCall>) -> int
    decreases calls.len(),
{
    if calls.len() == 0 {
        0
    } else {
        jobs_in(calls.drop_last()) + (match calls.last() {
            LockCall::WorkerBegins => 1int,
            LockCall::WorkerEnds => -1int,
            _ => 0int,
        })
    }
}

/// No hold was shorter than its part in the log's file.
pub open spec fn appends_within_holds(calls: Seq<LockCall>) -> bool {
    forall|i: int|
        0 <= i < calls.len() ==> ((#[trigger] calls[i]) matches LockCall::WriteHold {
            hold,
            wal,
            ..
        } ==> wal <= hold)
}

/// The writes' counters agree with each other.
pub open spec fn writes_agree(w: WriteSnapshot) -> bool {
    &&& waits_counted(w) == w.blocked
    &&& w.blocked <= w.acquisitions
    &&& w.max_wait_nanos <= w.peak_wait_nanos <= w.wait_nanos
}

/// A site's counters agree with each other, with `standing` of its queues not
/// yet empty.
pub open spec fn site_agrees(s: SiteSnapshot, standing: int) -> bool {
    &&& s.drains + standing <= s.arms
    &&& s.max_hold_nanos <= s.peak_hold_nanos <= s.hold_nanos
}

/// The queues behind the site's holds that are being timed.
pub open spec fn standing(s: LockStats, i: int) -> int {
    if s.armed.release_nanos != 0 && s.armed.site.place() == i {
        1
    } else {
        0
    }
}

/// The hold buckets agree with the totals.
pub open spec fn holds_agree(w: WriteSnapshot, holds: int, within: bool) -> bool {
    &&& depth_writes(w) == holds
    &&& append_writes(w) == holds
    &&& depth_nanos(w) == w.hold_nanos
    &&& append_nanos(w) == w.wal_nanos
    &&& within ==> w.wal_nanos + w.map_nanos == w.hold_nanos
}

/// What the counters are after the calls.
pub open spec fn is_consistent(s: LockStats, calls: Seq<LockCall>) -> bool {
    &&& writes_agree(s.writes)
    &&& forall|i: int|
        0 <= i < SITE_COUNT ==> site_agrees(#[trigger] s.sites@[i], standing(s, i))
    &&& holds_agree(s.writes, holds_in(calls), appends_within_holds(calls))
    &&& s.waiting == parked_in(calls)
    &&& s.waiting == 0 ==> s.armed.release_nanos == 0
    &&& s.syncs_in_flight == syncs_in(calls)
    &&& s.worker_jobs_running == jobs_in(calls)
}

proof fn lemma_blocked(before: LockStats, nanos: u64, after: WriteSnapshot)
    requires
        writes_agree(before.writes),
        LockStats::blocked_writes(before.writes, nanos, after),
        before.writes.acquisitions < u64::MAX,
        before.writes.wait_nanos + nanos <= u64::MAX,
    ensures
        writes_agree(after),
{
    let at = crate::lock_stats::wait_place(nanos as int);
    assert(0 <= at < 6);
    assert(before.writes.wait_buckets@[at] <= waits_counted(before.writes));
}

proof fn lemma_charged(h: HoldSnapshot, nanos: u64)
    requires
        h.writes < u64::MAX,
        h.hold_nanos + nanos <= u64::MAX,
    ensures
        crate::lock_stats::charged(h, nanos).writes == h.writes + 1,
        crate::lock_stats::charged(h, nanos).hold_nanos == h.hold_nanos + nanos,
{
}

proof fn lemma_held(
    w: WriteSnapshot,
    hold: u64,
    depth: usize,
    wal: u64,
    context: AppendContext,
    after: WriteSnapshot,
    holds: int,
    within: bool,
)
    requires
        holds_agree(w, holds, within),
        LockStats::held_writes(w, hold, depth, wal, context, after),
        depth_writes(w) < u64::MAX,
        w.hold_nanos + hold <= u64::MAX,
        w.wal_nanos + wal <= u64::MAX,
        w.map_nanos + map_part(hold, wal) <= u64::MAX,
    ensures
        holds_agree(after, holds + 1, within && wal <= hold),
{
    let d = crate::lock_stats::depth_place(depth as int);
    let a = context.place();
    assert(0 <= d < 6 && 0 <= a < 4);
    assert(w.by_depth@[d].writes <= depth_writes(w) && w.by_depth@[d].hold_nanos <= depth_nanos(w));
    assert(w.by_append@[a].writes <= append_writes(w) && w.by_append@[a].hold_nanos
        <= append_nanos(w));
    lemma_charged(w.by_depth@[d], hold);
    lemma_charged(w.by_append@[a], wal);
    assert(depth_writes(after) == depth_writes(w) + 1);
    assert(depth_nanos(after) == depth_nanos(w) + hold);
    assert(append_writes(after) == append_writes(w) + 1);
    assert(append_nanos(after) == append_nanos(w) + wal);
}

proof fn lemma_calls(calls: Seq<LockCall>, call: LockCall)
    ensures
        calls.push(call).drop_last() == calls,
        appends_within_holds(calls.push(call)) ==> appends_within_holds(calls),
        appends_within_holds(calls.push(call)) ==> (call matches LockCall::WriteHold {
            hold,
            wal,
            ..
        } ==> wal <= hold),
{
    let all = calls.push(call);
    assert(all.drop_last() =~= calls);
    if appends_within_holds(all) {
        assert(all[calls.len() as int] == call);
        assert forall|i: int| 0 <= i < calls.len() implies ((
        #[trigger] calls[i]) matches LockCall::WriteHold { hold, wal, .. } ==> wal <= hold) by {
            assert(all[i] == calls[i]);
        }
    }
}

/// A site of which no hold was counted keeps its agreement.
proof fn lemma_sites(before: LockStats, call: LockCall, after: LockStats, calls: Seq<LockCall>)
    requires
        is_consistent(before, calls),
        called(before, call, after),
        unwrapped(before, call),
    ensures
        forall|i: int|
            0 <= i < SITE_COUNT ==> site_agrees(#[trigger] after.sites@[i], standing(after, i)),
{
    assert forall|i: int| 0 <= i < SITE_COUNT implies site_agrees(
        #[trigger] after.sites@[i],
        standing(after, i),
    ) by {
        assert(site_agrees(before.sites@[i], standing(before, i)));
        match call {
            LockCall::Record { site, .. } => {
                assert(0 <= site.place() < 23);
            },
            LockCall::ArmDrain { site, .. } => {
                assert(0 <= site.place() < 23);
            },
            LockCall::WriteBlocked { .. } => {
                assert(0 <= before.armed.site.place() < 23);
            },
            _ => {},
        }
    }
}

/// The counters stay consistent.
proof fn lemma_step(before: LockStats, call: LockCall, after: LockStats, calls: Seq<LockCall>)
    requires
        is_consistent(before, calls),
        called(before, call, after),
        unwrapped(before, call),
    ensures
        is_consistent(after, calls.push(call)),
{
    lemma_calls(calls, call);
    lemma_sites(before, call, after, calls);
    match call {
        LockCall::WriteBlocked { nanos, .. } => lemma_blocked(before, nanos, after.writes),
        LockCall::WriteHold { hold, depth, wal, context } => lemma_held(
            before.writes,
            hold,
            depth,
            wal,
            context,
            after.writes,
            holds_in(calls),
            appends_within_holds(calls),
        ),
        LockCall::TakeWindow => {
            assert(depth_writes(after.writes) == depth_writes(before.writes));
            assert(depth_nanos(after.writes) == depth_nanos(before.writes));
            assert(append_writes(after.writes) == append_writes(before.writes));
            assert(append_nanos(after.writes) == append_nanos(before.writes));
        },
        _ => {},
    }
}

proof fn lemma_history(states: Seq<LockStats>, calls: Seq<LockCall>)
    requires
        is_history(states, calls),
    ensures
        is_consistent(states.last(), calls),
    decreases calls.len(),
{
    if calls.len() == 0 {
        let w = states[0].writes;
        assert(waits_counted(w) == 0);
        assert(depth_writes(w) == 0 && depth_nanos(w) == 0);
        assert(append_writes(w) == 0 && append_nanos(w) == 0);
    } else {
        let n = calls.len() - 1;
        let first = calls.drop_last();
        let head = states.drop_last();
        assert forall|i: int| 0 <= i < first.len() implies called(
            head[i],
            #[trigger] first[i],
            head[i + 1],
        ) && unwrapped(head[i], first[i]) by {
            assert(first[i] == calls[i]);
        }
        lemma_history(head, first);
        assert(called(states[n], calls[n], states[n + 1]));
        lemma_step(states[n], calls[n], states[n + 1], first);
        assert(first.push(calls[n]) =~= calls);
    }
}

/// Over any history of calls, every blocked write is in one wait bucket, no
/// more writes blocked than took the mutex, and the longest wait of a window is
/// no longer than the longest of all, which the total holds.
pub proof fn law_blocked_writes_agree(states: Seq<LockStats>, calls: Seq<LockCall>)
    requires
        is_history(states, calls),
    ensures
        writes_agree(states.last().writes),
{
    lemma_history(states, calls);
}

/// Over any history of calls, no site has more queues emptied than were timed,
/// and its longest hold of a window is no longer than its longest of all, which
/// its total holds.
pub proof fn law_sites_agree(states: Seq<LockStats>, calls: Seq<LockCall>, site: LockSite)
    requires
        is_history(states, calls),
    ensures
        site_agrees(states.last().sites@[site.place()], 0),
{
    lemma_history(states, calls);
    assert(0 <= site.place() < 23);
    assert(site_agrees(
        states.last().sites@[site.place()],
        standing(states.last(), site.place()),
    ));
}

/// Over any history of calls, the buckets by depth and those by what was in
/// flight each count every hold, and their times sum to the time held and the
/// time in the log's file. Where no hold was shorter than its part in the log's
/// file, that part and the rest sum to the time held.
pub proof fn law_hold_buckets_sum(states: Seq<LockStats>, calls: Seq<LockCall>)
    requires
        is_history(states, calls),
    ensures
        holds_agree(states.last().writes, holds_in(calls), appends_within_holds(calls)),
{
    lemma_history(states, calls);
}

/// What an append finds in flight is just what began and is not over.
pub proof fn law_context_names_what_is_in_flight(
    states: Seq<LockStats>,
    calls: Seq<LockCall>,
    context: AppendContext,
)
    requires
        is_history(states, calls),
        states.last().is_context(context),
    ensures
        context.sync_in_flight <==> syncs_in(calls) > 0,
        context.worker_running <==> jobs_in(calls) > 0,
{
    lemma_history(states, calls);
}

/// Where every write that was parked has been counted as blocked, the queue is
/// empty: a hold that releases then changes nothing, and the next write to park
/// and leave again is charged to no site.
pub proof fn law_an_empty_queue_arms_nothing(
    states: Seq<LockStats>,
    calls: Seq<LockCall>,
    site: LockSite,
    now: u64,
    released: LockStats,
    nanos: u64,
    later: u64,
    after: LockStats,
)
    requires
        is_history(states, calls),
        parked_in(calls) == 0,
        states.last().arms(site, now, released),
        released.with_parked().unparks(nanos, later, after),
    ensures
        released == states.last(),
        after.sites == states.last().sites,
{
    lemma_history(states, calls);
}

/// A reading that begins a new window says what a plain reading in its place
/// would have said, and a plain reading leaves the counters, so that the next
/// reading of either kind says the same.
pub proof fn law_readings_agree(stats: LockStats, plain: LockStatsSnapshot, next: LockStatsSnapshot)
    requires
        stats.reads(plain),
        stats.reads(next),
    ensures
        plain == next,
{
}

} // verus!
