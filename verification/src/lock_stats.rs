//! Occupancy of the volume mutex, site by site.
//!
//! A guest write takes the volume mutex, so every other acquisition of it is
//! time a guest write can spend waiting. Each labelled site counts what it
//! waited and held; the guest's writes count what they waited; and a hold that
//! releases into a queue of parked writes is timed until the queue is empty.
//!
//! Times are nanoseconds. Counters wrap.

use vstd::prelude::*;

use crate::order::{is_stable_order, stable_order, stable_order_of};

verus! {

/// A labelled acquisition of the volume mutex.
#[derive(Clone, Copy, Debug, PartialEq, Eq, Structural)]
pub enum LockSite {
    PublishSnapshot,
    CheckPromote,
    FlushHandle,
    PromotePrep,
    PromoteApply,
    PromoteSegmentPrep,
    PromoteSegmentApply,
    RepackPrep,
    RepackApply,
    RepackUnlink,
    ReapApply,
    ReapUnlink,
    ClosePrep,
    ReclaimPrep,
    ReclaimApply,
    GcCheckpoint,
    GcPlanPrep,
    GcPlanApply,
    GcHandoffFinalize,
    OwnSegments,
    SnapshotPrep,
    SnapshotApply,
    NoopStats,
}

/// How many sites there are.
pub const SITE_COUNT: usize = 23;

impl LockSite {
    /// The place of the site among the counters.
    pub open spec fn place(self) -> int {
        match self {
            LockSite::PublishSnapshot => 0,
            LockSite::CheckPromote => 1,
            LockSite::FlushHandle => 2,
            LockSite::PromotePrep => 3,
            LockSite::PromoteApply => 4,
            LockSite::PromoteSegmentPrep => 5,
            LockSite::PromoteSegmentApply => 6,
            LockSite::RepackPrep => 7,
            LockSite::RepackApply => 8,
            LockSite::RepackUnlink => 9,
            LockSite::ReapApply => 10,
            LockSite::ReapUnlink => 11,
            LockSite::ClosePrep => 12,
            LockSite::ReclaimPrep => 13,
            LockSite::ReclaimApply => 14,
            LockSite::GcCheckpoint => 15,
            LockSite::GcPlanPrep => 16,
            LockSite::GcPlanApply => 17,
            LockSite::GcHandoffFinalize => 18,
            LockSite::OwnSegments => 19,
            LockSite::SnapshotPrep => 20,
            LockSite::SnapshotApply => 21,
            LockSite::NoopStats => 22,
        }
    }

    /// The name of the site in a report.
    pub open spec fn name(self) -> &'static str {
        match self {
            LockSite::PublishSnapshot => "publish",
            LockSite::CheckPromote => "check-promote",
            LockSite::FlushHandle => "flush-handle",
            LockSite::PromotePrep => "promote-prep",
            LockSite::PromoteApply => "promote-apply",
            LockSite::PromoteSegmentPrep => "promote-segment-prep",
            LockSite::PromoteSegmentApply => "promote-segment-apply",
            LockSite::RepackPrep => "repack-prep",
            LockSite::RepackApply => "repack-apply",
            LockSite::RepackUnlink => "repack-unlink",
            LockSite::ReapApply => "reap-apply",
            LockSite::ReapUnlink => "reap-unlink",
            LockSite::ClosePrep => "close-prep",
            LockSite::ReclaimPrep => "reclaim-prep",
            LockSite::ReclaimApply => "reclaim-apply",
            LockSite::GcCheckpoint => "gc-checkpoint",
            LockSite::GcPlanPrep => "gc-plan-prep",
            LockSite::GcPlanApply => "gc-plan-apply",
            LockSite::GcHandoffFinalize => "gc-handoff-finalize",
            LockSite::OwnSegments => "own-segments",
            LockSite::SnapshotPrep => "snapshot-prep",
            LockSite::SnapshotApply => "snapshot-apply",
            LockSite::NoopStats => "noop-stats",
        }
    }

    /// Every site, in the order of their places.
    pub fn all() -> (list: [LockSite; 23])
        ensures
            forall|i: int| 0 <= i < SITE_COUNT ==> (#[trigger] list@[i]).place() == i,
            forall|site: LockSite| list@[#[trigger] site.place()] == site,
    {
        [
            LockSite::PublishSnapshot,
            LockSite::CheckPromote,
            LockSite::FlushHandle,
            LockSite::PromotePrep,
            LockSite::PromoteApply,
            LockSite::PromoteSegmentPrep,
            LockSite::PromoteSegmentApply,
            LockSite::RepackPrep,
            LockSite::RepackApply,
            LockSite::RepackUnlink,
            LockSite::ReapApply,
            LockSite::ReapUnlink,
            LockSite::ClosePrep,
            LockSite::ReclaimPrep,
            LockSite::ReclaimApply,
            LockSite::GcCheckpoint,
            LockSite::GcPlanPrep,
            LockSite::GcPlanApply,
            LockSite::GcHandoffFinalize,
            LockSite::OwnSegments,
            LockSite::SnapshotPrep,
            LockSite::SnapshotApply,
            LockSite::NoopStats,
        ]
    }

    /// The place of the site among the counters.
    pub fn index(self) -> (i: usize)
        ensures
            i == self.place(),
            i < SITE_COUNT,
    {
        match self {
            LockSite::PublishSnapshot => 0,
            LockSite::CheckPromote => 1,
            LockSite::FlushHandle => 2,
            LockSite::PromotePrep => 3,
            LockSite::PromoteApply => 4,
            LockSite::PromoteSegmentPrep => 5,
            LockSite::PromoteSegmentApply => 6,
            LockSite::RepackPrep => 7,
            LockSite::RepackApply => 8,
            LockSite::RepackUnlink => 9,
            LockSite::ReapApply => 10,
            LockSite::ReapUnlink => 11,
            LockSite::ClosePrep => 12,
            LockSite::ReclaimPrep => 13,
            LockSite::ReclaimApply => 14,
            LockSite::GcCheckpoint => 15,
            LockSite::GcPlanPrep => 16,
            LockSite::GcPlanApply => 17,
            LockSite::GcHandoffFinalize => 18,
            LockSite::OwnSegments => 19,
            LockSite::SnapshotPrep => 20,
            LockSite::SnapshotApply => 21,
            LockSite::NoopStats => 22,
        }
    }

    /// The name of the site in a report.
    pub fn label(self) -> (s: &'static str)
        ensures
            s == self.name(),
    {
        match self {
            LockSite::PublishSnapshot => "publish",
            LockSite::CheckPromote => "check-promote",
            LockSite::FlushHandle => "flush-handle",
            LockSite::PromotePrep => "promote-prep",
            LockSite::PromoteApply => "promote-apply",
            LockSite::PromoteSegmentPrep => "promote-segment-prep",
            LockSite::PromoteSegmentApply => "promote-segment-apply",
            LockSite::RepackPrep => "repack-prep",
            LockSite::RepackApply => "repack-apply",
            LockSite::RepackUnlink => "repack-unlink",
            LockSite::ReapApply => "reap-apply",
            LockSite::ReapUnlink => "reap-unlink",
            LockSite::ClosePrep => "close-prep",
            LockSite::ReclaimPrep => "reclaim-prep",
            LockSite::ReclaimApply => "reclaim-apply",
            LockSite::GcCheckpoint => "gc-checkpoint",
            LockSite::GcPlanPrep => "gc-plan-prep",
            LockSite::GcPlanApply => "gc-plan-apply",
            LockSite::GcHandoffFinalize => "gc-handoff-finalize",
            LockSite::OwnSegments => "own-segments",
            LockSite::SnapshotPrep => "snapshot-prep",
            LockSite::SnapshotApply => "snapshot-apply",
            LockSite::NoopStats => "noop-stats",
        }
    }
}

/// The name of a site says which it is.
pub proof fn law_labels_are_distinct(a: LockSite, b: LockSite)
    requires
        a.name()@ == b.name()@,
    ensures
        a == b,
{
    reveal_strlit("publish");
    reveal_strlit("check-promote");
    reveal_strlit("flush-handle");
    reveal_strlit("promote-prep");
    reveal_strlit("promote-apply");
    reveal_strlit("promote-segment-prep");
    reveal_strlit("promote-segment-apply");
    reveal_strlit("repack-prep");
    reveal_strlit("repack-apply");
    reveal_strlit("repack-unlink");
    reveal_strlit("reap-apply");
    reveal_strlit("reap-unlink");
    reveal_strlit("close-prep");
    reveal_strlit("reclaim-prep");
    reveal_strlit("reclaim-apply");
    reveal_strlit("gc-checkpoint");
    reveal_strlit("gc-plan-prep");
    reveal_strlit("gc-plan-apply");
    reveal_strlit("gc-handoff-finalize");
    reveal_strlit("own-segments");
    reveal_strlit("snapshot-prep");
    reveal_strlit("snapshot-apply");
    reveal_strlit("noop-stats");
    let (s, t) = (a.name()@, b.name()@);
    assert(s.len() == t.len());
    assert(forall|i: int| #[trigger] s[i] == t[i]);
    assert(s[0] == t[0]);
    assert(s[1] == t[1]);
    assert(s[2] == t[2]);
    assert(s[3] == t[3]);
    assert(s[4] == t[4]);
    assert(s[5] == t[5]);
    assert(s[6] == t[6]);
    assert(s[7] == t[7]);
    assert(s[8] == t[8]);
}
// ---------------------------------------------------------------------------
// Buckets
// ---------------------------------------------------------------------------

/// Depths a write's hold is charged to: 0 to 4, and 5 or more.
pub const DEPTH_BUCKETS: usize = 6;

/// What was in flight at an append: nothing, a sync, a worker job, or both.
pub const APPEND_BUCKETS: usize = 4;

/// One bucket of waits below each edge, and one past the last.
pub const WAIT_BUCKETS: usize = 6;

/// The bucket of a depth.
pub open spec fn depth_place(depth: int) -> int {
    if depth < 5 {
        depth
    } else {
        5
    }
}

/// The bucket of a wait: below 1 ms, 10 ms, 100 ms, 1 s, 10 s, or longer.
pub open spec fn wait_place(nanos: int) -> int {
    let ms = nanos / 1_000_000;
    if ms < 1 {
        0
    } else if ms < 10 {
        1
    } else if ms < 100 {
        2
    } else if ms < 1_000 {
        3
    } else if ms < 10_000 {
        4
    } else {
        5
    }
}

/// What a write found in flight when it took the mutex.
#[derive(Clone, Copy, Debug, PartialEq, Eq, Structural)]
pub struct AppendContext {
    pub sync_in_flight: bool,
    pub worker_running: bool,
}

impl AppendContext {
    /// The bucket of the append.
    pub open spec fn place(self) -> int {
        (if self.sync_in_flight {
            1int
        } else {
            0
        }) + (if self.worker_running {
            2int
        } else {
            0
        })
    }
}

impl Default for AppendContext {
    fn default() -> (c: Self)
        ensures
            !c.sync_in_flight && !c.worker_running,
    {
        AppendContext { sync_in_flight: false, worker_running: false }
    }
}

/// The bucket of a depth.
pub fn depth_bucket(depth: usize) -> (i: usize)
    ensures
        i == depth_place(depth as int),
        i < DEPTH_BUCKETS,
{
    if depth < 5 {
        depth
    } else {
        5
    }
}

/// The bucket of a wait.
pub fn wait_bucket(nanos: u64) -> (i: usize)
    ensures
        i == wait_place(nanos as int),
        i < WAIT_BUCKETS,
{
    let ms: u64 = nanos / 1_000_000;
    if ms < 1 {
        0
    } else if ms < 10 {
        1
    } else if ms < 100 {
        2
    } else if ms < 1_000 {
        3
    } else if ms < 10_000 {
        4
    } else {
        5
    }
}

/// The bucket of an append.
pub fn append_bucket(context: AppendContext) -> (i: usize)
    ensures
        i == context.place(),
        i < APPEND_BUCKETS,
{
    match (context.sync_in_flight, context.worker_running) {
        (false, false) => 0,
        (true, false) => 1,
        (false, true) => 2,
        (true, true) => 3,
    }
}

// ---------------------------------------------------------------------------
// Counters
// ---------------------------------------------------------------------------

/// One site's counters. The maxima with `max` in their name are those of the
/// window, those with `peak` those since the volume opened.
#[derive(Clone, Copy, Debug, PartialEq, Eq, Structural)]
pub struct SiteSnapshot {
    pub acquisitions: u64,
    pub wait_nanos: u64,
    pub hold_nanos: u64,
    pub max_hold_nanos: u64,
    pub peak_hold_nanos: u64,
    /// Holds that released with writes parked behind them.
    pub arms: u64,
    /// Those of them whose queue emptied before another hold took it over.
    pub drains: u64,
    /// Writes parked when those holds released.
    pub drain_queued: u64,
    /// Writes that parked before the queue was empty.
    pub drain_joined: u64,
    /// The time those queues took to empty.
    pub drain_nanos: u64,
    pub max_drain_nanos: u64,
    pub peak_drain_nanos: u64,
}

/// The writes charged to one bucket.
#[derive(Clone, Copy, Debug, PartialEq, Eq, Structural)]
pub struct HoldSnapshot {
    pub writes: u64,
    pub hold_nanos: u64,
    pub max_hold_nanos: u64,
}

/// The guest writes' counters.
#[derive(Clone, Copy, Debug, PartialEq, Eq)]
pub struct WriteSnapshot {
    pub acquisitions: u64,
    /// Those that found the mutex taken.
    pub blocked: u64,
    pub wait_nanos: u64,
    pub max_wait_nanos: u64,
    pub peak_wait_nanos: u64,
    pub hold_nanos: u64,
    pub max_hold_nanos: u64,
    /// The deepest the queue of parked writes got.
    pub max_waiting: u64,
    pub peak_waiting: u64,
    pub wait_buckets: [u64; 6],
    /// Holds by how many layers the write looked through.
    pub by_depth: [HoldSnapshot; 6],
    pub max_depth: u64,
    pub peak_depth: u64,
    /// The part of the holds spent in the log's file, and the rest.
    pub wal_nanos: u64,
    pub max_wal_nanos: u64,
    pub map_nanos: u64,
    pub max_map_nanos: u64,
    /// The time in the log's file, by what was in flight.
    pub by_append: [HoldSnapshot; 4],
}

/// Every counter at one instant.
#[derive(Clone, Copy, Debug)]
pub struct LockStatsSnapshot {
    pub sites: [SiteSnapshot; 23],
    pub writes: WriteSnapshot,
}

/// The hold whose queue is still emptying. One at a time: a hold that releases
/// into a standing queue takes its place.
#[derive(Clone, Copy, Debug, PartialEq, Eq, Structural)]
pub struct ArmedDrain {
    pub site: LockSite,
    /// When it released; zero where no queue stands.
    pub release_nanos: u64,
    pub queued: u64,
    pub joined: u64,
}

/// The counters of one volume's mutex.
pub struct LockStats {
    pub sites: [SiteSnapshot; 23],
    pub writes: WriteSnapshot,
    /// Writes parked on the mutex now.
    pub waiting: u64,
    pub armed: ArmedDrain,
    pub syncs_in_flight: u64,
    pub worker_jobs_running: u64,
}

/// The larger of two.
pub open spec fn larger(a: u64, b: u64) -> u64 {
    if a < b {
        b
    } else {
        a
    }
}

fn max_of(a: u64, b: u64) -> (m: u64)
    ensures
        m == larger(a, b),
{
    if a < b {
        b
    } else {
        a
    }
}

/// A site that has counted nothing.
pub open spec fn zero_site() -> SiteSnapshot {
    SiteSnapshot {
        acquisitions: 0,
        wait_nanos: 0,
        hold_nanos: 0,
        max_hold_nanos: 0,
        peak_hold_nanos: 0,
        arms: 0,
        drains: 0,
        drain_queued: 0,
        drain_joined: 0,
        drain_nanos: 0,
        max_drain_nanos: 0,
        peak_drain_nanos: 0,
    }
}

/// A bucket that has counted nothing.
pub open spec fn zero_hold() -> HoldSnapshot {
    HoldSnapshot { writes: 0, hold_nanos: 0, max_hold_nanos: 0 }
}

/// The writes have counted nothing.
pub open spec fn zero_writes(w: WriteSnapshot) -> bool {
    &&& w == (WriteSnapshot {
        acquisitions: 0,
        blocked: 0,
        wait_nanos: 0,
        max_wait_nanos: 0,
        peak_wait_nanos: 0,
        hold_nanos: 0,
        max_hold_nanos: 0,
        max_waiting: 0,
        peak_waiting: 0,
        wait_buckets: w.wait_buckets,
        by_depth: w.by_depth,
        max_depth: 0,
        peak_depth: 0,
        wal_nanos: 0,
        max_wal_nanos: 0,
        map_nanos: 0,
        max_map_nanos: 0,
        by_append: w.by_append,
    })
    &&& forall|i: int| 0 <= i < 6 ==> #[trigger] w.wait_buckets@[i] == 0
    &&& forall|i: int| 0 <= i < 6 ==> #[trigger] w.by_depth@[i] == zero_hold()
    &&& forall|i: int| 0 <= i < 4 ==> #[trigger] w.by_append@[i] == zero_hold()
}

/// A site that has counted nothing.
fn new_site() -> (s: SiteSnapshot)
    ensures
        s == zero_site(),
{
    SiteSnapshot {
        acquisitions: 0,
        wait_nanos: 0,
        hold_nanos: 0,
        max_hold_nanos: 0,
        peak_hold_nanos: 0,
        arms: 0,
        drains: 0,
        drain_queued: 0,
        drain_joined: 0,
        drain_nanos: 0,
        max_drain_nanos: 0,
        peak_drain_nanos: 0,
    }
}

fn new_writes() -> (w: WriteSnapshot)
    ensures
        zero_writes(w),
{
    let none = HoldSnapshot { writes: 0, hold_nanos: 0, max_hold_nanos: 0 };
    WriteSnapshot {
        acquisitions: 0,
        blocked: 0,
        wait_nanos: 0,
        max_wait_nanos: 0,
        peak_wait_nanos: 0,
        hold_nanos: 0,
        max_hold_nanos: 0,
        max_waiting: 0,
        peak_waiting: 0,
        wait_buckets: [0;6],
        by_depth: [none;6],
        max_depth: 0,
        peak_depth: 0,
        wal_nanos: 0,
        max_wal_nanos: 0,
        map_nanos: 0,
        max_map_nanos: 0,
        by_append: [none;4],
    }
}

impl Default for LockStats {
    fn default() -> (s: Self)
        ensures
            s.fresh(),
    {
        LockStats {
            sites: [new_site();23],
            writes: new_writes(),
            waiting: 0,
            armed: ArmedDrain {
                site: LockSite::PublishSnapshot,
                release_nanos: 0,
                queued: 0,
                joined: 0,
            },
            syncs_in_flight: 0,
            worker_jobs_running: 0,
        }
    }
}

impl Default for LockStatsSnapshot {
    fn default() -> (s: Self)
        ensures
            forall|i: int| 0 <= i < SITE_COUNT ==> #[trigger] s.sites@[i] == zero_site(),
            zero_writes(s.writes),
    {
        LockStatsSnapshot { sites: [new_site();23], writes: new_writes() }
    }
}

/// A bucket with one more write charged to it.
pub open spec fn charged(h: HoldSnapshot, nanos: u64) -> HoldSnapshot {
    HoldSnapshot {
        writes: h.writes.wrapping_add(1),
        hold_nanos: h.hold_nanos.wrapping_add(nanos),
        max_hold_nanos: larger(h.max_hold_nanos, nanos),
    }
}

fn charge(h: HoldSnapshot, nanos: u64) -> (n: HoldSnapshot)
    ensures
        n == charged(h, nanos),
{
    HoldSnapshot {
        writes: h.writes.wrapping_add(1),
        hold_nanos: h.hold_nanos.wrapping_add(nanos),
        max_hold_nanos: max_of(h.max_hold_nanos, nanos),
    }
}

/// A site with one more acquisition.
pub open spec fn recorded(s: SiteSnapshot, wait: u64, hold: u64) -> SiteSnapshot {
    SiteSnapshot {
        acquisitions: s.acquisitions.wrapping_add(1),
        wait_nanos: s.wait_nanos.wrapping_add(wait),
        hold_nanos: s.hold_nanos.wrapping_add(hold),
        max_hold_nanos: larger(s.max_hold_nanos, hold),
        peak_hold_nanos: larger(s.peak_hold_nanos, hold),
        ..s
    }
}

/// A site with one more queue emptied.
pub open spec fn drained(s: SiteSnapshot, armed: ArmedDrain, tail: u64) -> SiteSnapshot {
    SiteSnapshot {
        drains: s.drains.wrapping_add(1),
        drain_queued: s.drain_queued.wrapping_add(armed.queued),
        drain_joined: s.drain_joined.wrapping_add(armed.joined),
        drain_nanos: s.drain_nanos.wrapping_add(tail),
        max_drain_nanos: larger(s.max_drain_nanos, tail),
        peak_drain_nanos: larger(s.peak_drain_nanos, tail),
        ..s
    }
}

/// How long a queue took to empty: a drain within one tick still counts one.
pub open spec fn drain_tail(release: u64, now: u64) -> u64 {
    if now > release {
        (now - release) as u64
    } else {
        1
    }
}

impl LockStats {
    /// Nothing was counted, nothing is in flight and nobody waits.
    pub open spec fn fresh(&self) -> bool {
        &&& forall|i: int| 0 <= i < SITE_COUNT ==> #[trigger] self.sites@[i] == zero_site()
        &&& zero_writes(self.writes)
        &&& self.waiting == 0 && self.armed.release_nanos == 0
        &&& self.syncs_in_flight == 0 && self.worker_jobs_running == 0
    }

    /// The reading of the counters.
    pub open spec fn reads(&self, snap: LockStatsSnapshot) -> bool {
        snap.sites == self.sites && snap.writes == self.writes
    }

    /// What is in flight.
    pub open spec fn is_context(&self, c: AppendContext) -> bool {
        &&& c.sync_in_flight == (self.syncs_in_flight > 0)
        &&& c.worker_running == (self.worker_jobs_running > 0)
    }

    /// One more sync, or one less, is in flight.
    pub open spec fn with_syncs(&self, syncs_in_flight: u64) -> LockStats {
        LockStats { syncs_in_flight, ..*self }
    }

    /// One more worker job, or one less, is running.
    pub open spec fn with_jobs(&self, worker_jobs_running: u64) -> LockStats {
        LockStats { worker_jobs_running, ..*self }
    }

    /// The counters with one more acquisition of a site.
    pub open spec fn records(&self, site: LockSite, wait: u64, hold: u64, after: LockStats) -> bool {
        &&& after.sites@ == self.sites@.update(
            site.place(),
            recorded(self.sites@[site.place()], wait, hold),
        )
        &&& after == (LockStats { sites: after.sites, ..*self })
    }

    /// The counters with the queue behind a hold timed, where there is one.
    pub open spec fn arms(&self, site: LockSite, now: u64, after: LockStats) -> bool {
        if self.waiting == 0 {
            after == *self
        } else {
            &&& after.sites@ == self.sites@.update(
                site.place(),
                SiteSnapshot {
                    arms: self.sites@[site.place()].arms.wrapping_add(1),
                    ..self.sites@[site.place()]
                },
            )
            &&& after == (LockStats {
                sites: after.sites,
                armed: ArmedDrain {
                    site,
                    release_nanos: larger(now, 1),
                    queued: self.waiting,
                    joined: 0,
                },
                ..*self
            })
        }
    }

    /// The counters with one more write that took the mutex at once.
    pub open spec fn with_uncontended(&self) -> LockStats {
        LockStats {
            writes: WriteSnapshot {
                acquisitions: self.writes.acquisitions.wrapping_add(1),
                ..self.writes
            },
            ..*self
        }
    }

    /// The counters with one more write parked.
    pub open spec fn with_parked(&self) -> LockStats {
        let depth = self.waiting.wrapping_add(1);
        LockStats {
            waiting: depth,
            writes: WriteSnapshot {
                max_waiting: larger(self.writes.max_waiting, depth),
                peak_waiting: larger(self.writes.peak_waiting, depth),
                ..self.writes
            },
            armed: ArmedDrain {
                joined: if self.armed.release_nanos != 0 {
                    self.armed.joined.wrapping_add(1)
                } else {
                    self.armed.joined
                },
                ..self.armed
            },
            ..*self
        }
    }

    /// The counters with one more write that blocked, for `nanos`.
    pub open spec fn unparks(&self, nanos: u64, now: u64, after: LockStats) -> bool {
        let ends = self.waiting == 1 && self.armed.release_nanos != 0;
        let at = self.armed.site.place();
        &&& LockStats::blocked_writes(self.writes, nanos, after.writes)
        &&& ends ==> after.sites@ == self.sites@.update(
            at,
            drained(
                self.sites@[at],
                self.armed,
                drain_tail(self.armed.release_nanos, now),
            ),
        )
        &&& !ends ==> after.sites == self.sites
        &&& after == (LockStats {
            sites: after.sites,
            writes: after.writes,
            waiting: self.waiting.wrapping_sub(1),
            armed: ArmedDrain {
                release_nanos: if self.waiting == 1 {
                    0
                } else {
                    self.armed.release_nanos
                },
                ..self.armed
            },
            ..*self
        })
    }

    /// The counters with one more hold of a write.
    pub open spec fn holds(
        &self,
        hold: u64,
        depth: usize,
        wal: u64,
        context: AppendContext,
        after: LockStats,
    ) -> bool {
        &&& LockStats::held_writes(self.writes, hold, depth, wal, context, after.writes)
        &&& after == (LockStats { writes: after.writes, ..*self })
    }

    /// The counters as a new window begins.
    pub open spec fn begins_window(&self, after: LockStats) -> bool {
        &&& forall|i: int|
            0 <= i < SITE_COUNT ==> #[trigger] after.sites@[i] == reset_site(self.sites@[i])
        &&& reset_writes(self.writes, after.writes)
        &&& after == (LockStats { sites: after.sites, writes: after.writes, ..*self })
    }

    /// A sync of the log begins.
    pub fn sync_in_flight(&mut self)
        ensures
            *final(self) == old(self).with_syncs(old(self).syncs_in_flight.wrapping_add(1)),
    {
        self.syncs_in_flight = self.syncs_in_flight.wrapping_add(1);
    }

    /// A sync of the log is over.
    pub fn sync_done(&mut self)
        ensures
            *final(self) == old(self).with_syncs(old(self).syncs_in_flight.wrapping_sub(1)),
    {
        self.syncs_in_flight = self.syncs_in_flight.wrapping_sub(1);
    }

    /// A worker job begins.
    pub fn worker_running(&mut self)
        ensures
            *final(self) == old(self).with_jobs(old(self).worker_jobs_running.wrapping_add(1)),
    {
        self.worker_jobs_running = self.worker_jobs_running.wrapping_add(1);
    }

    /// A worker job is over.
    pub fn worker_done(&mut self)
        ensures
            *final(self) == old(self).with_jobs(old(self).worker_jobs_running.wrapping_sub(1)),
    {
        self.worker_jobs_running = self.worker_jobs_running.wrapping_sub(1);
    }

    /// What is in flight now.
    pub fn append_context(&self) -> (c: AppendContext)
        ensures
            self.is_context(c),
    {
        AppendContext {
            sync_in_flight: self.syncs_in_flight > 0,
            worker_running: self.worker_jobs_running > 0,
        }
    }

    /// Count one acquisition.
    pub fn record(&mut self, site: LockSite, wait: u64, hold: u64)
        ensures
            old(self).records(site, wait, hold, *final(self)),
    {
        let i = site.index();
        let s = self.sites[i];
        self.sites[i] = SiteSnapshot {
            acquisitions: s.acquisitions.wrapping_add(1),
            wait_nanos: s.wait_nanos.wrapping_add(wait),
            hold_nanos: s.hold_nanos.wrapping_add(hold),
            max_hold_nanos: max_of(s.max_hold_nanos, hold),
            peak_hold_nanos: max_of(s.peak_hold_nanos, hold),
            ..s
        };
    }

    /// A hold is about to release: the queue behind it, if any, is timed from
    /// `now`, in place of one that still stood.
    pub fn arm_drain(&mut self, site: LockSite, now: u64)
        ensures
            old(self).arms(site, now, *final(self)),
    {
        let queued: u64 = self.waiting;
        if queued == 0 {
            return;
        }
        let i = site.index();
        let s = self.sites[i];
        self.sites[i] = SiteSnapshot { arms: s.arms.wrapping_add(1), ..s };
        self.armed = ArmedDrain { site, release_nanos: max_of(now, 1), queued, joined: 0 };
    }

    /// Count a write that took the mutex at once.
    pub fn record_write_uncontended(&mut self)
        ensures
            *final(self) == old(self).with_uncontended(),
    {
        self.writes.acquisitions = self.writes.acquisitions.wrapping_add(1);
    }

    /// Count a write about to park, and its arrival at a queue that stands.
    pub fn record_write_parking(&mut self)
        ensures
            *final(self) == old(self).with_parked(),
    {
        let depth: u64 = self.waiting.wrapping_add(1);
        self.waiting = depth;
        self.writes.max_waiting = max_of(self.writes.max_waiting, depth);
        self.writes.peak_waiting = max_of(self.writes.peak_waiting, depth);
        if self.armed.release_nanos != 0 {
            self.armed.joined = self.armed.joined.wrapping_add(1);
        }
    }

    /// The writes with one more that blocked.
    pub open spec fn blocked_writes(w: WriteSnapshot, nanos: u64, after: WriteSnapshot) -> bool {
        &&& after.wait_buckets@ == w.wait_buckets@.update(
            wait_place(nanos as int),
            w.wait_buckets@[wait_place(nanos as int)].wrapping_add(1),
        )
        &&& after == (WriteSnapshot {
            acquisitions: w.acquisitions.wrapping_add(1),
            blocked: w.blocked.wrapping_add(1),
            wait_nanos: w.wait_nanos.wrapping_add(nanos),
            max_wait_nanos: larger(w.max_wait_nanos, nanos),
            peak_wait_nanos: larger(w.peak_wait_nanos, nanos),
            wait_buckets: after.wait_buckets,
            ..w
        })
    }

    /// Count a write that blocked, for `nanos`. The one that leaves the queue
    /// empty ends the drain that was armed.
    pub fn record_write_blocked(&mut self, nanos: u64, now: u64)
        ensures
            old(self).unparks(nanos, now, *final(self)),
    {
        self.writes.acquisitions = self.writes.acquisitions.wrapping_add(1);
        self.writes.blocked = self.writes.blocked.wrapping_add(1);
        self.writes.wait_nanos = self.writes.wait_nanos.wrapping_add(nanos);
        self.writes.max_wait_nanos = max_of(self.writes.max_wait_nanos, nanos);
        self.writes.peak_wait_nanos = max_of(self.writes.peak_wait_nanos, nanos);
        let b = wait_bucket(nanos);
        self.writes.wait_buckets[b] = self.writes.wait_buckets[b].wrapping_add(1);
        let before: u64 = self.waiting;
        self.waiting = before.wrapping_sub(1);
        if before == 1 {
            self.close_drain(now);
        }
    }

    /// The writes with one more hold.
    pub open spec fn held_writes(
        w: WriteSnapshot,
        hold: u64,
        depth: usize,
        wal: u64,
        context: AppendContext,
        after: WriteSnapshot,
    ) -> bool {
        let map: u64 = if hold > wal {
            (hold - wal) as u64
        } else {
            0
        };
        &&& after.by_append@ == w.by_append@.update(
            context.place(),
            charged(w.by_append@[context.place()], wal),
        )
        &&& after.by_depth@ == w.by_depth@.update(
            depth_place(depth as int),
            charged(w.by_depth@[depth_place(depth as int)], hold),
        )
        &&& after == (WriteSnapshot {
            hold_nanos: w.hold_nanos.wrapping_add(hold),
            max_hold_nanos: larger(w.max_hold_nanos, hold),
            wal_nanos: w.wal_nanos.wrapping_add(wal),
            max_wal_nanos: larger(w.max_wal_nanos, wal),
            map_nanos: w.map_nanos.wrapping_add(map),
            max_map_nanos: larger(w.max_map_nanos, map),
            max_depth: larger(w.max_depth, depth as u64),
            peak_depth: larger(w.peak_depth, depth as u64),
            by_append: after.by_append,
            by_depth: after.by_depth,
            ..w
        })
    }

    /// Count what a write held the mutex for: `hold` in all, `wal` of it in
    /// the log's file, under `depth` layers, with `context` in flight.
    pub fn record_write_hold(&mut self, hold: u64, depth: usize, wal: u64, context: AppendContext)
        ensures
            old(self).holds(hold, depth, wal, context, *final(self)),
    {
        let map: u64 = hold.saturating_sub(wal);
        let a = append_bucket(context);
        self.writes.by_append[a] = charge(self.writes.by_append[a], wal);
        self.writes.wal_nanos = self.writes.wal_nanos.wrapping_add(wal);
        self.writes.max_wal_nanos = max_of(self.writes.max_wal_nanos, wal);
        self.writes.map_nanos = self.writes.map_nanos.wrapping_add(map);
        self.writes.max_map_nanos = max_of(self.writes.max_map_nanos, map);
        self.writes.hold_nanos = self.writes.hold_nanos.wrapping_add(hold);
        self.writes.max_hold_nanos = max_of(self.writes.max_hold_nanos, hold);
        let d = depth_bucket(depth);
        self.writes.by_depth[d] = charge(self.writes.by_depth[d], hold);
        let deep: u64 = depth as u64;
        self.writes.max_depth = max_of(self.writes.max_depth, deep);
        self.writes.peak_depth = max_of(self.writes.peak_depth, deep);
    }

    /// The queue is empty: the armed drain, if any, is over.
    fn close_drain(&mut self, now: u64)
        ensures
            ({
                let at = old(self).armed.site.place();
                &&& old(self).armed.release_nanos != 0 ==> final(self).sites@ == old(
                    self,
                ).sites@.update(
                    at,
                    drained(
                        old(self).sites@[at],
                        old(self).armed,
                        drain_tail(old(self).armed.release_nanos, now),
                    ),
                )
                &&& old(self).armed.release_nanos == 0 ==> final(self).sites == old(self).sites
                &&& *final(self) == (LockStats {
                    sites: final(self).sites,
                    armed: ArmedDrain { release_nanos: 0, ..old(self).armed },
                    ..*old(self)
                })
            }),
    {
        let release: u64 = self.armed.release_nanos;
        self.armed.release_nanos = 0;
        if release == 0 {
            return;
        }
        let tail: u64 = max_of(now.saturating_sub(release), 1);
        let i = self.armed.site.index();
        let s = self.sites[i];
        self.sites[i] = SiteSnapshot {
            drains: s.drains.wrapping_add(1),
            drain_queued: s.drain_queued.wrapping_add(self.armed.queued),
            drain_joined: s.drain_joined.wrapping_add(self.armed.joined),
            drain_nanos: s.drain_nanos.wrapping_add(tail),
            max_drain_nanos: max_of(s.max_drain_nanos, tail),
            peak_drain_nanos: max_of(s.peak_drain_nanos, tail),
            ..s
        };
    }

    /// Read the counters and leave them.
    pub fn snapshot(&self) -> (snap: LockStatsSnapshot)
        ensures
            self.reads(snap),
    {
        LockStatsSnapshot { sites: self.sites, writes: self.writes }
    }

    /// Read the counters and begin a new window: its maxima start at zero.
    pub fn take_window(&mut self) -> (snap: LockStatsSnapshot)
        ensures
            old(self).reads(snap),
            old(self).begins_window(*final(self)),
    {
        let snap = LockStatsSnapshot { sites: self.sites, writes: self.writes };
        let mut i: usize = 0;
        while i < SITE_COUNT
            invariant
                i <= SITE_COUNT,
                snap.sites == old(self).sites,
                *self == (LockStats { sites: self.sites, ..*old(self) }),
                forall|j: int|
                    0 <= j < i ==> #[trigger] self.sites@[j] == reset_site(old(self).sites@[j]),
                forall|j: int| i <= j < SITE_COUNT ==> self.sites@[j] == old(self).sites@[j],
            decreases SITE_COUNT - i,
        {
            let s = self.sites[i];
            self.sites[i] = SiteSnapshot { max_hold_nanos: 0, max_drain_nanos: 0, ..s };
            i += 1;
        }
        let w = self.writes;
        let mut by_depth = w.by_depth;
        let mut d: usize = 0;
        while d < DEPTH_BUCKETS
            invariant
                d <= DEPTH_BUCKETS,
                forall|j: int|
                    0 <= j < d ==> #[trigger] by_depth@[j] == reset_hold(w.by_depth@[j]),
                forall|j: int| d <= j < DEPTH_BUCKETS ==> by_depth@[j] == w.by_depth@[j],
            decreases DEPTH_BUCKETS - d,
        {
            let h = by_depth[d];
            by_depth[d] = HoldSnapshot { max_hold_nanos: 0, ..h };
            d += 1;
        }
        let mut by_append = w.by_append;
        let mut a: usize = 0;
        while a < APPEND_BUCKETS
            invariant
                a <= APPEND_BUCKETS,
                forall|j: int|
                    0 <= j < a ==> #[trigger] by_append@[j] == reset_hold(w.by_append@[j]),
                forall|j: int| a <= j < APPEND_BUCKETS ==> by_append@[j] == w.by_append@[j],
            decreases APPEND_BUCKETS - a,
        {
            let h = by_append[a];
            by_append[a] = HoldSnapshot { max_hold_nanos: 0, ..h };
            a += 1;
        }
        self.writes = WriteSnapshot {
            max_wait_nanos: 0,
            max_hold_nanos: 0,
            max_waiting: 0,
            max_depth: 0,
            max_wal_nanos: 0,
            max_map_nanos: 0,
            by_depth,
            by_append,
            ..w
        };
        snap
    }
}

/// A site as a new window begins.
pub open spec fn reset_site(s: SiteSnapshot) -> SiteSnapshot {
    SiteSnapshot { max_hold_nanos: 0, max_drain_nanos: 0, ..s }
}

/// A bucket as a new window begins.
pub open spec fn reset_hold(h: HoldSnapshot) -> HoldSnapshot {
    HoldSnapshot { max_hold_nanos: 0, ..h }
}

/// The writes as a new window begins.
pub open spec fn reset_writes(w: WriteSnapshot, after: WriteSnapshot) -> bool {
    &&& forall|i: int| 0 <= i < 6 ==> #[trigger] after.by_depth@[i] == reset_hold(w.by_depth@[i])
    &&& forall|i: int|
        0 <= i < 4 ==> #[trigger] after.by_append@[i] == reset_hold(w.by_append@[i])
    &&& after == (WriteSnapshot {
        max_wait_nanos: 0,
        max_hold_nanos: 0,
        max_waiting: 0,
        max_depth: 0,
        max_wal_nanos: 0,
        max_map_nanos: 0,
        by_depth: after.by_depth,
        by_append: after.by_append,
        ..w
    })
}

// ---------------------------------------------------------------------------
// Windows
// ---------------------------------------------------------------------------

/// What was counted between an earlier reading and a later one.
pub open spec fn less(later: u64, earlier: u64) -> u64 {
    if later > earlier {
        (later - earlier) as u64
    } else {
        0
    }
}

/// What a site counted since. Counts subtract; the maxima are the later ones.
pub open spec fn site_since(s: SiteSnapshot, e: SiteSnapshot) -> SiteSnapshot {
    SiteSnapshot {
        acquisitions: less(s.acquisitions, e.acquisitions),
        wait_nanos: less(s.wait_nanos, e.wait_nanos),
        hold_nanos: less(s.hold_nanos, e.hold_nanos),
        arms: less(s.arms, e.arms),
        drains: less(s.drains, e.drains),
        drain_queued: less(s.drain_queued, e.drain_queued),
        drain_joined: less(s.drain_joined, e.drain_joined),
        drain_nanos: less(s.drain_nanos, e.drain_nanos),
        ..s
    }
}

/// What a bucket counted since.
pub open spec fn hold_since(s: HoldSnapshot, e: HoldSnapshot) -> HoldSnapshot {
    HoldSnapshot {
        writes: less(s.writes, e.writes),
        hold_nanos: less(s.hold_nanos, e.hold_nanos),
        ..s
    }
}

/// What the writes counted since.
pub open spec fn writes_since(w: WriteSnapshot, e: WriteSnapshot, r: WriteSnapshot) -> bool {
    &&& forall|i: int|
        0 <= i < 6 ==> #[trigger] r.wait_buckets@[i] == less(
            w.wait_buckets@[i],
            e.wait_buckets@[i],
        )
    &&& forall|i: int|
        0 <= i < 6 ==> #[trigger] r.by_depth@[i] == hold_since(w.by_depth@[i], e.by_depth@[i])
    &&& forall|i: int|
        0 <= i < 4 ==> #[trigger] r.by_append@[i] == hold_since(w.by_append@[i], e.by_append@[i])
    &&& r == (WriteSnapshot {
        acquisitions: less(w.acquisitions, e.acquisitions),
        blocked: less(w.blocked, e.blocked),
        wait_nanos: less(w.wait_nanos, e.wait_nanos),
        hold_nanos: less(w.hold_nanos, e.hold_nanos),
        wal_nanos: less(w.wal_nanos, e.wal_nanos),
        map_nanos: less(w.map_nanos, e.map_nanos),
        wait_buckets: r.wait_buckets,
        by_depth: r.by_depth,
        by_append: r.by_append,
        ..w
    })
}

/// The hold of the first `n` sites together.
pub open spec fn holds(sites: Seq<SiteSnapshot>) -> int
    decreases sites.len(),
{
    if sites.len() == 0 {
        0
    } else {
        holds(sites.drop_last()) + sites.last().hold_nanos
    }
}

proof fn lemma_holds_grow(sites: Seq<SiteSnapshot>, n: int)
    requires
        0 <= n <= sites.len(),
    ensures
        0 <= holds(sites.take(n)) <= holds(sites),
    decreases sites.len(),
{
    if n == sites.len() {
        assert(sites.take(n) =~= sites);
        if n > 0 {
            lemma_holds_grow(sites.drop_last(), n - 1);
        }
    } else {
        lemma_holds_grow(sites.drop_last(), n);
        assert(sites.drop_last().take(n) =~= sites.take(n));
    }
}

impl LockStatsSnapshot {
    /// The counters of a site.
    pub fn site(&self, site: LockSite) -> (s: SiteSnapshot)
        ensures
            s == self.sites@[site.place()],
    {
        self.sites[site.index()]
    }

    /// The counters of the guest's writes.
    pub fn writes(&self) -> (w: WriteSnapshot)
        ensures
            w == self.writes,
    {
        self.writes
    }

    /// What was counted between `earlier` and this reading.
    pub fn since(&self, earlier: &LockStatsSnapshot) -> (r: LockStatsSnapshot)
        ensures
            forall|i: int|
                0 <= i < SITE_COUNT ==> #[trigger] r.sites@[i] == site_since(
                    self.sites@[i],
                    earlier.sites@[i],
                ),
            writes_since(self.writes, earlier.writes, r.writes),
    {
        let mut sites = self.sites;
        let mut i: usize = 0;
        while i < SITE_COUNT
            invariant
                i <= SITE_COUNT,
                forall|j: int|
                    0 <= j < i ==> #[trigger] sites@[j] == site_since(
                        self.sites@[j],
                        earlier.sites@[j],
                    ),
                forall|j: int| i <= j < SITE_COUNT ==> sites@[j] == self.sites@[j],
            decreases SITE_COUNT - i,
        {
            let s = self.sites[i];
            let e = earlier.sites[i];
            sites[i] = SiteSnapshot {
                acquisitions: s.acquisitions.saturating_sub(e.acquisitions),
                wait_nanos: s.wait_nanos.saturating_sub(e.wait_nanos),
                hold_nanos: s.hold_nanos.saturating_sub(e.hold_nanos),
                arms: s.arms.saturating_sub(e.arms),
                drains: s.drains.saturating_sub(e.drains),
                drain_queued: s.drain_queued.saturating_sub(e.drain_queued),
                drain_joined: s.drain_joined.saturating_sub(e.drain_joined),
                drain_nanos: s.drain_nanos.saturating_sub(e.drain_nanos),
                ..s
            };
            i += 1;
        }
        let w = self.writes;
        let b = earlier.writes;
        let mut wait_buckets = w.wait_buckets;
        let mut by_depth = w.by_depth;
        let mut k: usize = 0;
        while k < 6
            invariant
                k <= 6,
                forall|j: int|
                    0 <= j < k ==> #[trigger] wait_buckets@[j] == less(
                        w.wait_buckets@[j],
                        b.wait_buckets@[j],
                    ),
                forall|j: int|
                    0 <= j < k ==> #[trigger] by_depth@[j] == hold_since(
                        w.by_depth@[j],
                        b.by_depth@[j],
                    ),
            decreases 6 - k,
        {
            wait_buckets[k] = w.wait_buckets[k].saturating_sub(b.wait_buckets[k]);
            let (s, e) = (w.by_depth[k], b.by_depth[k]);
            by_depth[k] = HoldSnapshot {
                writes: s.writes.saturating_sub(e.writes),
                hold_nanos: s.hold_nanos.saturating_sub(e.hold_nanos),
                ..s
            };
            k += 1;
        }
        let mut by_append = w.by_append;
        let mut a: usize = 0;
        while a < 4
            invariant
                a <= 4,
                forall|j: int|
                    0 <= j < a ==> #[trigger] by_append@[j] == hold_since(
                        w.by_append@[j],
                        b.by_append@[j],
                    ),
            decreases 4 - a,
        {
            let (s, e) = (w.by_append[a], b.by_append[a]);
            by_append[a] = HoldSnapshot {
                writes: s.writes.saturating_sub(e.writes),
                hold_nanos: s.hold_nanos.saturating_sub(e.hold_nanos),
                ..s
            };
            a += 1;
        }
        LockStatsSnapshot {
            sites,
            writes: WriteSnapshot {
                acquisitions: w.acquisitions.saturating_sub(b.acquisitions),
                blocked: w.blocked.saturating_sub(b.blocked),
                wait_nanos: w.wait_nanos.saturating_sub(b.wait_nanos),
                hold_nanos: w.hold_nanos.saturating_sub(b.hold_nanos),
                wal_nanos: w.wal_nanos.saturating_sub(b.wal_nanos),
                map_nanos: w.map_nanos.saturating_sub(b.map_nanos),
                wait_buckets,
                by_depth,
                by_append,
                ..w
            },
        }
    }

    /// `at` is the last of the sites with the longest hold.
    pub open spec fn peaks_at(&self, at: int) -> bool {
        &&& 0 <= at < SITE_COUNT
        &&& self.sites@[at].peak_hold_nanos > 0
        &&& forall|j: int|
            0 <= j < SITE_COUNT ==> (#[trigger] self.sites@[j]).peak_hold_nanos
                <= self.sites@[at].peak_hold_nanos
        &&& forall|j: int|
            at < j < SITE_COUNT ==> (#[trigger] self.sites@[j]).peak_hold_nanos
                < self.sites@[at].peak_hold_nanos
    }

    /// The site with the longest hold since the volume opened, and its length.
    pub fn peak(&self) -> (p: Option<(LockSite, u64)>)
        ensures
            p is None <==> forall|j: int|
                0 <= j < SITE_COUNT ==> (#[trigger] self.sites@[j]).peak_hold_nanos == 0,
            p matches Some((site, nanos)) ==> self.peaks_at(site.place()) && nanos
                == self.sites@[site.place()].peak_hold_nanos,
    {
        let all = LockSite::all();
        let mut best: usize = 0;
        let mut i: usize = 0;
        while i < SITE_COUNT
            invariant
                i <= SITE_COUNT,
                best < SITE_COUNT,
                i == 0 ==> best == 0,
                i > 0 ==> best < i,
                forall|j: int|
                    0 <= j < i ==> (#[trigger] self.sites@[j]).peak_hold_nanos
                        <= self.sites@[best as int].peak_hold_nanos,
                forall|j: int|
                    best < j < i ==> (#[trigger] self.sites@[j]).peak_hold_nanos
                        < self.sites@[best as int].peak_hold_nanos,
            decreases SITE_COUNT - i,
        {
            if self.sites[i].peak_hold_nanos >= self.sites[best].peak_hold_nanos {
                best = i;
            }
            i += 1;
        }
        let nanos: u64 = self.sites[best].peak_hold_nanos;
        if nanos == 0 {
            return None;
        }
        assert(all@[best as int].place() == best);
        Some((all[best], nanos))
    }

    /// The hold of every site together.
    pub fn total_hold(&self) -> (nanos: u64)
        requires
            holds(self.sites@) <= u64::MAX,
        ensures
            nanos == holds(self.sites@),
    {
        let mut total: u64 = 0;
        let mut i: usize = 0;
        while i < SITE_COUNT
            invariant
                i <= SITE_COUNT,
                self.sites@.len() == SITE_COUNT,
                holds(self.sites@) <= u64::MAX,
                total == holds(self.sites@.take(i as int)),
            decreases SITE_COUNT - i,
        {
            proof {
                lemma_holds_grow(self.sites@, i as int + 1);
                assert(self.sites@.take(i as int + 1).drop_last() =~= self.sites@.take(i as int));
            }
            total = total + self.sites[i].hold_nanos;
            i += 1;
        }
        assert(self.sites@.take(SITE_COUNT as int) =~= self.sites@);
        total
    }

    /// Whether the window is worth a line: the mutex was held for longer than
    /// `floor`, or a guest write blocked on it, however shortly.
    pub fn worth_reporting(&self, floor: u64) -> (b: bool)
        requires
            holds(self.sites@) <= u64::MAX,
        ensures
            b == (holds(self.sites@) > floor || self.writes.blocked > 0),
    {
        self.total_hold() > floor || self.writes.blocked > 0
    }
}

// ---------------------------------------------------------------------------
// Reports
// ---------------------------------------------------------------------------

/// A piece of a report: words, the name of a site, a count, or a time that is
/// written in milliseconds.
#[derive(Clone, Copy, Debug)]
pub enum ReportPiece {
    Words(&'static str),
    Site(LockSite),
    Count(u64),
    Millis(u64),
}

/// The name of a bucket of waits.
pub open spec fn wait_name(i: int) -> &'static str {
    if i == 0 {
        "<1ms"
    } else if i == 1 {
        "<10ms"
    } else if i == 2 {
        "<100ms"
    } else if i == 3 {
        "<1000ms"
    } else if i == 4 {
        "<10000ms"
    } else {
        ">=10000ms"
    }
}

/// The name of a bucket of depths.
pub open spec fn depth_name(i: int) -> &'static str {
    if i == 0 {
        "d0"
    } else if i == 1 {
        "d1"
    } else if i == 2 {
        "d2"
    } else if i == 3 {
        "d3"
    } else if i == 4 {
        "d4"
    } else {
        "d5+"
    }
}

/// The name of a bucket of appends.
pub open spec fn append_name(i: int) -> &'static str {
    if i == 0 {
        "idle"
    } else if i == 1 {
        "sync"
    } else if i == 2 {
        "worker"
    } else {
        "both"
    }
}

fn wait_bucket_label(i: usize) -> (s: &'static str)
    ensures
        s == wait_name(i as int),
{
    if i == 0 {
        "<1ms"
    } else if i == 1 {
        "<10ms"
    } else if i == 2 {
        "<100ms"
    } else if i == 3 {
        "<1000ms"
    } else if i == 4 {
        "<10000ms"
    } else {
        ">=10000ms"
    }
}

fn depth_bucket_label(i: usize) -> (s: &'static str)
    ensures
        s == depth_name(i as int),
{
    if i == 0 {
        "d0"
    } else if i == 1 {
        "d1"
    } else if i == 2 {
        "d2"
    } else if i == 3 {
        "d3"
    } else if i == 4 {
        "d4"
    } else {
        "d5+"
    }
}

fn append_bucket_label(i: usize) -> (s: &'static str)
    ensures
        s == append_name(i as int),
{
    if i == 0 {
        "idle"
    } else if i == 1 {
        "sync"
    } else if i == 2 {
        "worker"
    } else {
        "both"
    }
}

/// The places of the sites that acquired, in order.
pub open spec fn active_sites(sites: Seq<SiteSnapshot>) -> Seq<int>
    decreases sites.len(),
{
    if sites.len() == 0 {
        Seq::empty()
    } else if sites.last().acquisitions > 0 {
        active_sites(sites.drop_last()).push(sites.len() - 1)
    } else {
        active_sites(sites.drop_last())
    }
}

/// By what the active sites rank: the longer the hold, the smaller.
pub open spec fn rank_keys(sites: Seq<SiteSnapshot>, active: Seq<int>) -> Seq<u128> {
    active.map_values(|i: int| (u64::MAX - sites[i].hold_nanos) as u128)
}

/// What a report says of a site.
pub open spec fn site_pieces(site: LockSite, s: SiteSnapshot) -> Seq<ReportPiece> {
    seq![
        ReportPiece::Words("; "),
        ReportPiece::Site(site),
        ReportPiece::Words(" n="),
        ReportPiece::Count(s.acquisitions),
        ReportPiece::Words(" hold="),
        ReportPiece::Millis(s.hold_nanos),
        ReportPiece::Words(" max="),
        ReportPiece::Millis(s.max_hold_nanos),
        ReportPiece::Words(" wait="),
        ReportPiece::Millis(s.wait_nanos),
    ] + (if s.arms > 0 {
        seq![
            ReportPiece::Words(" arms="),
            ReportPiece::Count(s.arms),
            ReportPiece::Words(" drains="),
            ReportPiece::Count(s.drains),
            ReportPiece::Words(" queued="),
            ReportPiece::Count(s.drain_queued),
            ReportPiece::Words(" joined="),
            ReportPiece::Count(s.drain_joined),
            ReportPiece::Words(" drained="),
            ReportPiece::Millis(s.drain_nanos),
            ReportPiece::Words(" max="),
            ReportPiece::Millis(s.max_drain_nanos),
        ]
    } else {
        Seq::empty()
    })
}

/// What a report says of the sites at these places, in turn.
pub open spec fn sites_pieces(
    all: Seq<LockSite>,
    sites: Seq<SiteSnapshot>,
    places: Seq<int>,
) -> Seq<ReportPiece>
    decreases places.len(),
{
    if places.len() == 0 {
        Seq::empty()
    } else {
        sites_pieces(all, sites, places.drop_last()) + site_pieces(
            all[places.last()],
            sites[places.last()],
        )
    }
}

/// The spread of the waits over the first `n` buckets: those that are not
/// empty, with a space between.
pub open spec fn spread_pieces(buckets: Seq<u64>, n: int) -> Seq<ReportPiece>
    decreases n,
{
    if n <= 0 {
        Seq::empty()
    } else {
        let before = spread_pieces(buckets, n - 1);
        if buckets[n - 1] == 0 {
            before
        } else {
            (if before.len() > 0 {
                before.push(ReportPiece::Words(" "))
            } else {
                before
            }) + seq![
                ReportPiece::Words(wait_name(n - 1)),
                ReportPiece::Words("="),
                ReportPiece::Count(buckets[n - 1]),
            ]
        }
    }
}

/// What a report says of one bucket of holds.
pub open spec fn hold_pieces(name: &'static str, h: HoldSnapshot) -> Seq<ReportPiece> {
    if h.writes > 0 {
        seq![
            ReportPiece::Words(" "),
            ReportPiece::Words(name),
            ReportPiece::Words(" n="),
            ReportPiece::Count(h.writes),
            ReportPiece::Words(" held="),
            ReportPiece::Millis(h.hold_nanos),
            ReportPiece::Words(" maxheld="),
            ReportPiece::Millis(h.max_hold_nanos),
        ]
    } else {
        Seq::empty()
    }
}

/// What a report says of the first `n` buckets of depths.
pub open spec fn depth_pieces(holds: Seq<HoldSnapshot>, n: int) -> Seq<ReportPiece>
    decreases n,
{
    if n <= 0 {
        Seq::empty()
    } else {
        depth_pieces(holds, n - 1) + hold_pieces(depth_name(n - 1), holds[n - 1])
    }
}

/// What a report says of the first `n` buckets of appends.
pub open spec fn append_pieces(holds: Seq<HoldSnapshot>, n: int) -> Seq<ReportPiece>
    decreases n,
{
    if n <= 0 {
        Seq::empty()
    } else {
        append_pieces(holds, n - 1) + hold_pieces(append_name(n - 1), holds[n - 1])
    }
}

/// What a report says of the writes.
pub open spec fn writes_pieces(w: WriteSnapshot) -> Seq<ReportPiece> {
    let spread = spread_pieces(w.wait_buckets@, 6);
    seq![
        ReportPiece::Words("; writes n="),
        ReportPiece::Count(w.acquisitions),
        ReportPiece::Words(" blocked="),
        ReportPiece::Count(w.blocked),
        ReportPiece::Words(" wait="),
        ReportPiece::Millis(w.wait_nanos),
        ReportPiece::Words(" max="),
        ReportPiece::Millis(w.max_wait_nanos),
        ReportPiece::Words(" peak="),
        ReportPiece::Millis(w.peak_wait_nanos),
        ReportPiece::Words(" held="),
        ReportPiece::Millis(w.hold_nanos),
        ReportPiece::Words(" maxheld="),
        ReportPiece::Millis(w.max_hold_nanos),
        ReportPiece::Words(" maxq="),
        ReportPiece::Count(w.max_waiting),
        ReportPiece::Words(" peakq="),
        ReportPiece::Count(w.peak_waiting),
    ] + (if spread.len() > 0 {
        (seq![ReportPiece::Words(" [")] + spread).push(ReportPiece::Words("]"))
    } else {
        Seq::empty()
    }) + seq![
        ReportPiece::Words("; depth max="),
        ReportPiece::Count(w.max_depth),
        ReportPiece::Words(" peak="),
        ReportPiece::Count(w.peak_depth),
    ] + depth_pieces(w.by_depth@, 6) + seq![
        ReportPiece::Words("; wal held="),
        ReportPiece::Millis(w.wal_nanos),
        ReportPiece::Words(" maxheld="),
        ReportPiece::Millis(w.max_wal_nanos),
        ReportPiece::Words(" map held="),
        ReportPiece::Millis(w.map_nanos),
        ReportPiece::Words(" maxheld="),
        ReportPiece::Millis(w.max_map_nanos),
        ReportPiece::Words("; append"),
    ] + append_pieces(w.by_append@, 4)
}

/// What a report says of the longest hold.
pub open spec fn peak_pieces(p: Option<(LockSite, u64)>) -> Seq<ReportPiece> {
    match p {
        Some((site, nanos)) => seq![
            ReportPiece::Words("; peak "),
            ReportPiece::Site(site),
            ReportPiece::Words(" "),
            ReportPiece::Millis(nanos),
        ],
        None => Seq::empty(),
    }
}

/// `p` is the site with the longest hold, and its length.
pub open spec fn is_peak(snap: LockStatsSnapshot, p: Option<(LockSite, u64)>) -> bool {
    match p {
        Some((site, nanos)) => snap.peaks_at(site.place()) && nanos
            == snap.sites@[site.place()].peak_hold_nanos,
        None => forall|j: int|
            0 <= j < SITE_COUNT ==> (#[trigger] snap.sites@[j]).peak_hold_nanos == 0,
    }
}

/// The places of the active sites, by hold descending; those that held alike
/// keep their order.
pub open spec fn ranked_sites(sites: Seq<SiteSnapshot>) -> Seq<int> {
    let active = active_sites(sites);
    stable_order_of(rank_keys(sites, active)).map_values(|k: int| active[k])
}

/// A report: the whole hold, each active site by rank, the longest hold of
/// all, and the writes.
pub open spec fn report_pieces(
    all: Seq<LockSite>,
    snap: LockStatsSnapshot,
    p: Option<(LockSite, u64)>,
) -> Seq<ReportPiece> {
    seq![
        ReportPiece::Words("held "),
        ReportPiece::Millis(holds(snap.sites@) as u64),
        ReportPiece::Words(" total"),
    ] + sites_pieces(all, snap.sites@, ranked_sites(snap.sites@)) + peak_pieces(p) + (
    if snap.writes.acquisitions > 0 {
        writes_pieces(snap.writes)
    } else {
        Seq::empty()
    })
}

/// Every site at its place.
pub open spec fn is_all_sites(all: Seq<LockSite>) -> bool {
    all.len() == SITE_COUNT && forall|i: int|
        0 <= i < SITE_COUNT ==> (#[trigger] all[i]).place() == i
}

fn push_pieces(out: &mut Vec<ReportPiece>, more: &[ReportPiece])
    ensures
        final(out)@ == old(out)@ + more@,
{
    let mut i: usize = 0;
    assert(old(out)@ + more@.take(0) =~= old(out)@);
    while i < more.len()
        invariant
            i <= more@.len(),
            out@ == old(out)@ + more@.take(i as int),
        decreases more.len() - i,
    {
        out.push(more[i]);
        assert(old(out)@ + more@.take(i as int + 1) =~= (old(out)@ + more@.take(i as int)).push(
            more@[i as int],
        ));
        i += 1;
    }
    assert(more@.take(more@.len() as int) =~= more@);
}

fn push_site(out: &mut Vec<ReportPiece>, site: LockSite, s: SiteSnapshot)
    ensures
        final(out)@ == old(out)@ + site_pieces(site, s),
{
    let line = [
        ReportPiece::Words("; "),
        ReportPiece::Site(site),
        ReportPiece::Words(" n="),
        ReportPiece::Count(s.acquisitions),
        ReportPiece::Words(" hold="),
        ReportPiece::Millis(s.hold_nanos),
        ReportPiece::Words(" max="),
        ReportPiece::Millis(s.max_hold_nanos),
        ReportPiece::Words(" wait="),
        ReportPiece::Millis(s.wait_nanos),
    ];
    push_pieces(out, line.as_slice());
    if s.arms > 0 {
        let drain = [
            ReportPiece::Words(" arms="),
            ReportPiece::Count(s.arms),
            ReportPiece::Words(" drains="),
            ReportPiece::Count(s.drains),
            ReportPiece::Words(" queued="),
            ReportPiece::Count(s.drain_queued),
            ReportPiece::Words(" joined="),
            ReportPiece::Count(s.drain_joined),
            ReportPiece::Words(" drained="),
            ReportPiece::Millis(s.drain_nanos),
            ReportPiece::Words(" max="),
            ReportPiece::Millis(s.max_drain_nanos),
        ];
        push_pieces(out, drain.as_slice());
    }
    assert(out@ =~= old(out)@ + site_pieces(site, s));
}

fn push_hold(out: &mut Vec<ReportPiece>, name: &'static str, h: HoldSnapshot)
    ensures
        final(out)@ == old(out)@ + hold_pieces(name, h),
{
    if h.writes > 0 {
        let line = [
            ReportPiece::Words(" "),
            ReportPiece::Words(name),
            ReportPiece::Words(" n="),
            ReportPiece::Count(h.writes),
            ReportPiece::Words(" held="),
            ReportPiece::Millis(h.hold_nanos),
            ReportPiece::Words(" maxheld="),
            ReportPiece::Millis(h.max_hold_nanos),
        ];
        push_pieces(out, line.as_slice());
    }
    assert(out@ =~= old(out)@ + hold_pieces(name, h));
}

/// The spread of the waits.
fn spread_of(w: &WriteSnapshot) -> (spread: Vec<ReportPiece>)
    ensures
        spread@ == spread_pieces(w.wait_buckets@, 6),
{
    let mut spread: Vec<ReportPiece> = Vec::new();
    let mut i: usize = 0;
    while i < WAIT_BUCKETS
        invariant
            i <= WAIT_BUCKETS,
            spread@ == spread_pieces(w.wait_buckets@, i as int),
        decreases WAIT_BUCKETS - i,
    {
        let ghost before = spread@;
        let n: u64 = w.wait_buckets[i];
        if n > 0 {
            if spread.len() > 0 {
                spread.push(ReportPiece::Words(" "));
            }
            spread.push(ReportPiece::Words(wait_bucket_label(i)));
            spread.push(ReportPiece::Words("="));
            spread.push(ReportPiece::Count(n));
            assert(spread@ =~= spread_pieces(w.wait_buckets@, i as int + 1));
        }
        i += 1;
    }
    spread
}

fn push_writes(out: &mut Vec<ReportPiece>, w: &WriteSnapshot)
    ensures
        final(out)@ == old(out)@ + writes_pieces(*w),
{
    let ghost start = out@;
    let head = [
        ReportPiece::Words("; writes n="),
        ReportPiece::Count(w.acquisitions),
        ReportPiece::Words(" blocked="),
        ReportPiece::Count(w.blocked),
        ReportPiece::Words(" wait="),
        ReportPiece::Millis(w.wait_nanos),
        ReportPiece::Words(" max="),
        ReportPiece::Millis(w.max_wait_nanos),
        ReportPiece::Words(" peak="),
        ReportPiece::Millis(w.peak_wait_nanos),
        ReportPiece::Words(" held="),
        ReportPiece::Millis(w.hold_nanos),
        ReportPiece::Words(" maxheld="),
        ReportPiece::Millis(w.max_hold_nanos),
        ReportPiece::Words(" maxq="),
        ReportPiece::Count(w.max_waiting),
        ReportPiece::Words(" peakq="),
        ReportPiece::Count(w.peak_waiting),
    ];
    push_pieces(out, head.as_slice());
    let spread = spread_of(w);
    let ghost before = out@;
    if spread.len() > 0 {
        out.push(ReportPiece::Words(" ["));
        push_pieces(out, spread.as_slice());
        out.push(ReportPiece::Words("]"));
        assert(out@ =~= before + (seq![ReportPiece::Words(" [")] + spread@).push(
            ReportPiece::Words("]"),
        ));
    } else {
        assert(out@ =~= before + Seq::<ReportPiece>::empty());
    }
    let depth = [
        ReportPiece::Words("; depth max="),
        ReportPiece::Count(w.max_depth),
        ReportPiece::Words(" peak="),
        ReportPiece::Count(w.peak_depth),
    ];
    push_pieces(out, depth.as_slice());
    let ghost before = out@;
    let mut i: usize = 0;
    assert(before + depth_pieces(w.by_depth@, 0) =~= before);
    while i < DEPTH_BUCKETS
        invariant
            i <= DEPTH_BUCKETS,
            out@ == before + depth_pieces(w.by_depth@, i as int),
        decreases DEPTH_BUCKETS - i,
    {
        push_hold(out, depth_bucket_label(i), w.by_depth[i]);
        assert(out@ =~= before + depth_pieces(w.by_depth@, i as int + 1));
        i += 1;
    }
    let split = [
        ReportPiece::Words("; wal held="),
        ReportPiece::Millis(w.wal_nanos),
        ReportPiece::Words(" maxheld="),
        ReportPiece::Millis(w.max_wal_nanos),
        ReportPiece::Words(" map held="),
        ReportPiece::Millis(w.map_nanos),
        ReportPiece::Words(" maxheld="),
        ReportPiece::Millis(w.max_map_nanos),
        ReportPiece::Words("; append"),
    ];
    push_pieces(out, split.as_slice());
    let ghost before = out@;
    let mut a: usize = 0;
    assert(before + append_pieces(w.by_append@, 0) =~= before);
    while a < APPEND_BUCKETS
        invariant
            a <= APPEND_BUCKETS,
            out@ == before + append_pieces(w.by_append@, a as int),
        decreases APPEND_BUCKETS - a,
    {
        push_hold(out, append_bucket_label(a), w.by_append[a]);
        assert(out@ =~= before + append_pieces(w.by_append@, a as int + 1));
        a += 1;
    }
    assert(out@ =~= start + writes_pieces(*w));
}

impl LockStatsSnapshot {
    /// A line naming every site that acquired, the longest hold first, then
    /// the longest hold the volume has seen and what the writes waited.
    /// Nothing where nothing acquired.
    pub fn report(&self) -> (r: Option<Vec<ReportPiece>>)
        requires
            holds(self.sites@) <= u64::MAX,
        ensures
            r is None <==> active_sites(self.sites@).len() == 0 && self.writes.acquisitions == 0,
            r matches Some(pieces) ==> exists|all: Seq<LockSite>, p: Option<(LockSite, u64)>|
                is_all_sites(all) && is_peak(*self, p) && pieces@ == #[trigger] report_pieces(
                    all,
                    *self,
                    p,
                ),
    {
        let all = LockSite::all();
        let mut active: Vec<usize> = Vec::new();
        let mut keys: Vec<u128> = Vec::new();
        let mut i: usize = 0;
        while i < SITE_COUNT
            invariant
                i <= SITE_COUNT,
                self.sites@.len() == SITE_COUNT,
                active@.map_values(|i: usize| i as int) == active_sites(
                    self.sites@.take(i as int),
                ),
                keys@.len() == active@.len(),
                forall|j: int|
                    0 <= j < active@.len() ==> #[trigger] active@[j] < i && keys@[j] == (u64::MAX
                        - self.sites@[active@[j] as int].hold_nanos) as u128,
            decreases SITE_COUNT - i,
        {
            let ghost before = active@;
            proof {
                let here = self.sites@.take(i as int + 1);
                assert(here.drop_last() =~= self.sites@.take(i as int));
            }
            if self.sites[i].acquisitions > 0 {
                active.push(i);
                keys.push((u64::MAX - self.sites[i].hold_nanos) as u128);
                assert(active@.map_values(|i: usize| i as int) =~= before.map_values(
                    |i: usize| i as int,
                ).push(i as int));
            }
            i += 1;
        }
        let ghost places = active@.map_values(|i: usize| i as int);
        proof {
            assert(self.sites@.take(SITE_COUNT as int) =~= self.sites@);
            assert(places == active_sites(self.sites@));
            assert(keys@ =~= rank_keys(self.sites@, places));
        }
        if active.len() == 0 && self.writes.acquisitions == 0 {
            return None;
        }
        let order = stable_order(&keys);
        let ghost ints = order@.map_values(|i: usize| i as int);
        let ghost ranked = ranked_sites(self.sites@);
        let mut out: Vec<ReportPiece> = Vec::new();
        out.push(ReportPiece::Words("held "));
        out.push(ReportPiece::Millis(self.total_hold()));
        out.push(ReportPiece::Words(" total"));
        let ghost head = out@;
        let mut k: usize = 0;
        proof {
            assert(ranked =~= ints.map_values(|k: int| places[k]));
            assert(ranked.take(0) =~= Seq::<int>::empty());
            assert(head + sites_pieces(all@, self.sites@, ranked.take(0)) =~= head);
        }
        while k < order.len()
            invariant
                k <= order@.len(),
                ints == order@.map_values(|i: usize| i as int),
                is_stable_order(keys@, ints),
                keys@.len() == active@.len(),
                places == active@.map_values(|i: usize| i as int),
                ranked == ints.map_values(|k: int| places[k]),
                forall|j: int| 0 <= j < active@.len() ==> #[trigger] active@[j] < SITE_COUNT,
                out@ == head + sites_pieces(all@, self.sites@, ranked.take(k as int)),
            decreases order.len() - k,
        {
            assert(ints[k as int] == order@[k as int]);
            let at: usize = active[order[k]];
            proof {
                assert(places[ints[k as int]] == at);
                assert(ranked[k as int] == at);
                let here = ranked.take(k as int + 1);
                assert(here.drop_last() =~= ranked.take(k as int));
            }
            push_site(&mut out, all[at], self.sites[at]);
            assert(out@ =~= head + sites_pieces(all@, self.sites@, ranked.take(k as int + 1)));
            k += 1;
        }
        assert(ranked.take(order@.len() as int) =~= ranked);
        let p = self.peak();
        let ghost before = out@;
        if let Some((site, nanos)) = p {
            out.push(ReportPiece::Words("; peak "));
            out.push(ReportPiece::Site(site));
            out.push(ReportPiece::Words(" "));
            out.push(ReportPiece::Millis(nanos));
        }
        assert(out@ =~= before + peak_pieces(p));
        let ghost before = out@;
        if self.writes.acquisitions > 0 {
            push_writes(&mut out, &self.writes);
        } else {
            assert(out@ =~= before + Seq::<ReportPiece>::empty());
        }
        proof {
            assert(is_all_sites(all@));
            assert(is_peak(*self, p));
            assert(out@ =~= report_pieces(all@, *self, p));
        }
        Some(out)
    }
}

// ---------------------------------------------------------------------------
// Laws
// ---------------------------------------------------------------------------

/// A window's maximum is that of the window: a hold counted after a window
/// begins is in the window's maximum, and one counted before is not.
pub proof fn law_a_window_maximum_covers_only_that_window(
    before: SiteSnapshot,
    wait: u64,
    hold: u64,
)
    ensures
        recorded(reset_site(before), wait, hold).max_hold_nanos == hold,
        recorded(reset_site(before), wait, hold).peak_hold_nanos == larger(
            before.peak_hold_nanos,
            hold,
        ),
        site_since(recorded(reset_site(before), wait, hold), before).max_hold_nanos == hold,
{
}

/// A peak only grows, and a new window leaves it alone.
pub proof fn law_a_peak_outlives_its_window(before: SiteSnapshot, wait: u64, hold: u64)
    ensures
        reset_site(before).peak_hold_nanos == before.peak_hold_nanos,
        recorded(before, wait, hold).peak_hold_nanos >= before.peak_hold_nanos,
        recorded(before, wait, hold).peak_hold_nanos >= hold,
{
}

/// What one reading counts since another and what that counts since a third
/// add up, where the counters have not wrapped between.
pub proof fn law_windows_add_up(first: SiteSnapshot, second: SiteSnapshot, third: SiteSnapshot)
    requires
        first.hold_nanos <= second.hold_nanos <= third.hold_nanos,
        first.acquisitions <= second.acquisitions <= third.acquisitions,
    ensures
        site_since(third, first).hold_nanos == site_since(third, second).hold_nanos + site_since(
            second,
            first,
        ).hold_nanos,
        site_since(third, first).acquisitions == site_since(third, second).acquisitions
            + site_since(second, first).acquisitions,
{
}

/// Every wait falls in one bucket, and a longer wait in no lower one.
pub proof fn law_waits_fall_in_one_bucket(shorter: u64, longer: u64)
    requires
        shorter <= longer,
    ensures
        0 <= wait_place(shorter as int) <= wait_place(longer as int) < WAIT_BUCKETS,
{
}

/// The edges of the buckets: a wait falls below one, ten, a hundred, a thousand
/// or ten thousand milliseconds or past them all, and a depth has a bucket of
/// its own up to four.
pub proof fn law_the_edges_of_the_buckets(nanos: u64, depth: usize)
    ensures
        wait_place(nanos as int) == 0 <==> nanos < 1_000_000,
        wait_place(nanos as int) == 1 <==> 1_000_000 <= nanos < 10_000_000,
        wait_place(nanos as int) == 2 <==> 10_000_000 <= nanos < 100_000_000,
        wait_place(nanos as int) == 3 <==> 100_000_000 <= nanos < 1_000_000_000,
        wait_place(nanos as int) == 4 <==> 1_000_000_000 <= nanos < 10_000_000_000,
        wait_place(nanos as int) == 5 <==> 10_000_000_000 <= nanos,
        depth <= 4 ==> depth_place(depth as int) == depth,
        depth > 4 ==> depth_place(depth as int) == 5,
{
}

/// Each thing that may be in flight changes the bucket of an append, and
/// together they have one of their own.
pub proof fn law_what_is_in_flight_tells_the_bucket(a: AppendContext, b: AppendContext)
    ensures
        0 <= a.place() < 4,
        a.place() == b.place() ==> a == b,
        a.place() == 0 <==> !a.sync_in_flight && !a.worker_running,
        a.place() == 1 <==> a.sync_in_flight && !a.worker_running,
        a.place() == 2 <==> !a.sync_in_flight && a.worker_running,
{
}

/// An acquisition is counted at its own site, with what it waited and held, and
/// nowhere else.
pub proof fn law_an_acquisition_is_counted_at_its_site(
    before: LockStats,
    site: LockSite,
    wait: u64,
    hold: u64,
    after: LockStats,
)
    requires
        before.records(site, wait, hold, after),
        before.sites@[site.place()].acquisitions < u64::MAX,
        before.sites@[site.place()].wait_nanos + wait <= u64::MAX,
        before.sites@[site.place()].hold_nanos + hold <= u64::MAX,
    ensures
        ({
            let (was, now) = (before.sites@[site.place()], after.sites@[site.place()]);
            &&& now.acquisitions == was.acquisitions + 1
            &&& now.wait_nanos == was.wait_nanos + wait
            &&& now.hold_nanos == was.hold_nanos + hold
            &&& now.max_hold_nanos >= hold && now.max_hold_nanos >= was.max_hold_nanos
            &&& now.max_hold_nanos == hold || now.max_hold_nanos == was.max_hold_nanos
            &&& now.peak_hold_nanos >= hold && now.peak_hold_nanos >= was.peak_hold_nanos
            &&& now.peak_hold_nanos == hold || now.peak_hold_nanos == was.peak_hold_nanos
            &&& now.arms == was.arms && now.drains == was.drains && now.drain_nanos
                == was.drain_nanos && now.drain_queued == was.drain_queued && now.drain_joined
                == was.drain_joined
        }),
        forall|i: int|
            0 <= i < 23 && i != site.place() ==> #[trigger] after.sites@[i] == before.sites@[i],
        after.writes == before.writes && after.waiting == before.waiting && after.armed
            == before.armed && after.syncs_in_flight == before.syncs_in_flight
            && after.worker_jobs_running == before.worker_jobs_running,
{
    assert(0 <= site.place() < 23);
}

/// A hold that releases into a standing queue is timed from then on, with the
/// writes that stand in it; a write that parks meanwhile has joined; and the
/// write that leaves the queue empty charges all of it to that hold's site.
pub proof fn law_a_drain_is_charged_to_its_hold(
    before: LockStats,
    site: LockSite,
    now: u64,
    after: LockStats,
)
    requires
        before.waiting > 0,
        now > 0,
        before.sites@[site.place()].arms < u64::MAX,
        before.arms(site, now, after),
    ensures
        after.armed == (ArmedDrain {
            site,
            release_nanos: now,
            queued: before.waiting,
            joined: 0,
        }),
        after.sites@[site.place()].arms == before.sites@[site.place()].arms + 1,
        after.sites@[site.place()].drains == before.sites@[site.place()].drains,
        after.waiting == before.waiting,
        forall|i: int|
            0 <= i < 23 && i != site.place() ==> #[trigger] after.sites@[i] == before.sites@[i],
        after.writes == before.writes,
{
    assert(0 <= site.place() < 23);
}

/// A write that parks is in the queue, and joins the drain that is under way.
pub proof fn law_a_parked_write_joins_the_queue(before: LockStats)
    requires
        before.waiting < u64::MAX,
        before.armed.joined < u64::MAX,
    ensures
        ({
            let after = before.with_parked();
            &&& after.waiting == before.waiting + 1
            &&& after.writes.max_waiting >= after.waiting && after.writes.max_waiting
                >= before.writes.max_waiting
            &&& after.writes.max_waiting == after.waiting || after.writes.max_waiting
                == before.writes.max_waiting
            &&& after.writes.peak_waiting >= after.waiting && after.writes.peak_waiting
                >= before.writes.peak_waiting
            &&& after.armed.joined == before.armed.joined + (if before.armed.release_nanos > 0 {
                1int
            } else {
                0
            })
            &&& after.armed.queued == before.armed.queued && after.armed.site == before.armed.site
                && after.armed.release_nanos == before.armed.release_nanos
            &&& after.sites == before.sites
            &&& after.writes.acquisitions == before.writes.acquisitions && after.writes.blocked
                == before.writes.blocked
        }),
{
}

/// The write that leaves the queue empty ends the drain: its time runs from the
/// release, and at least one tick counts. Any other charges no site.
pub proof fn law_the_last_to_leave_ends_the_drain(
    before: LockStats,
    nanos: u64,
    now: u64,
    after: LockStats,
)
    requires
        before.waiting > 0,
        before.unparks(nanos, now, after),
        ({
            let s = before.sites@[before.armed.site.place()];
            &&& s.drains < u64::MAX
            &&& s.drain_queued + before.armed.queued <= u64::MAX
            &&& s.drain_joined + before.armed.joined <= u64::MAX
            &&& s.drain_nanos + now + 1 <= u64::MAX
        }),
    ensures
        after.waiting == before.waiting - 1,
        before.waiting > 1 ==> after.sites == before.sites && after.armed == before.armed,
        before.waiting == 1 ==> after.armed.release_nanos == 0,
        before.armed.release_nanos == 0 ==> after.sites == before.sites,
        before.waiting == 1 && before.armed.release_nanos > 0 ==> {
            let was = before.sites@[before.armed.site.place()];
            let is = after.sites@[before.armed.site.place()];
            &&& is.drains == was.drains + 1
            &&& is.drain_queued == was.drain_queued + before.armed.queued
            &&& is.drain_joined == was.drain_joined + before.armed.joined
            &&& now > before.armed.release_nanos ==> is.drain_nanos == was.drain_nanos + (now
                - before.armed.release_nanos)
            &&& now <= before.armed.release_nanos ==> is.drain_nanos == was.drain_nanos + 1
            &&& is.max_drain_nanos >= is.drain_nanos - was.drain_nanos
            &&& is.peak_drain_nanos >= is.drain_nanos - was.drain_nanos
            &&& is.acquisitions == was.acquisitions && is.hold_nanos == was.hold_nanos && is.arms
                == was.arms
            &&& forall|i: int|
                0 <= i < 23 && i != before.armed.site.place() ==> #[trigger] after.sites@[i]
                    == before.sites@[i]
        },
{
    assert(0 <= before.armed.site.place() < 23);
}

/// A write that blocked is counted among the acquisitions and the blocked, its
/// wait in the total and in one bucket.
pub proof fn law_a_blocked_write_is_counted(
    before: WriteSnapshot,
    nanos: u64,
    after: WriteSnapshot,
)
    requires
        LockStats::blocked_writes(before, nanos, after),
        before.acquisitions < u64::MAX,
        before.blocked < u64::MAX,
        before.wait_nanos + nanos <= u64::MAX,
        before.wait_buckets@[wait_place(nanos as int)] < u64::MAX,
    ensures
        after.acquisitions == before.acquisitions + 1,
        after.blocked == before.blocked + 1,
        after.wait_nanos == before.wait_nanos + nanos,
        after.max_wait_nanos >= nanos && after.max_wait_nanos >= before.max_wait_nanos,
        after.peak_wait_nanos >= nanos && after.peak_wait_nanos >= before.peak_wait_nanos,
        after.max_wait_nanos == nanos || after.max_wait_nanos == before.max_wait_nanos,
        forall|i: int|
            0 <= i < 6 ==> #[trigger] after.wait_buckets@[i] == before.wait_buckets@[i] + (if i
                == wait_place(nanos as int) {
                1int
            } else {
                0
            }),
        after.hold_nanos == before.hold_nanos && after.wal_nanos == before.wal_nanos
            && after.by_depth == before.by_depth && after.by_append == before.by_append,
{
}

/// A write that took the mutex at once is an acquisition that did not block.
pub proof fn law_an_uncontended_write_did_not_block(before: LockStats)
    requires
        before.writes.acquisitions < u64::MAX,
    ensures
        before.with_uncontended().writes.acquisitions == before.writes.acquisitions + 1,
        before.with_uncontended().writes.blocked == before.writes.blocked,
        before.with_uncontended().writes.wait_nanos == before.writes.wait_nanos,
        before.with_uncontended().waiting == before.waiting,
        before.with_uncontended().sites == before.sites,
{
}

/// A write's hold is counted whole, in the log's file and beside it, under its
/// depth and under what was in flight, and in no other bucket.
pub proof fn law_a_write_hold_is_counted(
    before: WriteSnapshot,
    hold: u64,
    depth: usize,
    wal: u64,
    context: AppendContext,
    after: WriteSnapshot,
)
    requires
        LockStats::held_writes(before, hold, depth, wal, context, after),
        before.hold_nanos + hold <= u64::MAX,
        before.wal_nanos + wal <= u64::MAX,
        before.map_nanos + hold <= u64::MAX,
        forall|i: int|
            0 <= i < 6 ==> (#[trigger] before.by_depth@[i]).writes < u64::MAX
                && before.by_depth@[i].hold_nanos + hold <= u64::MAX,
        forall|i: int|
            0 <= i < 4 ==> (#[trigger] before.by_append@[i]).writes < u64::MAX
                && before.by_append@[i].hold_nanos + wal <= u64::MAX,
    ensures
        after.hold_nanos == before.hold_nanos + hold,
        after.wal_nanos == before.wal_nanos + wal,
        wal <= hold ==> after.map_nanos - before.map_nanos + wal == hold,
        wal > hold ==> after.map_nanos == before.map_nanos,
        after.max_hold_nanos >= hold && after.max_wal_nanos >= wal && after.max_depth >= depth
            && after.peak_depth >= depth,
        forall|i: int|
            0 <= i < 6 && i != depth_place(depth as int) ==> #[trigger] after.by_depth@[i]
                == before.by_depth@[i],
        forall|i: int|
            0 <= i < 4 && i != context.place() ==> #[trigger] after.by_append@[i]
                == before.by_append@[i],
        after.by_depth@[depth_place(depth as int)].writes == before.by_depth@[depth_place(
            depth as int,
        )].writes + 1,
        after.by_depth@[depth_place(depth as int)].hold_nanos == before.by_depth@[depth_place(
            depth as int,
        )].hold_nanos + hold,
        after.by_depth@[depth_place(depth as int)].max_hold_nanos >= hold,
        after.by_append@[context.place()].writes == before.by_append@[context.place()].writes + 1,
        after.by_append@[context.place()].hold_nanos == before.by_append@[context.place()].hold_nanos
            + wal,
        after.by_append@[context.place()].max_hold_nanos >= wal,
        after.acquisitions == before.acquisitions && after.blocked == before.blocked
            && after.wait_nanos == before.wait_nanos,
{
    assert(0 <= depth_place(depth as int) < 6);
    assert(0 <= context.place() < 4);
    let d = before.by_depth@[depth_place(depth as int)];
    let a = before.by_append@[context.place()];
    assert(d.writes < u64::MAX && a.writes < u64::MAX);
}

/// A site's counts since a reading, and that reading's, are its counts now.
pub proof fn law_a_site_since_and_before_are_now(s: SiteSnapshot, e: SiteSnapshot)
    requires
        e.acquisitions <= s.acquisitions && e.wait_nanos <= s.wait_nanos && e.hold_nanos
            <= s.hold_nanos,
        e.arms <= s.arms && e.drains <= s.drains && e.drain_queued <= s.drain_queued,
        e.drain_joined <= s.drain_joined && e.drain_nanos <= s.drain_nanos,
    ensures
        ({
            let r = site_since(s, e);
            &&& r.acquisitions + e.acquisitions == s.acquisitions
            &&& r.wait_nanos + e.wait_nanos == s.wait_nanos
            &&& r.hold_nanos + e.hold_nanos == s.hold_nanos
            &&& r.arms + e.arms == s.arms
            &&& r.drains + e.drains == s.drains
            &&& r.drain_queued + e.drain_queued == s.drain_queued
            &&& r.drain_joined + e.drain_joined == s.drain_joined
            &&& r.drain_nanos + e.drain_nanos == s.drain_nanos
            &&& r.max_hold_nanos == s.max_hold_nanos && r.peak_hold_nanos == s.peak_hold_nanos
            &&& r.max_drain_nanos == s.max_drain_nanos && r.peak_drain_nanos == s.peak_drain_nanos
        }),
{
}

/// The writes' counts since a reading, and that reading's, are their counts
/// now, bucket by bucket.
pub proof fn law_writes_since_and_before_are_now(
    w: WriteSnapshot,
    e: WriteSnapshot,
    r: WriteSnapshot,
)
    requires
        writes_since(w, e, r),
        e.acquisitions <= w.acquisitions && e.blocked <= w.blocked && e.wait_nanos
            <= w.wait_nanos,
        e.hold_nanos <= w.hold_nanos && e.wal_nanos <= w.wal_nanos && e.map_nanos <= w.map_nanos,
        forall|i: int| 0 <= i < 6 ==> (#[trigger] e.wait_buckets@[i]) <= w.wait_buckets@[i],
        forall|i: int|
            0 <= i < 6 ==> (#[trigger] e.by_depth@[i]).writes <= w.by_depth@[i].writes
                && e.by_depth@[i].hold_nanos <= w.by_depth@[i].hold_nanos,
        forall|i: int|
            0 <= i < 4 ==> (#[trigger] e.by_append@[i]).writes <= w.by_append@[i].writes
                && e.by_append@[i].hold_nanos <= w.by_append@[i].hold_nanos,
    ensures
        r.acquisitions + e.acquisitions == w.acquisitions,
        r.blocked + e.blocked == w.blocked,
        r.wait_nanos + e.wait_nanos == w.wait_nanos,
        r.hold_nanos + e.hold_nanos == w.hold_nanos,
        r.wal_nanos + e.wal_nanos == w.wal_nanos,
        r.map_nanos + e.map_nanos == w.map_nanos,
        forall|i: int|
            0 <= i < 6 ==> (#[trigger] r.wait_buckets@[i]) + e.wait_buckets@[i]
                == w.wait_buckets@[i],
        forall|i: int|
            0 <= i < 6 ==> (#[trigger] r.by_depth@[i]).writes + e.by_depth@[i].writes
                == w.by_depth@[i].writes && r.by_depth@[i].hold_nanos + e.by_depth@[i].hold_nanos
                == w.by_depth@[i].hold_nanos && r.by_depth@[i].max_hold_nanos
                == w.by_depth@[i].max_hold_nanos,
        forall|i: int|
            0 <= i < 4 ==> (#[trigger] r.by_append@[i]).writes + e.by_append@[i].writes
                == w.by_append@[i].writes && r.by_append@[i].hold_nanos + e.by_append@[i].hold_nanos
                == w.by_append@[i].hold_nanos,
        r.max_wait_nanos == w.max_wait_nanos && r.peak_wait_nanos == w.peak_wait_nanos,
        r.max_hold_nanos == w.max_hold_nanos && r.max_waiting == w.max_waiting,
{
    assert forall|i: int| 0 <= i < 6 implies (#[trigger] r.by_depth@[i]).writes
        + e.by_depth@[i].writes == w.by_depth@[i].writes && r.by_depth@[i].hold_nanos
        + e.by_depth@[i].hold_nanos == w.by_depth@[i].hold_nanos && r.by_depth@[i].max_hold_nanos
        == w.by_depth@[i].max_hold_nanos by {
        assert(e.by_depth@[i].writes <= w.by_depth@[i].writes);
    }
    assert forall|i: int| 0 <= i < 4 implies (#[trigger] r.by_append@[i]).writes
        + e.by_append@[i].writes == w.by_append@[i].writes && r.by_append@[i].hold_nanos
        + e.by_append@[i].hold_nanos == w.by_append@[i].hold_nanos by {
        assert(e.by_append@[i].writes <= w.by_append@[i].writes);
    }
    assert forall|i: int| 0 <= i < 6 implies (#[trigger] r.wait_buckets@[i]) + e.wait_buckets@[i]
        == w.wait_buckets@[i] by {
        assert(e.wait_buckets@[i] <= w.wait_buckets@[i]);
    }
}

/// A new window begins with no maximum, and changes neither a count nor a peak.
pub proof fn law_a_new_window_keeps_the_counts(before: LockStats, after: LockStats, i: int)
    requires
        before.begins_window(after),
        0 <= i < 23,
    ensures
        after.sites@[i].max_hold_nanos == 0 && after.sites@[i].max_drain_nanos == 0,
        after.sites@[i].acquisitions == before.sites@[i].acquisitions,
        after.sites@[i].hold_nanos == before.sites@[i].hold_nanos,
        after.sites@[i].wait_nanos == before.sites@[i].wait_nanos,
        after.sites@[i].peak_hold_nanos == before.sites@[i].peak_hold_nanos,
        after.sites@[i].peak_drain_nanos == before.sites@[i].peak_drain_nanos,
        after.sites@[i].drains == before.sites@[i].drains,
        after.writes.max_wait_nanos == 0 && after.writes.max_hold_nanos == 0
            && after.writes.max_waiting == 0 && after.writes.max_depth == 0
            && after.writes.max_wal_nanos == 0 && after.writes.max_map_nanos == 0,
        after.writes.acquisitions == before.writes.acquisitions && after.writes.blocked
            == before.writes.blocked && after.writes.peak_wait_nanos
            == before.writes.peak_wait_nanos && after.writes.peak_waiting
            == before.writes.peak_waiting && after.writes.peak_depth == before.writes.peak_depth,
        i < 6 ==> after.writes.by_depth@[i].max_hold_nanos == 0 && after.writes.by_depth@[i].writes
            == before.writes.by_depth@[i].writes,
        i < 4 ==> after.writes.by_append@[i].max_hold_nanos == 0
            && after.writes.by_append@[i].writes == before.writes.by_append@[i].writes,
        after.writes.wait_buckets == before.writes.wait_buckets,
        after.waiting == before.waiting && after.armed == before.armed,
{
    assert(after.sites@[i] == reset_site(before.sites@[i]));
    if i < 6 {
        assert(after.writes.by_depth@[i] == reset_hold(before.writes.by_depth@[i]));
    }
    if i < 4 {
        assert(after.writes.by_append@[i] == reset_hold(before.writes.by_append@[i]));
    }
}

/// The whole hold is that of every site: the hold of some sites is that of its
/// parts.
pub proof fn law_the_whole_hold_adds_up(front: Seq<SiteSnapshot>, back: Seq<SiteSnapshot>)
    ensures
        holds(front + back) == holds(front) + holds(back),
        forall|s: SiteSnapshot| #[trigger] holds(seq![s]) == s.hold_nanos,
    decreases back.len(),
{
    assert forall|s: SiteSnapshot| #[trigger] holds(seq![s]) == s.hold_nanos by {
        assert(seq![s].drop_last() =~= Seq::<SiteSnapshot>::empty());
        assert(holds(Seq::<SiteSnapshot>::empty()) == 0);
    }
    if back.len() == 0 {
        assert(front + back =~= front);
    } else {
        law_the_whole_hold_adds_up(front, back.drop_last());
        assert((front + back).drop_last() =~= front + back.drop_last());
    }
}

proof fn lemma_active(sites: Seq<SiteSnapshot>)
    ensures
        forall|i: int|
            0 <= i < sites.len() && (#[trigger] sites[i]).acquisitions > 0 ==> active_sites(
                sites,
            ).contains(i),
        forall|k: int|
            0 <= k < active_sites(sites).len() ==> 0 <= #[trigger] active_sites(sites)[k]
                < sites.len() && sites[active_sites(sites)[k]].acquisitions > 0,
        forall|k: int, l: int|
            0 <= k < l < active_sites(sites).len() ==> #[trigger] active_sites(sites)[k]
                < #[trigger] active_sites(sites)[l],
    decreases sites.len(),
{
    if sites.len() > 0 {
        let before = sites.drop_last();
        lemma_active(before);
        let (was, now) = (active_sites(before), active_sites(sites));
        assert forall|i: int| 0 <= i < sites.len() && (#[trigger] sites[i]).acquisitions
            > 0 implies now.contains(i) by {
            if i < before.len() {
                assert(before[i] == sites[i]);
                let k = choose|k: int| 0 <= k < was.len() && was[k] == i;
                assert(now[k] == i);
            } else {
                assert(now[now.len() - 1] == i);
            }
        }
        assert forall|k: int| 0 <= k < now.len() implies 0 <= #[trigger] now[k] < sites.len()
            && sites[now[k]].acquisitions > 0 by {
            if k < was.len() {
                assert(now[k] == was[k]);
                assert(before[was[k]] == sites[was[k]]);
            }
        }
        assert forall|k: int, l: int| 0 <= k < l < now.len() implies #[trigger] now[k]
            < #[trigger] now[l] by {
            assert(now[k] == was[k]);
            if l < was.len() {
                assert(now[l] == was[l]);
            }
        }
    }
}

/// A report ranks just the sites that acquired, each once, the longest hold
/// first; those that held alike keep their order.
pub proof fn law_just_the_active_are_ranked(sites: Seq<SiteSnapshot>)
    ensures
        forall|i: int|
            0 <= i < sites.len() ==> ((#[trigger] sites[i]).acquisitions > 0 <==> ranked_sites(
                sites,
            ).contains(i)),
        forall|k: int, l: int|
            0 <= k < l < ranked_sites(sites).len() ==> {
                let (a, b) = (#[trigger] ranked_sites(sites)[k], #[trigger] ranked_sites(sites)[l]);
                &&& a != b
                &&& sites[a].hold_nanos > sites[b].hold_nanos || (sites[a].hold_nanos
                    == sites[b].hold_nanos && a < b)
            },
{
    let active = active_sites(sites);
    let keys = rank_keys(sites, active);
    let order = stable_order_of(keys);
    let ranked = ranked_sites(sites);
    lemma_active(sites);
    crate::order::lemma_order_exists(keys);
    assert forall|i: int| 0 <= i < sites.len() implies ((#[trigger] sites[i]).acquisitions > 0
        <==> ranked.contains(i)) by {
        if sites[i].acquisitions > 0 {
            assert(active.contains(i));
            let k = choose|k: int| 0 <= k < active.len() && active[k] == i;
            crate::order::lemma_order_is_onto(keys, order, k);
            let x = choose|x: int| 0 <= x < order.len() && #[trigger] order[x] == k;
            assert(ranked[x] == i);
        }
        if ranked.contains(i) {
            let x = choose|x: int| 0 <= x < ranked.len() && ranked[x] == i;
            assert(0 <= order[x] < keys.len());
            assert(active[order[x]] == i);
        }
    }
    assert forall|k: int, l: int| 0 <= k < l < ranked.len() implies ({
        let (a, b) = (#[trigger] ranked[k], #[trigger] ranked[l]);
        &&& a != b
        &&& sites[a].hold_nanos > sites[b].hold_nanos || (sites[a].hold_nanos
            == sites[b].hold_nanos && a < b)
    }) by {
        let (x, y) = (order[k], order[l]);
        assert(crate::order::ahead(keys, x, y));
        assert(0 <= x < keys.len() && 0 <= y < keys.len());
        assert(keys[x] == (u64::MAX - sites[active[x]].hold_nanos) as u128);
        assert(keys[y] == (u64::MAX - sites[active[y]].hold_nanos) as u128);
        if x < y {
            assert(active[x] < active[y]);
        }
        if y < x {
            assert(active[y] < active[x]);
        }
    }
}

/// What a report says at `at` is of the site: its count, its hold, its longest
/// and its wait.
pub open spec fn says_site(
    pieces: Seq<ReportPiece>,
    at: int,
    site: LockSite,
    s: SiteSnapshot,
) -> bool {
    &&& 0 <= at && at + 9 < pieces.len()
    &&& pieces[at + 1] == ReportPiece::Site(site)
    &&& pieces[at + 3] == ReportPiece::Count(s.acquisitions)
    &&& pieces[at + 5] == ReportPiece::Millis(s.hold_nanos)
    &&& pieces[at + 7] == ReportPiece::Millis(s.max_hold_nanos)
    &&& pieces[at + 9] == ReportPiece::Millis(s.wait_nanos)
    &&& s.arms > 0 ==> at + 21 < pieces.len() && pieces[at + 11] == ReportPiece::Count(s.arms)
        && pieces[at + 13] == ReportPiece::Count(s.drains) && pieces[at + 15]
        == ReportPiece::Count(s.drain_queued) && pieces[at + 17] == ReportPiece::Count(
        s.drain_joined,
    ) && pieces[at + 19] == ReportPiece::Millis(s.drain_nanos) && pieces[at + 21]
        == ReportPiece::Millis(s.max_drain_nanos)
}

/// A report says of each site it names what that site counted.
pub proof fn law_a_report_says_what_a_site_counted(
    all: Seq<LockSite>,
    sites: Seq<SiteSnapshot>,
    places: Seq<int>,
    k: int,
)
    requires
        0 <= k < places.len(),
    ensures
        exists|at: int| #[trigger]
            says_site(sites_pieces(all, sites, places), at, all[places[k]], sites[places[k]]),
    decreases places.len(),
{
    let before = places.drop_last();
    let front = sites_pieces(all, sites, before);
    let pieces = sites_pieces(all, sites, places);
    if k < before.len() {
        law_a_report_says_what_a_site_counted(all, sites, before, k);
        assert(before[k] == places[k]);
        let at = choose|at: int| #[trigger]
            says_site(front, at, all[before[k]], sites[before[k]]);
        assert(forall|i: int| 0 <= i < front.len() ==> pieces[i] == front[i]);
        assert(says_site(pieces, at, all[places[k]], sites[places[k]]));
    } else {
        let (site, s) = (all[places[k]], sites[places[k]]);
        let last = site_pieces(site, s);
        let at = front.len() as int;
        assert(pieces =~= front + last);
        assert(forall|i: int| 0 <= i < last.len() ==> pieces[at + i] == last[i]);
        assert(last[0int + 1] == ReportPiece::Site(site));
        assert(last[0int + 3] == ReportPiece::Count(s.acquisitions));
        assert(last[0int + 5] == ReportPiece::Millis(s.hold_nanos));
        assert(last[0int + 7] == ReportPiece::Millis(s.max_hold_nanos));
        assert(last[0int + 9] == ReportPiece::Millis(s.wait_nanos));
        if s.arms > 0 {
            assert(last.len() == 22);
            assert(last[11] == ReportPiece::Count(s.arms));
            assert(last[13] == ReportPiece::Count(s.drains));
            assert(last[15] == ReportPiece::Count(s.drain_queued));
            assert(last[17] == ReportPiece::Count(s.drain_joined));
            assert(last[19] == ReportPiece::Millis(s.drain_nanos));
            assert(last[21] == ReportPiece::Millis(s.max_drain_nanos));
        }
        assert(says_site(pieces, at, site, s));
    }
}

} // verus!
