//! The volume actor's decisions: which promotes are under way, who waits for
//! what, and what each request and worker result leads to.
//!
//! The actor performs the work between the decisions: it takes the volume
//! lock, sends jobs to the worker, applies results and sends the replies. A
//! waiting caller is known here by the number of its reply slot, and a job by
//! the number it was given.

use vstd::prelude::*;

use crate::ids::Ulid;
use crate::map_layers::MapLayers;
use crate::rebuild::ParsedSegment;
use crate::segment::{EntryKind, SegmentEntry};

verus! {

// ---------------------------------------------------------------------------
// Publication and reads
// ---------------------------------------------------------------------------

/// The maps as readers see them. `flush_gen` counts publications; `layout_gen`
/// those of them that replaced or removed segment files, which retire a
/// reader's open descriptors.
pub struct ReadSnapshot {
    pub maps: MapLayers,
    pub flush_gen: u64,
    pub layout_gen: u64,
}

/// What a publication did to the files on disk.
#[derive(Clone, Copy, Debug, PartialEq, Eq, Structural)]
pub enum Publication {
    /// Segment files were replaced or removed.
    ReplacesFiles,
    /// Bytes were appended to the log; every open file is still the same.
    AppendsToWal,
}

/// The generations a publication goes out under.
pub fn next_generations(flush_gen: u64, layout_gen: u64, publication: Publication) -> (next: (
    u64,
    u64,
))
    requires
        flush_gen < u64::MAX,
        layout_gen < u64::MAX,
    ensures
        next.0 == flush_gen + 1,
        next.1 == (if publication is ReplacesFiles {
            layout_gen + 1
        } else {
            layout_gen as int
        }),
{
    match publication {
        Publication::ReplacesFiles => (flush_gen + 1, layout_gen + 1),
        Publication::AppendsToWal => (flush_gen + 1, layout_gen),
    }
}

/// Whether a read whose file was missing is tried again. The snapshot that
/// replaced a file is published before the file goes, so a read that finds it
/// missing resolves through the newer snapshot; with no newer one the file is
/// really gone. Two tries beyond the first.
pub fn retries_read(retried: u8, not_found: bool, seen_gen: u64, fresh_gen: u64) -> (b: bool)
    ensures
        b == (retried < 2 && not_found && fresh_gen != seen_gen),
{
    retried < 2 && not_found && fresh_gen != seen_gen
}

/// Where a reap pass stops.
#[derive(Clone, Copy, Debug, PartialEq, Eq, Structural)]
pub enum ReapStop {
    /// Run to the end.
    Never,
    /// Stop after the apply, before the snapshot is published.
    BeforePublish,
    /// Stop after the publication, before the files go.
    BeforeUnlink,
}

/// What a reap pass does once its apply is in.
#[derive(Clone, Copy, Debug, PartialEq, Eq, Structural)]
pub enum ReapStep {
    /// Nothing more.
    Done,
    /// Publish, and leave the files.
    Publish,
    /// Publish, and then unlink the files.
    PublishAndUnlink,
}

/// What a reap pass does once its apply is in. No file goes before a snapshot
/// that does not name it is out.
pub fn reap_step(nothing_to_unlink: bool, stop: ReapStop) -> (step: ReapStep)
    ensures
        step == (if nothing_to_unlink || stop is BeforePublish {
            ReapStep::Done
        } else if stop is BeforeUnlink {
            ReapStep::Publish
        } else {
            ReapStep::PublishAndUnlink
        }),
{
    if nothing_to_unlink {
        return ReapStep::Done;
    }
    match stop {
        ReapStop::BeforePublish => ReapStep::Done,
        ReapStop::BeforeUnlink => ReapStep::Publish,
        ReapStop::Never => ReapStep::PublishAndUnlink,
    }
}

/// Where a guest write spent its time, in nanoseconds.
#[derive(Clone, Copy, Debug, PartialEq, Eq, Structural)]
pub struct WritePhases {
    pub bytes: u64,
    pub pre: u64,
    pub wait: u64,
    pub held: u64,
    pub post: u64,
    pub fua: Option<u64>,
    pub total: u64,
}

/// The phases of a write from its marks: the call, the ask for the lock, its
/// acquisition and its release, and the length of the sync where there was
/// one. What the other phases leave of the total is the last one's.
pub fn write_phases(
    bytes: u64,
    started: u64,
    asked: u64,
    taken: u64,
    released: u64,
    synced: Option<u64>,
    now: u64,
) -> (p: WritePhases)
    requires
        started <= asked <= taken <= released <= now,
    ensures
        p.bytes == bytes,
        p.pre == asked - started,
        p.wait == taken - asked,
        p.held == released - taken,
        p.fua == synced,
        p.total == now - started,
        p.post == (if (now - released) > (match synced {
            Some(s) => s as int,
            None => 0int,
        }) {
            (now - released) - (match synced {
                Some(s) => s as int,
                None => 0int,
            })
        } else {
            0int
        }),
{
    let fua: u64 = match synced {
        Some(s) => s,
        None => 0,
    };
    WritePhases {
        bytes,
        pre: asked - started,
        wait: taken - asked,
        held: released - taken,
        post: (now - released).saturating_sub(fua),
        fua: synced,
        total: now - started,
    }
}

// ---------------------------------------------------------------------------
// State
// ---------------------------------------------------------------------------

/// A promote job, by number.
#[derive(Clone, Copy, Debug, PartialEq, Eq, Structural)]
pub struct PromoteJob {
    pub job: u64,
    pub segment_ulid: Ulid,
}

/// A caller waiting for one promote.
#[derive(Clone, Copy, Debug, PartialEq, Eq, Structural)]
pub struct ParkedPromote {
    pub ulid: Ulid,
    pub reply: u64,
}

/// A garbage-collection checkpoint waiting for promotes.
pub enum ParkedGc {
    /// For its own promote.
    Flush { u_buckets: Vec<Ulid>, u_flush: Ulid, reply: u64 },
    /// For every promote sent before it; it found the log empty.
    Barrier { u_buckets: Vec<Ulid>, needed_gen: u64, reply: u64 },
}

impl ParkedGc {
    pub open spec fn slot(self) -> u64 {
        match self {
            ParkedGc::Flush { reply, .. } => reply,
            ParkedGc::Barrier { reply, .. } => reply,
        }
    }

    pub open spec fn buckets(self) -> Seq<Ulid> {
        match self {
            ParkedGc::Flush { u_buckets, .. } => u_buckets@,
            ParkedGc::Barrier { u_buckets, .. } => u_buckets@,
        }
    }
}

/// A plan of a garbage-collection batch, by number.
#[derive(Clone, Copy, Debug, PartialEq, Eq, Structural)]
pub struct PlanRef {
    pub plan: u64,
    pub new_ulid: Ulid,
}

/// A batch of plans being applied one at a time.
pub struct ParkedGcHandoffs {
    pub remaining: Vec<PlanRef>,
    pub reply: Option<u64>,
    pub applied_count: u64,
}

/// A caller waiting for a close pass, with the sealed generation's size.
#[derive(Clone, Copy, Debug, PartialEq, Eq, Structural)]
pub struct ParkedCloseGeneration {
    pub reply: u64,
    pub rotated: Option<u32>,
}

/// Promotes sent and finished, and who waits for them.
pub struct PromotePipeline {
    pub promotes_in_flight: u64,
    /// Promotes sent so far.
    pub promote_gen: u64,
    /// Promotes finished so far, well or not.
    pub completed_gen: u64,
    pub parked_gc: Option<ParkedGc>,
    pub parked_promote_wal: Vec<ParkedPromote>,
    pub parked_promote_segments: Vec<ParkedPromote>,
    pub promote_segments_in_flight: u64,
    /// Failed promotes to be tried again, oldest first.
    pub failed_promotes: Vec<PromoteJob>,
}

/// Callers of the operations of which one runs at a time.
pub struct ParkedOps {
    pub handoffs: Option<ParkedGcHandoffs>,
    /// A plan is on the worker, or its result is held back.
    pub handoff_in_flight: bool,
    /// A finished plan held back until the promotes in flight are in.
    pub deferred_handoff: Option<u64>,
    pub close_generation: Option<ParkedCloseGeneration>,
    pub sign_snapshot_manifest: Option<u64>,
    pub reclaim: Option<u64>,
}

/// The actor's state.
pub struct ActorState {
    pub pipeline: PromotePipeline,
    pub parked: ParkedOps,
}

impl PromotePipeline {
    /// Every promote sent is finished or in flight, and a checkpoint that
    /// waits for promotes waits for some that are still in flight.
    pub open spec fn wf(&self) -> bool {
        &&& self.promote_gen == self.completed_gen + self.promotes_in_flight
        &&& self.parked_gc matches Some(ParkedGc::Barrier { needed_gen, .. }) ==> self.completed_gen
            < needed_gen <= self.promote_gen
    }
}

impl ActorState {
    pub open spec fn wf(&self) -> bool {
        &&& self.pipeline.wf()
        &&& self.parked.deferred_handoff is Some ==> self.parked.handoff_in_flight
            && self.pipeline.promotes_in_flight > 0
    }

    /// No job is under way.
    pub open spec fn idle(&self) -> bool {
        &&& self.pipeline.promotes_in_flight == 0
        &&& self.pipeline.promote_segments_in_flight == 0
        &&& !self.parked.handoff_in_flight
        &&& self.parked.close_generation is None
        &&& self.parked.sign_snapshot_manifest is None
        &&& self.parked.reclaim is None
    }

    /// A volume just opened: nothing under way, nobody waiting.
    pub fn new() -> (s: Self)
        ensures
            s.wf(),
            s.idle(),
            s.pipeline.promote_gen == 0 && s.pipeline.completed_gen == 0,
            s.pipeline.parked_gc is None && s.parked.handoffs is None,
            s.pipeline.parked_promote_wal@.len() == 0,
            s.pipeline.parked_promote_segments@.len() == 0,
            s.pipeline.failed_promotes@.len() == 0,
            s.parked.deferred_handoff is None,
    {
        ActorState {
            pipeline: PromotePipeline {
                promotes_in_flight: 0,
                promote_gen: 0,
                completed_gen: 0,
                parked_gc: None,
                parked_promote_wal: Vec::new(),
                parked_promote_segments: Vec::new(),
                promote_segments_in_flight: 0,
                failed_promotes: Vec::new(),
            },
            parked: ParkedOps {
                handoffs: None,
                handoff_in_flight: false,
                deferred_handoff: None,
                close_generation: None,
                sign_snapshot_manifest: None,
                reclaim: None,
            },
        }
    }

    /// Whether any job is under way. Shutdown waits for them.
    pub fn work_in_flight(&self) -> (b: bool)
        ensures
            b == !self.idle(),
    {
        self.pipeline.promotes_in_flight > 0 || self.pipeline.promote_segments_in_flight > 0
            || self.parked.handoff_in_flight || self.parked.close_generation.is_some()
            || self.parked.sign_snapshot_manifest.is_some() || self.parked.reclaim.is_some()
    }

    /// Whether a reap pass runs now. A promote in flight may be making a
    /// delta against content the pass would remove.
    pub fn reap_may_run(&self) -> (b: bool)
        ensures
            b == (self.pipeline.promotes_in_flight == 0),
    {
        self.pipeline.promotes_in_flight == 0
    }
}

// ---------------------------------------------------------------------------
// Requests
// ---------------------------------------------------------------------------

/// A request of which one runs at a time.
#[derive(Clone, Copy, Debug, PartialEq, Eq, Structural)]
pub enum ExclusiveRequest {
    ApplyGcHandoffs,
    CloseGeneration,
    GcCheckpoint,
    SignSnapshotManifest,
    Reclaim,
}

/// What the actor's loop wakes for.
#[derive(Clone, Copy, Debug, PartialEq, Eq, Structural)]
pub enum LoopEvent {
    /// Every handle is gone.
    NoCallers,
    Shutdown,
    /// A writer found the log full enough; `needed` where it still is.
    CheckPromote { needed: bool },
    /// The idle interval has passed.
    IdleTick,
    Exclusive(ExclusiveRequest),
    WorkerResult,
    /// The worker's results have ended.
    WorkerGone,
}

/// What the actor's loop does.
#[derive(Clone, Copy, Debug, PartialEq, Eq, Structural)]
pub enum LoopStep {
    /// Let the worker finish, and end.
    Stop,
    Wait,
    /// Promote the log where it holds anything.
    DispatchPromote,
    /// Promote the log where it holds anything, and then apply the plans at
    /// hand.
    PromoteThenHandoffs,
    Start(ExclusiveRequest),
    /// Tell the caller that one is under way.
    Refuse(ExclusiveRequest),
    TakeResult,
}

impl ActorState {
    /// One of the kind is under way.
    pub open spec fn busy(&self, request: ExclusiveRequest) -> bool {
        match request {
            ExclusiveRequest::ApplyGcHandoffs => self.parked.handoffs is Some,
            ExclusiveRequest::CloseGeneration => self.parked.close_generation is Some,
            ExclusiveRequest::GcCheckpoint => self.pipeline.parked_gc is Some,
            ExclusiveRequest::SignSnapshotManifest => self.parked.sign_snapshot_manifest is Some,
            ExclusiveRequest::Reclaim => self.parked.reclaim is Some,
        }
    }

    /// Whether the request is refused: one of its kind is under way.
    pub fn refuses(&self, request: ExclusiveRequest) -> (b: bool)
        ensures
            b == self.busy(request),
    {
        match request {
            ExclusiveRequest::ApplyGcHandoffs => self.parked.handoffs.is_some(),
            ExclusiveRequest::CloseGeneration => self.parked.close_generation.is_some(),
            ExclusiveRequest::GcCheckpoint => self.pipeline.parked_gc.is_some(),
            ExclusiveRequest::SignSnapshotManifest => self.parked.sign_snapshot_manifest.is_some(),
            ExclusiveRequest::Reclaim => self.parked.reclaim.is_some(),
        }
    }

    /// What the actor does next.
    pub open spec fn step_of(&self, event: LoopEvent) -> LoopStep {
        match event {
            LoopEvent::NoCallers => LoopStep::Stop,
            LoopEvent::Shutdown => LoopStep::Stop,
            LoopEvent::CheckPromote { needed } => if needed {
                LoopStep::DispatchPromote
            } else {
                LoopStep::Wait
            },
            LoopEvent::IdleTick => LoopStep::PromoteThenHandoffs,
            LoopEvent::Exclusive(request) => if self.busy(request) {
                LoopStep::Refuse(request)
            } else {
                LoopStep::Start(request)
            },
            LoopEvent::WorkerResult => LoopStep::TakeResult,
            LoopEvent::WorkerGone => LoopStep::Wait,
        }
    }

    /// What the actor does next. It stops where it is told to or where nobody
    /// can reach it any more; a request of which one runs at a time is refused
    /// while one is under way.
    pub fn next_step(&self, event: LoopEvent) -> (step: LoopStep)
        ensures
            step == self.step_of(event),
    {
        match event {
            LoopEvent::NoCallers => LoopStep::Stop,
            LoopEvent::Shutdown => LoopStep::Stop,
            LoopEvent::CheckPromote { needed } => {
                if needed {
                    LoopStep::DispatchPromote
                } else {
                    LoopStep::Wait
                }
            },
            LoopEvent::IdleTick => LoopStep::PromoteThenHandoffs,
            LoopEvent::Exclusive(request) => {
                if self.refuses(request) {
                    LoopStep::Refuse(request)
                } else {
                    LoopStep::Start(request)
                }
            },
            LoopEvent::WorkerResult => LoopStep::TakeResult,
            LoopEvent::WorkerGone => LoopStep::Wait,
        }
    }

    /// Note a promote job the worker took.
    pub fn promote_sent(&mut self)
        requires
            old(self).wf(),
            old(self).pipeline.promote_gen < u64::MAX,
        ensures
            final(self).wf(),
            final(self).pipeline == (PromotePipeline {
                promotes_in_flight: (old(self).pipeline.promotes_in_flight + 1) as u64,
                promote_gen: (old(self).pipeline.promote_gen + 1) as u64,
                ..old(self).pipeline
            }),
            final(self).parked == old(self).parked,
    {
        self.pipeline.promotes_in_flight = self.pipeline.promotes_in_flight + 1;
        self.pipeline.promote_gen = self.pipeline.promote_gen + 1;
    }

    /// Stash a promote job the worker did not take, or failed at, to be tried
    /// again.
    pub fn stash_promote(&mut self, job: PromoteJob)
        requires
            old(self).wf(),
        ensures
            final(self).wf(),
            final(self).pipeline.failed_promotes@ == old(self).pipeline.failed_promotes@.push(job),
            final(self).pipeline == (PromotePipeline {
                failed_promotes: final(self).pipeline.failed_promotes,
                ..old(self).pipeline
            }),
            final(self).parked == old(self).parked,
    {
        self.pipeline.failed_promotes.push(job);
    }

    /// Take the oldest stashed promote to try it again. One for each trigger,
    /// so that a job that keeps failing does not spin.
    pub fn retry_failed_promote(&mut self) -> (job: Option<PromoteJob>)
        requires
            old(self).wf(),
        ensures
            final(self).wf(),
            old(self).pipeline.failed_promotes@.len() == 0 ==> job is None && *final(self)
                == *old(self),
            old(self).pipeline.failed_promotes@.len() > 0 ==> job == Some(
                old(self).pipeline.failed_promotes@[0],
            ) && final(self).pipeline.failed_promotes@ == old(
                self,
            ).pipeline.failed_promotes@.skip(1),
            final(self).pipeline == (PromotePipeline {
                failed_promotes: final(self).pipeline.failed_promotes,
                ..old(self).pipeline
            }),
            final(self).parked == old(self).parked,
    {
        if self.pipeline.failed_promotes.len() == 0 {
            return None;
        }
        let ghost stashed = self.pipeline.failed_promotes@;
        let job = self.pipeline.failed_promotes.remove(0);
        assert(self.pipeline.failed_promotes@ =~= stashed.skip(1));
        Some(job)
    }

    /// A caller waits for the promote of `ulid`.
    pub fn park_promote_wal(&mut self, ulid: Ulid, reply: u64)
        requires
            old(self).wf(),
        ensures
            final(self).wf(),
            final(self).pipeline.parked_promote_wal@ == old(self).pipeline.parked_promote_wal@.push(
                (ParkedPromote { ulid, reply }),
            ),
            final(self).pipeline == (PromotePipeline {
                parked_promote_wal: final(self).pipeline.parked_promote_wal,
                ..old(self).pipeline
            }),
            final(self).parked == old(self).parked,
    {
        self.pipeline.parked_promote_wal.push(ParkedPromote { ulid, reply });
    }

    /// A segment promote is on the worker, and a caller waits for it.
    pub fn segment_promote_sent(&mut self, ulid: Ulid, reply: u64)
        requires
            old(self).wf(),
            old(self).pipeline.promote_segments_in_flight < u64::MAX,
        ensures
            final(self).wf(),
            final(self).pipeline.parked_promote_segments@ == old(
                self,
            ).pipeline.parked_promote_segments@.push((ParkedPromote { ulid, reply })),
            final(self).pipeline == (PromotePipeline {
                parked_promote_segments: final(self).pipeline.parked_promote_segments,
                promote_segments_in_flight: (old(self).pipeline.promote_segments_in_flight
                    + 1) as u64,
                ..old(self).pipeline
            }),
            final(self).parked == old(self).parked,
    {
        self.pipeline.promote_segments_in_flight = self.pipeline.promote_segments_in_flight + 1;
        self.pipeline.parked_promote_segments.push(ParkedPromote { ulid, reply });
    }
}

/// What a prepared checkpoint leads to.
#[derive(Clone, Copy, Debug, PartialEq, Eq, Structural)]
pub enum CheckpointStep {
    /// Send its promote; the caller waits for it.
    SendPromote,
    /// Nothing is under way: publish and answer now.
    AnswerNow,
    /// Publish; the caller waits for the promotes already sent.
    Wait,
}

impl ActorState {
    /// What a prepared checkpoint leads to. Each segment must be on disk as
    /// one before the answer: its own promote where the log had entries, and
    /// every promote sent before it where the log was empty.
    pub fn start_gc_checkpoint(
        &mut self,
        u_buckets: Vec<Ulid>,
        u_flush: Ulid,
        has_job: bool,
        reply: u64,
    ) -> (step: CheckpointStep)
        requires
            old(self).wf(),
            old(self).pipeline.parked_gc is None,
        ensures
            final(self).wf(),
            step == (if has_job {
                CheckpointStep::SendPromote
            } else if old(self).pipeline.completed_gen >= old(self).pipeline.promote_gen {
                CheckpointStep::AnswerNow
            } else {
                CheckpointStep::Wait
            }),
            final(self).pipeline == (PromotePipeline {
                parked_gc: match step {
                    CheckpointStep::SendPromote => Some(
                        ParkedGc::Flush { u_buckets, u_flush, reply },
                    ),
                    CheckpointStep::AnswerNow => None,
                    CheckpointStep::Wait => Some(
                        ParkedGc::Barrier {
                            u_buckets,
                            needed_gen: old(self).pipeline.promote_gen,
                            reply,
                        },
                    ),
                },
                ..old(self).pipeline
            }),
            final(self).parked == old(self).parked,
    {
        if has_job {
            self.pipeline.parked_gc = Some(ParkedGc::Flush { u_buckets, u_flush, reply });
            return CheckpointStep::SendPromote;
        }
        if self.pipeline.completed_gen >= self.pipeline.promote_gen {
            return CheckpointStep::AnswerNow;
        }
        self.pipeline.parked_gc =
        Some(ParkedGc::Barrier { u_buckets, needed_gen: self.pipeline.promote_gen, reply });
        CheckpointStep::Wait
    }

    /// The checkpoint's promote could not be sent: its caller is told so.
    pub fn checkpoint_unsent(&mut self) -> (reply: Option<u64>)
        requires
            old(self).wf(),
        ensures
            final(self).wf(),
            reply == (match old(self).pipeline.parked_gc {
                Some(gc) => Some(gc.slot()),
                None => None,
            }),
            final(self).pipeline == (PromotePipeline { parked_gc: None, ..old(self).pipeline }),
            final(self).parked == old(self).parked,
    {
        match self.pipeline.parked_gc.take() {
            Some(ParkedGc::Flush { reply, .. }) => Some(reply),
            Some(ParkedGc::Barrier { reply, .. }) => Some(reply),
            None => None,
        }
    }
}

// ---------------------------------------------------------------------------
// Promote results
// ---------------------------------------------------------------------------

/// The slots of the callers from `i` on that wait for `ulid`, as they are taken
/// out, and the callers that stay. The last caller steps into the place of each
/// that leaves.
pub open spec fn taken_from(list: Seq<ParkedPromote>, ulid: Ulid, i: int) -> (
    Seq<u64>,
    Seq<ParkedPromote>,
)
    decreases list.len() - i,
{
    if i < 0 || i >= list.len() {
        (Seq::empty(), list)
    } else if list[i].ulid == ulid {
        let (slots, rest) = taken_from(list.update(i, list.last()).drop_last(), ulid, i);
        (seq![list[i].reply] + slots, rest)
    } else {
        taken_from(list, ulid, i + 1)
    }
}

/// The slots of the callers waiting for `ulid`, in the order they are answered.
pub open spec fn slots_for(list: Seq<ParkedPromote>, ulid: Ulid) -> Seq<u64> {
    taken_from(list, ulid, 0).0
}

/// The callers waiting for anything else.
pub open spec fn others_than(list: Seq<ParkedPromote>, ulid: Ulid) -> Seq<ParkedPromote> {
    taken_from(list, ulid, 0).1
}

/// Take the callers waiting for `ulid` out of `list`.
fn take_waiting(list: &mut Vec<ParkedPromote>, ulid: Ulid) -> (slots: Vec<u64>)
    ensures
        slots@ == slots_for(old(list)@, ulid),
        final(list)@ == others_than(old(list)@, ulid),
{
    let ghost given = list@;
    let mut slots: Vec<u64> = Vec::new();
    let mut i: usize = 0;
    while i < list.len()
        invariant
            i <= list.len(),
            given == old(list)@,
            taken_from(given, ulid, 0).0 =~= slots@ + taken_from(list@, ulid, i as int).0,
            taken_from(given, ulid, 0).1 == taken_from(list@, ulid, i as int).1,
        decreases list.len() - i,
    {
        if list[i].ulid == ulid {
            let ghost before = list@;
            let parked = list.swap_remove(i);
            assert(list@ =~= before.update(i as int, before.last()).drop_last());
            slots.push(parked.reply);
        } else {
            i += 1;
        }
    }
    slots
}

/// Of the callers of `list`, `slots` are those that wait for `ulid` and `rest`
/// the others.
pub open spec fn parted(
    list: Seq<ParkedPromote>,
    ulid: Ulid,
    slots: Seq<u64>,
    rest: Seq<ParkedPromote>,
) -> bool {
    &&& slots.len() + rest.len() == list.len()
    &&& forall|p: ParkedPromote| #[trigger]
        rest.contains(p) <==> list.contains(p) && p.ulid != ulid
    &&& forall|r: u64| #[trigger]
        slots.contains(r) <==> list.contains(ParkedPromote { ulid, reply: r })
}

proof fn lemma_parted(list: Seq<ParkedPromote>, ulid: Ulid, i: int)
    requires
        0 <= i <= list.len(),
        forall|j: int| 0 <= j < i ==> (#[trigger] list[j]).ulid != ulid,
    ensures
        parted(list, ulid, taken_from(list, ulid, i).0, taken_from(list, ulid, i).1),
    decreases list.len() - i,
{
    let (slots, rest) = taken_from(list, ulid, i);
    if i < list.len() {
        if list[i].ulid == ulid {
            let left = list.update(i, list.last()).drop_last();
            let (more, others) = taken_from(left, ulid, i);
            lemma_parted(left, ulid, i);
            assert forall|p: ParkedPromote| list.contains(p) <==> (left.contains(p) || p
                == list[i]) by {
                if list.contains(p) && p != list[i] {
                    let k = choose|k: int| 0 <= k < list.len() && list[k] == p;
                    if k == list.len() - 1 {
                        assert(left[i] == p);
                    } else {
                        assert(left[k] == p);
                    }
                }
                if left.contains(p) {
                    let k = choose|k: int| 0 <= k < left.len() && left[k] == p;
                    if k == i {
                        assert(list[list.len() - 1] == p);
                    } else {
                        assert(list[k] == p);
                    }
                }
            }
            assert forall|r: u64| #[trigger]
                slots.contains(r) <==> list.contains(ParkedPromote { ulid, reply: r }) by {
                assert(slots =~= seq![list[i].reply] + more);
                if slots.contains(r) {
                    let k = choose|k: int| 0 <= k < slots.len() && slots[k] == r;
                    if k > 0 {
                        assert(more[k - 1] == r);
                    }
                }
                if more.contains(r) {
                    let k = choose|k: int| 0 <= k < more.len() && more[k] == r;
                    assert(slots[k + 1] == r);
                }
                if r == list[i].reply {
                    assert(slots[0] == r);
                }
            }
        } else {
            lemma_parted(list, ulid, i + 1);
        }
    } else {
        assert forall|r: u64| !list.contains(ParkedPromote { ulid, reply: r }) by {
            if list.contains(ParkedPromote { ulid, reply: r }) {
                let k = choose|k: int|
                    0 <= k < list.len() && list[k] == (ParkedPromote { ulid, reply: r });
            }
        }
    }
}

/// Whoever waits for a promote is answered when it ends, and nobody else: every
/// caller is answered or stays, by what it waits for.
pub proof fn law_just_the_waiting_are_answered(list: Seq<ParkedPromote>, ulid: Ulid)
    ensures
        parted(list, ulid, slots_for(list, ulid), others_than(list, ulid)),
{
    lemma_parted(list, ulid, 0);
}

/// What a worker result leads to. Every caller named is answered with the
/// result's own outcome.
pub struct WorkerEffects {
    /// The checkpoint it ended, as its minted ULIDs and its caller.
    pub checkpoint: Option<(Vec<Ulid>, u64)>,
    /// The other callers it answers.
    pub waiting: Vec<u64>,
    /// The close pass it ended.
    pub closed: Option<ParkedCloseGeneration>,
    /// A finished plan to apply now.
    pub apply_plan: Option<u64>,
}

impl PromotePipeline {
    /// The parked checkpoint is answered by the promote of `ulid`, the
    /// `done`th to finish.
    pub open spec fn satisfies_gc(&self, ulid: Ulid, done: int) -> bool {
        match self.parked_gc {
            Some(ParkedGc::Flush { u_flush, .. }) => u_flush == ulid,
            Some(ParkedGc::Barrier { needed_gen, .. }) => needed_gen <= done,
            None => false,
        }
    }

    /// The parked checkpoint fails with the promote of `ulid`. A barrier
    /// always does: every promote that ends while it stands was sent before
    /// it.
    pub open spec fn fails_gc(&self, ulid: Ulid) -> bool {
        match self.parked_gc {
            Some(ParkedGc::Flush { u_flush, .. }) => u_flush == ulid,
            Some(ParkedGc::Barrier { .. }) => true,
            None => false,
        }
    }
}

/// `taken` is the checkpoint that was parked, where `due` says it is answered.
pub open spec fn gc_taken(
    parked: Option<ParkedGc>,
    due: bool,
    taken: Option<(Vec<Ulid>, u64)>,
) -> bool {
    if due {
        taken matches Some((buckets, reply)) && parked is Some && buckets@ == parked->0.buckets()
            && reply == parked->0.slot()
    } else {
        taken is None
    }
}

impl ActorState {
    /// The plan that was held back and is due once one more promote ends.
    pub open spec fn plan_due(&self) -> Option<u64> {
        if self.pipeline.promotes_in_flight == 1 {
            self.parked.deferred_handoff
        } else {
            None
        }
    }

    /// The plan still held back once one more promote ends.
    pub open spec fn deferred_after(&self) -> Option<u64> {
        if self.pipeline.promotes_in_flight == 1 {
            None
        } else {
            self.parked.deferred_handoff
        }
    }

    /// Take the plan that was held back, once no promote is in flight.
    fn take_due_plan(&mut self) -> (plan: Option<u64>)
        ensures
            final(self).pipeline == old(self).pipeline,
            old(self).pipeline.promotes_in_flight == 0 ==> plan
                == old(self).parked.deferred_handoff && final(self).parked == (ParkedOps {
                deferred_handoff: None,
                ..old(self).parked
            }),
            old(self).pipeline.promotes_in_flight > 0 ==> plan is None && final(self).parked == old(
                self,
            ).parked,
    {
        if self.pipeline.promotes_in_flight == 0 {
            self.parked.deferred_handoff.take()
        } else {
            None
        }
    }

    /// A promote's result has been applied: whoever waited for it is
    /// answered.
    fn promote_applied(&mut self, ulid: Ulid) -> (effects: WorkerEffects)
        requires
            old(self).wf(),
            old(self).pipeline.promotes_in_flight > 0,
        ensures
            final(self).wf(),
            effects.closed is None,
            effects.apply_plan == old(self).plan_due(),
            gc_taken(
                old(self).pipeline.parked_gc,
                old(self).pipeline.satisfies_gc(ulid, old(self).pipeline.completed_gen + 1),
                effects.checkpoint,
            ),
            effects.waiting@ == slots_for(old(self).pipeline.parked_promote_wal@, ulid),
            final(self).pipeline.parked_promote_wal@ == others_than(
                old(self).pipeline.parked_promote_wal@,
                ulid,
            ),
            final(self).pipeline == (PromotePipeline {
                promotes_in_flight: (old(self).pipeline.promotes_in_flight - 1) as u64,
                completed_gen: (old(self).pipeline.completed_gen + 1) as u64,
                parked_gc: if old(self).pipeline.satisfies_gc(
                    ulid,
                    old(self).pipeline.completed_gen + 1,
                ) {
                    None
                } else {
                    old(self).pipeline.parked_gc
                },
                parked_promote_wal: final(self).pipeline.parked_promote_wal,
                ..old(self).pipeline
            }),
            final(self).parked == (ParkedOps {
                deferred_handoff: old(self).deferred_after(),
                ..old(self).parked
            }),
    {
        self.pipeline.promotes_in_flight = self.pipeline.promotes_in_flight - 1;
        self.pipeline.completed_gen = self.pipeline.completed_gen + 1;
        let done: u64 = self.pipeline.completed_gen;
        let satisfied: bool = match &self.pipeline.parked_gc {
            Some(ParkedGc::Flush { u_flush, .. }) => *u_flush == ulid,
            Some(ParkedGc::Barrier { needed_gen, .. }) => *needed_gen <= done,
            None => false,
        };
        let checkpoint: Option<(Vec<Ulid>, u64)> = if satisfied {
            match self.pipeline.parked_gc.take() {
                Some(ParkedGc::Flush { u_buckets, reply, .. }) => Some((u_buckets, reply)),
                Some(ParkedGc::Barrier { u_buckets, reply, .. }) => Some((u_buckets, reply)),
                None => None,
            }
        } else {
            None
        };
        let waiting = take_waiting(&mut self.pipeline.parked_promote_wal, ulid);
        let apply_plan = self.take_due_plan();
        WorkerEffects { checkpoint, waiting, closed: None, apply_plan }
    }

    /// A promote failed on the worker: whoever waited for it is told so, and
    /// the job is stashed to be tried again.
    fn promote_failed(&mut self, job: PromoteJob) -> (effects: WorkerEffects)
        requires
            old(self).wf(),
            old(self).pipeline.promotes_in_flight > 0,
        ensures
            final(self).wf(),
            effects.closed is None,
            effects.apply_plan == old(self).plan_due(),
            gc_taken(
                old(self).pipeline.parked_gc,
                old(self).pipeline.fails_gc(job.segment_ulid),
                effects.checkpoint,
            ),
            effects.waiting@ == slots_for(
                old(self).pipeline.parked_promote_wal@,
                job.segment_ulid,
            ),
            final(self).pipeline.parked_promote_wal@ == others_than(
                old(self).pipeline.parked_promote_wal@,
                job.segment_ulid,
            ),
            final(self).pipeline.failed_promotes@ == old(self).pipeline.failed_promotes@.push(job),
            final(self).pipeline == (PromotePipeline {
                promotes_in_flight: (old(self).pipeline.promotes_in_flight - 1) as u64,
                completed_gen: (old(self).pipeline.completed_gen + 1) as u64,
                parked_gc: if old(self).pipeline.fails_gc(job.segment_ulid) {
                    None
                } else {
                    old(self).pipeline.parked_gc
                },
                parked_promote_wal: final(self).pipeline.parked_promote_wal,
                failed_promotes: final(self).pipeline.failed_promotes,
                ..old(self).pipeline
            }),
            final(self).parked == (ParkedOps {
                deferred_handoff: old(self).deferred_after(),
                ..old(self).parked
            }),
    {
        self.pipeline.promotes_in_flight = self.pipeline.promotes_in_flight - 1;
        self.pipeline.completed_gen = self.pipeline.completed_gen + 1;
        let waiting_gc: bool = match &self.pipeline.parked_gc {
            Some(ParkedGc::Flush { u_flush, .. }) => *u_flush == job.segment_ulid,
            Some(ParkedGc::Barrier { .. }) => true,
            None => false,
        };
        let checkpoint: Option<(Vec<Ulid>, u64)> = if waiting_gc {
            match self.pipeline.parked_gc.take() {
                Some(ParkedGc::Flush { u_buckets, reply, .. }) => Some((u_buckets, reply)),
                Some(ParkedGc::Barrier { u_buckets, reply, .. }) => Some((u_buckets, reply)),
                None => None,
            }
        } else {
            None
        };
        let waiting = take_waiting(&mut self.pipeline.parked_promote_wal, job.segment_ulid);
        self.pipeline.failed_promotes.push(job);
        let apply_plan = self.take_due_plan();
        WorkerEffects { checkpoint, waiting, closed: None, apply_plan }
    }
}

// ---------------------------------------------------------------------------
// The other results
// ---------------------------------------------------------------------------

/// The first caller waiting for `ulid`.
pub open spec fn first_for(list: Seq<ParkedPromote>, ulid: Ulid, i: int) -> bool {
    0 <= i < list.len() && list[i].ulid == ulid && forall|j: int|
        0 <= j < i ==> (#[trigger] list[j]).ulid != ulid
}

/// Nobody waits for `ulid`.
pub open spec fn none_for(list: Seq<ParkedPromote>, ulid: Ulid) -> bool {
    forall|j: int| 0 <= j < list.len() ==> (#[trigger] list[j]).ulid != ulid
}

/// `slots` answers the first caller waiting for `ulid`, which leaves `before`
/// with the last caller in its place.
pub open spec fn segment_answered(
    before: Seq<ParkedPromote>,
    after: Seq<ParkedPromote>,
    ulid: Ulid,
    slots: Seq<u64>,
) -> bool {
    ||| none_for(before, ulid) && after == before && slots.len() == 0
    ||| exists|i: int| #[trigger]
        first_for(before, ulid, i) && slots == seq![before[i].reply] && after == before.update(
            i,
            before.last(),
        ).drop_last()
}

/// Take the first caller waiting for `ulid` out of `list`.
fn reply_parked_promote_segment(list: &mut Vec<ParkedPromote>, ulid: Ulid) -> (slots: Vec<u64>)
    ensures
        segment_answered(old(list)@, final(list)@, ulid, slots@),
{
    let ghost before = list@;
    let mut i: usize = 0;
    while i < list.len()
        invariant
            i <= list.len(),
            list@ == before,
            before == old(list)@,
            forall|j: int| 0 <= j < i ==> (#[trigger] list[j]).ulid != ulid,
        decreases list.len() - i,
    {
        if list[i].ulid == ulid {
            assert(first_for(before, ulid, i as int));
            let parked = list.swap_remove(i);
            assert(list@ =~= before.update(i as int, before.last()).drop_last());
            let mut slots: Vec<u64> = Vec::new();
            slots.push(parked.reply);
            assert(slots@ =~= seq![before[i as int].reply]);
            return slots;
        }
        i += 1;
    }
    Vec::new()
}

/// What the worker hands back.
#[derive(Clone, Copy, Debug, PartialEq, Eq, Structural)]
pub enum WorkerEvent {
    /// A promote that the worker wrote, with its result applied or the apply
    /// failed.
    PromoteApplied { ulid: Ulid },
    /// A promote that failed on the worker.
    PromoteFailed { job: PromoteJob },
    /// A plan is ready to be applied.
    PlanReady { plan: u64 },
    /// A segment promote, applied or failed.
    SegmentPromoted { ulid: Ulid },
    /// A close pass, applied or failed.
    GenerationClosed,
    /// A snapshot manifest, written or failed.
    ManifestSigned,
    /// A reclaim, applied or failed.
    Reclaimed,
}

/// One slot, where there is one.
pub open spec fn slot_of(slot: Option<u64>) -> Seq<u64> {
    match slot {
        Some(s) => seq![s],
        None => Seq::empty(),
    }
}

fn slots_of(slot: Option<u64>) -> (v: Vec<u64>)
    ensures
        v@ == slot_of(slot),
{
    let mut v: Vec<u64> = Vec::new();
    if let Some(s) = slot {
        v.push(s);
    }
    assert(v@ =~= slot_of(slot));
    v
}

/// A promote that ended leads from `before` to `after`: whoever waited for it
/// is answered, and a plan held back for it is due.
pub open spec fn promote_step(
    before: ActorState,
    ulid: Ulid,
    failed: Option<PromoteJob>,
    after: ActorState,
    effects: WorkerEffects,
) -> bool {
    let due = if failed is Some {
        before.pipeline.fails_gc(ulid)
    } else {
        before.pipeline.satisfies_gc(ulid, before.pipeline.completed_gen + 1)
    };
    &&& gc_taken(before.pipeline.parked_gc, due, effects.checkpoint)
    &&& effects.waiting@ == slots_for(before.pipeline.parked_promote_wal@, ulid)
    &&& effects.closed is None
    &&& effects.apply_plan == before.plan_due()
    &&& after.pipeline.parked_promote_wal@ == others_than(
        before.pipeline.parked_promote_wal@,
        ulid,
    )
    &&& after.pipeline.failed_promotes@ == (match failed {
        Some(job) => before.pipeline.failed_promotes@.push(job),
        None => before.pipeline.failed_promotes@,
    })
    &&& after.pipeline == (PromotePipeline {
        promotes_in_flight: (before.pipeline.promotes_in_flight - 1) as u64,
        completed_gen: (before.pipeline.completed_gen + 1) as u64,
        parked_gc: if due {
            None
        } else {
            before.pipeline.parked_gc
        },
        parked_promote_wal: after.pipeline.parked_promote_wal,
        failed_promotes: after.pipeline.failed_promotes,
        ..before.pipeline
    })
    &&& after.parked == (ParkedOps { deferred_handoff: before.deferred_after(), ..before.parked })
}

/// What a worker result does to the state and leads to.
pub open spec fn worker_step(
    before: ActorState,
    event: WorkerEvent,
    after: ActorState,
    effects: WorkerEffects,
) -> bool {
    match event {
        WorkerEvent::PromoteApplied { ulid } => promote_step(before, ulid, None, after, effects),
        WorkerEvent::PromoteFailed { job } => promote_step(
            before,
            job.segment_ulid,
            Some(job),
            after,
            effects,
        ),
        WorkerEvent::PlanReady { plan } => {
            let now = before.pipeline.promotes_in_flight == 0;
            &&& effects.checkpoint is None && effects.waiting@.len() == 0 && effects.closed is None
            &&& effects.apply_plan == (if now {
                Some(plan)
            } else {
                None
            })
            &&& after.pipeline == before.pipeline
            &&& after.parked == (ParkedOps {
                deferred_handoff: if now {
                    before.parked.deferred_handoff
                } else {
                    Some(plan)
                },
                ..before.parked
            })
        },
        WorkerEvent::SegmentPromoted { ulid } => {
            &&& effects.checkpoint is None && effects.closed is None && effects.apply_plan is None
            &&& segment_answered(
                before.pipeline.parked_promote_segments@,
                after.pipeline.parked_promote_segments@,
                ulid,
                effects.waiting@,
            )
            &&& after.pipeline == (PromotePipeline {
                promote_segments_in_flight: (before.pipeline.promote_segments_in_flight - 1) as u64,
                parked_promote_segments: after.pipeline.parked_promote_segments,
                ..before.pipeline
            })
            &&& after.parked == before.parked
        },
        WorkerEvent::GenerationClosed => {
            &&& effects.checkpoint is None && effects.waiting@.len() == 0 && effects.apply_plan
                is None
            &&& effects.closed == before.parked.close_generation
            &&& after.pipeline == before.pipeline
            &&& after.parked == (ParkedOps { close_generation: None, ..before.parked })
        },
        WorkerEvent::ManifestSigned => {
            &&& effects.checkpoint is None && effects.closed is None && effects.apply_plan is None
            &&& effects.waiting@ == slot_of(before.parked.sign_snapshot_manifest)
            &&& after.pipeline == before.pipeline
            &&& after.parked == (ParkedOps { sign_snapshot_manifest: None, ..before.parked })
        },
        WorkerEvent::Reclaimed => {
            &&& effects.checkpoint is None && effects.closed is None && effects.apply_plan is None
            &&& effects.waiting@ == slot_of(before.parked.reclaim)
            &&& after.pipeline == before.pipeline
            &&& after.parked == (ParkedOps { reclaim: None, ..before.parked })
        },
    }
}

impl ActorState {
    /// The result answers a job that is on the worker.
    pub open spec fn expects(&self, event: WorkerEvent) -> bool {
        match event {
            WorkerEvent::PromoteApplied { .. } => self.pipeline.promotes_in_flight > 0,
            WorkerEvent::PromoteFailed { .. } => self.pipeline.promotes_in_flight > 0,
            WorkerEvent::PlanReady { .. } => self.parked.handoff_in_flight
                && self.parked.deferred_handoff is None,
            WorkerEvent::SegmentPromoted { .. } => self.pipeline.promote_segments_in_flight > 0,
            WorkerEvent::GenerationClosed => true,
            WorkerEvent::ManifestSigned => true,
            WorkerEvent::Reclaimed => true,
        }
    }

    /// Take in one worker result: who is answered, and which plan is to be
    /// applied now. A plan is held back while a promote is in flight, for the
    /// promote may refer to an extent the plan drops.
    pub fn handle_worker_result(&mut self, event: WorkerEvent) -> (effects: WorkerEffects)
        requires
            old(self).wf(),
            old(self).expects(event),
        ensures
            final(self).wf(),
            worker_step(*old(self), event, *final(self), effects),
    {
        match event {
            WorkerEvent::PromoteApplied { ulid } => self.promote_applied(ulid),
            WorkerEvent::PromoteFailed { job } => self.promote_failed(job),
            WorkerEvent::PlanReady { plan } => {
                let apply_plan: Option<u64> = if self.pipeline.promotes_in_flight > 0 {
                    self.parked.deferred_handoff = Some(plan);
                    None
                } else {
                    Some(plan)
                };
                WorkerEffects { checkpoint: None, waiting: Vec::new(), closed: None, apply_plan }
            },
            WorkerEvent::SegmentPromoted { ulid } => {
                self.pipeline.promote_segments_in_flight =
                self.pipeline.promote_segments_in_flight - 1;
                let waiting = reply_parked_promote_segment(
                    &mut self.pipeline.parked_promote_segments,
                    ulid,
                );
                WorkerEffects { checkpoint: None, waiting, closed: None, apply_plan: None }
            },
            WorkerEvent::GenerationClosed => {
                let closed = self.parked.close_generation.take();
                WorkerEffects { checkpoint: None, waiting: Vec::new(), closed, apply_plan: None }
            },
            WorkerEvent::ManifestSigned => {
                let waiting = slots_of(self.parked.sign_snapshot_manifest.take());
                WorkerEffects { checkpoint: None, waiting, closed: None, apply_plan: None }
            },
            WorkerEvent::Reclaimed => {
                let waiting = slots_of(self.parked.reclaim.take());
                WorkerEffects { checkpoint: None, waiting, closed: None, apply_plan: None }
            },
        }
    }

    /// A caller found the log empty: it waits for the stashed promote just
    /// sent again, or is answered now where there was none.
    pub fn park_empty_promote_wal(&mut self, retried: Option<Ulid>, reply: u64) -> (now: Option<
        u64,
    >)
        requires
            old(self).wf(),
        ensures
            final(self).wf(),
            retried is None ==> now == Some(reply) && *final(self) == *old(self),
            retried matches Some(ulid) ==> now is None
                && final(self).pipeline.parked_promote_wal@ == old(
                self,
            ).pipeline.parked_promote_wal@.push((ParkedPromote { ulid, reply })),
            final(self).pipeline == (PromotePipeline {
                parked_promote_wal: final(self).pipeline.parked_promote_wal,
                ..old(self).pipeline
            }),
            final(self).parked == old(self).parked,
    {
        match retried {
            Some(ulid) => {
                self.park_promote_wal(ulid, reply);
                None
            },
            None => Some(reply),
        }
    }

    /// A close pass is on the worker.
    pub fn close_generation_sent(&mut self, reply: u64, rotated: Option<u32>)
        requires
            old(self).wf(),
        ensures
            final(self).wf(),
            final(self).pipeline == old(self).pipeline,
            final(self).parked == (ParkedOps {
                close_generation: Some(ParkedCloseGeneration { reply, rotated }),
                ..old(self).parked
            }),
    {
        self.parked.close_generation = Some(ParkedCloseGeneration { reply, rotated });
    }

    /// A snapshot manifest is on the worker.
    pub fn sign_snapshot_manifest_sent(&mut self, reply: u64)
        requires
            old(self).wf(),
        ensures
            final(self).wf(),
            final(self).pipeline == old(self).pipeline,
            final(self).parked == (ParkedOps {
                sign_snapshot_manifest: Some(reply),
                ..old(self).parked
            }),
    {
        self.parked.sign_snapshot_manifest = Some(reply);
    }

    /// A reclaim is on the worker.
    pub fn reclaim_sent(&mut self, reply: u64)
        requires
            old(self).wf(),
        ensures
            final(self).wf(),
            final(self).pipeline == old(self).pipeline,
            final(self).parked == (ParkedOps { reclaim: Some(reply), ..old(self).parked }),
    {
        self.parked.reclaim = Some(reply);
    }
}

// ---------------------------------------------------------------------------
// Batches of plans
// ---------------------------------------------------------------------------

/// How applying one plan went.
#[derive(Clone, Copy, Debug, PartialEq, Eq, Structural)]
pub enum PlanOutcome {
    Applied,
    Cancelled,
    /// The plan contradicts what the volume reads: the rest of its batch is
    /// suspect.
    Diverged,
    Failed,
}

/// What follows in a batch of plans.
#[derive(Clone, Copy, Debug, PartialEq, Eq, Structural)]
pub enum BatchStep {
    /// No batch is under way.
    Idle,
    /// Read this plan and send it.
    Dispatch(PlanRef),
    /// The batch is over: its caller, if any, is told how many were applied,
    /// or that it failed.
    Over { reply: Option<u64>, applied: Option<u64> },
}

/// Take the next plan of `batch`, the last of those that remain, or end it.
pub open spec fn batch_next(
    batch: ParkedGcHandoffs,
    after: Option<ParkedGcHandoffs>,
    step: BatchStep,
) -> bool {
    if batch.remaining@.len() == 0 {
        after is None && step == (BatchStep::Over {
            reply: batch.reply,
            applied: Some(batch.applied_count),
        })
    } else {
        after matches Some(rest) && rest.remaining@ == batch.remaining@.drop_last() && rest.reply
            == batch.reply && rest.applied_count == batch.applied_count && step
            == BatchStep::Dispatch(batch.remaining@.last())
    }
}

impl ActorState {
    /// Take the next plan of the batch, or end it. Also where a plan turned
    /// out unreadable and is passed over.
    pub fn dispatch_next_handoff(&mut self) -> (step: BatchStep)
        requires
            old(self).wf(),
        ensures
            final(self).wf(),
            final(self).pipeline == old(self).pipeline,
            final(self).parked == (ParkedOps {
                handoffs: final(self).parked.handoffs,
                ..old(self).parked
            }),
            match old(self).parked.handoffs {
                None => step is Idle && final(self).parked.handoffs is None,
                Some(batch) => batch_next(batch, final(self).parked.handoffs, step),
            },
    {
        match self.parked.handoffs.take() {
            None => BatchStep::Idle,
            Some(batch) => {
                let mut batch = batch;
                match batch.remaining.pop() {
                    Some(plan) => {
                        self.parked.handoffs = Some(batch);
                        BatchStep::Dispatch(plan)
                    },
                    None => BatchStep::Over {
                        reply: batch.reply,
                        applied: Some(batch.applied_count),
                    },
                }
            },
        }
    }

    /// Begin a batch of plans.
    pub fn start_gc_handoffs(
        &mut self,
        to_process: Vec<PlanRef>,
        already_applied: u64,
        reply: Option<u64>,
    ) -> (step: BatchStep)
        requires
            old(self).wf(),
            old(self).parked.handoffs is None,
        ensures
            final(self).wf(),
            final(self).pipeline == old(self).pipeline,
            final(self).parked == (ParkedOps {
                handoffs: final(self).parked.handoffs,
                ..old(self).parked
            }),
            batch_next(
                ParkedGcHandoffs { remaining: to_process, reply, applied_count: already_applied },
                final(self).parked.handoffs,
                step,
            ),
    {
        self.parked.handoffs =
        Some(ParkedGcHandoffs { remaining: to_process, reply, applied_count: already_applied });
        self.dispatch_next_handoff()
    }

    /// The plan is on the worker.
    pub fn handoff_sent(&mut self)
        requires
            old(self).wf(),
        ensures
            final(self).wf(),
            final(self).pipeline == old(self).pipeline,
            final(self).parked == (ParkedOps { handoff_in_flight: true, ..old(self).parked }),
    {
        self.parked.handoff_in_flight = true;
    }

    /// The plan could not be sent: the batch ends in failure.
    pub fn handoff_unsent(&mut self) -> (step: BatchStep)
        requires
            old(self).wf(),
        ensures
            final(self).wf(),
            final(self).pipeline == old(self).pipeline,
            final(self).parked == (ParkedOps { handoffs: None, ..old(self).parked }),
            step == (match old(self).parked.handoffs {
                None => BatchStep::Idle,
                Some(batch) => BatchStep::Over { reply: batch.reply, applied: None },
            }),
    {
        match self.parked.handoffs.take() {
            None => BatchStep::Idle,
            Some(batch) => BatchStep::Over { reply: batch.reply, applied: None },
        }
    }

    /// A plan is done with: applied, cancelled or failed. The batch goes on
    /// with its next plan, or ends.
    pub fn handoff_finished(&mut self, outcome: PlanOutcome) -> (step: BatchStep)
        requires
            old(self).wf(),
            old(self).parked.deferred_handoff is None,
            old(self).parked.handoffs matches Some(batch) ==> batch.applied_count < u64::MAX,
        ensures
            final(self).wf(),
            final(self).pipeline == old(self).pipeline,
            final(self).parked == (ParkedOps {
                handoffs: final(self).parked.handoffs,
                handoff_in_flight: false,
                ..old(self).parked
            }),
            match old(self).parked.handoffs {
                None => step is Idle && final(self).parked.handoffs is None,
                Some(batch) => match outcome {
                    PlanOutcome::Applied => batch_next(
                        (ParkedGcHandoffs {
                            applied_count: (batch.applied_count + 1) as u64,
                            ..batch
                        }),
                        final(self).parked.handoffs,
                        step,
                    ),
                    PlanOutcome::Cancelled => batch_next(
                        batch,
                        final(self).parked.handoffs,
                        step,
                    ),
                    PlanOutcome::Diverged => final(self).parked.handoffs is None && step == (
                    BatchStep::Over { reply: batch.reply, applied: Some(batch.applied_count) }),
                    PlanOutcome::Failed => final(self).parked.handoffs is None && step == (
                    BatchStep::Over { reply: batch.reply, applied: None }),
                },
            },
    {
        self.parked.handoff_in_flight = false;
        match self.parked.handoffs.take() {
            None => BatchStep::Idle,
            Some(batch) => {
                let mut batch = batch;
                match outcome {
                    PlanOutcome::Applied => {
                        batch.applied_count = batch.applied_count + 1;
                        self.parked.handoffs = Some(batch);
                        self.dispatch_next_handoff()
                    },
                    PlanOutcome::Cancelled => {
                        self.parked.handoffs = Some(batch);
                        self.dispatch_next_handoff()
                    },
                    PlanOutcome::Diverged => BatchStep::Over {
                        reply: batch.reply,
                        applied: Some(batch.applied_count),
                    },
                    PlanOutcome::Failed => BatchStep::Over { reply: batch.reply, applied: None },
                }
            },
        }
    }
}

// ---------------------------------------------------------------------------
// The worker's promotes
// ---------------------------------------------------------------------------

/// The stored bytes of the data entries among the first of `entries`.
pub open spec fn data_bytes(entries: Seq<SegmentEntry>) -> int
    decreases entries.len(),
{
    if entries.len() == 0 {
        0
    } else {
        data_bytes(entries.drop_last()) + (if entries.last().kind is Data {
            entries.last().stored_length as int
        } else {
            0
        })
    }
}

proof fn lemma_data_bytes(entries: Seq<SegmentEntry>)
    ensures
        0 <= data_bytes(entries) <= entries.len() * 0xffff_ffff,
    decreases entries.len(),
{
    if entries.len() > 0 {
        lemma_data_bytes(entries.drop_last());
    }
}

/// Where a promoted segment's delta region starts: past the bodies of its
/// data entries, where it has deltas at all.
pub fn delta_region_body_length(entries: &Vec<SegmentEntry>, delta_body_len: usize) -> (n: u64)
    requires
        entries@.len() <= 0xffff_ffff,
    ensures
        n == (if delta_body_len == 0 {
            0
        } else {
            data_bytes(entries@)
        }),
{
    if delta_body_len == 0 {
        return 0;
    }
    let mut n: u64 = 0;
    let mut i: usize = 0;
    while i < entries.len()
        invariant
            i <= entries.len() <= 0xffff_ffff,
            n == data_bytes(entries@.take(i as int)),
        decreases entries.len() - i,
    {
        proof {
            let here = entries@.take(i as int + 1);
            assert(here.drop_last() =~= entries@.take(i as int));
            lemma_data_bytes(here);
            assert(here.len() * 0xffff_ffff <= 0xffff_ffff * 0xffff_ffff) by (nonlinear_arith)
                requires
                    here.len() <= 0xffff_ffff,
            ;
        }
        match entries[i].kind {
            EntryKind::Data => {
                n = n + entries[i].stored_length as u64;
            },
            _ => {},
        }
        i += 1;
    }
    assert(entries@.take(entries@.len() as int) =~= entries@);
    n
}

/// What promoting a segment writes.
#[derive(Clone, Copy, Debug, PartialEq, Eq, Structural)]
pub enum PromoteShape {
    /// Nothing: the segment only says that its inputs may go.
    Tombstone,
    /// The index and the body; and whether the inline section is read for the
    /// apply.
    Segment { reads_inline: bool },
}

/// What promoting `parsed` writes. A collection's output with inputs and no
/// entries is a tombstone; a drain needs the inline bytes of its inline
/// entries.
pub fn execute_promote_segment(is_drain: bool, parsed: &ParsedSegment) -> (shape: PromoteShape)
    ensures
        shape == (if !is_drain && parsed.entries@.len() == 0 && parsed.inputs@.len() > 0 {
            PromoteShape::Tombstone
        } else {
            PromoteShape::Segment {
                reads_inline: is_drain && exists|i: int|
                    0 <= i < parsed.entries@.len() && (#[trigger] parsed.entries@[i]).kind
                        is Inline,
            }
        }),
{
    if !is_drain && parsed.entries.len() == 0 && parsed.inputs.len() > 0 {
        return PromoteShape::Tombstone;
    }
    if !is_drain {
        return PromoteShape::Segment { reads_inline: false };
    }
    let mut i: usize = 0;
    while i < parsed.entries.len()
        invariant
            is_drain,
            i <= parsed.entries.len(),
            forall|j: int| 0 <= j < i ==> !((#[trigger] parsed.entries@[j]).kind is Inline),
        decreases parsed.entries.len() - i,
    {
        if let EntryKind::Inline = parsed.entries[i].kind {
            assert(parsed.entries@[i as int].kind is Inline);
            return PromoteShape::Segment { reads_inline: true };
        }
        i += 1;
    }
    PromoteShape::Segment { reads_inline: false }
}

/// A step of writing a promoted segment.
#[derive(Clone, Copy, Debug, PartialEq, Eq, Structural)]
pub enum PromoteStage {
    /// Sync the log, so that the segment replaces durable writes.
    SyncWal,
    /// Read the bodies of the pending writes back from the log.
    ReadBodies,
    /// Look for the latest snapshot.
    ProbeSnapshot,
    /// Build the map of that snapshot's sources.
    LoadSources,
    /// Make deltas against the same blocks of the snapshot.
    DeltaAgainstPrior,
    /// Make deltas against what resembles the rest.
    DeltaByResemblance,
    /// Write the segment.
    WritePrimary,
    /// Write the journal's share as a segment of its own.
    WriteJournal,
    Done,
    Failed,
}

/// How a step went.
#[derive(Clone, Copy, Debug, PartialEq, Eq, Structural)]
pub enum StageOutcome {
    Went,
    /// It found nothing to work on.
    Nothing,
    Failed,
}

/// What a promote has to work on.
#[derive(Clone, Copy, Debug, PartialEq, Eq, Structural)]
pub struct PromoteWork {
    pub deltas: bool,
    pub has_prior: bool,
    pub has_pendings: bool,
    pub has_journal: bool,
}

/// The step that writes what there is to write.
pub open spec fn first_write(work: PromoteWork) -> PromoteStage {
    if work.has_pendings {
        PromoteStage::WritePrimary
    } else if work.has_journal {
        PromoteStage::WriteJournal
    } else {
        PromoteStage::Done
    }
}

/// The step after a step that went as it did.
pub open spec fn stage_after(
    stage: PromoteStage,
    outcome: StageOutcome,
    work: PromoteWork,
) -> PromoteStage {
    match stage {
        // What only a delta would be made from may be missing.
        PromoteStage::ProbeSnapshot => if outcome is Went {
            PromoteStage::LoadSources
        } else {
            PromoteStage::DeltaByResemblance
        },
        PromoteStage::LoadSources => if outcome is Went {
            PromoteStage::DeltaAgainstPrior
        } else {
            PromoteStage::DeltaByResemblance
        },
        PromoteStage::Done => PromoteStage::Done,
        PromoteStage::Failed => PromoteStage::Failed,
        _ => if outcome is Failed {
            PromoteStage::Failed
        } else {
            match stage {
                PromoteStage::SyncWal => PromoteStage::ReadBodies,
                PromoteStage::ReadBodies => if !work.deltas {
                    first_write(work)
                } else if work.has_prior {
                    PromoteStage::ProbeSnapshot
                } else {
                    PromoteStage::DeltaByResemblance
                },
                PromoteStage::DeltaAgainstPrior => PromoteStage::DeltaByResemblance,
                PromoteStage::DeltaByResemblance => first_write(work),
                PromoteStage::WritePrimary => if work.has_journal {
                    PromoteStage::WriteJournal
                } else {
                    PromoteStage::Done
                },
                _ => PromoteStage::Done,
            }
        },
    }
}

/// The step after a step that went as it did.
pub fn write_promote(stage: PromoteStage, outcome: StageOutcome, work: PromoteWork) -> (next:
    PromoteStage)
    ensures
        next == stage_after(stage, outcome, work),
{
    let write = if work.has_pendings {
        PromoteStage::WritePrimary
    } else if work.has_journal {
        PromoteStage::WriteJournal
    } else {
        PromoteStage::Done
    };
    match (stage, outcome) {
        (PromoteStage::ProbeSnapshot, StageOutcome::Went) => PromoteStage::LoadSources,
        (PromoteStage::ProbeSnapshot, _) => PromoteStage::DeltaByResemblance,
        (PromoteStage::LoadSources, StageOutcome::Went) => PromoteStage::DeltaAgainstPrior,
        (PromoteStage::LoadSources, _) => PromoteStage::DeltaByResemblance,
        (PromoteStage::Done, _) => PromoteStage::Done,
        (PromoteStage::Failed, _) => PromoteStage::Failed,
        (_, StageOutcome::Failed) => PromoteStage::Failed,
        (PromoteStage::SyncWal, _) => PromoteStage::ReadBodies,
        (PromoteStage::ReadBodies, _) => {
            if !work.deltas {
                write
            } else if work.has_prior {
                PromoteStage::ProbeSnapshot
            } else {
                PromoteStage::DeltaByResemblance
            }
        },
        (PromoteStage::DeltaAgainstPrior, _) => PromoteStage::DeltaByResemblance,
        (PromoteStage::DeltaByResemblance, _) => write,
        (PromoteStage::WritePrimary, _) => {
            if work.has_journal {
                PromoteStage::WriteJournal
            } else {
                PromoteStage::Done
            }
        },
        (PromoteStage::WriteJournal, _) => PromoteStage::Done,
    }
}

/// A segment that a promote wrote.
pub struct WrittenSegment {
    pub segment_ulid: Ulid,
    pub body_section_start: u64,
    pub entries: Vec<SegmentEntry>,
}

/// What a promote comes to.
pub struct PromoteResult {
    /// The promote's segment. Without entries where the whole epoch was the
    /// journal's: then no such segment was written.
    pub primary: WrittenSegment,
    pub old_wal_ulid: Ulid,
    /// Where the segment's delta region starts, or 0 where it has none.
    pub delta_region_body_length: u64,
    /// The journal's share, a segment of its own.
    pub journal: Option<WrittenSegment>,
}

/// The result of a promote of `segment_ulid`, from where the body section of
/// its segment starts and the entries it was written with.
pub fn promote_result(
    segment_ulid: Ulid,
    old_wal_ulid: Ulid,
    written: Option<(u64, Vec<SegmentEntry>)>,
    delta_body_len: usize,
    journal: Option<WrittenSegment>,
) -> (result: PromoteResult)
    requires
        written matches Some((_, entries)) ==> entries@.len() <= 0xffff_ffff,
    ensures
        result.primary.segment_ulid == segment_ulid,
        result.old_wal_ulid == old_wal_ulid,
        match written {
            Some((start, entries)) => result.primary.body_section_start == start
                && result.primary.entries@ == entries@,
            None => result.primary.body_section_start == 0 && result.primary.entries@.len() == 0,
        },
        result.delta_region_body_length == (if delta_body_len == 0 {
            0
        } else {
            data_bytes(result.primary.entries@)
        }),
        result.journal == journal,
{
    let (body_section_start, entries) = match written {
        Some(parts) => parts,
        None => (0, Vec::new()),
    };
    let delta_region_body_length: u64 = delta_region_body_length(&entries, delta_body_len);
    PromoteResult {
        primary: WrittenSegment { segment_ulid, body_section_start, entries },
        old_wal_ulid,
        delta_region_body_length,
        journal,
    }
}

// ---------------------------------------------------------------------------
// Laws
// ---------------------------------------------------------------------------

/// Whether the parked checkpoint has been answered once the promotes of
/// `ulids` have been applied one after the other.
pub open spec fn answered_by(
    parked_gc: Option<ParkedGc>,
    completed_gen: int,
    ulids: Seq<Ulid>,
) -> bool
    decreases ulids.len(),
{
    if ulids.len() == 0 {
        parked_gc is None
    } else {
        answered_by(parked_gc, completed_gen, ulids.drop_last()) || match parked_gc {
            Some(ParkedGc::Flush { u_flush, .. }) => u_flush == ulids.last(),
            Some(ParkedGc::Barrier { needed_gen, .. }) => needed_gen <= completed_gen
                + ulids.len(),
            None => true,
        }
    }
}

/// A checkpoint that found the log empty is answered by the apply of the last
/// promote sent before it: not while one of them is in flight, and by then at
/// the latest, whatever those promotes are.
pub proof fn law_barrier_waits_for_earlier_promotes(
    pipeline: PromotePipeline,
    u_buckets: Vec<Ulid>,
    reply: u64,
    ulids: Seq<Ulid>,
)
    requires
        pipeline.wf(),
        pipeline.promotes_in_flight > 0,
    ensures
        answered_by(
            Some(ParkedGc::Barrier { u_buckets, needed_gen: pipeline.promote_gen, reply }),
            pipeline.completed_gen as int,
            ulids,
        ) <==> ulids.len() >= pipeline.promotes_in_flight,
    decreases ulids.len(),
{
    if ulids.len() > 0 {
        law_barrier_waits_for_earlier_promotes(pipeline, u_buckets, reply, ulids.drop_last());
    }
}

/// A checkpoint that flushed the log is answered by the apply of its own
/// promote and by no other.
pub proof fn law_flush_waits_for_its_promote(
    completed_gen: int,
    u_buckets: Vec<Ulid>,
    u_flush: Ulid,
    reply: u64,
    ulids: Seq<Ulid>,
)
    ensures
        answered_by(
            Some(ParkedGc::Flush { u_buckets, u_flush, reply }),
            completed_gen,
            ulids,
        ) <==> ulids.contains(u_flush),
    decreases ulids.len(),
{
    if ulids.len() > 0 {
        law_flush_waits_for_its_promote(
            completed_gen,
            u_buckets,
            u_flush,
            reply,
            ulids.drop_last(),
        );
        assert(ulids =~= ulids.drop_last().push(ulids.last()));
        if ulids.contains(u_flush) && ulids.last() != u_flush {
            let i = choose|i: int| 0 <= i < ulids.len() && ulids[i] == u_flush;
            assert(ulids.drop_last()[i] == u_flush);
        }
        if ulids.drop_last().contains(u_flush) {
            let i = choose|i: int|
                0 <= i < ulids.drop_last().len() && ulids.drop_last()[i] == u_flush;
            assert(ulids[i] == u_flush);
        }
        if ulids.last() == u_flush {
            assert(ulids[ulids.len() - 1] == u_flush);
        }
    }
}

/// No plan is applied while a promote is in flight: one that becomes ready
/// then is held back, and comes out with the last of them.
pub proof fn law_plans_wait_for_promotes(
    before: ActorState,
    event: WorkerEvent,
    after: ActorState,
    effects: WorkerEffects,
)
    requires
        before.wf(),
        before.expects(event),
        worker_step(before, event, after, effects),
    ensures
        effects.apply_plan is Some ==> after.pipeline.promotes_in_flight == 0,
        before.parked.deferred_handoff is Some && after.pipeline.promotes_in_flight == 0
            ==> effects.apply_plan == before.parked.deferred_handoff,
        before.parked.deferred_handoff is Some && after.pipeline.promotes_in_flight > 0
            ==> after.parked.deferred_handoff == before.parked.deferred_handoff,
{
}

/// A promote does not fail for want of what a delta would be made from: only
/// syncing, reading the bodies, converting and writing can fail it.
pub proof fn law_missing_sources_fail_no_promote(
    stage: PromoteStage,
    outcome: StageOutcome,
    work: PromoteWork,
)
    ensures
        stage_after(stage, outcome, work) is Failed <==> stage is Failed || (outcome is Failed && (
        stage is SyncWal || stage is ReadBodies || stage is DeltaAgainstPrior
            || stage is DeltaByResemblance || stage is WritePrimary || stage is WriteJournal)),
{
}

/// A request of which one runs at a time is refused just while its caller's
/// predecessor waits, and the actor stops just where it is told to or where
/// nobody can reach it.
pub proof fn law_one_of_a_kind_at_a_time(state: ActorState, event: LoopEvent)
    ensures
        state.step_of(event) is Stop <==> event is NoCallers || event is Shutdown,
        state.step_of(event) is DispatchPromote <==> event == (LoopEvent::CheckPromote {
            needed: true,
        }),
        state.step_of(LoopEvent::Exclusive(ExclusiveRequest::ApplyGcHandoffs)) == (
        if state.parked.handoffs is None {
            LoopStep::Start(ExclusiveRequest::ApplyGcHandoffs)
        } else {
            LoopStep::Refuse(ExclusiveRequest::ApplyGcHandoffs)
        }),
        state.step_of(LoopEvent::Exclusive(ExclusiveRequest::CloseGeneration)) == (
        if state.parked.close_generation is None {
            LoopStep::Start(ExclusiveRequest::CloseGeneration)
        } else {
            LoopStep::Refuse(ExclusiveRequest::CloseGeneration)
        }),
        state.step_of(LoopEvent::Exclusive(ExclusiveRequest::GcCheckpoint)) == (
        if state.pipeline.parked_gc is None {
            LoopStep::Start(ExclusiveRequest::GcCheckpoint)
        } else {
            LoopStep::Refuse(ExclusiveRequest::GcCheckpoint)
        }),
        state.step_of(LoopEvent::Exclusive(ExclusiveRequest::SignSnapshotManifest)) == (
        if state.parked.sign_snapshot_manifest is None {
            LoopStep::Start(ExclusiveRequest::SignSnapshotManifest)
        } else {
            LoopStep::Refuse(ExclusiveRequest::SignSnapshotManifest)
        }),
        state.step_of(LoopEvent::Exclusive(ExclusiveRequest::Reclaim)) == (
        if state.parked.reclaim is None {
            LoopStep::Start(ExclusiveRequest::Reclaim)
        } else {
            LoopStep::Refuse(ExclusiveRequest::Reclaim)
        }),
        state.step_of(LoopEvent::WorkerResult) is TakeResult,
        state.step_of(LoopEvent::IdleTick) is PromoteThenHandoffs,
{
}

/// A result that ends an operation of which one runs at a time answers its
/// caller, and the next request of the kind may start.
pub proof fn law_an_ended_operation_makes_room(
    before: ActorState,
    event: WorkerEvent,
    after: ActorState,
    effects: WorkerEffects,
)
    requires
        worker_step(before, event, after, effects),
    ensures
        event is GenerationClosed ==> effects.closed == before.parked.close_generation
            && after.step_of(LoopEvent::Exclusive(ExclusiveRequest::CloseGeneration)) is Start,
        event is ManifestSigned ==> after.step_of(
            LoopEvent::Exclusive(ExclusiveRequest::SignSnapshotManifest),
        ) is Start && (before.parked.sign_snapshot_manifest matches Some(reply)
            ==> effects.waiting@ == seq![reply]),
        event is Reclaimed ==> after.step_of(LoopEvent::Exclusive(ExclusiveRequest::Reclaim))
            is Start && (before.parked.reclaim matches Some(reply) ==> effects.waiting@
            == seq![reply]),
        !(event is GenerationClosed) ==> after.parked.close_generation
            == before.parked.close_generation && effects.closed is None,
        !(event is ManifestSigned) ==> after.parked.sign_snapshot_manifest
            == before.parked.sign_snapshot_manifest,
        !(event is Reclaimed) ==> after.parked.reclaim == before.parked.reclaim,
        after.parked.handoffs == before.parked.handoffs,
{
}

/// Every promote that ends, well or not, leaves the count of those in flight
/// and is counted as finished; one that failed is stashed behind those that
/// failed before, to be tried again, and no other is.
pub proof fn law_a_failed_promote_is_kept(
    before: ActorState,
    event: WorkerEvent,
    after: ActorState,
    effects: WorkerEffects,
)
    requires
        before.wf(),
        before.expects(event),
        worker_step(before, event, after, effects),
    ensures
        event is PromoteApplied || event is PromoteFailed ==> after.pipeline.promotes_in_flight + 1
            == before.pipeline.promotes_in_flight && after.pipeline.completed_gen
            == before.pipeline.completed_gen + 1,
        !(event is PromoteApplied) && !(event is PromoteFailed) ==> after.pipeline.promotes_in_flight
            == before.pipeline.promotes_in_flight && after.pipeline.completed_gen
            == before.pipeline.completed_gen,
        after.pipeline.promote_gen == before.pipeline.promote_gen,
        event matches WorkerEvent::PromoteFailed { job } ==> after.pipeline.failed_promotes@
            == before.pipeline.failed_promotes@.push(job),
        !(event is PromoteFailed) ==> after.pipeline.failed_promotes@
            == before.pipeline.failed_promotes@,
{
}

/// A parked checkpoint is answered once, with what it waited with, or waits
/// on. A promote that failed fails a checkpoint that waits for it, and one that
/// waits for every promote sent; a promote that went well ends the first by
/// name and the second with the last promote it waits for.
pub proof fn law_a_checkpoint_is_answered_or_waits(
    before: ActorState,
    event: WorkerEvent,
    after: ActorState,
    effects: WorkerEffects,
    gc: ParkedGc,
)
    requires
        worker_step(before, event, after, effects),
        before.pipeline.parked_gc == Some(gc),
    ensures
        effects.checkpoint is Some <==> after.pipeline.parked_gc is None,
        effects.checkpoint is None ==> after.pipeline.parked_gc == Some(gc),
        gc matches ParkedGc::Flush { u_buckets, u_flush, reply } ==> {
            &&& effects.checkpoint is Some <==> event == (WorkerEvent::PromoteApplied {
                ulid: u_flush,
            }) || (event matches WorkerEvent::PromoteFailed { job } && job.segment_ulid == u_flush)
            &&& effects.checkpoint matches Some((buckets, slot)) ==> buckets@ == u_buckets@ && slot
                == reply
        },
        gc matches ParkedGc::Barrier { u_buckets, needed_gen, reply } ==> {
            &&& effects.checkpoint is Some <==> event is PromoteFailed || (event is PromoteApplied
                && before.pipeline.completed_gen + 1 >= needed_gen)
            &&& effects.checkpoint matches Some((buckets, slot)) ==> buckets@ == u_buckets@ && slot
                == reply
        },
{
}

/// No checkpoint is answered that does not wait.
pub proof fn law_no_checkpoint_no_answer(
    before: ActorState,
    event: WorkerEvent,
    after: ActorState,
    effects: WorkerEffects,
)
    requires
        worker_step(before, event, after, effects),
        before.pipeline.parked_gc is None,
    ensures
        effects.checkpoint is None,
        after.pipeline.parked_gc is None,
{
}

/// A segment's promote answers one caller that waits for it, where one does,
/// and no other caller: every other waits on.
pub proof fn law_a_promoted_segment_answers_one(
    before: ActorState,
    ulid: Ulid,
    after: ActorState,
    effects: WorkerEffects,
)
    requires
        worker_step(before, WorkerEvent::SegmentPromoted { ulid }, after, effects),
    ensures
        ({
            let was = before.pipeline.parked_promote_segments@;
            let now = after.pipeline.parked_promote_segments@;
            &&& (exists|i: int| 0 <= i < was.len() && (#[trigger] was[i]).ulid == ulid)
                ==> effects.waiting@.len() == 1 && now.len() + 1 == was.len() && was.contains(
                (ParkedPromote { ulid, reply: effects.waiting@[0] }),
            )
            &&& !(exists|i: int| 0 <= i < was.len() && (#[trigger] was[i]).ulid == ulid)
                ==> effects.waiting@.len() == 0 && now == was
            &&& forall|i: int|
                0 <= i < was.len() && (#[trigger] was[i]).ulid != ulid ==> now.contains(was[i])
            &&& forall|i: int| 0 <= i < now.len() ==> was.contains(#[trigger] now[i])
        }),
{
    let was = before.pipeline.parked_promote_segments@;
    let now = after.pipeline.parked_promote_segments@;
    if none_for(was, ulid) {
    } else {
        let i = choose|i: int| #[trigger]
            first_for(was, ulid, i) && effects.waiting@ == seq![was[i].reply] && now == was.update(
                i,
                was.last(),
            ).drop_last();
        assert(first_for(was, ulid, i));
        assert(was[i] == (ParkedPromote { ulid, reply: effects.waiting@[0] }));
        assert forall|j: int| 0 <= j < was.len() && (#[trigger] was[j]).ulid
            != ulid implies now.contains(was[j]) by {
            if j == was.len() - 1 {
                assert(now[i] == was[j]);
            } else {
                assert(now[j] == was[j]);
            }
        }
        assert forall|j: int| 0 <= j < now.len() implies was.contains(#[trigger] now[j]) by {
            if j == i {
                assert(now[j] == was[was.len() - 1]);
            } else {
                assert(now[j] == was[j]);
            }
        }
    }
}

/// A batch sends each of its plans once and is over when none is left: what it
/// sends and what remains are what there was.
pub proof fn law_a_batch_sends_every_plan(
    batch: ParkedGcHandoffs,
    after: Option<ParkedGcHandoffs>,
    step: BatchStep,
)
    requires
        batch_next(batch, after, step),
    ensures
        step is Over <==> batch.remaining@.len() == 0,
        step is Over <==> after is None,
        step matches BatchStep::Dispatch(plan) ==> after is Some && (after->0).remaining@.push(plan)
            == batch.remaining@ && (after->0).reply == batch.reply && (after->0).applied_count
            == batch.applied_count,
        step matches BatchStep::Over { reply, applied } ==> reply == batch.reply && applied == Some(
            batch.applied_count,
        ),
        !(step is Idle),
{
    if batch.remaining@.len() > 0 {
        assert(batch.remaining@.drop_last().push(batch.remaining@.last()) =~= batch.remaining@);
    }
}

/// The delta region starts past every data body: the bodies of a run of
/// entries take what its parts take, a data entry its stored bytes, and any
/// other nothing.
pub proof fn law_data_bodies_add_up(front: Seq<SegmentEntry>, back: Seq<SegmentEntry>)
    ensures
        data_bytes(front + back) == data_bytes(front) + data_bytes(back),
        forall|e: SegmentEntry| #[trigger]
            data_bytes(seq![e]) == (if e.kind is Data {
                e.stored_length as int
            } else {
                0
            }),
    decreases back.len(),
{
    assert forall|e: SegmentEntry| #[trigger]
        data_bytes(seq![e]) == (if e.kind is Data {
            e.stored_length as int
        } else {
            0
        }) by {
        assert(seq![e].drop_last() =~= Seq::<SegmentEntry>::empty());
        assert(data_bytes(Seq::<SegmentEntry>::empty()) == 0);
    }
    if back.len() == 0 {
        assert(front + back =~= front);
    } else {
        law_data_bodies_add_up(front, back.drop_last());
        assert((front + back).drop_last() =~= front + back.drop_last());
    }
}

/// A promote is done only once all there is to write is written: its segment
/// where it has entries, and then the journal's where it has a share.
pub proof fn law_a_promote_writes_all_there_is(
    stage: PromoteStage,
    outcome: StageOutcome,
    work: PromoteWork,
)
    ensures
        ({
            let next = stage_after(stage, outcome, work);
            &&& next is WritePrimary ==> work.has_pendings
            &&& next is WriteJournal ==> work.has_journal && (!work.has_pendings || stage
                is WritePrimary)
            &&& next is Done && !(stage is Done) && work.has_journal ==> stage is WriteJournal
            &&& next is Done && !(stage is Done) && work.has_pendings ==> stage is WritePrimary
                || stage is WriteJournal
            &&& stage is WritePrimary && !(outcome is Failed) ==> next == (if work.has_journal {
                PromoteStage::WriteJournal
            } else {
                PromoteStage::Done
            })
            &&& stage is WriteJournal && !(outcome is Failed) ==> next is Done
        }),
{
}

/// The log is synced and its bodies are read before anything else, and deltas
/// are made only where they are wanted: against the snapshot first, where there
/// is one, and then by resemblance.
pub proof fn law_a_promote_reads_before_it_writes(
    stage: PromoteStage,
    outcome: StageOutcome,
    work: PromoteWork,
)
    ensures
        ({
            let next = stage_after(stage, outcome, work);
            &&& !(next is SyncWal)
            &&& next is ReadBodies <==> stage is SyncWal && !(outcome is Failed)
            &&& next is ProbeSnapshot <==> stage is ReadBodies && !(outcome is Failed)
                && work.deltas && work.has_prior
            &&& next is LoadSources <==> stage is ProbeSnapshot && outcome is Went
            &&& next is DeltaAgainstPrior <==> stage is LoadSources && outcome is Went
            &&& next is DeltaByResemblance <==> (stage is ReadBodies && !(outcome is Failed)
                && work.deltas && !work.has_prior) || ((stage is ProbeSnapshot || stage
                is LoadSources) && !(outcome is Went)) || (stage is DeltaAgainstPrior && !(outcome
                is Failed))
        }),
{
}

/// Any one job that is on the worker, or whose result is held back, is work in
/// flight.
pub proof fn law_any_job_is_work_in_flight(state: ActorState)
    ensures
        state.pipeline.promotes_in_flight > 0 ==> !state.idle(),
        state.pipeline.promote_segments_in_flight > 0 ==> !state.idle(),
        state.parked.handoff_in_flight ==> !state.idle(),
        state.parked.close_generation is Some ==> !state.idle(),
        state.parked.sign_snapshot_manifest is Some ==> !state.idle(),
        state.parked.reclaim is Some ==> !state.idle(),
        state.wf() && state.parked.deferred_handoff is Some ==> !state.idle(),
        state.pipeline.promotes_in_flight == 0 && state.pipeline.promote_segments_in_flight == 0
            && !state.parked.handoff_in_flight && state.parked.close_generation is None
            && state.parked.sign_snapshot_manifest is None && state.parked.reclaim is None
            ==> state.idle(),
{
}

} // verus!
