//! Carrying out a garbage-collection plan, and putting a finished plan or a
//! repack in force: the steps, and what each leads to.

use vstd::prelude::*;

use crate::actor::PlanOutcome;
use crate::hash_set::Blake3HashSet;
use crate::ids::{ContentHash, Ulid};
use crate::repack::claims_in;
use crate::segment::{EntryKind, SegmentEntry};

verus! {

// ---------------------------------------------------------------------------
// Writing a plan's output
// ---------------------------------------------------------------------------

/// Where the writing of a plan's output stands.
#[derive(Clone, Copy, Debug, PartialEq, Eq, Structural)]
pub enum GcApplyStage {
    /// Find the plan's inputs.
    Prepare,
    /// Read the bodies the output holds.
    Materialise,
    /// Read the index of the next input.
    ReadIndex,
    /// Write and sign the output, and read its index back.
    Write,
    Applied,
    /// Given up: an input or a body is not to be had. The plan goes.
    Cancelled,
    Failed,
}

/// How a step went.
pub enum GcApplyEvent {
    Went,
    Cancelled,
    Failed,
    /// The index of the input, with these entries.
    Index(Vec<SegmentEntry>),
    /// The input has no index.
    NoIndex,
    /// The output, with its body section at `body_section_start`.
    Written { body_section_start: u64, entries: Vec<SegmentEntry> },
}

/// The entries of an input that hold an index slot, in order.
pub open spec fn owned_of(entries: Seq<SegmentEntry>, segment: Ulid) -> Seq<
    (ContentHash, EntryKind, Ulid),
>
    decreases entries.len(),
{
    if entries.len() == 0 {
        Seq::empty()
    } else if entries.last().kind.owns_hash() {
        owned_of(entries.drop_last(), segment).push(
            (entries.last().hash, entries.last().kind, segment),
        )
    } else {
        owned_of(entries.drop_last(), segment)
    }
}

/// The hashes of the entries.
pub open spec fn hashes_of(entries: Seq<SegmentEntry>) -> Set<ContentHash> {
    Set::new(|h: ContentHash| exists|i: int| 0 <= i < entries.len() && entries[i].hash == h)
}

/// What the writing of a plan's output has come to.
pub struct GcApplyModel {
    pub stage: GcApplyStage,
    /// Inputs whose index was asked for.
    pub read: int,
    pub owned: Seq<(ContentHash, EntryKind, Ulid)>,
    pub ranges: Seq<(u64, u32)>,
    pub body_section_start: u64,
    pub entries: Seq<SegmentEntry>,
}

/// The event can come of the step.
pub open spec fn event_fits(stage: GcApplyStage, event: GcApplyEvent) -> bool {
    match stage {
        GcApplyStage::Prepare | GcApplyStage::Materialise => event is Went || event is Cancelled
            || event is Failed,
        GcApplyStage::ReadIndex => event is Index || event is NoIndex || event is Failed,
        GcApplyStage::Write => event is Written || event is Failed,
        _ => false,
    }
}

/// The step that follows once `read` of the inputs' indexes were asked for.
pub open spec fn reading_stage(read: int, inputs: Seq<Ulid>) -> GcApplyStage {
    if read < inputs.len() {
        GcApplyStage::ReadIndex
    } else {
        GcApplyStage::Write
    }
}

/// What an event makes of the writing of a plan's output.
pub open spec fn gc_apply_after(
    m: GcApplyModel,
    inputs: Seq<Ulid>,
    event: GcApplyEvent,
) -> GcApplyModel {
    match event {
        GcApplyEvent::Went => GcApplyModel {
            stage: if m.stage is Prepare {
                GcApplyStage::Materialise
            } else {
                reading_stage(m.read, inputs)
            },
            ..m
        },
        GcApplyEvent::Cancelled => GcApplyModel { stage: GcApplyStage::Cancelled, ..m },
        GcApplyEvent::Failed => GcApplyModel { stage: GcApplyStage::Failed, ..m },
        GcApplyEvent::Index(entries) => GcApplyModel {
            stage: reading_stage(m.read + 1, inputs),
            read: m.read + 1,
            owned: m.owned + owned_of(entries@, inputs[m.read]),
            ranges: m.ranges + claims_in(entries@),
            ..m
        },
        GcApplyEvent::NoIndex => GcApplyModel {
            stage: reading_stage(m.read + 1, inputs),
            read: m.read + 1,
            ..m
        },
        GcApplyEvent::Written { body_section_start, entries } => GcApplyModel {
            stage: GcApplyStage::Applied,
            body_section_start,
            entries: entries@,
            ..m
        },
    }
}

/// A plan whose output is being written.
pub struct GcPlanApplyJob {
    inputs: Vec<Ulid>,
    stage: GcApplyStage,
    read: usize,
    input_old_entries: Vec<(ContentHash, EntryKind, Ulid)>,
    input_claim_ranges: Vec<(u64, u32)>,
    body_section_start: u64,
    entries: Vec<SegmentEntry>,
}

/// What comes of a plan.
pub struct GcPlanApplyResult {
    /// The output was written; otherwise the plan was given up.
    pub applied: bool,
    pub inputs: Vec<Ulid>,
    /// The index slots that the inputs held.
    pub input_old_entries: Vec<(ContentHash, EntryKind, Ulid)>,
    /// The block ranges that the inputs claimed.
    pub input_claim_ranges: Vec<(u64, u32)>,
    pub new_bss: u64,
    pub entries: Vec<SegmentEntry>,
    pub entry_hashes: Blake3HashSet,
}

impl View for GcPlanApplyJob {
    type V = GcApplyModel;

    closed spec fn view(&self) -> GcApplyModel {
        GcApplyModel {
            stage: self.stage,
            read: self.read as int,
            owned: self.input_old_entries@,
            ranges: self.input_claim_ranges@,
            body_section_start: self.body_section_start,
            entries: self.entries@,
        }
    }
}

impl GcPlanApplyJob {
    /// The plan's inputs.
    pub closed spec fn plan_inputs(&self) -> Seq<Ulid> {
        self.inputs@
    }

    /// Nothing was read before the bodies were, and nothing written before the
    /// indexes were read.
    pub open spec fn wf(&self) -> bool {
        &&& 0 <= self@.read <= self.plan_inputs().len()
        &&& self@.stage is ReadIndex ==> self@.read < self.plan_inputs().len()
        &&& self@.stage is Write || self@.stage is Applied ==> self@.read
            == self.plan_inputs().len()
        &&& self@.stage is Prepare || self@.stage is Materialise || self@.stage is Cancelled ==> {
            &&& self@.read == 0
            &&& self@.owned.len() == 0
            &&& self@.ranges.len() == 0
        }
        &&& !(self@.stage is Applied) ==> self@.entries.len() == 0 && self@.body_section_start == 0
    }

    /// A plan over these inputs, not begun.
    pub fn new(inputs: Vec<Ulid>) -> (job: Self)
        ensures
            job.wf(),
            job.plan_inputs() == inputs@,
            job@ == (GcApplyModel {
                stage: GcApplyStage::Prepare,
                read: 0,
                owned: Seq::empty(),
                ranges: Seq::empty(),
                body_section_start: 0,
                entries: Seq::empty(),
            }),
    {
        GcPlanApplyJob {
            inputs,
            stage: GcApplyStage::Prepare,
            read: 0,
            input_old_entries: Vec::new(),
            input_claim_ranges: Vec::new(),
            body_section_start: 0,
            entries: Vec::new(),
        }
    }

    /// Where it stands.
    pub fn stage(&self) -> (stage: GcApplyStage)
        ensures
            stage == self@.stage,
    {
        self.stage
    }

    /// The input whose index is read next.
    pub fn next_input(&self) -> (input: Option<Ulid>)
        requires
            self.wf(),
        ensures
            input == (if self@.stage is ReadIndex {
                Some(self.plan_inputs()[self@.read])
            } else {
                None
            }),
    {
        match self.stage {
            GcApplyStage::ReadIndex => Some(self.inputs[self.read]),
            _ => None,
        }
    }

    /// Note what an input's index holds.
    fn gather(&mut self, entries: &Vec<SegmentEntry>)
        requires
            old(self).wf(),
            old(self)@.stage is ReadIndex,
        ensures
            final(self).plan_inputs() == old(self).plan_inputs(),
            final(self)@ == (GcApplyModel {
                owned: old(self)@.owned + owned_of(
                    entries@,
                    old(self).plan_inputs()[old(self)@.read],
                ),
                ranges: old(self)@.ranges + claims_in(entries@),
                ..old(self)@
            }),
    {
        let input = self.inputs[self.read];
        let ghost before = *self;
        let mut n: usize = 0;
        while n < entries.len()
            invariant
                n <= entries.len(),
                self.inputs == before.inputs,
                self.stage == before.stage,
                self.read == before.read,
                self.body_section_start == before.body_section_start,
                self.entries == before.entries,
                self.input_old_entries@ =~= before.input_old_entries@ + owned_of(
                    entries@.take(n as int),
                    input,
                ),
                self.input_claim_ranges@ =~= before.input_claim_ranges@ + claims_in(
                    entries@.take(n as int),
                ),
            decreases entries.len() - n,
        {
            let e = &entries[n];
            assert(entries@.take(n as int + 1).drop_last() =~= entries@.take(n as int));
            if e.kind.owns_extent_hash() {
                self.input_old_entries.push((e.hash, e.kind, input));
            }
            if !e.kind.is_canonical_only() {
                self.input_claim_ranges.push((e.start_lba, e.lba_length));
            }
            n += 1;
        }
        assert(entries@.take(entries@.len() as int) =~= entries@);
    }

    /// Go on to the next input, or to writing.
    fn turn(&mut self)
        requires
            old(self)@.read <= old(self).plan_inputs().len(),
        ensures
            final(self).plan_inputs() == old(self).plan_inputs(),
            final(self)@ == (GcApplyModel {
                stage: reading_stage(old(self)@.read, old(self).plan_inputs()),
                ..old(self)@
            }),
    {
        self.stage =
        if self.read < self.inputs.len() {
            GcApplyStage::ReadIndex
        } else {
            GcApplyStage::Write
        };
    }

    /// What came of the plan.
    pub fn finish(self) -> (result: GcPlanApplyResult)
        requires
            self.wf(),
            self@.stage is Applied || self@.stage is Cancelled,
        ensures
            result.applied == self@.stage is Applied,
            result.inputs@ == self.plan_inputs(),
            result.input_old_entries@ == self@.owned,
            result.input_claim_ranges@ == self@.ranges,
            result.new_bss == self@.body_section_start,
            result.entries@ == self@.entries,
            result.entry_hashes@ == hashes_of(self@.entries),
            !result.applied ==> result.input_old_entries@.len() == 0
                && result.input_claim_ranges@.len() == 0 && result.entries@.len() == 0
                && result.new_bss == 0,
    {
        let mut entry_hashes = Blake3HashSet::new();
        let mut i: usize = 0;
        while i < self.entries.len()
            invariant
                i <= self.entries.len(),
                forall|h: ContentHash| #[trigger]
                    entry_hashes@.contains(h) <==> exists|j: int|
                        0 <= j < i && self.entries@[j].hash == h,
            decreases self.entries.len() - i,
        {
            let ghost before = entry_hashes@;
            entry_hashes.insert(self.entries[i].hash);
            proof {
                assert forall|h: ContentHash| #[trigger]
                    entry_hashes@.contains(h) <==> exists|j: int|
                        0 <= j < i + 1 && self.entries@[j].hash == h by {
                    if h == self.entries@[i as int].hash {
                        assert(self.entries@[i as int].hash == h);
                    } else if before.contains(h) {
                        let j = choose|j: int| 0 <= j < i && self.entries@[j].hash == h;
                        assert(self.entries@[j].hash == h);
                    }
                }
            }
            i += 1;
        }
        assert(entry_hashes@ =~= hashes_of(self.entries@));
        GcPlanApplyResult {
            applied: matches!(self.stage, GcApplyStage::Applied),
            inputs: self.inputs,
            input_old_entries: self.input_old_entries,
            input_claim_ranges: self.input_claim_ranges,
            new_bss: self.body_section_start,
            entries: self.entries,
            entry_hashes,
        }
    }
}

/// Carry the writing of a plan's output on by one event. An input without an
/// index is passed over.
pub fn execute_gc_plan_apply(job: &mut GcPlanApplyJob, event: GcApplyEvent) -> (next: GcApplyStage)
    requires
        old(job).wf(),
        event_fits(old(job)@.stage, event),
    ensures
        final(job).wf(),
        final(job).plan_inputs() == old(job).plan_inputs(),
        final(job)@ == gc_apply_after(old(job)@, old(job).plan_inputs(), event),
        next == final(job)@.stage,
{
    match event {
        GcApplyEvent::Went => {
            if let GcApplyStage::Prepare = job.stage {
                job.stage = GcApplyStage::Materialise;
            } else {
                job.turn();
            }
        },
        GcApplyEvent::Cancelled => {
            job.stage = GcApplyStage::Cancelled;
        },
        GcApplyEvent::Failed => {
            job.stage = GcApplyStage::Failed;
        },
        GcApplyEvent::Index(entries) => {
            assert(job.read < job.inputs.len());
            job.gather(&entries);
            job.read += 1;
            job.turn();
        },
        GcApplyEvent::NoIndex => {
            assert(job.read < job.inputs.len());
            job.read += 1;
            job.turn();
        },
        GcApplyEvent::Written { body_section_start, entries } => {
            job.body_section_start = body_section_start;
            job.entries = entries;
            job.stage = GcApplyStage::Applied;
        },
    }
    job.stage
}

/// How the reading of an index went.
pub open spec fn index_event(found: Option<Vec<SegmentEntry>>) -> GcApplyEvent {
    match found {
        Some(entries) => GcApplyEvent::Index(entries),
        None => GcApplyEvent::NoIndex,
    }
}

/// What the reading of the first `n` indexes makes of a plan.
pub open spec fn after_reading(
    m: GcApplyModel,
    inputs: Seq<Ulid>,
    found: Seq<Option<Vec<SegmentEntry>>>,
    n: int,
) -> GcApplyModel
    decreases n,
{
    if n <= 0 {
        m
    } else {
        gc_apply_after(after_reading(m, inputs, found, n - 1), inputs, index_event(found[n - 1]))
    }
}

/// The slots that the first `n` inputs hold, as far as they have an index.
pub open spec fn slots_held(
    inputs: Seq<Ulid>,
    found: Seq<Option<Vec<SegmentEntry>>>,
    n: int,
) -> Seq<(ContentHash, EntryKind, Ulid)>
    decreases n,
{
    if n <= 0 {
        Seq::empty()
    } else {
        match found[n - 1] {
            Some(entries) => slots_held(inputs, found, n - 1) + owned_of(entries@, inputs[n - 1]),
            None => slots_held(inputs, found, n - 1),
        }
    }
}

/// The ranges that the first `n` inputs claim, as far as they have an index.
pub open spec fn ranges_claimed(found: Seq<Option<Vec<SegmentEntry>>>, n: int) -> Seq<(u64, u32)>
    decreases n,
{
    if n <= 0 {
        Seq::empty()
    } else {
        match found[n - 1] {
            Some(entries) => ranges_claimed(found, n - 1) + claims_in(entries@),
            None => ranges_claimed(found, n - 1),
        }
    }
}

/// Once its bodies are there, a plan reads the index of every input before it
/// writes, and knows then every slot and range of those that have one.
pub proof fn law_a_plan_reads_every_index(
    m: GcApplyModel,
    inputs: Seq<Ulid>,
    found: Seq<Option<Vec<SegmentEntry>>>,
    n: int,
)
    requires
        0 <= n <= inputs.len(),
        found.len() == inputs.len(),
        m.stage is Materialise,
        m.read == 0,
        m.owned.len() == 0,
        m.ranges.len() == 0,
    ensures
        after_reading(gc_apply_after(m, inputs, GcApplyEvent::Went), inputs, found, n) == (
        GcApplyModel {
            stage: if n < inputs.len() {
                GcApplyStage::ReadIndex
            } else {
                GcApplyStage::Write
            },
            read: n,
            owned: slots_held(inputs, found, n),
            ranges: ranges_claimed(found, n),
            ..m
        }),
    decreases n,
{
    if n == 0 {
        assert(m.owned =~= Seq::empty());
        assert(m.ranges =~= Seq::empty());
    } else {
        law_a_plan_reads_every_index(m, inputs, found, n - 1);
    }
}

// ---------------------------------------------------------------------------
// Putting a plan in force
// ---------------------------------------------------------------------------

/// A step of putting a plan's output in force.
#[derive(Clone, Copy, Debug, PartialEq, Eq, Structural)]
pub enum PlanSwapStage {
    /// Take the maps that the plan changes.
    Prepare,
    /// Make the changed maps, with the volume free.
    Fold,
    /// Put the changed maps in place, where nothing has moved meanwhile.
    Swap,
    /// Show readers the new maps.
    Publish,
    /// Remove the output that is not wanted.
    RemoveOutput,
    Over(PlanOutcome),
}

/// How a step went.
#[derive(Clone, Copy, Debug, PartialEq, Eq, Structural)]
pub enum PlanSwapEvent {
    Went,
    /// There is nothing to do for the plan, which ends so.
    Skip(PlanOutcome),
    Cancelled,
    Failed,
}

/// The step after a step that went as it did.
pub open spec fn plan_swap_after(stage: PlanSwapStage, event: PlanSwapEvent) -> PlanSwapStage {
    match stage {
        PlanSwapStage::Over(outcome) => PlanSwapStage::Over(outcome),
        PlanSwapStage::Publish => PlanSwapStage::Over(PlanOutcome::Applied),
        PlanSwapStage::RemoveOutput => PlanSwapStage::Over(PlanOutcome::Cancelled),
        _ => match event {
            PlanSwapEvent::Skip(outcome) => PlanSwapStage::Over(outcome),
            PlanSwapEvent::Failed => PlanSwapStage::Over(PlanOutcome::Failed),
            PlanSwapEvent::Cancelled => if stage is Swap {
                PlanSwapStage::RemoveOutput
            } else {
                PlanSwapStage::Over(PlanOutcome::Cancelled)
            },
            PlanSwapEvent::Went => if stage is Prepare {
                PlanSwapStage::Fold
            } else if stage is Fold {
                PlanSwapStage::Swap
            } else {
                PlanSwapStage::Publish
            },
        },
    }
}

/// The step after a step that went as it did.
pub fn apply_gc_plan(stage: PlanSwapStage, event: PlanSwapEvent) -> (next: PlanSwapStage)
    ensures
        next == plan_swap_after(stage, event),
{
    match (stage, event) {
        (PlanSwapStage::Over(outcome), _) => PlanSwapStage::Over(outcome),
        (PlanSwapStage::Publish, _) => PlanSwapStage::Over(PlanOutcome::Applied),
        (PlanSwapStage::RemoveOutput, _) => PlanSwapStage::Over(PlanOutcome::Cancelled),
        (_, PlanSwapEvent::Skip(outcome)) => PlanSwapStage::Over(outcome),
        (_, PlanSwapEvent::Failed) => PlanSwapStage::Over(PlanOutcome::Failed),
        (PlanSwapStage::Swap, PlanSwapEvent::Cancelled) => PlanSwapStage::RemoveOutput,
        (_, PlanSwapEvent::Cancelled) => PlanSwapStage::Over(PlanOutcome::Cancelled),
        (PlanSwapStage::Prepare, PlanSwapEvent::Went) => PlanSwapStage::Fold,
        (PlanSwapStage::Fold, PlanSwapEvent::Went) => PlanSwapStage::Swap,
        (PlanSwapStage::Swap, PlanSwapEvent::Went) => PlanSwapStage::Publish,
    }
}

/// A plan that did work counts as applied once readers see it, not before.
pub proof fn law_an_applied_plan_was_published(stage: PlanSwapStage, event: PlanSwapEvent)
    requires
        !(stage is Over),
        !(event is Skip),
    ensures
        plan_swap_after(stage, event) == PlanSwapStage::Over(PlanOutcome::Applied) <==> stage
            is Publish,
{
}

// ---------------------------------------------------------------------------
// Putting a repack in force
// ---------------------------------------------------------------------------

/// A step of putting a repack in force.
#[derive(Clone, Copy, Debug, PartialEq, Eq, Structural)]
pub enum RepackApplyStage {
    /// Make the maps that a bucket changes.
    Fold { bucket: usize },
    /// Put them in place.
    Swap { bucket: usize },
    /// Close the pass.
    Finish,
    /// Show readers the new maps.
    Publish,
    /// Unlink the inputs that are no longer read.
    Unlink,
    /// See that they are gone.
    Check,
    Done,
    Failed,
}

/// How a step went.
#[derive(Clone, Copy, Debug, PartialEq, Eq, Structural)]
pub enum RepackApplyEvent {
    Went,
    /// The bucket changes nothing.
    Nothing,
    /// The pass compacted segments and consumed inputs.
    Finished { segments_compacted: u64, consumed_inputs: usize },
    Failed,
}

/// The step from which bucket `bucket` on is put in force.
pub open spec fn from_bucket(bucket: int, buckets: int) -> RepackApplyStage {
    if bucket < buckets {
        RepackApplyStage::Fold { bucket: bucket as usize }
    } else {
        RepackApplyStage::Finish
    }
}

/// The pass changed what readers read.
pub open spec fn changed_maps(event: RepackApplyEvent) -> bool {
    event matches RepackApplyEvent::Finished { segments_compacted, consumed_inputs } && (
    segments_compacted > 0 || consumed_inputs > 0)
}

/// The step after a step that went as it did.
pub open spec fn repack_apply_after(
    stage: RepackApplyStage,
    event: RepackApplyEvent,
    buckets: int,
) -> RepackApplyStage {
    match stage {
        RepackApplyStage::Done => RepackApplyStage::Done,
        RepackApplyStage::Failed => RepackApplyStage::Failed,
        _ => if event is Failed {
            RepackApplyStage::Failed
        } else {
            match stage {
                RepackApplyStage::Fold { bucket } => if event is Went {
                    RepackApplyStage::Swap { bucket }
                } else {
                    from_bucket(bucket + 1, buckets)
                },
                RepackApplyStage::Swap { bucket } => from_bucket(bucket + 1, buckets),
                RepackApplyStage::Finish => if changed_maps(event) {
                    RepackApplyStage::Publish
                } else {
                    RepackApplyStage::Unlink
                },
                RepackApplyStage::Publish => RepackApplyStage::Unlink,
                RepackApplyStage::Unlink => RepackApplyStage::Check,
                _ => RepackApplyStage::Done,
            }
        },
    }
}

/// The step after a step that went as it did. One publish shows readers the
/// whole pass.
pub fn apply_repack_and_publish(
    stage: RepackApplyStage,
    event: RepackApplyEvent,
    buckets: usize,
) -> (next: RepackApplyStage)
    requires
        stage matches RepackApplyStage::Fold { bucket } ==> bucket < buckets,
        stage matches RepackApplyStage::Swap { bucket } ==> bucket < buckets,
    ensures
        next == repack_apply_after(stage, event, buckets as int),
        next matches RepackApplyStage::Fold { bucket } ==> bucket < buckets,
        next matches RepackApplyStage::Swap { bucket } ==> bucket < buckets,
{
    match (stage, event) {
        (RepackApplyStage::Done, _) => RepackApplyStage::Done,
        (RepackApplyStage::Failed, _) => RepackApplyStage::Failed,
        (_, RepackApplyEvent::Failed) => RepackApplyStage::Failed,
        (RepackApplyStage::Fold { bucket }, RepackApplyEvent::Went) => RepackApplyStage::Swap {
            bucket,
        },
        (RepackApplyStage::Fold { bucket }, _) | (RepackApplyStage::Swap { bucket }, _) => {
            if bucket + 1 < buckets {
                RepackApplyStage::Fold { bucket: bucket + 1 }
            } else {
                RepackApplyStage::Finish
            }
        },
        (
            RepackApplyStage::Finish,
            RepackApplyEvent::Finished { segments_compacted, consumed_inputs },
        ) => {
            if segments_compacted > 0 || consumed_inputs > 0 {
                RepackApplyStage::Publish
            } else {
                RepackApplyStage::Unlink
            }
        },
        (RepackApplyStage::Finish, _) => RepackApplyStage::Unlink,
        (RepackApplyStage::Publish, _) => RepackApplyStage::Unlink,
        (RepackApplyStage::Unlink, _) => RepackApplyStage::Check,
        (RepackApplyStage::Check, _) => RepackApplyStage::Done,
    }
}

/// Inputs are unlinked after the publish that takes readers off them, or where
/// the pass changed nothing.
pub proof fn law_inputs_outlive_their_readers(
    stage: RepackApplyStage,
    event: RepackApplyEvent,
    buckets: int,
)
    ensures
        repack_apply_after(stage, event, buckets) is Unlink ==> stage is Publish || (stage is Finish
            && !changed_maps(event)),
{
}

// ---------------------------------------------------------------------------
// More laws
// ---------------------------------------------------------------------------

/// The slots of an input are those of its entries that hold one, each under
/// its hash and kind, and under the input itself.
pub proof fn law_every_slot_of_an_input_is_noted(entries: Seq<SegmentEntry>, segment: Ulid)
    ensures
        forall|i: int|
            #![trigger entries[i]]
            0 <= i < entries.len() && !(entries[i].kind is DedupRef) && !(entries[i].kind is Zero)
                ==> owned_of(entries, segment).contains(
                (entries[i].hash, entries[i].kind, segment),
            ),
        forall|x: int|
            #![trigger owned_of(entries, segment)[x]]
            0 <= x < owned_of(entries, segment).len() ==> is_slot_of(
                owned_of(entries, segment)[x],
                entries,
                segment,
            ),
    decreases entries.len(),
{
    if entries.len() > 0 {
        let before = entries.drop_last();
        law_every_slot_of_an_input_is_noted(before, segment);
        let (was, now) = (owned_of(before, segment), owned_of(entries, segment));
        assert forall|i: int|
            #![trigger entries[i]]
            0 <= i < entries.len() && !(entries[i].kind is DedupRef) && !(entries[i].kind
                is Zero) implies now.contains((entries[i].hash, entries[i].kind, segment)) by {
            if i < before.len() {
                assert(before[i] == entries[i]);
                assert(was.contains((before[i].hash, before[i].kind, segment)));
                let x = choose|x: int|
                    0 <= x < was.len() && was[x] == (before[i].hash, before[i].kind, segment);
                assert(now[x] == was[x]);
            } else {
                assert(now[now.len() - 1] == (entries[i].hash, entries[i].kind, segment));
            }
        }
        assert forall|x: int| #![trigger now[x]] 0 <= x < now.len() implies is_slot_of(
            now[x],
            entries,
            segment,
        ) by {
            if x < was.len() {
                assert(now[x] == was[x]);
                assert(is_slot_of(was[x], before, segment));
                let i = choose|i: int|
                    0 <= i < before.len() && (#[trigger] before[i]).hash == was[x].0
                        && before[i].kind == was[x].1 && !(before[i].kind is DedupRef) && !(
                    before[i].kind is Zero);
                assert(entries[i] == before[i]);
            } else {
                assert(entries[entries.len() - 1].hash == now[x].0);
            }
        }
    }
}

/// The slot is one of an entry of the input.
pub open spec fn is_slot_of(
    slot: (ContentHash, EntryKind, Ulid),
    entries: Seq<SegmentEntry>,
    segment: Ulid,
) -> bool {
    &&& slot.2 == segment
    &&& exists|i: int|
        0 <= i < entries.len() && (#[trigger] entries[i]).hash == slot.0 && entries[i].kind
            == slot.1 && !(entries[i].kind is DedupRef) && !(entries[i].kind is Zero)
}

/// Whatever index is found, every slot and every claimed range of its entries
/// is known once the plan is written.
pub proof fn law_no_slot_or_range_is_missed(
    inputs: Seq<Ulid>,
    found: Seq<Option<Vec<SegmentEntry>>>,
    n: int,
    f: int,
    i: int,
)
    requires
        0 <= f < n <= inputs.len(),
        found.len() == inputs.len(),
        found[f] is Some,
        0 <= i < (found[f]->0)@.len(),
    ensures
        ({
            let e = (found[f]->0)@[i];
            &&& !(e.kind is DedupRef) && !(e.kind is Zero) ==> slots_held(
                inputs,
                found,
                n,
            ).contains((e.hash, e.kind, inputs[f]))
            &&& !(e.kind is CanonicalData) && !(e.kind is CanonicalInline) && !(e.kind
                is CanonicalDelta) ==> ranges_claimed(found, n).contains(
                (e.start_lba, e.lba_length),
            )
        }),
    decreases n,
{
    let e = (found[f]->0)@[i];
    let slot = (e.hash, e.kind, inputs[f]);
    let range = (e.start_lba, e.lba_length);
    let (slots_was, slots) = (slots_held(inputs, found, n - 1), slots_held(inputs, found, n));
    let (ranges_was, ranges) = (ranges_claimed(found, n - 1), ranges_claimed(found, n));
    if f < n - 1 {
        law_no_slot_or_range_is_missed(inputs, found, n - 1, f, i);
        if slots_was.contains(slot) {
            let x = choose|x: int| 0 <= x < slots_was.len() && slots_was[x] == slot;
            assert(slots[x] == slot);
        }
        if ranges_was.contains(range) {
            let x = choose|x: int| 0 <= x < ranges_was.len() && ranges_was[x] == range;
            assert(ranges[x] == range);
        }
    } else {
        let entries = (found[f]->0)@;
        law_every_slot_of_an_input_is_noted(entries, inputs[f]);
        crate::repack::law_owned_and_claimed_are_listed(entries);
        assert(entries[i] == e);
        let more = owned_of(entries, inputs[f]);
        if more.contains(slot) {
            let x = choose|x: int| 0 <= x < more.len() && more[x] == slot;
            assert(slots[slots_was.len() + x] == slot);
        }
        let claims = claims_in(entries);
        if !(e.kind is CanonicalData) && !(e.kind is CanonicalInline) && !(e.kind
            is CanonicalDelta) {
            assert(claims.contains(range));
            let x = choose|x: int| 0 <= x < claims.len() && claims[x] == range;
            assert(ranges[ranges_was.len() + x] == range);
        }
    }
}

/// A step that fails ends the plan as failed, one that is given up as
/// cancelled, and neither writes anything. Only a written output is applied,
/// and then with the entries and the body section that were written.
pub proof fn law_only_a_written_output_is_applied(
    m: GcApplyModel,
    inputs: Seq<Ulid>,
    event: GcApplyEvent,
)
    requires
        event_fits(m.stage, event),
    ensures
        gc_apply_after(m, inputs, event).stage is Applied <==> event is Written,
        event is Written ==> m.stage is Write,
        event is Failed ==> gc_apply_after(m, inputs, event) == (GcApplyModel {
            stage: GcApplyStage::Failed,
            ..m
        }),
        event is Cancelled ==> gc_apply_after(m, inputs, event) == (GcApplyModel {
            stage: GcApplyStage::Cancelled,
            ..m
        }) && (m.stage is Prepare || m.stage is Materialise),
        event matches GcApplyEvent::Written { body_section_start, entries } ==> {
            let after = gc_apply_after(m, inputs, event);
            &&& after.entries == entries@
            &&& after.body_section_start == body_section_start
            &&& after.owned == m.owned && after.ranges == m.ranges && after.read == m.read
        },
        !(event is Written) ==> gc_apply_after(m, inputs, event).entries == m.entries,
{
}

/// A plan whose every step goes well is folded, swapped in, published and then
/// over as applied, in that order.
pub proof fn law_a_plan_goes_in_force_step_by_step()
    ensures
        plan_swap_after(PlanSwapStage::Prepare, PlanSwapEvent::Went) == PlanSwapStage::Fold,
        plan_swap_after(PlanSwapStage::Fold, PlanSwapEvent::Went) == PlanSwapStage::Swap,
        plan_swap_after(PlanSwapStage::Swap, PlanSwapEvent::Went) == PlanSwapStage::Publish,
        forall|event: PlanSwapEvent| #[trigger]
            plan_swap_after(PlanSwapStage::Publish, event) == PlanSwapStage::Over(
                PlanOutcome::Applied,
            ),
{
}

/// Readers are shown the new maps only after they were put in place, and an
/// output that lost the race is removed before the plan counts as cancelled. A
/// plan that is over stays as it ended, and a failure before the swap ends it.
pub proof fn law_a_lost_swap_removes_its_output(stage: PlanSwapStage, event: PlanSwapEvent)
    ensures
        plan_swap_after(stage, event) is Publish <==> stage is Swap && event is Went,
        plan_swap_after(stage, event) is RemoveOutput <==> stage is Swap && event is Cancelled,
        stage is Swap && plan_swap_after(stage, event) == PlanSwapStage::Over(
            PlanOutcome::Cancelled,
        ) ==> event == PlanSwapEvent::Skip(PlanOutcome::Cancelled),
        stage is RemoveOutput ==> plan_swap_after(stage, event) == PlanSwapStage::Over(
            PlanOutcome::Cancelled,
        ),
        stage is Over ==> plan_swap_after(stage, event) == stage,
        event is Failed && (stage is Prepare || stage is Fold || stage is Swap) ==> plan_swap_after(
            stage,
            event,
        ) == PlanSwapStage::Over(PlanOutcome::Failed),
        event is Cancelled && (stage is Prepare || stage is Fold) ==> plan_swap_after(stage, event)
            == PlanSwapStage::Over(PlanOutcome::Cancelled),
        event is Skip && (stage is Prepare || stage is Fold || stage is Swap) ==> plan_swap_after(
            stage,
            event,
        ) == PlanSwapStage::Over(event->Skip_0),
{
}

/// A repack puts its buckets in force one after the other, each where it has
/// anything to change, and closes the pass only after the last of them.
pub proof fn law_every_bucket_is_put_in_force(
    stage: RepackApplyStage,
    event: RepackApplyEvent,
    bucket: usize,
    buckets: int,
)
    requires
        bucket < buckets <= usize::MAX,
        stage == (RepackApplyStage::Fold { bucket }) || stage == (RepackApplyStage::Swap {
            bucket,
        }),
        !(event is Failed),
    ensures
        stage is Fold && event is Went ==> repack_apply_after(stage, event, buckets)
            == (RepackApplyStage::Swap { bucket }),
        stage is Swap || !(event is Went) ==> repack_apply_after(stage, event, buckets) == (
        if bucket + 1 < buckets {
            RepackApplyStage::Fold { bucket: (bucket + 1) as usize }
        } else {
            RepackApplyStage::Finish
        }),
{
}

/// A pass that changed the maps is published before anything is unlinked, what
/// was unlinked is looked after, and a step that fails ends the pass there.
pub proof fn law_a_repack_is_closed_in_order(
    stage: RepackApplyStage,
    event: RepackApplyEvent,
    buckets: int,
)
    ensures
        event is Failed && !(stage is Done) ==> repack_apply_after(stage, event, buckets) is Failed,
        stage is Done ==> repack_apply_after(stage, event, buckets) is Done,
        stage is Finish && (event matches RepackApplyEvent::Finished {
            segments_compacted,
            consumed_inputs,
        } && (segments_compacted > 0 || consumed_inputs > 0)) ==> repack_apply_after(
            stage,
            event,
            buckets,
        ) is Publish,
        stage is Publish && !(event is Failed) ==> repack_apply_after(stage, event, buckets)
            is Unlink,
        stage is Unlink && !(event is Failed) ==> repack_apply_after(stage, event, buckets)
            is Check,
        stage is Check && !(event is Failed) ==> repack_apply_after(stage, event, buckets) is Done,
        repack_apply_after(stage, event, buckets) is Publish ==> stage is Finish,
{
}

/// The steps of a plan's output: the bodies are read once the plan is prepared,
/// then the index of each input in turn, and nothing is written before the last
/// of them was asked for.
pub proof fn law_every_index_is_asked_for(
    m: GcApplyModel,
    inputs: Seq<Ulid>,
    event: GcApplyEvent,
)
    requires
        0 <= m.read <= inputs.len(),
    ensures
        ({
            let after = gc_apply_after(m, inputs, event);
            &&& event is Went && m.stage is Prepare ==> after.stage is Materialise && after.read
                == m.read
            &&& event is Went && !(m.stage is Prepare) ==> after.read == m.read && (after.stage
                is Write <==> m.read == inputs.len())
            &&& event is Index || event is NoIndex ==> after.read == m.read + 1 && (after.stage
                is ReadIndex <==> m.read + 1 < inputs.len())
            &&& after.stage is Write && !(m.stage is Write) && (event is Index || event is NoIndex
                || event is Went) ==> after.read >= inputs.len()
            &&& event is NoIndex ==> after.owned == m.owned && after.ranges == m.ranges
            &&& event matches GcApplyEvent::Index(entries) ==> {
                &&& m.owned.is_prefix_of(after.owned)
                &&& after.owned.len() == m.owned.len() + owned_of(entries@, inputs[m.read]).len()
                &&& m.ranges.is_prefix_of(after.ranges)
            }
        }),
{
}

/// The hashes of some entries are those that an entry has.
pub proof fn law_the_hashes_are_those_of_the_entries(entries: Seq<SegmentEntry>, h: ContentHash)
    ensures
        forall|i: int| 0 <= i < entries.len() ==> hashes_of(entries).contains(
            (#[trigger] entries[i]).hash,
        ),
        (forall|i: int| 0 <= i < entries.len() ==> (#[trigger] entries[i]).hash != h)
            ==> !hashes_of(entries).contains(h),
{
}

} // verus!
