//! Planning a repack pass: which pending segments it takes on, how they are
//! packed into outputs, and what each output carries.
//!
//! Journal segments never share an output with data. They are merged into one
//! output minted above every data output, so that a journal segment on the
//! remote always implies the data it commits.

use vstd::prelude::*;

use crate::extent_index::ExtentIndex;
use crate::hash_set::Blake3HashSet;
use crate::ids::{ContentHash, Ulid};
use crate::lbamap::{ExtentRead, LbaMap};
use crate::map_layers::Maps;
use crate::order::stable_order;
use crate::rebuild::ParsedSegment;
use crate::segment::{EntryKind, SegmentEntry};
use crate::segment_classify::{classify_entry, count_blocks, ClassifyCtx, EntryClassification};

verus! {

/// Stored bytes an output is packed to.
pub const REPACK_TARGET_LIVE: u64 = 33554432;

/// Entries an output is packed to.
pub const REPACK_ENTRY_CAP: usize = 8192;

/// `n`, or the greatest `u64` where it is beyond it.
pub open spec fn clamped(n: int) -> int {
    if n > u64::MAX {
        u64::MAX as int
    } else {
        n
    }
}

/// `n`, or the greatest `usize` where it is beyond it.
pub open spec fn clamped_count(n: int) -> int {
    if n > usize::MAX {
        usize::MAX as int
    } else {
        n
    }
}

// ---------------------------------------------------------------------------
// Scan
// ---------------------------------------------------------------------------

/// A pending segment as the scan measured it, before any entry of it is
/// classified.
#[derive(Clone, Copy, Debug, PartialEq, Eq, Structural)]
pub struct ScannedSegment {
    /// Place of the segment in the pass's listing.
    pub input: usize,
    pub seg_ulid: Ulid,
    pub stored_bytes: u64,
    pub journal: bool,
    pub all_live: bool,
}

/// The stored bytes of the body-bearing entries.
pub open spec fn body_bytes(entries: Seq<SegmentEntry>) -> int
    decreases entries.len(),
{
    if entries.len() == 0 {
        0
    } else {
        body_bytes(entries.drop_last()) + (if entries.last().kind.bears_body() {
            entries.last().stored_length as int
        } else {
            0
        })
    }
}

/// The stored bytes of the body-bearing entries whose hash is live.
pub open spec fn live_body_bytes(entries: Seq<SegmentEntry>, live: Set<ContentHash>) -> int
    decreases entries.len(),
{
    if entries.len() == 0 {
        0
    } else {
        live_body_bytes(entries.drop_last(), live) + (if entries.last().kind.bears_body()
            && live.contains(entries.last().hash) {
            entries.last().stored_length as int
        } else {
            0
        })
    }
}

/// Whether a pass may take the segment on: it is above the newest snapshot,
/// which freezes everything at or below it.
pub fn above_floor(seg_ulid: Ulid, floor: Option<Ulid>) -> (b: bool)
    ensures
        b == !(floor matches Some(f) && seg_ulid.value <= f.value),
{
    match floor {
        Some(f) => seg_ulid.value > f.value,
        None => true,
    }
}

/// Measure a segment. One journal entry makes the whole segment journal tier.
pub fn scan_segment(
    input: usize,
    seg_ulid: Ulid,
    entries: &Vec<SegmentEntry>,
    live_hashes: &Blake3HashSet,
) -> (scanned: ScannedSegment)
    requires
        body_bytes(entries@) <= u64::MAX,
    ensures
        scanned.input == input,
        scanned.seg_ulid == seg_ulid,
        scanned.stored_bytes == body_bytes(entries@),
        scanned.all_live == (live_body_bytes(entries@, live_hashes@) == body_bytes(entries@)),
        scanned.journal == exists|i: int|
            0 <= i < entries@.len() && (#[trigger] entries@[i]).journal,
{
    let mut total: u64 = 0;
    let mut live: u64 = 0;
    let mut journal: bool = false;
    let mut i: usize = 0;
    while i < entries.len()
        invariant
            body_bytes(entries@) <= u64::MAX,
            i <= entries.len(),
            total == body_bytes(entries@.take(i as int)),
            live == live_body_bytes(entries@.take(i as int), live_hashes@),
            live <= total,
            journal == exists|j: int| 0 <= j < i && (#[trigger] entries@[j]).journal,
        decreases entries.len() - i,
    {
        let e = &entries[i];
        proof {
            assert(entries@.take(i as int + 1).drop_last() =~= entries@.take(i as int));
            lemma_body_bytes_prefix(entries@, i as int + 1);
        }
        if e.kind.has_body_bytes() {
            total = total + e.stored_length as u64;
            if live_hashes.contains(&e.hash) {
                live = live + e.stored_length as u64;
            }
        }
        if e.journal {
            assert(entries@[i as int].journal);
            journal = true;
        }
        i += 1;
    }
    assert(entries@.take(entries@.len() as int) =~= entries@);
    ScannedSegment { input, seg_ulid, stored_bytes: total, journal, all_live: live == total }
}

proof fn lemma_body_bytes_prefix(entries: Seq<SegmentEntry>, n: int)
    requires
        0 <= n <= entries.len(),
    ensures
        0 <= body_bytes(entries.take(n)) <= body_bytes(entries),
    decreases entries.len(),
{
    if n == entries.len() {
        assert(entries.take(n) =~= entries);
        if n > 0 {
            lemma_body_bytes_prefix(entries.drop_last(), n - 1);
            assert(entries.drop_last().take(n - 1) =~= entries.drop_last());
        }
    } else {
        lemma_body_bytes_prefix(entries.drop_last(), n);
        assert(entries.drop_last().take(n) =~= entries.take(n));
    }
}

// ---------------------------------------------------------------------------
// Admission
// ---------------------------------------------------------------------------

/// What a pass takes on, with the counts it reports.
pub struct Admission {
    pub admitted: Vec<ScannedSegment>,
    pub spent: u64,
    pub turned_away: usize,
    pub turned_away_bytes: u64,
}

/// The segments of `scanned` in the journal tier, or those outside it, in
/// order.
pub open spec fn tier(scanned: Seq<ScannedSegment>, journal: bool) -> Seq<ScannedSegment>
    decreases scanned.len(),
{
    if scanned.len() == 0 {
        scanned
    } else if scanned.last().journal == journal {
        tier(scanned.drop_last(), journal).push(scanned.last())
    } else {
        tier(scanned.drop_last(), journal)
    }
}

/// The data segments, smallest first, ties in listing order.
pub open spec fn by_size(data: Seq<ScannedSegment>) -> Seq<ScannedSegment> {
    let order = crate::order::stable_order_of(
        data.map_values(|s: ScannedSegment| s.stored_bytes as u128),
    );
    Seq::new(data.len(), |i: int| data[order[i]])
}

/// The bytes the budget has been spent on after the segments of `queue`.
pub open spec fn spent_on(queue: Seq<ScannedSegment>, budget: int) -> int
    decreases queue.len(),
{
    if queue.len() == 0 {
        0
    } else {
        let before = spent_on(queue.drop_last(), budget);
        if before + queue.last().stored_bytes <= budget {
            before + queue.last().stored_bytes
        } else {
            before
        }
    }
}

/// The segments of `queue` that fit in the budget when taken in order, or
/// those that do not.
pub open spec fn within(queue: Seq<ScannedSegment>, budget: int, fits: bool) -> Seq<ScannedSegment>
    decreases queue.len(),
{
    if queue.len() == 0 {
        queue
    } else {
        let before = spent_on(queue.drop_last(), budget);
        if (before + queue.last().stored_bytes <= budget) == fits {
            within(queue.drop_last(), budget, fits).push(queue.last())
        } else {
            within(queue.drop_last(), budget, fits)
        }
    }
}

/// The stored bytes of `queue`.
pub open spec fn stored_in(queue: Seq<ScannedSegment>) -> int
    decreases queue.len(),
{
    if queue.len() == 0 {
        0
    } else {
        stored_in(queue.drop_last()) + queue.last().stored_bytes
    }
}

/// `out` is what a pass with the budget takes on of `scanned`, and how much it
/// leaves.
pub open spec fn admits(out: Admission, scanned: Seq<ScannedSegment>, budget: u64) -> bool {
    let queue = by_size(tier(scanned, false));
    let away = within(queue, budget as int, false);
    &&& out.admitted@ == tier(scanned, true) + within(queue, budget as int, true)
    &&& out.spent == spent_on(queue, budget as int)
    &&& out.turned_away == away.len()
    &&& out.turned_away_bytes == clamped(stored_in(away))
}

/// Split the scanned segments into what the pass takes on and what it leaves
/// to upload as it is.
///
/// Journal segments are admitted whatever the budget: a pass that repacks
/// data must carry all pending journal above its outputs. Data is admitted
/// smallest first while the budget lasts, since each segment folds away one
/// object whatever its size.
pub fn admit_within_budget(scanned: Vec<ScannedSegment>, budget: u64) -> (out: Admission)
    ensures
        admits(out, scanned@, budget),
        out.spent <= budget,
        forall|j: int|
            0 <= j < out.admitted@.len() ==> scanned@.contains(#[trigger] out.admitted@[j]),
{
    let mut admitted: Vec<ScannedSegment> = Vec::new();
    let mut data: Vec<ScannedSegment> = Vec::new();
    let mut keys: Vec<u128> = Vec::new();
    let mut i: usize = 0;
    while i < scanned.len()
        invariant
            i <= scanned.len(),
            admitted@ == tier(scanned@.take(i as int), true),
            data@ == tier(scanned@.take(i as int), false),
            forall|j: int| 0 <= j < admitted@.len() ==> scanned@.contains(#[trigger] admitted@[j]),
            forall|j: int| 0 <= j < data@.len() ==> scanned@.contains(#[trigger] data@[j]),
            keys@ =~= data@.map_values(|s: ScannedSegment| s.stored_bytes as u128),
        decreases scanned.len() - i,
    {
        assert(scanned@.take(i as int + 1).drop_last() =~= scanned@.take(i as int));
        let s = scanned[i];
        assert(scanned@[i as int] == s);
        if s.journal {
            admitted.push(s);
        } else {
            data.push(s);
            keys.push(s.stored_bytes as u128);
        }
        i += 1;
    }
    assert(scanned@.take(scanned@.len() as int) =~= scanned@);
    let order = stable_order(&keys);
    let ghost ints = order@.map_values(|x: usize| x as int);
    let ghost queue = by_size(data@);
    let ghost journal = admitted@;
    let ghost b = budget as int;
    let mut spent: u64 = 0;
    let mut turned_away: usize = 0;
    let mut turned_away_bytes: u64 = 0;
    let mut n: usize = 0;
    proof {
        assert(queue.len() == order@.len());
        assert forall|j: int| 0 <= j < order@.len() implies #[trigger] queue[j]
            == data@[order@[j] as int] && order@[j] < data@.len() by {
            assert(ints[j] == order@[j]);
        }
    }
    while n < order.len()
        invariant
            n <= order.len(),
            b == budget,
            queue.len() == order@.len(),
            forall|j: int|
                0 <= j < order@.len() ==> #[trigger] queue[j] == data@[order@[j] as int]
                    && order@[j] < data@.len(),
            forall|j: int| 0 <= j < admitted@.len() ==> scanned@.contains(#[trigger] admitted@[j]),
            forall|j: int| 0 <= j < data@.len() ==> scanned@.contains(#[trigger] data@[j]),
            admitted@ == journal + within(queue.take(n as int), b, true),
            spent == spent_on(queue.take(n as int), b),
            spent <= budget,
            turned_away == within(queue.take(n as int), b, false).len(),
            turned_away <= n,
            turned_away_bytes == clamped(stored_in(within(queue.take(n as int), b, false))),
            0 <= stored_in(within(queue.take(n as int), b, false)),
        decreases order.len() - n,
    {
        assert(queue.take(n as int + 1).drop_last() =~= queue.take(n as int));
        let ghost away = within(queue.take(n as int), b, false);
        assert(queue[n as int] == data@[order@[n as int] as int]);
        let s = data[order[n]];
        if s.stored_bytes <= budget - spent {
            spent = spent + s.stored_bytes;
            admitted.push(s);
            assert(admitted@ =~= journal + within(queue.take(n as int + 1), b, true));
        } else {
            turned_away = turned_away + 1;
            turned_away_bytes = turned_away_bytes.saturating_add(s.stored_bytes);
            assert(within(queue.take(n as int + 1), b, false).drop_last() =~= away);
        }
        n += 1;
    }
    assert(queue.take(queue.len() as int) =~= queue);
    Admission { admitted, spent, turned_away, turned_away_bytes }
}

// ---------------------------------------------------------------------------
// Classification
// ---------------------------------------------------------------------------

/// One output record of a rewrite plan.
#[derive(Clone, Copy, Debug, PartialEq, Eq, Structural)]
pub enum PlanOutput {
    /// The entry as it is.
    Keep { input: Ulid, entry_idx: u32 },
    /// The entry's content for resolution, without its claim.
    Canonical { input: Ulid, entry_idx: u32 },
    /// A zero run cut from a zero entry.
    ZeroSplit { input: Ulid, entry_idx: u32, start_lba: u64, lba_length: u32 },
    /// A live run cut from an entry.
    Run {
        input: Ulid,
        entry_idx: u32,
        payload_block_offset: u32,
        start_lba: u64,
        lba_length: u32,
    },
}

/// An admitted segment, classified.
pub struct RepackCandidate {
    /// Place of the segment in the pass's listing.
    pub input: usize,
    pub seg_ulid: Ulid,
    pub classifications: Vec<EntryClassification>,
    /// Stored bytes the output will carry, by the share of blocks still live.
    pub live_bytes: u64,
    /// Stored bytes the output will not carry.
    pub dead_bytes: u64,
    /// Entries the output will carry.
    pub live_entry_count: usize,
    /// Hashes whose index slots the segment may own.
    pub owned_hashes: Vec<ContentHash>,
    /// Block ranges the segment claims.
    pub claim_ranges: Vec<(u64, u32)>,
    /// Every body of it is live.
    pub all_live: bool,
}

/// Live bytes, dead bytes and output entries of one classified entry.
pub open spec fn entry_weight(entry: SegmentEntry, class: EntryClassification) -> (int, int, int) {
    let stored = entry.stored_length as int;
    let bodied = entry.kind is Data || entry.kind is Inline;
    match class {
        EntryClassification::FullyLive
        | EntryClassification::DeferUnresolvableDelta
        | EntryClassification::DemoteToCanonical => (
            if bodied {
                stored
            } else {
                0
            },
            0,
            1,
        ),
        EntryClassification::PartialDeath { live_runs, emit_canonical } => {
            let count = live_runs@.len() + (if emit_canonical {
                1int
            } else {
                0
            });
            if bodied && entry.lba_length > 0 {
                let kept = stored * crate::segment_classify::blocks_in(live_runs@) / (
                entry.lba_length as int);
                (kept, stored - kept, count)
            } else {
                (0, 0, count)
            }
        },
        EntryClassification::ZeroSubRuns(runs) => (0, 0, runs@.len() as int),
        EntryClassification::DropAndRemoveHash | EntryClassification::Drop => (0, stored, 0),
    }
}

/// The weights of the first `n` entries together.
pub open spec fn weight_of(
    entries: Seq<SegmentEntry>,
    classes: Seq<EntryClassification>,
    n: int,
) -> (int, int, int)
    decreases n,
{
    if n <= 0 {
        (0, 0, 0)
    } else {
        let before = weight_of(entries, classes, n - 1);
        let w = entry_weight(entries[n - 1], classes[n - 1]);
        (before.0 + w.0, before.1 + w.1, before.2 + w.2)
    }
}

/// The hashes of the entries that hold a slot of the extent index, in order.
pub open spec fn owned_in(entries: Seq<SegmentEntry>) -> Seq<ContentHash>
    decreases entries.len(),
{
    if entries.len() == 0 {
        Seq::empty()
    } else if entries.last().kind.owns_hash() {
        owned_in(entries.drop_last()).push(entries.last().hash)
    } else {
        owned_in(entries.drop_last())
    }
}

/// The block ranges of the entries that make a claim, in order.
pub open spec fn claims_in(entries: Seq<SegmentEntry>) -> Seq<(u64, u32)>
    decreases entries.len(),
{
    if entries.len() == 0 {
        Seq::empty()
    } else if !entries.last().kind.canonical_only() {
        claims_in(entries.drop_last()).push((entries.last().start_lba, entries.last().lba_length))
    } else {
        claims_in(entries.drop_last())
    }
}

proof fn lemma_share(stored: int, blocks: int, total: int)
    requires
        0 <= stored <= u32::MAX,
        0 <= blocks <= total <= u32::MAX,
        0 < total,
    ensures
        0 <= stored * blocks <= u64::MAX,
        0 <= stored * blocks / total <= stored,
{
    assert(0 <= stored * blocks <= stored * total) by (nonlinear_arith)
        requires
            0 <= stored,
            0 <= blocks <= total,
    ;
    assert(stored * total <= u32::MAX * u32::MAX) by (nonlinear_arith)
        requires
            0 <= stored <= u32::MAX,
            0 <= total <= u32::MAX,
    ;
    assert(stored * blocks / total <= stored) by (nonlinear_arith)
        requires
            0 <= stored * blocks <= stored * total,
            0 < total,
    ;
    assert(0 <= stored * blocks / total) by (nonlinear_arith)
        requires
            0 <= stored * blocks,
            0 < total,
    ;
}

/// Live bytes, dead bytes and output entries of one classified entry.
fn weigh_entry(entry: &SegmentEntry, class: &EntryClassification) -> (w: (u64, u64, usize))
    requires
        crate::segment_classify::class_sound(*class, *entry),
    ensures
        w.0 == entry_weight(*entry, *class).0,
        w.1 == entry_weight(*entry, *class).1,
        w.2 == clamped_count(entry_weight(*entry, *class).2),
{
    let stored: u64 = entry.stored_length as u64;
    let bodied: bool = matches!(entry.kind, EntryKind::Data | EntryKind::Inline);
    match class {
        EntryClassification::FullyLive
        | EntryClassification::DeferUnresolvableDelta
        | EntryClassification::DemoteToCanonical => {
            if bodied {
                (stored, 0, 1)
            } else {
                (0, 0, 1)
            }
        },
        EntryClassification::PartialDeath { live_runs, emit_canonical } => {
            let count: usize = if *emit_canonical {
                live_runs.len().saturating_add(1)
            } else {
                live_runs.len()
            };
            if bodied && entry.lba_length > 0 {
                let live_blocks: u64 = count_blocks(live_runs);
                proof {
                    lemma_share(
                        entry.stored_length as int,
                        live_blocks as int,
                        entry.lba_length as int,
                    );
                }
                let kept: u64 = stored * live_blocks / entry.lba_length as u64;
                (kept, stored - kept, count)
            } else {
                (0, 0, count)
            }
        },
        EntryClassification::ZeroSubRuns(runs) => (0, 0, runs.len()),
        EntryClassification::DropAndRemoveHash | EntryClassification::Drop => (0, stored, 0),
    }
}

impl RepackCandidate {
    /// The candidate was made from `entries`: each is classified, and the
    /// weights, hashes and ranges are theirs.
    pub open spec fn of_entries(
        &self,
        entries: Seq<SegmentEntry>,
        map: LbaMap,
        index: ExtentIndex,
        live: Set<ContentHash>,
        segment: Ulid,
    ) -> bool {
        let w = weight_of(entries, self.classifications@, entries.len() as int);
        &&& self.seg_ulid == segment
        &&& self.classifications@.len() == entries.len()
        &&& forall|i: int|
            0 <= i < entries.len() ==> crate::segment_classify::classified(
                #[trigger] self.classifications@[i],
                entries[i],
                map,
                index,
                live,
                segment,
            )
        &&& self.live_bytes == clamped(w.0)
        &&& self.dead_bytes == clamped(w.1)
        &&& self.live_entry_count == clamped_count(w.2)
        &&& self.owned_hashes@ == owned_in(entries)
        &&& self.claim_ranges@ == claims_in(entries)
    }

    /// Entry numbers and run lengths fit the plan's records.
    pub open spec fn plannable(&self) -> bool {
        &&& self.classifications@.len() <= u32::MAX
        &&& forall|i: int|
            0 <= i < self.classifications@.len() ==> runs_plannable(
                #[trigger] self.classifications@[i],
            )
    }
}

/// The lengths of a class's runs fit the plan's records.
pub open spec fn runs_plannable(class: EntryClassification) -> bool {
    match class {
        EntryClassification::ZeroSubRuns(runs) => crate::segment_classify::runs_sound(
            runs@,
            u32::MAX as int,
        ),
        EntryClassification::PartialDeath { live_runs, .. } => crate::segment_classify::runs_sound(
            live_runs@,
            u32::MAX as int,
        ),
        _ => true,
    }
}

/// Classify every entry of an admitted segment and weigh it.
pub fn make_candidate(
    scan: &ScannedSegment,
    entries: &Vec<SegmentEntry>,
    ctx: &ClassifyCtx<'_>,
) -> (c: RepackCandidate)
    requires
        ctx.lba_map.wf(),
        ctx.extent_index.wf(),
        ctx.segment_id == scan.seg_ulid,
        entries@.len() <= u32::MAX,
        forall|i: int| 0 <= i < entries@.len() ==> #[trigger] entries@[i].in_range(),
    ensures
        c.of_entries(
            entries@,
            *ctx.lba_map,
            *ctx.extent_index,
            ctx.live_hashes@,
            ctx.segment_id,
        ),
        c.plannable(),
        c.input == scan.input,
        c.all_live == scan.all_live,
{
    let mut classifications: Vec<EntryClassification> = Vec::new();
    let mut owned_hashes: Vec<ContentHash> = Vec::new();
    let mut claim_ranges: Vec<(u64, u32)> = Vec::new();
    let mut live_bytes: u64 = 0;
    let mut dead_bytes: u64 = 0;
    let mut live_entry_count: usize = 0;
    let mut i: usize = 0;
    while i < entries.len()
        invariant
            i <= entries.len(),
            ctx.lba_map.wf(),
            ctx.extent_index.wf(),
            forall|j: int| 0 <= j < entries@.len() ==> #[trigger] entries@[j].in_range(),
            classifications@.len() == i,
            forall|j: int|
                0 <= j < i ==> crate::segment_classify::classified(
                    #[trigger] classifications@[j],
                    entries@[j],
                    *ctx.lba_map,
                    *ctx.extent_index,
                    ctx.live_hashes@,
                    ctx.segment_id,
                ),
            forall|j: int| 0 <= j < i ==> runs_plannable(#[trigger] classifications@[j]),
            live_bytes == clamped(weight_of(entries@, classifications@, i as int).0),
            dead_bytes == clamped(weight_of(entries@, classifications@, i as int).1),
            live_entry_count == clamped_count(weight_of(entries@, classifications@, i as int).2),
            weight_of(entries@, classifications@, i as int).0 >= 0,
            weight_of(entries@, classifications@, i as int).1 >= 0,
            weight_of(entries@, classifications@, i as int).2 >= 0,
            owned_hashes@ == owned_in(entries@.take(i as int)),
            claim_ranges@ == claims_in(entries@.take(i as int)),
        decreases entries.len() - i,
    {
        let entry = &entries[i];
        assert(entries@[i as int].in_range());
        assert(entries@.take(i as int + 1).drop_last() =~= entries@.take(i as int));
        let class = classify_entry(entry, ctx);
        let (live, dead, count) = weigh_entry(entry, &class);
        live_bytes = live_bytes.saturating_add(live);
        dead_bytes = dead_bytes.saturating_add(dead);
        live_entry_count = live_entry_count.saturating_add(count);
        if entry.kind.owns_extent_hash() {
            owned_hashes.push(entry.hash);
        }
        if !entry.kind.is_canonical_only() {
            claim_ranges.push((entry.start_lba, entry.lba_length));
        }
        let ghost before = classifications@;
        classifications.push(class);
        proof {
            lemma_weight_prefix(entries@, before, classifications@, i as int);
        }
        i += 1;
    }
    assert(entries@.take(entries@.len() as int) =~= entries@);
    RepackCandidate {
        input: scan.input,
        seg_ulid: scan.seg_ulid,
        classifications,
        live_bytes,
        dead_bytes,
        live_entry_count,
        owned_hashes,
        claim_ranges,
        all_live: scan.all_live,
    }
}

proof fn lemma_weight_prefix(
    entries: Seq<SegmentEntry>,
    a: Seq<EntryClassification>,
    b: Seq<EntryClassification>,
    n: int,
)
    requires
        0 <= n <= a.len(),
        n <= b.len(),
        forall|i: int| 0 <= i < n ==> a[i] == b[i],
    ensures
        weight_of(entries, a, n) == weight_of(entries, b, n),
    decreases n,
{
    if n > 0 {
        lemma_weight_prefix(entries, a, b, n - 1);
    }
}

// ---------------------------------------------------------------------------
// Plan outputs
// ---------------------------------------------------------------------------

/// The zero runs cut from entry `idx` of `input`.
pub open spec fn zero_runs(input: Ulid, idx: u32, runs: Seq<ExtentRead>) -> Seq<PlanOutput> {
    runs.map_values(
        |r: ExtentRead|
            PlanOutput::ZeroSplit {
                input,
                entry_idx: idx,
                start_lba: r.range_start,
                lba_length: (r.range_end - r.range_start) as u32,
            },
    )
}

/// The live runs cut from entry `idx` of `input`.
pub open spec fn live_runs_out(input: Ulid, idx: u32, runs: Seq<ExtentRead>) -> Seq<PlanOutput> {
    runs.map_values(
        |r: ExtentRead|
            PlanOutput::Run {
                input,
                entry_idx: idx,
                payload_block_offset: r.payload_block_offset,
                start_lba: r.range_start,
                lba_length: (r.range_end - r.range_start) as u32,
            },
    )
}

/// What the plan carries of entry `idx` of `input`.
pub open spec fn entry_outputs(input: Ulid, idx: u32, class: EntryClassification) -> Seq<
    PlanOutput,
> {
    match class {
        EntryClassification::FullyLive | EntryClassification::DeferUnresolvableDelta => seq![
            PlanOutput::Keep { input, entry_idx: idx },
        ],
        EntryClassification::DemoteToCanonical => seq![
            PlanOutput::Canonical { input, entry_idx: idx },
        ],
        EntryClassification::ZeroSubRuns(runs) => zero_runs(input, idx, runs@),
        EntryClassification::PartialDeath { live_runs, emit_canonical } => {
            if emit_canonical {
                seq![PlanOutput::Canonical { input, entry_idx: idx }] + live_runs_out(
                    input,
                    idx,
                    live_runs@,
                )
            } else {
                live_runs_out(input, idx, live_runs@)
            }
        },
        EntryClassification::DropAndRemoveHash | EntryClassification::Drop => Seq::empty(),
    }
}

/// What the plan carries of the first `n` entries of `input`, in order.
pub open spec fn segment_outputs(
    input: Ulid,
    classes: Seq<EntryClassification>,
    n: int,
) -> Seq<PlanOutput>
    decreases n,
{
    if n <= 0 {
        Seq::empty()
    } else {
        segment_outputs(input, classes, n - 1) + entry_outputs(
            input,
            (n - 1) as u32,
            classes[n - 1],
        )
    }
}

/// Append to `outputs` what the plan carries of a segment: every live entry,
/// whole, in runs or for resolution, and none of the dead ones.
pub fn emit_plan_outputs(
    seg_ulid: Ulid,
    classifications: &Vec<EntryClassification>,
    outputs: &mut Vec<PlanOutput>,
)
    requires
        classifications@.len() <= u32::MAX,
        forall|i: int|
            0 <= i < classifications@.len() ==> runs_plannable(#[trigger] classifications@[i]),
    ensures
        final(outputs)@ == old(outputs)@ + segment_outputs(
            seg_ulid,
            classifications@,
            classifications@.len() as int,
        ),
{
    let ghost start = outputs@;
    let mut i: usize = 0;
    while i < classifications.len()
        invariant
            i <= classifications.len(),
            classifications@.len() <= u32::MAX,
            forall|j: int|
                0 <= j < classifications@.len() ==> runs_plannable(#[trigger] classifications@[j]),
            outputs@ =~= start + segment_outputs(seg_ulid, classifications@, i as int),
        decreases classifications.len() - i,
    {
        let entry_idx: u32 = i as u32;
        let ghost before = outputs@;
        let ghost class = classifications@[i as int];
        assert(runs_plannable(class));
        match &classifications[i] {
            EntryClassification::FullyLive | EntryClassification::DeferUnresolvableDelta => {
                outputs.push(PlanOutput::Keep { input: seg_ulid, entry_idx });
            },
            EntryClassification::DemoteToCanonical => {
                outputs.push(PlanOutput::Canonical { input: seg_ulid, entry_idx });
            },
            EntryClassification::ZeroSubRuns(runs) => {
                let mut n: usize = 0;
                while n < runs.len()
                    invariant
                        n <= runs.len(),
                        crate::segment_classify::runs_sound(runs@, u32::MAX as int),
                        outputs@ =~= before + zero_runs(seg_ulid, entry_idx, runs@.take(n as int)),
                    decreases runs.len() - n,
                {
                    let run = runs[n];
                    outputs.push(
                        PlanOutput::ZeroSplit {
                            input: seg_ulid,
                            entry_idx,
                            start_lba: run.range_start,
                            lba_length: (run.range_end - run.range_start) as u32,
                        },
                    );
                    n += 1;
                }
                assert(runs@.take(runs@.len() as int) =~= runs@);
            },
            EntryClassification::PartialDeath { live_runs, emit_canonical } => {
                if *emit_canonical {
                    outputs.push(PlanOutput::Canonical { input: seg_ulid, entry_idx });
                }
                let ghost lead = outputs@;
                let mut n: usize = 0;
                while n < live_runs.len()
                    invariant
                        n <= live_runs.len(),
                        crate::segment_classify::runs_sound(live_runs@, u32::MAX as int),
                        outputs@ =~= lead + live_runs_out(
                            seg_ulid,
                            entry_idx,
                            live_runs@.take(n as int),
                        ),
                    decreases live_runs.len() - n,
                {
                    let run = live_runs[n];
                    outputs.push(
                        PlanOutput::Run {
                            input: seg_ulid,
                            entry_idx,
                            payload_block_offset: run.payload_block_offset,
                            start_lba: run.range_start,
                            lba_length: (run.range_end - run.range_start) as u32,
                        },
                    );
                    n += 1;
                }
                assert(live_runs@.take(live_runs@.len() as int) =~= live_runs@);
            },
            EntryClassification::DropAndRemoveHash | EntryClassification::Drop => {},
        }
        assert(outputs@ =~= before + entry_outputs(seg_ulid, entry_idx, class));
        i += 1;
    }
}

// ---------------------------------------------------------------------------
// Packing
// ---------------------------------------------------------------------------

/// Candidates that share an output, by their places in the list packed.
pub struct Bucket {
    pub candidate_idxs: Vec<usize>,
    pub used_bytes: u64,
    pub used_entries: usize,
}

/// A bucket as the packing rule sees it.
pub struct BucketModel {
    pub idxs: Seq<int>,
    pub bytes: int,
    pub entries: int,
}

/// A candidate of this size fits the bucket.
pub open spec fn fits(b: BucketModel, bytes: int, entries: int) -> bool {
    b.bytes + bytes <= REPACK_TARGET_LIVE && b.entries + entries <= REPACK_ENTRY_CAP
}

/// The first of the buckets from `from` on that a candidate of this size
/// fits, or their number.
pub open spec fn first_fit(buckets: Seq<BucketModel>, bytes: int, entries: int, from: int) -> int
    decreases buckets.len() - from,
{
    if from >= buckets.len() || fits(buckets[from], bytes, entries) {
        from
    } else {
        first_fit(buckets, bytes, entries, from + 1)
    }
}

/// The candidates by falling live bytes, ties in the order given.
pub open spec fn largest_first(cands: Seq<RepackCandidate>) -> Seq<int> {
    crate::order::stable_order_of(
        cands.map_values(|c: RepackCandidate| (u64::MAX - c.live_bytes) as u128),
    )
}

/// The buckets after the first `n` candidates of `order`: each goes to the
/// first bucket it fits, or to one of its own.
pub open spec fn packed(cands: Seq<RepackCandidate>, order: Seq<int>, n: int) -> Seq<BucketModel>
    decreases n,
{
    if n <= 0 {
        Seq::empty()
    } else {
        let before = packed(cands, order, n - 1);
        let c = cands[order[n - 1]];
        let at = first_fit(before, c.live_bytes as int, c.live_entry_count as int, 0);
        if at < before.len() {
            let b = before[at];
            before.update(
                at,
                BucketModel {
                    idxs: b.idxs.push(order[n - 1]),
                    bytes: b.bytes + c.live_bytes,
                    entries: b.entries + c.live_entry_count,
                },
            )
        } else {
            before.push(
                BucketModel {
                    idxs: seq![order[n - 1]],
                    bytes: c.live_bytes as int,
                    entries: c.live_entry_count as int,
                },
            )
        }
    }
}

/// The buckets of all the candidates.
pub open spec fn packing(cands: Seq<RepackCandidate>) -> Seq<BucketModel> {
    packed(cands, largest_first(cands), cands.len() as int)
}

/// A bucket holds what its model says.
pub open spec fn models(b: Bucket, m: BucketModel) -> bool {
    &&& b.candidate_idxs@.map_values(|i: usize| i as int) == m.idxs
    &&& b.used_bytes == m.bytes
    &&& b.used_entries == m.entries
}

/// Pack the candidates, largest first, each into the first bucket it fits.
pub fn pack_buckets(cands: &Vec<RepackCandidate>) -> (buckets: Vec<Bucket>)
    ensures
        buckets@.len() == packing(cands@).len(),
        forall|i: int|
            0 <= i < buckets@.len() ==> models(#[trigger] buckets@[i], packing(cands@)[i]),
        forall|b: int, p: int|
            #![trigger packing(cands@)[b].idxs[p]]
            0 <= b < packing(cands@).len() && 0 <= p < packing(cands@)[b].idxs.len() ==> 0
                <= packing(cands@)[b].idxs[p] < cands@.len(),
        forall|b: int|
            0 <= b < packing(cands@).len() ==> (#[trigger] packing(cands@)[b]).idxs.len() > 0,
{
    let mut keys: Vec<u128> = Vec::new();
    let mut k: usize = 0;
    while k < cands.len()
        invariant
            k <= cands.len(),
            keys@ =~= cands@.take(k as int).map_values(
                |c: RepackCandidate| (u64::MAX - c.live_bytes) as u128,
            ),
        decreases cands.len() - k,
    {
        keys.push((u64::MAX - cands[k].live_bytes) as u128);
        k += 1;
    }
    assert(cands@.take(cands@.len() as int) =~= cands@);
    let order = stable_order(&keys);
    let ghost ints = largest_first(cands@);
    let mut buckets: Vec<Bucket> = Vec::new();
    let mut n: usize = 0;
    while n < order.len()
        invariant
            n <= order.len(),
            order@.len() == cands@.len(),
            ints == order@.map_values(|x: usize| x as int),
            crate::order::is_stable_order(keys@, ints),
            keys@.len() == cands@.len(),
            buckets@.len() == packed(cands@, ints, n as int).len(),
            forall|i: int|
                0 <= i < buckets@.len() ==> models(
                    #[trigger] buckets@[i],
                    packed(cands@, ints, n as int)[i],
                ),
        decreases order.len() - n,
    {
        let ghost before = packed(cands@, ints, n as int);
        assert(ints[n as int] == order@[n as int]);
        let idx: usize = order[n];
        let c = &cands[idx];
        let ghost bytes = c.live_bytes as int;
        let ghost entries = c.live_entry_count as int;
        let mut at: usize = 0;
        while at < buckets.len()
            invariant_except_break
                at <= buckets.len(),
                first_fit(before, bytes, entries, 0) == first_fit(
                    before,
                    bytes,
                    entries,
                    at as int,
                ),
            invariant
                buckets@.len() == before.len(),
                bytes == c.live_bytes,
                entries == c.live_entry_count,
                forall|i: int|
                    0 <= i < buckets@.len() ==> models(#[trigger] buckets@[i], before[i]),
            ensures
                at <= buckets.len(),
                first_fit(before, bytes, entries, 0) == at,
                at < buckets.len() ==> fits(before[at as int], bytes, entries),
            decreases buckets.len() - at,
        {
            let b = &buckets[at];
            assert(models(buckets@[at as int], before[at as int]));
            if c.live_bytes <= REPACK_TARGET_LIVE && b.used_bytes <= REPACK_TARGET_LIVE
                - c.live_bytes && c.live_entry_count <= REPACK_ENTRY_CAP && b.used_entries
                <= REPACK_ENTRY_CAP - c.live_entry_count {
                break;
            }
            at += 1;
        }
        if at < buckets.len() {
            let mut b = buckets.swap_remove(at);
            let ghost was = b;
            b.candidate_idxs.push(idx);
            b.used_bytes = b.used_bytes + c.live_bytes;
            b.used_entries = b.used_entries + c.live_entry_count;
            proof {
                assert(b.candidate_idxs@.map_values(|i: usize| i as int)
                    =~= was.candidate_idxs@.map_values(|i: usize| i as int).push(idx as int));
            }
            put_at(&mut buckets, at, b);
        } else {
            let mut idxs: Vec<usize> = Vec::new();
            idxs.push(idx);
            assert(idxs@.map_values(|i: usize| i as int) =~= seq![idx as int]);
            buckets.push(
                Bucket {
                    candidate_idxs: idxs,
                    used_bytes: c.live_bytes,
                    used_entries: c.live_entry_count,
                },
            );
        }
        n += 1;
    }
    proof {
        lemma_packed_in_range(cands@, ints, cands@.len() as int);
    }
    buckets
}

/// Undo a `swap_remove` at `at`, with another value in its place.
fn put_at(buckets: &mut Vec<Bucket>, at: usize, b: Bucket)
    requires
        at <= old(buckets)@.len(),
    ensures
        final(buckets)@.len() == old(buckets)@.len() + 1,
        final(buckets)@[at as int] == b,
        at < old(buckets)@.len() ==> final(buckets)@[old(buckets)@.len() as int] == old(
            buckets,
        )@[at as int],
        forall|i: int|
            0 <= i < old(buckets)@.len() && i != at ==> #[trigger] final(buckets)@[i] == old(
                buckets,
            )@[i],
{
    buckets.push(b);
    let last: usize = buckets.len() - 1;
    if at < last {
        let moved = buckets.swap_remove(at);
        buckets.push(moved);
    }
}

/// Every bucket that holds more than one candidate is within both caps.
pub proof fn law_shared_buckets_fit(cands: Seq<RepackCandidate>, order: Seq<int>, n: int, i: int)
    requires
        0 <= i < packed(cands, order, n).len(),
    ensures
        packed(cands, order, n)[i].idxs.len() >= 1,
        packed(cands, order, n)[i].idxs.len() > 1 ==> packed(cands, order, n)[i].bytes
            <= REPACK_TARGET_LIVE && packed(cands, order, n)[i].entries <= REPACK_ENTRY_CAP,
    decreases n,
{
    if n > 0 {
        let before = packed(cands, order, n - 1);
        let c = cands[order[n - 1]];
        let at = first_fit(before, c.live_bytes as int, c.live_entry_count as int, 0);
        lemma_first_fit(before, c.live_bytes as int, c.live_entry_count as int, 0);
        if i < before.len() {
            law_shared_buckets_fit(cands, order, n - 1, i);
        }
    }
}

proof fn lemma_first_fit(buckets: Seq<BucketModel>, bytes: int, entries: int, from: int)
    requires
        0 <= from <= buckets.len(),
    ensures
        from <= first_fit(buckets, bytes, entries, from) <= buckets.len(),
        first_fit(buckets, bytes, entries, from) < buckets.len() ==> fits(
            buckets[first_fit(buckets, bytes, entries, from)],
            bytes,
            entries,
        ),
    decreases buckets.len() - from,
{
    if from < buckets.len() && !fits(buckets[from], bytes, entries) {
        lemma_first_fit(buckets, bytes, entries, from + 1);
    }
}

/// `idx` is in bucket `b` at place `p`.
pub open spec fn placed(buckets: Seq<BucketModel>, idx: int, b: int, p: int) -> bool {
    0 <= b < buckets.len() && 0 <= p < buckets[b].idxs.len() && buckets[b].idxs[p] == idx
}

/// Some bucket holds `idx`.
pub open spec fn has_place(buckets: Seq<BucketModel>, idx: int) -> bool {
    exists|b: int, p: int| placed(buckets, idx, b, p)
}

/// Packing loses no candidate and places none twice: each of the first `n`
/// of a list without repeats is in one bucket, at one place, and the buckets
/// hold nothing else.
pub proof fn law_packing_is_a_partition(cands: Seq<RepackCandidate>, order: Seq<int>, n: int)
    requires
        0 <= n <= order.len(),
        order.no_duplicates(),
    ensures
        forall|j: int|
            0 <= j < n ==> has_place(packed(cands, order, n), #[trigger] order[j]),
        forall|idx: int, b: int, p: int| #[trigger]
            placed(packed(cands, order, n), idx, b, p) ==> exists|j: int|
                0 <= j < n && #[trigger] order[j] == idx,
        forall|idx: int, b: int, p: int, c: int, q: int|
            #![trigger placed(packed(cands, order, n), idx, b, p), placed(packed(cands, order, n), idx, c, q)]
            placed(packed(cands, order, n), idx, b, p) && placed(
                packed(cands, order, n),
                idx,
                c,
                q,
            ) ==> b == c && p == q,
    decreases n,
{
    if n > 0 {
        law_packing_is_a_partition(cands, order, n - 1);
        let before = packed(cands, order, n - 1);
        let after = packed(cands, order, n);
        let x = order[n - 1];
        let c = cands[x];
        let at = first_fit(before, c.live_bytes as int, c.live_entry_count as int, 0);
        lemma_first_fit(before, c.live_bytes as int, c.live_entry_count as int, 0);
        let new_b = at;
        let new_p = if at < before.len() {
            before[at].idxs.len() as int
        } else {
            0
        };
        assert(placed(after, x, new_b, new_p));
        // Every place but the new one is an old one.
        assert forall|idx: int, b: int, p: int| #[trigger] placed(after, idx, b, p) implies (b
            == new_b && p == new_p && idx == x) || placed(before, idx, b, p) by {}
        assert forall|idx: int, b: int, p: int| #[trigger] placed(before, idx, b, p) implies placed(
            after,
            idx,
            b,
            p,
        ) by {}
        assert forall|b: int, p: int| !#[trigger] placed(before, x, b, p) by {
            if placed(before, x, b, p) {
                let j = choose|j: int| 0 <= j < n - 1 && #[trigger] order[j] == x;
                assert(order[j] == order[n - 1]);
            }
        }
        assert forall|j: int| 0 <= j < n implies has_place(after, #[trigger] order[j]) by {
            if j < n - 1 {
                assert(has_place(before, order[j]));
                let (b, p) = choose|b: int, p: int| placed(before, order[j], b, p);
                assert(placed(before, order[j], b, p));
                assert(placed(after, order[j], b, p));
            }
        }
        assert forall|idx: int, b: int, p: int| #[trigger] placed(after, idx, b, p) implies exists|
            j: int,
        |
            0 <= j < n && #[trigger] order[j] == idx by {
            if placed(before, idx, b, p) {
                let j = choose|j: int| 0 <= j < n - 1 && #[trigger] order[j] == idx;
                assert(0 <= j < n && order[j] == idx);
            } else {
                assert(order[n - 1] == idx);
            }
        }
        assert forall|idx: int, b: int, p: int, d: int, q: int|
            #![trigger placed(after, idx, b, p), placed(after, idx, d, q)]
            placed(after, idx, b, p) && placed(after, idx, d, q) implies b == d && p == q by {
            if placed(before, idx, b, p) && placed(before, idx, d, q) {
            } else if placed(before, idx, b, p) {
                assert(idx == x);
            } else if placed(before, idx, d, q) {
                assert(idx == x);
            }
        }
    }
}

// ---------------------------------------------------------------------------
// The plan
// ---------------------------------------------------------------------------

/// A segment a bucket consumes.
pub struct PlannedInput {
    /// Place of the segment in the pass's listing.
    pub input: usize,
    pub input_ulid: Ulid,
    pub owned_hashes: Vec<ContentHash>,
    pub claim_ranges: Vec<(u64, u32)>,
}

/// The segment a bucket writes.
pub struct PlannedOutput {
    pub new_ulid: Ulid,
    pub outputs: Vec<PlanOutput>,
}

/// One bucket of a pass. Without an output its inputs hold nothing live and
/// only leave.
pub struct PlannedBucket {
    pub inputs: Vec<PlannedInput>,
    pub output: Option<PlannedOutput>,
    pub bytes_freed: u64,
    pub journal: bool,
}

/// What a pass did, in numbers.
#[derive(Clone, Copy, Debug, PartialEq, Eq, Structural)]
pub struct CompactionStats {
    pub segments_compacted: u64,
    pub new_segments: u64,
    pub bytes_freed: u64,
}

/// A pass, planned.
pub struct RepackPlan {
    pub buckets: Vec<PlannedBucket>,
    /// Journal segments the pass leaves where they are.
    pub journal_untouched: Vec<Ulid>,
    pub stats: CompactionStats,
}

/// Why a pass cannot be planned.
#[derive(Clone, Copy, Debug, PartialEq, Eq, Structural)]
pub enum RepackError {
    /// The journal output has no ULID reserved for it.
    NoJournalUlid,
    /// There are more data outputs than ULIDs minted for them.
    OutOfUlids,
}

/// The candidates `idxs` by ascending ULID, ties in the order given.
pub open spec fn by_ulid(cands: Seq<RepackCandidate>, idxs: Seq<int>) -> Seq<int> {
    let order = crate::order::stable_order_of(
        idxs.map_values(|i: int| cands[i].seg_ulid.value),
    );
    Seq::new(idxs.len(), |i: int| idxs[order[i]])
}

/// What an output of the first `n` candidates of `order` carries.
pub open spec fn outputs_of(cands: Seq<RepackCandidate>, order: Seq<int>, n: int) -> Seq<PlanOutput>
    decreases n,
{
    if n <= 0 {
        Seq::empty()
    } else {
        let c = cands[order[n - 1]];
        outputs_of(cands, order, n - 1) + segment_outputs(
            c.seg_ulid,
            c.classifications@,
            c.classifications@.len() as int,
        )
    }
}

/// The dead bytes of the first `n` candidates of `order`.
pub open spec fn dead_in(cands: Seq<RepackCandidate>, order: Seq<int>, n: int) -> int
    decreases n,
{
    if n <= 0 {
        0
    } else {
        dead_in(cands, order, n - 1) + cands[order[n - 1]].dead_bytes
    }
}

/// What an output of the candidates `idxs` carries.
pub open spec fn bucket_outputs(cands: Seq<RepackCandidate>, idxs: Seq<int>) -> Seq<PlanOutput> {
    outputs_of(cands, by_ulid(cands, idxs), idxs.len() as int)
}

/// `b` is the bucket of the candidates `idxs`: its inputs in ULID order, an
/// output at `ulid` where anything is live.
pub open spec fn is_bucket(
    b: PlannedBucket,
    cands: Seq<RepackCandidate>,
    idxs: Seq<int>,
    ulid: Option<Ulid>,
    journal: bool,
) -> bool {
    let order = by_ulid(cands, idxs);
    &&& b.journal == journal
    &&& b.bytes_freed == clamped(dead_in(cands, order, order.len() as int))
    &&& b.inputs@.len() == order.len()
    &&& forall|i: int|
        #![trigger b.inputs@[i]]
        0 <= i < order.len() ==> {
            &&& b.inputs@[i].input == cands[order[i]].input
            &&& b.inputs@[i].input_ulid == cands[order[i]].seg_ulid
            &&& b.inputs@[i].owned_hashes@ == cands[order[i]].owned_hashes@
            &&& b.inputs@[i].claim_ranges@ == cands[order[i]].claim_ranges@
        }
    &&& b.output is Some <==> bucket_outputs(cands, idxs).len() > 0
    &&& b.output matches Some(o) ==> o.outputs@ == bucket_outputs(cands, idxs) && ulid == Some(
        o.new_ulid,
    )
}

/// A bucket of one fully live candidate: rewriting it would change nothing.
pub open spec fn is_no_op(cands: Seq<RepackCandidate>, idxs: Seq<int>) -> bool {
    idxs.len() == 1 && cands[idxs[0]].all_live
}

/// The first `n` buckets without the no-ops.
pub open spec fn worthwhile(
    cands: Seq<RepackCandidate>,
    buckets: Seq<BucketModel>,
    n: int,
) -> Seq<Seq<int>>
    decreases n,
{
    if n <= 0 {
        Seq::empty()
    } else if is_no_op(cands, buckets[n - 1].idxs) {
        worthwhile(cands, buckets, n - 1)
    } else {
        worthwhile(cands, buckets, n - 1).push(buckets[n - 1].idxs)
    }
}

/// How many of the first `n` of `lists` write an output.
pub open spec fn emitting(cands: Seq<RepackCandidate>, lists: Seq<Seq<int>>, n: int) -> int
    decreases n,
{
    if n <= 0 {
        0
    } else {
        emitting(cands, lists, n - 1) + (if bucket_outputs(cands, lists[n - 1]).len() > 0 {
            1int
        } else {
            0
        })
    }
}

/// The data buckets a pass rewrites.
pub open spec fn data_lists(data: Seq<RepackCandidate>) -> Seq<Seq<int>> {
    worthwhile(data, packing(data), packing(data).len() as int)
}

/// The indices of all the candidates.
pub open spec fn every_index(cands: Seq<RepackCandidate>) -> Seq<int> {
    Seq::new(cands.len(), |i: int| i)
}

/// The journal moves: there is some, and it is more than one live segment, or
/// the pass writes data that it must stay above.
pub open spec fn lifts_journal(journal: Seq<RepackCandidate>, data: Seq<RepackCandidate>) -> bool {
    journal.len() > 0 && (!(journal.len() == 1 && journal[0].all_live) || data_lists(data).len()
        > 0)
}

/// The number of journal buckets the plan starts with.
pub open spec fn lead_of(journal: Seq<RepackCandidate>, data: Seq<RepackCandidate>) -> int {
    if lifts_journal(journal, data) {
        1
    } else {
        0
    }
}

/// The bytes freed by the buckets that wrote an output.
pub open spec fn freed_by(buckets: Seq<PlannedBucket>) -> int
    decreases buckets.len(),
{
    if buckets.len() == 0 {
        0
    } else {
        freed_by(buckets.drop_last()) + (if buckets.last().output is Some {
            buckets.last().bytes_freed as int
        } else {
            0
        })
    }
}

/// The number of buckets that wrote an output.
pub open spec fn written_by(buckets: Seq<PlannedBucket>) -> int
    decreases buckets.len(),
{
    if buckets.len() == 0 {
        0
    } else {
        written_by(buckets.drop_last()) + (if buckets.last().output is Some {
            1int
        } else {
            0
        })
    }
}

/// The number of segments the buckets consume.
pub open spec fn consumed_by(buckets: Seq<PlannedBucket>) -> int
    decreases buckets.len(),
{
    if buckets.len() == 0 {
        0
    } else {
        consumed_by(buckets.drop_last()) + buckets.last().inputs@.len()
    }
}

/// `stats` counts what `buckets` do.
pub open spec fn counts_buckets(stats: CompactionStats, buckets: Seq<PlannedBucket>) -> bool {
    &&& stats.segments_compacted == clamped(consumed_by(buckets))
    &&& stats.new_segments == clamped(written_by(buckets))
    &&& stats.bytes_freed == clamped(freed_by(buckets))
}

/// `plan` is the pass over these candidates: the journal bucket where the
/// journal moves, then the data buckets, each at the next ULID.
pub open spec fn is_plan(
    plan: RepackPlan,
    journal: Seq<RepackCandidate>,
    data: Seq<RepackCandidate>,
    output_ulids: Seq<Ulid>,
    journal_output_ulids: Seq<Ulid>,
) -> bool {
    let lists = data_lists(data);
    let lead = lead_of(journal, data);
    &&& plan.buckets@.len() == lead + lists.len()
    &&& lead == 1 ==> is_bucket(
        plan.buckets@[0],
        journal,
        every_index(journal),
        if journal_output_ulids.len() > 0 {
            Some(journal_output_ulids[0])
        } else {
            None
        },
        true,
    )
    &&& forall|i: int|
        #![trigger plan.buckets@[lead + i]]
        0 <= i < lists.len() ==> is_bucket(
            plan.buckets@[lead + i],
            data,
            lists[i],
            Some(output_ulids[emitting(data, lists, i)]),
            false,
        )
    &&& plan.journal_untouched@ == (if lead == 1 {
        Seq::<Ulid>::empty()
    } else {
        journal.map_values(|c: RepackCandidate| c.seg_ulid)
    })
    &&& counts_buckets(plan.stats, plan.buckets@)
}

fn copy_ranges(ranges: &Vec<(u64, u32)>) -> (copy: Vec<(u64, u32)>)
    ensures
        copy@ == ranges@,
{
    let mut copy: Vec<(u64, u32)> = Vec::new();
    let mut i: usize = 0;
    while i < ranges.len()
        invariant
            i <= ranges.len(),
            copy@ =~= ranges@.take(i as int),
        decreases ranges.len() - i,
    {
        let (start, length) = ranges[i];
        copy.push((start, length));
        i += 1;
    }
    copy
}

/// Make the bucket of the candidates `idxs`. `None` where it would write an
/// output and there is no ULID for it.
fn plan_bucket(
    cands: &Vec<RepackCandidate>,
    idxs: &Vec<usize>,
    ulid: Option<Ulid>,
    journal: bool,
) -> (made: Option<PlannedBucket>)
    requires
        forall|i: int| 0 <= i < cands@.len() ==> #[trigger] cands@[i].plannable(),
        forall|i: int| 0 <= i < idxs@.len() ==> #[trigger] idxs@[i] < cands@.len(),
    ensures
        made matches Some(b) ==> is_bucket(
            b,
            cands@,
            idxs@.map_values(|i: usize| i as int),
            ulid,
            journal,
        ),
        made is None <==> ulid is None && bucket_outputs(
            cands@,
            idxs@.map_values(|i: usize| i as int),
        ).len() > 0,
{
    let ghost list = idxs@.map_values(|i: usize| i as int);
    let mut keys: Vec<u128> = Vec::new();
    let mut k: usize = 0;
    while k < idxs.len()
        invariant
            k <= idxs.len(),
            forall|i: int| 0 <= i < idxs@.len() ==> #[trigger] idxs@[i] < cands@.len(),
            list == idxs@.map_values(|i: usize| i as int),
            keys@.len() == k,
            forall|i: int| 0 <= i < k ==> #[trigger] keys@[i] == cands@[list[i]].seg_ulid.value,
        decreases idxs.len() - k,
    {
        assert(idxs@[k as int] < cands@.len());
        keys.push(cands[idxs[k]].seg_ulid.value);
        k += 1;
    }
    let order = stable_order(&keys);
    let ghost sorted = by_ulid(cands@, list);
    proof {
        assert(keys@ =~= list.map_values(|i: int| cands@[i].seg_ulid.value));
        let ints = order@.map_values(|x: usize| x as int);
        assert forall|i: int| #![trigger order@[i]] 0 <= i < order@.len() implies order@[i]
            < idxs@.len() && sorted[i] == idxs@[order@[i] as int] by {
            assert(ints[i] == order@[i]);
        }
    }
    let mut outputs: Vec<PlanOutput> = Vec::new();
    let mut inputs: Vec<PlannedInput> = Vec::new();
    let mut bytes_freed: u64 = 0;
    let mut n: usize = 0;
    while n < order.len()
        invariant
            n <= order.len(),
            order@.len() == idxs@.len(),
            sorted.len() == order@.len(),
            forall|i: int| 0 <= i < cands@.len() ==> #[trigger] cands@[i].plannable(),
            forall|i: int| 0 <= i < idxs@.len() ==> #[trigger] idxs@[i] < cands@.len(),
            forall|i: int|
                #![trigger order@[i]]
                0 <= i < order@.len() ==> order@[i] < idxs@.len() && sorted[i]
                    == idxs@[order@[i] as int],
            outputs@ == outputs_of(cands@, sorted, n as int),
            bytes_freed == clamped(dead_in(cands@, sorted, n as int)),
            dead_in(cands@, sorted, n as int) >= 0,
            inputs@.len() == n,
            forall|i: int|
                #![trigger inputs@[i]]
                0 <= i < n ==> {
                    &&& inputs@[i].input == cands@[sorted[i]].input
                    &&& inputs@[i].input_ulid == cands@[sorted[i]].seg_ulid
                    &&& inputs@[i].owned_hashes@ == cands@[sorted[i]].owned_hashes@
                    &&& inputs@[i].claim_ranges@ == cands@[sorted[i]].claim_ranges@
                },
        decreases order.len() - n,
    {
        proof {
            assert(sorted[n as int] == idxs@[order@[n as int] as int]);
            assert(idxs@[order@[n as int] as int] < cands@.len());
        }
        let c = &cands[idxs[order[n]]];
        assert(c.plannable());
        emit_plan_outputs(c.seg_ulid, &c.classifications, &mut outputs);
        let owned_hashes: Vec<ContentHash> = c.owned_hashes.clone();
        let claim_ranges = copy_ranges(&c.claim_ranges);
        assert(owned_hashes@ =~= c.owned_hashes@);
        inputs.push(
            PlannedInput { input: c.input, input_ulid: c.seg_ulid, owned_hashes, claim_ranges },
        );
        bytes_freed = bytes_freed.saturating_add(c.dead_bytes);
        n += 1;
    }
    if outputs.len() == 0 {
        return Some(PlannedBucket { inputs, output: None, bytes_freed, journal });
    }
    match ulid {
        Some(new_ulid) => Some(
            PlannedBucket {
                inputs,
                output: Some(PlannedOutput { new_ulid, outputs }),
                bytes_freed,
                journal,
            },
        ),
        None => None,
    }
}

/// Count one bucket into the stats.
fn count_bucket(stats: &mut CompactionStats, b: &PlannedBucket)
    ensures
        *final(stats) == (CompactionStats {
            segments_compacted: clamped(old(stats).segments_compacted + b.inputs@.len()) as u64,
            new_segments: clamped(
                old(stats).new_segments + (if b.output is Some {
                    1int
                } else {
                    0
                }),
            ) as u64,
            bytes_freed: clamped(
                old(stats).bytes_freed + (if b.output is Some {
                    b.bytes_freed as int
                } else {
                    0
                }),
            ) as u64,
        }),
{
    stats.segments_compacted = stats.segments_compacted.saturating_add(b.inputs.len() as u64);
    if b.output.is_some() {
        stats.new_segments = stats.new_segments.saturating_add(1);
        stats.bytes_freed = stats.bytes_freed.saturating_add(b.bytes_freed);
    }
}

proof fn lemma_counts_push(stats: CompactionStats, buckets: Seq<PlannedBucket>, b: PlannedBucket)
    requires
        counts_buckets(stats, buckets),
    ensures
        consumed_by(buckets) >= 0 && written_by(buckets) >= 0 && freed_by(buckets) >= 0,
        counts_buckets(
            CompactionStats {
                segments_compacted: clamped(stats.segments_compacted + b.inputs@.len()) as u64,
                new_segments: clamped(
                    stats.new_segments + (if b.output is Some {
                        1int
                    } else {
                        0
                    }),
                ) as u64,
                bytes_freed: clamped(
                    stats.bytes_freed + (if b.output is Some {
                        b.bytes_freed as int
                    } else {
                        0
                    }),
                ) as u64,
            },
            buckets.push(b),
        ),
{
    lemma_counts_positive(buckets);
    assert(buckets.push(b).drop_last() =~= buckets);
}

proof fn lemma_counts_positive(buckets: Seq<PlannedBucket>)
    ensures
        consumed_by(buckets) >= 0 && written_by(buckets) >= 0 && freed_by(buckets) >= 0,
    decreases buckets.len(),
{
    if buckets.len() > 0 {
        lemma_counts_positive(buckets.drop_last());
    }
}

proof fn lemma_packed_in_range(cands: Seq<RepackCandidate>, order: Seq<int>, n: int)
    requires
        0 <= n <= order.len(),
        forall|i: int| 0 <= i < order.len() ==> 0 <= #[trigger] order[i] < cands.len(),
    ensures
        forall|b: int, p: int|
            #![trigger packed(cands, order, n)[b].idxs[p]]
            0 <= b < packed(cands, order, n).len() && 0 <= p < packed(cands, order, n)[b].idxs.len()
                ==> 0 <= packed(cands, order, n)[b].idxs[p] < cands.len(),
        forall|b: int|
            0 <= b < packed(cands, order, n).len() ==> (
            #[trigger] packed(cands, order, n)[b]).idxs.len() > 0,
    decreases n,
{
    if n > 0 {
        lemma_packed_in_range(cands, order, n - 1);
        let before = packed(cands, order, n - 1);
        let after = packed(cands, order, n);
        let c = cands[order[n - 1]];
        let at = first_fit(before, c.live_bytes as int, c.live_entry_count as int, 0);
        lemma_first_fit(before, c.live_bytes as int, c.live_entry_count as int, 0);
        assert forall|b: int, p: int|
            #![trigger after[b].idxs[p]]
            0 <= b < after.len() && 0 <= p < after[b].idxs.len() implies 0 <= after[b].idxs[p]
            < cands.len() by {
            if b < before.len() && p < before[b].idxs.len() {
                assert(after[b].idxs[p] == before[b].idxs[p]);
            } else {
                assert(after[b].idxs[p] == order[n - 1]);
            }
        }
        assert forall|b: int| 0 <= b < after.len() implies (#[trigger] after[b]).idxs.len()
            > 0 by {
            if b < before.len() {
                assert(before[b].idxs.len() > 0);
            }
        }
    }
}

/// The journal output wants a ULID and none is reserved.
pub open spec fn lacks_journal_ulid(
    journal: Seq<RepackCandidate>,
    data: Seq<RepackCandidate>,
    journal_output_ulids: Seq<Ulid>,
) -> bool {
    lifts_journal(journal, data) && bucket_outputs(journal, every_index(journal)).len() > 0
        && journal_output_ulids.len() == 0
}

/// `planned` is what planning these candidates comes to: the plan, or the
/// first ULID that is missing.
pub open spec fn plans(
    planned: Result<RepackPlan, RepackError>,
    journal: Seq<RepackCandidate>,
    data: Seq<RepackCandidate>,
    output_ulids: Seq<Ulid>,
    journal_output_ulids: Seq<Ulid>,
) -> bool {
    let lists = data_lists(data);
    match planned {
        Ok(plan) => {
            &&& is_plan(plan, journal, data, output_ulids, journal_output_ulids)
            &&& !lacks_journal_ulid(journal, data, journal_output_ulids)
            &&& emitting(data, lists, lists.len() as int) <= output_ulids.len()
        },
        Err(RepackError::NoJournalUlid) => lacks_journal_ulid(journal, data, journal_output_ulids),
        Err(RepackError::OutOfUlids) => {
            &&& !lacks_journal_ulid(journal, data, journal_output_ulids)
            &&& emitting(data, lists, lists.len() as int) > output_ulids.len()
        },
    }
}

/// Plan a pass over the classified candidates.
///
/// The journal is planned first and minted above every data output. A lone
/// live journal segment moves only where the pass writes data, which mints
/// above everything pending: left at its own ULID it would land below the
/// data it commits. The data buckets follow, each at the next of the minted
/// ULIDs; a bucket of one fully live segment is skipped.
pub fn plan_repack(
    journal: &Vec<RepackCandidate>,
    data: &Vec<RepackCandidate>,
    output_ulids: &Vec<Ulid>,
    journal_output_ulids: &Vec<Ulid>,
) -> (planned: Result<RepackPlan, RepackError>)
    requires
        forall|i: int| 0 <= i < journal@.len() ==> #[trigger] journal@[i].plannable(),
        forall|i: int| 0 <= i < data@.len() ==> #[trigger] data@[i].plannable(),
    ensures
        plans(planned, journal@, data@, output_ulids@, journal_output_ulids@),
{
    let buckets = pack_buckets(data);
    let ghost model = packing(data@);
    let ghost lists = data_lists(data@);
    // Whether the pass writes or drops any data decides whether a lone
    // journal segment has to move.
    let mut emits_data: bool = false;
    let mut i: usize = 0;
    while i < buckets.len()
        invariant
            i <= buckets.len(),
            model == packing(data@),
            buckets@.len() == model.len(),
            forall|j: int| 0 <= j < buckets@.len() ==> models(#[trigger] buckets@[j], model[j]),
            forall|b: int, p: int|
                #![trigger model[b].idxs[p]]
                0 <= b < model.len() && 0 <= p < model[b].idxs.len() ==> 0 <= model[b].idxs[p]
                    < data@.len(),
            forall|b: int| 0 <= b < model.len() ==> (#[trigger] model[b]).idxs.len() > 0,
            emits_data == (worthwhile(data@, model, i as int).len() > 0),
        decreases buckets.len() - i,
    {
        let b = &buckets[i];
        proof {
            assert(models(buckets@[i as int], model[i as int]));
            assert(model[i as int].idxs[0] < data@.len());
            assert(model[i as int].idxs[0] == b.candidate_idxs@[0]);
        }
        if b.candidate_idxs.len() > 1 || !data[b.candidate_idxs[0]].all_live {
            emits_data = true;
        }
        i += 1;
    }
    let carries_itself: bool = journal.len() == 1 && journal[0].all_live;
    let lifted: bool = journal.len() > 0 && (!carries_itself || emits_data);

    let mut stats = CompactionStats { segments_compacted: 0, new_segments: 0, bytes_freed: 0 };
    let mut planned: Vec<PlannedBucket> = Vec::new();
    let mut journal_untouched: Vec<Ulid> = Vec::new();
    if lifted {
        let mut idxs: Vec<usize> = Vec::new();
        let mut j: usize = 0;
        while j < journal.len()
            invariant
                j <= journal.len(),
                idxs@.len() == j,
                forall|x: int| 0 <= x < j ==> #[trigger] idxs@[x] == x,
            decreases journal.len() - j,
        {
            idxs.push(j);
            j += 1;
        }
        assert(idxs@.map_values(|x: usize| x as int) =~= every_index(journal@));
        let reserved: Option<Ulid> = if journal_output_ulids.len() > 0 {
            Some(journal_output_ulids[0])
        } else {
            None
        };
        match plan_bucket(journal, &idxs, reserved, true) {
            Some(bucket) => {
                count_bucket(&mut stats, &bucket);
                proof {
                    lemma_counts_push(
                        CompactionStats { segments_compacted: 0, new_segments: 0, bytes_freed: 0 },
                        Seq::<PlannedBucket>::empty(),
                        bucket,
                    );
                    assert(Seq::<PlannedBucket>::empty().push(bucket) =~= planned@.push(bucket));
                }
                planned.push(bucket);
            },
            None => {
                return Err(RepackError::NoJournalUlid);
            },
        }
    } else {
        let mut j: usize = 0;
        while j < journal.len()
            invariant
                j <= journal.len(),
                journal_untouched@ =~= journal@.take(j as int).map_values(
                    |c: RepackCandidate| c.seg_ulid,
                ),
            decreases journal.len() - j,
        {
            journal_untouched.push(journal[j].seg_ulid);
            j += 1;
        }
        assert(journal@.take(journal@.len() as int) =~= journal@);
    }
    let ghost lead = planned@.len() as int;
    let ghost opening = planned@;
    let mut next_output: usize = 0;
    let mut n: usize = 0;
    while n < buckets.len()
        invariant
            n <= buckets.len(),
            model == packing(data@),
            lists == data_lists(data@),
            buckets@.len() == model.len(),
            forall|j: int| 0 <= j < data@.len() ==> #[trigger] data@[j].plannable(),
            forall|j: int| 0 <= j < buckets@.len() ==> models(#[trigger] buckets@[j], model[j]),
            forall|b: int, p: int|
                #![trigger model[b].idxs[p]]
                0 <= b < model.len() && 0 <= p < model[b].idxs.len() ==> 0 <= model[b].idxs[p]
                    < data@.len(),
            forall|b: int| 0 <= b < model.len() ==> (#[trigger] model[b]).idxs.len() > 0,
            lead == opening.len(),
            planned@.len() == lead + worthwhile(data@, model, n as int).len(),
            forall|j: int| 0 <= j < lead ==> planned@[j] == opening[j],
            counts_buckets(stats, planned@),
            next_output == emitting(
                data@,
                lists,
                worthwhile(data@, model, n as int).len() as int,
            ),
            next_output <= output_ulids@.len(),
            forall|j: int|
                #![trigger planned@[lead + j]]
                0 <= j < worthwhile(data@, model, n as int).len() ==> is_bucket(
                    planned@[lead + j],
                    data@,
                    lists[j],
                    Some(output_ulids@[emitting(data@, lists, j)]),
                    false,
                ),
            !(lifts_journal(journal@, data@) && bucket_outputs(
                journal@,
                every_index(journal@),
            ).len() > 0 && journal_output_ulids@.len() == 0),
        decreases buckets.len() - n,
    {
        let b = &buckets[n];
        let ghost before = worthwhile(data@, model, n as int);
        proof {
            assert(models(buckets@[n as int], model[n as int]));
            assert(model[n as int].idxs[0] < data@.len());
            assert(model[n as int].idxs[0] == b.candidate_idxs@[0]);
            assert forall|x: int| 0 <= x < b.candidate_idxs@.len() implies
                #[trigger] b.candidate_idxs@[x] < data@.len() by {
                assert(model[n as int].idxs[x] == b.candidate_idxs@[x]);
            }
            lemma_worthwhile_prefix(data@, model, n as int, model.len() as int);
            lemma_worthwhile_prefix(data@, model, n as int + 1, model.len() as int);
        }
        let no_op: bool = b.candidate_idxs.len() == 1 && data[b.candidate_idxs[0]].all_live;
        if !no_op {
            let ghost place = before.len() as int;
            assert(lists[place] == model[n as int].idxs) by {
                assert(worthwhile(data@, model, n as int + 1)[place] == model[n as int].idxs);
            }
            let ulid: Option<Ulid> = if next_output < output_ulids.len() {
                Some(output_ulids[next_output])
            } else {
                None
            };
            match plan_bucket(data, &b.candidate_idxs, ulid, false) {
                Some(bucket) => {
                    let ghost was = stats;
                    count_bucket(&mut stats, &bucket);
                    proof {
                        lemma_counts_push(was, planned@, bucket);
                        assert(emitting(data@, lists, place + 1) == next_output + (
                        if bucket.output is Some {
                            1int
                        } else {
                            0
                        }));
                    }
                    if bucket.output.is_some() {
                        next_output += 1;
                    }
                    planned.push(bucket);
                },
                None => {
                    proof {
                        assert(emitting(data@, lists, place + 1) == next_output + 1);
                        lemma_emitting_grows(data@, lists, place + 1, lists.len() as int);
                    }
                    return Err(RepackError::OutOfUlids);
                },
            }
        }
        n += 1;
    }
    Ok(RepackPlan { buckets: planned, journal_untouched, stats })
}

proof fn lemma_worthwhile_prefix(
    cands: Seq<RepackCandidate>,
    buckets: Seq<BucketModel>,
    n: int,
    m: int,
)
    requires
        0 <= n <= m,
    ensures
        worthwhile(cands, buckets, n).len() <= worthwhile(cands, buckets, m).len(),
        forall|i: int|
            0 <= i < worthwhile(cands, buckets, n).len() ==> #[trigger] worthwhile(
                cands,
                buckets,
                m,
            )[i] == worthwhile(cands, buckets, n)[i],
    decreases m - n,
{
    if n < m {
        lemma_worthwhile_prefix(cands, buckets, n, m - 1);
    }
}

proof fn lemma_emitting_grows(cands: Seq<RepackCandidate>, lists: Seq<Seq<int>>, n: int, m: int)
    requires
        0 <= n <= m,
    ensures
        emitting(cands, lists, n) <= emitting(cands, lists, m),
    decreases m - n,
{
    if n < m {
        lemma_emitting_grows(cands, lists, n, m - 1);
    }
}

// ---------------------------------------------------------------------------
// Laws of a plan
// ---------------------------------------------------------------------------

/// Putting candidates in ULID order loses none and adds none.
proof fn lemma_by_ulid(cands: Seq<RepackCandidate>, idxs: Seq<int>)
    ensures
        by_ulid(cands, idxs).len() == idxs.len(),
        forall|p: int|
            0 <= p < idxs.len() ==> by_ulid(cands, idxs).contains(#[trigger] idxs[p]),
        forall|i: int|
            0 <= i < idxs.len() ==> idxs.contains(#[trigger] by_ulid(cands, idxs)[i]),
        forall|i: int, j: int|
            #![trigger by_ulid(cands, idxs)[i], by_ulid(cands, idxs)[j]]
            0 <= i < j < idxs.len() ==> cands[by_ulid(cands, idxs)[i]].seg_ulid.value
                <= cands[by_ulid(cands, idxs)[j]].seg_ulid.value,
{
    let keys = idxs.map_values(|i: int| cands[i].seg_ulid.value);
    let order = crate::order::stable_order_of(keys);
    let sorted = by_ulid(cands, idxs);
    crate::order::lemma_order_exists(keys);
    assert forall|p: int| 0 <= p < idxs.len() implies sorted.contains(#[trigger] idxs[p]) by {
        crate::order::lemma_order_is_onto(keys, order, p);
        let i = choose|i: int| 0 <= i < order.len() && #[trigger] order[i] == p;
        assert(sorted[i] == idxs[p]);
    }
    assert forall|i: int| 0 <= i < idxs.len() implies idxs.contains(#[trigger] sorted[i]) by {
        assert(0 <= order[i] < keys.len());
        assert(sorted[i] == idxs[order[i]]);
    }
    assert forall|i: int, j: int|
        #![trigger sorted[i], sorted[j]]
        0 <= i < j < idxs.len() implies cands[sorted[i]].seg_ulid.value
        <= cands[sorted[j]].seg_ulid.value by {
        assert(crate::order::ahead(keys, order[i], order[j]));
        assert(keys[order[i]] == cands[sorted[i]].seg_ulid.value);
        assert(keys[order[j]] == cands[sorted[j]].seg_ulid.value);
    }
}

/// The bucket consumes the segment.
pub open spec fn consumes(b: PlannedBucket, ulid: Ulid) -> bool {
    exists|x: int| 0 <= x < b.inputs@.len() && (#[trigger] b.inputs@[x]).input_ulid == ulid
}

proof fn lemma_bucket_consumes(
    b: PlannedBucket,
    cands: Seq<RepackCandidate>,
    idxs: Seq<int>,
    ulid: Option<Ulid>,
    journal: bool,
    p: int,
)
    requires
        is_bucket(b, cands, idxs, ulid, journal),
        0 <= p < idxs.len(),
    ensures
        consumes(b, cands[idxs[p]].seg_ulid),
{
    lemma_by_ulid(cands, idxs);
    let sorted = by_ulid(cands, idxs);
    assert(sorted.contains(idxs[p]));
    let i = choose|i: int| 0 <= i < sorted.len() && sorted[i] == idxs[p];
    assert(b.inputs@[i].input_ulid == cands[sorted[i]].seg_ulid);
}

/// A pass that writes or drops any data takes the journal along: no journal
/// segment stays at its old ULID, below the data it commits. Each is consumed
/// by the journal's own bucket, which is the plan's first.
pub proof fn law_no_data_moves_without_the_journal(
    plan: RepackPlan,
    journal: Seq<RepackCandidate>,
    data: Seq<RepackCandidate>,
    output_ulids: Seq<Ulid>,
    journal_output_ulids: Seq<Ulid>,
    b: int,
    j: int,
)
    requires
        plans(Ok(plan), journal, data, output_ulids, journal_output_ulids),
        0 <= b < plan.buckets@.len(),
        !plan.buckets@[b].journal,
        0 <= j < journal.len(),
    ensures
        plan.journal_untouched@.len() == 0,
        plan.buckets@[0].journal,
        consumes(plan.buckets@[0], journal[j].seg_ulid),
{
    let lead = lead_of(journal, data);
    assert(plan.buckets@[lead + (b - lead)] == plan.buckets@[b]);
    assert(lead == 1);
    assert(every_index(journal)[j] == j);
    lemma_bucket_consumes(
        plan.buckets@[0],
        journal,
        every_index(journal),
        if journal_output_ulids.len() > 0 {
            Some(journal_output_ulids[0])
        } else {
            None
        },
        true,
        j,
    );
}

/// A journal segment is consumed by the journal's bucket, or is listed as left
/// where it is; it is left only alone, whole and without any bucket at all.
pub proof fn law_every_journal_segment_is_accounted_for(
    plan: RepackPlan,
    journal: Seq<RepackCandidate>,
    data: Seq<RepackCandidate>,
    output_ulids: Seq<Ulid>,
    journal_output_ulids: Seq<Ulid>,
    j: int,
)
    requires
        plans(Ok(plan), journal, data, output_ulids, journal_output_ulids),
        0 <= j < journal.len(),
    ensures
        if plan.journal_untouched@.contains(journal[j].seg_ulid) {
            journal.len() == 1 && journal[0].all_live && plan.buckets@.len() == 0
        } else {
            plan.buckets@.len() > 0 && plan.buckets@[0].journal && consumes(
                plan.buckets@[0],
                journal[j].seg_ulid,
            )
        },
        !journal[j].all_live || journal.len() > 1 ==> plan.buckets@.len() > 0
            && plan.buckets@[0].journal && consumes(plan.buckets@[0], journal[j].seg_ulid),
{
    let lead = lead_of(journal, data);
    if lead == 1 {
        assert(every_index(journal)[j] == j);
        lemma_bucket_consumes(
            plan.buckets@[0],
            journal,
            every_index(journal),
            if journal_output_ulids.len() > 0 {
                Some(journal_output_ulids[0])
            } else {
                None
            },
            true,
            j,
        );
    } else {
        assert(plan.journal_untouched@[j] == journal[j].seg_ulid);
    }
}

/// A bucket that is no no-op is among the worthwhile ones.
proof fn lemma_worthwhile_has(
    cands: Seq<RepackCandidate>,
    buckets: Seq<BucketModel>,
    n: int,
    b: int,
)
    requires
        0 <= b < n,
        !is_no_op(cands, buckets[b].idxs),
    ensures
        worthwhile(cands, buckets, n).contains(buckets[b].idxs),
    decreases n,
{
    let now = worthwhile(cands, buckets, n);
    if b == n - 1 {
        assert(now[now.len() - 1] == buckets[b].idxs);
    } else {
        lemma_worthwhile_has(cands, buckets, n - 1, b);
        let before = worthwhile(cands, buckets, n - 1);
        let i = choose|i: int| 0 <= i < before.len() && before[i] == buckets[b].idxs;
        assert(now[i] == before[i]);
    }
}

/// The worthwhile ones are buckets, and none is a no-op.
proof fn lemma_worthwhile_is(
    cands: Seq<RepackCandidate>,
    buckets: Seq<BucketModel>,
    n: int,
    i: int,
)
    requires
        0 <= i < worthwhile(cands, buckets, n).len(),
    ensures
        exists|b: int|
            0 <= b < n && (#[trigger] buckets[b]).idxs == worthwhile(cands, buckets, n)[i],
        !is_no_op(cands, worthwhile(cands, buckets, n)[i]),
    decreases n,
{
    if n > 0 {
        let before = worthwhile(cands, buckets, n - 1);
        if i < before.len() {
            lemma_worthwhile_is(cands, buckets, n - 1, i);
            let b = choose|b: int| 0 <= b < n - 1 && (#[trigger] buckets[b]).idxs == before[i];
            assert(0 <= b < n && buckets[b].idxs == before[i]);
        } else {
            assert(buckets[n - 1].idxs == worthwhile(cands, buckets, n)[i]);
        }
    }
}

/// The order of packing lists every candidate once.
proof fn lemma_largest_first(cands: Seq<RepackCandidate>)
    ensures
        largest_first(cands).len() == cands.len(),
        largest_first(cands).no_duplicates(),
        forall|i: int|
            0 <= i < cands.len() ==> 0 <= #[trigger] largest_first(cands)[i] < cands.len(),
        forall|d: int| 0 <= d < cands.len() ==> #[trigger] largest_first(cands).contains(d),
{
    let keys = cands.map_values(|c: RepackCandidate| (u64::MAX - c.live_bytes) as u128);
    crate::order::lemma_order_exists(keys);
    let order = largest_first(cands);
    assert forall|d: int| 0 <= d < cands.len() implies #[trigger] order.contains(d) by {
        crate::order::lemma_order_is_onto(keys, order, d);
        let i = choose|i: int| 0 <= i < order.len() && #[trigger] order[i] == d;
        assert(order[i] == d);
    }
}

/// A data segment with anything dead is consumed by a data bucket; one that is
/// fully live is too, or is left where it is.
pub proof fn law_every_data_segment_is_accounted_for(
    plan: RepackPlan,
    journal: Seq<RepackCandidate>,
    data: Seq<RepackCandidate>,
    output_ulids: Seq<Ulid>,
    journal_output_ulids: Seq<Ulid>,
    d: int,
)
    requires
        plans(Ok(plan), journal, data, output_ulids, journal_output_ulids),
        0 <= d < data.len(),
        !data[d].all_live,
    ensures
        exists|b: int|
            0 <= b < plan.buckets@.len() && !(#[trigger] plan.buckets@[b]).journal && consumes(
                plan.buckets@[b],
                data[d].seg_ulid,
            ),
{
    let order = largest_first(data);
    lemma_largest_first(data);
    law_packing_is_a_partition(data, order, data.len() as int);
    assert(order.contains(d));
    let i = choose|i: int| 0 <= i < order.len() && order[i] == d;
    assert(has_place(packing(data), order[i]));
    let (b, p) = choose|b: int, p: int| placed(packing(data), d, b, p);
    assert(placed(packing(data), d, b, p));
    let idxs = packing(data)[b].idxs;
    assert(!is_no_op(data, idxs)) by {
        if is_no_op(data, idxs) {
            assert(p == 0);
        }
    }
    lemma_worthwhile_has(data, packing(data), packing(data).len() as int, b);
    let lists = data_lists(data);
    let x = choose|x: int| 0 <= x < lists.len() && lists[x] == idxs;
    let lead = lead_of(journal, data);
    let bucket = plan.buckets@[lead + x];
    lemma_bucket_consumes(
        bucket,
        data,
        lists[x],
        Some(output_ulids[emitting(data, lists, x)]),
        false,
        p,
    );
    assert(consumes(plan.buckets@[lead + x], data[d].seg_ulid));
}

/// The input is one of the candidates, with what it owns and claims.
pub open spec fn is_input_of(input: PlannedInput, cands: Seq<RepackCandidate>, d: int) -> bool {
    &&& 0 <= d < cands.len()
    &&& cands[d].seg_ulid == input.input_ulid
    &&& cands[d].input == input.input
    &&& cands[d].owned_hashes@ == input.owned_hashes@
    &&& cands[d].claim_ranges@ == input.claim_ranges@
}

/// No bucket rewrites one fully live data segment: that would change nothing.
/// And a bucket is of one tier: what it consumes are journal candidates, or
/// data candidates, by ascending ULID.
pub proof fn law_a_bucket_is_of_one_tier(
    plan: RepackPlan,
    journal: Seq<RepackCandidate>,
    data: Seq<RepackCandidate>,
    output_ulids: Seq<Ulid>,
    journal_output_ulids: Seq<Ulid>,
    b: int,
    x: int,
    y: int,
)
    requires
        plans(Ok(plan), journal, data, output_ulids, journal_output_ulids),
        0 <= b < plan.buckets@.len(),
        0 <= x <= y < plan.buckets@[b].inputs@.len(),
    ensures
        ({
            let bucket = plan.buckets@[b];
            &&& bucket.inputs@[x].input_ulid.value <= bucket.inputs@[y].input_ulid.value
            &&& bucket.journal ==> exists|d: int| #[trigger]
                is_input_of(bucket.inputs@[x], journal, d)
            &&& !bucket.journal ==> exists|d: int| #[trigger]
                is_input_of(bucket.inputs@[x], data, d) && (bucket.inputs@.len() == 1
                    ==> !data[d].all_live)
            &&& bucket.journal ==> b == 0
        }),
{
    let lists = data_lists(data);
    let lead = lead_of(journal, data);
    let bucket = plan.buckets@[b];
    if lead == 1 && b == 0 {
        let idxs = every_index(journal);
        lemma_by_ulid(journal, idxs);
        let sorted = by_ulid(journal, idxs);
        assert(idxs.contains(sorted[x]));
        let d = sorted[x];
        assert(bucket.inputs@[x].input_ulid == journal[d].seg_ulid);
        assert(bucket.inputs@[y].input_ulid == journal[sorted[y]].seg_ulid);
        assert(is_input_of(bucket.inputs@[x], journal, d));
    } else {
        let i = b - lead;
        assert(plan.buckets@[lead + i] == bucket);
        let idxs = lists[i];
        lemma_by_ulid(data, idxs);
        let sorted = by_ulid(data, idxs);
        assert(idxs.contains(sorted[x]));
        let p = choose|p: int| 0 <= p < idxs.len() && idxs[p] == sorted[x];
        lemma_worthwhile_is(data, packing(data), packing(data).len() as int, i);
        let m = choose|m: int|
            0 <= m < packing(data).len() && (#[trigger] packing(data)[m]).idxs == idxs;
        lemma_largest_first(data);
        lemma_packed_in_range(data, largest_first(data), data.len() as int);
        assert(0 <= packing(data)[m].idxs[p] < data.len());
        let d = sorted[x];
        assert(bucket.inputs@[x].input_ulid == data[d].seg_ulid);
        assert(bucket.inputs@[y].input_ulid == data[sorted[y]].seg_ulid);
        assert(is_input_of(bucket.inputs@[x], data, d));
        if bucket.inputs@.len() == 1 {
            assert(p == 0);
            assert(!data[d].all_live);
        }
    }
}

proof fn lemma_outputs_of_has(
    cands: Seq<RepackCandidate>,
    order: Seq<int>,
    n: int,
    i: int,
    o: PlanOutput,
)
    requires
        0 <= i < n,
        segment_outputs(
            cands[order[i]].seg_ulid,
            cands[order[i]].classifications@,
            cands[order[i]].classifications@.len() as int,
        ).contains(o),
    ensures
        outputs_of(cands, order, n).contains(o),
    decreases n,
{
    let before = outputs_of(cands, order, n - 1);
    let c = cands[order[n - 1]];
    let more = segment_outputs(c.seg_ulid, c.classifications@, c.classifications@.len() as int);
    if i == n - 1 {
        let x = choose|x: int| 0 <= x < more.len() && more[x] == o;
        assert(outputs_of(cands, order, n)[before.len() + x] == o);
    } else {
        lemma_outputs_of_has(cands, order, n - 1, i, o);
        let x = choose|x: int| 0 <= x < before.len() && before[x] == o;
        assert(outputs_of(cands, order, n)[x] == o);
    }
}

proof fn lemma_outputs_of_is(cands: Seq<RepackCandidate>, order: Seq<int>, n: int, x: int) -> (i:
    int)
    requires
        0 <= x < outputs_of(cands, order, n).len(),
    ensures
        0 <= i < n,
        segment_outputs(
            cands[order[i]].seg_ulid,
            cands[order[i]].classifications@,
            cands[order[i]].classifications@.len() as int,
        ).contains(outputs_of(cands, order, n)[x]),
    decreases n,
{
    if n <= 0 {
        0
    } else {
        let before = outputs_of(cands, order, n - 1);
        let c = cands[order[n - 1]];
        let more = segment_outputs(c.seg_ulid, c.classifications@, c.classifications@.len() as int);
        if x < before.len() {
            lemma_outputs_of_is(cands, order, n - 1, x)
        } else {
            assert(more[x - before.len()] == outputs_of(cands, order, n)[x]);
            n - 1
        }
    }
}

proof fn lemma_segment_outputs_has(
    input: Ulid,
    classes: Seq<EntryClassification>,
    n: int,
    e: int,
    o: PlanOutput,
)
    requires
        0 <= e < n,
        entry_outputs(input, e as u32, classes[e]).contains(o),
    ensures
        segment_outputs(input, classes, n).contains(o),
    decreases n,
{
    let before = segment_outputs(input, classes, n - 1);
    let more = entry_outputs(input, (n - 1) as u32, classes[n - 1]);
    if e == n - 1 {
        let x = choose|x: int| 0 <= x < more.len() && more[x] == o;
        assert(segment_outputs(input, classes, n)[before.len() + x] == o);
    } else {
        lemma_segment_outputs_has(input, classes, n - 1, e, o);
        let x = choose|x: int| 0 <= x < before.len() && before[x] == o;
        assert(segment_outputs(input, classes, n)[x] == o);
    }
}

proof fn lemma_segment_outputs_is(
    input: Ulid,
    classes: Seq<EntryClassification>,
    n: int,
    x: int,
) -> (e: int)
    requires
        0 <= x < segment_outputs(input, classes, n).len(),
    ensures
        0 <= e < n,
        entry_outputs(input, e as u32, classes[e]).contains(segment_outputs(input, classes, n)[x]),
    decreases n,
{
    if n <= 0 {
        0
    } else {
        let before = segment_outputs(input, classes, n - 1);
        let more = entry_outputs(input, (n - 1) as u32, classes[n - 1]);
        if x < before.len() {
            lemma_segment_outputs_is(input, classes, n - 1, x)
        } else {
            assert(more[x - before.len()] == segment_outputs(input, classes, n)[x]);
            n - 1
        }
    }
}

/// The class of some entry of one of the candidates gives the record.
pub open spec fn given_by(cands: Seq<RepackCandidate>, idxs: Seq<int>, o: PlanOutput) -> bool {
    exists|p: int, e: int|
        0 <= p < idxs.len() && 0 <= e < cands[idxs[p]].classifications@.len()
            && #[trigger] entry_outputs(
            cands[idxs[p]].seg_ulid,
            e as u32,
            cands[idxs[p]].classifications@[e],
        ).contains(o)
}

/// What a bucket writes is what its inputs come to: whatever record the class
/// of any entry of any candidate of it gives is in its output, and its output
/// holds no other. A bucket without one drops candidates whose every entry is
/// dead.
pub proof fn law_a_bucket_carries_just_its_inputs(
    b: PlannedBucket,
    cands: Seq<RepackCandidate>,
    idxs: Seq<int>,
    ulid: Option<Ulid>,
    journal: bool,
)
    requires
        is_bucket(b, cands, idxs, ulid, journal),
    ensures
        forall|o: PlanOutput| #[trigger]
            given_by(cands, idxs, o) ==> b.output is Some && (b.output->0).outputs@.contains(o),
        b.output matches Some(written) ==> {
            &&& written.outputs@.len() > 0
            &&& Some(written.new_ulid) == ulid
            &&& forall|x: int|
                0 <= x < written.outputs@.len() ==> given_by(
                    cands,
                    idxs,
                    #[trigger] written.outputs@[x],
                )
        },
{
    let sorted = by_ulid(cands, idxs);
    lemma_by_ulid(cands, idxs);
    let all = bucket_outputs(cands, idxs);
    assert forall|o: PlanOutput| #[trigger] given_by(cands, idxs, o) implies b.output is Some && (
    b.output->0).outputs@.contains(o) by {
        let (p, e) = choose|p: int, e: int|
            0 <= p < idxs.len() && 0 <= e < cands[idxs[p]].classifications@.len()
                && #[trigger] entry_outputs(
                cands[idxs[p]].seg_ulid,
                e as u32,
                cands[idxs[p]].classifications@[e],
            ).contains(o);
        assert(sorted.contains(idxs[p]));
        let i = choose|i: int| 0 <= i < sorted.len() && sorted[i] == idxs[p];
        let c = cands[idxs[p]];
        lemma_segment_outputs_has(
            c.seg_ulid,
            c.classifications@,
            c.classifications@.len() as int,
            e,
            o,
        );
        lemma_outputs_of_has(cands, sorted, idxs.len() as int, i, o);
        assert(all.contains(o));
    }
    if b.output is Some {
        let written = b.output->0;
        assert forall|x: int| 0 <= x < written.outputs@.len() implies given_by(
            cands,
            idxs,
            #[trigger] written.outputs@[x],
        ) by {
            let i = lemma_outputs_of_is(cands, sorted, idxs.len() as int, x);
            assert(idxs.contains(sorted[i]));
            let p = choose|p: int| 0 <= p < idxs.len() && idxs[p] == sorted[i];
            let c = cands[idxs[p]];
            let part = segment_outputs(
                c.seg_ulid,
                c.classifications@,
                c.classifications@.len() as int,
            );
            let y = choose|y: int| 0 <= y < part.len() && part[y] == all[x];
            let e = lemma_segment_outputs_is(
                c.seg_ulid,
                c.classifications@,
                c.classifications@.len() as int,
                y,
            );
            assert(entry_outputs(c.seg_ulid, e as u32, c.classifications@[e]).contains(
                written.outputs@[x],
            ));
        }
    }
}

/// Every output has a ULID that was minted for it: the journal's the first of
/// those reserved for it, a data output one of the others, and no two outputs
/// the same one. Where the reserved one is above all the others, the journal
/// lands above all the data.
pub proof fn law_outputs_take_minted_ulids(
    plan: RepackPlan,
    journal: Seq<RepackCandidate>,
    data: Seq<RepackCandidate>,
    output_ulids: Seq<Ulid>,
    journal_output_ulids: Seq<Ulid>,
    b: int,
    c: int,
)
    requires
        plans(Ok(plan), journal, data, output_ulids, journal_output_ulids),
        0 <= b < c < plan.buckets@.len(),
        plan.buckets@[b].output is Some,
        plan.buckets@[c].output is Some,
    ensures
        ({
            let (first, second) = (
                (plan.buckets@[b].output->0).new_ulid,
                (plan.buckets@[c].output->0).new_ulid,
            );
            &&& !plan.buckets@[c].journal
            &&& plan.buckets@[b].journal ==> journal_output_ulids.len() > 0 && first
                == journal_output_ulids[0]
            &&& exists|y: int| 0 <= y < output_ulids.len() && #[trigger] output_ulids[y] == second
            &&& !plan.buckets@[b].journal ==> exists|x: int, y: int|
                0 <= x < y < output_ulids.len() && #[trigger] output_ulids[x] == first
                    && #[trigger] output_ulids[y] == second
            &&& plan.buckets@[b].journal && (forall|y: int|
                0 <= y < output_ulids.len() ==> (#[trigger] output_ulids[y]).value
                    < journal_output_ulids[0].value) ==> second.value < first.value
        }),
{
    let lists = data_lists(data);
    let lead = lead_of(journal, data);
    assert(plan.buckets@[lead + (c - lead)] == plan.buckets@[c]);
    let n = lists.len() as int;
    lemma_emitting_grows(data, lists, 0, c - lead);
    lemma_emitting_grows(data, lists, c - lead + 1, n);
    let y = emitting(data, lists, c - lead);
    assert(0 <= y < output_ulids.len());
    assert(output_ulids[y] == (plan.buckets@[c].output->0).new_ulid);
    if b >= lead {
        assert(plan.buckets@[lead + (b - lead)] == plan.buckets@[b]);
        lemma_emitting_grows(data, lists, 0, b - lead);
        lemma_emitting_grows(data, lists, b - lead + 1, c - lead);
        let x = emitting(data, lists, b - lead);
        assert(0 <= x < y);
        assert(output_ulids[x] == (plan.buckets@[b].output->0).new_ulid);
    }
}

// ---------------------------------------------------------------------------
// The pass
// ---------------------------------------------------------------------------

/// Every hash that must stay resolvable: those a block claims, and those a
/// registered delta can be decoded against.
pub open spec fn live_set(maps: Maps) -> Set<ContentHash> {
    Set::new(
        |h: ContentHash|
            crate::lbamap::claim_keys(maps.lbamap.entries(), h).len() > 0
                || maps.extent_index.names_source(h),
    )
}

/// The hashes of `live_set`.
pub fn live_hashes(maps: &Maps) -> (live: Blake3HashSet)
    requires
        maps.wf(),
    ensures
        live@ == live_set(*maps),
{
    let mut live = maps.lbamap.claim_referenced_hashes();
    maps.extent_index.add_named_delta_sources(&mut live);
    assert(live@ =~= live_set(*maps));
    live
}

/// The measure of segment `i` of the listing.
pub open spec fn scan_of(i: int, segment: ParsedSegment, live: Set<ContentHash>) -> ScannedSegment {
    ScannedSegment {
        input: i as usize,
        seg_ulid: segment.ulid,
        stored_bytes: body_bytes(segment.entries@) as u64,
        journal: exists|j: int|
            0 <= j < segment.entries@.len() && (#[trigger] segment.entries@[j]).journal,
        all_live: live_body_bytes(segment.entries@, live) == body_bytes(segment.entries@),
    }
}

/// The measures of the first `n` segments of the listing that lie above the
/// floor.
pub open spec fn scans_of(
    segments: Seq<ParsedSegment>,
    floor: Option<Ulid>,
    live: Set<ContentHash>,
    n: int,
) -> Seq<ScannedSegment>
    decreases n,
{
    if n <= 0 {
        Seq::empty()
    } else if floor matches Some(f) && segments[n - 1].ulid.value <= f.value {
        scans_of(segments, floor, live, n - 1)
    } else {
        scans_of(segments, floor, live, n - 1).push(scan_of(n - 1, segments[n - 1], live))
    }
}

/// `cands` are the candidates of `scans`, one each.
pub open spec fn candidates_of(
    cands: Seq<RepackCandidate>,
    scans: Seq<ScannedSegment>,
    segments: Seq<ParsedSegment>,
    maps: Maps,
) -> bool {
    &&& cands.len() == scans.len()
    &&& forall|i: int|
        #![trigger cands[i]]
        0 <= i < cands.len() ==> {
            &&& cands[i].of_entries(
                segments[scans[i].input as int].entries@,
                maps.lbamap,
                maps.extent_index,
                live_set(maps),
                scans[i].seg_ulid,
            )
            &&& cands[i].input == scans[i].input
            &&& cands[i].all_live == scans[i].all_live
        }
}

/// A repack pass over the parsed segments of a listing: measure those above
/// the floor, admit them within the budget, classify what was admitted, and
/// plan it.
pub fn execute_repack(
    segments: &Vec<ParsedSegment>,
    floor: Option<Ulid>,
    work_budget: u64,
    maps: &Maps,
    output_ulids: &Vec<Ulid>,
    journal_output_ulids: &Vec<Ulid>,
) -> (pass: (Admission, Result<RepackPlan, RepackError>))
    requires
        maps.wf(),
        forall|i: int|
            0 <= i < segments@.len() ==> #[trigger] segments@[i].in_range() && body_bytes(
                segments@[i].entries@,
            ) <= u64::MAX && segments@[i].entries@.len() <= u32::MAX,
    ensures
        admits(
            pass.0,
            scans_of(segments@, floor, live_set(*maps), segments@.len() as int),
            work_budget,
        ),
        exists|journal: Seq<RepackCandidate>, data: Seq<RepackCandidate>|
            #![trigger plans(pass.1, journal, data, output_ulids@, journal_output_ulids@)]
            candidates_of(journal, tier(pass.0.admitted@, true), segments@, *maps)
                && candidates_of(data, tier(pass.0.admitted@, false), segments@, *maps) && plans(
                pass.1,
                journal,
                data,
                output_ulids@,
                journal_output_ulids@,
            ),
{
    let live = live_hashes(maps);
    let mut scanned: Vec<ScannedSegment> = Vec::new();
    let mut i: usize = 0;
    while i < segments.len()
        invariant
            i <= segments.len(),
            live@ == live_set(*maps),
            forall|j: int|
                0 <= j < segments@.len() ==> #[trigger] segments@[j].in_range() && body_bytes(
                    segments@[j].entries@,
                ) <= u64::MAX && segments@[j].entries@.len() <= u32::MAX,
            scanned@ == scans_of(segments@, floor, live@, i as int),
            forall|j: int| 0 <= j < scanned@.len() ==> (#[trigger] scanned@[j]).input < i,
        decreases segments.len() - i,
    {
        let s = &segments[i];
        assert(segments@[i as int].in_range());
        if above_floor(s.ulid, floor) {
            proof {
                lemma_body_bytes_prefix(s.entries@, s.entries@.len() as int);
                assert(s.entries@.take(s.entries@.len() as int) =~= s.entries@);
            }
            let scan = scan_segment(i, s.ulid, &s.entries, &live);
            assert(scan == scan_of(i as int, *s, live@));
            scanned.push(scan);
        }
        i += 1;
    }
    let ghost scans = scanned@;
    let admission = admit_within_budget(scanned, work_budget);
    assert forall|j: int| 0 <= j < admission.admitted@.len() implies (
    #[trigger] admission.admitted@[j]).input < segments@.len() by {
        assert(scans.contains(admission.admitted@[j]));
    }
    let mut journal: Vec<RepackCandidate> = Vec::new();
    let mut data: Vec<RepackCandidate> = Vec::new();
    let mut n: usize = 0;
    while n < admission.admitted.len()
        invariant
            n <= admission.admitted.len(),
            maps.wf(),
            live@ == live_set(*maps),
            forall|j: int|
                0 <= j < segments@.len() ==> #[trigger] segments@[j].in_range() && body_bytes(
                    segments@[j].entries@,
                ) <= u64::MAX && segments@[j].entries@.len() <= u32::MAX,
            forall|j: int|
                0 <= j < admission.admitted@.len() ==> (#[trigger] admission.admitted@[j]).input
                    < segments@.len(),
            candidates_of(
                journal@,
                tier(admission.admitted@.take(n as int), true),
                segments@,
                *maps,
            ),
            candidates_of(
                data@,
                tier(admission.admitted@.take(n as int), false),
                segments@,
                *maps,
            ),
            forall|j: int| 0 <= j < journal@.len() ==> #[trigger] journal@[j].plannable(),
            forall|j: int| 0 <= j < data@.len() ==> #[trigger] data@[j].plannable(),
        decreases admission.admitted.len() - n,
    {
        let scan = admission.admitted[n];
        let ghost listed = admission.admitted@;
        assert(listed.take(n as int + 1).drop_last() =~= listed.take(n as int));
        assert(listed[n as int].input < segments@.len());
        let segment = &segments[scan.input];
        assert(segment.in_range());
        let ctx = ClassifyCtx {
            lba_map: &maps.lbamap,
            extent_index: &maps.extent_index,
            live_hashes: &live,
            segment_id: scan.seg_ulid,
        };
        let candidate = make_candidate(&scan, &segment.entries, &ctx);
        if scan.journal {
            journal.push(candidate);
        } else {
            data.push(candidate);
        }
        n += 1;
    }
    assert(admission.admitted@.take(admission.admitted@.len() as int) =~= admission.admitted@);
    let plan = plan_repack(&journal, &data, output_ulids, journal_output_ulids);
    let pass = (admission, plan);
    proof {
        assert(plans(pass.1, journal@, data@, output_ulids@, journal_output_ulids@));
        assert(candidates_of(journal@, tier(pass.0.admitted@, true), segments@, *maps));
        assert(candidates_of(data@, tier(pass.0.admitted@, false), segments@, *maps));
    }
    pass
}

// ---------------------------------------------------------------------------
// Laws of scanning, admission and packing
// ---------------------------------------------------------------------------

/// A hash is live just where a block reads it, or a delta on record is made of
/// it.
pub proof fn law_live_hashes_are_read_or_named(maps: Maps, h: ContentHash)
    requires
        maps.wf(),
    ensures
        live_set(maps).contains(h) <==> (exists|lba: int|
            #![trigger maps.lbamap.at(lba)]
            maps.lbamap.at(lba) is Some && (maps.lbamap.at(lba)->0).0 == h) || (exists|
            i: int,
            j: int,
        |
            #![trigger maps.extent_index.delta_slots()[i].1.options@[j]]
            0 <= i < maps.extent_index.delta_slots().len() && 0 <= j
                < maps.extent_index.delta_slots()[i].1.options@.len()
                && maps.extent_index.delta_slots()[i].1.options@[j].source_hash == h),
{
    let m = maps.lbamap.entries();
    if crate::lbamap::claim_keys(m, h).len() > 0 {
        crate::lbamap::lemma_counted_claims(m, h);
        let k = choose|k: u64| m.contains_key(k) && m[k].hash == h;
        assert(crate::lbamap::covers(m, k, k as int));
        crate::lbamap::lemma_block_claim(m, k, k as int);
        assert(maps.lbamap.at(k as int) is Some);
    }
    if exists|lba: int|
        #![trigger maps.lbamap.at(lba)]
        maps.lbamap.at(lba) is Some && (maps.lbamap.at(lba)->0).0 == h {
        let lba = choose|lba: int|
            #![trigger maps.lbamap.at(lba)]
            maps.lbamap.at(lba) is Some && (maps.lbamap.at(lba)->0).0 == h;
        let k = choose|k: u64| crate::lbamap::covers(m, k, lba);
        crate::lbamap::lemma_block_claim(m, k, lba);
        crate::lbamap::lemma_claimed_counts(m, k);
    }
}

/// A segment counts as fully live just where no body of it, empty ones apart,
/// has a hash that is not live; and never more of it is live than it has.
pub proof fn law_one_dead_body_is_noticed(entries: Seq<SegmentEntry>, live: Set<ContentHash>)
    ensures
        0 <= live_body_bytes(entries, live) <= body_bytes(entries),
        live_body_bytes(entries, live) == body_bytes(entries) <==> forall|i: int|
            0 <= i < entries.len() && (#[trigger] entries[i]).kind.bears_body()
                && entries[i].stored_length > 0 ==> live.contains(entries[i].hash),
    decreases entries.len(),
{
    if entries.len() > 0 {
        let before = entries.drop_last();
        law_one_dead_body_is_noticed(before, live);
        assert(forall|i: int| 0 <= i < before.len() ==> #[trigger] before[i] == entries[i]);
        assert(entries[entries.len() - 1] == entries.last());
        if forall|i: int|
            0 <= i < before.len() && (#[trigger] before[i]).kind.bears_body()
                && before[i].stored_length > 0 ==> live.contains(before[i].hash) {
            if live_body_bytes(entries, live) == body_bytes(entries) {
                assert forall|i: int|
                    0 <= i < entries.len() && (#[trigger] entries[i]).kind.bears_body()
                        && entries[i].stored_length > 0 implies live.contains(entries[i].hash) by {
                    if i < before.len() {
                        assert(before[i] == entries[i]);
                    }
                }
            }
        } else {
            let i = choose|i: int|
                0 <= i < before.len() && (#[trigger] before[i]).kind.bears_body()
                    && before[i].stored_length > 0 && !live.contains(before[i].hash);
            assert(entries[i] == before[i]);
        }
    }
}

/// Segment `i` of the listing is among the measured ones.
pub open spec fn is_measured(
    scans: Seq<ScannedSegment>,
    segments: Seq<ParsedSegment>,
    i: int,
) -> bool {
    exists|x: int|
        0 <= x < scans.len() && (#[trigger] scans[x]).input == i && scans[x].seg_ulid
            == segments[i].ulid
}

/// Every segment above the floor is measured, and no other: a snapshot freezes
/// what is at or below it.
pub proof fn law_just_what_is_above_the_floor_is_scanned(
    segments: Seq<ParsedSegment>,
    floor: Option<Ulid>,
    live: Set<ContentHash>,
    n: int,
)
    requires
        0 <= n <= segments.len() <= usize::MAX,
    ensures
        forall|i: int|
            0 <= i < n && (floor is None || (floor->0).value < segments[i].ulid.value)
                ==> #[trigger] is_measured(scans_of(segments, floor, live, n), segments, i),
        forall|x: int|
            #![trigger scans_of(segments, floor, live, n)[x]]
            0 <= x < scans_of(segments, floor, live, n).len() ==> {
                let s = scans_of(segments, floor, live, n)[x];
                &&& s.input < n
                &&& s.seg_ulid == segments[s.input as int].ulid
                &&& floor is None || (floor->0).value < s.seg_ulid.value
                &&& s.journal <==> exists|j: int|
                    0 <= j < segments[s.input as int].entries@.len() && (
                    #[trigger] segments[s.input as int].entries@[j]).journal
                &&& s.all_live <==> live_body_bytes(segments[s.input as int].entries@, live)
                    == body_bytes(segments[s.input as int].entries@)
            },
    decreases n,
{
    if n > 0 {
        law_just_what_is_above_the_floor_is_scanned(segments, floor, live, n - 1);
        let was = scans_of(segments, floor, live, n - 1);
        let now = scans_of(segments, floor, live, n);
        assert forall|i: int|
            0 <= i < n && (floor is None || (floor->0).value < segments[i].ulid.value) implies
            #[trigger] is_measured(now, segments, i) by {
            if i < n - 1 {
                assert(is_measured(was, segments, i));
                let x = choose|x: int|
                    0 <= x < was.len() && (#[trigger] was[x]).input == i && was[x].seg_ulid
                        == segments[i].ulid;
                assert(now[x] == was[x]);
            } else {
                assert(now[now.len() - 1] == scan_of(i, segments[i], live));
            }
        }
        assert forall|x: int| #![trigger now[x]] 0 <= x < now.len() implies ({
            let s = now[x];
            &&& s.input < n
            &&& s.seg_ulid == segments[s.input as int].ulid
            &&& floor is None || (floor->0).value < s.seg_ulid.value
            &&& s.journal <==> exists|j: int|
                0 <= j < segments[s.input as int].entries@.len() && (
                #[trigger] segments[s.input as int].entries@[j]).journal
            &&& s.all_live <==> live_body_bytes(segments[s.input as int].entries@, live)
                == body_bytes(segments[s.input as int].entries@)
        }) by {
            if x < was.len() {
                assert(now[x] == was[x]);
            } else {
                assert(now[x] == scan_of(n - 1, segments[n - 1], live));
            }
        }
    }
}

proof fn lemma_tier(scanned: Seq<ScannedSegment>, journal: bool)
    ensures
        forall|s: ScannedSegment| #[trigger]
            tier(scanned, journal).contains(s) <==> scanned.contains(s) && s.journal == journal,
        tier(scanned, true).len() + tier(scanned, false).len() == scanned.len(),
    decreases scanned.len(),
{
    if scanned.len() > 0 {
        let before = scanned.drop_last();
        let last = scanned.last();
        lemma_tier(before, journal);
        let was = tier(before, journal);
        let now = tier(scanned, journal);
        assert forall|s: ScannedSegment| #[trigger] now.contains(s) <==> scanned.contains(s)
            && s.journal == journal by {
            if now.contains(s) {
                let i = choose|i: int| 0 <= i < now.len() && now[i] == s;
                if i < was.len() {
                    assert(was[i] == s);
                    assert(was.contains(s));
                    let j = choose|j: int| 0 <= j < before.len() && before[j] == s;
                    assert(scanned[j] == s);
                } else {
                    assert(scanned[scanned.len() - 1] == s);
                }
            }
            if scanned.contains(s) && s.journal == journal {
                let j = choose|j: int| 0 <= j < scanned.len() && scanned[j] == s;
                if j < before.len() {
                    assert(before[j] == s);
                    assert(was.contains(s));
                    let i = choose|i: int| 0 <= i < was.len() && was[i] == s;
                    assert(now[i] == s);
                } else {
                    assert(now[now.len() - 1] == s);
                }
            }
        }
    }
}

proof fn lemma_by_size(data: Seq<ScannedSegment>)
    ensures
        by_size(data).len() == data.len(),
        forall|s: ScannedSegment| #[trigger] by_size(data).contains(s) <==> data.contains(s),
        forall|i: int, j: int|
            #![trigger by_size(data)[i], by_size(data)[j]]
            0 <= i < j < data.len() ==> by_size(data)[i].stored_bytes
                <= by_size(data)[j].stored_bytes,
{
    let keys = data.map_values(|s: ScannedSegment| s.stored_bytes as u128);
    let order = crate::order::stable_order_of(keys);
    crate::order::lemma_order_exists(keys);
    let queue = by_size(data);
    assert forall|s: ScannedSegment| #[trigger] queue.contains(s) <==> data.contains(s) by {
        if queue.contains(s) {
            let i = choose|i: int| 0 <= i < queue.len() && queue[i] == s;
            assert(0 <= order[i] < keys.len());
            assert(data[order[i]] == s);
        }
        if data.contains(s) {
            let x = choose|x: int| 0 <= x < data.len() && data[x] == s;
            crate::order::lemma_order_is_onto(keys, order, x);
            let i = choose|i: int| 0 <= i < order.len() && #[trigger] order[i] == x;
            assert(queue[i] == s);
        }
    }
    assert forall|i: int, j: int| #![trigger queue[i], queue[j]] 0 <= i < j < data.len() implies
        queue[i].stored_bytes <= queue[j].stored_bytes by {
        assert(crate::order::ahead(keys, order[i], order[j]));
        assert(keys[order[i]] == queue[i].stored_bytes && keys[order[j]] == queue[j].stored_bytes);
    }
}

proof fn lemma_within(queue: Seq<ScannedSegment>, budget: int)
    requires
        0 <= budget,
        forall|i: int, j: int|
            #![trigger queue[i], queue[j]]
            0 <= i < j < queue.len() ==> queue[i].stored_bytes <= queue[j].stored_bytes,
    ensures
        ({
            let (taken, away) = (within(queue, budget, true), within(queue, budget, false));
            &&& taken.len() + away.len() == queue.len()
            &&& spent_on(queue, budget) == stored_in(taken)
            &&& 0 <= spent_on(queue, budget) <= budget
            &&& forall|s: ScannedSegment| #[trigger]
                queue.contains(s) ==> taken.contains(s) || away.contains(s)
            &&& forall|i: int| #![trigger taken[i]] 0 <= i < taken.len() ==> queue.contains(taken[i])
            &&& forall|i: int|
                #![trigger away[i]]
                0 <= i < away.len() ==> queue.contains(away[i]) && spent_on(queue, budget)
                    + away[i].stored_bytes > budget
            &&& forall|i: int, j: int|
                #![trigger taken[i], away[j]]
                0 <= i < taken.len() && 0 <= j < away.len() ==> taken[i].stored_bytes
                    <= away[j].stored_bytes
        }),
    decreases queue.len(),
{
    if queue.len() > 0 {
        let before = queue.drop_last();
        let last = queue.last();
        assert(forall|i: int| 0 <= i < before.len() ==> #[trigger] before[i] == queue[i]);
        assert(queue[queue.len() - 1] == last);
        lemma_within(before, budget);
        let (taken_was, away_was) = (
            within(before, budget, true),
            within(before, budget, false),
        );
        let (taken, away) = (within(queue, budget, true), within(queue, budget, false));
        let spent_was = spent_on(before, budget);
        let fits_now = spent_was + last.stored_bytes <= budget;
        if fits_now {
            assert(taken.drop_last() =~= taken_was);
            assert(taken.last() == last);
            assert(away == away_was);
        } else {
            assert(away.last() == last);
            assert(taken == taken_was);
        }
        assert forall|s: ScannedSegment| #[trigger] queue.contains(s) implies taken.contains(s)
            || away.contains(s) by {
            let x = choose|x: int| 0 <= x < queue.len() && queue[x] == s;
            if x < before.len() {
                assert(before[x] == s);
                assert(before.contains(s));
                if taken_was.contains(s) {
                    let y = choose|y: int| 0 <= y < taken_was.len() && taken_was[y] == s;
                    assert(taken[y] == s);
                } else {
                    let y = choose|y: int| 0 <= y < away_was.len() && away_was[y] == s;
                    assert(away[y] == s);
                }
            } else if fits_now {
                assert(taken[taken.len() - 1] == s);
            } else {
                assert(away[away.len() - 1] == s);
            }
        }
        assert forall|i: int| #![trigger taken[i]] 0 <= i < taken.len() implies queue.contains(
            taken[i],
        ) by {
            if i < taken_was.len() {
                assert(taken[i] == taken_was[i]);
                let x = choose|x: int| 0 <= x < before.len() && before[x] == taken_was[i];
                assert(queue[x] == taken[i]);
            }
        }
        assert forall|i: int| #![trigger away[i]] 0 <= i < away.len() implies queue.contains(away[i])
            && spent_on(queue, budget) + away[i].stored_bytes > budget by {
            if i < away_was.len() {
                assert(away[i] == away_was[i]);
                let x = choose|x: int| 0 <= x < before.len() && before[x] == away_was[i];
                assert(queue[x] == away[i]);
            }
        }
        assert forall|i: int, j: int|
            #![trigger taken[i], away[j]]
            0 <= i < taken.len() && 0 <= j < away.len() implies taken[i].stored_bytes
            <= away[j].stored_bytes by {
            if i < taken_was.len() && j < away_was.len() {
                assert(taken[i] == taken_was[i] && away[j] == away_was[j]);
            } else if fits_now {
                assert(away[j] == away_was[j]);
                let x = choose|x: int| 0 <= x < before.len() && before[x] == away_was[j];
                assert(queue[x].stored_bytes <= queue[queue.len() - 1].stored_bytes);
            } else {
                assert(taken[i] == taken_was[i]);
                let x = choose|x: int| 0 <= x < before.len() && before[x] == taken_was[i];
                assert(queue[x].stored_bytes <= queue[queue.len() - 1].stored_bytes);
            }
        }
    }
}

/// The stored bytes of the data segments among `list`.
pub open spec fn data_bytes(list: Seq<ScannedSegment>) -> int
    decreases list.len(),
{
    if list.len() == 0 {
        0
    } else if list.last().journal {
        data_bytes(list.drop_last())
    } else {
        data_bytes(list.drop_last()) + list.last().stored_bytes
    }
}

proof fn lemma_data_bytes(lead: Seq<ScannedSegment>, taken: Seq<ScannedSegment>)
    requires
        forall|i: int| 0 <= i < lead.len() ==> (#[trigger] lead[i]).journal,
        forall|i: int| 0 <= i < taken.len() ==> !(#[trigger] taken[i]).journal,
    ensures
        data_bytes(lead + taken) == stored_in(taken),
    decreases lead.len() + taken.len(),
{
    if taken.len() > 0 {
        assert((lead + taken).drop_last() =~= lead + taken.drop_last());
        assert(!taken[taken.len() - 1].journal);
        lemma_data_bytes(lead, taken.drop_last());
    } else if lead.len() > 0 {
        assert((lead + taken).drop_last() =~= lead.drop_last() + taken);
        assert(lead[lead.len() - 1].journal);
        lemma_data_bytes(lead.drop_last(), taken);
    }
}

/// Every journal segment is admitted, whatever the budget. Of the data, what is
/// admitted comes to what was spent and no more than the budget; what is turned
/// away would not have fitted on top of it, and is no smaller than anything
/// that was admitted. Each segment is the one or the other.
pub proof fn law_admission_spends_the_budget(
    out: Admission,
    scanned: Seq<ScannedSegment>,
    budget: u64,
)
    requires
        admits(out, scanned, budget),
    ensures
        forall|s: ScannedSegment|
            scanned.contains(s) && s.journal ==> #[trigger] out.admitted@.contains(s),
        forall|s: ScannedSegment|
            scanned.contains(s) && !(#[trigger] out.admitted@.contains(s)) ==> out.spent
                + s.stored_bytes > budget,
        forall|s: ScannedSegment| #[trigger] out.admitted@.contains(s) ==> scanned.contains(s),
        forall|a: ScannedSegment, s: ScannedSegment|
            #![trigger out.admitted@.contains(a), out.admitted@.contains(s)]
            out.admitted@.contains(a) && !a.journal && scanned.contains(s)
                && !out.admitted@.contains(s) ==> a.stored_bytes <= s.stored_bytes,
        out.spent <= budget,
        out.spent == data_bytes(out.admitted@),
        out.admitted@.len() + out.turned_away == scanned.len(),
        out.turned_away_bytes == clamped(
            stored_in(within(by_size(tier(scanned, false)), budget as int, false)),
        ),
{
    let data = tier(scanned, false);
    let lead = tier(scanned, true);
    let queue = by_size(data);
    lemma_tier(scanned, true);
    lemma_tier(scanned, false);
    lemma_by_size(data);
    lemma_within(queue, budget as int);
    let (taken, away) = (
        within(queue, budget as int, true),
        within(queue, budget as int, false),
    );
    assert forall|i: int| 0 <= i < lead.len() implies (#[trigger] lead[i]).journal by {
        assert(lead.contains(lead[i]));
    }
    assert forall|i: int| 0 <= i < taken.len() implies !(#[trigger] taken[i]).journal by {
        assert(queue.contains(taken[i]));
        assert(data.contains(taken[i]));
    }
    lemma_data_bytes(lead, taken);
    assert forall|s: ScannedSegment| #[trigger] out.admitted@.contains(s) <==> lead.contains(s)
        || taken.contains(s) by {
        if out.admitted@.contains(s) {
            let i = choose|i: int| 0 <= i < out.admitted@.len() && out.admitted@[i] == s;
            if i < lead.len() {
                assert(lead[i] == s);
            } else {
                assert(taken[i - lead.len()] == s);
            }
        }
        if lead.contains(s) {
            let i = choose|i: int| 0 <= i < lead.len() && lead[i] == s;
            assert(out.admitted@[i] == s);
        }
        if taken.contains(s) {
            let i = choose|i: int| 0 <= i < taken.len() && taken[i] == s;
            assert(out.admitted@[lead.len() + i] == s);
        }
    }
    assert forall|s: ScannedSegment| #[trigger] out.admitted@.contains(s) implies scanned.contains(
        s,
    ) by {
        if taken.contains(s) {
            let i = choose|i: int| 0 <= i < taken.len() && taken[i] == s;
            assert(queue.contains(taken[i]));
            assert(data.contains(s));
        } else {
            assert(lead.contains(s));
        }
    }
    assert forall|s: ScannedSegment|
        scanned.contains(s) && !(#[trigger] out.admitted@.contains(s)) implies away.contains(s) by {
        assert(!lead.contains(s));
        assert(data.contains(s));
        assert(queue.contains(s));
    }
    assert forall|a: ScannedSegment, s: ScannedSegment|
        #![trigger out.admitted@.contains(a), out.admitted@.contains(s)]
        out.admitted@.contains(a) && !a.journal && scanned.contains(s) && !out.admitted@.contains(
            s,
        ) implies a.stored_bytes <= s.stored_bytes by {
        assert(!lead.contains(a));
        let i = choose|i: int| 0 <= i < taken.len() && taken[i] == a;
        assert(away.contains(s));
        let j = choose|j: int| 0 <= j < away.len() && away[j] == s;
        assert(taken[i].stored_bytes <= away[j].stored_bytes);
    }
}

/// What an output carries of a body and what it does not come to the body, and
/// the entries counted are the records the plan writes. A body all of whose
/// blocks are live is carried whole, one that is dropped not at all.
pub proof fn law_weights_add_up(entry: SegmentEntry, class: EntryClassification, input: Ulid, idx: u32)
    requires
        crate::segment_classify::class_sound(class, entry),
    ensures
        ({
            let (live, dead, count) = entry_weight(entry, class);
            let bodied = entry.kind is Data || entry.kind is Inline;
            &&& count == entry_outputs(input, idx, class).len()
            &&& 0 <= live && 0 <= dead && live + dead <= entry.stored_length
            &&& bodied && !(class is ZeroSubRuns) && entry.lba_length > 0 ==> live + dead
                == entry.stored_length
            &&& bodied && (class is FullyLive || class is DemoteToCanonical || class
                is DeferUnresolvableDelta) ==> live == entry.stored_length
            &&& class is Drop || class is DropAndRemoveHash ==> live == 0 && dead
                == entry.stored_length && count == 0
            &&& !bodied && !(class is Drop || class is DropAndRemoveHash) ==> live == 0 && dead == 0
        }),
{
    if let EntryClassification::PartialDeath { live_runs, emit_canonical } = class {
        if entry.lba_length > 0 {
            lemma_share(
                entry.stored_length as int,
                crate::segment_classify::blocks_in(live_runs@),
                entry.lba_length as int,
            );
        }
    }
}

/// The hashes a segment owns are those of its entries that hold a slot, and
/// the ranges it claims those of its entries that make a claim: none is missed.
pub proof fn law_owned_and_claimed_are_listed(entries: Seq<SegmentEntry>)
    ensures
        forall|h: ContentHash| #[trigger]
            owned_in(entries).contains(h) <==> exists|i: int|
                0 <= i < entries.len() && (#[trigger] entries[i]).hash == h && !(entries[i].kind
                    is DedupRef) && !(entries[i].kind is Zero),
        forall|r: (u64, u32)| #[trigger]
            claims_in(entries).contains(r) <==> exists|i: int|
                0 <= i < entries.len() && (#[trigger] entries[i]).start_lba == r.0
                    && entries[i].lba_length == r.1 && !(entries[i].kind is CanonicalData)
                    && !(entries[i].kind is CanonicalInline) && !(entries[i].kind
                    is CanonicalDelta),
    decreases entries.len(),
{
    if entries.len() > 0 {
        let before = entries.drop_last();
        law_owned_and_claimed_are_listed(before);
        assert(forall|i: int| 0 <= i < before.len() ==> #[trigger] before[i] == entries[i]);
        assert(entries[entries.len() - 1] == entries.last());
        let (was, now) = (owned_in(before), owned_in(entries));
        assert forall|h: ContentHash| #[trigger] now.contains(h) <==> exists|i: int|
            0 <= i < entries.len() && (#[trigger] entries[i]).hash == h && !(entries[i].kind
                is DedupRef) && !(entries[i].kind is Zero) by {
            if now.contains(h) {
                let x = choose|x: int| 0 <= x < now.len() && now[x] == h;
                if x < was.len() {
                    assert(was[x] == h);
                    assert(was.contains(h));
                    let i = choose|i: int|
                        0 <= i < before.len() && (#[trigger] before[i]).hash == h && !(
                        before[i].kind is DedupRef) && !(before[i].kind is Zero);
                    assert(entries[i].hash == h);
                }
            }
            if exists|i: int|
                0 <= i < entries.len() && (#[trigger] entries[i]).hash == h && !(entries[i].kind
                    is DedupRef) && !(entries[i].kind is Zero) {
                let i = choose|i: int|
                    0 <= i < entries.len() && (#[trigger] entries[i]).hash == h && !(
                    entries[i].kind is DedupRef) && !(entries[i].kind is Zero);
                if i < before.len() {
                    assert(before[i].hash == h);
                    assert(was.contains(h));
                    let x = choose|x: int| 0 <= x < was.len() && was[x] == h;
                    assert(now[x] == h);
                } else {
                    assert(now[now.len() - 1] == h);
                }
            }
        }
        let (ranges_was, ranges) = (claims_in(before), claims_in(entries));
        assert forall|r: (u64, u32)| #[trigger] ranges.contains(r) <==> exists|i: int|
            0 <= i < entries.len() && (#[trigger] entries[i]).start_lba == r.0
                && entries[i].lba_length == r.1 && !(entries[i].kind is CanonicalData) && !(
            entries[i].kind is CanonicalInline) && !(entries[i].kind is CanonicalDelta) by {
            if ranges.contains(r) {
                let x = choose|x: int| 0 <= x < ranges.len() && ranges[x] == r;
                if x < ranges_was.len() {
                    assert(ranges_was[x] == r);
                    assert(ranges_was.contains(r));
                    let i = choose|i: int|
                        0 <= i < before.len() && (#[trigger] before[i]).start_lba == r.0
                            && before[i].lba_length == r.1 && !(before[i].kind is CanonicalData)
                            && !(before[i].kind is CanonicalInline) && !(before[i].kind
                            is CanonicalDelta);
                    assert(entries[i].start_lba == r.0);
                }
            }
            if exists|i: int|
                0 <= i < entries.len() && (#[trigger] entries[i]).start_lba == r.0
                    && entries[i].lba_length == r.1 && !(entries[i].kind is CanonicalData) && !(
                entries[i].kind is CanonicalInline) && !(entries[i].kind is CanonicalDelta) {
                let i = choose|i: int|
                    0 <= i < entries.len() && (#[trigger] entries[i]).start_lba == r.0
                        && entries[i].lba_length == r.1 && !(entries[i].kind is CanonicalData)
                        && !(entries[i].kind is CanonicalInline) && !(entries[i].kind
                        is CanonicalDelta);
                if i < before.len() {
                    assert(before[i].start_lba == r.0);
                    assert(ranges_was.contains(r));
                    let x = choose|x: int| 0 <= x < ranges_was.len() && ranges_was[x] == r;
                    assert(ranges[x] == r);
                } else {
                    assert(ranges[ranges.len() - 1] == r);
                }
            }
        }
    }
}

/// A bucket's sums.
pub open spec fn live_in(cands: Seq<RepackCandidate>, idxs: Seq<int>) -> (int, int)
    decreases idxs.len(),
{
    if idxs.len() == 0 {
        (0, 0)
    } else {
        let before = live_in(cands, idxs.drop_last());
        let c = cands[idxs.last()];
        (before.0 + c.live_bytes, before.1 + c.live_entry_count)
    }
}

/// A bucket counts the live bytes and the entries of what it holds. And none is
/// opened that an earlier one could have spared: what a bucket was opened for
/// fits no bucket before it.
pub proof fn law_buckets_are_opened_of_need(
    cands: Seq<RepackCandidate>,
    order: Seq<int>,
    n: int,
    a: int,
    b: int,
)
    requires
        0 <= a <= b < packed(cands, order, n).len(),
    ensures
        ({
            let buckets = packed(cands, order, n);
            let first = cands[buckets[b].idxs[0]];
            &&& (buckets[a].bytes, buckets[a].entries) == live_in(cands, buckets[a].idxs)
            &&& a < b ==> buckets[a].bytes + first.live_bytes > 33554432 || buckets[a].entries
                + first.live_entry_count > 8192
        }),
    decreases n,
{
    if n > 0 {
        let before = packed(cands, order, n - 1);
        let now = packed(cands, order, n);
        let c = cands[order[n - 1]];
        let at = first_fit(before, c.live_bytes as int, c.live_entry_count as int, 0);
        lemma_first_fit(before, c.live_bytes as int, c.live_entry_count as int, 0);
        if a < before.len() {
            law_buckets_are_opened_of_need(cands, order, n - 1, a, a);
            law_shared_buckets_fit(cands, order, n - 1, a);
            if a == at {
                assert(now[a].idxs.drop_last() =~= before[a].idxs);
            }
        } else {
            assert(now[a].idxs.drop_last() =~= Seq::<int>::empty());
            assert(live_in(cands, now[a].idxs.drop_last()) == (0int, 0int));
        }
        if a < b {
            if b < before.len() {
                law_buckets_are_opened_of_need(cands, order, n - 1, a, b);
                law_shared_buckets_fit(cands, order, n - 1, b);
            } else {
                lemma_none_fits(before, c.live_bytes as int, c.live_entry_count as int, 0, a);
            }
        }
    }
}

proof fn lemma_none_fits(buckets: Seq<BucketModel>, bytes: int, entries: int, from: int, a: int)
    requires
        0 <= from <= a < first_fit(buckets, bytes, entries, from),
        a < buckets.len(),
    ensures
        !fits(buckets[a], bytes, entries),
    decreases a - from,
{
    if from < a {
        lemma_none_fits(buckets, bytes, entries, from + 1, a);
    }
}

/// The buckets' numbers add up: those of a run of buckets are those of its
/// parts. A bucket consumes its inputs, and writes a segment and frees its dead
/// bytes where it has an output.
pub proof fn law_bucket_numbers_add_up(front: Seq<PlannedBucket>, back: Seq<PlannedBucket>)
    ensures
        consumed_by(front + back) == consumed_by(front) + consumed_by(back),
        written_by(front + back) == written_by(front) + written_by(back),
        freed_by(front + back) == freed_by(front) + freed_by(back),
        forall|b: PlannedBucket|
            {
                &&& #[trigger] consumed_by(seq![b]) == b.inputs@.len()
                &&& written_by(seq![b]) == (if b.output is Some {
                    1int
                } else {
                    0
                })
                &&& freed_by(seq![b]) == (if b.output is Some {
                    b.bytes_freed as int
                } else {
                    0
                })
            },
    decreases back.len(),
{
    assert forall|b: PlannedBucket|
        {
            &&& #[trigger] consumed_by(seq![b]) == b.inputs@.len()
            &&& written_by(seq![b]) == (if b.output is Some {
                1int
            } else {
                0
            })
            &&& freed_by(seq![b]) == (if b.output is Some {
                b.bytes_freed as int
            } else {
                0
            })
        } by {
        let none = Seq::<PlannedBucket>::empty();
        assert(seq![b].drop_last() =~= none);
        assert(consumed_by(none) == 0 && written_by(none) == 0 && freed_by(none) == 0);
    }
    if back.len() == 0 {
        assert(front + back =~= front);
    } else {
        law_bucket_numbers_add_up(front, back.drop_last());
        assert((front + back).drop_last() =~= front + back.drop_last());
    }
}

/// A plan's numbers are those of its buckets: the segments they consume, the
/// segments they write and the bytes those free.
pub proof fn law_a_plan_counts_its_buckets(
    plan: RepackPlan,
    journal: Seq<RepackCandidate>,
    data: Seq<RepackCandidate>,
    output_ulids: Seq<Ulid>,
    journal_output_ulids: Seq<Ulid>,
)
    requires
        plans(Ok(plan), journal, data, output_ulids, journal_output_ulids),
        consumed_by(plan.buckets@) <= u64::MAX,
        written_by(plan.buckets@) <= u64::MAX,
        freed_by(plan.buckets@) <= u64::MAX,
    ensures
        plan.stats.segments_compacted == consumed_by(plan.buckets@),
        plan.stats.new_segments == written_by(plan.buckets@),
        plan.stats.bytes_freed == freed_by(plan.buckets@),
{
}

/// The dead bytes of some candidates together.
pub open spec fn dead_sum(cands: Seq<RepackCandidate>, idxs: Seq<int>) -> int
    decreases idxs.len(),
{
    if idxs.len() == 0 {
        0
    } else {
        dead_sum(cands, idxs.drop_last()) + cands[idxs.last()].dead_bytes
    }
}

proof fn lemma_dead_sum(cands: Seq<RepackCandidate>, order: Seq<int>, n: int)
    requires
        0 <= n <= order.len(),
    ensures
        dead_in(cands, order, n) == dead_sum(cands, order.take(n)),
    decreases n,
{
    if n > 0 {
        lemma_dead_sum(cands, order, n - 1);
        assert(order.take(n).drop_last() =~= order.take(n - 1));
    }
}

/// A bucket frees what is dead in its inputs, each counted once.
pub proof fn law_a_bucket_frees_what_is_dead(
    b: PlannedBucket,
    cands: Seq<RepackCandidate>,
    idxs: Seq<int>,
    ulid: Option<Ulid>,
    journal: bool,
)
    requires
        is_bucket(b, cands, idxs, ulid, journal),
        forall|i: int| 0 <= i < idxs.len() ==> 0 <= #[trigger] idxs[i] < cands.len(),
    ensures
        exists|from: Seq<int>|
            from.len() == b.inputs@.len() && b.bytes_freed == clamped(
                #[trigger] dead_sum(cands, from),
            ) && forall|i: int|
                0 <= i < from.len() ==> is_input_of(#[trigger] b.inputs@[i], cands, from[i]),
{
    let order = by_ulid(cands, idxs);
    let keys = idxs.map_values(|i: int| cands[i].seg_ulid.value);
    crate::order::lemma_order_exists(keys);
    lemma_dead_sum(cands, order, order.len() as int);
    assert(order.take(order.len() as int) =~= order);
    assert forall|i: int| 0 <= i < order.len() implies is_input_of(
        #[trigger] b.inputs@[i],
        cands,
        order[i],
    ) by {
        let at = crate::order::stable_order_of(keys)[i];
        assert(0 <= at < keys.len());
        assert(order[i] == idxs[at]);
    }
    assert(b.bytes_freed == clamped(dead_sum(cands, order)));
}

/// The candidates are packed by falling live bytes; those with as many keep
/// their order, and none is left out.
pub proof fn law_the_largest_is_packed_first(cands: Seq<RepackCandidate>, x: int, y: int)
    requires
        0 <= x < y < cands.len(),
    ensures
        ({
            let order = largest_first(cands);
            &&& order.len() == cands.len()
            &&& 0 <= order[x] < cands.len() && 0 <= order[y] < cands.len()
            &&& cands[order[x]].live_bytes > cands[order[y]].live_bytes || (
            cands[order[x]].live_bytes == cands[order[y]].live_bytes && order[x] < order[y])
        }),
{
    let keys = cands.map_values(|c: RepackCandidate| (u64::MAX - c.live_bytes) as u128);
    crate::order::lemma_order_exists(keys);
    let order = largest_first(cands);
    assert(crate::order::ahead(keys, order[x], order[y]));
    assert(keys[order[x]] == (u64::MAX - cands[order[x]].live_bytes) as u128);
    assert(keys[order[y]] == (u64::MAX - cands[order[y]].live_bytes) as u128);
}

/// The bucket has room for the candidate.
pub open spec fn has_room(b: BucketModel, c: RepackCandidate) -> bool {
    b.bytes + c.live_bytes <= 33554432 && b.entries + c.live_entry_count <= 8192
}

proof fn lemma_first_room(buckets: Seq<BucketModel>, c: RepackCandidate, from: int)
    requires
        0 <= from <= buckets.len(),
    ensures
        ({
            let at = first_fit(
                buckets,
                c.live_bytes as int,
                c.live_entry_count as int,
                from,
            );
            &&& from <= at <= buckets.len()
            &&& at < buckets.len() ==> has_room(buckets[at], c)
            &&& forall|i: int| from <= i < at ==> !has_room(#[trigger] buckets[i], c)
        }),
    decreases buckets.len() - from,
{
    if from < buckets.len() && !fits(
        buckets[from],
        c.live_bytes as int,
        c.live_entry_count as int,
    ) {
        lemma_first_room(buckets, c, from + 1);
    }
}

/// The candidate went to bucket `at` of `now`, and every other is as it was.
pub open spec fn went_to(
    was: Seq<BucketModel>,
    now: Seq<BucketModel>,
    idx: int,
    at: int,
) -> bool {
    &&& 0 <= at < now.len()
    &&& now[at].idxs == (if at < was.len() {
        was[at].idxs
    } else {
        Seq::empty()
    }).push(idx)
    &&& forall|i: int| 0 <= i < was.len() && i != at ==> #[trigger] now[i] == was[i]
}

/// Each candidate takes the first bucket with room for it, and one of its own
/// where none has.
pub proof fn law_a_candidate_takes_the_first_room(
    cands: Seq<RepackCandidate>,
    order: Seq<int>,
    n: int,
)
    requires
        0 < n <= order.len(),
    ensures
        ({
            let (was, now) = (packed(cands, order, n - 1), packed(cands, order, n));
            let c = cands[order[n - 1]];
            exists|at: int| #[trigger]
                went_to(was, now, order[n - 1], at) && at <= was.len() && (at < was.len()
                    ==> has_room(was[at], c) && now.len() == was.len()) && forall|i: int|
                    0 <= i < at ==> !has_room(#[trigger] was[i], c)
        }),
{
    let (was, now) = (packed(cands, order, n - 1), packed(cands, order, n));
    let c = cands[order[n - 1]];
    lemma_first_room(was, c, 0);
    let at = first_fit(was, c.live_bytes as int, c.live_entry_count as int, 0);
    if at == was.len() {
        assert(now[at].idxs =~= Seq::<int>::empty().push(order[n - 1]));
    }
    assert(went_to(was, now, order[n - 1], at));
}

proof fn lemma_packed_len(cands: Seq<RepackCandidate>, order: Seq<int>, n: int)
    ensures
        n >= 0 ==> packed(cands, order, n).len() <= n,
    decreases n,
{
    if n > 0 {
        lemma_packed_len(cands, order, n - 1);
        lemma_first_room(packed(cands, order, n - 1), cands[order[n - 1]], 0);
    }
}

proof fn lemma_worthwhile_len(cands: Seq<RepackCandidate>, buckets: Seq<BucketModel>, n: int)
    ensures
        n >= 0 ==> worthwhile(cands, buckets, n).len() <= n,
    decreases n,
{
    if n > 0 {
        lemma_worthwhile_len(cands, buckets, n - 1);
    }
}

proof fn lemma_emitting_len(cands: Seq<RepackCandidate>, lists: Seq<Seq<int>>, n: int)
    ensures
        n >= 0 ==> emitting(cands, lists, n) <= n,
    decreases n,
{
    if n > 0 {
        lemma_emitting_len(cands, lists, n - 1);
    }
}

/// Planning fails only for want of ULIDs: one for each data segment and one for
/// the journal are always enough.
pub proof fn law_enough_ulids_make_a_plan(
    error: RepackError,
    journal: Seq<RepackCandidate>,
    data: Seq<RepackCandidate>,
    output_ulids: Seq<Ulid>,
    journal_output_ulids: Seq<Ulid>,
)
    requires
        plans(Err(error), journal, data, output_ulids, journal_output_ulids),
    ensures
        error is NoJournalUlid ==> journal.len() > 0 && journal_output_ulids.len() == 0,
        error is OutOfUlids ==> output_ulids.len() < data.len(),
{
    let lists = data_lists(data);
    lemma_packed_len(data, largest_first(data), data.len() as int);
    lemma_worthwhile_len(data, packing(data), packing(data).len() as int);
    lemma_emitting_len(data, lists, lists.len() as int);
}

/// A count or a sum is what it is as long as it can be held, and the greatest
/// that can be held beyond that.
pub proof fn law_counts_saturate(n: int)
    requires
        0 <= n,
    ensures
        n <= u64::MAX ==> clamped(n) == n,
        n > u64::MAX ==> clamped(n) == u64::MAX,
        n <= usize::MAX ==> clamped_count(n) == n,
        n > usize::MAX ==> clamped_count(n) == usize::MAX,
{
}

/// A candidate says what its segment's entries come to: every entry has its
/// class, and the live bytes, the dead bytes and the records to write are the
/// entries' own, added up.
pub proof fn law_a_candidate_is_of_its_entries(
    c: RepackCandidate,
    entries: Seq<SegmentEntry>,
    map: LbaMap,
    index: ExtentIndex,
    live: Set<ContentHash>,
    segment: Ulid,
    i: int,
)
    requires
        c.of_entries(entries, map, index, live, segment),
        0 <= i < entries.len(),
    ensures
        c.seg_ulid == segment,
        c.classifications@.len() == entries.len(),
        crate::segment_classify::classified(
            c.classifications@[i],
            entries[i],
            map,
            index,
            live,
            segment,
        ),
        ({
            let (upto, past) = (
                weight_of(entries, c.classifications@, i),
                weight_of(entries, c.classifications@, i + 1),
            );
            let own = entry_weight(entries[i], c.classifications@[i]);
            past == (upto.0 + own.0, upto.1 + own.1, upto.2 + own.2)
        }),
        weight_of(entries, c.classifications@, 0) == (0int, 0int, 0int),
        i == entries.len() - 1 ==> c.live_bytes == clamped(
            weight_of(entries, c.classifications@, i + 1).0,
        ) && c.dead_bytes == clamped(weight_of(entries, c.classifications@, i + 1).1)
            && c.live_entry_count == clamped_count(
            weight_of(entries, c.classifications@, i + 1).2,
        ),
        c.owned_hashes@ == owned_in(entries),
        c.claim_ranges@ == claims_in(entries),
{
}

/// Every segment that a pass takes on has its candidate, made from its own
/// entries.
pub proof fn law_each_admitted_segment_has_its_candidate(
    cands: Seq<RepackCandidate>,
    scans: Seq<ScannedSegment>,
    segments: Seq<ParsedSegment>,
    maps: Maps,
    i: int,
)
    requires
        candidates_of(cands, scans, segments, maps),
        0 <= i < scans.len(),
    ensures
        cands.len() == scans.len(),
        cands[i].input == scans[i].input,
        cands[i].seg_ulid == scans[i].seg_ulid,
        cands[i].all_live == scans[i].all_live,
        cands[i].of_entries(
            segments[scans[i].input as int].entries@,
            maps.lbamap,
            maps.extent_index,
            live_set(maps),
            scans[i].seg_ulid,
        ),
{
    let c = cands[i];
    assert(c.input == scans[i].input);
}

} // verus!
