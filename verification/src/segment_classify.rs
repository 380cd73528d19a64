//! What a rewrite does with each entry of a segment it consumes.
//!
//! A rewrite's output sorts above its inputs, so a stale claim carried into
//! it would shadow a newer write. Each entry is held against the block map
//! and the extent index: whole where every block still maps to it, in runs
//! where only some do, for resolution alone where only its content is still
//! needed, and not at all otherwise.

use vstd::prelude::*;

use crate::extent_index::ExtentIndex;
use crate::hash_set::Blake3HashSet;
use crate::ids::{ContentHash, Ulid};
use crate::lbamap::{ExtentRead, LbaMap};
use crate::segment::{DeltaOption, EntryKind, SegmentEntry};

verus! {

/// What becomes of an entry.
#[derive(Debug)]
pub enum EntryClassification {
    /// Every block still maps to the entry's hash: kept as it is.
    FullyLive,
    /// No block maps to it, but its content is still referenced and this
    /// segment holds it: kept for resolution, without the claim.
    DemoteToCanonical,
    /// A zero entry: one zero run per run of blocks that is still zero.
    ZeroSubRuns(Vec<ExtentRead>),
    /// Some blocks still map to it: one run for each live run, after the body
    /// kept for resolution where `emit_canonical` says so.
    PartialDeath { live_runs: Vec<ExtentRead>, emit_canonical: bool },
    /// Dead, and this segment holds its content: dropped, and the hash leaves
    /// the extent index.
    DropAndRemoveHash,
    /// Dead, and its content is held elsewhere or nowhere: dropped.
    Drop,
    /// A partly dead delta none of whose sources resolves: left for a later
    /// pass.
    DeferUnresolvableDelta,
}

/// What an entry is classified against.
pub struct ClassifyCtx<'a> {
    pub lba_map: &'a LbaMap,
    pub extent_index: &'a ExtentIndex,
    /// Every hash a block claims or a delta names as a source.
    pub live_hashes: &'a Blake3HashSet,
    /// The segment the entry is from.
    pub segment_id: Ulid,
}

/// The reads of `hash` among `reads`, in order.
pub open spec fn runs_of(reads: Seq<ExtentRead>, hash: ContentHash) -> Seq<ExtentRead>
    decreases reads.len(),
{
    if reads.len() == 0 {
        reads
    } else if reads.last().hash == hash {
        runs_of(reads.drop_last(), hash).push(reads.last())
    } else {
        runs_of(reads.drop_last(), hash)
    }
}

/// The number of blocks in `reads`.
pub open spec fn blocks_in(reads: Seq<ExtentRead>) -> int
    decreases reads.len(),
{
    if reads.len() == 0 {
        0
    } else {
        blocks_in(reads.drop_last()) + (reads.last().range_end - reads.last().range_start)
    }
}

/// One of the options names a source whose body the index holds.
pub open spec fn resolvable(options: Seq<DeltaOption>, index: ExtentIndex) -> bool {
    exists|i: int|
        0 <= i < options.len() && index.body((#[trigger] options[i]).source_hash) is Some
}

/// This segment holds the body the index gives for `hash`.
pub open spec fn holds_body(index: ExtentIndex, hash: ContentHash, segment: Ulid) -> bool {
    index.body(hash) matches Some(loc) && loc.segment_id == segment
}

/// `class` is what `entry` of `segment` becomes.
pub open spec fn classified(
    class: EntryClassification,
    entry: SegmentEntry,
    map: LbaMap,
    index: ExtentIndex,
    live: Set<ContentHash>,
    segment: Ulid,
) -> bool {
    let reads = crate::lbamap::reads_in(
        map.entries(),
        entry.start_lba as int,
        entry.start_lba + entry.lba_length,
    );
    let own = runs_of(reads, entry.hash);
    let held = holds_body(index, entry.hash, segment);
    let named = live.contains(entry.hash);
    if entry.kind is Zero {
        class matches EntryClassification::ZeroSubRuns(runs) && runs@ == runs_of(
            reads,
            ContentHash { head: 0, tail: 0 },
        )
    } else if entry.kind.canonical_only() {
        class is FullyLive
    } else if blocks_in(own) == entry.lba_length {
        class is FullyLive
    } else if blocks_in(own) == 0 {
        if held && named && !(entry.kind is DedupRef) {
            class is DemoteToCanonical
        } else if held {
            class is DropAndRemoveHash
        } else {
            class is Drop
        }
    } else if entry.kind is Delta && !resolvable(entry.delta_options@, index) {
        class is DeferUnresolvableDelta
    } else {
        class matches EntryClassification::PartialDeath { live_runs, emit_canonical } && live_runs@
            == own && emit_canonical == (named && !(entry.kind is DedupRef))
    }
}

/// Runs that ascend, cover no block twice and no more than `blocks` in all.
pub open spec fn runs_sound(runs: Seq<ExtentRead>, blocks: int) -> bool {
    &&& forall|i: int|
        #![trigger runs[i]]
        0 <= i < runs.len() ==> runs[i].range_start <= runs[i].range_end && runs[i].range_end
            - runs[i].range_start <= blocks
    &&& 0 <= blocks_in(runs) <= blocks
}

/// The runs of a class fit the entry it was made from.
pub open spec fn class_sound(class: EntryClassification, entry: SegmentEntry) -> bool {
    match class {
        EntryClassification::ZeroSubRuns(runs) => runs_sound(runs@, entry.lba_length as int),
        EntryClassification::PartialDeath { live_runs, .. } => runs_sound(
            live_runs@,
            entry.lba_length as int,
        ),
        _ => true,
    }
}

/// The reads of `hash` among `reads`, in order.
fn live_runs_of(reads: &Vec<ExtentRead>, hash: ContentHash) -> (runs: Vec<ExtentRead>)
    ensures
        runs@ == runs_of(reads@, hash),
{
    let mut runs: Vec<ExtentRead> = Vec::new();
    let mut i: usize = 0;
    while i < reads.len()
        invariant
            i <= reads.len(),
            runs@ == runs_of(reads@.take(i as int), hash),
        decreases reads.len() - i,
    {
        assert(reads@.take(i as int + 1).drop_last() =~= reads@.take(i as int));
        if reads[i].hash == hash {
            runs.push(reads[i]);
        }
        i += 1;
    }
    assert(reads@.take(reads@.len() as int) =~= reads@);
    runs
}

/// Runs taken from ascending reads ascend and hold no more blocks than there
/// are up to the last of them.
proof fn lemma_runs_fit(reads: Seq<ExtentRead>, hash: ContentHash, start: int, end: int)
    requires
        start <= end,
        forall|i: int|
            #![trigger reads[i]]
            0 <= i < reads.len() ==> start <= reads[i].range_start <= reads[i].range_end <= end,
        forall|i: int, j: int|
            #![trigger reads[i], reads[j]]
            0 <= i < j < reads.len() ==> reads[i].range_end <= reads[j].range_start,
    ensures
        0 <= blocks_in(runs_of(reads, hash)) <= end - start,
        forall|i: int|
            #![trigger runs_of(reads, hash)[i]]
            0 <= i < runs_of(reads, hash).len() ==> start <= runs_of(reads, hash)[i].range_start
                <= runs_of(reads, hash)[i].range_end <= end,
    decreases reads.len(),
{
    if reads.len() > 0 {
        let before = reads.drop_last();
        let last = reads.last();
        assert(reads[reads.len() - 1] == last);
        assert(forall|i: int| 0 <= i < before.len() ==> #[trigger] before[i] == reads[i]);
        assert forall|i: int| #![trigger before[i]] 0 <= i < before.len() implies start
            <= before[i].range_start <= before[i].range_end <= last.range_start by {
            assert(reads[i].range_end <= reads[reads.len() - 1].range_start);
        }
        lemma_runs_fit(before, hash, start, last.range_start as int);
        let runs = runs_of(reads, hash);
        let earlier = runs_of(before, hash);
        if last.hash == hash {
            assert(runs.drop_last() =~= earlier);
            assert forall|i: int| #![trigger runs[i]] 0 <= i < runs.len() implies start
                <= runs[i].range_start <= runs[i].range_end <= end by {
                if i < earlier.len() {
                    assert(runs[i] == earlier[i]);
                }
            }
        }
    }
}

proof fn lemma_blocks_prefix(runs: Seq<ExtentRead>, n: int)
    requires
        0 <= n <= runs.len(),
        forall|i: int|
            0 <= i < runs.len() ==> (#[trigger] runs[i]).range_start <= runs[i].range_end,
    ensures
        0 <= blocks_in(runs.take(n)) <= blocks_in(runs),
    decreases runs.len(),
{
    if n == runs.len() {
        assert(runs.take(n) =~= runs);
        if n > 0 {
            lemma_blocks_prefix(runs.drop_last(), n - 1);
            assert(runs.drop_last().take(n - 1) =~= runs.drop_last());
            assert(runs.last() == runs[n - 1]);
        }
    } else {
        lemma_blocks_prefix(runs.drop_last(), n);
        assert(runs.drop_last().take(n) =~= runs.take(n));
        assert(runs.last() == runs[runs.len() - 1]);
    }
}

/// The number of blocks in `runs`.
pub fn count_blocks(runs: &Vec<ExtentRead>) -> (n: u64)
    requires
        forall|i: int|
            0 <= i < runs@.len() ==> (#[trigger] runs@[i]).range_start <= runs@[i].range_end,
        blocks_in(runs@) <= u64::MAX,
    ensures
        n == blocks_in(runs@),
{
    let mut n: u64 = 0;
    let mut i: usize = 0;
    while i < runs.len()
        invariant
            i <= runs.len(),
            forall|j: int|
                0 <= j < runs@.len() ==> (#[trigger] runs@[j]).range_start <= runs@[j].range_end,
            blocks_in(runs@) <= u64::MAX,
            n == blocks_in(runs@.take(i as int)),
        decreases runs.len() - i,
    {
        proof {
            lemma_blocks_prefix(runs@, i as int + 1);
            assert(runs@.take(i as int + 1).drop_last() =~= runs@.take(i as int));
            assert(runs@[i as int].range_start <= runs@[i as int].range_end);
        }
        n = n + (runs[i].range_end - runs[i].range_start);
        i += 1;
    }
    assert(runs@.take(runs@.len() as int) =~= runs@);
    n
}

/// Classify one entry. Pure: it reads the context and changes nothing.
pub fn classify_entry(entry: &SegmentEntry, ctx: &ClassifyCtx<'_>) -> (class: EntryClassification)
    requires
        ctx.lba_map.wf(),
        ctx.extent_index.wf(),
        entry.in_range(),
    ensures
        classified(
            class,
            *entry,
            *ctx.lba_map,
            *ctx.extent_index,
            ctx.live_hashes@,
            ctx.segment_id,
        ),
        class_sound(class, *entry),
{
    let end_lba: u64 = entry.start_lba + entry.lba_length as u64;
    if let EntryKind::Zero = entry.kind {
        let reads = ctx.lba_map.extents_in_range(entry.start_lba, end_lba);
        proof {
            let m = ctx.lba_map.entries();
            crate::lbamap::lemma_reads_ascend(m, entry.start_lba as int, end_lba as int);
            lemma_runs_fit(
                reads@,
                ContentHash { head: 0, tail: 0 },
                entry.start_lba as int,
                end_lba as int,
            );
        }
        return EntryClassification::ZeroSubRuns(live_runs_of(&reads, ContentHash::zero()));
    }
    if entry.kind.is_canonical_only() {
        return EntryClassification::FullyLive;
    }
    let reads = ctx.lba_map.extents_in_range(entry.start_lba, end_lba);
    let live_runs = live_runs_of(&reads, entry.hash);
    proof {
        let m = ctx.lba_map.entries();
        crate::lbamap::lemma_reads_ascend(m, entry.start_lba as int, end_lba as int);
        lemma_runs_fit(reads@, entry.hash, entry.start_lba as int, end_lba as int);
    }
    let matching: u64 = count_blocks(&live_runs);
    if matching == entry.lba_length as u64 {
        return EntryClassification::FullyLive;
    }
    let held: bool = match ctx.extent_index.lookup(&entry.hash) {
        Some(loc) => loc.segment_id == ctx.segment_id,
        None => false,
    };
    let named: bool = ctx.live_hashes.contains(&entry.hash);
    if matching == 0 {
        let bodied: bool = matches!(
            entry.kind,
            EntryKind::Data | EntryKind::Inline | EntryKind::Delta
        );
        if bodied && held && named {
            return EntryClassification::DemoteToCanonical;
        }
        if held {
            return EntryClassification::DropAndRemoveHash;
        }
        return EntryClassification::Drop;
    }
    match entry.kind {
        EntryKind::Delta => {
            if any_source_resolves(&entry.delta_options, ctx.extent_index) {
                EntryClassification::PartialDeath { live_runs, emit_canonical: named }
            } else {
                EntryClassification::DeferUnresolvableDelta
            }
        },
        // A reference carries no body of its own to keep.
        EntryKind::DedupRef => EntryClassification::PartialDeath {
            live_runs,
            emit_canonical: false,
        },
        _ => EntryClassification::PartialDeath { live_runs, emit_canonical: named },
    }
}

/// Whether one of the options names a source whose body the index holds.
fn any_source_resolves(options: &Vec<DeltaOption>, index: &ExtentIndex) -> (b: bool)
    requires
        index.wf(),
    ensures
        b == resolvable(options@, *index),
{
    let mut i: usize = 0;
    while i < options.len()
        invariant
            index.wf(),
            i <= options.len(),
            forall|j: int|
                0 <= j < i ==> index.body((#[trigger] options@[j]).source_hash) is None,
        decreases options.len() - i,
    {
        if index.lookup(&options[i].source_hash).is_some() {
            assert(index.body(options@[i as int].source_hash) is Some);
            return true;
        }
        i += 1;
    }
    false
}

} // verus!
