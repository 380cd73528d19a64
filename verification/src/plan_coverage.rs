//! A repack leaves the logical layout alone: what its outputs carry is what
//! the blocks read.

use vstd::prelude::*;

use crate::extent_index::ExtentIndex;
use crate::ids::{ContentHash, Ulid};
use crate::lbamap::{
    block_claim, covers, cut_by, entries_between, extents_wf, lemma_block_claim,
    lemma_cover_unique, lemma_entries_between, lemma_reads_ascend, read_of, reads_in,
    ExtentRead, LbaMap, MapEntry,
};
use crate::repack::{entry_outputs, PlanOutput};
use crate::segment::SegmentEntry;
use crate::segment_classify::{blocks_in, classified, runs_of, EntryClassification};

verus! {

/// Output `o`, cut from `entry`, carries block `lba` as the block `offset` of
/// the entry's content.
pub open spec fn carries(o: PlanOutput, entry: SegmentEntry, lba: int, offset: int) -> bool {
    match o {
        PlanOutput::Keep { .. } => entry.start_lba <= lba < entry.start_lba + entry.lba_length
            && offset == lba - entry.start_lba,
        PlanOutput::Canonical { .. } => false,
        PlanOutput::ZeroSplit { start_lba, lba_length, .. } => start_lba <= lba < start_lba
            + lba_length,
        PlanOutput::Run { payload_block_offset, start_lba, lba_length, .. } => start_lba <= lba
            < start_lba + lba_length && offset == payload_block_offset + (lba - start_lba),
    }
}

/// What block `lba` reads of the entry's content, if anything: the block of
/// the content. A zero range reads as zeroes whatever the block.
pub open spec fn reads_entry(map: LbaMap, entry: SegmentEntry, lba: int, offset: int) -> bool {
    match map.at(lba) {
        Some((hash, place, _)) => if entry.kind is Zero {
            hash.is_zero()
        } else {
            hash == entry.hash && offset == place
        },
        None => false,
    }
}

/// The read `r` covers block `lba`.
pub open spec fn read_covers(r: ExtentRead, lba: int) -> bool {
    r.range_start <= lba < r.range_end
}

/// A read of a range covers each written block of it, and says of the block
/// what the map says.
pub proof fn lemma_reads_cover(m: Map<u64, MapEntry>, start: int, end: int, lba: int)
    requires
        extents_wf(m),
        0 <= start <= lba < end <= u64::MAX,
    ensures
        block_claim(m, lba) is Some ==> exists|i: int|
            0 <= i < reads_in(m, start, end).len() && read_covers(
                #[trigger] reads_in(m, start, end)[i],
                lba,
            ),
        forall|i: int|
            0 <= i < reads_in(m, start, end).len() && read_covers(
                #[trigger] reads_in(m, start, end)[i],
                lba,
            ) ==> (block_claim(m, lba) matches Some((hash, place, _)) && hash == reads_in(
                m,
                start,
                end,
            )[i].hash && place == reads_in(m, start, end)[i].payload_block_offset + (lba
                - reads_in(m, start, end)[i].range_start)),
{
    lemma_entries_between(m, start, end);
    let inside = entries_between(m, start, end);
    let rest = Seq::new(inside.len(), |i: int| read_of(inside[i].0, inside[i].1, start, end));
    let all = reads_in(m, start, end);
    let lead: int = if exists|c: u64| cut_by(m, c, start) {
        1
    } else {
        0
    };
    if lead == 1 {
        let c = choose|c: u64| cut_by(m, c, start);
        assert(all =~= seq![read_of(c, m[c], start, end)] + rest);
        assert(all[0] == read_of(c, m[c], start, end));
    } else {
        assert(all =~= rest);
    }
    assert forall|i: int| lead <= i < all.len() implies #[trigger] all[i] == read_of(
        inside[i - lead].0,
        inside[i - lead].1,
        start,
        end,
    ) by {
        assert(all[i] == rest[i - lead]);
    }
    assert forall|i: int| 0 <= i < all.len() && read_covers(#[trigger] all[i], lba) implies (
    block_claim(m, lba) matches Some((hash, place, _)) && hash == all[i].hash && place
        == all[i].payload_block_offset + (lba - all[i].range_start)) by {
        let k: u64 = if i < lead {
            choose|c: u64| cut_by(m, c, start)
        } else {
            inside[i - lead].0
        };
        assert(m.contains_key(k));
        assert(covers(m, k, lba));
        lemma_block_claim(m, k, lba);
    }
    if block_claim(m, lba) is Some {
        let k = choose|k: u64| covers(m, k, lba);
        if k < start {
            assert(cut_by(m, k, start));
            let c = choose|c: u64| cut_by(m, c, start);
            lemma_cover_unique(m, c, k, start);
            assert(read_covers(all[0], lba));
        } else {
            let i = choose|i: int| 0 <= i < inside.len() && #[trigger] inside[i].0 == k;
            assert(all[i + lead] == read_of(inside[i].0, inside[i].1, start, end));
            assert(read_covers(all[i + lead], lba));
        }
    }
}

/// The runs of a hash are its reads.
proof fn lemma_runs_are_reads(reads: Seq<ExtentRead>, hash: ContentHash)
    ensures
        forall|i: int|
            0 <= i < reads.len() && (#[trigger] reads[i]).hash == hash ==> runs_of(
                reads,
                hash,
            ).contains(reads[i]),
        forall|i: int|
            0 <= i < runs_of(reads, hash).len() ==> reads.contains(
                #[trigger] runs_of(reads, hash)[i],
            ) && runs_of(reads, hash)[i].hash == hash,
    decreases reads.len(),
{
    if reads.len() > 0 {
        let before = reads.drop_last();
        let last = reads.last();
        lemma_runs_are_reads(before, hash);
        let runs = runs_of(reads, hash);
        let earlier = runs_of(before, hash);
        assert forall|i: int| 0 <= i < reads.len() && (#[trigger] reads[i]).hash
            == hash implies runs.contains(reads[i]) by {
            if i < before.len() {
                assert(before[i] == reads[i]);
                let j = choose|j: int| 0 <= j < earlier.len() && earlier[j] == before[i];
                assert(runs[j] == earlier[j]);
            } else {
                assert(runs[runs.len() - 1] == last);
            }
        }
        assert forall|i: int| 0 <= i < runs.len() implies reads.contains(#[trigger] runs[i])
            && runs[i].hash == hash by {
            if i < earlier.len() {
                assert(runs[i] == earlier[i]);
                let j = choose|j: int| 0 <= j < before.len() && before[j] == earlier[i];
                assert(reads[j] == runs[i]);
            } else {
                assert(runs[i] == reads[reads.len() - 1]);
            }
        }
    }
}

/// The reads lie in the range, ascend, and do not overlap.
spec fn ascend(reads: Seq<ExtentRead>, start: int, end: int) -> bool {
    &&& forall|i: int|
        #![trigger reads[i]]
        0 <= i < reads.len() ==> start <= reads[i].range_start <= reads[i].range_end <= end
    &&& forall|i: int, j: int|
        #![trigger reads[i], reads[j]]
        0 <= i < j < reads.len() ==> reads[i].range_end <= reads[j].range_start
}

proof fn lemma_ascend_front(reads: Seq<ExtentRead>, start: int, end: int)
    requires
        ascend(reads, start, end),
        reads.len() > 0,
    ensures
        ascend(reads.drop_last(), start, reads.last().range_start as int),
        start <= reads.last().range_start <= reads.last().range_end <= end,
{
    let before = reads.drop_last();
    assert(reads[reads.len() - 1] == reads.last());
    assert(forall|i: int| 0 <= i < before.len() ==> #[trigger] before[i] == reads[i]);
    assert forall|i: int| #![trigger before[i]] 0 <= i < before.len() implies start
        <= before[i].range_start <= before[i].range_end <= reads.last().range_start by {
        assert(reads[i].range_end <= reads[reads.len() - 1].range_start);
    }
}

/// Runs hold no more blocks than the range, and one that holds `lba` counts.
proof fn lemma_blocks_bound(reads: Seq<ExtentRead>, hash: ContentHash, start: int, end: int)
    requires
        ascend(reads, start, end),
        start <= end,
    ensures
        0 <= blocks_in(runs_of(reads, hash)) <= end - start,
        forall|i: int|
            0 <= i < reads.len() && (#[trigger] reads[i]).hash == hash && reads[i].range_start
                < reads[i].range_end ==> blocks_in(runs_of(reads, hash)) > 0,
    decreases reads.len(),
{
    if reads.len() > 0 {
        let before = reads.drop_last();
        let last = reads.last();
        lemma_ascend_front(reads, start, end);
        lemma_blocks_bound(before, hash, start, last.range_start as int);
        let runs = runs_of(reads, hash);
        if last.hash == hash {
            assert(runs.drop_last() =~= runs_of(before, hash));
            assert(runs.last() == last);
        }
        assert forall|i: int| 0 <= i < reads.len() && (#[trigger] reads[i]).hash == hash
            && reads[i].range_start < reads[i].range_end implies blocks_in(runs) > 0 by {
            if i < before.len() {
                assert(before[i] == reads[i]);
            }
        }
    }
}

/// Runs with as many blocks as the range leave none of it out.
proof fn lemma_full_range(
    reads: Seq<ExtentRead>,
    hash: ContentHash,
    start: int,
    end: int,
    lba: int,
)
    requires
        ascend(reads, start, end),
        start <= lba < end,
        blocks_in(runs_of(reads, hash)) == end - start,
    ensures
        exists|i: int|
            0 <= i < reads.len() && (#[trigger] reads[i]).hash == hash && read_covers(
                reads[i],
                lba,
            ),
    decreases reads.len(),
{
    if reads.len() > 0 {
        let before = reads.drop_last();
        let last = reads.last();
        lemma_ascend_front(reads, start, end);
        lemma_blocks_bound(before, hash, start, last.range_start as int);
        let runs = runs_of(reads, hash);
        assert(reads[reads.len() - 1] == last);
        if last.hash == hash {
            assert(runs.drop_last() =~= runs_of(before, hash));
            assert(runs.last() == last);
            assert(last.range_end == end);
            if lba < last.range_start {
                lemma_full_range(before, hash, start, last.range_start as int, lba);
                let i = choose|i: int|
                    0 <= i < before.len() && (#[trigger] before[i]).hash == hash && read_covers(
                        before[i],
                        lba,
                    );
                assert(reads[i] == before[i]);
            }
        } else {
            assert(blocks_in(runs_of(before, hash)) == end - start);
            lemma_full_range(before, hash, start, last.range_start as int, lba);
            let i = choose|i: int|
                0 <= i < before.len() && (#[trigger] before[i]).hash == hash && read_covers(
                    before[i],
                    lba,
                );
            assert(reads[i] == before[i]);
        }
    }
}

/// The hash whose runs an entry's class is made of.
spec fn hash_read(entry: SegmentEntry) -> ContentHash {
    if entry.kind is Zero {
        ContentHash { head: 0, tail: 0 }
    } else {
        entry.hash
    }
}

/// A repack loses no live block: whatever block of an entry still reads the
/// entry's content, one of the outputs cut from the entry carries that block
/// as the same block of the content. Where the class keeps the entry whole,
/// the block must read the content in the place the entry gives it; a run of
/// the same content written elsewhere may not.
pub proof fn law_repack_loses_no_live_block(
    class: EntryClassification,
    entry: SegmentEntry,
    map: LbaMap,
    index: ExtentIndex,
    live: Set<ContentHash>,
    segment: Ulid,
    idx: u32,
    lba: int,
    offset: int,
)
    requires
        map.wf(),
        entry.in_range(),
        !entry.kind.canonical_only(),
        classified(class, entry, map, index, live, segment),
        entry.start_lba <= lba < entry.start_lba + entry.lba_length,
        reads_entry(map, entry, lba, offset),
        class is FullyLive || class is DeferUnresolvableDelta ==> offset == lba - entry.start_lba,
    ensures
        exists|j: int|
            0 <= j < entry_outputs(segment, idx, class).len() && #[trigger] carries(
                entry_outputs(segment, idx, class)[j],
                entry,
                lba,
                offset,
            ),
{
    let m = map.entries();
    let (start, end) = (entry.start_lba as int, entry.start_lba + entry.lba_length);
    let reads = reads_in(m, start, end);
    let hash = hash_read(entry);
    let runs = runs_of(reads, hash);
    let outs = entry_outputs(segment, idx, class);
    lemma_reads_ascend(m, start, end);
    assert(ascend(reads, start, end));
    lemma_reads_cover(m, start, end, lba);
    let i = choose|i: int| 0 <= i < reads.len() && read_covers(#[trigger] reads[i], lba);
    assert(reads[i].hash == hash);
    lemma_runs_are_reads(reads, hash);
    lemma_blocks_bound(reads, hash, start, end);
    assert(runs.contains(reads[i]));
    let n = choose|n: int| 0 <= n < runs.len() && runs[n] == reads[i];
    assert(runs[n].range_end - runs[n].range_start <= entry.lba_length);
    match class {
        EntryClassification::FullyLive | EntryClassification::DeferUnresolvableDelta => {
            assert(carries(outs[0], entry, lba, offset));
        },
        EntryClassification::ZeroSubRuns(list) => {
            assert(carries(outs[n], entry, lba, offset));
        },
        EntryClassification::PartialDeath { live_runs, emit_canonical } => {
            let at = if emit_canonical {
                n + 1
            } else {
                n
            };
            assert(carries(outs[at], entry, lba, offset));
        },
        _ => {
            assert(blocks_in(runs) == 0);
        },
    }
}

/// A repack revives no dead block: whatever block an output cut from an entry
/// carries still reads the entry's content, and as the same block of it where
/// the output is a run. An entry kept whole because its delta cannot be
/// resolved is the exception.
pub proof fn law_repack_revives_no_dead_block(
    class: EntryClassification,
    entry: SegmentEntry,
    map: LbaMap,
    index: ExtentIndex,
    live: Set<ContentHash>,
    segment: Ulid,
    idx: u32,
    lba: int,
    offset: int,
    j: int,
)
    requires
        map.wf(),
        entry.in_range(),
        !entry.kind.canonical_only(),
        classified(class, entry, map, index, live, segment),
        !(class is DeferUnresolvableDelta),
        0 <= j < entry_outputs(segment, idx, class).len(),
        carries(entry_outputs(segment, idx, class)[j], entry, lba, offset),
    ensures
        entry.start_lba <= lba < entry.start_lba + entry.lba_length,
        map.at(lba) is Some,
        entry.kind is Zero ==> (map.at(lba)->0).0.is_zero(),
        !(entry.kind is Zero) ==> (map.at(lba)->0).0 == entry.hash,
        class is PartialDeath ==> reads_entry(map, entry, lba, offset),
{
    let m = map.entries();
    let (start, end) = (entry.start_lba as int, entry.start_lba + entry.lba_length);
    let reads = reads_in(m, start, end);
    let hash = hash_read(entry);
    let runs = runs_of(reads, hash);
    let outs = entry_outputs(segment, idx, class);
    lemma_reads_ascend(m, start, end);
    assert(ascend(reads, start, end));
    lemma_runs_are_reads(reads, hash);
    match class {
        EntryClassification::FullyLive => {
            lemma_full_range(reads, hash, start, end, lba);
            lemma_reads_cover(m, start, end, lba);
        },
        EntryClassification::ZeroSubRuns(list) => {
            assert(reads.contains(runs[j]));
            let i = choose|i: int| 0 <= i < reads.len() && reads[i] == runs[j];
            assert(start <= reads[i].range_start <= reads[i].range_end <= end);
            assert(read_covers(reads[i], lba));
            lemma_reads_cover(m, start, end, lba);
        },
        EntryClassification::PartialDeath { live_runs, emit_canonical } => {
            let n = if emit_canonical {
                j - 1
            } else {
                j
            };
            assert(reads.contains(runs[n]));
            let i = choose|i: int| 0 <= i < reads.len() && reads[i] == runs[n];
            assert(start <= reads[i].range_start <= reads[i].range_end <= end);
            assert(read_covers(reads[i], lba));
            lemma_reads_cover(m, start, end, lba);
        },
        _ => {},
    }
}

/// A repack keeps what must stay resolvable: where the index gives this
/// segment's body for an entry's hash, and the hash is live, one of the outputs
/// cut from the entry carries its content, whole or for resolution alone.
pub proof fn law_repack_keeps_live_content(
    class: EntryClassification,
    entry: SegmentEntry,
    map: LbaMap,
    index: ExtentIndex,
    live: Set<ContentHash>,
    segment: Ulid,
    idx: u32,
)
    requires
        classified(class, entry, map, index, live, segment),
        !(entry.kind is Zero),
        !(entry.kind is DedupRef),
        live.contains(entry.hash),
        index.body(entry.hash) is Some,
        (index.body(entry.hash)->0).segment_id == segment,
    ensures
        exists|j: int|
            0 <= j < entry_outputs(segment, idx, class).len() && #[trigger] has_content(
                entry_outputs(segment, idx, class)[j],
                segment,
                idx,
            ),
{
    let outs = entry_outputs(segment, idx, class);
    assert(has_content(outs[0], segment, idx));
}

/// The output has the whole content of entry `idx` of `segment`.
pub open spec fn has_content(o: PlanOutput, segment: Ulid, idx: u32) -> bool {
    match o {
        PlanOutput::Keep { input, entry_idx } => input == segment && entry_idx == idx,
        PlanOutput::Canonical { input, entry_idx } => input == segment && entry_idx == idx,
        _ => false,
    }
}

/// An entry that a rewrite drops is dead: no block of its range reads it, and
/// the hash leaves the index only where this segment held its body. An entry
/// kept for resolution alone is one whose content is live.
pub proof fn law_repack_drops_only_the_dead(
    class: EntryClassification,
    entry: SegmentEntry,
    map: LbaMap,
    index: ExtentIndex,
    live: Set<ContentHash>,
    segment: Ulid,
    idx: u32,
    lba: int,
)
    requires
        map.wf(),
        entry.in_range(),
        classified(class, entry, map, index, live, segment),
        entry.start_lba <= lba < entry.start_lba + entry.lba_length,
    ensures
        class is Drop || class is DropAndRemoveHash || class is DemoteToCanonical ==> !(map.at(lba)
            is Some && (map.at(lba)->0).0 == entry.hash),
        class is DropAndRemoveHash ==> index.body(entry.hash) is Some && (
        index.body(entry.hash)->0).segment_id == segment && (!live.contains(entry.hash)
            || entry.kind is DedupRef),
        class is Drop ==> !(entry.kind is Zero) && !entry.kind.canonical_only() && !(index.body(
            entry.hash,
        ) is Some && (index.body(entry.hash)->0).segment_id == segment),
        entry_outputs(segment, idx, class).contains(
            PlanOutput::Canonical { input: segment, entry_idx: idx },
        ) ==> live.contains(entry.hash) && !(entry.kind is DedupRef) && !(entry.kind is Zero),
        entry_outputs(segment, idx, class).len() == 0 ==> !(map.at(lba) is Some && (
        if entry.kind is Zero {
            (map.at(lba)->0).0.is_zero()
        } else {
            (map.at(lba)->0).0 == entry.hash
        })),
{
    let m = map.entries();
    let (start, end) = (entry.start_lba as int, entry.start_lba + entry.lba_length);
    let reads = reads_in(m, start, end);
    let hash = hash_read(entry);
    lemma_reads_ascend(m, start, end);
    assert(ascend(reads, start, end));
    lemma_reads_cover(m, start, end, lba);
    lemma_runs_are_reads(reads, hash);
    lemma_blocks_bound(reads, hash, start, end);
    if map.at(lba) is Some && (map.at(lba)->0).0 == hash {
        let i = choose|i: int| 0 <= i < reads.len() && read_covers(#[trigger] reads[i], lba);
        assert(reads[i].hash == hash);
        assert(runs_of(reads, hash).contains(reads[i]));
    }
    let outs = entry_outputs(segment, idx, class);
    let canonical = PlanOutput::Canonical { input: segment, entry_idx: idx };
    if outs.contains(canonical) {
        let j = choose|j: int| 0 <= j < outs.len() && outs[j] == canonical;
        assert(outs[j] is Canonical);
        match class {
            EntryClassification::ZeroSubRuns(list) => {
                assert(outs[j] is ZeroSplit);
            },
            EntryClassification::PartialDeath { live_runs, emit_canonical } => {
                if !emit_canonical {
                    assert(outs[j] is Run);
                }
            },
            _ => {},
        }
    }
}

/// An entry is kept whole just where every block of it still reads it. One that
/// is kept whole although some do not is a delta that cannot be cut, for none
/// of its sources has a body.
pub proof fn law_repack_keeps_whole_what_is_whole(
    class: EntryClassification,
    entry: SegmentEntry,
    map: LbaMap,
    index: ExtentIndex,
    live: Set<ContentHash>,
    segment: Ulid,
)
    requires
        map.wf(),
        entry.in_range(),
        !entry.kind.canonical_only(),
        !(entry.kind is Zero),
        classified(class, entry, map, index, live, segment),
    ensures
        class is FullyLive <==> forall|lba: int|
            entry.start_lba <= lba < entry.start_lba + entry.lba_length ==> (#[trigger] map.at(lba))
                is Some && (map.at(lba)->0).0 == entry.hash,
        class is DeferUnresolvableDelta ==> entry.kind is Delta && forall|i: int|
            0 <= i < entry.delta_options@.len() ==> index.body(
                (#[trigger] entry.delta_options@[i]).source_hash,
            ) is None,
        class is PartialDeath && entry.kind is Delta ==> exists|i: int|
            0 <= i < entry.delta_options@.len() && index.body(
                (#[trigger] entry.delta_options@[i]).source_hash,
            ) is Some,
{
    let m = map.entries();
    let (start, end) = (entry.start_lba as int, entry.start_lba + entry.lba_length);
    let reads = reads_in(m, start, end);
    lemma_reads_ascend(m, start, end);
    assert(ascend(reads, start, end));
    lemma_blocks_bound(reads, entry.hash, start, end);
    if class is FullyLive {
        assert forall|lba: int| start <= lba < end implies (#[trigger] map.at(lba)) is Some && (
        map.at(lba)->0).0 == entry.hash by {
            lemma_full_range(reads, entry.hash, start, end, lba);
            lemma_reads_cover(m, start, end, lba);
        }
    }
    if forall|lba: int|
        start <= lba < end ==> (#[trigger] map.at(lba)) is Some && (map.at(lba)->0).0
            == entry.hash {
        assert forall|lba: int| start <= lba < end implies (#[trigger] block_claim(m, lba)) is Some
            && (block_claim(m, lba)->0).0 == entry.hash by {
            assert(map.at(lba) is Some);
        }
        lemma_all_read(m, reads, entry.hash, start, end, reads.len() as int);
        assert(reads.take(reads.len() as int) =~= reads);
    }
}

/// Where every block of a range reads a hash, the reads are all of the hash and
/// leave no block out.
proof fn lemma_all_read(
    m: Map<u64, MapEntry>,
    reads: Seq<ExtentRead>,
    hash: ContentHash,
    start: int,
    end: int,
    n: int,
)
    requires
        extents_wf(m),
        0 <= start <= end <= u64::MAX,
        reads == reads_in(m, start, end),
        ascend(reads, start, end),
        0 <= n <= reads.len(),
        forall|lba: int|
            start <= lba < end ==> (#[trigger] block_claim(m, lba)) is Some && (block_claim(
                m,
                lba,
            )->0).0 == hash,
    ensures
        blocks_in(runs_of(reads.take(n), hash)) == (if n == reads.len() {
            end
        } else {
            reads[n].range_start as int
        }) - start,
    decreases n,
{
    // The block before the next read, if any, is in the last read so far.
    let to = if n == reads.len() {
        end
    } else {
        reads[n].range_start as int
    };
    assert(start <= to <= end) by {
        if n < reads.len() {
            assert(start <= reads[n].range_start <= reads[n].range_end <= end);
        }
    }
    if n == 0 {
        if to > start {
            lemma_reads_cover(m, start, end, start);
            assert(block_claim(m, start) is Some);
            let i = choose|i: int| 0 <= i < reads.len() && read_covers(#[trigger] reads[i], start);
            if i > 0 {
                assert(reads[0].range_end <= reads[i].range_start);
                crate::lbamap::lemma_reads_hold(m, start, end, 0);
            }
        }
        assert(runs_of(reads.take(0), hash).len() == 0);
    } else {
        lemma_all_read(m, reads, hash, start, end, n - 1);
        let last = reads[n - 1];
        assert(reads.take(n).drop_last() =~= reads.take(n - 1));
        assert(reads.take(n).last() == last);
        assert(start <= last.range_start <= last.range_end <= end);
        if start < end {
            crate::lbamap::lemma_reads_hold(m, start, end, n - 1);
            assert(last.range_start < last.range_end);
            assert(block_claim(m, last.range_start as int) is Some);
            assert(last.hash == hash);
            if last.range_end < to {
                let x = last.range_end as int;
                lemma_reads_cover(m, start, end, x);
                assert(block_claim(m, x) is Some);
                let i = choose|i: int| 0 <= i < reads.len() && read_covers(#[trigger] reads[i], x);
                if i < n - 1 {
                    assert(reads[i].range_end <= reads[n - 1].range_start);
                } else if i >= n {
                    if i > n {
                        assert(reads[n].range_end <= reads[i].range_start);
                        crate::lbamap::lemma_reads_hold(m, start, end, n);
                    }
                }
            }
            if n < reads.len() {
                assert(reads[n - 1].range_end <= reads[n].range_start);
            }
        }
        let runs = runs_of(reads.take(n), hash);
        if last.hash == hash {
            assert(runs.drop_last() =~= runs_of(reads.take(n - 1), hash));
            assert(runs.last() == last);
        }
    }
}

/// The runs an entry is cut into hold just the blocks that still read it, or
/// that are still zero, and nothing is cut where no such block is left.
pub proof fn law_the_runs_are_the_live_blocks(
    class: EntryClassification,
    entry: SegmentEntry,
    map: LbaMap,
    index: ExtentIndex,
    live: Set<ContentHash>,
    segment: Ulid,
    runs: Seq<ExtentRead>,
    lba: int,
)
    requires
        map.wf(),
        entry.in_range(),
        classified(class, entry, map, index, live, segment),
        match class {
            EntryClassification::ZeroSubRuns(cut) => cut@ == runs,
            EntryClassification::PartialDeath { live_runs, .. } => live_runs@ == runs,
            _ => false,
        },
        entry.start_lba <= lba < entry.start_lba + entry.lba_length,
    ensures
        (exists|i: int| 0 <= i < runs.len() && read_covers(#[trigger] runs[i], lba)) <==> (map.at(
            lba,
        ) is Some && (if entry.kind is Zero {
            (map.at(lba)->0).0.is_zero()
        } else {
            (map.at(lba)->0).0 == entry.hash
        })),
        class is ZeroSubRuns <==> entry.kind is Zero,
{
    let m = map.entries();
    let (start, end) = (entry.start_lba as int, entry.start_lba + entry.lba_length);
    let reads = reads_in(m, start, end);
    let hash = hash_read(entry);
    lemma_reads_cover(m, start, end, lba);
    lemma_runs_are_reads(reads, hash);
    assert(runs == runs_of(reads, hash));
    if exists|i: int| 0 <= i < runs.len() && read_covers(#[trigger] runs[i], lba) {
        let i = choose|i: int| 0 <= i < runs.len() && read_covers(#[trigger] runs[i], lba);
        assert(reads.contains(runs[i]));
        let j = choose|j: int| 0 <= j < reads.len() && reads[j] == runs[i];
        assert(read_covers(reads[j], lba));
    }
    if map.at(lba) is Some && (map.at(lba)->0).0 == hash {
        assert(block_claim(m, lba) is Some);
        let j = choose|j: int| 0 <= j < reads.len() && read_covers(#[trigger] reads[j], lba);
        assert(runs.contains(reads[j]));
        let i = choose|i: int| 0 <= i < runs.len() && runs[i] == reads[j];
        assert(read_covers(runs[i], lba));
    }
}

/// An entry is cut or put off only where some block still reads it, and its
/// body is kept beside the runs just where its content is live and it has a
/// body to keep.
pub proof fn law_a_cut_entry_is_still_read(
    class: EntryClassification,
    entry: SegmentEntry,
    map: LbaMap,
    index: ExtentIndex,
    live: Set<ContentHash>,
    segment: Ulid,
)
    requires
        map.wf(),
        entry.in_range(),
        classified(class, entry, map, index, live, segment),
    ensures
        class is PartialDeath || class is DeferUnresolvableDelta ==> exists|lba: int|
            entry.start_lba <= lba < entry.start_lba + entry.lba_length && (#[trigger] map.at(lba))
                is Some && (map.at(lba)->0).0 == entry.hash,
        class is PartialDeath ==> !(entry.kind is Zero) && (class->emit_canonical <==> (
        live.contains(entry.hash) && !(entry.kind is DedupRef))),
        entry.kind.canonical_only() ==> class is FullyLive,
{
    let m = map.entries();
    let (start, end) = (entry.start_lba as int, entry.start_lba + entry.lba_length);
    let reads = reads_in(m, start, end);
    if class is PartialDeath || class is DeferUnresolvableDelta {
        let runs = runs_of(reads, entry.hash);
        lemma_runs_are_reads(reads, entry.hash);
        assert(runs.len() > 0);
        assert(reads.contains(runs[0]));
        let j = choose|j: int| 0 <= j < reads.len() && reads[j] == runs[0];
        lemma_reads_ascend(m, start, end);
        crate::lbamap::lemma_reads_hold(m, start, end, j);
        let lba = reads[j].range_start as int;
        if start < end {
            assert(start <= lba < end);
            assert(block_claim(m, lba) is Some);
            assert(map.at(lba) is Some && (map.at(lba)->0).0 == entry.hash);
        } else {
            lemma_blocks_bound(reads, entry.hash, start, end);
        }
    }
}

} // verus!
