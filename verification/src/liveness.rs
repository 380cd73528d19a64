//! Which segments of a volume's index still hold anything live.

use vstd::prelude::*;

use crate::extent_index::ExtentIndex;
use crate::hash_set::Blake3HashSet;
use crate::ids::{ContentHash, Ulid};
use crate::lbamap::{ExtentRead, LbaMap};
use crate::map_layers::Maps;
use crate::rebuild::ParsedSegment;
use crate::repack::live_hashes;
use crate::segment::{EntryKind, SegmentEntry};

verus! {

/// One of the reads comes from `hash`.
pub open spec fn reads_hash(reads: Seq<ExtentRead>, hash: ContentHash) -> bool {
    exists|i: int| 0 <= i < reads.len() && (#[trigger] reads[i]).hash == hash
}

/// The entry is live. A claim without a body of its own is, where some block
/// of its range still maps to its content. A body is, where the index gives
/// exactly it for its hash and the hash is live: the first rules out a copy
/// another has displaced, the second a body nothing reads. A journal body has
/// a slot of its own segment.
pub open spec fn entry_live(
    segment: Ulid,
    entry: SegmentEntry,
    index: ExtentIndex,
    map: LbaMap,
    live: Set<ContentHash>,
) -> bool {
    let reads = crate::lbamap::reads_in(
        map.entries(),
        entry.start_lba as int,
        entry.start_lba + entry.lba_length,
    );
    match entry.kind {
        EntryKind::Zero => reads_hash(reads, ContentHash { head: 0, tail: 0 }),
        EntryKind::DedupRef | EntryKind::Delta => reads_hash(reads, entry.hash),
        EntryKind::CanonicalDelta => live.contains(entry.hash) && (index.delta(entry.hash)
            matches Some(loc) && loc.segment_id == segment),
        EntryKind::Data
        | EntryKind::Inline
        | EntryKind::CanonicalData
        | EntryKind::CanonicalInline => {
            if entry.journal {
                live.contains(entry.hash) && (index.journal(segment, entry.hash) matches Some(loc)
                    && loc.body_offset == entry.stored_offset)
            } else {
                live.contains(entry.hash) && (index.body(entry.hash) matches Some(loc)
                    && loc.segment_id == segment && loc.body_offset == entry.stored_offset)
            }
        },
    }
}

/// Some entry of the segment is live.
pub open spec fn segment_live(segment: ParsedSegment, maps: Maps) -> bool {
    exists|i: int|
        0 <= i < segment.entries@.len() && entry_live(
            segment.ulid,
            #[trigger] segment.entries@[i],
            maps.extent_index,
            maps.lbamap,
            crate::repack::live_set(maps),
        )
}

/// The ULIDs of the live ones among the first `n` segments, in order.
pub open spec fn live_among(segments: Seq<ParsedSegment>, maps: Maps, n: int) -> Seq<Ulid>
    decreases n,
{
    if n <= 0 {
        Seq::empty()
    } else if segment_live(segments[n - 1], maps) {
        live_among(segments, maps, n - 1).push(segments[n - 1].ulid)
    } else {
        live_among(segments, maps, n - 1)
    }
}

fn any_read_of(reads: &Vec<ExtentRead>, hash: ContentHash) -> (b: bool)
    ensures
        b == reads_hash(reads@, hash),
{
    let mut i: usize = 0;
    while i < reads.len()
        invariant
            i <= reads.len(),
            forall|j: int| 0 <= j < i ==> (#[trigger] reads@[j]).hash != hash,
        decreases reads.len() - i,
    {
        if reads[i].hash == hash {
            assert(reads@[i as int].hash == hash);
            return true;
        }
        i += 1;
    }
    false
}

/// Whether the entry is live.
pub fn is_index_entry_live(
    seg_ulid: Ulid,
    entry: &SegmentEntry,
    extent_index: &ExtentIndex,
    lbamap: &LbaMap,
    live: &Blake3HashSet,
) -> (b: bool)
    requires
        extent_index.wf(),
        lbamap.wf(),
        entry.in_range(),
    ensures
        b == entry_live(seg_ulid, *entry, *extent_index, *lbamap, live@),
{
    let end: u64 = entry.start_lba + entry.lba_length as u64;
    match entry.kind {
        EntryKind::Zero => {
            let reads = lbamap.extents_in_range(entry.start_lba, end);
            any_read_of(&reads, ContentHash::zero())
        },
        EntryKind::DedupRef | EntryKind::Delta => {
            let reads = lbamap.extents_in_range(entry.start_lba, end);
            any_read_of(&reads, entry.hash)
        },
        EntryKind::CanonicalDelta => {
            let held: bool = match extent_index.lookup_delta(&entry.hash) {
                Some(loc) => loc.segment_id == seg_ulid,
                None => false,
            };
            live.contains(&entry.hash) && held
        },
        EntryKind::Data
        | EntryKind::Inline
        | EntryKind::CanonicalData
        | EntryKind::CanonicalInline => {
            if entry.journal {
                let held: bool = match extent_index.lookup_journal(seg_ulid, &entry.hash) {
                    Some(loc) => loc.body_offset == entry.stored_offset,
                    None => false,
                };
                live.contains(&entry.hash) && held
            } else {
                let held: bool = match extent_index.lookup(&entry.hash) {
                    Some(loc) => loc.segment_id == seg_ulid && loc.body_offset
                        == entry.stored_offset,
                    None => false,
                };
                live.contains(&entry.hash) && held
            }
        },
    }
}

/// The ULIDs of the segments in which some entry is live, in listing order.
pub fn live_index_segments(segments: &Vec<ParsedSegment>, maps: &Maps) -> (live: Vec<Ulid>)
    requires
        maps.wf(),
        forall|i: int| 0 <= i < segments@.len() ==> #[trigger] segments@[i].in_range(),
    ensures
        live@ == live_among(segments@, *maps, segments@.len() as int),
{
    let hashes = live_hashes(maps);
    let mut live: Vec<Ulid> = Vec::new();
    let mut i: usize = 0;
    while i < segments.len()
        invariant
            i <= segments.len(),
            maps.wf(),
            hashes@ == crate::repack::live_set(*maps),
            forall|j: int| 0 <= j < segments@.len() ==> #[trigger] segments@[j].in_range(),
            live@ == live_among(segments@, *maps, i as int),
        decreases segments.len() - i,
    {
        let segment = &segments[i];
        assert(segment.in_range());
        let mut any: bool = false;
        let mut n: usize = 0;
        while n < segment.entries.len() && !any
            invariant
                n <= segment.entries.len(),
                maps.wf(),
                hashes@ == crate::repack::live_set(*maps),
                segment.in_range(),
                any ==> segment_live(*segment, *maps),
                !any ==> forall|j: int|
                    0 <= j < n ==> !entry_live(
                        segment.ulid,
                        #[trigger] segment.entries@[j],
                        maps.extent_index,
                        maps.lbamap,
                        hashes@,
                    ),
            decreases segment.entries.len() - n,
        {
            assert(segment.entries@[n as int].in_range());
            any =
            is_index_entry_live(
                segment.ulid,
                &segment.entries[n],
                &maps.extent_index,
                &maps.lbamap,
                &hashes,
            );
            n += 1;
        }
        if any {
            live.push(segment.ulid);
        }
        i += 1;
    }
    live
}

// ---------------------------------------------------------------------------
// Laws
// ---------------------------------------------------------------------------

/// A segment is named where any one of its entries is live, however many of the
/// others are dead, and only there: no segment that a block still reads is left
/// out of a snapshot.
pub proof fn law_one_live_entry_names_its_segment(
    segments: Seq<ParsedSegment>,
    maps: Maps,
    n: int,
)
    requires
        0 <= n <= segments.len(),
    ensures
        forall|s: int, e: int|
            #![trigger segments[s].entries@[e]]
            0 <= s < n && 0 <= e < segments[s].entries@.len() && entry_live(
                segments[s].ulid,
                segments[s].entries@[e],
                maps.extent_index,
                maps.lbamap,
                crate::repack::live_set(maps),
            ) ==> live_among(segments, maps, n).contains(segments[s].ulid),
        forall|i: int|
            0 <= i < live_among(segments, maps, n).len() ==> has_live_entry(
                segments,
                maps,
                n,
                #[trigger] live_among(segments, maps, n)[i],
            ),
    decreases n,
{
    if n > 0 {
        law_one_live_entry_names_its_segment(segments, maps, n - 1);
        let was = live_among(segments, maps, n - 1);
        let now = live_among(segments, maps, n);
        assert forall|s: int, e: int|
            #![trigger segments[s].entries@[e]]
            0 <= s < n && 0 <= e < segments[s].entries@.len() && entry_live(
                segments[s].ulid,
                segments[s].entries@[e],
                maps.extent_index,
                maps.lbamap,
                crate::repack::live_set(maps),
            ) implies now.contains(segments[s].ulid) by {
            if s < n - 1 {
                assert(was.contains(segments[s].ulid));
                let i = choose|i: int| 0 <= i < was.len() && was[i] == segments[s].ulid;
                assert(now[i] == segments[s].ulid);
            } else {
                assert(segment_live(segments[s], maps));
                assert(now[now.len() - 1] == segments[s].ulid);
            }
        }
        assert forall|i: int| 0 <= i < now.len() implies has_live_entry(
            segments,
            maps,
            n,
            #[trigger] now[i],
        ) by {
            if i < was.len() {
                assert(has_live_entry(segments, maps, n - 1, was[i]));
                let (s, e) = choose|s: int, e: int|
                    #![trigger segments[s].entries@[e]]
                    0 <= s < n - 1 && segments[s].ulid == was[i] && 0 <= e
                        < segments[s].entries@.len() && entry_live(
                        segments[s].ulid,
                        segments[s].entries@[e],
                        maps.extent_index,
                        maps.lbamap,
                        crate::repack::live_set(maps),
                    );
                assert(segments[s].entries@[e] == segments[s].entries@[e]);
                assert(has_live_entry(segments, maps, n, now[i]));
            } else {
                let s = n - 1;
                assert(segment_live(segments[s], maps));
                let e = choose|e: int|
                    0 <= e < segments[s].entries@.len() && entry_live(
                        segments[s].ulid,
                        #[trigger] segments[s].entries@[e],
                        maps.extent_index,
                        maps.lbamap,
                        crate::repack::live_set(maps),
                    );
                assert(segments[s].entries@[e] == segments[s].entries@[e]);
            }
        }
    }
}

/// One of the first `n` segments has that ULID and a live entry.
pub open spec fn has_live_entry(
    segments: Seq<ParsedSegment>,
    maps: Maps,
    n: int,
    ulid: Ulid,
) -> bool {
    exists|s: int, e: int|
        #![trigger segments[s].entries@[e]]
        0 <= s < n && segments[s].ulid == ulid && 0 <= e < segments[s].entries@.len()
            && entry_live(
            segments[s].ulid,
            segments[s].entries@[e],
            maps.extent_index,
            maps.lbamap,
            crate::repack::live_set(maps),
        )
}

/// A block that reads a hash makes the hash live.
proof fn lemma_read_is_live(maps: Maps, lba: int)
    requires
        maps.wf(),
        maps.lbamap.at(lba) is Some,
    ensures
        crate::repack::live_set(maps).contains((maps.lbamap.at(lba)->0).0),
{
    let m = maps.lbamap.entries();
    let k = choose|k: u64| crate::lbamap::covers(m, k, lba);
    crate::lbamap::lemma_block_claim(m, k, lba);
    crate::lbamap::lemma_claimed_counts(m, k);
}

/// Block by block: where a block reads content that the index places in a
/// listed segment, at an entry of the segment for that content, the segment is
/// named. Its body is not lost to a volume opened from the snapshot.
pub proof fn law_a_read_body_names_its_segment(
    segments: Seq<ParsedSegment>,
    maps: Maps,
    lba: int,
    s: int,
    e: int,
)
    requires
        maps.wf(),
        maps.lbamap.at(lba) is Some,
        0 <= s < segments.len(),
        0 <= e < segments[s].entries@.len(),
        segments[s].entries@[e].hash == (maps.lbamap.at(lba)->0).0,
        segments[s].entries@[e].kind.bears_body(),
        ({
            let entry = segments[s].entries@[e];
            if entry.journal {
                &&& maps.extent_index.journal(segments[s].ulid, entry.hash) is Some
                &&& (maps.extent_index.journal(segments[s].ulid, entry.hash)->0).body_offset
                    == entry.stored_offset
            } else {
                &&& maps.extent_index.body(entry.hash) is Some
                &&& (maps.extent_index.body(entry.hash)->0).segment_id == segments[s].ulid
                &&& (maps.extent_index.body(entry.hash)->0).body_offset == entry.stored_offset
            }
        }),
    ensures
        live_among(segments, maps, segments.len() as int).contains(segments[s].ulid),
{
    lemma_read_is_live(maps, lba);
    law_one_live_entry_names_its_segment(segments, maps, segments.len() as int);
    assert(segments[s].entries@[e] == segments[s].entries@[e]);
}

/// A delta kept for resolution names its segment as long as a block reads its
/// content and the index places the delta there.
pub proof fn law_a_read_delta_names_its_segment(
    segments: Seq<ParsedSegment>,
    maps: Maps,
    lba: int,
    s: int,
    e: int,
)
    requires
        maps.wf(),
        maps.lbamap.at(lba) is Some,
        0 <= s < segments.len(),
        0 <= e < segments[s].entries@.len(),
        segments[s].entries@[e].hash == (maps.lbamap.at(lba)->0).0,
        segments[s].entries@[e].kind is CanonicalDelta,
        maps.extent_index.delta(segments[s].entries@[e].hash) is Some,
        (maps.extent_index.delta(segments[s].entries@[e].hash)->0).segment_id == segments[s].ulid,
    ensures
        live_among(segments, maps, segments.len() as int).contains(segments[s].ulid),
{
    lemma_read_is_live(maps, lba);
    law_one_live_entry_names_its_segment(segments, maps, segments.len() as int);
    assert(segments[s].entries@[e] == segments[s].entries@[e]);
}

/// A claim without a body of its own names its segment too, as long as one
/// block of its range still reads what it claims.
pub proof fn law_a_read_claim_names_its_segment(
    segments: Seq<ParsedSegment>,
    maps: Maps,
    lba: int,
    s: int,
    e: int,
)
    requires
        maps.wf(),
        0 <= s < segments.len(),
        0 <= e < segments[s].entries@.len(),
        segments[s].entries@[e].in_range(),
        segments[s].entries@[e].start_lba <= lba < segments[s].entries@[e].start_lba
            + segments[s].entries@[e].lba_length,
        maps.lbamap.at(lba) is Some,
        segments[s].entries@[e].kind is Zero ==> (maps.lbamap.at(lba)->0).0.head == 0 && (
        maps.lbamap.at(lba)->0).0.tail == 0,
        segments[s].entries@[e].kind is DedupRef || segments[s].entries@[e].kind is Delta ==> (
        maps.lbamap.at(lba)->0).0 == segments[s].entries@[e].hash,
        segments[s].entries@[e].kind is Zero || segments[s].entries@[e].kind is DedupRef
            || segments[s].entries@[e].kind is Delta,
    ensures
        live_among(segments, maps, segments.len() as int).contains(segments[s].ulid),
{
    let entry = segments[s].entries@[e];
    let m = maps.lbamap.entries();
    let (start, end) = (entry.start_lba as int, entry.start_lba + entry.lba_length);
    crate::plan_coverage::lemma_reads_cover(m, start, end, lba);
    let reads = crate::lbamap::reads_in(m, start, end);
    let i = choose|i: int|
        0 <= i < reads.len() && crate::plan_coverage::read_covers(#[trigger] reads[i], lba);
    assert(reads[i].hash == (maps.lbamap.at(lba)->0).0);
    law_one_live_entry_names_its_segment(segments, maps, segments.len() as int);
    assert(segments[s].entries@[e] == entry);
}

/// What is named is read: an entry is live only where a block reads its
/// content, or a delta on record is made of it.
pub proof fn law_a_live_entry_is_needed(segment: Ulid, entry: SegmentEntry, maps: Maps)
    requires
        maps.wf(),
        entry.in_range(),
        entry_live(
            segment,
            entry,
            maps.extent_index,
            maps.lbamap,
            crate::repack::live_set(maps),
        ),
    ensures
        (exists|lba: int| #[trigger]
            maps.lbamap.at(lba) is Some && ((maps.lbamap.at(lba)->0).0 == entry.hash || entry.kind
                is Zero)) || maps.extent_index.names_source(entry.hash),
{
    let m = maps.lbamap.entries();
    let (start, end) = (entry.start_lba as int, entry.start_lba + entry.lba_length);
    if entry.kind is Zero || entry.kind is DedupRef || entry.kind is Delta {
        let reads = crate::lbamap::reads_in(m, start, end);
        let hash = if entry.kind is Zero {
            ContentHash { head: 0, tail: 0 }
        } else {
            entry.hash
        };
        let i = choose|i: int| 0 <= i < reads.len() && (#[trigger] reads[i]).hash == hash;
        crate::lbamap::lemma_reads_hold(m, start, end, i);
        let lba = reads[i].range_start as int;
        assert(maps.lbamap.at(lba) is Some);
    } else if !maps.extent_index.names_source(entry.hash) {
        crate::lbamap::lemma_counted_claims(m, entry.hash);
        let k = choose|k: u64| m.contains_key(k) && m[k].hash == entry.hash;
        assert(crate::lbamap::covers(m, k, k as int));
        crate::lbamap::lemma_block_claim(m, k, k as int);
        assert(maps.lbamap.at(k as int) is Some);
    }
}

} // verus!
