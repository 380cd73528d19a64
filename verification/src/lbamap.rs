//! The block map: which content each logical block holds, and which segment
//! staked that claim.
//!
//! The map holds disjoint extents keyed by their first block. Writing over
//! part of an extent trims or splits it; the pieces keep their hash, their
//! claimant and their place inside the stored payload. Beside the extents the
//! map counts how many of them claim each hash, so that asking whether a hash
//! is claimed is one lookup.

use vstd::prelude::*;

use crate::hash_set::Blake3HashSet;
use crate::ids::{ContentHash, Ulid};
use crate::persistent::{
    claims_clone, claims_get, claims_insert, claims_keys, claims_new, claims_remove,
    extents_at_or_below, extents_clone, extents_get, extents_insert, extents_len, extents_new,
    extents_range, extents_remove, ClaimTable, ExtentTree,
};
use crate::segment::SegmentEntry;

verus! {

/// The entries of `m` keyed in `[a, b)`, ascending by key.
pub open spec fn entries_between(m: Map<u64, MapEntry>, a: int, b: int) -> Seq<(u64, MapEntry)>
    decreases b - a,
{
    if a >= b {
        Seq::empty()
    } else if m.contains_key(a as u64) {
        seq![(a as u64, m[a as u64])] + entries_between(m, a + 1, b)
    } else {
        entries_between(m, a + 1, b)
    }
}

/// One extent of the map, under the block it is keyed by.
#[derive(Clone, Copy, Debug, PartialEq, Eq, Structural)]
pub struct MapEntry {
    /// Blocks the extent covers.
    pub lba_length: u32,
    /// Content the blocks come from.
    pub hash: ContentHash,
    /// Blocks from the start of the stored payload to this extent's first
    /// block. Zero for a fresh claim; a split leaves its tail above zero.
    pub payload_block_offset: u32,
    /// Segment (or open log) that staked the claim.
    pub claimant_ulid: Ulid,
}

// ---------------------------------------------------------------------------
// The model
// ---------------------------------------------------------------------------

/// Extents are non-empty, stay inside the block and payload ranges, and do
/// not overlap.
pub open spec fn extents_wf(m: Map<u64, MapEntry>) -> bool {
    &&& m.dom().finite()
    &&& forall|k: u64| #[trigger]
        m.contains_key(k) ==> {
            &&& 0 < m[k].lba_length
            &&& k + m[k].lba_length <= u64::MAX
            &&& m[k].payload_block_offset + m[k].lba_length <= u32::MAX
        }
    &&& forall|a: u64, b: u64|
        #![trigger m.contains_key(a), m.contains_key(b)]
        m.contains_key(a) && m.contains_key(b) && a < b ==> a + m[a].lba_length <= b
}

/// The extent keyed at `k` covers block `lba`.
pub open spec fn covers(m: Map<u64, MapEntry>, k: u64, lba: int) -> bool {
    m.contains_key(k) && k <= lba < k + m[k].lba_length
}

/// What block `lba` holds: the hash, the block's place in the payload, and
/// the claimant. `None` for a block never written.
pub open spec fn block_claim(m: Map<u64, MapEntry>, lba: int) -> Option<(ContentHash, int, Ulid)> {
    if exists|k: u64| covers(m, k, lba) {
        let k = choose|k: u64| covers(m, k, lba);
        Some((m[k].hash, m[k].payload_block_offset + (lba - k), m[k].claimant_ulid))
    } else {
        None
    }
}

/// The extent keyed at `k` reaches from below `at` to beyond it.
pub open spec fn cut_by(m: Map<u64, MapEntry>, k: u64, at: int) -> bool {
    m.contains_key(k) && k < at < k + m[k].lba_length
}

/// The part of an extent keyed at `k` that lies below block `at`.
pub open spec fn head_of(k: u64, e: MapEntry, at: int) -> MapEntry {
    MapEntry { lba_length: (at - k) as u32, ..e }
}

/// The part of an extent keyed at `k` that lies from block `at` on.
pub open spec fn tail_of(k: u64, e: MapEntry, at: int) -> MapEntry {
    MapEntry {
        lba_length: (k + e.lba_length - at) as u32,
        payload_block_offset: (e.payload_block_offset + (at - k)) as u32,
        ..e
    }
}

/// The map with nothing left in `[start, end)`: extents inside go, an extent
/// that reaches in from below keeps its head, one that reaches out above
/// keeps its tail.
pub open spec fn carved(m: Map<u64, MapEntry>, start: int, end: int) -> Map<u64, MapEntry> {
    Map::new(
        |k: u64|
            (m.contains_key(k) && !(start <= k < end)) || (k == end && exists|c: u64|
                cut_by(m, c, end)),
        |k: u64|
            if m.contains_key(k) && !(start <= k < end) {
                if k < start && start < k + m[k].lba_length {
                    head_of(k, m[k], start)
                } else {
                    m[k]
                }
            } else {
                let c = choose|c: u64| cut_by(m, c, end);
                tail_of(c, m[c], end)
            },
    )
}

/// The map after `entry` has been written at `start`, over whatever was
/// there.
pub open spec fn overwritten(m: Map<u64, MapEntry>, start: u64, entry: MapEntry) -> Map<
    u64,
    MapEntry,
> {
    carved(m, start as int, start + entry.lba_length).insert(start, entry)
}

/// The part of one extent that a read of some block range needs.
#[derive(Clone, Copy, Debug, PartialEq, Eq, Structural)]
pub struct ExtentRead {
    /// Content the blocks come from.
    pub hash: ContentHash,
    /// First block of the range the extent covers.
    pub range_start: u64,
    /// One past the last block of the range the extent covers.
    pub range_end: u64,
    /// Block offset of `range_start` within the stored payload.
    pub payload_block_offset: u32,
    /// Segment (or open log) that staked the claim.
    pub claimant_ulid: Ulid,
}

/// The part of the extent keyed at `k` that a read of `[start, end)` needs.
pub open spec fn read_of(k: u64, e: MapEntry, start: int, end: int) -> ExtentRead {
    let from = if k < start {
        start
    } else {
        k as int
    };
    let to = if k + e.lba_length < end {
        k + e.lba_length
    } else {
        end
    };
    ExtentRead {
        hash: e.hash,
        range_start: from as u64,
        range_end: to as u64,
        payload_block_offset: (e.payload_block_offset + (from - k)) as u32,
        claimant_ulid: e.claimant_ulid,
    }
}

/// What a read of `[start, end)` needs, ascending: the extent that reaches in
/// from below, if one does, and then every extent keyed inside.
pub open spec fn reads_in(m: Map<u64, MapEntry>, start: int, end: int) -> Seq<ExtentRead> {
    let inside = entries_between(m, start, end);
    let rest = Seq::new(inside.len(), |i: int| read_of(inside[i].0, inside[i].1, start, end));
    if exists|c: u64| cut_by(m, c, start) {
        let c = choose|c: u64| cut_by(m, c, start);
        seq![read_of(c, m[c], start, end)] + rest
    } else {
        rest
    }
}

/// The extent keyed at `start_lba` covers exactly `lba_length` blocks of the
/// payload of `hash`, from the payload's start.
pub open spec fn full_match(
    m: Map<u64, MapEntry>,
    start_lba: u64,
    lba_length: u32,
    hash: ContentHash,
) -> bool {
    &&& m.contains_key(start_lba)
    &&& m[start_lba].lba_length == lba_length
    &&& m[start_lba].payload_block_offset == 0
    &&& m[start_lba].hash == hash
}

/// Every entry of the map, ascending by key.
pub open spec fn all_entries(m: Map<u64, MapEntry>) -> Seq<(u64, MapEntry)> {
    entries_between(m, 0, u64::MAX as int)
}

/// The entries of `list` that claim `hash`, in order.
pub open spec fn claiming(list: Seq<(u64, MapEntry)>, hash: ContentHash) -> Seq<(u64, MapEntry)>
    decreases list.len(),
{
    if list.len() == 0 {
        list
    } else if list.last().1.hash == hash {
        claiming(list.drop_last(), hash).push(list.last())
    } else {
        claiming(list.drop_last(), hash)
    }
}

/// The extent keyed at `k` shares blocks with `[start, end)`, or reaches
/// beyond `start` from below it.
pub open spec fn touches(m: Map<u64, MapEntry>, k: u64, start: int, end: int) -> bool {
    m.contains_key(k) && (start <= k < end || (k < start && start < k + m[k].lba_length))
}

/// The extent at `k` moves to the new claimant: it touches the range, claims
/// `hash`, and its claimant is below the new one or is the consumed input.
pub open spec fn moves_claim(
    m: Map<u64, MapEntry>,
    k: u64,
    start: int,
    end: int,
    hash: ContentHash,
    claimant: Ulid,
    consumed: Option<Ulid>,
) -> bool {
    &&& touches(m, k, start, end)
    &&& m[k].hash == hash
    &&& m[k].claimant_ulid.value < claimant.value || consumed == Some(m[k].claimant_ulid)
}

/// The map with those claims moved to `claimant`, and nothing else changed.
pub open spec fn reclaimed(
    m: Map<u64, MapEntry>,
    start: int,
    end: int,
    hash: ContentHash,
    claimant: Ulid,
    consumed: Option<Ulid>,
) -> Map<u64, MapEntry> {
    Map::new(
        |k: u64| m.contains_key(k),
        |k: u64|
            if moves_claim(m, k, start, end, hash, claimant, consumed) {
                MapEntry { claimant_ulid: claimant, ..m[k] }
            } else {
                m[k]
            },
    )
}

/// Which existing claims an insert leaves alone.
#[derive(Clone, Copy)]
pub enum Blocking<'a> {
    /// A claimant at or above ours keeps its blocks.
    SameOrHigher,
    /// A claimant above ours keeps its blocks; an equal one is the same
    /// segment's earlier entry, and a segment's entries apply in order.
    Higher,
    /// Every claimant keeps its blocks but these: an input the rewrite
    /// consumes, the rewrite itself, and a lower claimant of the same hash.
    Consuming(&'a [Ulid]),
    /// As `Consuming`, with the claimants at or below the horizon in place
    /// of the inputs.
    AboveHorizon(Ulid),
}

impl<'a> Blocking<'a> {
    /// An existing claim on `existing_hash` keeps its blocks against a claim
    /// on `hash` by `claimant`.
    pub open spec fn keeps(
        self,
        existing: Ulid,
        existing_hash: ContentHash,
        hash: ContentHash,
        claimant: Ulid,
    ) -> bool {
        let adopted = existing == claimant || (existing_hash == hash && existing.value
            < claimant.value);
        match self {
            Blocking::SameOrHigher => existing.value >= claimant.value,
            Blocking::Higher => existing.value > claimant.value,
            Blocking::Consuming(inputs) => !(inputs@.contains(existing) || adopted),
            Blocking::AboveHorizon(horizon) => !(existing.value <= horizon.value || adopted),
        }
    }

    fn blocks(
        &self,
        existing: Ulid,
        existing_hash: ContentHash,
        hash: ContentHash,
        claimant: Ulid,
    ) -> (b: bool)
        ensures
            b == self.keeps(existing, existing_hash, hash, claimant),
    {
        let adopted = existing == claimant || (existing_hash == hash && existing.value
            < claimant.value);
        match self {
            Blocking::SameOrHigher => existing.value >= claimant.value,
            Blocking::Higher => existing.value > claimant.value,
            Blocking::Consuming(inputs) => !(holds_ulid(inputs, existing) || adopted),
            Blocking::AboveHorizon(horizon) => !(existing.value <= horizon.value || adopted),
        }
    }
}

/// Whether `ulids` holds `ulid`.
pub fn holds_ulid(ulids: &[Ulid], ulid: Ulid) -> (b: bool)
    ensures
        b == ulids@.contains(ulid),
{
    let mut i: usize = 0;
    while i < ulids.len()
        invariant
            i <= ulids.len(),
            forall|j: int| 0 <= j < i ==> ulids@[j] != ulid,
        decreases ulids.len() - i,
    {
        if ulids[i] == ulid {
            return true;
        }
        i += 1;
    }
    false
}

/// Block `lba` is covered by an extent that keeps it against the claim.
pub open spec fn kept_at(
    m: Map<u64, MapEntry>,
    rule: Blocking,
    hash: ContentHash,
    claimant: Ulid,
    lba: int,
) -> bool {
    exists|k: u64| #[trigger]
        covers(m, k, lba) && rule.keeps(m[k].claimant_ulid, m[k].hash, hash, claimant)
}

/// The end of the run of free blocks that starts at `from`: the first block
/// from there on that is kept, or `end`.
pub open spec fn free_run_end(
    m: Map<u64, MapEntry>,
    rule: Blocking,
    hash: ContentHash,
    claimant: Ulid,
    from: int,
    end: int,
) -> int
    decreases end - from,
{
    if from >= end || kept_at(m, rule, hash, claimant, from) {
        from
    } else {
        free_run_end(m, rule, hash, claimant, from + 1, end)
    }
}

/// The map after the claim `[start, end)` has been written onto every run of
/// blocks from `from` on that `m` does not keep. `cur` is the map so far;
/// which blocks are kept is read off `m`, the map before any of it.
pub open spec fn installed(
    m: Map<u64, MapEntry>,
    rule: Blocking,
    hash: ContentHash,
    claimant: Ulid,
    start: int,
    end: int,
    from: int,
    cur: Map<u64, MapEntry>,
) -> Map<u64, MapEntry>
    decreases end - from,
{
    if from >= end {
        cur
    } else {
        let stop = free_run_end(m, rule, hash, claimant, from, end);
        if !(from < stop <= end) {
            installed(m, rule, hash, claimant, start, end, from + 1, cur)
        } else {
            installed(
                m,
                rule,
                hash,
                claimant,
                start,
                end,
                stop,
                overwritten(
                    cur,
                    from as u64,
                    MapEntry {
                        lba_length: (stop - from) as u32,
                        hash,
                        payload_block_offset: (from - start) as u32,
                        claimant_ulid: claimant,
                    },
                ),
            )
        }
    }
}

/// The number of blocks in `[from, end)` that `m` does not keep.
pub open spec fn free_blocks(
    m: Map<u64, MapEntry>,
    rule: Blocking,
    hash: ContentHash,
    claimant: Ulid,
    from: int,
    end: int,
) -> nat
    decreases end - from,
{
    if from >= end {
        0
    } else {
        free_blocks(m, rule, hash, claimant, from + 1, end) + (if kept_at(
            m,
            rule,
            hash,
            claimant,
            from,
        ) {
            0nat
        } else {
            1nat
        })
    }
}

/// The keys whose extents claim `hash`.
pub open spec fn claim_keys(m: Map<u64, MapEntry>, hash: ContentHash) -> Set<u64> {
    m.dom().filter(|k: u64| m[k].hash == hash)
}

/// `counts` gives every claimed hash its number of extents, and holds no
/// other hash.
pub open spec fn counts_claims(m: Map<u64, MapEntry>, counts: Map<ContentHash, u64>) -> bool {
    forall|h: ContentHash|
        {
            &&& #[trigger] counts.contains_key(h) <==> claim_keys(m, h).len() > 0
            &&& counts.contains_key(h) ==> counts[h] == claim_keys(m, h).len()
        }
}

// ---------------------------------------------------------------------------
// Lemmas on the model
// ---------------------------------------------------------------------------

proof fn lemma_claim_keys_insert(m: Map<u64, MapEntry>, k: u64, e: MapEntry, h: ContentHash)
    requires
        m.dom().finite(),
        !m.contains_key(k),
    ensures
        claim_keys(m, h).finite(),
        claim_keys(m.insert(k, e), h).len() == claim_keys(m, h).len() + (if e.hash == h {
            1int
        } else {
            0
        }),
{
    let before = claim_keys(m, h);
    let after = claim_keys(m.insert(k, e), h);
    if e.hash == h {
        assert(after =~= before.insert(k));
    } else {
        assert(after =~= before);
    }
}

proof fn lemma_claim_keys_remove(m: Map<u64, MapEntry>, k: u64, h: ContentHash)
    requires
        m.dom().finite(),
        m.contains_key(k),
    ensures
        claim_keys(m, h).finite(),
        claim_keys(m.remove(k), h).len() == claim_keys(m, h).len() - (if m[k].hash == h {
            1int
        } else {
            0
        }),
{
    let before = claim_keys(m, h);
    let after = claim_keys(m.remove(k), h);
    if m[k].hash == h {
        assert(after =~= before.remove(k));
    } else {
        assert(after =~= before);
    }
}

proof fn lemma_claim_keys_bound(m: Map<u64, MapEntry>, h: ContentHash)
    requires
        m.dom().finite(),
    ensures
        claim_keys(m, h).len() <= m.dom().len(),
{
    vstd::set_lib::lemma_len_subset(claim_keys(m, h), m.dom());
}

/// At most one extent covers a block.
pub proof fn lemma_cover_unique(m: Map<u64, MapEntry>, a: u64, b: u64, lba: int)
    requires
        extents_wf(m),
        covers(m, a, lba),
        covers(m, b, lba),
    ensures
        a == b,
{
}

/// The claim of a block is read off the extent that covers it.
pub proof fn lemma_block_claim(m: Map<u64, MapEntry>, k: u64, lba: int)
    requires
        extents_wf(m),
        covers(m, k, lba),
    ensures
        block_claim(m, lba) == Some(
            (m[k].hash, m[k].payload_block_offset + (lba - k), m[k].claimant_ulid),
        ),
{
    let c = choose|c: u64| covers(m, c, lba);
    lemma_cover_unique(m, c, k, lba);
}

/// Carving keeps the map well formed and empties the range.
proof fn lemma_carved_wf(m: Map<u64, MapEntry>, start: int, end: int)
    requires
        extents_wf(m),
        0 <= start <= end <= u64::MAX,
    ensures
        extents_wf(carved(m, start, end)),
        forall|k: u64|
            #![trigger carved(m, start, end).contains_key(k)]
            carved(m, start, end).contains_key(k) ==> k + carved(m, start, end)[k].lba_length
                <= start || end <= k,
{
    let c = carved(m, start, end);
    assert(c.dom().subset_of(m.dom().insert(end as u64)));
    vstd::set_lib::lemma_len_subset(c.dom(), m.dom().insert(end as u64));
    assert forall|k: u64| #[trigger] c.contains_key(k) implies ({
        &&& 0 < c[k].lba_length
        &&& k + c[k].lba_length <= u64::MAX
        &&& c[k].payload_block_offset + c[k].lba_length <= u32::MAX
        &&& k + c[k].lba_length <= start || end <= k
    }) by {
        if m.contains_key(k) && !(start <= k < end) {
        } else {
            let p = choose|p: u64| cut_by(m, p, end);
            assert(cut_by(m, p, end));
        }
    }
    assert forall|a: u64, b: u64|
        #![trigger c.contains_key(a), c.contains_key(b)]
        c.contains_key(a) && c.contains_key(b) && a < b implies a + c[a].lba_length <= b by {
        if exists|p: u64| cut_by(m, p, end) {
            let p = choose|p: u64| cut_by(m, p, end);
            assert(cut_by(m, p, end));
            assert(m.contains_key(a) ==> m.contains_key(a));
            assert(m.contains_key(b) ==> m.contains_key(b));
        }
    }
}

/// Overwriting gives the new claim to the blocks written and leaves every
/// other block as it was.
pub proof fn lemma_overwritten(m: Map<u64, MapEntry>, start: u64, entry: MapEntry)
    requires
        extents_wf(m),
        0 < entry.lba_length,
        start + entry.lba_length <= u64::MAX,
        entry.payload_block_offset + entry.lba_length <= u32::MAX,
    ensures
        extents_wf(overwritten(m, start, entry)),
        forall|lba: int| #[trigger]
            block_claim(overwritten(m, start, entry), lba) == (if start <= lba < start
                + entry.lba_length {
                Some((entry.hash, entry.payload_block_offset + (lba - start), entry.claimant_ulid))
            } else {
                block_claim(m, lba)
            }),
{
    let end = start + entry.lba_length;
    let c = carved(m, start as int, end);
    let w = overwritten(m, start, entry);
    lemma_carved_wf(m, start as int, end);
    assert(w.dom() =~= c.dom().insert(start));
    assert forall|a: u64, b: u64|
        #![trigger w.contains_key(a), w.contains_key(b)]
        w.contains_key(a) && w.contains_key(b) && a < b implies a + w[a].lba_length <= b by {
        assert(a != start ==> c.contains_key(a));
        assert(b != start ==> c.contains_key(b));
    }
    assert forall|k: u64| #[trigger] w.contains_key(k) implies ({
        &&& 0 < w[k].lba_length
        &&& k + w[k].lba_length <= u64::MAX
        &&& w[k].payload_block_offset + w[k].lba_length <= u32::MAX
    }) by {
        assert(k != start ==> c.contains_key(k));
    }
    assert(extents_wf(w));
    assert forall|lba: int| #[trigger]
        block_claim(w, lba) == (if start <= lba < end {
            Some((entry.hash, entry.payload_block_offset + (lba - start), entry.claimant_ulid))
        } else {
            block_claim(m, lba)
        }) by {
        if start <= lba < end {
            assert(covers(w, start, lba));
            lemma_block_claim(w, start, lba);
        } else if exists|k: u64| covers(m, k, lba) {
            let k = choose|k: u64| covers(m, k, lba);
            lemma_block_claim(m, k, lba);
            if lba < start {
                assert(c.contains_key(k));
                assert(covers(w, k, lba));
                lemma_block_claim(w, k, lba);
            } else if end <= k {
                assert(c.contains_key(k));
                assert(covers(w, k, lba));
                lemma_block_claim(w, k, lba);
            } else {
                assert(cut_by(m, k, end)) by {
                    assert(k < end);
                }
                let p = choose|p: u64| cut_by(m, p, end);
                assert(cut_by(m, p, end));
                lemma_cover_unique(m, k, p, end as int);
                let e = end as u64;
                assert(c.contains_key(e));
                assert(!m.contains_key(e));
                assert(c[e] == tail_of(k, m[k], end));
                assert(covers(w, e, lba));
                lemma_block_claim(w, e, lba);
            }
        } else {
            if exists|k: u64| covers(w, k, lba) {
                let k = choose|k: u64| covers(w, k, lba);
                assert(c.contains_key(k));
                if m.contains_key(k) && !(start <= k < end) {
                    assert(covers(m, k, lba));
                } else {
                    let p = choose|p: u64| cut_by(m, p, end);
                    assert(cut_by(m, p, end));
                    assert(covers(m, p, lba));
                }
            }
        }
    }
}

/// Moving claims keeps the map well formed and every block's content.
pub proof fn lemma_reclaimed(
    m: Map<u64, MapEntry>,
    start: int,
    end: int,
    hash: ContentHash,
    claimant: Ulid,
    consumed: Option<Ulid>,
)
    requires
        extents_wf(m),
    ensures
        extents_wf(reclaimed(m, start, end, hash, claimant, consumed)),
        forall|lba: int|
            #![trigger block_claim(reclaimed(m, start, end, hash, claimant, consumed), lba)]
            {
                let after = block_claim(
                    reclaimed(m, start, end, hash, claimant, consumed),
                    lba,
                );
                &&& after is Some == block_claim(m, lba) is Some
                &&& block_claim(m, lba) matches Some((h, b, _)) ==> (after->0).0 == h && (after->0).1
                    == b
            },
{
    let r = reclaimed(m, start, end, hash, claimant, consumed);
    assert(r.dom() =~= m.dom());
    assert(extents_wf(r));
    assert forall|lba: int| #![trigger block_claim(r, lba)] {
        let after = block_claim(r, lba);
        &&& after is Some == block_claim(m, lba) is Some
        &&& block_claim(m, lba) matches Some((h, b, _)) ==> (after->0).0 == h && (after->0).1 == b
    } by {
        if exists|k: u64| covers(m, k, lba) {
            let k = choose|k: u64| covers(m, k, lba);
            assert(covers(r, k, lba));
            lemma_block_claim(m, k, lba);
            lemma_block_claim(r, k, lba);
        } else if exists|k: u64| covers(r, k, lba) {
            let k = choose|k: u64| covers(r, k, lba);
            assert(covers(m, k, lba));
        }
    }
}

proof fn lemma_free_run_end(
    m: Map<u64, MapEntry>,
    rule: Blocking,
    hash: ContentHash,
    claimant: Ulid,
    from: int,
    stop: int,
    end: int,
)
    requires
        from <= stop <= end,
        forall|x: int| from <= x < stop ==> !#[trigger] kept_at(m, rule, hash, claimant, x),
        stop == end || kept_at(m, rule, hash, claimant, stop),
    ensures
        free_run_end(m, rule, hash, claimant, from, end) == stop,
        free_blocks(m, rule, hash, claimant, from, end) == (stop - from) + free_blocks(
            m,
            rule,
            hash,
            claimant,
            stop,
            end,
        ),
    decreases stop - from,
{
    if from < stop {
        assert(!kept_at(m, rule, hash, claimant, from));
        lemma_free_run_end(m, rule, hash, claimant, from + 1, stop, end);
    }
}

proof fn lemma_installed_skip(
    m: Map<u64, MapEntry>,
    rule: Blocking,
    hash: ContentHash,
    claimant: Ulid,
    start: int,
    end: int,
    from: int,
    to: int,
    cur: Map<u64, MapEntry>,
)
    requires
        from <= to <= end,
        forall|x: int| from <= x < to ==> #[trigger] kept_at(m, rule, hash, claimant, x),
    ensures
        installed(m, rule, hash, claimant, start, end, from, cur) == installed(
            m,
            rule,
            hash,
            claimant,
            start,
            end,
            to,
            cur,
        ),
        free_blocks(m, rule, hash, claimant, from, end) == free_blocks(
            m,
            rule,
            hash,
            claimant,
            to,
            end,
        ),
    decreases to - from,
{
    if from < to {
        assert(kept_at(m, rule, hash, claimant, from));
        lemma_installed_skip(m, rule, hash, claimant, start, end, from + 1, to, cur);
    }
}

/// A block is kept exactly where the claim it holds says so.
pub proof fn lemma_kept_at(
    m: Map<u64, MapEntry>,
    rule: Blocking,
    hash: ContentHash,
    claimant: Ulid,
    lba: int,
)
    requires
        extents_wf(m),
    ensures
        kept_at(m, rule, hash, claimant, lba) <==> (block_claim(m, lba) matches Some((h, _, c))
            && rule.keeps(c, h, hash, claimant)),
{
    if exists|k: u64| covers(m, k, lba) {
        let k = choose|k: u64| covers(m, k, lba);
        lemma_block_claim(m, k, lba);
        if kept_at(m, rule, hash, claimant, lba) {
            let j = choose|j: u64| #[trigger]
                covers(m, j, lba) && rule.keeps(m[j].claimant_ulid, m[j].hash, hash, claimant);
            lemma_cover_unique(m, j, k, lba);
        }
    }
}

/// Installing a claim gives it the free blocks of its range and leaves every
/// other block as it was.
pub proof fn lemma_installed(
    m: Map<u64, MapEntry>,
    rule: Blocking,
    hash: ContentHash,
    claimant: Ulid,
    start: int,
    end: int,
    from: int,
    cur: Map<u64, MapEntry>,
)
    requires
        extents_wf(cur),
        0 <= start <= from,
        end <= u64::MAX,
        end - start <= u32::MAX,
    ensures
        extents_wf(installed(m, rule, hash, claimant, start, end, from, cur)),
        forall|lba: int| #[trigger]
            block_claim(installed(m, rule, hash, claimant, start, end, from, cur), lba) == (
            if from <= lba < end && !kept_at(m, rule, hash, claimant, lba) {
                Some((hash, lba - start, claimant))
            } else {
                block_claim(cur, lba)
            }),
    decreases end - from,
{
    if from < end {
        let stop = free_run_end(m, rule, hash, claimant, from, end);
        lemma_free_run_is_free(m, rule, hash, claimant, from, end);
        if from < stop <= end {
            let entry = MapEntry {
                lba_length: (stop - from) as u32,
                hash,
                payload_block_offset: (from - start) as u32,
                claimant_ulid: claimant,
            };
            lemma_overwritten(cur, from as u64, entry);
            let next = overwritten(cur, from as u64, entry);
            lemma_installed(m, rule, hash, claimant, start, end, stop, next);
        } else {
            lemma_installed(m, rule, hash, claimant, start, end, from + 1, cur);
        }
    }
}

proof fn lemma_free_run_is_free(
    m: Map<u64, MapEntry>,
    rule: Blocking,
    hash: ContentHash,
    claimant: Ulid,
    from: int,
    end: int,
)
    requires
        from <= end,
    ensures
        from <= free_run_end(m, rule, hash, claimant, from, end) <= end,
        forall|x: int|
            from <= x < free_run_end(m, rule, hash, claimant, from, end) ==> !#[trigger] kept_at(
                m,
                rule,
                hash,
                claimant,
                x,
            ),
        free_run_end(m, rule, hash, claimant, from, end) == from && from < end ==> kept_at(
            m,
            rule,
            hash,
            claimant,
            from,
        ),
    decreases end - from,
{
    if from < end && !kept_at(m, rule, hash, claimant, from) {
        lemma_free_run_is_free(m, rule, hash, claimant, from + 1, end);
    }
}

/// `entries_between` lists exactly the entries keyed in the range, ascending.
pub proof fn lemma_entries_between(m: Map<u64, MapEntry>, a: int, b: int)
    requires
        0 <= a,
        b <= u64::MAX,
    ensures
        forall|i: int|
            #![trigger entries_between(m, a, b)[i]]
            0 <= i < entries_between(m, a, b).len() ==> {
                &&& a <= entries_between(m, a, b)[i].0 < b
                &&& m.contains_key(entries_between(m, a, b)[i].0)
                &&& m[entries_between(m, a, b)[i].0] == entries_between(m, a, b)[i].1
            },
        forall|i: int, j: int|
            #![trigger entries_between(m, a, b)[i], entries_between(m, a, b)[j]]
            0 <= i < j < entries_between(m, a, b).len() ==> entries_between(m, a, b)[i].0
                < entries_between(m, a, b)[j].0,
        forall|k: u64|
            a <= k < b && #[trigger] m.contains_key(k) ==> exists|i: int|
                0 <= i < entries_between(m, a, b).len() && #[trigger] entries_between(
                    m,
                    a,
                    b,
                )[i].0 == k,
    decreases b - a,
{
    if a < b {
        lemma_entries_between(m, a + 1, b);
        let rest = entries_between(m, a + 1, b);
        let all = entries_between(m, a, b);
        let shift: int = if m.contains_key(a as u64) {
            1
        } else {
            0
        };
        assert(all.len() == rest.len() + shift);
        assert(forall|i: int| 0 <= i < rest.len() ==> all[i + shift] == #[trigger] rest[i]);
        assert forall|i: int| shift <= i < all.len() implies #[trigger] all[i] == rest[i
            - shift] by {}
        assert forall|k: u64| a <= k < b && #[trigger] m.contains_key(k) implies exists|i: int|
            0 <= i < all.len() && #[trigger] all[i].0 == k by {
            if k == a {
                assert(all[0].0 == k);
            } else {
                let i = choose|i: int| 0 <= i < rest.len() && #[trigger] rest[i].0 == k;
                assert(all[i + shift].0 == k);
            }
        }
    }
}

/// Reads lie inside the range, ascend, and do not overlap.
pub proof fn lemma_reads_ascend(m: Map<u64, MapEntry>, start: int, end: int)
    requires
        extents_wf(m),
        0 <= start <= end <= u64::MAX,
    ensures
        forall|i: int|
            #![trigger reads_in(m, start, end)[i]]
            0 <= i < reads_in(m, start, end).len() ==> start <= reads_in(m, start, end)[i].range_start
                <= reads_in(m, start, end)[i].range_end <= end,
        forall|i: int, j: int|
            #![trigger reads_in(m, start, end)[i], reads_in(m, start, end)[j]]
            0 <= i < j < reads_in(m, start, end).len() ==> reads_in(m, start, end)[i].range_end
                <= reads_in(m, start, end)[j].range_start,
{
    lemma_entries_between(m, start, end);
    let inside = entries_between(m, start, end);
    let rest = Seq::new(inside.len(), |i: int| read_of(inside[i].0, inside[i].1, start, end));
    let all = reads_in(m, start, end);
    assert forall|i: int| #![trigger rest[i]] 0 <= i < rest.len() implies start
        <= rest[i].range_start <= rest[i].range_end <= end by {
        assert(m.contains_key(inside[i].0));
    }
    assert forall|i: int, j: int| #![trigger rest[i], rest[j]] 0 <= i < j < rest.len() implies
        rest[i].range_end <= rest[j].range_start by {
        assert(inside[i].0 < inside[j].0);
        assert(m.contains_key(inside[i].0) && m.contains_key(inside[j].0));
    }
    if exists|c: u64| cut_by(m, c, start) {
        let c = choose|c: u64| cut_by(m, c, start);
        assert(cut_by(m, c, start));
        let lead = read_of(c, m[c], start, end);
        assert(all =~= seq![lead] + rest);
        assert forall|i: int| 1 <= i < all.len() implies #[trigger] all[i] == rest[i - 1] by {}
        assert forall|j: int| 0 <= j < rest.len() implies lead.range_end
            <= #[trigger] rest[j].range_start by {
            assert(m.contains_key(c) && m.contains_key(inside[j].0));
        }
    } else {
        assert(all =~= rest);
    }
}

// ---------------------------------------------------------------------------
// The map
// ---------------------------------------------------------------------------

/// The live block map.
pub struct LbaMap {
    inner: ExtentTree,
    claim_counts: ClaimTable,
}

impl LbaMap {
    /// The extents, keyed by first block.
    pub closed spec fn entries(&self) -> Map<u64, MapEntry> {
        self.inner@
    }

    /// The number of extents per claimed hash, as maintained.
    pub closed spec fn counts(&self) -> Map<ContentHash, u64> {
        self.claim_counts@
    }

    /// The extents are well formed and the claim counts match them.
    pub open spec fn wf(&self) -> bool {
        &&& extents_wf(self.entries())
        &&& counts_claims(self.entries(), self.counts())
    }

    /// What the map holds at `lba`.
    pub open spec fn at(&self, lba: int) -> Option<(ContentHash, int, Ulid)> {
        block_claim(self.entries(), lba)
    }

    /// `after` is this map once the claim has been written onto every block
    /// that `rule` does not keep; `taken` is the number of those blocks.
    pub open spec fn admits(
        &self,
        after: LbaMap,
        rule: Blocking,
        start_lba: u64,
        lba_length: u32,
        hash: ContentHash,
        claimant: Ulid,
        taken: u32,
    ) -> bool {
        let m = self.entries();
        let start = start_lba as int;
        let end = start_lba + lba_length;
        &&& after.wf()
        &&& after.entries() == installed(m, rule, hash, claimant, start, end, start, m)
        &&& taken == free_blocks(m, rule, hash, claimant, start, end)
        &&& forall|lba: int| #[trigger]
            after.at(lba) == (if start <= lba < end && !kept_at(m, rule, hash, claimant, lba) {
                Some((hash, lba - start, claimant))
            } else {
                self.at(lba)
            })
    }

    /// `after` is this map once `entry` has been registered by `rule`.
    pub open spec fn registers(
        &self,
        after: LbaMap,
        entry: SegmentEntry,
        rule: Blocking,
        claimant: Ulid,
        taken: u32,
    ) -> bool {
        if entry.kind.canonical_only() {
            after == *self && taken == 0
        } else {
            self.admits(
                after,
                rule,
                entry.start_lba,
                entry.lba_length,
                entry.hash,
                claimant,
                taken,
            )
        }
    }

    /// `after` is this map with the matching claims of the range moved to
    /// `claimant`, `moved` in number, and every block reading as before.
    pub open spec fn moves(
        &self,
        after: LbaMap,
        start_lba: u64,
        lba_length: u32,
        hash: ContentHash,
        claimant: Ulid,
        consumed: Option<Ulid>,
        moved: u32,
    ) -> bool {
        let m = self.entries();
        let start = start_lba as int;
        let end = start_lba + lba_length;
        &&& after.wf()
        &&& after.entries() == reclaimed(m, start, end, hash, claimant, consumed)
        &&& moved == m.dom().filter(
            |k: u64| moves_claim(m, k, start, end, hash, claimant, consumed),
        ).len()
        &&& forall|lba: int| #[trigger]
            after.at(lba) is Some == self.at(lba) is Some && (self.at(lba) matches Some((h, b, _))
                ==> (after.at(lba)->0).0 == h && (after.at(lba)->0).1 == b)
    }

    /// An empty map.
    pub fn new() -> (map: Self)
        ensures
            map.wf(),
            map.entries() == Map::<u64, MapEntry>::empty(),
            map.counts() == Map::<ContentHash, u64>::empty(),
    {
        let map = LbaMap { inner: extents_new(), claim_counts: claims_new() };
        proof {
            assert forall|h: ContentHash| claim_keys(map.entries(), h).len() == 0 by {
                assert(claim_keys(map.entries(), h) =~= Set::<u64>::empty());
            }
        }
        map
    }

    /// Remove the extent keyed at `key` and drop its claim.
    fn remove_entry(&mut self, key: u64) -> (removed: Option<MapEntry>)
        requires
            old(self).entries().dom().finite(),
            counts_claims(old(self).entries(), old(self).counts()),
        ensures
            final(self).entries() == old(self).entries().remove(key),
            final(self).entries().dom().finite(),
            counts_claims(final(self).entries(), final(self).counts()),
            removed == (if old(self).entries().contains_key(key) {
                Some(old(self).entries()[key])
            } else {
                None
            }),
    {
        let ghost before = self.entries();
        let removed = extents_remove(&mut self.inner, key);
        match removed {
            Some(entry) => {
                proof {
                    lemma_claim_keys_remove(before, key, entry.hash);
                    assert(claim_keys(before, entry.hash).contains(key));
                    assert(claim_keys(before, entry.hash).len() > 0);
                    assert(self.counts().contains_key(entry.hash));
                }
                let count = claims_get(&self.claim_counts, entry.hash);
                if let Some(c) = count {
                    if c == 1 {
                        claims_remove(&mut self.claim_counts, entry.hash);
                    } else {
                        claims_insert(&mut self.claim_counts, entry.hash, c - 1);
                    }
                }
                proof {
                    assert forall|h: ContentHash|
                        {
                            &&& #[trigger] self.counts().contains_key(h) <==> claim_keys(
                                self.entries(),
                                h,
                            ).len() > 0
                            &&& self.counts().contains_key(h) ==> self.counts()[h]
                                == claim_keys(self.entries(), h).len()
                        } by {
                        lemma_claim_keys_remove(before, key, h);
                    }
                }
            },
            None => {
                assert(before.remove(key) =~= before);
            },
        }
        removed
    }

    /// Add `entry` at a key the map does not hold, and count its claim.
    fn add_entry(&mut self, key: u64, entry: MapEntry)
        requires
            old(self).entries().dom().finite(),
            counts_claims(old(self).entries(), old(self).counts()),
            !old(self).entries().contains_key(key),
        ensures
            final(self).entries() == old(self).entries().insert(key, entry),
            final(self).entries().dom().finite(),
            counts_claims(final(self).entries(), final(self).counts()),
    {
        let ghost before = self.entries();
        extents_insert(&mut self.inner, key, entry);
        let len: usize = extents_len(&self.inner);
        proof {
            lemma_claim_keys_bound(self.entries(), entry.hash);
            lemma_claim_keys_insert(before, key, entry, entry.hash);
            assert(self.counts().contains_key(entry.hash) <==> claim_keys(before, entry.hash).len()
                > 0);
        }
        let count: u64 = match claims_get(&self.claim_counts, entry.hash) {
            Some(c) => c,
            None => 0,
        };
        claims_insert(&mut self.claim_counts, entry.hash, count + 1);
        proof {
            assert forall|h: ContentHash|
                {
                    &&& #[trigger] self.counts().contains_key(h) <==> claim_keys(
                        self.entries(),
                        h,
                    ).len() > 0
                    &&& self.counts().contains_key(h) ==> self.counts()[h] == claim_keys(
                        self.entries(),
                        h,
                    ).len()
                } by {
                lemma_claim_keys_insert(before, key, entry, h);
            }
        }
    }

    /// Empty `[start, end)`, trimming the extents that reach into it.
    fn carve(&mut self, start: u64, end: u64)
        requires
            old(self).wf(),
            start <= end,
        ensures
            final(self).wf(),
            final(self).entries() == carved(old(self).entries(), start as int, end as int),
    {
        let ghost m = self.entries();
        // An extent that starts below the range and reaches into it keeps its
        // head, and its tail too where it spans the whole range.
        if start > 0 {
            if let Some((below, pred)) = extents_at_or_below(&self.inner, start - 1) {
                let pred_end: u64 = below + pred.lba_length as u64;
                if pred_end > start {
                    proof {
                        assert(m.contains_key(below));
                        assert(m[below] == pred);
                    }
                    let _ = self.remove_entry(below);
                    self.add_entry(
                        below,
                        MapEntry {
                            lba_length: (start - below) as u32,
                            hash: pred.hash,
                            payload_block_offset: pred.payload_block_offset,
                            claimant_ulid: pred.claimant_ulid,
                        },
                    );
                    if pred_end > end {
                        proof {
                            assert(cut_by(m, below, end as int));
                        }
                        self.add_entry(
                            end,
                            MapEntry {
                                lba_length: (pred_end - end) as u32,
                                hash: pred.hash,
                                payload_block_offset: pred.payload_block_offset + (end
                                    - below) as u32,
                                claimant_ulid: pred.claimant_ulid,
                            },
                        );
                    }
                }
            }
        }
        let ghost m1 = self.entries();
        let inside = extents_range(&self.inner, start, end);
        proof {
            lemma_entries_between(m1, start as int, end as int);
        }
        let mut i: usize = 0;
        while i < inside.len()
            invariant
                start <= end,
                i <= inside.len(),
                inside@ == entries_between(m1, start as int, end as int),
                self.entries().dom().finite(),
                counts_claims(self.entries(), self.counts()),
                forall|k: u64| #[trigger]
                    self.entries().contains_key(k) <==> m1.contains_key(k) && !(exists|j: int|
                        0 <= j < i && #[trigger] inside@[j].0 == k),
                forall|k: u64| #[trigger]
                    self.entries().contains_key(k) ==> self.entries()[k] == m1[k],
            decreases inside.len() - i,
        {
            let _ = self.remove_entry(inside[i].0);
            i += 1;
        }
        proof {
            assert forall|k: u64| #[trigger] self.entries().contains_key(k) <==> m1.contains_key(k)
                && !(start <= k < end) by {}
        }
        // Only the last of them can reach past the range; it keeps its tail.
        if inside.len() > 0 {
            let (key, e) = inside[inside.len() - 1];
            proof {
                assert(inside@[inside@.len() - 1].0 == key);
                assert(m1.contains_key(key));
                assert(m.contains_key(key) && m[key] == e);
            }
            let entry_end: u64 = key + e.lba_length as u64;
            if entry_end > end {
                proof {
                    assert(cut_by(m, key, end as int));
                }
                self.add_entry(
                    end,
                    MapEntry {
                        lba_length: (entry_end - end) as u32,
                        hash: e.hash,
                        payload_block_offset: e.payload_block_offset + (end - key) as u32,
                        claimant_ulid: e.claimant_ulid,
                    },
                );
            }
        }
        proof {
            let c = carved(m, start as int, end as int);
            lemma_carved_wf(m, start as int, end as int);
            assert(self.entries() =~= c);
        }
    }

    /// Write the extent `[start_lba, start_lba + lba_length)` from
    /// `payload_block_offset` blocks into the payload of `hash`, over
    /// whatever the map holds there.
    pub fn insert_with_offset(
        &mut self,
        start_lba: u64,
        lba_length: u32,
        payload_block_offset: u32,
        hash: ContentHash,
        claimant: Ulid,
    )
        requires
            old(self).wf(),
            0 < lba_length,
            start_lba + lba_length <= u64::MAX,
            payload_block_offset + lba_length <= u32::MAX,
        ensures
            final(self).wf(),
            final(self).entries() == overwritten(
                old(self).entries(),
                start_lba,
                (MapEntry { lba_length, hash, payload_block_offset, claimant_ulid: claimant }),
            ),
            forall|lba: int| #[trigger]
                final(self).at(lba) == (if start_lba <= lba < start_lba + lba_length {
                    Some((hash, payload_block_offset + (lba - start_lba), claimant))
                } else {
                    old(self).at(lba)
                }),
    {
        let ghost m = self.entries();
        let entry = MapEntry { lba_length, hash, payload_block_offset, claimant_ulid: claimant };
        let end: u64 = start_lba + lba_length as u64;
        self.carve(start_lba, end);
        proof {
            lemma_carved_wf(m, start_lba as int, end as int);
            lemma_overwritten(m, start_lba, entry);
        }
        self.add_entry(start_lba, entry);
    }

    /// Write the extent `[start_lba, start_lba + lba_length)` of `hash`, over
    /// whatever the map holds there.
    pub fn insert(&mut self, start_lba: u64, lba_length: u32, hash: ContentHash, claimant: Ulid)
        requires
            old(self).wf(),
            0 < lba_length,
            start_lba + lba_length <= u64::MAX,
        ensures
            final(self).wf(),
            final(self).entries() == overwritten(
                old(self).entries(),
                start_lba,
                (MapEntry { lba_length, hash, payload_block_offset: 0, claimant_ulid: claimant }),
            ),
            forall|lba: int| #[trigger]
                final(self).at(lba) == (if start_lba <= lba < start_lba + lba_length {
                    Some((hash, lba - start_lba, claimant))
                } else {
                    old(self).at(lba)
                }),
    {
        self.insert_with_offset(start_lba, lba_length, 0, hash, claimant);
    }

    /// Write the extent onto the blocks no existing claim keeps, and return
    /// how many those are.
    fn insert_inner_if_newer(
        &mut self,
        start_lba: u64,
        lba_length: u32,
        hash: ContentHash,
        claimant: Ulid,
        blocking: Blocking<'_>,
    ) -> (taken: u32)
        requires
            old(self).wf(),
            start_lba + lba_length <= u64::MAX,
        ensures
            final(self).wf(),
            final(self).entries() == installed(
                old(self).entries(),
                blocking,
                hash,
                claimant,
                start_lba as int,
                start_lba + lba_length,
                start_lba as int,
                old(self).entries(),
            ),
            forall|lba: int| #[trigger]
                final(self).at(lba) == (if start_lba <= lba < start_lba + lba_length && !kept_at(
                    old(self).entries(),
                    blocking,
                    hash,
                    claimant,
                    lba,
                ) {
                    Some((hash, lba - start_lba, claimant))
                } else {
                    old(self).at(lba)
                }),
            taken == free_blocks(
                old(self).entries(),
                blocking,
                hash,
                claimant,
                start_lba as int,
                start_lba + lba_length,
            ),
    {
        let ghost m = self.entries();
        let new_end: u64 = start_lba + lba_length as u64;
        if lba_length == 0 {
            return 0;
        }
        // The blocks existing claims keep, as ascending ranges.
        let mut blocked: Vec<(u64, u64)> = Vec::new();
        if start_lba > 0 {
            if let Some((below, pred)) = extents_at_or_below(&self.inner, start_lba - 1) {
                let pred_end: u64 = below + pred.lba_length as u64;
                if pred_end > start_lba && blocking.blocks(
                    pred.claimant_ulid,
                    pred.hash,
                    hash,
                    claimant,
                ) {
                    let stop: u64 = if pred_end < new_end {
                        pred_end
                    } else {
                        new_end
                    };
                    blocked.push((start_lba, stop));
                }
            }
        }
        proof {
            assert forall|j: int, x: int|
                #![trigger blocked@[j], kept_at(m, blocking, hash, claimant, x)]
                0 <= j < blocked@.len() && blocked@[j].0 <= x < blocked@[j].1 implies kept_at(
                m,
                blocking,
                hash,
                claimant,
                x,
            ) by {
                let below = choose|k: u64| #[trigger] m.contains_key(k) && cut_by(m, k, start_lba as int);
                assert(covers(m, below, x));
            }
            assert forall|x: int, k: u64|
                #![trigger covers(m, k, x)]
                start_lba <= x < new_end && covers(m, k, x) && blocking.keeps(
                    m[k].claimant_ulid,
                    m[k].hash,
                    hash,
                    claimant,
                ) && k < start_lba implies exists|j: int|
                0 <= j < blocked@.len() && #[trigger] blocked@[j].0 <= x < blocked@[j].1 by {
                assert(m.contains_key(k));
                assert(blocked@[0].0 <= x < blocked@[0].1);
            }
        }
        let inside = extents_range(&self.inner, start_lba, new_end);
        proof {
            lemma_entries_between(m, start_lba as int, new_end as int);
        }
        let mut i: usize = 0;
        while i < inside.len()
            invariant
                self.entries() == m,
                extents_wf(m),
                start_lba <= new_end,
                i <= inside.len(),
                inside@ == entries_between(m, start_lba as int, new_end as int),
                forall|j: int|
                    #![trigger inside@[j]]
                    0 <= j < inside@.len() ==> {
                        &&& start_lba <= inside@[j].0 < new_end
                        &&& m.contains_key(inside@[j].0)
                        &&& m[inside@[j].0] == inside@[j].1
                    },
                forall|a: int, b: int|
                    #![trigger inside@[a], inside@[b]]
                    0 <= a < b < inside@.len() ==> inside@[a].0 < inside@[b].0,
                // The ranges lie inside the new one, ascend, and are kept.
                forall|j: int|
                    #![trigger blocked@[j]]
                    0 <= j < blocked@.len() ==> start_lba <= blocked@[j].0 < blocked@[j].1
                        <= new_end,
                forall|a: int, b: int|
                    #![trigger blocked@[a], blocked@[b]]
                    0 <= a < b < blocked@.len() ==> blocked@[a].1 <= blocked@[b].0,
                forall|j: int, x: int|
                    #![trigger blocked@[j], kept_at(m, blocking, hash, claimant, x)]
                    0 <= j < blocked@.len() && blocked@[j].0 <= x < blocked@[j].1 ==> kept_at(
                        m,
                        blocking,
                        hash,
                        claimant,
                        x,
                    ),
                // They end at or below the next extent inside.
                forall|j: int, n: int|
                    #![trigger blocked@[j], inside@[n]]
                    0 <= j < blocked@.len() && i <= n < inside@.len() ==> blocked@[j].1
                        <= inside@[n].0,
                // Every kept block below the next extent is in one of them.
                forall|x: int, k: u64|
                    #![trigger covers(m, k, x)]
                    start_lba <= x < new_end && covers(m, k, x) && blocking.keeps(
                        m[k].claimant_ulid,
                        m[k].hash,
                        hash,
                        claimant,
                    ) && (k < start_lba || exists|j: int|
                        0 <= j < i && #[trigger] inside@[j].0 == k) ==> exists|j: int|
                        0 <= j < blocked@.len() && #[trigger] blocked@[j].0 <= x < blocked@[j].1,
            decreases inside.len() - i,
        {
            let (k, e) = inside[i];
            assert(m.contains_key(k) && m[k] == e);
            let ghost before = blocked@;
            if blocking.blocks(e.claimant_ulid, e.hash, hash, claimant) {
                let k_end: u64 = k + e.lba_length as u64;
                let stop: u64 = if k_end < new_end {
                    k_end
                } else {
                    new_end
                };
                blocked.push((k, stop));
                proof {
                    assert forall|x: int| k <= x < stop implies kept_at(
                        m,
                        blocking,
                        hash,
                        claimant,
                        x,
                    ) by {
                        assert(covers(m, k, x));
                    }
                    assert(blocked@[before.len() as int] == (k, stop));
                    assert(forall|j: int| 0 <= j < before.len() ==> blocked@[j] == before[j]);
                }
            }
            proof {
                assert forall|x: int, kk: u64|
                    #![trigger covers(m, kk, x)]
                    start_lba <= x < new_end && covers(m, kk, x) && blocking.keeps(
                        m[kk].claimant_ulid,
                        m[kk].hash,
                        hash,
                        claimant,
                    ) && (kk < start_lba || exists|j: int|
                        0 <= j < i + 1 && #[trigger] inside@[j].0 == kk) implies exists|j: int|
                    0 <= j < blocked@.len() && #[trigger] blocked@[j].0 <= x < blocked@[j].1 by {
                    if kk == k {
                        assert(blocked@[before.len() as int].0 <= x
                            < blocked@[before.len() as int].1);
                    } else {
                        assert(kk < start_lba || exists|j: int|
                            0 <= j < i && #[trigger] inside@[j].0 == kk);
                        let j = choose|j: int|
                            0 <= j < before.len() && #[trigger] before[j].0 <= x < before[j].1;
                        assert(blocked@[j] == before[j]);
                    }
                }
            }
            i += 1;
        }
        proof {
            assert forall|x: int|
                start_lba <= x < new_end && #[trigger] kept_at(
                    m,
                    blocking,
                    hash,
                    claimant,
                    x,
                ) implies exists|j: int|
                0 <= j < blocked@.len() && #[trigger] blocked@[j].0 <= x < blocked@[j].1 by {
                let k = choose|k: u64| #[trigger]
                    covers(m, k, x) && blocking.keeps(
                        m[k].claimant_ulid,
                        m[k].hash,
                        hash,
                        claimant,
                    );
                assert(covers(m, k, x));
            }
        }

        // Write onto each gap between them. The payload is anchored at
        // `start_lba`, so a gap reads from its distance to there.
        let mut taken: u32 = 0;
        let mut cursor: u64 = start_lba;
        let mut n: usize = 0;
        while n < blocked.len()
            invariant
                extents_wf(m),
                self.wf(),
                start_lba <= cursor <= new_end,
                new_end == start_lba + lba_length,
                n <= blocked.len(),
                taken <= cursor - start_lba,
                forall|j: int|
                    #![trigger blocked@[j]]
                    0 <= j < blocked@.len() ==> start_lba <= blocked@[j].0 < blocked@[j].1
                        <= new_end,
                forall|a: int, b: int|
                    #![trigger blocked@[a], blocked@[b]]
                    0 <= a < b < blocked@.len() ==> blocked@[a].1 <= blocked@[b].0,
                forall|j: int, x: int|
                    #![trigger blocked@[j], kept_at(m, blocking, hash, claimant, x)]
                    0 <= j < blocked@.len() && blocked@[j].0 <= x < blocked@[j].1 ==> kept_at(
                        m,
                        blocking,
                        hash,
                        claimant,
                        x,
                    ),
                forall|x: int|
                    start_lba <= x < new_end && #[trigger] kept_at(
                        m,
                        blocking,
                        hash,
                        claimant,
                        x,
                    ) ==> exists|j: int|
                        0 <= j < blocked@.len() && #[trigger] blocked@[j].0 <= x < blocked@[j].1,
                forall|j: int| 0 <= j < n ==> #[trigger] blocked@[j].1 <= cursor,
                n < blocked.len() ==> cursor <= blocked@[n as int].0,
                installed(
                    m,
                    blocking,
                    hash,
                    claimant,
                    start_lba as int,
                    new_end as int,
                    start_lba as int,
                    m,
                ) == installed(
                    m,
                    blocking,
                    hash,
                    claimant,
                    start_lba as int,
                    new_end as int,
                    cursor as int,
                    self.entries(),
                ),
                taken + free_blocks(
                    m,
                    blocking,
                    hash,
                    claimant,
                    cursor as int,
                    new_end as int,
                ) == free_blocks(
                    m,
                    blocking,
                    hash,
                    claimant,
                    start_lba as int,
                    new_end as int,
                ),
                forall|lba: int| #[trigger]
                    self.at(lba) == (if start_lba <= lba < cursor && !kept_at(
                        m,
                        blocking,
                        hash,
                        claimant,
                        lba,
                    ) {
                        Some((hash, lba - start_lba, claimant))
                    } else {
                        block_claim(m, lba)
                    }),
            decreases blocked.len() - n,
        {
            let (b_start, b_end) = blocked[n];
            proof {
                assert(blocked@[n as int] == (b_start, b_end));
                assert forall|x: int| cursor <= x < b_start implies !#[trigger] kept_at(
                    m,
                    blocking,
                    hash,
                    claimant,
                    x,
                ) by {
                    if kept_at(m, blocking, hash, claimant, x) {
                        let j = choose|j: int|
                            0 <= j < blocked@.len() && #[trigger] blocked@[j].0 <= x
                                < blocked@[j].1;
                        assert(j >= n);
                        assert(blocked@[n as int].0 <= blocked@[j].0);
                    }
                }
            }
            if b_start < b_end {
                proof {
                    assert(kept_at(m, blocking, hash, claimant, b_start as int));
                    lemma_free_run_end(
                        m,
                        blocking,
                        hash,
                        claimant,
                        cursor as int,
                        b_start as int,
                        new_end as int,
                    );
                }
                if cursor < b_start {
                    let gap_len: u32 = (b_start - cursor) as u32;
                    let offset: u32 = (cursor - start_lba) as u32;
                    self.insert_with_offset(cursor, gap_len, offset, hash, claimant);
                    taken = taken + gap_len;
                }
                proof {
                    lemma_installed_skip(
                        m,
                        blocking,
                        hash,
                        claimant,
                        start_lba as int,
                        new_end as int,
                        b_start as int,
                        b_end as int,
                        self.entries(),
                    );
                }
                cursor = b_end;
            }
            n += 1;
        }
        if cursor < new_end {
            proof {
                assert forall|x: int| cursor <= x < new_end implies !#[trigger] kept_at(
                    m,
                    blocking,
                    hash,
                    claimant,
                    x,
                ) by {
                    if kept_at(m, blocking, hash, claimant, x) {
                        let j = choose|j: int|
                            0 <= j < blocked@.len() && #[trigger] blocked@[j].0 <= x
                                < blocked@[j].1;
                        assert(blocked@[j].1 <= cursor);
                    }
                }
                lemma_free_run_end(
                    m,
                    blocking,
                    hash,
                    claimant,
                    cursor as int,
                    new_end as int,
                    new_end as int,
                );
            }
            let gap_len: u32 = (new_end - cursor) as u32;
            let offset: u32 = (cursor - start_lba) as u32;
            let ghost before = self.entries();
            self.insert_with_offset(cursor, gap_len, offset, hash, claimant);
            taken = taken + gap_len;
            proof {
                reveal_with_fuel(installed, 2);
                assert(installed(
                    m,
                    blocking,
                    hash,
                    claimant,
                    start_lba as int,
                    new_end as int,
                    cursor as int,
                    before,
                ) == self.entries());
            }
        }
        taken
    }

    /// Write the extent onto the blocks whose claimant is below `claimant`,
    /// and return how many those are.
    pub fn insert_if_newer(
        &mut self,
        start_lba: u64,
        lba_length: u32,
        hash: ContentHash,
        claimant: Ulid,
    ) -> (taken: u32)
        requires
            old(self).wf(),
            start_lba + lba_length <= u64::MAX,
        ensures
            old(self).admits(
                *final(self),
                Blocking::SameOrHigher,
                start_lba,
                lba_length,
                hash,
                claimant,
                taken,
            ),
    {
        self.insert_inner_if_newer(
            start_lba,
            lba_length,
            hash,
            claimant,
            Blocking::SameOrHigher,
        )
    }

    /// Write the extent onto the blocks claimed by one of the inputs a
    /// rewrite consumes, by the rewrite itself, or by a lower claimant of the
    /// same hash, and onto the unclaimed ones. Every other claim marks a
    /// write the rewrite did not carry, and stays. Returns the number of
    /// blocks written.
    pub fn insert_consuming_inputs(
        &mut self,
        start_lba: u64,
        lba_length: u32,
        hash: ContentHash,
        claimant: Ulid,
        consumed_inputs: &[Ulid],
    ) -> (taken: u32)
        requires
            old(self).wf(),
            start_lba + lba_length <= u64::MAX,
        ensures
            old(self).admits(
                *final(self),
                Blocking::Consuming(consumed_inputs),
                start_lba,
                lba_length,
                hash,
                claimant,
                taken,
            ),
    {
        self.insert_inner_if_newer(
            start_lba,
            lba_length,
            hash,
            claimant,
            Blocking::Consuming(consumed_inputs),
        )
    }

    /// Register a segment entry's claim over whatever the map holds, and
    /// return the number of blocks it took. An entry that carries a body for
    /// resolution alone makes no claim.
    pub fn register_entry(&mut self, entry: &SegmentEntry, claimant: Ulid) -> (taken: u32)
        requires
            old(self).wf(),
            !entry.kind.canonical_only() ==> entry.in_range() && 0 < entry.lba_length,
        ensures
            final(self).wf(),
            entry.kind.canonical_only() ==> *final(self) == *old(self) && taken == 0,
            !entry.kind.canonical_only() ==> {
                &&& taken == entry.lba_length
                &&& final(self).entries() == overwritten(
                    old(self).entries(),
                    entry.start_lba,
                    (MapEntry {
                        lba_length: entry.lba_length,
                        hash: entry.hash,
                        payload_block_offset: 0,
                        claimant_ulid: claimant,
                    }),
                )
            },
    {
        if entry.kind.is_canonical_only() {
            return 0;
        }
        self.insert(entry.start_lba, entry.lba_length, entry.hash, claimant);
        entry.lba_length
    }

    /// Register a segment entry's claim by `blocking`.
    fn register_entry_by(
        &mut self,
        entry: &SegmentEntry,
        claimant: Ulid,
        blocking: Blocking<'_>,
    ) -> (taken: u32)
        requires
            old(self).wf(),
            entry.in_range(),
        ensures
            old(self).registers(*final(self), *entry, blocking, claimant, taken),
    {
        if entry.kind.is_canonical_only() {
            return 0;
        }
        self.insert_inner_if_newer(
            entry.start_lba,
            entry.lba_length,
            entry.hash,
            claimant,
            blocking,
        )
    }

    /// Register a segment entry's claim on the blocks whose claimant is at or
    /// below `claimant`: across segments the highest claimant wins whatever
    /// the order, and within one segment the later entry does.
    pub fn register_entry_if_newer(&mut self, entry: &SegmentEntry, claimant: Ulid) -> (taken: u32)
        requires
            old(self).wf(),
            entry.in_range(),
        ensures
            old(self).registers(*final(self), *entry, Blocking::Higher, claimant, taken),
    {
        self.register_entry_by(entry, claimant, Blocking::Higher)
    }

    /// Register a segment entry's claim as `insert_consuming_inputs` does.
    pub fn register_entry_consuming_inputs(
        &mut self,
        entry: &SegmentEntry,
        claimant: Ulid,
        inputs: &[Ulid],
    ) -> (taken: u32)
        requires
            old(self).wf(),
            entry.in_range(),
        ensures
            old(self).registers(*final(self), *entry, Blocking::Consuming(inputs), claimant, taken),
    {
        self.register_entry_by(entry, claimant, Blocking::Consuming(inputs))
    }

    /// Register the claim of a compaction output whose highest input is
    /// `horizon`. A claimant at or below the horizon was in the view the
    /// output was made from and is overridden; one above it names a later
    /// write and stays.
    pub fn register_entry_with_horizon(
        &mut self,
        entry: &SegmentEntry,
        claimant: Ulid,
        horizon: Ulid,
    ) -> (taken: u32)
        requires
            old(self).wf(),
            entry.in_range(),
        ensures
            old(self).registers(
                *final(self),
                *entry,
                Blocking::AboveHorizon(horizon),
                claimant,
                taken,
            ),
    {
        self.register_entry_by(entry, claimant, Blocking::AboveHorizon(horizon))
    }

    /// Move the claims the range touches to `new_claimant`, where they claim
    /// `expected_hash` and `moves_claim` says so. Returns how many moved.
    fn set_claimant(
        &mut self,
        start_lba: u64,
        lba_length: u32,
        expected_hash: ContentHash,
        new_claimant: Ulid,
        consumed: Option<Ulid>,
    ) -> (moved: u32)
        requires
            old(self).wf(),
            start_lba + lba_length <= u64::MAX,
        ensures
            old(self).moves(
                *final(self),
                start_lba,
                lba_length,
                expected_hash,
                new_claimant,
                consumed,
                moved,
            ),
    {
        let ghost m = self.entries();
        let end: u64 = start_lba + lba_length as u64;
        let mut touched: Vec<(u64, MapEntry)> = Vec::new();
        if start_lba > 0 {
            if let Some((below, pred)) = extents_at_or_below(&self.inner, start_lba - 1) {
                let pred_end: u64 = below + pred.lba_length as u64;
                if pred_end > start_lba {
                    touched.push((below, pred));
                }
            }
        }
        let mut inside = extents_range(&self.inner, start_lba, end);
        proof {
            lemma_entries_between(m, start_lba as int, end as int);
        }
        let ghost lead = touched@;
        let ghost rest = inside@;
        touched.append(&mut inside);
        proof {
            assert(touched@ =~= lead + rest);
            assert forall|k: u64| touches(m, k, start_lba as int, end as int) implies exists|j: int|
                0 <= j < touched@.len() && #[trigger] touched@[j].0 == k by {
                if k < start_lba {
                    assert(touched@[0].0 == k);
                } else {
                    let j = choose|j: int| 0 <= j < rest.len() && #[trigger] rest[j].0 == k;
                    assert(touched@[j + lead.len()].0 == k);
                }
            }
            assert forall|j: int| #![trigger touched@[j]] 0 <= j < touched@.len() implies touches(
                m,
                touched@[j].0,
                start_lba as int,
                end as int,
            ) && m[touched@[j].0] == touched@[j].1 by {
                if j >= lead.len() {
                    assert(touched@[j] == rest[j - lead.len()]);
                }
            }
            assert forall|a: int, b: int|
                #![trigger touched@[a], touched@[b]]
                0 <= a < b < touched@.len() implies touched@[a].0 < touched@[b].0 by {
                assert(touched@[b] == rest[b - lead.len()]);
                if a >= lead.len() {
                    assert(touched@[a] == rest[a - lead.len()]);
                }
            }
        }
        let ghost mut keys: Set<u64> = Set::empty();
        let mut moved: u32 = 0;
        let mut i: usize = 0;
        while i < touched.len()
            invariant
                extents_wf(m),
                end == start_lba + lba_length,
                i <= touched.len(),
                forall|j: int|
                    #![trigger touched@[j]]
                    0 <= j < touched@.len() ==> touches(
                        m,
                        touched@[j].0,
                        start_lba as int,
                        end as int,
                    ) && m[touched@[j].0] == touched@[j].1,
                forall|a: int, b: int|
                    #![trigger touched@[a], touched@[b]]
                    0 <= a < b < touched@.len() ==> touched@[a].0 < touched@[b].0,
                self.counts() == old(self).counts(),
                self.entries().dom() == m.dom(),
                forall|k: u64| #[trigger]
                    m.contains_key(k) ==> self.entries()[k] == (if keys.contains(k) {
                        MapEntry { claimant_ulid: new_claimant, ..m[k] }
                    } else {
                        m[k]
                    }),
                keys.finite(),
                keys.len() == moved,
                forall|k: u64| #[trigger]
                    keys.contains(k) <==> moves_claim(
                        m,
                        k,
                        start_lba as int,
                        end as int,
                        expected_hash,
                        new_claimant,
                        consumed,
                    ) && exists|j: int| 0 <= j < i && #[trigger] touched@[j].0 == k,
                // Each extent but the first lies a block further in.
                i > 0 ==> moved <= touched@[i - 1].0 + touched@[i - 1].1.lba_length - start_lba,
                i == 0 ==> moved == 0,
            decreases touched.len() - i,
        {
            let (k, e) = touched[i];
            let ghost before = keys;
            assert(touches(m, k, start_lba as int, end as int) && m[k] == e);
            if i > 0 {
                assert(touched@[i - 1].0 < touched@[i as int].0);
                assert(m.contains_key(touched@[i - 1].0));
                assert(moved <= k - start_lba);
            }
            let below_new: bool = e.claimant_ulid.value < new_claimant.value;
            let is_consumed: bool = match consumed {
                Some(input) => e.claimant_ulid == input,
                None => false,
            };
            if e.hash == expected_hash && (below_new || is_consumed) {
                extents_insert(
                    &mut self.inner,
                    k,
                    MapEntry {
                        lba_length: e.lba_length,
                        hash: e.hash,
                        payload_block_offset: e.payload_block_offset,
                        claimant_ulid: new_claimant,
                    },
                );
                proof {
                    keys = keys.insert(k);
                    assert(!before.contains(k));
                    assert(self.entries().dom() =~= m.dom());
                }
                moved = moved + 1;
            }
            proof {
                assert forall|kk: u64| #[trigger]
                    keys.contains(kk) <==> moves_claim(
                        m,
                        kk,
                        start_lba as int,
                        end as int,
                        expected_hash,
                        new_claimant,
                        consumed,
                    ) && exists|j: int| 0 <= j < i + 1 && #[trigger] touched@[j].0 == kk by {
                    if kk == k {
                        assert(touched@[i as int].0 == kk);
                    }
                    if before.contains(kk) {
                        let j = choose|j: int| 0 <= j < i && #[trigger] touched@[j].0 == kk;
                        assert(0 <= j < i + 1 && touched@[j].0 == kk);
                    }
                }
            }
            i += 1;
        }
        proof {
            let r = reclaimed(
                m,
                start_lba as int,
                end as int,
                expected_hash,
                new_claimant,
                consumed,
            );
            assert(self.entries() =~= r);
            assert(keys =~= m.dom().filter(
                |k: u64|
                    moves_claim(
                        m,
                        k,
                        start_lba as int,
                        end as int,
                        expected_hash,
                        new_claimant,
                        consumed,
                    ),
            ));
            lemma_reclaimed(
                m,
                start_lba as int,
                end as int,
                expected_hash,
                new_claimant,
                consumed,
            );
            assert forall|h: ContentHash| claim_keys(r, h) == claim_keys(m, h) by {
                assert(claim_keys(r, h) =~= claim_keys(m, h));
            }
        }
        moved
    }

    /// Give the extents of `expected_hash` that the range touches to
    /// `new_claimant`, where their claimant is below it, and return how many
    /// moved. What every block reads stays as it was.
    pub fn set_claimant_if_matches(
        &mut self,
        start_lba: u64,
        lba_length: u32,
        expected_hash: ContentHash,
        new_claimant: Ulid,
    ) -> (moved: u32)
        requires
            old(self).wf(),
            start_lba + lba_length <= u64::MAX,
        ensures
            old(self).moves(
                *final(self),
                start_lba,
                lba_length,
                expected_hash,
                new_claimant,
                None,
                moved,
            ),
    {
        self.set_claimant(start_lba, lba_length, expected_hash, new_claimant, None)
    }

    /// As `set_claimant_if_matches`, and the extents claimed by
    /// `consumed_input`, the segment about to be deleted, move as well.
    pub fn set_claimant_consuming_input(
        &mut self,
        start_lba: u64,
        lba_length: u32,
        expected_hash: ContentHash,
        new_claimant: Ulid,
        consumed_input: Ulid,
    ) -> (moved: u32)
        requires
            old(self).wf(),
            start_lba + lba_length <= u64::MAX,
        ensures
            old(self).moves(
                *final(self),
                start_lba,
                lba_length,
                expected_hash,
                new_claimant,
                Some(consumed_input),
                moved,
            ),
    {
        self.set_claimant(
            start_lba,
            lba_length,
            expected_hash,
            new_claimant,
            Some(consumed_input),
        )
    }

    /// What a read of `[start_lba, end_lba)` needs, ascending. Blocks never
    /// written are left out.
    pub fn extents_in_range(&self, start_lba: u64, end_lba: u64) -> (reads: Vec<ExtentRead>)
        requires
            self.wf(),
            start_lba <= end_lba,
        ensures
            reads@ == reads_in(self.entries(), start_lba as int, end_lba as int),
    {
        let ghost m = self.entries();
        let mut reads: Vec<ExtentRead> = Vec::new();
        if start_lba > 0 {
            if let Some((below, pred)) = extents_at_or_below(&self.inner, start_lba - 1) {
                let entry_end: u64 = below + pred.lba_length as u64;
                if entry_end > start_lba {
                    reads.push(
                        ExtentRead {
                            hash: pred.hash,
                            range_start: start_lba,
                            range_end: if entry_end < end_lba {
                                entry_end
                            } else {
                                end_lba
                            },
                            payload_block_offset: pred.payload_block_offset + (start_lba
                                - below) as u32,
                            claimant_ulid: pred.claimant_ulid,
                        },
                    );
                    proof {
                        assert(cut_by(m, below, start_lba as int));
                        let c = choose|c: u64| cut_by(m, c, start_lba as int);
                        lemma_cover_unique(m, c, below, start_lba as int);
                    }
                }
            }
        }
        let ghost lead = reads@;
        assert(lead.len() == 0 ==> !exists|c: u64| cut_by(m, c, start_lba as int));
        let inside = extents_range(&self.inner, start_lba, end_lba);
        proof {
            lemma_entries_between(m, start_lba as int, end_lba as int);
        }
        let mut i: usize = 0;
        while i < inside.len()
            invariant
                self.wf(),
                m == self.entries(),
                start_lba <= end_lba,
                i <= inside.len(),
                inside@ == entries_between(m, start_lba as int, end_lba as int),
                forall|j: int|
                    #![trigger inside@[j]]
                    0 <= j < inside@.len() ==> {
                        &&& start_lba <= inside@[j].0 < end_lba
                        &&& m.contains_key(inside@[j].0)
                        &&& m[inside@[j].0] == inside@[j].1
                    },
                reads@ =~= lead + Seq::new(
                    i as nat,
                    |j: int|
                        read_of(inside@[j].0, inside@[j].1, start_lba as int, end_lba as int),
                ),
            decreases inside.len() - i,
        {
            let (k, e) = inside[i];
            assert(inside@[i as int] == (k, e));
            let entry_end: u64 = k + e.lba_length as u64;
            reads.push(
                ExtentRead {
                    hash: e.hash,
                    range_start: k,
                    range_end: if entry_end < end_lba {
                        entry_end
                    } else {
                        end_lba
                    },
                    payload_block_offset: e.payload_block_offset,
                    claimant_ulid: e.claimant_ulid,
                },
            );
            i += 1;
        }
        assert(reads@ =~= reads_in(m, start_lba as int, end_lba as int));
        reads
    }

    /// Whether an extent is keyed at exactly `start_lba`, covers exactly
    /// `lba_length` blocks, and holds the payload of `hash` from its start.
    pub fn has_full_match(&self, start_lba: u64, lba_length: u32, hash: &ContentHash) -> (b: bool)
        ensures
            b == full_match(self.entries(), start_lba, lba_length, *hash),
    {
        match extents_get(&self.inner, start_lba) {
            Some(e) => e.lba_length == lba_length && e.payload_block_offset == 0 && e.hash == *hash,
            None => false,
        }
    }

    /// The extent that covers `lba`, with its key.
    fn covering(&self, lba: u64) -> (found: Option<(u64, MapEntry)>)
        requires
            self.wf(),
        ensures
            match found {
                Some((k, e)) => covers(self.entries(), k, lba as int) && self.entries()[k] == e
                    && self.at(lba as int) == Some(
                    (e.hash, e.payload_block_offset + (lba - k), e.claimant_ulid),
                ),
                None => self.at(lba as int) is None,
            },
    {
        let ghost m = self.entries();
        if let Some((start, e)) = extents_at_or_below(&self.inner, lba) {
            assert(m.contains_key(start));
            if lba < start + e.lba_length as u64 {
                proof {
                    lemma_block_claim(m, start, lba as int);
                }
                return Some((start, e));
            }
        }
        assert(!exists|k: u64| covers(m, k, lba as int));
        None
    }

    /// The content block `lba` comes from and the block's place in its
    /// payload. `None` for a block never written.
    pub fn lookup(&self, lba: u64) -> (found: Option<(ContentHash, u32)>)
        requires
            self.wf(),
        ensures
            match self.at(lba as int) {
                Some((hash, block, _)) => found == Some((hash, block as u32)) && 0 <= block
                    <= u32::MAX,
                None => found is None,
            },
    {
        match self.covering(lba) {
            Some((start, e)) => Some((e.hash, e.payload_block_offset + (lba - start) as u32)),
            None => None,
        }
    }

    /// As `lookup`, with the claimant.
    pub fn lookup_with_claimant(&self, lba: u64) -> (found: Option<(ContentHash, u32, Ulid)>)
        requires
            self.wf(),
        ensures
            match self.at(lba as int) {
                Some((hash, block, claimant)) => found == Some((hash, block as u32, claimant))
                    && 0 <= block <= u32::MAX,
                None => found is None,
            },
    {
        match self.covering(lba) {
            Some((start, e)) => Some(
                (e.hash, e.payload_block_offset + (lba - start) as u32, e.claimant_ulid),
            ),
            None => None,
        }
    }

    /// The content block `lba` comes from.
    pub fn hash_at(&self, lba: u64) -> (found: Option<ContentHash>)
        requires
            self.wf(),
        ensures
            match self.at(lba as int) {
                Some((hash, _, _)) => found == Some(hash),
                None => found is None,
            },
    {
        match self.covering(lba) {
            Some((_, e)) => Some(e.hash),
            None => None,
        }
    }

    /// The claimant of block `lba`.
    pub fn claimant_at(&self, lba: u64) -> (found: Option<Ulid>)
        requires
            self.wf(),
        ensures
            match self.at(lba as int) {
                Some((_, _, claimant)) => found == Some(claimant),
                None => found is None,
            },
    {
        match self.covering(lba) {
            Some((_, e)) => Some(e.claimant_ulid),
            None => None,
        }
    }

    /// The number of extents.
    pub fn len(&self) -> (n: usize)
        ensures
            n == self.entries().dom().len(),
    {
        extents_len(&self.inner)
    }

    /// Whether the map holds no extent.
    pub fn is_empty(&self) -> (b: bool)
        requires
            self.wf(),
        ensures
            b == (self.entries() == Map::<u64, MapEntry>::empty()),
    {
        let n: usize = extents_len(&self.inner);
        proof {
            if n == 0 {
                assert(self.entries().dom() =~= Set::<u64>::empty());
                assert(self.entries() =~= Map::<u64, MapEntry>::empty());
            }
        }
        n == 0
    }

    /// Every hash some block claims. A deletion decision needs the sources
    /// that registered deltas name on top of these.
    pub fn claim_referenced_hashes(&self) -> (hashes: Blake3HashSet)
        requires
            self.wf(),
        ensures
            forall|h: ContentHash| #[trigger]
                hashes@.contains(h) <==> claim_keys(self.entries(), h).len() > 0,
    {
        let keys = claims_keys(&self.claim_counts);
        let mut hashes = Blake3HashSet::new();
        hashes.extend(keys.as_slice());
        assert(forall|h: ContentHash| #[trigger]
            hashes@.contains(h) <==> self.counts().contains_key(h));
        hashes
    }

    /// Whether any block claims `hash`.
    pub fn is_referenced(&self, hash: &ContentHash) -> (b: bool)
        requires
            self.wf(),
        ensures
            b == (claim_keys(self.entries(), *hash).len() > 0),
    {
        claims_get(&self.claim_counts, *hash).is_some()
    }

    /// The number of extents that claim `target`.
    pub fn claim_refcount(&self, target: &ContentHash) -> (n: u32)
        requires
            self.wf(),
            self.entries().dom().len() <= u32::MAX,
        ensures
            n == claim_keys(self.entries(), *target).len(),
    {
        proof {
            lemma_claim_keys_bound(self.entries(), *target);
            assert(self.counts().contains_key(*target) <==> claim_keys(
                self.entries(),
                *target,
            ).len() > 0);
        }
        match claims_get(&self.claim_counts, *target) {
            Some(n) => n as u32,
            None => 0,
        }
    }

    /// The claims of this map, as they are now, with a set of delta sources
    /// beside them.
    pub fn referenced_hashes(&self, delta_sources: Blake3HashSet) -> (view: ReferencedHashes)
        requires
            self.wf(),
        ensures
            forall|h: ContentHash| #[trigger]
                view.names(h) <==> claim_keys(self.entries(), h).len() > 0
                    || delta_sources@.contains(h),
    {
        let view = ReferencedHashes { claims: claims_clone(&self.claim_counts), delta_sources };
        assert(forall|h: ContentHash| #[trigger]
            view.claims@.contains_key(h) <==> self.counts().contains_key(h));
        view
    }

    /// Every extent with its key, ascending.
    fn all(&self) -> (list: Vec<(u64, MapEntry)>)
        ensures
            list@ == all_entries(self.entries()),
    {
        extents_range(&self.inner, 0, u64::MAX)
    }

    /// Every extent as `(start_lba, lba_length, hash, payload_block_offset)`,
    /// ascending.
    pub fn iter_entries(&self) -> (list: Vec<(u64, u32, ContentHash, u32)>)
        ensures
            list@ == all_entries(self.entries()).map_values(
                |p: (u64, MapEntry)|
                    (p.0, p.1.lba_length, p.1.hash, p.1.payload_block_offset),
            ),
    {
        let all = self.all();
        let mut list: Vec<(u64, u32, ContentHash, u32)> = Vec::new();
        let mut i: usize = 0;
        while i < all.len()
            invariant
                i <= all.len(),
                list@ =~= all@.take(i as int).map_values(
                    |p: (u64, MapEntry)|
                        (p.0, p.1.lba_length, p.1.hash, p.1.payload_block_offset),
                ),
            decreases all.len() - i,
        {
            let (lba, e) = all[i];
            list.push((lba, e.lba_length, e.hash, e.payload_block_offset));
            i += 1;
        }
        assert(all@.take(all@.len() as int) =~= all@);
        list
    }

    /// Every extent as `(start_lba, lba_length, hash, payload_block_offset,
    /// claimant)`, ascending.
    pub fn iter_entries_with_claimant(&self) -> (list: Vec<(u64, u32, ContentHash, u32, Ulid)>)
        ensures
            list@ == all_entries(self.entries()).map_values(
                |p: (u64, MapEntry)|
                    (
                        p.0,
                        p.1.lba_length,
                        p.1.hash,
                        p.1.payload_block_offset,
                        p.1.claimant_ulid,
                    ),
            ),
    {
        let all = self.all();
        let mut list: Vec<(u64, u32, ContentHash, u32, Ulid)> = Vec::new();
        let mut i: usize = 0;
        while i < all.len()
            invariant
                i <= all.len(),
                list@ =~= all@.take(i as int).map_values(
                    |p: (u64, MapEntry)|
                        (
                            p.0,
                            p.1.lba_length,
                            p.1.hash,
                            p.1.payload_block_offset,
                            p.1.claimant_ulid,
                        ),
                ),
            decreases all.len() - i,
        {
            let (lba, e) = all[i];
            list.push((lba, e.lba_length, e.hash, e.payload_block_offset, e.claimant_ulid));
            i += 1;
        }
        assert(all@.take(all@.len() as int) =~= all@);
        list
    }

    /// The `(start_lba, lba_length)` of every extent of `target`, ascending.
    pub fn lbas_for_hash(&self, target: &ContentHash) -> (list: Vec<(u64, u32)>)
        ensures
            list@ == claiming(all_entries(self.entries()), *target).map_values(
                |p: (u64, MapEntry)| (p.0, p.1.lba_length),
            ),
    {
        let all = self.all();
        let mut list: Vec<(u64, u32)> = Vec::new();
        let mut i: usize = 0;
        while i < all.len()
            invariant
                i <= all.len(),
                list@ =~= claiming(all@.take(i as int), *target).map_values(
                    |p: (u64, MapEntry)| (p.0, p.1.lba_length),
                ),
            decreases all.len() - i,
        {
            assert(all@.take(i as int + 1).drop_last() =~= all@.take(i as int));
            let (lba, e) = all[i];
            if e.hash == *target {
                list.push((lba, e.lba_length));
            }
            i += 1;
        }
        assert(all@.take(all@.len() as int) =~= all@);
        list
    }

    /// The `(start_lba, lba_length, payload_block_offset)` of every extent of
    /// `target`, ascending.
    pub fn runs_for_hash(&self, target: &ContentHash) -> (list: Vec<(u64, u32, u32)>)
        ensures
            list@ == claiming(all_entries(self.entries()), *target).map_values(
                |p: (u64, MapEntry)| (p.0, p.1.lba_length, p.1.payload_block_offset),
            ),
    {
        let all = self.all();
        let mut list: Vec<(u64, u32, u32)> = Vec::new();
        let mut i: usize = 0;
        while i < all.len()
            invariant
                i <= all.len(),
                list@ =~= claiming(all@.take(i as int), *target).map_values(
                    |p: (u64, MapEntry)| (p.0, p.1.lba_length, p.1.payload_block_offset),
                ),
            decreases all.len() - i,
        {
            assert(all@.take(i as int + 1).drop_last() =~= all@.take(i as int));
            let (lba, e) = all[i];
            if e.hash == *target {
                list.push((lba, e.lba_length, e.payload_block_offset));
            }
            i += 1;
        }
        assert(all@.take(all@.len() as int) =~= all@);
        list
    }
}

impl Clone for LbaMap {
    fn clone(&self) -> (copy: Self)
        ensures
            copy.entries() == self.entries(),
            copy.counts() == self.counts(),
    {
        LbaMap { inner: extents_clone(&self.inner), claim_counts: claims_clone(&self.claim_counts) }
    }
}

impl Default for LbaMap {
    fn default() -> (map: Self)
        ensures
            map.wf(),
            map.entries() == Map::<u64, MapEntry>::empty(),
    {
        LbaMap::new()
    }
}

/// Which hashes were referenced when it was taken: those some block claimed,
/// and a set of delta sources.
pub struct ReferencedHashes {
    claims: ClaimTable,
    delta_sources: Blake3HashSet,
}

impl ReferencedHashes {
    /// The view holds `hash`.
    pub closed spec fn names(&self, hash: ContentHash) -> bool {
        self.claims@.contains_key(hash) || self.delta_sources@.contains(hash)
    }

    /// Whether the view holds `hash`.
    pub fn contains(&self, hash: &ContentHash) -> (b: bool)
        ensures
            b == self.names(*hash),
    {
        claims_get(&self.claims, *hash).is_some() || self.delta_sources.contains(hash)
    }
}

// ---------------------------------------------------------------------------
// Laws
// ---------------------------------------------------------------------------

proof fn lemma_claiming(list: Seq<(u64, MapEntry)>, hash: ContentHash)
    requires
        forall|i: int, j: int|
            #![trigger list[i], list[j]]
            0 <= i < j < list.len() ==> list[i].0 < list[j].0,
    ensures
        forall|i: int|
            #![trigger claiming(list, hash)[i]]
            0 <= i < claiming(list, hash).len() ==> list.contains(claiming(list, hash)[i])
                && claiming(list, hash)[i].1.hash == hash,
        forall|i: int|
            #![trigger list[i]]
            0 <= i < list.len() && list[i].1.hash == hash ==> claiming(list, hash).contains(list[i]),
        forall|i: int, j: int|
            #![trigger claiming(list, hash)[i], claiming(list, hash)[j]]
            0 <= i < j < claiming(list, hash).len() ==> claiming(list, hash)[i].0 < claiming(
                list,
                hash,
            )[j].0,
    decreases list.len(),
{
    if list.len() > 0 {
        let before = list.drop_last();
        lemma_claiming(before, hash);
        let now = claiming(list, hash);
        let was = claiming(before, hash);
        assert forall|i: int| #![trigger now[i]] 0 <= i < now.len() implies list.contains(now[i])
            && now[i].1.hash == hash by {
            if i < was.len() {
                assert(now[i] == was[i]);
                let j = choose|j: int| 0 <= j < before.len() && before[j] == was[i];
                assert(list[j] == now[i]);
            } else {
                assert(list[list.len() - 1] == now[i]);
            }
        }
        assert forall|i: int| #![trigger list[i]] 0 <= i < list.len() && list[i].1.hash
            == hash implies now.contains(list[i]) by {
            if i < before.len() {
                assert(before[i] == list[i]);
                let j = choose|j: int| 0 <= j < was.len() && was[j] == before[i];
                assert(now[j] == list[i]);
            } else {
                assert(now[now.len() - 1] == list[i]);
            }
        }
        assert forall|i: int, j: int| #![trigger now[i], now[j]] 0 <= i < j < now.len() implies
            now[i].0 < now[j].0 by {
            if j < was.len() {
                assert(now[i] == was[i] && now[j] == was[j]);
            } else {
                assert(now[i] == was[i]);
                let x = choose|x: int| 0 <= x < before.len() && before[x] == was[i];
                assert(list[x] == now[i]);
                assert(list[list.len() - 1] == now[j]);
            }
        }
    }
}

/// The list of all entries has just the extents of the map, by ascending block,
/// and the list of those of one hash has just the ones that claim it.
pub proof fn law_lists_miss_no_extent(m: Map<u64, MapEntry>, hash: ContentHash)
    requires
        extents_wf(m),
    ensures
        forall|k: u64|
            m.contains_key(k) ==> #[trigger] all_entries(m).contains((k, m[k])),
        forall|i: int|
            #![trigger all_entries(m)[i]]
            0 <= i < all_entries(m).len() ==> m.contains_key(all_entries(m)[i].0)
                && m[all_entries(m)[i].0] == all_entries(m)[i].1,
        forall|k: u64|
            m.contains_key(k) && m[k].hash == hash ==> #[trigger] claiming(
                all_entries(m),
                hash,
            ).contains((k, m[k])),
        forall|i: int|
            #![trigger claiming(all_entries(m), hash)[i]]
            0 <= i < claiming(all_entries(m), hash).len() ==> {
                let (k, e) = claiming(all_entries(m), hash)[i];
                m.contains_key(k) && m[k] == e && e.hash == hash
            },
        forall|i: int, j: int|
            #![trigger claiming(all_entries(m), hash)[i], claiming(all_entries(m), hash)[j]]
            0 <= i < j < claiming(all_entries(m), hash).len() ==> claiming(
                all_entries(m),
                hash,
            )[i].0 < claiming(all_entries(m), hash)[j].0,
{
    let all = all_entries(m);
    lemma_entries_between(m, 0, u64::MAX as int);
    lemma_claiming(all, hash);
    assert forall|k: u64| m.contains_key(k) implies #[trigger] all.contains((k, m[k])) by {
        assert(0 < m[k].lba_length);
        let i = choose|i: int| 0 <= i < all.len() && #[trigger] all[i].0 == k;
        assert(all[i] == (k, m[k]));
    }
    assert forall|k: u64| m.contains_key(k) && m[k].hash == hash implies #[trigger] claiming(
        all,
        hash,
    ).contains((k, m[k])) by {
        assert(all.contains((k, m[k])));
        let i = choose|i: int| 0 <= i < all.len() && all[i] == (k, m[k]);
        assert(claiming(all, hash).contains(all[i]));
    }
    assert forall|i: int|
        #![trigger claiming(all, hash)[i]]
        0 <= i < claiming(all, hash).len() implies ({
        let (k, e) = claiming(all, hash)[i];
        m.contains_key(k) && m[k] == e && e.hash == hash
    }) by {
        let x = choose|x: int| 0 <= x < all.len() && all[x] == claiming(all, hash)[i];
        assert(all[x] == claiming(all, hash)[i]);
    }
}

/// A claim is counted.
pub proof fn lemma_claimed_counts(m: Map<u64, MapEntry>, k: u64)
    requires
        extents_wf(m),
        m.contains_key(k),
    ensures
        claim_keys(m, m[k].hash).len() > 0,
{
    let keys = claim_keys(m, m[k].hash);
    assert(keys.contains(k));
    assert(keys.subset_of(m.dom()));
    vstd::set_lib::lemma_set_subset_finite(m.dom(), keys);
    if keys.len() == 0 {
        assert(keys =~= Set::empty());
    }
}

/// What is counted is claimed.
pub proof fn lemma_counted_claims(m: Map<u64, MapEntry>, hash: ContentHash)
    requires
        extents_wf(m),
        claim_keys(m, hash).len() > 0,
    ensures
        exists|k: u64| m.contains_key(k) && m[k].hash == hash,
{
    let keys = claim_keys(m, hash);
    assert(keys.subset_of(m.dom()));
    vstd::set_lib::lemma_set_subset_finite(m.dom(), keys);
    let k = keys.choose();
    assert(keys.contains(k));
    assert(m.contains_key(k) && m[k].hash == hash);
}

/// Each read is of at least one block, and says of each what the map says.
pub proof fn lemma_reads_hold(m: Map<u64, MapEntry>, start: int, end: int, i: int)
    requires
        extents_wf(m),
        0 <= start <= end <= u64::MAX,
        0 <= i < reads_in(m, start, end).len(),
    ensures
        ({
            let r = reads_in(m, start, end)[i];
            &&& start < end ==> r.range_start < r.range_end
            &&& forall|lba: int|
                r.range_start <= lba < r.range_end ==> #[trigger] block_claim(m, lba) == Some(
                    (r.hash, r.payload_block_offset + (lba - r.range_start), r.claimant_ulid),
                )
            &&& block_claim(m, r.range_start as int) == Some(
                (r.hash, r.payload_block_offset as int, r.claimant_ulid),
            )
        }),
{
    lemma_entries_between(m, start, end);
    let inside = entries_between(m, start, end);
    let rest = Seq::new(inside.len(), |x: int| read_of(inside[x].0, inside[x].1, start, end));
    let all = reads_in(m, start, end);
    let lead: int = if exists|c: u64| cut_by(m, c, start) {
        1
    } else {
        0
    };
    let k: u64 = if i < lead {
        choose|c: u64| cut_by(m, c, start)
    } else {
        inside[i - lead].0
    };
    assert(all[i] == read_of(k, m[k], start, end)) by {
        if lead == 1 {
            let c = choose|c: u64| cut_by(m, c, start);
            assert(all =~= seq![read_of(c, m[c], start, end)] + rest);
        } else {
            assert(all =~= rest);
        }
        if i >= lead {
            assert(all[i] == rest[i - lead]);
            assert(inside[i - lead].1 == m[k]);
        }
    }
    assert(m.contains_key(k));
    let r = all[i];
    assert forall|lba: int| r.range_start <= lba < r.range_end implies #[trigger] block_claim(
        m,
        lba,
    ) == Some((r.hash, r.payload_block_offset + (lba - r.range_start), r.claimant_ulid)) by {
        assert(covers(m, k, lba));
        lemma_block_claim(m, k, lba);
    }
    assert(covers(m, k, r.range_start as int));
    lemma_block_claim(m, k, r.range_start as int);
}

/// A read of a range covers each written block of it once, in order, and says
/// of the block what the map says; a block never written is left out.
pub proof fn law_reads_are_what_the_blocks_hold(m: Map<u64, MapEntry>, start: int, end: int, lba: int)
    requires
        extents_wf(m),
        0 <= start <= lba < end <= u64::MAX,
    ensures
        ({
            let reads = reads_in(m, start, end);
            &&& (exists|k: u64| #[trigger] covers(m, k, lba)) <==> exists|i: int|
                #![trigger reads[i]]
                0 <= i < reads.len() && reads[i].range_start <= lba < reads[i].range_end
            &&& forall|i: int, k: u64|
                #![trigger reads[i], covers(m, k, lba)]
                0 <= i < reads.len() && reads[i].range_start <= lba < reads[i].range_end && covers(
                    m,
                    k,
                    lba,
                ) ==> {
                    &&& reads[i].hash == m[k].hash
                    &&& reads[i].claimant_ulid == m[k].claimant_ulid
                    &&& reads[i].payload_block_offset + (lba - reads[i].range_start)
                        == m[k].payload_block_offset + (lba - k)
                }
            &&& forall|i: int, j: int|
                #![trigger reads[i], reads[j]]
                0 <= i < j < reads.len() ==> start <= reads[i].range_start < reads[i].range_end
                    <= reads[j].range_start < reads[j].range_end <= end
        }),
{
    let reads = reads_in(m, start, end);
    lemma_reads_ascend(m, start, end);
    crate::plan_coverage::lemma_reads_cover(m, start, end, lba);
    assert forall|i: int, k: u64|
        #![trigger reads[i], covers(m, k, lba)]
        0 <= i < reads.len() && reads[i].range_start <= lba < reads[i].range_end && covers(
            m,
            k,
            lba,
        ) implies {
        &&& reads[i].hash == m[k].hash
        &&& reads[i].claimant_ulid == m[k].claimant_ulid
        &&& reads[i].payload_block_offset + (lba - reads[i].range_start)
            == m[k].payload_block_offset + (lba - k)
    } by {
        lemma_reads_hold(m, start, end, i);
        lemma_block_claim(m, k, lba);
    }
    if exists|k: u64| #[trigger] covers(m, k, lba) {
        assert(block_claim(m, lba) is Some);
        let i = choose|i: int|
            0 <= i < reads.len() && crate::plan_coverage::read_covers(#[trigger] reads[i], lba);
        assert(reads[i].range_start <= lba < reads[i].range_end);
    }
    if exists|i: int|
        #![trigger reads[i]]
        0 <= i < reads.len() && reads[i].range_start <= lba < reads[i].range_end {
        let i = choose|i: int|
            #![trigger reads[i]]
            0 <= i < reads.len() && reads[i].range_start <= lba < reads[i].range_end;
        lemma_reads_hold(m, start, end, i);
        assert(block_claim(m, lba) is Some);
    }
    assert forall|i: int, j: int| #![trigger reads[i], reads[j]] 0 <= i < j < reads.len() implies
        start <= reads[i].range_start < reads[i].range_end <= reads[j].range_start
        < reads[j].range_end <= end by {
        lemma_reads_hold(m, start, end, i);
        lemma_reads_hold(m, start, end, j);
    }
}

/// A full match is one read: every block of the range is that block of the
/// content, from its start, and nothing of the content lies around it under
/// the same extent.
pub proof fn law_a_full_match_is_one_read(
    m: Map<u64, MapEntry>,
    start: u64,
    length: u32,
    hash: ContentHash,
    lba: int,
)
    requires
        extents_wf(m),
        start + length <= u64::MAX,
        full_match(m, start, length, hash),
    ensures
        length > 0,
        start <= lba < start + length ==> block_claim(m, lba) is Some && (block_claim(m, lba)->0).0
            == hash && (block_claim(m, lba)->0).1 == lba - start,
        reads_in(m, start as int, start + length).len() == 1,
        reads_in(m, start as int, start + length)[0].range_start == start,
        reads_in(m, start as int, start + length)[0].range_end == start + length,
{
    let end = start + length;
    let reads = reads_in(m, start as int, end);
    if start <= lba < end {
        assert(covers(m, start, lba));
        lemma_block_claim(m, start, lba);
    }
    assert(covers(m, start, start as int));
    assert(!exists|c: u64| cut_by(m, c, start as int)) by {
        if exists|c: u64| cut_by(m, c, start as int) {
            let c = choose|c: u64| cut_by(m, c, start as int);
            lemma_cover_unique(m, c, start, start as int);
        }
    }
    let inside = entries_between(m, start as int, end);
    lemma_entries_between(m, start as int, end);
    let i = choose|i: int| 0 <= i < inside.len() && #[trigger] inside[i].0 == start;
    assert(inside.len() == 1) by {
        if inside.len() > 1 {
            let j: int = if i == 0 {
                1
            } else {
                0
            };
            assert(m.contains_key(inside[j].0));
            assert(m.contains_key(inside[i].0));
            if j < i {
                assert(inside[j].0 < inside[i].0);
            } else {
                assert(inside[i].0 < inside[j].0);
            }
        }
    }
}

/// A hash is referenced just where some block reads it.
pub proof fn law_referenced_means_read(map: LbaMap, hash: ContentHash)
    requires
        map.wf(),
    ensures
        claim_keys(map.entries(), hash).len() > 0 <==> exists|lba: int|
            #![trigger map.at(lba)]
            map.at(lba) is Some && (map.at(lba)->0).0 == hash,
{
    let m = map.entries();
    if claim_keys(m, hash).len() > 0 {
        lemma_counted_claims(m, hash);
        let k = choose|k: u64| m.contains_key(k) && m[k].hash == hash;
        assert(covers(m, k, k as int));
        lemma_block_claim(m, k, k as int);
        assert(map.at(k as int) is Some);
    }
    if exists|lba: int|
        #![trigger map.at(lba)]
        map.at(lba) is Some && (map.at(lba)->0).0 == hash {
        let lba = choose|lba: int|
            #![trigger map.at(lba)]
            map.at(lba) is Some && (map.at(lba)->0).0 == hash;
        let k = choose|k: u64| covers(m, k, lba);
        lemma_block_claim(m, k, lba);
        lemma_claimed_counts(m, k);
    }
}

/// A write that is held against the claimants there takes the blocks no one has
/// and the blocks of lower claimants; a block of the same claimant or a higher
/// one stays, and so does every block outside.
pub proof fn law_a_newer_claim_stays(
    before: LbaMap,
    after: LbaMap,
    start: u64,
    length: u32,
    hash: ContentHash,
    claimant: Ulid,
    taken: u32,
    lba: int,
)
    requires
        before.wf(),
        before.admits(after, Blocking::SameOrHigher, start, length, hash, claimant, taken),
    ensures
        !(start <= lba < start + length) ==> after.at(lba) == before.at(lba),
        start <= lba < start + length && before.at(lba) is None ==> after.at(lba) == Some(
            (hash, lba - start, claimant),
        ),
        start <= lba < start + length && before.at(lba) is Some ==> after.at(lba) == (if (
        before.at(lba)->0).2.value < claimant.value {
            Some((hash, lba - start, claimant))
        } else {
            before.at(lba)
        }),
{
    lemma_kept_at(before.entries(), Blocking::SameOrHigher, hash, claimant, lba);
}

/// A rewrite's claim takes the blocks no one has, those of the inputs it
/// consumes, its own, and those of the same content under a lower claimant. Any
/// other claim is a write it did not carry, and stays, however low.
pub proof fn law_a_rewrite_takes_only_what_it_carried(
    before: LbaMap,
    after: LbaMap,
    inputs: &[Ulid],
    start: u64,
    length: u32,
    hash: ContentHash,
    claimant: Ulid,
    taken: u32,
    lba: int,
)
    requires
        before.wf(),
        before.admits(after, Blocking::Consuming(inputs), start, length, hash, claimant, taken),
    ensures
        !(start <= lba < start + length) ==> after.at(lba) == before.at(lba),
        start <= lba < start + length && before.at(lba) is None ==> after.at(lba) == Some(
            (hash, lba - start, claimant),
        ),
        start <= lba < start + length && before.at(lba) is Some ==> {
            let (h, _, c) = before.at(lba)->0;
            if inputs@.contains(c) || c == claimant || (h == hash && c.value < claimant.value) {
                after.at(lba) == Some((hash, lba - start, claimant))
            } else {
                after.at(lba) == before.at(lba)
            }
        },
{
    lemma_kept_at(before.entries(), Blocking::Consuming(inputs), hash, claimant, lba);
}

/// Rebuilt from its segment, a rewrite takes the blocks of every claimant up to
/// its highest input, its own, and those of the same content under a lower
/// claimant. A claim above the horizon is a later write, and stays.
pub proof fn law_later_writes_outlive_a_rewrite(
    before: LbaMap,
    after: LbaMap,
    horizon: Ulid,
    start: u64,
    length: u32,
    hash: ContentHash,
    claimant: Ulid,
    taken: u32,
    lba: int,
)
    requires
        before.wf(),
        before.admits(after, Blocking::AboveHorizon(horizon), start, length, hash, claimant, taken),
    ensures
        !(start <= lba < start + length) ==> after.at(lba) == before.at(lba),
        start <= lba < start + length && before.at(lba) is None ==> after.at(lba) == Some(
            (hash, lba - start, claimant),
        ),
        start <= lba < start + length && before.at(lba) is Some ==> {
            let (h, _, c) = before.at(lba)->0;
            if c.value <= horizon.value || c == claimant || (h == hash && c.value
                < claimant.value) {
                after.at(lba) == Some((hash, lba - start, claimant))
            } else {
                after.at(lba) == before.at(lba)
            }
        },
{
    lemma_kept_at(before.entries(), Blocking::AboveHorizon(horizon), hash, claimant, lba);
}

/// The blocks of `[from, end)` that hold the claim and did not before, or held
/// it and were free to it.
proof fn lemma_free_bounds(
    m: Map<u64, MapEntry>,
    rule: Blocking,
    hash: ContentHash,
    claimant: Ulid,
    from: int,
    end: int,
)
    requires
        from <= end,
    ensures
        free_blocks(m, rule, hash, claimant, from, end) <= end - from,
        free_blocks(m, rule, hash, claimant, from, end) == 0 <==> forall|x: int|
            from <= x < end ==> #[trigger] kept_at(m, rule, hash, claimant, x),
        free_blocks(m, rule, hash, claimant, from, end) == end - from <==> forall|x: int|
            from <= x < end ==> !#[trigger] kept_at(m, rule, hash, claimant, x),
    decreases end - from,
{
    if from < end {
        lemma_free_bounds(m, rule, hash, claimant, from + 1, end);
        assert(kept_at(m, rule, hash, claimant, from) || !kept_at(m, rule, hash, claimant, from));
    }
}

/// What an admission says it took: nothing where every block of the range is
/// kept, the whole range where none is, and never more than the range.
pub proof fn law_an_admission_counts_what_it_took(
    before: LbaMap,
    after: LbaMap,
    rule: Blocking,
    start: u64,
    length: u32,
    hash: ContentHash,
    claimant: Ulid,
    taken: u32,
)
    requires
        before.wf(),
        before.admits(after, rule, start, length, hash, claimant, taken),
    ensures
        taken <= length,
        taken == 0 <==> forall|lba: int|
            start <= lba < start + length ==> {
                &&& #[trigger] before.at(lba) is Some
                &&& rule.keeps((before.at(lba)->0).2, (before.at(lba)->0).0, hash, claimant)
            },
        taken == length ==> forall|lba: int|
            start <= lba < start + length ==> #[trigger] after.at(lba) == Some(
                (hash, lba - start, claimant),
            ),
{
    let m = before.entries();
    let (from, end) = (start as int, start + length);
    lemma_free_bounds(m, rule, hash, claimant, from, end);
    if taken == 0 {
        assert forall|lba: int| from <= lba < end implies {
            &&& #[trigger] before.at(lba) is Some
            &&& rule.keeps((before.at(lba)->0).2, (before.at(lba)->0).0, hash, claimant)
        } by {
            assert(kept_at(m, rule, hash, claimant, lba));
            lemma_kept_at(m, rule, hash, claimant, lba);
        }
    }
    if forall|lba: int|
        from <= lba < end ==> {
            &&& #[trigger] before.at(lba) is Some
            &&& rule.keeps((before.at(lba)->0).2, (before.at(lba)->0).0, hash, claimant)
        } {
        assert forall|x: int| from <= x < end implies #[trigger] kept_at(
            m,
            rule,
            hash,
            claimant,
            x,
        ) by {
            assert(before.at(x) is Some);
            lemma_kept_at(m, rule, hash, claimant, x);
        }
    }
    if taken == length {
        assert forall|lba: int| from <= lba < end implies #[trigger] after.at(lba) == Some(
            (hash, lba - start, claimant),
        ) by {
            assert(!kept_at(m, rule, hash, claimant, lba));
        }
    }
}

/// An entry kept for resolution alone makes no claim, whatever the rule; every
/// other entry claims its range as a write of its content from its start.
pub proof fn law_a_canonical_entry_claims_nothing(
    before: LbaMap,
    after: LbaMap,
    entry: SegmentEntry,
    rule: Blocking,
    claimant: Ulid,
    taken: u32,
    lba: int,
)
    requires
        before.wf(),
        before.registers(after, entry, rule, claimant, taken),
    ensures
        entry.kind is CanonicalData || entry.kind is CanonicalInline || entry.kind
            is CanonicalDelta ==> after == before && taken == 0,
        !(entry.start_lba <= lba < entry.start_lba + entry.lba_length) ==> after.at(lba)
            == before.at(lba),
        !(entry.kind is CanonicalData || entry.kind is CanonicalInline || entry.kind
            is CanonicalDelta) && entry.start_lba <= lba < entry.start_lba + entry.lba_length
            && before.at(lba) is None ==> after.at(lba) == Some(
            (entry.hash, lba - entry.start_lba, claimant),
        ),
{
    lemma_kept_at(before.entries(), rule, entry.hash, claimant, lba);
}

/// Moving claims changes what no block reads. A block of the range that reads
/// the hash goes to the new claimant where its own is lower, or is the input
/// consumed; a block of any other content keeps its claimant, wherever it is,
/// and none ever gets another claimant than the new one.
pub proof fn law_moving_claims_changes_no_read(
    before: LbaMap,
    after: LbaMap,
    start: u64,
    length: u32,
    hash: ContentHash,
    claimant: Ulid,
    consumed: Option<Ulid>,
    moved: u32,
    lba: int,
)
    requires
        before.wf(),
        before.moves(after, start, length, hash, claimant, consumed, moved),
    ensures
        before.at(lba) is None ==> after.at(lba) is None,
        before.at(lba) is Some ==> {
            let (h, b, c) = before.at(lba)->0;
            &&& after.at(lba) is Some
            &&& (after.at(lba)->0).0 == h && (after.at(lba)->0).1 == b
            &&& (after.at(lba)->0).2 == c || (after.at(lba)->0).2 == claimant
            &&& h != hash ==> after.at(lba) == before.at(lba)
            &&& !(c.value < claimant.value || consumed == Some(c)) ==> after.at(lba) == before.at(lba)
            &&& h == hash && start <= lba < start + length && (c.value < claimant.value || consumed
                == Some(c)) ==> (after.at(lba)->0).2 == claimant
        },
{
    let m = before.entries();
    let r = after.entries();
    assert(after.at(lba) is Some == before.at(lba) is Some);
    if before.at(lba) is Some {
        let k = choose|k: u64| covers(m, k, lba);
        lemma_block_claim(m, k, lba);
        assert(r.contains_key(k));
        assert(covers(r, k, lba));
        lemma_block_claim(r, k, lba);
    }
}

/// An entry of a segment yields to a claim of a later segment and to no other:
/// of two entries of one segment the later holds the block.
pub proof fn law_the_later_of_equals_holds(
    before: LbaMap,
    after: LbaMap,
    start: u64,
    length: u32,
    hash: ContentHash,
    claimant: Ulid,
    taken: u32,
    lba: int,
)
    requires
        before.wf(),
        before.admits(after, Blocking::Higher, start, length, hash, claimant, taken),
        start <= lba < start + length,
    ensures
        before.at(lba) is None || (before.at(lba)->0).2.value <= claimant.value ==> after.at(lba)
            == Some((hash, lba - start, claimant)),
        before.at(lba) is Some && (before.at(lba)->0).2.value > claimant.value ==> after.at(lba)
            == before.at(lba),
{
    lemma_kept_at(before.entries(), Blocking::Higher, hash, claimant, lba);
}

/// The blocks of the range that a claim takes.
pub open spec fn blocks_taken(
    before: LbaMap,
    rule: Blocking,
    hash: ContentHash,
    claimant: Ulid,
    from: int,
    end: int,
) -> Set<int> {
    Set::new(
        |lba: int|
            from <= lba < end && (before.at(lba) is None || !rule.keeps(
                (before.at(lba)->0).2,
                (before.at(lba)->0).0,
                hash,
                claimant,
            )),
    )
}

proof fn lemma_blocks_taken(
    before: LbaMap,
    rule: Blocking,
    hash: ContentHash,
    claimant: Ulid,
    from: int,
    end: int,
)
    requires
        before.wf(),
        from <= end,
    ensures
        blocks_taken(before, rule, hash, claimant, from, end).finite(),
        blocks_taken(before, rule, hash, claimant, from, end).len() == free_blocks(
            before.entries(),
            rule,
            hash,
            claimant,
            from,
            end,
        ),
    decreases end - from,
{
    let all = blocks_taken(before, rule, hash, claimant, from, end);
    if from < end {
        lemma_blocks_taken(before, rule, hash, claimant, from + 1, end);
        lemma_kept_at(before.entries(), rule, hash, claimant, from);
        let rest = blocks_taken(before, rule, hash, claimant, from + 1, end);
        if kept_at(before.entries(), rule, hash, claimant, from) {
            assert(all =~= rest);
        } else {
            assert(all =~= rest.insert(from));
        }
    } else {
        assert(all =~= Set::<int>::empty());
    }
}

/// What an admission says it took is the number of the blocks that it took:
/// those that no one had, and those of claims that did not keep theirs.
pub proof fn law_an_admission_counts_each_block(
    before: LbaMap,
    after: LbaMap,
    rule: Blocking,
    start: u64,
    length: u32,
    hash: ContentHash,
    claimant: Ulid,
    taken: u32,
)
    requires
        before.wf(),
        before.admits(after, rule, start, length, hash, claimant, taken),
    ensures
        taken == blocks_taken(
            before,
            rule,
            hash,
            claimant,
            start as int,
            start + length,
        ).len(),
{
    lemma_blocks_taken(before, rule, hash, claimant, start as int, start + length);
}

} // verus!
