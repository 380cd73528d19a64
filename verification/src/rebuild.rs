//! Rebuilding the block map from the segments of a fork chain.
//!
//! A layer's flush segments are admitted by highest claimant, in whatever
//! order they were listed. Its compaction outputs come afterwards, by
//! ascending ULID, each overriding only what its pass had in view: the
//! claims at or below its highest input.

use vstd::prelude::*;

use crate::ids::{ContentHash, Ulid};
use crate::lbamap::{Blocking, LbaMap, MapEntry};
use crate::order::stable_order;
use crate::segment::SegmentEntry;

verus! {

/// A segment index as read from disk.
pub struct ParsedSegment {
    pub ulid: Ulid,
    pub entries: Vec<SegmentEntry>,
    /// The segments this one consumed; empty for a flush.
    pub inputs: Vec<Ulid>,
}

impl ParsedSegment {
    /// Every entry stays inside the block range.
    pub open spec fn in_range(&self) -> bool {
        forall|i: int| 0 <= i < self.entries@.len() ==> #[trigger] self.entries@[i].in_range()
    }
}

// ---------------------------------------------------------------------------
// The model
// ---------------------------------------------------------------------------

/// The map after `entry` has been registered by `rule`.
pub open spec fn registered(
    m: Map<u64, MapEntry>,
    entry: SegmentEntry,
    rule: Blocking,
    claimant: Ulid,
) -> Map<u64, MapEntry> {
    if entry.kind.canonical_only() {
        m
    } else {
        crate::lbamap::installed(
            m,
            rule,
            entry.hash,
            claimant,
            entry.start_lba as int,
            entry.start_lba + entry.lba_length,
            entry.start_lba as int,
            m,
        )
    }
}

/// The map after `entries` have been registered in order by `rule`.
pub open spec fn registered_all(
    m: Map<u64, MapEntry>,
    entries: Seq<SegmentEntry>,
    rule: Blocking,
    claimant: Ulid,
) -> Map<u64, MapEntry>
    decreases entries.len(),
{
    if entries.len() == 0 {
        m
    } else {
        registered(
            registered_all(m, entries.drop_last(), rule, claimant),
            entries.last(),
            rule,
            claimant,
        )
    }
}

/// The map after the flush segments of `segments` have been admitted in
/// order.
pub open spec fn flush_tier(m: Map<u64, MapEntry>, segments: Seq<ParsedSegment>) -> Map<
    u64,
    MapEntry,
>
    decreases segments.len(),
{
    if segments.len() == 0 {
        m
    } else {
        let before = flush_tier(m, segments.drop_last());
        let s = segments.last();
        if s.inputs@.len() == 0 {
            registered_all(before, s.entries@, Blocking::Higher, s.ulid)
        } else {
            before
        }
    }
}

/// The compaction outputs among `segments`, in order.
pub open spec fn outputs_of(segments: Seq<ParsedSegment>) -> Seq<ParsedSegment>
    decreases segments.len(),
{
    if segments.len() == 0 {
        segments
    } else if segments.last().inputs@.len() > 0 {
        outputs_of(segments.drop_last()).push(segments.last())
    } else {
        outputs_of(segments.drop_last())
    }
}

/// The highest of `ulids`.
pub open spec fn highest(ulids: Seq<Ulid>) -> Option<Ulid>
    decreases ulids.len(),
{
    if ulids.len() == 0 {
        None
    } else {
        Some(later(highest(ulids.drop_last()), ulids.last()))
    }
}

/// The higher of a ULID already seen, if there is one, and `ulid`.
pub open spec fn later(seen: Option<Ulid>, ulid: Ulid) -> Ulid {
    match seen {
        Some(u) => if u.value < ulid.value {
            ulid
        } else {
            u
        },
        None => ulid,
    }
}

/// The map after the first `n` outputs, taken by `order`, have been admitted
/// under the horizon of their inputs.
pub open spec fn output_tier(
    m: Map<u64, MapEntry>,
    outputs: Seq<ParsedSegment>,
    order: Seq<int>,
    n: int,
) -> Map<u64, MapEntry>
    decreases n,
{
    if n <= 0 {
        m
    } else {
        let s = outputs[order[n - 1]];
        registered_all(
            output_tier(m, outputs, order, n - 1),
            s.entries@,
            Blocking::AboveHorizon(highest(s.inputs@)->0),
            s.ulid,
        )
    }
}

/// The ULIDs of `segments` as ordering keys.
pub open spec fn ulid_keys(segments: Seq<ParsedSegment>) -> Seq<u128> {
    segments.map_values(|s: ParsedSegment| s.ulid.value)
}

/// The map after one layer.
pub open spec fn rebuilt_layer(m: Map<u64, MapEntry>, segments: Seq<ParsedSegment>) -> Map<
    u64,
    MapEntry,
> {
    let outputs = outputs_of(segments);
    output_tier(
        flush_tier(m, segments),
        outputs,
        crate::order::stable_order_of(ulid_keys(outputs)),
        outputs.len() as int,
    )
}

/// The map after `layers`, oldest first.
pub open spec fn rebuilt(m: Map<u64, MapEntry>, layers: Seq<Vec<ParsedSegment>>) -> Map<
    u64,
    MapEntry,
>
    decreases layers.len(),
{
    if layers.len() == 0 {
        m
    } else {
        rebuilt_layer(rebuilt(m, layers.drop_last()), layers.last()@)
    }
}

/// The highest ULID among the segments of one layer and one seen before.
pub open spec fn ceiling_after(seen: Option<Ulid>, segments: Seq<ParsedSegment>) -> Option<Ulid>
    decreases segments.len(),
{
    if segments.len() == 0 {
        seen
    } else {
        Some(later(ceiling_after(seen, segments.drop_last()), segments.last().ulid))
    }
}

/// The highest ULID among the segments of `layers`.
pub open spec fn ceiling_of(layers: Seq<Vec<ParsedSegment>>) -> Option<Ulid>
    decreases layers.len(),
{
    if layers.len() == 0 {
        None
    } else {
        ceiling_after(ceiling_of(layers.drop_last()), layers.last()@)
    }
}

// ---------------------------------------------------------------------------
// The code
// ---------------------------------------------------------------------------

/// The highest of `ulids`.
pub fn highest_ulid(ulids: &[Ulid]) -> (found: Option<Ulid>)
    ensures
        found == highest(ulids@),
{
    let mut found: Option<Ulid> = None;
    let mut i: usize = 0;
    while i < ulids.len()
        invariant
            i <= ulids.len(),
            found == highest(ulids@.take(i as int)),
        decreases ulids.len() - i,
    {
        assert(ulids@.take(i as int + 1).drop_last() =~= ulids@.take(i as int));
        found = Some(later_ulid(found, ulids[i]));
        i += 1;
    }
    assert(ulids@.take(ulids@.len() as int) =~= ulids@);
    found
}

fn later_ulid(seen: Option<Ulid>, ulid: Ulid) -> (u: Ulid)
    ensures
        u == later(seen, ulid),
{
    match seen {
        Some(u) => if u.value < ulid.value {
            ulid
        } else {
            u
        },
        None => ulid,
    }
}

/// Register every one of `entries` in order by `Blocking::Higher`, or by
/// `Blocking::AboveHorizon` where a horizon is given.
fn register_all(
    map: &mut LbaMap,
    entries: &Vec<SegmentEntry>,
    claimant: Ulid,
    horizon: Option<Ulid>,
)
    requires
        old(map).wf(),
        forall|i: int| 0 <= i < entries@.len() ==> #[trigger] entries@[i].in_range(),
    ensures
        final(map).wf(),
        final(map).entries() == registered_all(
            old(map).entries(),
            entries@,
            match horizon {
                Some(h) => Blocking::AboveHorizon(h),
                None => Blocking::Higher,
            },
            claimant,
        ),
{
    let ghost m = map.entries();
    let ghost rule = match horizon {
        Some(h) => Blocking::AboveHorizon(h),
        None => Blocking::Higher,
    };
    let mut i: usize = 0;
    while i < entries.len()
        invariant
            i <= entries.len(),
            map.wf(),
            forall|j: int| 0 <= j < entries@.len() ==> #[trigger] entries@[j].in_range(),
            map.entries() == registered_all(m, entries@.take(i as int), rule, claimant),
            rule == (match horizon {
                Some(h) => Blocking::AboveHorizon(h),
                None => Blocking::Higher,
            }),
        decreases entries.len() - i,
    {
        assert(entries@.take(i as int + 1).drop_last() =~= entries@.take(i as int));
        let entry = &entries[i];
        assert(entry.in_range());
        match horizon {
            Some(h) => {
                let _ = map.register_entry_with_horizon(entry, claimant, h);
            },
            None => {
                let _ = map.register_entry_if_newer(entry, claimant);
            },
        }
        i += 1;
    }
    assert(entries@.take(entries@.len() as int) =~= entries@);
}

/// Admit one layer's segments, and raise `ceiling` to the highest of their
/// ULIDs.
pub fn rebuild_layer(
    map: &mut LbaMap,
    ceiling: &mut Option<Ulid>,
    segments: &Vec<ParsedSegment>,
)
    requires
        old(map).wf(),
        forall|i: int| 0 <= i < segments@.len() ==> #[trigger] segments@[i].in_range(),
    ensures
        final(map).wf(),
        final(map).entries() == rebuilt_layer(old(map).entries(), segments@),
        *final(ceiling) == ceiling_after(*old(ceiling), segments@),
{
    let ghost m = map.entries();
    let ghost seen = *ceiling;
    let mut outputs: Vec<usize> = Vec::new();
    let mut keys: Vec<u128> = Vec::new();
    let mut i: usize = 0;
    while i < segments.len()
        invariant
            i <= segments.len(),
            map.wf(),
            forall|j: int| 0 <= j < segments@.len() ==> #[trigger] segments@[j].in_range(),
            map.entries() == flush_tier(m, segments@.take(i as int)),
            *ceiling == ceiling_after(seen, segments@.take(i as int)),
            outputs@.len() == outputs_of(segments@.take(i as int)).len(),
            keys@ =~= ulid_keys(outputs_of(segments@.take(i as int))),
            forall|j: int|
                0 <= j < outputs@.len() ==> #[trigger] outputs@[j] < segments@.len()
                    && segments@[outputs@[j] as int] == outputs_of(segments@.take(i as int))[j]
                    && segments@[outputs@[j] as int].inputs@.len() > 0,
        decreases segments.len() - i,
    {
        assert(segments@.take(i as int + 1).drop_last() =~= segments@.take(i as int));
        let segment = &segments[i];
        assert(segment.in_range());
        *ceiling = Some(later_ulid(*ceiling, segment.ulid));
        if segment.inputs.len() == 0 {
            register_all(map, &segment.entries, segment.ulid, None);
        } else {
            outputs.push(i);
            keys.push(segment.ulid.value);
        }
        i += 1;
    }
    assert(segments@.take(segments@.len() as int) =~= segments@);
    let order = stable_order(&keys);
    let ghost ints = order@.map_values(|x: usize| x as int);
    let ghost outs = outputs_of(segments@);
    let ghost flushed = map.entries();
    let mut n: usize = 0;
    while n < order.len()
        invariant
            n <= order.len(),
            order@.len() == outputs@.len(),
            outputs@.len() == outs.len(),
            map.wf(),
            ints == order@.map_values(|x: usize| x as int),
            forall|j: int| 0 <= j < ints.len() ==> 0 <= #[trigger] ints[j] < outs.len(),
            forall|j: int| 0 <= j < segments@.len() ==> #[trigger] segments@[j].in_range(),
            forall|j: int|
                0 <= j < outputs@.len() ==> #[trigger] outputs@[j] < segments@.len()
                    && segments@[outputs@[j] as int] == outs[j]
                    && segments@[outputs@[j] as int].inputs@.len() > 0,
            map.entries() == output_tier(flushed, outs, ints, n as int),
        decreases order.len() - n,
    {
        assert(ints[n as int] == order@[n as int]);
        let segment = &segments[outputs[order[n]]];
        assert(segment.in_range());
        let horizon = highest_ulid(segment.inputs.as_slice());
        register_all(map, &segment.entries, segment.ulid, horizon);
        n += 1;
    }
}

/// Rebuild the block map from `layers`, the root ancestor's segments first
/// and the live fork's last, and report the highest ULID read.
pub fn rebuild_segments_with_ceiling(layers: &Vec<Vec<ParsedSegment>>) -> (rebuilt_map: (
    LbaMap,
    Option<Ulid>,
))
    requires
        forall|i: int, j: int|
            0 <= i < layers@.len() && 0 <= j < layers@[i]@.len() ==> (
            #[trigger] layers@[i]@[j]).in_range(),
    ensures
        rebuilt_map.0.wf(),
        rebuilt_map.0.entries() == rebuilt(Map::<u64, MapEntry>::empty(), layers@),
        rebuilt_map.1 == ceiling_of(layers@),
{
    let mut map = LbaMap::new();
    let mut ceiling: Option<Ulid> = None;
    let mut i: usize = 0;
    while i < layers.len()
        invariant
            i <= layers.len(),
            map.wf(),
            forall|a: int, b: int|
                0 <= a < layers@.len() && 0 <= b < layers@[a]@.len() ==> (
                #[trigger] layers@[a]@[b]).in_range(),
            map.entries() == rebuilt(Map::<u64, MapEntry>::empty(), layers@.take(i as int)),
            ceiling == ceiling_of(layers@.take(i as int)),
        decreases layers.len() - i,
    {
        assert(layers@.take(i as int + 1).drop_last() =~= layers@.take(i as int));
        rebuild_layer(&mut map, &mut ceiling, &layers[i]);
        i += 1;
    }
    assert(layers@.take(layers@.len() as int) =~= layers@);
    (map, ceiling)
}

/// Rebuild the block map from `layers`, the root ancestor's segments first
/// and the live fork's last.
pub fn rebuild_segments(layers: &Vec<Vec<ParsedSegment>>) -> (map: LbaMap)
    requires
        forall|i: int, j: int|
            0 <= i < layers@.len() && 0 <= j < layers@[i]@.len() ==> (
            #[trigger] layers@[i]@[j]).in_range(),
    ensures
        map.wf(),
        map.entries() == rebuilt(Map::<u64, MapEntry>::empty(), layers@),
{
    rebuild_segments_with_ceiling(layers).0
}

// ---------------------------------------------------------------------------
// Laws
// ---------------------------------------------------------------------------

/// What a block holds after `entry` has been registered over `prev`.
pub open spec fn block_after(
    prev: Option<(ContentHash, int, Ulid)>,
    entry: SegmentEntry,
    rule: Blocking,
    claimant: Ulid,
    lba: int,
) -> Option<(ContentHash, int, Ulid)> {
    if !entry.kind.canonical_only() && entry.start_lba <= lba < entry.start_lba + entry.lba_length
        && !(prev matches Some((h, _, c)) && rule.keeps(c, h, entry.hash, claimant)) {
        Some((entry.hash, lba - entry.start_lba, claimant))
    } else {
        prev
    }
}

/// Registering an entry changes each block as `block_after` says.
pub proof fn law_register_by_block(
    m: Map<u64, MapEntry>,
    entry: SegmentEntry,
    rule: Blocking,
    claimant: Ulid,
    lba: int,
)
    requires
        crate::lbamap::extents_wf(m),
        entry.in_range(),
    ensures
        crate::lbamap::extents_wf(registered(m, entry, rule, claimant)),
        crate::lbamap::block_claim(registered(m, entry, rule, claimant), lba) == block_after(
            crate::lbamap::block_claim(m, lba),
            entry,
            rule,
            claimant,
            lba,
        ),
{
    if !entry.kind.canonical_only() {
        crate::lbamap::lemma_installed(
            m,
            rule,
            entry.hash,
            claimant,
            entry.start_lba as int,
            entry.start_lba + entry.lba_length,
            entry.start_lba as int,
            m,
        );
        crate::lbamap::lemma_kept_at(m, rule, entry.hash, claimant, lba);
    }
}

/// The claim a segment's own entries make on a block: that of the last one
/// that covers it.
pub open spec fn own_claim(entries: Seq<SegmentEntry>, claimant: Ulid, lba: int) -> Option<
    (ContentHash, int, Ulid),
>
    decreases entries.len(),
{
    if entries.len() == 0 {
        None
    } else {
        let e = entries.last();
        if !e.kind.canonical_only() && e.start_lba <= lba < e.start_lba + e.lba_length {
            Some((e.hash, lba - e.start_lba, claimant))
        } else {
            own_claim(entries.drop_last(), claimant, lba)
        }
    }
}

/// A flush segment takes a block it claims unless a higher claimant holds
/// it, and its last entry on the block wins over its earlier ones.
pub proof fn law_highest_claimant_wins(
    m: Map<u64, MapEntry>,
    entries: Seq<SegmentEntry>,
    claimant: Ulid,
    lba: int,
)
    requires
        crate::lbamap::extents_wf(m),
        forall|i: int| 0 <= i < entries.len() ==> #[trigger] entries[i].in_range(),
    ensures
        crate::lbamap::extents_wf(registered_all(m, entries, Blocking::Higher, claimant)),
        crate::lbamap::block_claim(
            registered_all(m, entries, Blocking::Higher, claimant),
            lba,
        ) == (if own_claim(entries, claimant, lba) is Some && !(crate::lbamap::block_claim(m, lba)
            matches Some((_, _, c)) && c.value > claimant.value) {
            own_claim(entries, claimant, lba)
        } else {
            crate::lbamap::block_claim(m, lba)
        }),
    decreases entries.len(),
{
    if entries.len() > 0 {
        let before = entries.drop_last();
        assert(forall|i: int| 0 <= i < before.len() ==> before[i] == entries[i]);
        law_highest_claimant_wins(m, before, claimant, lba);
        lemma_own_claimant(before, claimant, lba);
        assert(entries.last().in_range());
        law_register_by_block(
            registered_all(m, before, Blocking::Higher, claimant),
            entries.last(),
            Blocking::Higher,
            claimant,
            lba,
        );
    }
}

/// Swapping two neighbouring flush segments of a listing changes what no
/// block holds, so the flush tier does not depend on the listing order.
pub proof fn law_flush_order_is_free(
    m: Map<u64, MapEntry>,
    listed: Seq<ParsedSegment>,
    a: ParsedSegment,
    b: ParsedSegment,
    lba: int,
)
    requires
        crate::lbamap::extents_wf(m),
        forall|i: int| 0 <= i < listed.len() ==> #[trigger] listed[i].in_range(),
        a.in_range(),
        b.in_range(),
        a.ulid != b.ulid,
    ensures
        crate::lbamap::block_claim(flush_tier(m, listed.push(a).push(b)), lba)
            == crate::lbamap::block_claim(flush_tier(m, listed.push(b).push(a)), lba),
{
    let base = flush_tier(m, listed);
    lemma_flush_tier_wf(m, listed);
    lemma_flush_tier_push(m, listed, a);
    lemma_flush_tier_push(m, listed, b);
    lemma_flush_tier_push(m, listed.push(a), b);
    lemma_flush_tier_push(m, listed.push(b), a);
    law_highest_claimant_wins(base, a.entries@, a.ulid, lba);
    law_highest_claimant_wins(base, b.entries@, b.ulid, lba);
    law_highest_claimant_wins(flush_tier(m, listed.push(a)), b.entries@, b.ulid, lba);
    law_highest_claimant_wins(flush_tier(m, listed.push(b)), a.entries@, a.ulid, lba);
    lemma_own_claimant(a.entries@, a.ulid, lba);
    lemma_own_claimant(b.entries@, b.ulid, lba);
    assert(a.ulid.value != b.ulid.value);
}

proof fn lemma_own_claimant(entries: Seq<SegmentEntry>, claimant: Ulid, lba: int)
    ensures
        own_claim(entries, claimant, lba) matches Some((_, _, c)) ==> c == claimant,
    decreases entries.len(),
{
    if entries.len() > 0 {
        lemma_own_claimant(entries.drop_last(), claimant, lba);
    }
}

proof fn lemma_flush_tier_push(
    m: Map<u64, MapEntry>,
    listed: Seq<ParsedSegment>,
    s: ParsedSegment,
)
    requires
        crate::lbamap::extents_wf(flush_tier(m, listed)),
        s.in_range(),
    ensures
        crate::lbamap::extents_wf(flush_tier(m, listed.push(s))),
        flush_tier(m, listed.push(s)) == (if s.inputs@.len() == 0 {
            registered_all(flush_tier(m, listed), s.entries@, Blocking::Higher, s.ulid)
        } else {
            flush_tier(m, listed)
        }),
{
    assert(listed.push(s).drop_last() =~= listed);
    law_highest_claimant_wins(flush_tier(m, listed), s.entries@, s.ulid, 0);
}

proof fn lemma_flush_tier_wf(m: Map<u64, MapEntry>, listed: Seq<ParsedSegment>)
    requires
        crate::lbamap::extents_wf(m),
        forall|i: int| 0 <= i < listed.len() ==> #[trigger] listed[i].in_range(),
    ensures
        crate::lbamap::extents_wf(flush_tier(m, listed)),
    decreases listed.len(),
{
    if listed.len() > 0 {
        lemma_flush_tier_wf(m, listed.drop_last());
        assert(listed.last().in_range());
        law_highest_claimant_wins(
            flush_tier(m, listed.drop_last()),
            listed.last().entries@,
            listed.last().ulid,
            0,
        );
    }
}

/// The highest of some ULIDs is one of them, and none is above it.
pub proof fn law_the_highest_is_above_all(ulids: Seq<Ulid>)
    ensures
        highest(ulids) is None <==> ulids.len() == 0,
        highest(ulids) matches Some(u) ==> ulids.contains(u) && forall|i: int|
            0 <= i < ulids.len() ==> (#[trigger] ulids[i]).value <= u.value,
    decreases ulids.len(),
{
    if ulids.len() > 0 {
        let before = ulids.drop_last();
        law_the_highest_is_above_all(before);
        assert(forall|i: int| 0 <= i < before.len() ==> #[trigger] before[i] == ulids[i]);
        assert(ulids[ulids.len() - 1] == ulids.last());
        if before.len() > 0 {
            let j = choose|j: int| 0 <= j < before.len() && before[j] == highest(before)->0;
            assert(ulids[j] == highest(before)->0);
        }
        let u = highest(ulids)->0;
        assert forall|i: int| 0 <= i < ulids.len() implies (#[trigger] ulids[i]).value
            <= u.value by {
            if i < before.len() {
                assert(before[i] == ulids[i]);
            }
        }
    }
}

/// Some segment of the layers has the ULID.
pub open spec fn is_listed(layers: Seq<Vec<ParsedSegment>>, ulid: Ulid) -> bool {
    exists|l: int, s: int|
        #![trigger layers[l]@[s]]
        0 <= l < layers.len() && 0 <= s < layers[l]@.len() && layers[l]@[s].ulid == ulid
}

proof fn lemma_ceiling_after(seen: Option<Ulid>, segments: Seq<ParsedSegment>)
    ensures
        ceiling_after(seen, segments) is None <==> seen is None && segments.len() == 0,
        ceiling_after(seen, segments) matches Some(u) ==> {
            &&& seen is Some ==> (seen->0).value <= u.value
            &&& forall|s: int|
                0 <= s < segments.len() ==> (#[trigger] segments[s]).ulid.value <= u.value
            &&& seen == Some(u) || exists|s: int|
                0 <= s < segments.len() && (#[trigger] segments[s]).ulid == u
        },
    decreases segments.len(),
{
    if segments.len() > 0 {
        let before = segments.drop_last();
        lemma_ceiling_after(seen, before);
        assert(forall|s: int| 0 <= s < before.len() ==> #[trigger] before[s] == segments[s]);
        assert(segments[segments.len() - 1] == segments.last());
        if ceiling_after(seen, before) is Some && seen != ceiling_after(seen, before) {
            let s = choose|s: int|
                0 <= s < before.len() && (#[trigger] before[s]).ulid == ceiling_after(
                    seen,
                    before,
                )->0;
            assert(segments[s].ulid == before[s].ulid);
        }
        let u = ceiling_after(seen, segments)->0;
        assert forall|s: int| 0 <= s < segments.len() implies (#[trigger] segments[s]).ulid.value
            <= u.value by {
            if s < before.len() {
                assert(before[s] == segments[s]);
            }
        }
    }
}

/// The ceiling of a walk is the ULID of a segment it read, and no segment it
/// read is above it: nothing minted above it can collide with what is there.
pub proof fn law_the_ceiling_is_above_every_segment(layers: Seq<Vec<ParsedSegment>>)
    ensures
        ceiling_of(layers) is None ==> forall|l: int|
            0 <= l < layers.len() ==> (#[trigger] layers[l])@.len() == 0,
        ceiling_of(layers) matches Some(u) ==> is_listed(layers, u) && forall|l: int, s: int|
            #![trigger layers[l]@[s]]
            0 <= l < layers.len() && 0 <= s < layers[l]@.len() ==> layers[l]@[s].ulid.value
                <= u.value,
    decreases layers.len(),
{
    if layers.len() > 0 {
        let before = layers.drop_last();
        let last = layers.last()@;
        law_the_ceiling_is_above_every_segment(before);
        lemma_ceiling_after(ceiling_of(before), last);
        assert(forall|l: int| 0 <= l < before.len() ==> #[trigger] before[l] == layers[l]);
        assert(layers[layers.len() - 1] == layers.last());
        if let Some(u) = ceiling_of(layers) {
            if ceiling_of(before) == Some(u) {
                let (l, s) = choose|l: int, s: int|
                    #![trigger before[l]@[s]]
                    0 <= l < before.len() && 0 <= s < before[l]@.len() && before[l]@[s].ulid == u;
                assert(layers[l]@[s].ulid == u);
            } else {
                let s = choose|s: int| 0 <= s < last.len() && (#[trigger] last[s]).ulid == u;
                assert(layers[layers.len() - 1]@[s].ulid == u);
            }
            assert forall|l: int, s: int|
                #![trigger layers[l]@[s]]
                0 <= l < layers.len() && 0 <= s < layers[l]@.len() implies layers[l]@[s].ulid.value
                <= u.value by {
                if l < before.len() {
                    assert(before[l]@[s] == layers[l]@[s]);
                } else {
                    assert(last[s] == layers[l]@[s]);
                }
            }
        } else {
            assert forall|l: int| 0 <= l < layers.len() implies (#[trigger] layers[l])@.len()
                == 0 by {
                if l < before.len() {
                    assert(before[l]@.len() == 0);
                }
            }
        }
    }
}

/// A segment that consumed none counts as a flush, one that consumed some as an
/// output, and none is missed.
pub proof fn law_outputs_are_what_consumed(segments: Seq<ParsedSegment>)
    ensures
        forall|i: int|
            #![trigger outputs_of(segments)[i]]
            0 <= i < outputs_of(segments).len() ==> segments.contains(outputs_of(segments)[i])
                && outputs_of(segments)[i].inputs@.len() > 0,
        forall|s: int|
            #![trigger segments[s]]
            0 <= s < segments.len() && segments[s].inputs@.len() > 0 ==> outputs_of(
                segments,
            ).contains(segments[s]),
    decreases segments.len(),
{
    if segments.len() > 0 {
        let before = segments.drop_last();
        law_outputs_are_what_consumed(before);
        let (was, now) = (outputs_of(before), outputs_of(segments));
        assert forall|i: int| #![trigger now[i]] 0 <= i < now.len() implies segments.contains(now[i])
            && now[i].inputs@.len() > 0 by {
            if i < was.len() {
                assert(now[i] == was[i]);
                let j = choose|j: int| 0 <= j < before.len() && before[j] == was[i];
                assert(segments[j] == now[i]);
            } else {
                assert(segments[segments.len() - 1] == now[i]);
            }
        }
        assert forall|s: int| #![trigger segments[s]] 0 <= s < segments.len()
            && segments[s].inputs@.len() > 0 implies now.contains(segments[s]) by {
            if s < before.len() {
                assert(before[s] == segments[s]);
                assert(was.contains(before[s]));
                let i = choose|i: int| 0 <= i < was.len() && was[i] == before[s];
                assert(now[i] == segments[s]);
            } else {
                assert(now[now.len() - 1] == segments[s]);
            }
        }
    }
}

/// Some entry claims the block.
pub open spec fn claims_block(entries: Seq<SegmentEntry>, lba: int) -> bool {
    exists|i: int|
        0 <= i < entries.len() && entry_claims(#[trigger] entries[i], lba)
}

/// The entry claims the block.
pub open spec fn entry_claims(e: SegmentEntry, lba: int) -> bool {
    &&& !(e.kind is CanonicalData || e.kind is CanonicalInline || e.kind is CanonicalDelta)
    &&& e.start_lba <= lba < e.start_lba + e.lba_length
}

/// What a segment's own entries claim of a block is what the last of those that
/// claim it says; and they claim it just where one of them does.
pub proof fn law_the_last_entry_speaks_for_its_segment(
    entries: Seq<SegmentEntry>,
    claimant: Ulid,
    lba: int,
)
    ensures
        own_claim(entries, claimant, lba) is Some <==> claims_block(entries, lba),
        own_claim(entries, claimant, lba) matches Some((hash, block, c)) ==> c == claimant
            && exists|i: int|
            0 <= i < entries.len() && entry_claims(#[trigger] entries[i], lba) && hash
                == entries[i].hash && block == lba - entries[i].start_lba && forall|j: int|
                i < j < entries.len() ==> !entry_claims(#[trigger] entries[j], lba),
    decreases entries.len(),
{
    if entries.len() > 0 {
        let before = entries.drop_last();
        let e = entries.last();
        law_the_last_entry_speaks_for_its_segment(before, claimant, lba);
        assert(forall|i: int| 0 <= i < before.len() ==> #[trigger] before[i] == entries[i]);
        assert(entries[entries.len() - 1] == e);
        if !entry_claims(e, lba) {
            if claims_block(before, lba) {
                let i = choose|i: int|
                    0 <= i < before.len() && entry_claims(#[trigger] before[i], lba)
                        && (own_claim(before, claimant, lba)->0).0 == before[i].hash && (own_claim(
                        before,
                        claimant,
                        lba,
                    )->0).1 == lba - before[i].start_lba && forall|j: int|
                        i < j < before.len() ==> !entry_claims(#[trigger] before[j], lba);
                assert(entry_claims(entries[i], lba));
                assert forall|j: int| i < j < entries.len() implies !entry_claims(
                    #[trigger] entries[j],
                    lba,
                ) by {
                    if j < before.len() {
                        assert(before[j] == entries[j]);
                    }
                }
            } else if claims_block(entries, lba) {
                let i = choose|i: int|
                    0 <= i < entries.len() && entry_claims(#[trigger] entries[i], lba);
                assert(before[i] == entries[i]);
            }
        } else {
            assert(entry_claims(entries[entries.len() - 1], lba));
        }
    }
}

/// However the flush segments are listed, a block goes to the highest of those
/// that claim it: what it holds afterwards has a claimant no lower than any of
/// them, and is what the block held before or what its claimant claims.
pub proof fn law_the_newest_flush_holds_the_block(
    m: Map<u64, MapEntry>,
    segments: Seq<ParsedSegment>,
    lba: int,
)
    requires
        crate::lbamap::extents_wf(m),
        forall|i: int| 0 <= i < segments.len() ==> #[trigger] segments[i].in_range(),
    ensures
        crate::lbamap::extents_wf(flush_tier(m, segments)),
        ({
            let now = crate::lbamap::block_claim(flush_tier(m, segments), lba);
            let was = crate::lbamap::block_claim(m, lba);
            &&& forall|s: int|
                #![trigger segments[s]]
                0 <= s < segments.len() && segments[s].inputs@.len() == 0 && claims_block(
                    segments[s].entries@,
                    lba,
                ) ==> now is Some && segments[s].ulid.value <= (now->0).2.value
            &&& was is Some ==> now is Some && (was->0).2.value <= (now->0).2.value
            &&& now == was || exists|s: int|
                #![trigger segments[s]]
                0 <= s < segments.len() && segments[s].inputs@.len() == 0 && now == own_claim(
                    segments[s].entries@,
                    segments[s].ulid,
                    lba,
                )
        }),
    decreases segments.len(),
{
    if segments.len() > 0 {
        let before = segments.drop_last();
        let last = segments.last();
        assert(forall|i: int| 0 <= i < before.len() ==> #[trigger] before[i] == segments[i]);
        assert(segments[segments.len() - 1] == last);
        law_the_newest_flush_holds_the_block(m, before, lba);
        let mid = flush_tier(m, before);
        assert(last.in_range());
        law_highest_claimant_wins(mid, last.entries@, last.ulid, lba);
        law_the_last_entry_speaks_for_its_segment(last.entries@, last.ulid, lba);
        let now = crate::lbamap::block_claim(flush_tier(m, segments), lba);
        let then = crate::lbamap::block_claim(mid, lba);
        assert forall|s: int| #![trigger segments[s]] 0 <= s < segments.len()
            && segments[s].inputs@.len() == 0 && claims_block(
            segments[s].entries@,
            lba,
        ) implies now is Some && segments[s].ulid.value <= (now->0).2.value by {
            if s < before.len() {
                assert(before[s] == segments[s]);
            }
        }
        if now != crate::lbamap::block_claim(m, lba) && now == then {
            let s = choose|s: int|
                #![trigger before[s]]
                0 <= s < before.len() && before[s].inputs@.len() == 0 && then == own_claim(
                    before[s].entries@,
                    before[s].ulid,
                    lba,
                );
            assert(segments[s] == before[s]);
        }
    }
}

/// Admitting an output leaves a later write: a claim above the output's horizon
/// stays, unless the output holds the same content there. And it takes every
/// block it claims that no one holds, or that a claimant up to the horizon
/// does.
pub proof fn law_an_output_yields_to_later_writes(
    m: Map<u64, MapEntry>,
    entries: Seq<SegmentEntry>,
    horizon: Ulid,
    claimant: Ulid,
    lba: int,
)
    requires
        crate::lbamap::extents_wf(m),
        forall|i: int| 0 <= i < entries.len() ==> #[trigger] entries[i].in_range(),
    ensures
        ({
            let after = registered_all(m, entries, Blocking::AboveHorizon(horizon), claimant);
            let was = crate::lbamap::block_claim(m, lba);
            let now = crate::lbamap::block_claim(after, lba);
            &&& crate::lbamap::extents_wf(after)
            &&& now == was || (now is Some && (now->0).2 == claimant && claims_block(entries, lba))
            &&& (was is None || (was->0).2.value <= horizon.value) && claims_block(entries, lba)
                ==> now == own_claim(entries, claimant, lba)
            &&& was is Some && (was->0).2.value > horizon.value && (was->0).2 != claimant && (
            forall|i: int|
                0 <= i < entries.len() && entry_claims(#[trigger] entries[i], lba)
                    ==> entries[i].hash != (was->0).0) ==> now == was
        }),
    decreases entries.len(),
{
    if entries.len() > 0 {
        let before = entries.drop_last();
        let e = entries.last();
        let rule = Blocking::AboveHorizon(horizon);
        assert(forall|i: int| 0 <= i < before.len() ==> #[trigger] before[i] == entries[i]);
        assert(entries[entries.len() - 1] == e);
        law_an_output_yields_to_later_writes(m, before, horizon, claimant, lba);
        assert(e.in_range());
        let mid = registered_all(m, before, rule, claimant);
        law_register_by_block(mid, e, rule, claimant, lba);
        law_the_last_entry_speaks_for_its_segment(before, claimant, lba);
        law_the_last_entry_speaks_for_its_segment(entries, claimant, lba);
        if claims_block(before, lba) {
            let i = choose|i: int| 0 <= i < before.len() && entry_claims(#[trigger] before[i], lba);
            assert(entry_claims(entries[i], lba));
        }
        if entry_claims(e, lba) {
            assert(entry_claims(entries[entries.len() - 1], lba));
        }
        let was = crate::lbamap::block_claim(m, lba);
        if forall|i: int|
            0 <= i < entries.len() && entry_claims(#[trigger] entries[i], lba) ==> entries[i].hash
                != (was->0).0 {
            assert forall|i: int| 0 <= i < before.len() && entry_claims(
                #[trigger] before[i],
                lba,
            ) implies before[i].hash != (was->0).0 by {
                assert(entries[i] == before[i]);
            }
        }
    }
}

/// A write that came after every input of every output of its layer survives
/// the rebuild, unless an output holds its very content there.
pub proof fn law_a_rebuild_loses_no_later_write(
    m: Map<u64, MapEntry>,
    outputs: Seq<ParsedSegment>,
    order: Seq<int>,
    n: int,
    lba: int,
)
    requires
        crate::lbamap::extents_wf(m),
        0 <= n <= order.len(),
        forall|i: int| 0 <= i < order.len() ==> 0 <= #[trigger] order[i] < outputs.len(),
        forall|i: int| 0 <= i < outputs.len() ==> #[trigger] outputs[i].in_range(),
        crate::lbamap::block_claim(m, lba) is Some,
        forall|o: int, i: int|
            #![trigger outputs[o].inputs@[i]]
            0 <= o < outputs.len() && 0 <= i < outputs[o].inputs@.len()
                ==> outputs[o].inputs@[i].value < (crate::lbamap::block_claim(m, lba)->0).2.value,
        forall|o: int|
            0 <= o < outputs.len() ==> (#[trigger] outputs[o]).inputs@.len() > 0 && outputs[o].ulid
                != (crate::lbamap::block_claim(m, lba)->0).2,
        forall|o: int, i: int|
            #![trigger outputs[o].entries@[i]]
            0 <= o < outputs.len() && 0 <= i < outputs[o].entries@.len() && entry_claims(
                outputs[o].entries@[i],
                lba,
            ) ==> outputs[o].entries@[i].hash != (crate::lbamap::block_claim(m, lba)->0).0,
    ensures
        crate::lbamap::extents_wf(output_tier(m, outputs, order, n)),
        crate::lbamap::block_claim(output_tier(m, outputs, order, n), lba)
            == crate::lbamap::block_claim(m, lba),
    decreases n,
{
    if n > 0 {
        law_a_rebuild_loses_no_later_write(m, outputs, order, n - 1, lba);
        let o = order[n - 1];
        let s = outputs[o];
        assert(s.in_range());
        law_the_highest_is_above_all(s.inputs@);
        let horizon = highest(s.inputs@)->0;
        let x = choose|x: int| 0 <= x < s.inputs@.len() && s.inputs@[x] == horizon;
        assert(outputs[o].inputs@[x].value < (crate::lbamap::block_claim(m, lba)->0).2.value);
        assert forall|i: int| 0 <= i < s.entries@.len() && entry_claims(
            #[trigger] s.entries@[i],
            lba,
        ) implies s.entries@[i].hash != (crate::lbamap::block_claim(m, lba)->0).0 by {
            assert(outputs[o].entries@[i] == s.entries@[i]);
        }
        law_an_output_yields_to_later_writes(
            output_tier(m, outputs, order, n - 1),
            s.entries@,
            horizon,
            s.ulid,
            lba,
        );
    }
}

} // verus!
