//! The volume's maps as two layers: a large base, and a small delta that
//! holds the open log's writes. A read resolves the delta, then the base. A
//! mutation of the base absorbs the delta first, so that iteration always
//! runs over one map.

use vstd::prelude::*;

use crate::extent_index::{DeltaLocation, ExtentIndex, ExtentLocation};
use crate::ids::{ContentHash, Ulid};
use crate::lbamap::{ExtentRead, LbaMap, MapEntry};

verus! {

// ---------------------------------------------------------------------------
// The model
// ---------------------------------------------------------------------------

/// The map after the entries of `list` have been written over `base`, in
/// order.
pub open spec fn replayed(base: Map<u64, MapEntry>, list: Seq<(u64, MapEntry)>) -> Map<
    u64,
    MapEntry,
>
    decreases list.len(),
{
    if list.len() == 0 {
        base
    } else {
        crate::lbamap::overwritten(
            replayed(base, list.drop_last()),
            list.last().0,
            list.last().1,
        )
    }
}

/// The base with every entry of the delta written over it.
pub open spec fn layered(base: Map<u64, MapEntry>, delta: Map<u64, MapEntry>) -> Map<
    u64,
    MapEntry,
> {
    replayed(base, crate::lbamap::all_entries(delta))
}

/// `k` keys an extent of the layered map: one of the delta's own, or the
/// start of a piece of the base that the delta leaves uncovered.
spec fn layered_key(base: Map<u64, MapEntry>, delta: Map<u64, MapEntry>, k: int) -> bool {
    ||| delta.contains_key(k as u64)
    ||| crate::lbamap::block_claim(delta, k) is None && crate::lbamap::block_claim(base, k) is Some
        && (base.contains_key(k as u64) || crate::lbamap::block_claim(delta, k - 1) is Some)
}

/// `m` is the layered map, told by its keys and by what each block holds.
spec fn is_layered(
    m: Map<u64, MapEntry>,
    base: Map<u64, MapEntry>,
    delta: Map<u64, MapEntry>,
) -> bool {
    &&& crate::lbamap::extents_wf(m)
    &&& crate::lbamap::extents_wf(base)
    &&& crate::lbamap::extents_wf(delta)
    &&& forall|k: u64| #[trigger] m.contains_key(k) <==> layered_key(base, delta, k as int)
    &&& forall|lba: int| #[trigger]
        crate::lbamap::block_claim(m, lba) == (if crate::lbamap::block_claim(delta, lba) is Some {
            crate::lbamap::block_claim(delta, lba)
        } else {
            crate::lbamap::block_claim(base, lba)
        })
}

// ---------------------------------------------------------------------------
// A map is told by its keys and what its blocks hold
// ---------------------------------------------------------------------------

proof fn lemma_same_keys_same_blocks(a: Map<u64, MapEntry>, b: Map<u64, MapEntry>)
    requires
        crate::lbamap::extents_wf(a),
        crate::lbamap::extents_wf(b),
        forall|k: u64| #[trigger] a.contains_key(k) <==> b.contains_key(k),
        forall|lba: int| #[trigger]
            crate::lbamap::block_claim(a, lba) == crate::lbamap::block_claim(b, lba),
    ensures
        a == b,
{
    assert(a.dom() =~= b.dom());
    assert forall|k: u64| #[trigger] a.contains_key(k) implies a[k] == b[k] by {
        assert(b.contains_key(k));
        assert(crate::lbamap::covers(a, k, k as int));
        assert(crate::lbamap::covers(b, k, k as int));
        crate::lbamap::lemma_block_claim(a, k, k as int);
        crate::lbamap::lemma_block_claim(b, k, k as int);
        assert(crate::lbamap::block_claim(a, k as int) == crate::lbamap::block_claim(b, k as int));
        lemma_not_shorter(a, b, k);
        lemma_not_shorter(b, a, k);
    }
    assert(a =~= b);
}

proof fn lemma_not_shorter(a: Map<u64, MapEntry>, b: Map<u64, MapEntry>, k: u64)
    requires
        crate::lbamap::extents_wf(a),
        crate::lbamap::extents_wf(b),
        forall|j: u64| #[trigger] a.contains_key(j) <==> b.contains_key(j),
        forall|lba: int| #[trigger]
            crate::lbamap::block_claim(a, lba) == crate::lbamap::block_claim(b, lba),
        a.contains_key(k),
    ensures
        a[k].lba_length >= b[k].lba_length,
{
    assert(b.contains_key(k));
    if a[k].lba_length < b[k].lba_length {
        let x = k + a[k].lba_length;
        assert(crate::lbamap::covers(b, k, x));
        crate::lbamap::lemma_block_claim(b, k, x);
        assert(crate::lbamap::block_claim(a, x) is Some);
        let j = choose|j: u64| crate::lbamap::covers(a, j, x);
        assert(crate::lbamap::covers(a, j, x));
        assert(b.contains_key(j));
    }
}

/// The keys of a map after a write.
proof fn lemma_overwritten_keys(m: Map<u64, MapEntry>, start: u64, e: MapEntry)
    requires
        crate::lbamap::extents_wf(m),
        0 < e.lba_length,
        start + e.lba_length <= u64::MAX,
    ensures
        forall|k: u64| #[trigger]
            crate::lbamap::overwritten(m, start, e).contains_key(k) <==> {
                ||| k == start
                ||| m.contains_key(k) && !(start <= k < start + e.lba_length)
                ||| k == start + e.lba_length && crate::lbamap::block_claim(m, k as int) is Some
            },
{
    let end = start + e.lba_length;
    let w = crate::lbamap::overwritten(m, start, e);
    assert forall|k: u64| #[trigger] w.contains_key(k) <==> {
        ||| k == start
        ||| m.contains_key(k) && !(start <= k < end)
        ||| k == end && crate::lbamap::block_claim(m, k as int) is Some
    } by {
        if k == end {
            if exists|c: u64| crate::lbamap::cut_by(m, c, end) {
                let c = choose|c: u64| crate::lbamap::cut_by(m, c, end);
                assert(crate::lbamap::covers(m, c, end));
            }
            if crate::lbamap::block_claim(m, end) is Some {
                let c = choose|c: u64| crate::lbamap::covers(m, c, end);
                assert(crate::lbamap::covers(m, c, end));
                if c != end {
                    assert(crate::lbamap::cut_by(m, c, end));
                }
            }
            if m.contains_key(k) {
                assert(crate::lbamap::covers(m, k, end));
            }
        }
    }
}

/// A write to the delta shows in the layered map as the same write to it.
proof fn lemma_layered_write(
    m: Map<u64, MapEntry>,
    base: Map<u64, MapEntry>,
    delta: Map<u64, MapEntry>,
    start: u64,
    e: MapEntry,
)
    requires
        is_layered(m, base, delta),
        0 < e.lba_length,
        start + e.lba_length <= u64::MAX,
        e.payload_block_offset + e.lba_length <= u32::MAX,
    ensures
        is_layered(
            crate::lbamap::overwritten(m, start, e),
            base,
            crate::lbamap::overwritten(delta, start, e),
        ),
{
    let end = start + e.lba_length;
    let m2 = crate::lbamap::overwritten(m, start, e);
    let d2 = crate::lbamap::overwritten(delta, start, e);
    crate::lbamap::lemma_overwritten(m, start, e);
    crate::lbamap::lemma_overwritten(delta, start, e);
    lemma_overwritten_keys(m, start, e);
    lemma_overwritten_keys(delta, start, e);
    assert forall|k: u64| #[trigger] m2.contains_key(k) <==> layered_key(base, d2, k as int) by {
        let kk = k as int;
        assert(crate::lbamap::block_claim(m, kk) is Some || crate::lbamap::block_claim(m, kk)
            is None);
        assert(crate::lbamap::block_claim(d2, kk) is Some || crate::lbamap::block_claim(d2, kk)
            is None);
        assert(crate::lbamap::block_claim(d2, kk - 1) is Some || crate::lbamap::block_claim(
            d2,
            kk - 1,
        ) is None);
        assert(m.contains_key(k) <==> layered_key(base, delta, kk));
        assert(d2.contains_key(k) ==> d2.contains_key(k));
        if delta.contains_key(k) {
            assert(crate::lbamap::covers(delta, k, kk));
        }
        if base.contains_key(k) {
            assert(crate::lbamap::covers(base, k, kk));
        }
    }
    assert forall|lba: int| #[trigger]
        crate::lbamap::block_claim(m2, lba) == (if crate::lbamap::block_claim(d2, lba) is Some {
            crate::lbamap::block_claim(d2, lba)
        } else {
            crate::lbamap::block_claim(base, lba)
        }) by {
        assert(crate::lbamap::block_claim(m, lba) == (if crate::lbamap::block_claim(delta, lba)
            is Some {
            crate::lbamap::block_claim(delta, lba)
        } else {
            crate::lbamap::block_claim(base, lba)
        }));
    }
}

/// The entries of `delta` among the first `n` of `list`.
spec fn prefix_of(delta: Map<u64, MapEntry>, list: Seq<(u64, MapEntry)>, n: int) -> Map<
    u64,
    MapEntry,
> {
    Map::new(|k: u64| exists|j: int| 0 <= j < n && (#[trigger] list[j]).0 == k, |k: u64| delta[k])
}

proof fn lemma_replayed_is_layered(
    base: Map<u64, MapEntry>,
    delta: Map<u64, MapEntry>,
    n: int,
)
    requires
        crate::lbamap::extents_wf(base),
        crate::lbamap::extents_wf(delta),
        0 <= n <= crate::lbamap::all_entries(delta).len(),
    ensures
        is_layered(
            replayed(base, crate::lbamap::all_entries(delta).take(n)),
            base,
            prefix_of(delta, crate::lbamap::all_entries(delta), n),
        ),
    decreases n,
{
    let list = crate::lbamap::all_entries(delta);
    crate::lbamap::lemma_entries_between(delta, 0, u64::MAX as int);
    let p = prefix_of(delta, list, n);
    if n == 0 {
        assert(p =~= Map::<u64, MapEntry>::empty());
        assert(list.take(0) =~= Seq::<(u64, MapEntry)>::empty());
        assert(replayed(base, list.take(0)) == base);
        assert forall|lba: int| #[trigger] crate::lbamap::block_claim(p, lba) is None by {
            assert(!exists|c: u64| crate::lbamap::covers(p, c, lba));
        }
        assert forall|k: u64| #[trigger] base.contains_key(k) <==> layered_key(
            base,
            p,
            k as int,
        ) by {
            if base.contains_key(k) {
                assert(crate::lbamap::covers(base, k, k as int));
            }
            assert(crate::lbamap::block_claim(p, k as int - 1) is None);
        }
    } else {
        lemma_replayed_is_layered(base, delta, n - 1);
        let q = prefix_of(delta, list, n - 1);
        let (k, e) = list[n - 1];
        assert(list.take(n).drop_last() =~= list.take(n - 1));
        assert(delta.contains_key(k) && delta[k] == e);
        assert(forall|j: int| 0 <= j < n ==> delta.contains_key((#[trigger] list[j]).0));
        assert(!q.contains_key(k)) by {
            if q.contains_key(k) {
                let j = choose|j: int| 0 <= j < n - 1 && (#[trigger] list[j]).0 == k;
                assert(list[j].0 < list[n - 1].0);
            }
        }
        lemma_layered_write(replayed(base, list.take(n - 1)), base, q, k, e);
        // No earlier entry reaches into this one, so the write adds a key.
        let w = crate::lbamap::overwritten(q, k, e);
        assert forall|c: u64| q.contains_key(c) implies delta.contains_key(c) && q[c] == delta[c]
            && c != k by {
            let j = choose|j: int| 0 <= j < n - 1 && (#[trigger] list[j]).0 == c;
            assert(list[j].0 == c);
        }
        let end = k + e.lba_length;
        assert(!exists|c: u64| crate::lbamap::cut_by(q, c, end)) by {
            if exists|c: u64| crate::lbamap::cut_by(q, c, end) {
                let c = choose|c: u64| crate::lbamap::cut_by(q, c, end);
                assert(q.contains_key(c));
                assert(delta.contains_key(c));
            }
        }
        assert forall|c: u64| #[trigger] p.contains_key(c) <==> q.contains_key(c) || c == k by {
            if q.contains_key(c) {
                let j = choose|j: int| 0 <= j < n - 1 && (#[trigger] list[j]).0 == c;
                assert(0 <= j < n && list[j].0 == c);
            }
            if c == k {
                assert(list[n - 1].0 == c);
            }
        }
        assert forall|c: u64| #[trigger] w.contains_key(c) <==> p.contains_key(c) by {
            if q.contains_key(c) {
                assert(delta.contains_key(c));
                assert(delta.contains_key(k));
            }
        }
        assert forall|c: u64| #[trigger] w.contains_key(c) implies w[c] == p[c] by {
            if c != k {
                assert(q.contains_key(c));
                assert(delta.contains_key(c));
                assert(delta.contains_key(k));
            }
        }
        assert(w =~= p);
    }
}

proof fn lemma_layered(base: Map<u64, MapEntry>, delta: Map<u64, MapEntry>)
    requires
        crate::lbamap::extents_wf(base),
        crate::lbamap::extents_wf(delta),
    ensures
        is_layered(layered(base, delta), base, delta),
{
    let list = crate::lbamap::all_entries(delta);
    let n = list.len() as int;
    lemma_replayed_is_layered(base, delta, n);
    crate::lbamap::lemma_entries_between(delta, 0, u64::MAX as int);
    assert(list.take(n) =~= list);
    assert forall|k: u64| #[trigger] prefix_of(delta, list, n).contains_key(k) <==>
        delta.contains_key(k) by {
        if prefix_of(delta, list, n).contains_key(k) {
            let j = choose|j: int| 0 <= j < n && (#[trigger] list[j]).0 == k;
            assert(list[j].0 == k);
        }
        if delta.contains_key(k) {
            let j = choose|j: int| 0 <= j < list.len() && #[trigger] list[j].0 == k;
            assert(list[j].0 == k);
        }
    }
    assert(prefix_of(delta, list, n) =~= delta);
}

// ---------------------------------------------------------------------------
// Laws
// ---------------------------------------------------------------------------

/// A block reads from the delta where the delta holds it, and from the base
/// elsewhere.
pub proof fn law_delta_masks_base(
    base: Map<u64, MapEntry>,
    delta: Map<u64, MapEntry>,
    lba: int,
)
    requires
        crate::lbamap::extents_wf(base),
        crate::lbamap::extents_wf(delta),
    ensures
        crate::lbamap::extents_wf(layered(base, delta)),
        crate::lbamap::block_claim(layered(base, delta), lba) == (if crate::lbamap::block_claim(
            delta,
            lba,
        ) is Some {
            crate::lbamap::block_claim(delta, lba)
        } else {
            crate::lbamap::block_claim(base, lba)
        }),
{
    lemma_layered(base, delta);
}

/// A write that goes to the delta and is folded into the base later leaves
/// the same map, extent by extent, as the write made after the fold. By
/// induction the fold of a log's writes equals the writes made to one map.
pub proof fn law_fold_commutes_with_writes(
    base: Map<u64, MapEntry>,
    delta: Map<u64, MapEntry>,
    start: u64,
    e: MapEntry,
)
    requires
        crate::lbamap::extents_wf(base),
        crate::lbamap::extents_wf(delta),
        0 < e.lba_length,
        start + e.lba_length <= u64::MAX,
        e.payload_block_offset + e.lba_length <= u32::MAX,
    ensures
        layered(base, crate::lbamap::overwritten(delta, start, e)) == crate::lbamap::overwritten(
            layered(base, delta),
            start,
            e,
        ),
{
    lemma_layered(base, delta);
    lemma_layered_write(layered(base, delta), base, delta, start, e);
    crate::lbamap::lemma_overwritten(delta, start, e);
    lemma_layered(base, crate::lbamap::overwritten(delta, start, e));
    lemma_same_keys_same_blocks(
        layered(base, crate::lbamap::overwritten(delta, start, e)),
        crate::lbamap::overwritten(layered(base, delta), start, e),
    );
}

/// With nothing in the delta, the layered map is the base.
pub proof fn law_empty_delta(base: Map<u64, MapEntry>)
    requires
        crate::lbamap::extents_wf(base),
    ensures
        layered(base, Map::<u64, MapEntry>::empty()) == base,
{
    let none = Map::<u64, MapEntry>::empty();
    crate::lbamap::lemma_entries_between(none, 0, u64::MAX as int);
    if crate::lbamap::all_entries(none).len() > 0 {
        assert(none.contains_key(crate::lbamap::all_entries(none)[0].0));
    }
}

// ---------------------------------------------------------------------------
// Reads, told by blocks
// ---------------------------------------------------------------------------

/// The end of the read that starts at block `from - 1`: the next block up to
/// `end` that keys an extent or holds nothing.
spec fn read_stop(m: Map<u64, MapEntry>, from: int, end: int) -> int
    decreases end - from,
{
    if from >= end || m.contains_key(from as u64) || crate::lbamap::block_claim(m, from) is None {
        from
    } else {
        read_stop(m, from + 1, end)
    }
}

/// The reads of `[start, end)`, told by what each block holds and by which
/// blocks key an extent.
spec fn scanned(m: Map<u64, MapEntry>, start: int, end: int) -> Seq<ExtentRead>
    decreases end - start,
{
    if start >= end {
        Seq::empty()
    } else {
        match crate::lbamap::block_claim(m, start) {
            None => scanned(m, start + 1, end),
            Some((hash, block, claimant)) => {
                let stop = read_stop(m, start + 1, end);
                if start < stop <= end {
                    seq![
                        ExtentRead {
                            hash,
                            range_start: start as u64,
                            range_end: stop as u64,
                            payload_block_offset: block as u32,
                            claimant_ulid: claimant,
                        },
                    ] + scanned(m, stop, end)
                } else {
                    Seq::empty()
                }
            },
        }
    }
}

proof fn lemma_read_stop(m: Map<u64, MapEntry>, from: int, stop: int, end: int)
    requires
        from <= stop <= end,
        forall|x: int|
            from <= x < stop ==> !m.contains_key(x as u64) && (
            #[trigger] crate::lbamap::block_claim(m, x)) is Some,
        stop == end || m.contains_key(stop as u64) || crate::lbamap::block_claim(m, stop) is None,
    ensures
        read_stop(m, from, end) == stop,
    decreases stop - from,
{
    if from < stop {
        assert(crate::lbamap::block_claim(m, from) is Some);
        lemma_read_stop(m, from + 1, stop, end);
    }
}

proof fn lemma_read_stop_range(m: Map<u64, MapEntry>, from: int, end: int)
    requires
        from <= end,
    ensures
        from <= read_stop(m, from, end) <= end,
        forall|x: int|
            from <= x < read_stop(m, from, end) ==> !m.contains_key(x as u64) && (
            #[trigger] crate::lbamap::block_claim(m, x)) is Some,
    decreases end - from,
{
    if from < end && !m.contains_key(from as u64) && crate::lbamap::block_claim(m, from) is Some {
        lemma_read_stop_range(m, from + 1, end);
    }
}

/// Inside one extent the blocks are held and none of them keys another.
proof fn lemma_inside_extent(m: Map<u64, MapEntry>, k: u64, x: int)
    requires
        crate::lbamap::extents_wf(m),
        m.contains_key(k),
        k < x < k + m[k].lba_length,
    ensures
        !m.contains_key(x as u64),
        crate::lbamap::block_claim(m, x) is Some,
{
    assert(crate::lbamap::covers(m, k, x));
}

/// Scanning from a block inside, or at the start of, an extent gives that
/// extent's read and goes on behind it.
proof fn lemma_scan_extent(m: Map<u64, MapEntry>, k: u64, start: int, end: int)
    requires
        crate::lbamap::extents_wf(m),
        m.contains_key(k),
        k <= start < k + m[k].lba_length,
        start < end <= u64::MAX,
    ensures
        ({
            let stop = if k + m[k].lba_length < end {
                k + m[k].lba_length
            } else {
                end
            };
            scanned(m, start, end) == seq![crate::lbamap::read_of(k, m[k], start, end)] + scanned(
                m,
                stop,
                end,
            )
        }),
{
    let e = m[k];
    let stop = if k + e.lba_length < end {
        k + e.lba_length
    } else {
        end
    };
    assert(crate::lbamap::covers(m, k, start));
    crate::lbamap::lemma_block_claim(m, k, start);
    assert forall|x: int| start + 1 <= x < stop implies !m.contains_key(x as u64) && (
    #[trigger] crate::lbamap::block_claim(m, x)) is Some by {
        lemma_inside_extent(m, k, x);
    }
    if stop < end {
        if crate::lbamap::block_claim(m, stop) is Some {
            let c = choose|c: u64| crate::lbamap::covers(m, c, stop);
            assert(crate::lbamap::covers(m, c, stop));
            assert(c == stop) by {
                if c < k {
                    assert(m.contains_key(c) && m.contains_key(k));
                } else if c > k {
                    assert(m.contains_key(c) && m.contains_key(k));
                }
            }
        }
    }
    lemma_read_stop(m, start + 1, stop, end);
}

/// Scanning over blocks that hold nothing skips them.
proof fn lemma_scan_gap(m: Map<u64, MapEntry>, start: int, to: int, end: int)
    requires
        start <= to <= end,
        forall|x: int| start <= x < to ==> (#[trigger] crate::lbamap::block_claim(m, x)) is None,
    ensures
        scanned(m, start, end) == scanned(m, to, end),
    decreases to - start,
{
    if start < to {
        assert(crate::lbamap::block_claim(m, start) is None);
        lemma_scan_gap(m, start + 1, to, end);
    }
}

/// The extents keyed from `a` on, read and scanned.
proof fn lemma_scan_entries(m: Map<u64, MapEntry>, start: int, a: int, end: int)
    requires
        crate::lbamap::extents_wf(m),
        0 <= start <= a <= end <= u64::MAX,
        a == end || m.contains_key(a as u64) || crate::lbamap::block_claim(m, a) is None,
    ensures
        ({
            let inside = crate::lbamap::entries_between(m, a, end);
            scanned(m, a, end) == Seq::new(
                inside.len(),
                |i: int| crate::lbamap::read_of(inside[i].0, inside[i].1, start, end),
            )
        }),
    decreases end - a,
{
    let inside = crate::lbamap::entries_between(m, a, end);
    let reads = Seq::new(
        inside.len(),
        |i: int| crate::lbamap::read_of(inside[i].0, inside[i].1, start, end),
    );
    if a < end {
        if m.contains_key(a as u64) {
            let k = a as u64;
            let stop = if k + m[k].lba_length < end {
                k + m[k].lba_length
            } else {
                end
            };
            lemma_scan_extent(m, k, a, end);
            lemma_entries_skip(m, a + 1, stop, end, k);
            if stop < end && crate::lbamap::block_claim(m, stop) is Some {
                let c = choose|c: u64| crate::lbamap::covers(m, c, stop);
                assert(crate::lbamap::covers(m, c, stop));
                assert(c == stop) by {
                    assert(m.contains_key(c) && m.contains_key(k));
                }
            }
            lemma_scan_entries(m, start, stop, end);
            let rest = crate::lbamap::entries_between(m, stop, end);
            assert(inside =~= seq![(k, m[k])] + rest);
            assert(crate::lbamap::read_of(k, m[k], a, end) == crate::lbamap::read_of(
                k,
                m[k],
                start,
                end,
            ));
            assert(reads =~= seq![crate::lbamap::read_of(k, m[k], start, end)] + Seq::new(
                rest.len(),
                |i: int| crate::lbamap::read_of(rest[i].0, rest[i].1, start, end),
            ));
        } else {
            assert(crate::lbamap::block_claim(m, a) is None);
            if a + 1 < end && crate::lbamap::block_claim(m, a + 1) is Some {
                let next = a + 1;
                let c = choose|c: u64| crate::lbamap::covers(m, c, next);
                assert(crate::lbamap::covers(m, c, next));
                assert(c == next) by {
                    if c != next {
                        assert(crate::lbamap::covers(m, c, a));
                    }
                }
            }
            lemma_scan_entries(m, start, a + 1, end);
        }
    }
    assert(scanned(m, a, end) =~= reads);
}

/// No entry is keyed inside an extent.
proof fn lemma_entries_skip(m: Map<u64, MapEntry>, from: int, to: int, end: int, k: u64)
    requires
        crate::lbamap::extents_wf(m),
        m.contains_key(k),
        k < from <= to <= end <= u64::MAX,
        to <= k + m[k].lba_length,
    ensures
        crate::lbamap::entries_between(m, from, end) == crate::lbamap::entries_between(m, to, end),
    decreases to - from,
{
    if from < to {
        lemma_inside_extent(m, k, from);
        lemma_entries_skip(m, from + 1, to, end, k);
    }
}

/// What a read needs is what a scan of its blocks finds.
proof fn lemma_reads_are_scanned(m: Map<u64, MapEntry>, start: int, end: int)
    requires
        crate::lbamap::extents_wf(m),
        0 <= start < end <= u64::MAX,
    ensures
        crate::lbamap::reads_in(m, start, end) == scanned(m, start, end),
{
    if exists|c: u64| crate::lbamap::cut_by(m, c, start) {
        let c = choose|c: u64| crate::lbamap::cut_by(m, c, start);
        assert(crate::lbamap::cut_by(m, c, start));
        let stop = if c + m[c].lba_length < end {
            c + m[c].lba_length
        } else {
            end
        };
        lemma_scan_extent(m, c, start, end);
        lemma_entries_skip(m, start, stop, end, c);
        if stop < end && crate::lbamap::block_claim(m, stop) is Some {
            let d = choose|d: u64| crate::lbamap::covers(m, d, stop);
            assert(crate::lbamap::covers(m, d, stop));
            assert(d == stop) by {
                assert(m.contains_key(c) && m.contains_key(d));
            }
        }
        lemma_scan_entries(m, start, stop, end);
    } else {
        if crate::lbamap::block_claim(m, start) is Some {
            let d = choose|d: u64| crate::lbamap::covers(m, d, start);
            assert(crate::lbamap::covers(m, d, start));
            assert(d == start) by {
                if d != start {
                    assert(crate::lbamap::cut_by(m, d, start));
                }
            }
        }
        lemma_scan_entries(m, start, start, end);
    }
}

/// A scan depends only on what the blocks hold and which key an extent.
proof fn lemma_scan_same(a: Map<u64, MapEntry>, b: Map<u64, MapEntry>, start: int, end: int)
    requires
        forall|x: int|
            start <= x < end ==> #[trigger] crate::lbamap::block_claim(a, x)
                == crate::lbamap::block_claim(b, x),
        forall|x: int|
            #![trigger a.contains_key(x as u64)]
            #![trigger b.contains_key(x as u64)]
            start < x < end ==> a.contains_key(x as u64) == b.contains_key(x as u64),
    ensures
        scanned(a, start, end) == scanned(b, start, end),
    decreases end - start,
{
    if start < end {
        assert(crate::lbamap::block_claim(a, start) == crate::lbamap::block_claim(b, start));
        if crate::lbamap::block_claim(a, start) is None {
            lemma_scan_same(a, b, start + 1, end);
        } else {
            lemma_stop_same(a, b, start + 1, end);
            lemma_read_stop_range(a, start + 1, end);
            lemma_scan_same(a, b, read_stop(a, start + 1, end), end);
        }
    }
}

proof fn lemma_stop_same(a: Map<u64, MapEntry>, b: Map<u64, MapEntry>, from: int, end: int)
    requires
        forall|x: int|
            from <= x < end ==> #[trigger] crate::lbamap::block_claim(a, x)
                == crate::lbamap::block_claim(b, x),
        forall|x: int|
            #![trigger a.contains_key(x as u64)]
            #![trigger b.contains_key(x as u64)]
            from <= x < end ==> a.contains_key(x as u64) == b.contains_key(x as u64),
    ensures
        read_stop(a, from, end) == read_stop(b, from, end),
    decreases end - from,
{
    if from < end {
        assert(a.contains_key(from as u64) == b.contains_key(from as u64));
        assert(crate::lbamap::block_claim(a, from) == crate::lbamap::block_claim(b, from));
        lemma_stop_same(a, b, from + 1, end);
    }
}

/// A scan parts at a block where no extent runs on from the one before.
proof fn lemma_scan_split(m: Map<u64, MapEntry>, start: int, at: int, end: int)
    requires
        start <= at <= end,
        at == end || m.contains_key(at as u64) || crate::lbamap::block_claim(m, at) is None,
    ensures
        scanned(m, start, end) == scanned(m, start, at) + scanned(m, at, end),
    decreases at - start,
{
    if start < at {
        if crate::lbamap::block_claim(m, start) is None {
            lemma_scan_split(m, start + 1, at, end);
        } else {
            let stop = read_stop(m, start + 1, at);
            lemma_read_stop_range(m, start + 1, at);
            assert(read_stop(m, start + 1, end) == stop) by {
                lemma_stop_at(m, start + 1, at, end);
            }
            lemma_scan_split(m, stop, at, end);
        }
    }
    assert(scanned(m, start, end) =~= scanned(m, start, at) + scanned(m, at, end));
}

proof fn lemma_stop_at(m: Map<u64, MapEntry>, from: int, at: int, end: int)
    requires
        from <= at <= end,
        at == end || m.contains_key(at as u64) || crate::lbamap::block_claim(m, at) is None,
    ensures
        read_stop(m, from, end) == read_stop(m, from, at),
    decreases at - from,
{
    if from < at {
        lemma_stop_at(m, from + 1, at, end);
    }
}

// ---------------------------------------------------------------------------
// The layers
// ---------------------------------------------------------------------------

/// One layer: a block map and the extent index that resolves its hashes.
pub struct Maps {
    pub lbamap: LbaMap,
    pub extent_index: ExtentIndex,
}

impl Maps {
    pub open spec fn wf(&self) -> bool {
        self.lbamap.wf() && self.extent_index.wf()
    }

    /// The layer holds nothing.
    pub open spec fn vacant(&self) -> bool {
        &&& self.lbamap.entries() == Map::<u64, MapEntry>::empty()
        &&& self.extent_index.body_slots().len() == 0
        &&& self.extent_index.delta_slots().len() == 0
        &&& self.extent_index.journal_slots().len() == 0
    }

    pub fn new(lbamap: LbaMap, extent_index: ExtentIndex) -> (maps: Self)
        ensures
            maps.lbamap == lbamap,
            maps.extent_index == extent_index,
    {
        Maps { lbamap, extent_index }
    }

    /// A layer that holds nothing.
    pub fn empty() -> (maps: Self)
        ensures
            maps.wf(),
            maps.vacant(),
    {
        Maps::new(LbaMap::new(), ExtentIndex::new())
    }

    fn is_empty(&self) -> (b: bool)
        requires
            self.wf(),
        ensures
            b == self.vacant(),
    {
        self.lbamap.is_empty() && self.extent_index.is_empty()
            && self.extent_index.journal_is_empty()
    }

    /// A layer that holds the same.
    fn duplicate(&self) -> (copy: Self)
        requires
            self.wf(),
        ensures
            copy.wf(),
            copy.lbamap.entries() == self.lbamap.entries(),
            copy.extent_index.same_as(self.extent_index),
    {
        Maps { lbamap: self.lbamap.clone(), extent_index: self.extent_index.duplicate() }
    }
}

impl Default for Maps {
    fn default() -> (maps: Self)
        ensures
            maps.wf(),
            maps.vacant(),
    {
        Maps::empty()
    }
}

/// `after` is `base` with the delta layer folded in: the block map is the
/// layered one, and the index has gained the bodies and journal bodies it
/// lacked. Deltas stay as they were.
pub open spec fn folded(base: Maps, delta: Maps, after: Maps) -> bool {
    &&& after.wf()
    &&& after.lbamap.entries() == layered(base.lbamap.entries(), delta.lbamap.entries())
    &&& forall|h: ContentHash| #[trigger]
        after.extent_index.body(h) == (if base.extent_index.body(h) is Some {
            base.extent_index.body(h)
        } else {
            delta.extent_index.body(h)
        })
    &&& forall|u: Ulid, h: ContentHash| #[trigger]
        after.extent_index.journal(u, h) == (if base.extent_index.journal(u, h) is Some {
            base.extent_index.journal(u, h)
        } else {
            delta.extent_index.journal(u, h)
        })
    &&& forall|h: ContentHash| #[trigger] after.extent_index.delta(h) == base.extent_index.delta(h)
    &&& after.extent_index.delta_slots() == base.extent_index.delta_slots()
}

/// `after` is the base once the delta layer has been absorbed.
pub open spec fn absorbed(base: Maps, delta: Maps, after: Maps) -> bool {
    if delta.vacant() {
        after == base
    } else {
        folded(base, delta, after)
    }
}

/// Write the delta's entries over the base. They are disjoint and are the
/// net of the writes that made them, so this equals making the writes.
fn fold(base: &mut Maps, delta: &Maps)
    requires
        old(base).wf(),
        delta.wf(),
    ensures
        folded(*old(base), *delta, *final(base)),
{
    let ghost start = *base;
    let ghost m = base.lbamap.entries();
    let ghost d = delta.lbamap.entries();
    let list = delta.lbamap.iter_entries_with_claimant();
    let ghost all = crate::lbamap::all_entries(d);
    proof {
        crate::lbamap::lemma_entries_between(d, 0, u64::MAX as int);
    }
    let mut i: usize = 0;
    while i < list.len()
        invariant
            i <= list.len(),
            base.lbamap.wf(),
            base.extent_index == start.extent_index,
            crate::lbamap::extents_wf(d),
            all == crate::lbamap::all_entries(d),
            list@.len() == all.len(),
            forall|j: int|
                #![trigger list@[j]]
                0 <= j < all.len() ==> list@[j] == (
                    all[j].0,
                    all[j].1.lba_length,
                    all[j].1.hash,
                    all[j].1.payload_block_offset,
                    all[j].1.claimant_ulid,
                ),
            forall|j: int|
                #![trigger all[j]]
                0 <= j < all.len() ==> d.contains_key(all[j].0) && d[all[j].0] == all[j].1,
            base.lbamap.entries() == replayed(m, all.take(i as int)),
        decreases list.len() - i,
    {
        let (lba, len, hash, offset, claimant) = list[i];
        proof {
            assert(list@[i as int] == (lba, len, hash, offset, claimant));
            assert(d.contains_key(all[i as int].0) && d[all[i as int].0] == all[i as int].1);
            assert(all.take(i as int + 1).drop_last() =~= all.take(i as int));
        }
        base.lbamap.insert_with_offset(lba, len, offset, hash, claimant);
        i += 1;
    }
    assert(all.take(all.len() as int) =~= all);
    let bodies = delta.extent_index.body_list();
    proof {
        delta.extent_index.lemma_bodies();
        delta.extent_index.lemma_journals();
    }
    let mut n: usize = 0;
    while n < bodies.len()
        invariant
            n <= bodies.len(),
            bodies@ == delta.extent_index.body_slots(),
            forall|j: int|
                0 <= j < bodies@.len() ==> (#[trigger] bodies@[j]).0
                    == crate::extent_index::hash_key(bodies@[j].0.hash)
                    && delta.extent_index.body(bodies@[j].0.hash) == Some(bodies@[j].1),
            base.extent_index.wf(),
            base.lbamap.wf(),
            base.lbamap.entries() == layered(m, d),
            forall|h: ContentHash| #[trigger]
                base.extent_index.body(h) == (if start.extent_index.body(h) is Some {
                    start.extent_index.body(h)
                } else if exists|j: int| 0 <= j < n && (#[trigger] bodies@[j]).0.hash == h {
                    delta.extent_index.body(h)
                } else {
                    None
                }),
            forall|u: Ulid, h: ContentHash| #[trigger]
                base.extent_index.journal(u, h) == start.extent_index.journal(u, h),
            forall|h: ContentHash| #[trigger]
                base.extent_index.delta(h) == start.extent_index.delta(h),
            base.extent_index.delta_slots() == start.extent_index.delta_slots(),
        decreases bodies.len() - n,
    {
        let (key, location) = bodies[n];
        let ghost before = base.extent_index;
        assert(bodies@[n as int] == (key, location));
        base.extent_index.insert_if_absent(key.hash, location);
        proof {
            assert forall|h: ContentHash| #[trigger]
                base.extent_index.body(h) == (if start.extent_index.body(h) is Some {
                    start.extent_index.body(h)
                } else if exists|j: int| 0 <= j < n + 1 && (#[trigger] bodies@[j]).0.hash == h {
                    delta.extent_index.body(h)
                } else {
                    None
                }) by {
                if h == key.hash {
                    assert(bodies@[n as int].0.hash == h);
                } else if exists|j: int| 0 <= j < n && (#[trigger] bodies@[j]).0.hash == h {
                    let j = choose|j: int| 0 <= j < n && (#[trigger] bodies@[j]).0.hash == h;
                    assert(0 <= j < n + 1 && bodies@[j].0.hash == h);
                }
                assert(before.body(h) is Some || before.body(h) is None);
            }
        }
        n += 1;
    }
    proof {
        assert forall|h: ContentHash| #[trigger]
            base.extent_index.body(h) == (if start.extent_index.body(h) is Some {
                start.extent_index.body(h)
            } else {
                delta.extent_index.body(h)
            }) by {
            if delta.extent_index.body(h) is Some {
                let j = choose|j: int|
                    0 <= j < bodies@.len() && (#[trigger] bodies@[j]).0
                        == crate::extent_index::hash_key(h);
                assert(bodies@[j].0.hash == h);
            }
        }
    }
    let journals = delta.extent_index.journal_list();
    let mut x: usize = 0;
    while x < journals.len()
        invariant
            x <= journals.len(),
            journals@ == delta.extent_index.journal_slots(),
            forall|j: int|
                0 <= j < journals@.len() ==> (#[trigger] journals@[j]).0.owner is Some
                    && delta.extent_index.journal(
                    journals@[j].0.owner->0,
                    journals@[j].0.hash,
                ) == Some(journals@[j].1),
            base.extent_index.wf(),
            base.lbamap.wf(),
            base.lbamap.entries() == layered(m, d),
            forall|h: ContentHash| #[trigger]
                base.extent_index.body(h) == (if start.extent_index.body(h) is Some {
                    start.extent_index.body(h)
                } else {
                    delta.extent_index.body(h)
                }),
            forall|u: Ulid, h: ContentHash| #[trigger]
                base.extent_index.journal(u, h) == (if start.extent_index.journal(u, h) is Some {
                    start.extent_index.journal(u, h)
                } else if exists|j: int|
                    0 <= j < x && (#[trigger] journals@[j]).0 == crate::extent_index::journal_key(
                        u,
                        h,
                    ) {
                    delta.extent_index.journal(u, h)
                } else {
                    None
                }),
            forall|h: ContentHash| #[trigger]
                base.extent_index.delta(h) == start.extent_index.delta(h),
            base.extent_index.delta_slots() == start.extent_index.delta_slots(),
        decreases journals.len() - x,
    {
        let (key, location) = journals[x];
        let ghost before = base.extent_index;
        assert(journals@[x as int] == (key, location));
        if let Some(segment) = key.owner {
            base.extent_index.insert_journal_if_absent(segment, key.hash, location);
        }
        proof {
            assert forall|u: Ulid, h: ContentHash| #[trigger]
                base.extent_index.journal(u, h) == (if start.extent_index.journal(u, h) is Some {
                    start.extent_index.journal(u, h)
                } else if exists|j: int|
                    0 <= j < x + 1 && (#[trigger] journals@[j]).0
                        == crate::extent_index::journal_key(u, h) {
                    delta.extent_index.journal(u, h)
                } else {
                    None
                }) by {
                if key == crate::extent_index::journal_key(u, h) {
                    assert(journals@[x as int].0 == crate::extent_index::journal_key(u, h));
                } else if exists|j: int|
                    0 <= j < x && (#[trigger] journals@[j]).0 == crate::extent_index::journal_key(
                        u,
                        h,
                    ) {
                    let j = choose|j: int|
                        0 <= j < x && (#[trigger] journals@[j]).0
                            == crate::extent_index::journal_key(u, h);
                    assert(0 <= j < x + 1 && journals@[j].0 == crate::extent_index::journal_key(
                        u,
                        h,
                    ));
                }
                assert(before.journal(u, h) is Some || before.journal(u, h) is None);
            }
        }
        x += 1;
    }
    proof {
        assert forall|u: Ulid, h: ContentHash| #[trigger]
            base.extent_index.journal(u, h) == (if start.extent_index.journal(u, h) is Some {
                start.extent_index.journal(u, h)
            } else {
                delta.extent_index.journal(u, h)
            }) by {
            if delta.extent_index.journal(u, h) is Some {
                let j = choose|j: int|
                    0 <= j < journals@.len() && (#[trigger] journals@[j]).0
                        == crate::extent_index::journal_key(u, h);
                assert(journals@[j].0 == crate::extent_index::journal_key(u, h));
            }
        }
    }
}

/// The part of the layered map that lies in a gap of the delta scans as the
/// base does.
proof fn lemma_gap_reads_base(
    m: Map<u64, MapEntry>,
    base: Map<u64, MapEntry>,
    delta: Map<u64, MapEntry>,
    from: int,
    to: int,
)
    requires
        is_layered(m, base, delta),
        0 <= from < to <= u64::MAX,
        forall|x: int| from <= x < to ==> (#[trigger] crate::lbamap::block_claim(delta, x)) is None,
    ensures
        scanned(m, from, to) == crate::lbamap::reads_in(base, from, to),
{
    assert forall|x: int| from <= x < to implies #[trigger] crate::lbamap::block_claim(m, x)
        == crate::lbamap::block_claim(base, x) by {
        assert(crate::lbamap::block_claim(delta, x) is None);
    }
    assert forall|x: int|
        #![trigger m.contains_key(x as u64)]
        #![trigger base.contains_key(x as u64)]
        from < x < to implies m.contains_key(x as u64) == base.contains_key(x as u64) by {
        let k = x as u64;
        assert(m.contains_key(k) <==> layered_key(base, delta, k as int));
        assert(crate::lbamap::block_claim(delta, x) is None);
        assert(crate::lbamap::block_claim(delta, x - 1) is None);
        if delta.contains_key(k) {
            assert(crate::lbamap::covers(delta, k, x));
        }
        if base.contains_key(k) {
            assert(crate::lbamap::covers(base, k, x));
        }
    }
    lemma_scan_same(m, base, from, to);
    lemma_reads_are_scanned(base, from, to);
}

/// One extent of the delta scans in the layered map as its own read.
proof fn lemma_delta_extent_reads(
    m: Map<u64, MapEntry>,
    base: Map<u64, MapEntry>,
    delta: Map<u64, MapEntry>,
    k: u64,
    start: int,
    end: int,
)
    requires
        is_layered(m, base, delta),
        delta.contains_key(k),
        k <= start < k + delta[k].lba_length,
        0 <= start < end <= u64::MAX,
        end <= k + delta[k].lba_length,
    ensures
        scanned(m, start, end) == seq![crate::lbamap::read_of(k, delta[k], start, end)],
{
    assert forall|x: int| start <= x < end implies #[trigger] crate::lbamap::block_claim(m, x)
        == crate::lbamap::block_claim(delta, x) by {
        assert(crate::lbamap::covers(delta, k, x));
    }
    assert forall|x: int|
        #![trigger m.contains_key(x as u64)]
        #![trigger delta.contains_key(x as u64)]
        start < x < end implies m.contains_key(x as u64) == delta.contains_key(x as u64) by {
        let j = x as u64;
        assert(m.contains_key(j) <==> layered_key(base, delta, j as int));
        assert(crate::lbamap::covers(delta, k, x));
    }
    lemma_scan_same(m, delta, start, end);
    lemma_scan_extent(delta, k, start, end);
    assert(scanned(delta, end, end) =~= Seq::<ExtentRead>::empty());
    assert(scanned(m, start, end) =~= seq![crate::lbamap::read_of(k, delta[k], start, end)]);
}

/// The reads of `[start, end)` from `top`, with each gap it leaves filled from
/// `under`.
fn overlay(top: &LbaMap, under: &LbaMap, start: u64, end: u64) -> (out: Vec<ExtentRead>)
    requires
        top.wf(),
        under.wf(),
        start < end,
    ensures
        out@ == crate::lbamap::reads_in(
            layered(under.entries(), top.entries()),
            start as int,
            end as int,
        ),
{
    let ghost d = top.entries();
    let ghost b = under.entries();
    let ghost m = layered(b, d);
    let ghost s = start as int;
    let ghost e = end as int;
    proof {
        lemma_layered(b, d);
        lemma_reads_are_scanned(m, s, e);
        lemma_reads_are_scanned(d, s, e);
    }
    let reads = top.extents_in_range(start, end);
    let mut out: Vec<ExtentRead> = Vec::new();
    let mut cursor: u64 = start;
    let mut i: usize = 0;
    while i < reads.len()
        invariant
            top.wf(),
            under.wf(),
            d == top.entries(),
            b == under.entries(),
            is_layered(m, b, d),
            s == start,
            e == end,
            start <= cursor <= end,
            i <= reads.len(),
            reads@.skip(i as int) == scanned(d, cursor as int, e),
            // Nothing of the delta runs on across the cursor.
            cursor == end || d.contains_key(cursor) || crate::lbamap::block_claim(
                d,
                cursor as int,
            ) is None || cursor == start,
            cursor > start ==> cursor == end || m.contains_key(cursor)
                || crate::lbamap::block_claim(m, cursor as int) is None,
            out@ == scanned(m, s, cursor as int),
        decreases reads.len() - i,
    {
        let extent = reads[i];
        let ghost c = cursor as int;
        let ghost rest = reads@.skip(i as int);
        assert(rest.len() > 0 && rest[0] == extent);
        assert(reads@.skip(i as int + 1) =~= rest.skip(1));
        proof {
            lemma_first_read(d, c, e);
        }
        let ghost at = extent.range_start as int;
        let ghost stop = extent.range_end as int;
        let ghost k = choose|k: u64|
            crate::lbamap::covers(d, k, at) && stop <= k + d[k].lba_length && extent
                == crate::lbamap::read_of(k, d[k], at, stop) && (at == c || k == at) && (stop == e
                || stop == k + d[k].lba_length);
        if extent.range_start > cursor {
            let mut below = under.extents_in_range(cursor, extent.range_start);
            let ghost below_view = below@;
            proof {
                lemma_gap_reads_base(m, b, d, c, at);
                assert(m.contains_key(extent.range_start) <==> layered_key(b, d, at));
                if c > s {
                    lemma_scan_split(m, s, c, at);
                } else {
                    assert(scanned(m, s, s) =~= Seq::<ExtentRead>::empty());
                }
            }
            out.append(&mut below);
            assert(out@ =~= scanned(m, s, at));
        }
        cursor = extent.range_end;
        out.push(extent);
        proof {
            lemma_delta_extent_reads(m, b, d, k, at, stop);
            if at > s {
                if at > c {
                    assert(m.contains_key(extent.range_start) <==> layered_key(b, d, at));
                }
                lemma_scan_split(m, s, at, stop);
            } else {
                assert(scanned(m, s, s) =~= Seq::<ExtentRead>::empty());
            }
            assert(out@ =~= scanned(m, s, stop));
            // The next block starts something of its own, or holds nothing.
            if stop < e {
                lemma_behind_extent(m, b, d, k);
            }
        }
        i += 1;
    }
    proof {
        assert(reads@.skip(reads@.len() as int) =~= Seq::<ExtentRead>::empty());
    }
    if cursor < end {
        let mut below = under.extents_in_range(cursor, end);
        proof {
            lemma_empty_scan(d, cursor as int, e);
            lemma_gap_reads_base(m, b, d, cursor as int, e);
            if cursor > start {
                lemma_scan_split(m, s, cursor as int, e);
            } else {
                assert(scanned(m, s, s) =~= Seq::<ExtentRead>::empty());
            }
        }
        out.append(&mut below);
        assert(out@ =~= scanned(m, s, e));
    }
    out
}

/// Behind an extent of the delta the layered map starts something of its own
/// or holds nothing, and so does the delta.
proof fn lemma_behind_extent(
    m: Map<u64, MapEntry>,
    base: Map<u64, MapEntry>,
    delta: Map<u64, MapEntry>,
    k: u64,
)
    requires
        is_layered(m, base, delta),
        delta.contains_key(k),
        k + delta[k].lba_length < u64::MAX,
    ensures
        ({
            let at = k + delta[k].lba_length;
            &&& delta.contains_key(at as u64) || crate::lbamap::block_claim(delta, at) is None
            &&& m.contains_key(at as u64) || crate::lbamap::block_claim(m, at) is None
        }),
{
    let at = k + delta[k].lba_length;
    let u = at as u64;
    assert(m.contains_key(u) <==> layered_key(base, delta, u as int));
    assert(crate::lbamap::covers(delta, k, at - 1));
    crate::lbamap::lemma_block_claim(delta, k, at - 1);
    if crate::lbamap::block_claim(delta, at) is Some {
        let c = choose|c: u64| crate::lbamap::covers(delta, c, at);
        assert(crate::lbamap::covers(delta, c, at));
        assert(c == at) by {
            assert(delta.contains_key(c) && delta.contains_key(k));
        }
    }
}

/// A scan that finds nothing passes only blocks that hold nothing.
proof fn lemma_empty_scan(m: Map<u64, MapEntry>, start: int, end: int)
    requires
        scanned(m, start, end).len() == 0,
        start <= end,
    ensures
        forall|x: int| start <= x < end ==> (#[trigger] crate::lbamap::block_claim(m, x)) is None,
    decreases end - start,
{
    if start < end {
        if crate::lbamap::block_claim(m, start) is Some {
            lemma_read_stop_range(m, start + 1, end);
        } else {
            lemma_empty_scan(m, start + 1, end);
        }
    }
}

/// The first read a scan finds: the blocks ahead of it hold nothing, it is
/// one extent's share of the range, and the scan goes on behind it.
proof fn lemma_first_read(m: Map<u64, MapEntry>, start: int, end: int)
    requires
        crate::lbamap::extents_wf(m),
        0 <= start <= end <= u64::MAX,
        scanned(m, start, end).len() > 0,
    ensures
        ({
            let all = scanned(m, start, end);
            let at = all[0].range_start as int;
            let stop = all[0].range_end as int;
            &&& start <= at < stop <= end
            &&& forall|x: int|
                start <= x < at ==> (#[trigger] crate::lbamap::block_claim(m, x)) is None
            &&& all.skip(1) == scanned(m, stop, end)
            &&& exists|k: u64|
                crate::lbamap::covers(m, k, at) && stop <= k + m[k].lba_length && all[0]
                    == crate::lbamap::read_of(k, m[k], at, stop) && (at == start || k == at) && (
                stop == end || stop == k + m[k].lba_length)
        }),
    decreases end - start,
{
    let all = scanned(m, start, end);
    if start < end {
        if crate::lbamap::block_claim(m, start) is None {
            lemma_first_read(m, start + 1, end);
            let at = all[0].range_start as int;
            let stop = all[0].range_end as int;
            let k = choose|k: u64|
                crate::lbamap::covers(m, k, at) && stop <= k + m[k].lba_length && all[0]
                    == crate::lbamap::read_of(k, m[k], at, stop) && (at == start + 1 || k == at)
                    && (stop == end || stop == k + m[k].lba_length);
            assert(crate::lbamap::covers(m, k, at));
            assert(k == at) by {
                if k != at {
                    assert(crate::lbamap::covers(m, k, start));
                }
            }
            assert forall|x: int| start <= x < at implies (
            #[trigger] crate::lbamap::block_claim(m, x)) is None by {
                if x == start {
                }
            }
        } else {
            let k = choose|k: u64| crate::lbamap::covers(m, k, start);
            assert(crate::lbamap::covers(m, k, start));
            lemma_scan_extent(m, k, start, end);
            let stop = if k + m[k].lba_length < end {
                k + m[k].lba_length
            } else {
                end
            };
            assert(all[0] == crate::lbamap::read_of(k, m[k], start, end));
            assert(all.skip(1) =~= scanned(m, stop, end));
            assert(crate::lbamap::read_of(k, m[k], start, end) == crate::lbamap::read_of(
                k,
                m[k],
                start,
                stop,
            ));
        }
    }
}

/// A layer that holds nothing finds nothing.
proof fn lemma_vacant(maps: Maps)
    requires
        maps.wf(),
        maps.vacant(),
    ensures
        forall|h: ContentHash| #[trigger] maps.extent_index.body(h) is None,
        forall|u: Ulid, h: ContentHash| #[trigger] maps.extent_index.journal(u, h) is None,
{
    maps.extent_index.lemma_bodies();
    maps.extent_index.lemma_journals();
}

/// The one layer `after` has every location that either of the two layers has:
/// the base's where it has one, and else the delta's.
pub open spec fn keeps_locations(layers: MapLayers, after: Maps) -> bool {
    let (base, delta) = (layers.base_maps().extent_index, layers.delta_maps().extent_index);
    &&& forall|h: ContentHash|
        {
            &&& base.body(h) is Some ==> #[trigger] after.extent_index.body(h) == base.body(h)
            &&& base.body(h) is None ==> after.extent_index.body(h) == delta.body(h)
        }
    &&& forall|u: Ulid, h: ContentHash|
        {
            &&& base.journal(u, h) is Some ==> #[trigger] after.extent_index.journal(u, h)
                == base.journal(u, h)
            &&& base.journal(u, h) is None ==> after.extent_index.journal(u, h) == delta.journal(
                u,
                h,
            )
        }
}

/// The base under the delta.
pub struct MapLayers {
    base: Maps,
    delta: Maps,
}

impl MapLayers {
    pub closed spec fn base_maps(&self) -> Maps {
        self.base
    }

    pub closed spec fn delta_maps(&self) -> Maps {
        self.delta
    }

    pub open spec fn wf(&self) -> bool {
        self.base_maps().wf() && self.delta_maps().wf()
    }

    /// The block map the layers stand for.
    pub open spec fn entries(&self) -> Map<u64, MapEntry> {
        layered(self.base_maps().lbamap.entries(), self.delta_maps().lbamap.entries())
    }

    /// Where a lookup finds the body of `hash`: by the delta, and then the base.
    pub open spec fn body_found(&self, hash: ContentHash) -> Option<ExtentLocation> {
        match self.delta_maps().extent_index.body(hash) {
            Some(loc) => Some(loc),
            None => self.base_maps().extent_index.body(hash),
        }
    }

    /// Where a lookup finds the journal body of `hash` in `segment`.
    pub open spec fn journal_found(&self, segment: Ulid, hash: ContentHash) -> Option<
        ExtentLocation,
    > {
        match self.delta_maps().extent_index.journal(segment, hash) {
            Some(loc) => Some(loc),
            None => self.base_maps().extent_index.journal(segment, hash),
        }
    }

    /// Where a lookup finds the delta of `hash`.
    pub open spec fn delta_found(&self, hash: ContentHash) -> Option<DeltaLocation> {
        match self.delta_maps().extent_index.delta(hash) {
            Some(loc) => Some(loc),
            None => self.base_maps().extent_index.delta(hash),
        }
    }

    proof fn lemma_keeps_locations(&self, after: Maps)
        requires
            self.wf(),
            absorbed(self.base_maps(), self.delta_maps(), after),
        ensures
            keeps_locations(*self, after),
    {
        if self.delta_maps().vacant() {
            lemma_vacant(self.delta_maps());
        }
    }

    /// `base` under an empty delta.
    pub fn new(base: Maps) -> (layers: Self)
        requires
            base.wf(),
        ensures
            layers.wf(),
            layers.base_maps() == base,
            layers.delta_maps().vacant(),
            layers.entries() == base.lbamap.entries(),
    {
        let layers = MapLayers { base, delta: Maps::empty() };
        proof {
            law_empty_delta(base.lbamap.entries());
        }
        layers
    }

    /// Whether the delta holds nothing.
    pub fn delta_is_empty(&self) -> (b: bool)
        requires
            self.wf(),
        ensures
            b == self.delta_maps().vacant(),
    {
        self.delta.is_empty()
    }

    /// The base alone.
    pub fn base(&self) -> (base: &Maps)
        ensures
            *base == self.base_maps(),
    {
        &self.base
    }

    /// The delta alone.
    pub fn delta(&self) -> (delta: &Maps)
        ensures
            *delta == self.delta_maps(),
    {
        &self.delta
    }

    /// What a read of `[start_lba, end_lba)` needs, ascending, each part from
    /// the topmost layer that covers it. An empty range is answered by the
    /// delta alone.
    pub fn extents_in_range(&self, start_lba: u64, end_lba: u64) -> (reads: Vec<ExtentRead>)
        requires
            self.wf(),
            start_lba <= end_lba,
        ensures
            start_lba < end_lba ==> reads@ == crate::lbamap::reads_in(
                self.entries(),
                start_lba as int,
                end_lba as int,
            ),
            start_lba == end_lba ==> reads@ == crate::lbamap::reads_in(
                self.delta_maps().lbamap.entries(),
                start_lba as int,
                end_lba as int,
            ),
    {
        if start_lba == end_lba {
            return self.delta.lbamap.extents_in_range(start_lba, end_lba);
        }
        overlay(&self.delta.lbamap, &self.base.lbamap, start_lba, end_lba)
    }

    /// `LbaMap::has_full_match` on the topmost layer that covers any part of
    /// the range. A partial cover in the delta answers for the range, so a
    /// match in the base under it is none.
    pub fn has_full_match(&self, start_lba: u64, lba_length: u32, hash: &ContentHash) -> (b: bool)
        requires
            self.wf(),
            start_lba + lba_length <= u64::MAX,
        ensures
            b == (if crate::lbamap::reads_in(
                self.delta_maps().lbamap.entries(),
                start_lba as int,
                start_lba + lba_length,
            ).len() > 0 {
                crate::lbamap::full_match(
                    self.delta_maps().lbamap.entries(),
                    start_lba,
                    lba_length,
                    *hash,
                )
            } else {
                crate::lbamap::full_match(
                    self.base_maps().lbamap.entries(),
                    start_lba,
                    lba_length,
                    *hash,
                )
            }),
    {
        let end_lba: u64 = start_lba + lba_length as u64;
        if self.delta.lbamap.extents_in_range(start_lba, end_lba).len() > 0 {
            return self.delta.lbamap.has_full_match(start_lba, lba_length, hash);
        }
        self.base.lbamap.has_full_match(start_lba, lba_length, hash)
    }

    /// Where the body of `hash` lies, by the delta and then the base.
    pub fn lookup_extent(&self, hash: &ContentHash) -> (found: Option<&ExtentLocation>)
        requires
            self.wf(),
        ensures
            match found {
                Some(loc) => Some(*loc) == (if self.delta_maps().extent_index.body(*hash)
                    is Some {
                    self.delta_maps().extent_index.body(*hash)
                } else {
                    self.base_maps().extent_index.body(*hash)
                }),
                None => self.delta_maps().extent_index.body(*hash) is None
                    && self.base_maps().extent_index.body(*hash) is None,
            },
            found is Some == self.body_found(*hash) is Some,
            found matches Some(loc) ==> self.body_found(*hash) == Some(*loc),
    {
        match self.delta.extent_index.lookup(hash) {
            Some(loc) => Some(loc),
            None => self.base.extent_index.lookup(hash),
        }
    }

    /// Where the journal body of `hash` in `segment` lies, by the delta and
    /// then the base.
    pub fn lookup_journal(&self, segment: Ulid, hash: &ContentHash) -> (found: Option<
        &ExtentLocation,
    >)
        requires
            self.wf(),
        ensures
            match found {
                Some(loc) => Some(*loc) == (if self.delta_maps().extent_index.journal(
                    segment,
                    *hash,
                ) is Some {
                    self.delta_maps().extent_index.journal(segment, *hash)
                } else {
                    self.base_maps().extent_index.journal(segment, *hash)
                }),
                None => self.delta_maps().extent_index.journal(segment, *hash) is None
                    && self.base_maps().extent_index.journal(segment, *hash) is None,
            },
            found is Some == self.journal_found(segment, *hash) is Some,
            found matches Some(loc) ==> self.journal_found(segment, *hash) == Some(*loc),
    {
        match self.delta.extent_index.lookup_journal(segment, hash) {
            Some(loc) => Some(loc),
            None => self.base.extent_index.lookup_journal(segment, hash),
        }
    }

    /// Where the delta of `hash` lies, by the delta layer and then the base.
    pub fn lookup_delta(&self, hash: &ContentHash) -> (found: Option<&DeltaLocation>)
        requires
            self.wf(),
        ensures
            match found {
                Some(loc) => Some(*loc) == (if self.delta_maps().extent_index.delta(*hash)
                    is Some {
                    self.delta_maps().extent_index.delta(*hash)
                } else {
                    self.base_maps().extent_index.delta(*hash)
                }),
                None => self.delta_maps().extent_index.delta(*hash) is None
                    && self.base_maps().extent_index.delta(*hash) is None,
            },
            found is Some == self.delta_found(*hash) is Some,
            found matches Some(loc) ==> self.delta_found(*hash) == Some(*loc),
    {
        match self.delta.extent_index.lookup_delta(hash) {
            Some(loc) => Some(loc),
            None => self.base.extent_index.lookup_delta(hash),
        }
    }

    /// Whether neither layer has a journal body.
    pub fn journal_is_empty(&self) -> (b: bool)
        ensures
            b == (self.delta_maps().extent_index.journal_slots().len() == 0
                && self.base_maps().extent_index.journal_slots().len() == 0),
    {
        self.delta.extent_index.journal_is_empty() && self.base.extent_index.journal_is_empty()
    }

    /// The delta's block map, where the log's writes go.
    pub fn delta_lbamap_mut(&mut self) -> (map: &mut LbaMap)
        ensures
            *map == old(self).delta_maps().lbamap,
            final(self).base_maps() == old(self).base_maps(),
            final(self).delta_maps() == (Maps {
                lbamap: *final(map),
                extent_index: old(self).delta_maps().extent_index,
            }),
    {
        &mut self.delta.lbamap
    }

    /// The delta's extent index, where the log's bodies go.
    pub fn delta_extent_index_mut(&mut self) -> (index: &mut ExtentIndex)
        ensures
            *index == old(self).delta_maps().extent_index,
            final(self).base_maps() == old(self).base_maps(),
            final(self).delta_maps() == (Maps {
                lbamap: old(self).delta_maps().lbamap,
                extent_index: *final(index),
            }),
    {
        &mut self.delta.extent_index
    }

    /// Fold the delta into the base and leave the delta empty. What the
    /// layers stand for stays as it was.
    pub fn absorb(&mut self)
        requires
            old(self).wf(),
        ensures
            final(self).wf(),
            final(self).delta_maps().vacant(),
            old(self).delta_maps().vacant() ==> *final(self) == *old(self),
            folded(old(self).base_maps(), old(self).delta_maps(), final(self).base_maps())
                || old(self).delta_maps().vacant(),
            final(self).base_maps().lbamap.entries() == old(self).entries(),
            final(self).entries() == old(self).entries(),
            keeps_locations(*old(self), final(self).base_maps()),
            forall|h: ContentHash| #[trigger]
                final(self).body_found(h) is Some == old(self).body_found(h) is Some,
            forall|u: Ulid, h: ContentHash| #[trigger]
                final(self).journal_found(u, h) is Some == old(self).journal_found(u, h) is Some,
    {
        proof {
            law_empty_delta(self.base.lbamap.entries());
        }
        if self.delta.is_empty() {
            proof {
                self.lemma_keeps_locations(self.base);
            }
            return;
        }
        let ghost before = *self;
        fold(&mut self.base, &self.delta);
        self.delta = Maps::empty();
        proof {
            law_empty_delta(self.base.lbamap.entries());
            before.lemma_keeps_locations(self.base);
            lemma_vacant(self.delta);
        }
    }

    /// The base's block map for mutation, with the delta absorbed first.
    pub fn lbamap_mut(&mut self) -> (map: &mut LbaMap)
        requires
            old(self).wf(),
        ensures
            map.wf(),
            map.entries() == old(self).entries(),
            final(self).delta_maps().wf(),
            final(self).delta_maps().vacant(),
            exists|mid: Maps| #[trigger]
                absorbed(old(self).base_maps(), old(self).delta_maps(), mid) && *map == mid.lbamap
                    && final(self).base_maps() == (Maps {
                    lbamap: *final(map),
                    extent_index: mid.extent_index,
                }),
    {
        self.absorb();
        let ghost mid = self.base;
        assert(absorbed(old(self).base_maps(), old(self).delta_maps(), mid));
        &mut self.base.lbamap
    }

    /// The base's extent index for mutation, with the delta absorbed first.
    pub fn extent_index_mut(&mut self) -> (index: &mut ExtentIndex)
        requires
            old(self).wf(),
        ensures
            index.wf(),
            final(self).delta_maps().wf(),
            final(self).delta_maps().vacant(),
            final(self).base_maps().lbamap.entries() == old(self).entries(),
            exists|mid: Maps| #[trigger]
                absorbed(old(self).base_maps(), old(self).delta_maps(), mid) && *index
                    == mid.extent_index && final(self).base_maps() == (Maps {
                    lbamap: mid.lbamap,
                    extent_index: *final(index),
                }),
    {
        self.absorb();
        let ghost mid = self.base;
        assert(absorbed(old(self).base_maps(), old(self).delta_maps(), mid));
        &mut self.base.extent_index
    }

    /// Both of the base's maps for mutation, with the delta absorbed first.
    pub fn base_mut(&mut self) -> (maps: &mut Maps)
        requires
            old(self).wf(),
        ensures
            absorbed(old(self).base_maps(), old(self).delta_maps(), *maps),
            maps.wf(),
            maps.lbamap.entries() == old(self).entries(),
            final(self).delta_maps().wf(),
            final(self).delta_maps().vacant(),
            final(self).base_maps() == *final(maps),
    {
        self.absorb();
        &mut self.base
    }

    /// One layer with the delta folded in. The layers stay as they are.
    pub fn materialised(&self) -> (maps: Maps)
        requires
            self.wf(),
        ensures
            maps.wf(),
            maps.lbamap.entries() == self.entries(),
            self.delta_maps().vacant() ==> maps.extent_index.same_as(
                self.base_maps().extent_index,
            ),
            !self.delta_maps().vacant() ==> exists|copy: Maps|
                copy.wf() && copy.lbamap.entries() == self.base_maps().lbamap.entries()
                    && copy.extent_index.same_as(self.base_maps().extent_index)
                    && #[trigger] folded(copy, self.delta_maps(), maps),
            keeps_locations(*self, maps),
    {
        proof {
            law_empty_delta(self.base.lbamap.entries());
        }
        let mut maps = self.base.duplicate();
        if self.delta.is_empty() {
            proof {
                lemma_vacant(self.delta);
            }
            return maps;
        }
        let ghost copy = maps;
        fold(&mut maps, &self.delta);
        assert(folded(copy, self.delta_maps(), maps));
        maps
    }

    /// Put the base back to `pre`, a value `materialised` gave after an
    /// absorb.
    pub fn restore(&mut self, pre: Maps)
        requires
            old(self).delta_maps().vacant(),
        ensures
            final(self).base_maps() == pre,
            final(self).delta_maps() == old(self).delta_maps(),
    {
        self.base = pre;
    }
}

// ---------------------------------------------------------------------------
// Laws of the layers
// ---------------------------------------------------------------------------

/// Absorbing the log's layer loses no location: whatever body or journal body a
/// lookup found before, one is found afterwards, the base's where it had one
/// and the log's otherwise, and nothing is found that was not. Every block
/// still holds what it held, so what was just written can be read.
pub proof fn law_absorb_loses_no_location(
    before: MapLayers,
    after: MapLayers,
    segment: Ulid,
    hash: ContentHash,
    lba: int,
)
    requires
        before.wf(),
        after.wf(),
        after.delta_maps().vacant(),
        absorbed(before.base_maps(), before.delta_maps(), after.base_maps()),
    ensures
        before.body_found(hash) is Some <==> after.body_found(hash) is Some,
        before.base_maps().extent_index.body(hash) is Some ==> after.body_found(hash)
            == before.base_maps().extent_index.body(hash),
        before.base_maps().extent_index.body(hash) is None ==> after.body_found(hash)
            == before.delta_maps().extent_index.body(hash),
        before.journal_found(segment, hash) is Some <==> after.journal_found(segment, hash) is Some,
        before.base_maps().extent_index.journal(segment, hash) is Some ==> after.journal_found(
            segment,
            hash,
        ) == before.base_maps().extent_index.journal(segment, hash),
        before.base_maps().extent_index.journal(segment, hash) is None ==> after.journal_found(
            segment,
            hash,
        ) == before.delta_maps().extent_index.journal(segment, hash),
        before.base_maps().extent_index.delta(hash) is Some ==> after.delta_found(hash)
            == before.base_maps().extent_index.delta(hash),
        crate::lbamap::block_claim(before.delta_maps().lbamap.entries(), lba) is Some
            ==> crate::lbamap::block_claim(after.entries(), lba) == crate::lbamap::block_claim(
            before.delta_maps().lbamap.entries(),
            lba,
        ),
        crate::lbamap::block_claim(before.delta_maps().lbamap.entries(), lba) is None
            ==> crate::lbamap::block_claim(after.entries(), lba) == crate::lbamap::block_claim(
            before.base_maps().lbamap.entries(),
            lba,
        ),
{
    lemma_vacant(after.delta_maps());
    after.delta_maps().extent_index.lemma_deltas();
    let (base, delta) = (before.base_maps(), before.delta_maps());
    law_delta_masks_base(base.lbamap.entries(), delta.lbamap.entries(), lba);
    law_empty_delta(after.base_maps().lbamap.entries());
    if delta.vacant() {
        lemma_vacant(delta);
        law_empty_delta(base.lbamap.entries());
    }
}

/// The log's layer answers first: what it has is what is found, and what it
/// lacks is found where the base has it.
pub proof fn law_the_log_answers_first(layers: MapLayers, segment: Ulid, hash: ContentHash)
    requires
        layers.wf(),
    ensures
        ({
            let (delta, base) = (
                layers.delta_maps().extent_index,
                layers.base_maps().extent_index,
            );
            &&& delta.body(hash) is Some ==> layers.body_found(hash) == delta.body(hash)
            &&& delta.body(hash) is None ==> layers.body_found(hash) == base.body(hash)
            &&& delta.journal(segment, hash) is Some ==> layers.journal_found(segment, hash)
                == delta.journal(segment, hash)
            &&& delta.journal(segment, hash) is None ==> layers.journal_found(segment, hash)
                == base.journal(segment, hash)
            &&& delta.delta(hash) is Some ==> layers.delta_found(hash) == delta.delta(hash)
            &&& delta.delta(hash) is None ==> layers.delta_found(hash) == base.delta(hash)
        }),
{
}

} // verus!
