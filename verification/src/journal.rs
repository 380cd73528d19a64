//! The blocks of a guest filesystem's journal.
//!
//! A journal takes a fixed set of block ranges and overwrites them in a
//! circle. What is written there is the shortest-lived data on the device, so
//! it is kept apart from the rest.

use vstd::prelude::*;

use crate::ids::Ulid;
use crate::order::{is_stable_order, lemma_order_is_onto, stable_order};

verus! {

/// The end of a range given as its start and length.
pub open spec fn range_end(r: (u64, u64)) -> int {
    r.0 + r.1
}

/// Some range holds the block.
pub open spec fn in_ranges(ranges: Seq<(u64, u64)>, lba: int) -> bool {
    exists|i: int|
        0 <= i < ranges.len() && (#[trigger] ranges[i]).0 <= lba && lba < range_end(ranges[i])
}

/// The ranges ascend, none is empty, and there is a gap between each and the
/// next.
pub open spec fn is_normal(ranges: Seq<(u64, u64)>) -> bool {
    &&& forall|i: int|
        0 <= i < ranges.len() ==> (#[trigger] ranges[i]).1 > 0 && range_end(ranges[i]) <= u64::MAX
    &&& forall|i: int, j: int|
        0 <= i < j < ranges.len() ==> range_end(#[trigger] ranges[i]) < (#[trigger] ranges[j]).0
}

/// How many blocks the first `n` ranges hold.
pub open spec fn blocks_before(ranges: Seq<(u64, u64)>, n: int) -> int
    decreases n,
{
    if n <= 0 {
        0
    } else {
        blocks_before(ranges, n - 1) + ranges[n - 1].1
    }
}

proof fn lemma_blocks_before(ranges: Seq<(u64, u64)>, n: int)
    requires
        is_normal(ranges),
        0 < n <= ranges.len(),
    ensures
        0 <= blocks_before(ranges, n) <= range_end(ranges[n - 1]),
    decreases n,
{
    if n > 1 {
        lemma_blocks_before(ranges, n - 1);
        assert(range_end(ranges[n - 2]) < ranges[n - 1].0);
    } else {
        assert(blocks_before(ranges, 0) == 0);
    }
}

/// The first normal list that holds the same blocks is the only one.
pub proof fn law_normal_ranges_unique(a: Seq<(u64, u64)>, b: Seq<(u64, u64)>)
    requires
        is_normal(a),
        is_normal(b),
        forall|lba: int| in_ranges(a, lba) <==> in_ranges(b, lba),
    ensures
        a == b,
{
    lemma_same_prefix(a, b, a.len() as int);
    if b.len() > a.len() {
        let r = b[a.len() as int];
        assert(in_ranges(b, r.0 as int));
        assert(in_ranges(a, r.0 as int));
        let i = choose|i: int|
            0 <= i < a.len() && (#[trigger] a[i]).0 <= r.0 && r.0 < range_end(a[i]);
        assert(a[i] == b[i]);
        assert(range_end(b[i]) < r.0);
    }
    assert(a =~= b);
}

proof fn lemma_same_prefix(a: Seq<(u64, u64)>, b: Seq<(u64, u64)>, n: int)
    requires
        is_normal(a),
        is_normal(b),
        forall|lba: int| in_ranges(a, lba) <==> in_ranges(b, lba),
        0 <= n <= a.len(),
    ensures
        n <= b.len(),
        forall|i: int| 0 <= i < n ==> a[i] == b[i],
    decreases n,
{
    if n > 0 {
        let k = n - 1;
        lemma_same_prefix(a, b, k);
        let r = a[k];
        assert(in_ranges(a, r.0 as int));
        assert(in_ranges(b, r.0 as int));
        let j = choose|j: int|
            0 <= j < b.len() && (#[trigger] b[j]).0 <= r.0 && r.0 < range_end(b[j]);
        if j < k {
            assert(a[j] == b[j]);
            assert(range_end(a[j]) < a[k].0);
        }
        assert(k <= j);
        let s = b[k];
        // The first range past the common ones begins where the other does.
        assert(in_ranges(b, s.0 as int));
        assert(in_ranges(a, s.0 as int));
        let i = choose|i: int|
            0 <= i < a.len() && (#[trigger] a[i]).0 <= s.0 && s.0 < range_end(a[i]);
        if i < k {
            assert(a[i] == b[i]);
            assert(range_end(b[i]) < b[k].0);
        }
        if j > k {
            assert(range_end(b[k]) < b[j].0);
            assert(b[k].0 < a[k].0);
            if i > k {
                assert(range_end(a[k]) < a[i].0);
            }
        }
        assert(j == k);
        if i > k {
            assert(range_end(a[k]) < a[i].0);
        }
        assert(r.0 == s.0);
        // And ends where it does: neither holds the block past its end.
        lemma_end_is_free(a, k);
        lemma_end_is_free(b, k);
        if range_end(r) < range_end(s) {
            assert(b[k].0 <= range_end(r) && range_end(r) < range_end(b[k]));
            assert(in_ranges(b, range_end(r)));
        }
        if range_end(s) < range_end(r) {
            assert(a[k].0 <= range_end(s) && range_end(s) < range_end(a[k]));
            assert(in_ranges(a, range_end(s)));
        }
    }
}

/// The block past a range is in none.
proof fn lemma_end_is_free(ranges: Seq<(u64, u64)>, k: int)
    requires
        is_normal(ranges),
        0 <= k < ranges.len(),
    ensures
        !in_ranges(ranges, range_end(ranges[k])),
{
    let e = range_end(ranges[k]);
    assert forall|i: int| 0 <= i < ranges.len() implies !((#[trigger] ranges[i]).0 <= e && e
        < range_end(ranges[i])) by {
        if i < k {
            assert(range_end(ranges[i]) < ranges[k].0);
        } else if i > k {
            assert(range_end(ranges[k]) < ranges[i].0);
        }
    }
}

/// The block before a range is in none.
proof fn lemma_before_is_free(ranges: Seq<(u64, u64)>, k: int)
    requires
        is_normal(ranges),
        0 <= k < ranges.len(),
    ensures
        !in_ranges(ranges, ranges[k].0 - 1),
{
    let e = ranges[k].0 - 1;
    assert forall|i: int| 0 <= i < ranges.len() implies !((#[trigger] ranges[i]).0 <= e && e
        < range_end(ranges[i])) by {
        if i < k {
            assert(range_end(ranges[i]) < ranges[k].0);
        } else if i > k {
            assert(range_end(ranges[k]) < ranges[i].0);
        }
    }
}

/// `b` is a start or an end of a range.
pub open spec fn is_boundary(ranges: Seq<(u64, u64)>, b: int) -> bool {
    exists|i: int|
        0 <= i < ranges.len() && ((#[trigger] ranges[i]).0 == b || range_end(ranges[i]) == b)
}

/// A boundary is where a journal block and another meet.
proof fn lemma_boundary(ranges: Seq<(u64, u64)>, b: int)
    requires
        is_normal(ranges),
    ensures
        is_boundary(ranges, b) <==> in_ranges(ranges, b - 1) != in_ranges(ranges, b),
{
    if is_boundary(ranges, b) {
        let i = choose|i: int|
            0 <= i < ranges.len() && ((#[trigger] ranges[i]).0 == b || range_end(ranges[i]) == b);
        if ranges[i].0 == b {
            lemma_before_is_free(ranges, i);
            assert(in_ranges(ranges, b));
        } else {
            lemma_end_is_free(ranges, i);
            assert(in_ranges(ranges, b - 1));
        }
    }
    if in_ranges(ranges, b) && !in_ranges(ranges, b - 1) {
        let i = choose|i: int|
            0 <= i < ranges.len() && (#[trigger] ranges[i]).0 <= b && b < range_end(ranges[i]);
        if ranges[i].0 < b {
            assert(ranges[i].0 <= b - 1 && b - 1 < range_end(ranges[i]));
        }
    }
    if !in_ranges(ranges, b) && in_ranges(ranges, b - 1) {
        let i = choose|i: int|
            0 <= i < ranges.len() && (#[trigger] ranges[i]).0 <= b - 1 && b - 1 < range_end(
                ranges[i],
            );
        if b < range_end(ranges[i]) {
            assert(ranges[i].0 <= b);
        }
    }
}

/// The blocks from `start` up to `end` are all journal or all not.
pub open spec fn is_uniform(ranges: Seq<(u64, u64)>, start: int, end: int) -> bool {
    forall|x: int|
        start <= x < end ==> #[trigger] in_ranges(ranges, x) == in_ranges(ranges, start)
}

/// Blocks without a boundary between them are uniform.
proof fn lemma_uniform(ranges: Seq<(u64, u64)>, start: int, end: int)
    requires
        is_normal(ranges),
        forall|b: int| start < b < end ==> !is_boundary(ranges, b),
    ensures
        is_uniform(ranges, start, end),
{
    assert forall|x: int| start <= x < end implies #[trigger] in_ranges(ranges, x) == in_ranges(
        ranges,
        start,
    ) by {
        lemma_uniform_at(ranges, start, x, end);
    }
}

proof fn lemma_uniform_at(ranges: Seq<(u64, u64)>, start: int, x: int, end: int)
    requires
        is_normal(ranges),
        forall|b: int| start < b < end ==> !is_boundary(ranges, b),
        start <= x < end,
    ensures
        in_ranges(ranges, x) == in_ranges(ranges, start),
    decreases x - start,
{
    if x > start {
        lemma_uniform_at(ranges, start, x - 1, end);
        assert(!is_boundary(ranges, x));
        lemma_boundary(ranges, x);
    }
}

/// The blocks of a journal, as ranges in normal form. Empty where nothing is
/// known of a journal.
#[derive(Debug)]
pub struct JournalRanges {
    ranges: Vec<(u64, u64)>,
}

impl View for JournalRanges {
    type V = Seq<(u64, u64)>;

    closed spec fn view(&self) -> Seq<(u64, u64)> {
        self.ranges@
    }
}

impl Default for JournalRanges {
    fn default() -> (r: Self)
        ensures
            r@.len() == 0,
    {
        JournalRanges { ranges: Vec::new() }
    }
}

/// A journal block and another meet within the stretch.
pub open spec fn crossed(ranges: Seq<(u64, u64)>, start: int, end: int) -> bool {
    exists|x: int|
        start < x < end && in_ranges(ranges, x - 1) != #[trigger] in_ranges(ranges, x)
}

/// Run `i` follows on the one before it, and where they meet a journal block
/// meets another.
pub open spec fn runs_meet(ranges: Seq<(u64, u64)>, runs: Seq<(u64, u32)>, i: int) -> bool {
    &&& runs[i].0 == runs[i - 1].0 + runs[i - 1].1
    &&& runs[i - 1].1 > 0
    &&& in_ranges(ranges, runs[i].0 - 1) != in_ranges(ranges, runs[i].0 as int)
}

/// Run `i` is all journal or all not.
pub open spec fn run_is_uniform(ranges: Seq<(u64, u64)>, runs: Seq<(u64, u32)>, i: int) -> bool {
    is_uniform(ranges, runs[i].0 as int, runs[i].0 + runs[i].1)
}

/// The runs that a stretch of blocks is cut into: they follow on each other
/// from `start` to `end`, each is all journal or all not, and where two meet a
/// journal block meets another.
pub open spec fn are_runs(
    ranges: Seq<(u64, u64)>,
    start: int,
    end: int,
    runs: Seq<(u64, u32)>,
) -> bool {
    &&& runs.len() > 0
    &&& runs[0].0 == start
    &&& runs.last().0 + runs.last().1 == end
    &&& forall|i: int| 0 < i < runs.len() ==> #[trigger] runs_meet(ranges, runs, i)
    &&& forall|i: int| 0 <= i < runs.len() ==> #[trigger] run_is_uniform(ranges, runs, i)
}

impl JournalRanges {
    #[verifier::type_invariant]
    spec fn normal(self) -> bool {
        is_normal(self.ranges@)
    }

    /// The normal form of these ranges: empty ones dropped, the rest in order,
    /// those that touch or overlap as one.
    pub fn new(ranges: Vec<(u64, u64)>) -> (r: Self)
        requires
            forall|i: int| 0 <= i < ranges@.len() ==> range_end(#[trigger] ranges@[i]) <= u64::MAX,
        ensures
            is_normal(r@),
            forall|lba: int| #[trigger] in_ranges(r@, lba) <==> in_ranges(ranges@, lba),
    {
        let ghost given = ranges@;
        let mut keys: Vec<u128> = Vec::new();
        let mut i: usize = 0;
        while i < ranges.len()
            invariant
                i <= ranges@.len(),
                keys@.len() == i,
                forall|j: int| 0 <= j < i ==> keys@[j] == (#[trigger] ranges@[j]).0,
            decreases ranges.len() - i,
        {
            keys.push(ranges[i].0 as u128);
            i += 1;
        }
        let order = stable_order(&keys);
        let ghost ints = order@.map_values(|i: usize| i as int);
        let mut out: Vec<(u64, u64)> = Vec::new();
        let mut k: usize = 0;
        while k < order.len()
            invariant
                k <= order@.len(),
                given == ranges@,
                ints == order@.map_values(|i: usize| i as int),
                is_stable_order(keys@, ints),
                keys@.len() == given.len(),
                forall|j: int| 0 <= j < given.len() ==> keys@[j] == (#[trigger] given[j]).0,
                forall|i: int| 0 <= i < given.len() ==> range_end(#[trigger] given[i]) <= u64::MAX,
                is_normal(out@),
                // Nothing is out past the blocks taken in so far.
                forall|i: int, j: int|
                    0 <= i < out@.len() && k <= j < ints.len() ==> (#[trigger] out@[i]).0
                        <= given[#[trigger] ints[j]].0,
                forall|lba: int| #[trigger]
                    in_ranges(out@, lba) <==> exists|j: int|
                        0 <= j < k && given[#[trigger] ints[j]].0 <= lba && lba < range_end(
                            given[ints[j]],
                        ),
            decreases order.len() - k,
        {
            let ghost before = out@;
            assert(ints[k as int] == order@[k as int]);
            let (start, len) = ranges[order[k]];
            proof {
                assert forall|j: int| k < j < ints.len() implies start <= given[#[trigger] ints[j]].0 by {
                    assert(crate::order::ahead(keys@, ints[k as int], ints[j]));
                }
            }
            if len > 0 {
                let n = out.len();
                if n > 0 && start <= out[n - 1].0 + out[n - 1].1 {
                    let (prev_start, prev_len) = out[n - 1];
                    assert(before[n - 1].0 <= given[ints[k as int]].0);
                    let reach: u64 = start + len - prev_start;
                    let longer: u64 = if prev_len < reach {
                        reach
                    } else {
                        prev_len
                    };
                    out[n - 1] = (prev_start, longer);
                    proof {
                        assert forall|i: int, j: int| 0 <= i < j < out@.len() implies range_end(
                            #[trigger] out@[i],
                        ) < (#[trigger] out@[j]).0 by {
                            assert(range_end(before[i]) < before[j].0);
                        }
                        assert forall|lba: int| #[trigger]
                            in_ranges(out@, lba) <==> (in_ranges(before, lba) || (start <= lba
                                && lba < start + len)) by {
                            lemma_grown(before, out@, n - 1, start, len, lba);
                        }
                    }
                } else {
                    out.push((start, len));
                    proof {
                        assert forall|i: int, j: int| 0 <= i < j < out@.len() implies range_end(
                            #[trigger] out@[i],
                        ) < (#[trigger] out@[j]).0 by {
                            if j < before.len() {
                                assert(range_end(before[i]) < before[j].0);
                            } else if i < before.len() - 1 {
                                assert(range_end(before[i]) < before[before.len() - 1].0);
                            }
                        }
                        assert forall|lba: int| #[trigger]
                            in_ranges(out@, lba) <==> (in_ranges(before, lba) || (start <= lba
                                && lba < start + len)) by {
                            if in_ranges(before, lba) {
                                let i = choose|i: int|
                                    0 <= i < before.len() && (#[trigger] before[i]).0 <= lba && lba
                                        < range_end(before[i]);
                                assert(out@[i] == before[i]);
                            }
                            if start <= lba && lba < start + len {
                                assert(out@[before.len() as int] == (start, len));
                            }
                        }
                    }
                }
            }
            proof {
                assert forall|lba: int| #[trigger]
                    in_ranges(out@, lba) <==> exists|j: int|
                        0 <= j < k + 1 && given[#[trigger] ints[j]].0 <= lba && lba < range_end(
                            given[ints[j]],
                        ) by {
                    assert(in_ranges(out@, lba) <==> (in_ranges(before, lba) || (start <= lba && lba
                        < start + len)));
                    if in_ranges(before, lba) {
                        let j = choose|j: int|
                            0 <= j < k && given[#[trigger] ints[j]].0 <= lba && lba < range_end(
                                given[ints[j]],
                            );
                        assert(0 <= j < k + 1 && given[ints[j]].0 <= lba);
                    }
                    if start <= lba && lba < start + len {
                        assert(given[ints[k as int]].0 <= lba && lba < range_end(
                            given[ints[k as int]],
                        ));
                    }
                }
            }
            k += 1;
        }
        proof {
            assert forall|lba: int| #[trigger] in_ranges(out@, lba) <==> in_ranges(given, lba) by {
                if in_ranges(given, lba) {
                    let x = choose|x: int|
                        0 <= x < given.len() && (#[trigger] given[x]).0 <= lba && lba < range_end(
                            given[x],
                        );
                    lemma_order_is_onto(keys@, ints, x);
                    let j = choose|j: int| 0 <= j < ints.len() && #[trigger] ints[j] == x;
                    assert(given[ints[j]].0 <= lba && lba < range_end(given[ints[j]]));
                }
            }
        }
        JournalRanges { ranges: out }
    }

    /// Whether no block is known to be the journal's.
    pub fn is_empty(&self) -> (b: bool)
        ensures
            b == (self@.len() == 0),
    {
        self.ranges.len() == 0
    }

    /// Whether the block is the journal's.
    pub fn contains(&self, lba: u64) -> (b: bool)
        ensures
            b == in_ranges(self@, lba as int),
    {
        proof {
            use_type_invariant(self);
        }
        // The first range that begins past the block.
        let mut lo: usize = 0;
        let mut hi: usize = self.ranges.len();
        while lo < hi
            invariant
                lo <= hi <= self.ranges@.len(),
                is_normal(self.ranges@),
                forall|i: int| 0 <= i < lo ==> (#[trigger] self.ranges@[i]).0 <= lba,
                forall|i: int|
                    hi <= i < self.ranges@.len() ==> (#[trigger] self.ranges@[i]).0 > lba,
            decreases hi - lo,
        {
            let mid: usize = lo + (hi - lo) / 2;
            if self.ranges[mid].0 <= lba {
                proof {
                    assert forall|i: int| 0 <= i < mid + 1 implies (#[trigger] self.ranges@[i]).0
                        <= lba by {
                        if i < mid {
                            assert(range_end(self.ranges@[i]) < self.ranges@[mid as int].0);
                        }
                    }
                }
                lo = mid + 1;
            } else {
                proof {
                    assert forall|i: int| mid <= i < self.ranges@.len() implies (
                    #[trigger] self.ranges@[i]).0 > lba by {
                        if i > mid {
                            assert(range_end(self.ranges@[mid as int]) < self.ranges@[i].0);
                        }
                    }
                }
                hi = mid;
            }
        }
        if lo == 0 {
            return false;
        }
        let (start, len) = self.ranges[lo - 1];
        proof {
            assert(range_end(self.ranges@[lo - 1]) <= u64::MAX);
            assert forall|i: int| 0 <= i < lo - 1 implies range_end(#[trigger] self.ranges@[i])
                <= lba by {
                assert(range_end(self.ranges@[i]) < self.ranges@[lo - 1].0);
            }
        }
        lba < start + len
    }

    /// The ranges in normal form.
    pub fn as_slice(&self) -> (s: &[(u64, u64)])
        ensures
            s@ == self@,
            is_normal(s@),
    {
        proof {
            use_type_invariant(self);
        }
        self.ranges.as_slice()
    }

    /// How many blocks the journal has.
    pub fn lba_count(&self) -> (n: u64)
        ensures
            n == blocks_before(self@, self@.len() as int),
    {
        proof {
            use_type_invariant(self);
        }
        let mut n: u64 = 0;
        let mut i: usize = 0;
        while i < self.ranges.len()
            invariant
                i <= self.ranges@.len(),
                is_normal(self.ranges@),
                n == blocks_before(self.ranges@, i as int),
            decreases self.ranges.len() - i,
        {
            proof {
                lemma_blocks_before(self.ranges@, i as int + 1);
                assert(range_end(self.ranges@[i as int]) <= u64::MAX);
            }
            n = n + self.ranges[i].1;
            i += 1;
        }
        n
    }

    /// Whether the run of blocks crosses a boundary: somewhere within it a
    /// journal block and another meet.
    pub fn crosses_boundary(&self, start_lba: u64, lba_count: u32) -> (b: bool)
        requires
            start_lba + lba_count <= u64::MAX,
        ensures
            b == crossed(self@, start_lba as int, start_lba + lba_count),
    {
        proof {
            use_type_invariant(self);
        }
        let end: u64 = start_lba + lba_count as u64;
        let mut i: usize = 0;
        while i < self.ranges.len()
            invariant
                i <= self.ranges@.len(),
                is_normal(self.ranges@),
                end == start_lba + lba_count,
                forall|j: int|
                    0 <= j < i ==> !(start_lba < (#[trigger] self.ranges@[j]).0 < end) && !(
                    start_lba < range_end(self.ranges@[j]) < end),
            decreases self.ranges.len() - i,
        {
            let (s, l) = self.ranges[i];
            assert(range_end(self.ranges@[i as int]) <= u64::MAX);
            let range_end_lba: u64 = s + l;
            if (s > start_lba && s < end) || (range_end_lba > start_lba && range_end_lba < end) {
                proof {
                    let x: int = if s > start_lba && s < end {
                        s as int
                    } else {
                        range_end_lba as int
                    };
                    assert(is_boundary(self.ranges@, x)) by {
                        assert(self.ranges@[i as int].0 == x || range_end(self.ranges@[i as int])
                            == x);
                    }
                    lemma_boundary(self.ranges@, x);
                    assert(in_ranges(self@, x - 1) != in_ranges(self@, x));
                }
                return true;
            }
            i += 1;
        }
        proof {
            assert forall|x: int| start_lba < x < end implies in_ranges(self@, x - 1)
                == #[trigger] in_ranges(self@, x) by {
                lemma_boundary(self.ranges@, x);
            }
        }
        false
    }

    /// Cut the run of blocks at every boundary it crosses, and nowhere else. One
    /// that crosses nothing comes back whole.
    #[verifier::rlimit(30)]
    pub fn split_at_boundaries(&self, start_lba: u64, lba_count: u32) -> (runs: Vec<(u64, u32)>)
        requires
            start_lba + lba_count <= u64::MAX,
        ensures
            are_runs(self@, start_lba as int, start_lba + lba_count, runs@),
            lba_count > 0 ==> forall|i: int| 0 <= i < runs@.len() ==> (#[trigger] runs@[i]).1 > 0,
            runs@.len() > 1 <==> crossed(self@, start_lba as int, start_lba + lba_count),
            !crossed(self@, start_lba as int, start_lba + lba_count) ==> runs@ == seq![
                (start_lba, lba_count),
            ],
    {
        proof {
            use_type_invariant(self);
        }
        let end: u64 = start_lba + lba_count as u64;
        let mut runs: Vec<(u64, u32)> = Vec::new();
        let mut cursor: u64 = start_lba;
        let mut i: usize = 0;
        let ghost ranges = self.ranges@;
        while i < self.ranges.len()
            invariant
                i <= self.ranges@.len(),
                ranges == self.ranges@,
                is_normal(ranges),
                end == start_lba + lba_count,
                cutting(ranges, start_lba as int, end as int, runs@, cursor as int),
                // Every boundary of the ranges passed is behind the cursor.
                forall|j: int|
                    0 <= j < i ==> !(cursor < (#[trigger] ranges[j]).0 < end) && !(cursor
                        < range_end(ranges[j]) < end),
                cursor == start_lba || (i > 0 && cursor <= range_end(ranges[i - 1])),
                forall|j: int| 0 <= j < runs@.len() ==> (#[trigger] runs@[j]).1 > 0,
                lba_count > 0 ==> cursor < end,
                runs@.len() > 0 ==> crossed(ranges, start_lba as int, end as int),
                runs@.len() == 0 ==> cursor == start_lba,
            decreases self.ranges.len() - i,
        {
            let (s, l) = self.ranges[i];
            assert(range_end(ranges[i as int]) <= u64::MAX);
            let e: u64 = s + l;
            proof {
                if i > 0 {
                    assert(range_end(ranges[i - 1]) < ranges[i as int].0);
                }
            }
            if s > start_lba && s < end {
                proof {
                    assert(cursor < s);
                    assert(is_boundary(ranges, s as int)) by {
                        assert(ranges[i as int].0 == s);
                    }
                    lemma_no_boundary_between(ranges, i as int, cursor as int, s as int, end as int);
                    lemma_cut(ranges, start_lba as int, end as int, runs@, cursor, s);
                    lemma_boundary(ranges, s as int);
                }
                runs.push((cursor, (s - cursor) as u32));
                cursor = s;
            }
            if e > start_lba && e < end {
                proof {
                    assert(ranges[i as int].0 <= cursor < e);
                    assert(is_boundary(ranges, e as int)) by {
                        assert(range_end(ranges[i as int]) == e);
                    }
                    assert forall|j: int| 0 <= j < i implies range_end(#[trigger] ranges[j])
                        <= cursor by {
                        assert(range_end(ranges[j]) < ranges[i as int].0);
                    }
                    lemma_no_boundary_within(ranges, i as int, cursor as int, e as int, end as int);
                    lemma_cut(ranges, start_lba as int, end as int, runs@, cursor, e);
                    lemma_boundary(ranges, e as int);
                }
                runs.push((cursor, (e - cursor) as u32));
                cursor = e;
            }
            proof {
                assert forall|j: int| 0 <= j < i + 1 implies !(cursor < (#[trigger] ranges[j]).0
                    < end) && !(cursor < range_end(ranges[j]) < end) by {
                    if j < i {
                        assert(range_end(ranges[j]) < ranges[i as int].0);
                    }
                }
            }
            i += 1;
        }
        proof {
            assert forall|b: int| cursor < b < end implies !is_boundary(ranges, b) by {}
            lemma_uniform(ranges, cursor as int, end as int);
            if runs@.len() == 0 {
                assert forall|x: int| start_lba < x < end implies in_ranges(ranges, x - 1)
                    == #[trigger] in_ranges(ranges, x) by {
                    lemma_boundary(ranges, x);
                }
            }
            let last = (cursor, (end - cursor) as u32);
            let all = runs@.push(last);
            assert forall|k: int| 0 < k < all.len() implies #[trigger] runs_meet(
                ranges,
                all,
                k,
            ) by {
                if k < runs@.len() {
                    assert(runs_meet(ranges, runs@, k));
                }
            }
            assert forall|k: int| 0 <= k < all.len() implies #[trigger] run_is_uniform(
                ranges,
                all,
                k,
            ) by {
                if k < runs@.len() {
                    assert(run_is_uniform(ranges, runs@, k));
                }
            }
        }
        runs.push((cursor, (end - cursor) as u32));
        runs
    }

    /// A copy of the ranges.
    pub fn duplicate(&self) -> (r: Self)
        ensures
            r@ == self@,
    {
        proof {
            use_type_invariant(self);
        }
        let mut ranges: Vec<(u64, u64)> = Vec::new();
        let mut i: usize = 0;
        while i < self.ranges.len()
            invariant
                i <= self.ranges@.len(),
                ranges@ == self.ranges@.take(i as int),
            decreases self.ranges.len() - i,
        {
            ranges.push(self.ranges[i]);
            assert(ranges@ =~= self.ranges@.take(i as int + 1));
            i += 1;
        }
        assert(ranges@ =~= self.ranges@);
        JournalRanges { ranges }
    }
}

/// `grown` is `before` with the range at `at` grown to take in the blocks from
/// `start`, which it touches.
proof fn lemma_grown(
    before: Seq<(u64, u64)>,
    grown: Seq<(u64, u64)>,
    at: int,
    start: u64,
    len: u64,
    lba: int,
)
    requires
        0 <= at < before.len(),
        before[at].0 <= start <= range_end(before[at]),
        grown == before.update(at, grown[at]),
        grown[at].0 == before[at].0,
        range_end(grown[at]) == (if range_end(before[at]) < start + len {
            start + len
        } else {
            range_end(before[at])
        }),
    ensures
        in_ranges(grown, lba) <==> (in_ranges(before, lba) || (start <= lba && lba < start + len)),
{
    if in_ranges(grown, lba) {
        let i = choose|i: int|
            0 <= i < grown.len() && (#[trigger] grown[i]).0 <= lba && lba < range_end(grown[i]);
        if i != at {
            assert(before[i] == grown[i]);
        } else if lba < range_end(before[at]) {
            assert(before[at].0 <= lba);
        }
    }
    if in_ranges(before, lba) {
        let i = choose|i: int|
            0 <= i < before.len() && (#[trigger] before[i]).0 <= lba && lba < range_end(before[i]);
        if i != at {
            assert(before[i] == grown[i]);
        } else {
            assert(grown[at].0 <= lba && lba < range_end(grown[at]));
        }
    }
    if start <= lba && lba < start + len {
        assert(grown[at].0 <= lba && lba < range_end(grown[at]));
    }
}

/// The runs cut so far reach from `start` to `cursor`.
spec fn cutting(
    ranges: Seq<(u64, u64)>,
    start: int,
    end: int,
    runs: Seq<(u64, u32)>,
    cursor: int,
) -> bool {
    &&& start <= cursor <= end
    &&& runs.len() == 0 ==> cursor == start
    &&& runs.len() > 0 ==> runs[0].0 == start && runs.last().0 + runs.last().1 == cursor
        && runs.last().1 > 0 && in_ranges(ranges, cursor - 1) != in_ranges(ranges, cursor)
    &&& forall|i: int| 0 < i < runs.len() ==> #[trigger] runs_meet(ranges, runs, i)
    &&& forall|i: int| 0 <= i < runs.len() ==> #[trigger] run_is_uniform(ranges, runs, i)
}

/// No boundary lies between the cursor and the start of the next range.
proof fn lemma_no_boundary_between(
    ranges: Seq<(u64, u64)>,
    i: int,
    cursor: int,
    s: int,
    end: int,
)
    requires
        is_normal(ranges),
        0 <= i < ranges.len(),
        s == ranges[i].0,
        s < end,
        forall|j: int|
            0 <= j < i ==> !(cursor < (#[trigger] ranges[j]).0 < end) && !(cursor < range_end(
                ranges[j],
            ) < end),
    ensures
        forall|b: int| cursor < b < s ==> !is_boundary(ranges, b),
{
    assert forall|b: int| cursor < b < s implies !is_boundary(ranges, b) by {
        assert forall|j: int| 0 <= j < ranges.len() implies !((#[trigger] ranges[j]).0 == b
            || range_end(ranges[j]) == b) by {
            if j > i {
                assert(range_end(ranges[i]) < ranges[j].0);
            }
        }
    }
}

/// No boundary lies between the cursor and the end of the range it is at.
proof fn lemma_no_boundary_within(
    ranges: Seq<(u64, u64)>,
    i: int,
    cursor: int,
    e: int,
    end: int,
)
    requires
        is_normal(ranges),
        0 <= i < ranges.len(),
        e == range_end(ranges[i]),
        e < end,
        ranges[i].0 <= cursor,
        forall|j: int|
            0 <= j < i ==> range_end(#[trigger] ranges[j]) <= cursor,
    ensures
        forall|b: int| cursor < b < e ==> !is_boundary(ranges, b),
{
    assert forall|b: int| cursor < b < e implies !is_boundary(ranges, b) by {
        assert forall|j: int| 0 <= j < ranges.len() implies !((#[trigger] ranges[j]).0 == b
            || range_end(ranges[j]) == b) by {
            if j > i {
                assert(range_end(ranges[i]) < ranges[j].0);
            }
        }
    }
}

/// One more run, up to a place where a journal block and another meet.
proof fn lemma_extend(
    ranges: Seq<(u64, u64)>,
    start: int,
    end: int,
    runs: Seq<(u64, u32)>,
    cursor: u64,
    cut: u64,
)
    requires
        cutting(ranges, start, end, runs, cursor as int),
        cursor < cut < end,
        end - start <= u32::MAX,
        is_uniform(ranges, cursor as int, cut as int),
        in_ranges(ranges, cut - 1) != in_ranges(ranges, cut as int),
    ensures
        cutting(ranges, start, end, runs.push((cursor, (cut - cursor) as u32)), cut as int),
{
    let all = runs.push((cursor, (cut - cursor) as u32));
    assert forall|i: int| 0 < i < all.len() implies #[trigger] runs_meet(ranges, all, i) by {
        if i < runs.len() {
            assert(runs_meet(ranges, runs, i));
        }
    }
    assert forall|i: int| 0 <= i < all.len() implies #[trigger] run_is_uniform(ranges, all, i) by {
        if i < runs.len() {
            assert(run_is_uniform(ranges, runs, i));
        }
    }
}

/// One more run, up to a boundary.
proof fn lemma_cut(
    ranges: Seq<(u64, u64)>,
    start: int,
    end: int,
    runs: Seq<(u64, u32)>,
    cursor: u64,
    cut: u64,
)
    requires
        is_normal(ranges),
        cutting(ranges, start, end, runs, cursor as int),
        cursor < cut < end,
        end - start <= u32::MAX,
        is_boundary(ranges, cut as int),
        forall|b: int| cursor < b < cut ==> !is_boundary(ranges, b),
    ensures
        cutting(ranges, start, end, runs.push((cursor, (cut - cursor) as u32)), cut as int),
{
    lemma_boundary(ranges, cut as int);
    lemma_uniform(ranges, cursor as int, cut as int);
    lemma_extend(ranges, start, end, runs, cursor, cut);
}

/// A journal window, and the first segment it applies to where it was found
/// while the volume was open.
#[derive(Debug)]
pub struct JournalWindow {
    pub ranges: JournalRanges,
    pub activation: Option<Ulid>,
}

impl Default for JournalWindow {
    fn default() -> (w: Self)
        ensures
            w.ranges@.len() == 0,
            w.activation is None,
    {
        JournalWindow { ranges: JournalRanges::default(), activation: None }
    }
}

/// A stretch is cut no further than it must be: of two runs next to each other
/// one is the journal's and the other is not.
pub proof fn law_runs_alternate(
    ranges: Seq<(u64, u64)>,
    start: int,
    end: int,
    runs: Seq<(u64, u32)>,
    i: int,
)
    requires
        are_runs(ranges, start, end, runs),
        0 < i < runs.len(),
    ensures
        in_ranges(ranges, runs[i - 1].0 as int) != in_ranges(ranges, runs[i].0 as int),
{
    assert(runs_meet(ranges, runs, i));
    assert(run_is_uniform(ranges, runs, i - 1));
    assert(in_ranges(ranges, runs[i].0 - 1) == in_ranges(ranges, runs[i - 1].0 as int));
}

/// A block is the journal's just where it is one of the blocks of a range,
/// counted from the range's first.
pub proof fn law_a_range_holds_its_blocks(ranges: Seq<(u64, u64)>, lba: int)
    ensures
        in_ranges(ranges, lba) <==> exists|i: int|
            #![trigger ranges[i]]
            0 <= i < ranges.len() && 0 <= lba - ranges[i].0 < ranges[i].1,
{
    if in_ranges(ranges, lba) {
        let i = choose|i: int|
            0 <= i < ranges.len() && (#[trigger] ranges[i]).0 <= lba && lba < range_end(ranges[i]);
        assert(0 <= lba - ranges[i].0 < ranges[i].1);
    }
}

/// The blocks that the ranges hold.
pub open spec fn blocks_held(ranges: Seq<(u64, u64)>) -> Set<int> {
    Set::new(|lba: int| in_ranges(ranges, lba))
}

/// The count of a journal's blocks is that of the blocks it holds.
pub proof fn law_the_count_is_of_the_blocks(ranges: Seq<(u64, u64)>)
    requires
        is_normal(ranges),
    ensures
        blocks_held(ranges).finite(),
        blocks_held(ranges).len() == blocks_before(ranges, ranges.len() as int),
    decreases ranges.len(),
{
    if ranges.len() == 0 {
        assert(blocks_held(ranges) =~= Set::<int>::empty());
    } else {
        let before = ranges.drop_last();
        let last = ranges.last();
        assert(forall|i: int| 0 <= i < before.len() ==> #[trigger] before[i] == ranges[i]);
        law_the_count_is_of_the_blocks(before);
        lemma_blocks_prefix(before, ranges, before.len() as int);
        let more = vstd::set_lib::set_int_range(last.0 as int, last.0 + last.1);
        vstd::set_lib::lemma_int_range(last.0 as int, last.0 + last.1);
        assert(blocks_held(ranges) =~= blocks_held(before).union(more)) by {
            assert forall|x: int| blocks_held(ranges).contains(x) <==> blocks_held(before).union(
                more,
            ).contains(x) by {
                if in_ranges(ranges, x) {
                    let i = choose|i: int|
                        0 <= i < ranges.len() && (#[trigger] ranges[i]).0 <= x && x < range_end(
                            ranges[i],
                        );
                    if i < before.len() {
                        assert(before[i].0 <= x);
                    }
                }
                if in_ranges(before, x) {
                    let i = choose|i: int|
                        0 <= i < before.len() && (#[trigger] before[i]).0 <= x && x < range_end(
                            before[i],
                        );
                    assert(ranges[i].0 <= x);
                }
                if more.contains(x) {
                    assert(ranges[ranges.len() - 1].0 <= x);
                }
            }
        }
        assert(blocks_held(before).disjoint(more)) by {
            assert forall|x: int| !(blocks_held(before).contains(x) && more.contains(x)) by {
                if in_ranges(before, x) && more.contains(x) {
                    let i = choose|i: int|
                        0 <= i < before.len() && (#[trigger] before[i]).0 <= x && x < range_end(
                            before[i],
                        );
                    assert(range_end(ranges[i]) < ranges[ranges.len() - 1].0);
                }
            }
        }
        vstd::set_lib::lemma_set_disjoint_lens(blocks_held(before), more);
    }
}

proof fn lemma_blocks_prefix(a: Seq<(u64, u64)>, b: Seq<(u64, u64)>, n: int)
    requires
        0 <= n <= a.len(),
        n <= b.len(),
        forall|i: int| 0 <= i < n ==> #[trigger] a[i] == b[i],
    ensures
        blocks_before(a, n) == blocks_before(b, n),
    decreases n,
{
    if n > 0 {
        lemma_blocks_prefix(a, b, n - 1);
    }
}

/// A run crosses a boundary just where it holds both kinds: some block of the
/// journal, and some that is none.
pub proof fn law_a_run_that_crosses_is_mixed(ranges: Seq<(u64, u64)>, start: int, end: int)
    ensures
        crossed(ranges, start, end) <==> exists|x: int, y: int|
            #![trigger in_ranges(ranges, x), in_ranges(ranges, y)]
            start <= x < end && start <= y < end && in_ranges(ranges, x) && !in_ranges(ranges, y),
{
    if crossed(ranges, start, end) {
        let x = choose|x: int|
            start < x < end && in_ranges(ranges, x - 1) != #[trigger] in_ranges(ranges, x);
        if in_ranges(ranges, x) {
            assert(!in_ranges(ranges, x - 1));
        } else {
            assert(in_ranges(ranges, x - 1));
        }
    }
    if exists|x: int, y: int|
        #![trigger in_ranges(ranges, x), in_ranges(ranges, y)]
        start <= x < end && start <= y < end && in_ranges(ranges, x) && !in_ranges(ranges, y) {
        let (x, y) = choose|x: int, y: int|
            #![trigger in_ranges(ranges, x), in_ranges(ranges, y)]
            start <= x < end && start <= y < end && in_ranges(ranges, x) && !in_ranges(ranges, y);
        if x < y {
            lemma_turns(ranges, x, y);
        } else {
            lemma_turns(ranges, y, x);
        }
    }
}

/// Between two blocks of different kinds, two neighbours differ.
proof fn lemma_turns(ranges: Seq<(u64, u64)>, a: int, b: int)
    requires
        a < b,
        in_ranges(ranges, a) != in_ranges(ranges, b),
    ensures
        exists|x: int|
            a < x <= b && in_ranges(ranges, x - 1) != #[trigger] in_ranges(ranges, x),
    decreases b - a,
{
    if in_ranges(ranges, b - 1) == in_ranges(ranges, b) {
        lemma_turns(ranges, a, b - 1);
        let x = choose|x: int|
            a < x <= b - 1 && in_ranges(ranges, x - 1) != #[trigger] in_ranges(ranges, x);
        assert(a < x <= b && in_ranges(ranges, x - 1) != in_ranges(ranges, x));
    }
}

/// The runs of a stretch lose no block of it and add none, and each block of a
/// run is of the run's kind.
pub proof fn law_runs_are_the_stretch(
    ranges: Seq<(u64, u64)>,
    start: int,
    end: int,
    runs: Seq<(u64, u32)>,
    lba: int,
)
    requires
        are_runs(ranges, start, end, runs),
    ensures
        start <= lba < end <==> exists|i: int|
            #![trigger runs[i]]
            0 <= i < runs.len() && runs[i].0 <= lba < runs[i].0 + runs[i].1,
        forall|i: int|
            #![trigger runs[i]]
            0 <= i < runs.len() && runs[i].0 <= lba < runs[i].0 + runs[i].1 ==> in_ranges(
                ranges,
                lba,
            ) == in_ranges(ranges, runs[i].0 as int),
{
    lemma_runs_reach(ranges, start, end, runs, runs.len() - 1, lba);
    assert forall|i: int|
        #![trigger runs[i]]
        0 <= i < runs.len() && runs[i].0 <= lba < runs[i].0 + runs[i].1 implies in_ranges(
        ranges,
        lba,
    ) == in_ranges(ranges, runs[i].0 as int) by {
        assert(run_is_uniform(ranges, runs, i));
    }
    if exists|i: int|
        #![trigger runs[i]]
        0 <= i < runs.len() && runs[i].0 <= lba < runs[i].0 + runs[i].1 {
        let i = choose|i: int|
            #![trigger runs[i]]
            0 <= i < runs.len() && runs[i].0 <= lba < runs[i].0 + runs[i].1;
        lemma_runs_ascend(ranges, start, end, runs, 0, i);
        lemma_runs_ascend(ranges, start, end, runs, i, runs.len() - 1);
    }
}

proof fn lemma_runs_ascend(
    ranges: Seq<(u64, u64)>,
    start: int,
    end: int,
    runs: Seq<(u64, u32)>,
    i: int,
    j: int,
)
    requires
        are_runs(ranges, start, end, runs),
        0 <= i <= j < runs.len(),
    ensures
        runs[i].0 <= runs[j].0,
        runs[i].0 + runs[i].1 <= runs[j].0 + runs[j].1,
    decreases j - i,
{
    if i < j {
        lemma_runs_ascend(ranges, start, end, runs, i, j - 1);
        assert(runs_meet(ranges, runs, j));
    }
}

proof fn lemma_runs_reach(
    ranges: Seq<(u64, u64)>,
    start: int,
    end: int,
    runs: Seq<(u64, u32)>,
    n: int,
    lba: int,
)
    requires
        are_runs(ranges, start, end, runs),
        0 <= n < runs.len(),
    ensures
        start <= lba < runs[n].0 + runs[n].1 ==> exists|i: int|
            #![trigger runs[i]]
            0 <= i <= n && runs[i].0 <= lba < runs[i].0 + runs[i].1,
    decreases n,
{
    if n > 0 {
        lemma_runs_reach(ranges, start, end, runs, n - 1, lba);
        assert(runs_meet(ranges, runs, n));
        if start <= lba < runs[n].0 + runs[n].1 {
            if lba < runs[n].0 {
                let i = choose|i: int|
                    #![trigger runs[i]]
                    0 <= i <= n - 1 && runs[i].0 <= lba < runs[i].0 + runs[i].1;
                assert(0 <= i <= n && runs[i].0 <= lba < runs[i].0 + runs[i].1);
            } else {
                assert(runs[n].0 <= lba);
            }
        }
    } else if start <= lba < runs[0].0 + runs[0].1 {
        assert(runs[0].0 <= lba);
    }
}

} // verus!
