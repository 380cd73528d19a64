//! Stable ordering of items by an integer key.

use vstd::prelude::*;

verus! {

/// Item `a` sorts ahead of item `b`: its key is smaller, or the keys are
/// equal and `a` came first.
pub open spec fn ahead(keys: Seq<u128>, a: int, b: int) -> bool {
    keys[a] < keys[b] || (keys[a] == keys[b] && a < b)
}

/// `order` lists every index of `keys` once, each ahead of the ones after it.
pub open spec fn is_stable_order(keys: Seq<u128>, order: Seq<int>) -> bool {
    &&& order.len() == keys.len()
    &&& forall|i: int| 0 <= i < order.len() ==> 0 <= #[trigger] order[i] < keys.len()
    &&& forall|i: int, j: int|
        0 <= i < j < order.len() ==> ahead(keys, #[trigger] order[i], #[trigger] order[j])
}

/// The indices of `keys` in stable ascending order.
pub open spec fn stable_order_of(keys: Seq<u128>) -> Seq<int> {
    choose|order: Seq<int>| is_stable_order(keys, order)
}

/// A stable order misses no index.
pub proof fn lemma_order_is_onto(keys: Seq<u128>, order: Seq<int>, x: int)
    requires
        is_stable_order(keys, order),
        0 <= x < keys.len(),
    ensures
        exists|i: int| 0 <= i < order.len() && #[trigger] order[i] == x,
{
    let n = keys.len() as int;
    let range = vstd::set_lib::set_int_range(0, n);
    vstd::set_lib::lemma_int_range(0, n);
    assert(order.no_duplicates());
    order.unique_seq_to_set();
    assert(order.to_set().subset_of(range));
    vstd::set_lib::lemma_subset_equality(order.to_set(), range);
    assert(order.to_set().contains(x));
}

/// There is one stable order.
pub proof fn lemma_order_unique(keys: Seq<u128>, a: Seq<int>, b: Seq<int>)
    requires
        is_stable_order(keys, a),
        is_stable_order(keys, b),
    ensures
        a == b,
{
    lemma_order_prefix(keys, a, b, a.len() as int);
    assert(a =~= b);
}

proof fn lemma_order_prefix(keys: Seq<u128>, a: Seq<int>, b: Seq<int>, n: int)
    requires
        is_stable_order(keys, a),
        is_stable_order(keys, b),
        0 <= n <= a.len(),
    ensures
        forall|i: int| 0 <= i < n ==> a[i] == b[i],
    decreases n,
{
    if n > 0 {
        lemma_order_prefix(keys, a, b, n - 1);
        let i = n - 1;
        if a[i] != b[i] {
            lemma_order_is_onto(keys, b, a[i]);
            lemma_order_is_onto(keys, a, b[i]);
            let p = choose|p: int| 0 <= p < b.len() && #[trigger] b[p] == a[i];
            let q = choose|q: int| 0 <= q < a.len() && #[trigger] a[q] == b[i];
            assert(p >= i) by {
                if p < i {
                    assert(a[p] == b[p]);
                    assert(ahead(keys, a[p], a[i]));
                }
            }
            assert(q >= i) by {
                if q < i {
                    assert(a[q] == b[q]);
                    assert(ahead(keys, b[q], b[i]));
                }
            }
            assert(ahead(keys, b[i], b[p]));
            assert(ahead(keys, a[i], a[q]));
        }
    }
}

/// Where a last item of key `key` belongs among the first `at` of `order`.
spec fn place_of(keys: Seq<u128>, order: Seq<int>, key: u128, at: int) -> int
    decreases at,
{
    if at <= 0 || keys[order[at - 1]] <= key {
        at
    } else {
        place_of(keys, order, key, at - 1)
    }
}

proof fn lemma_place_of(keys: Seq<u128>, order: Seq<int>, key: u128, at: int)
    requires
        is_stable_order(keys, order),
        0 <= at <= order.len(),
    ensures
        0 <= place_of(keys, order, key, at) <= at,
        forall|i: int|
            0 <= i < place_of(keys, order, key, at) ==> keys[#[trigger] order[i]] <= key,
        forall|i: int|
            place_of(keys, order, key, at) <= i < at ==> keys[#[trigger] order[i]] > key,
    decreases at,
{
    if at > 0 {
        if keys[order[at - 1]] <= key {
            assert forall|i: int| 0 <= i < at implies keys[#[trigger] order[i]] <= key by {
                if i < at - 1 {
                    assert(ahead(keys, order[i], order[at - 1]));
                }
            }
        } else {
            lemma_place_of(keys, order, key, at - 1);
        }
    }
}

/// There is a stable order.
pub proof fn lemma_order_exists(keys: Seq<u128>)
    ensures
        is_stable_order(keys, stable_order_of(keys)),
    decreases keys.len(),
{
    if keys.len() == 0 {
        assert(is_stable_order(keys, Seq::empty()));
    } else {
        let head = keys.drop_last();
        let n = keys.len() - 1;
        lemma_order_exists(head);
        let before = stable_order_of(head);
        let at = place_of(head, before, keys[n], before.len() as int);
        lemma_place_of(head, before, keys[n], before.len() as int);
        let order = before.insert(at, n);
        assert forall|i: int| 0 <= i < order.len() implies 0 <= #[trigger] order[i]
            < keys.len() by {
            if i < at {
                assert(order[i] == before[i]);
            } else if i > at {
                assert(order[i] == before[i - 1]);
            }
        }
        assert forall|i: int, j: int| 0 <= i < j < order.len() implies ahead(
            keys,
            #[trigger] order[i],
            #[trigger] order[j],
        ) by {
            let a = if i < at {
                i
            } else {
                i - 1
            };
            let b = if j < at {
                j
            } else {
                j - 1
            };
            if i != at {
                assert(order[i] == before[a]);
                assert(0 <= before[a] < head.len());
                assert(head[before[a]] == keys[before[a]]);
            }
            if j != at {
                assert(order[j] == before[b]);
                assert(0 <= before[b] < head.len());
                assert(head[before[b]] == keys[before[b]]);
            }
            if i != at && j != at {
                assert(ahead(head, before[a], before[b]));
            }
        }
        assert(is_stable_order(keys, order));
    }
}

/// The indices in `run` ascend and lie in `[lo, hi)`.
spec fn sorted_run(keys: Seq<u128>, run: Seq<usize>, lo: int, hi: int) -> bool {
    &&& forall|i: int| 0 <= i < run.len() ==> lo <= #[trigger] run[i] < hi
    &&& forall|i: int, j: int|
        0 <= i < j < run.len() ==> ahead(keys, #[trigger] run[i] as int, #[trigger] run[j] as int)
}

fn sort_run(keys: &Vec<u128>, lo: usize, hi: usize) -> (run: Vec<usize>)
    requires
        lo <= hi <= keys.len(),
    ensures
        run@.len() == hi - lo,
        sorted_run(keys@, run@, lo as int, hi as int),
    decreases hi - lo,
{
    let mut out: Vec<usize> = Vec::new();
    if hi - lo == 0 {
        return out;
    }
    if hi - lo == 1 {
        out.push(lo);
        return out;
    }
    let mid: usize = lo + (hi - lo) / 2;
    let left = sort_run(keys, lo, mid);
    let right = sort_run(keys, mid, hi);
    let mut i: usize = 0;
    let mut j: usize = 0;
    while i < left.len() || j < right.len()
        invariant
            lo <= mid <= hi <= keys.len(),
            i <= left.len(),
            j <= right.len(),
            left@.len() == mid - lo,
            right@.len() == hi - mid,
            sorted_run(keys@, left@, lo as int, mid as int),
            sorted_run(keys@, right@, mid as int, hi as int),
            out@.len() == i + j,
            sorted_run(keys@, out@, lo as int, hi as int),
            forall|x: int, y: int|
                0 <= x < out@.len() && i <= y < left@.len() ==> ahead(
                    keys@,
                    #[trigger] out@[x] as int,
                    #[trigger] left@[y] as int,
                ),
            forall|x: int, y: int|
                0 <= x < out@.len() && j <= y < right@.len() ==> ahead(
                    keys@,
                    #[trigger] out@[x] as int,
                    #[trigger] right@[y] as int,
                ),
        decreases left.len() - i + right.len() - j,
    {
        let take_left: bool = if j >= right.len() {
            true
        } else if i >= left.len() {
            false
        } else {
            keys[left[i]] <= keys[right[j]]
        };
        if take_left {
            assert(left@[i as int] < mid);
            out.push(left[i]);
            i += 1;
        } else {
            assert(right@[j as int] >= mid);
            out.push(right[j]);
            j += 1;
        }
    }
    out
}

/// The indices of `keys` in stable ascending order of their keys.
pub fn stable_order(keys: &Vec<u128>) -> (order: Vec<usize>)
    ensures
        is_stable_order(keys@, order@.map_values(|i: usize| i as int)),
        order@.map_values(|i: usize| i as int) == stable_order_of(keys@),
{
    let order = sort_run(keys, 0, keys.len());
    proof {
        let ints = order@.map_values(|i: usize| i as int);
        assert(is_stable_order(keys@, ints));
        lemma_order_unique(keys@, ints, stable_order_of(keys@));
    }
    order
}

} // verus!
