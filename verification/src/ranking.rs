//! Ranking single-precision values from the largest down.

use crate::ieee::{is_nan, key, law_order_key, less, order_key, single_is_nan, single_lt};
use crate::ieee::{single_le, single_units};
use vstd::prelude::*;

verus! {

/// An integer that orders values for ranking: numbers by their value, and what is
/// not a number below all of them.
pub open spec fn rank(b: u32) -> int {
    if single_is_nan(b) {
        -0x1_0000_0000
    } else {
        order_key(b)
    }
}

fn rank_of(b: u32) -> (r: i64)
    ensures
        r == rank(b),
{
    if is_nan(b) {
        -0x1_0000_0000i64
    } else {
        key(b)
    }
}

/// Index `i` ranks before `j`: its value is larger, or they are equal and it comes
/// first.
pub open spec fn ranks_before(v: Seq<u32>, i: int, j: int) -> bool {
    rank(v[i]) > rank(v[j]) || (rank(v[i]) == rank(v[j]) && i < j)
}

/// For numbers, ranking before means being larger, or equal and first.
pub proof fn law_ranks_are_by_value(v: Seq<u32>, i: int, j: int)
    requires
        !single_is_nan(v[i]),
        !single_is_nan(v[j]),
    ensures
        ranks_before(v, i, j) <==> single_lt(v[j], v[i]) || (single_units(v[i]) == single_units(
            v[j],
        ) && i < j),
{
    law_order_key(v[i], v[j]);
    law_order_key(v[j], v[i]);
}

/// `order` lists indices from `low` up to `high`, each of them before the next in
/// rank.
pub open spec fn is_sorted_part(v: Seq<u32>, order: Seq<usize>, low: int, high: int) -> bool {
    &&& order.len() == high - low
    &&& forall|a: int| 0 <= a < order.len() ==> low <= #[trigger] order[a] < high
    &&& forall|a: int, b: int|
        0 <= a < b < order.len() ==> ranks_before(v, #[trigger] order[a] as int, #[trigger] order[b] as int)
}

/// `order` lists all indices of `v` by rank.
pub open spec fn is_ranking(v: Seq<u32>, order: Seq<usize>) -> bool {
    is_sorted_part(v, order, 0, v.len() as int)
}

fn merge_parts(v: &[u32], left: &Vec<usize>, right: &Vec<usize>, Ghost(low): Ghost<int>, Ghost(
    mid,
): Ghost<int>, Ghost(high): Ghost<int>) -> (r: Vec<usize>)
    requires
        0 <= low <= mid <= high <= v@.len(),
        is_sorted_part(v@, left@, low, mid),
        is_sorted_part(v@, right@, mid, high),
    ensures
        is_sorted_part(v@, r@, low, high),
{
    let mut out: Vec<usize> = Vec::new();
    let mut i: usize = 0;
    let mut j: usize = 0;
    while i < left.len() || j < right.len()
        invariant
            0 <= low <= mid <= high <= v@.len(),
            is_sorted_part(v@, left@, low, mid),
            is_sorted_part(v@, right@, mid, high),
            i <= left@.len(),
            j <= right@.len(),
            out@.len() == i + j,
            forall|a: int| 0 <= a < out@.len() ==> low <= #[trigger] out@[a] < high,
            forall|a: int, b: int|
                0 <= a < b < out@.len() ==> ranks_before(
                    v@,
                    #[trigger] out@[a] as int,
                    #[trigger] out@[b] as int,
                ),
            forall|a: int, b: int|
                0 <= a < out@.len() && i <= b < left@.len() ==> ranks_before(
                    v@,
                    #[trigger] out@[a] as int,
                    #[trigger] left@[b] as int,
                ),
            forall|a: int, b: int|
                0 <= a < out@.len() && j <= b < right@.len() ==> ranks_before(
                    v@,
                    #[trigger] out@[a] as int,
                    #[trigger] right@[b] as int,
                ),
        decreases left@.len() - i + right@.len() - j,
    {
        let take_left: bool = if i >= left.len() {
            false
        } else if j >= right.len() {
            true
        } else {
            rank_of(v[left[i]]) >= rank_of(v[right[j]])
        };
        if take_left {
            let x: usize = left[i];
            proof {
                if j < right@.len() {
                    assert(ranks_before(v@, x as int, right@[j as int] as int));
                }
                assert forall|b: int| j <= b < right@.len() implies ranks_before(
                    v@,
                    x as int,
                    #[trigger] right@[b] as int,
                ) by {
                    if b > j {
                        assert(ranks_before(v@, right@[j as int] as int, right@[b] as int));
                    }
                }
            }
            out.push(x);
            i += 1;
        } else {
            let x: usize = right[j];
            proof {
                if i < left@.len() {
                    assert(ranks_before(v@, x as int, left@[i as int] as int));
                }
                assert forall|b: int| i <= b < left@.len() implies ranks_before(
                    v@,
                    x as int,
                    #[trigger] left@[b] as int,
                ) by {
                    if b > i {
                        assert(ranks_before(v@, left@[i as int] as int, left@[b] as int));
                    }
                }
            }
            out.push(x);
            j += 1;
        }
    }
    out
}

fn sort_part(v: &[u32], low: usize, high: usize) -> (r: Vec<usize>)
    requires
        low <= high <= v@.len(),
    ensures
        is_sorted_part(v@, r@, low as int, high as int),
    decreases high - low,
{
    if high - low == 0 {
        return Vec::new();
    }
    if high - low == 1 {
        let mut one: Vec<usize> = Vec::new();
        one.push(low);
        return one;
    }
    let mid: usize = low + (high - low) / 2;
    let left = sort_part(v, low, mid);
    let right = sort_part(v, mid, high);
    merge_parts(v, &left, &right, Ghost(low as int), Ghost(mid as int), Ghost(high as int))
}

/// The indices of the values, from the largest down; of equal values the first
/// comes first.
pub fn rank_indices(v: &[u32]) -> (r: Vec<usize>)
    ensures
        is_ranking(v@, r@),
{
    sort_part(v, 0, v.len())
}

proof fn lemma_ranking_holds_all(v: Seq<u32>, order: Seq<usize>, i: int)
    requires
        is_ranking(v, order),
        0 <= i < v.len(),
        v.len() <= usize::MAX,
    ensures
        order.contains(i as usize),
{
    let n = v.len() as int;
    let s = order.map_values(|x: usize| x as int);
    assert forall|a: int, b: int| 0 <= a < s.len() && 0 <= b < s.len() && a != b implies s[a]
        != s[b] by {
        if a < b {
            assert(ranks_before(v, order[a] as int, order[b] as int));
        } else {
            assert(ranks_before(v, order[b] as int, order[a] as int));
        }
    }
    assert(s.no_duplicates());
    s.unique_seq_to_set();
    let all = vstd::set_lib::set_int_range(0, n);
    vstd::set_lib::lemma_int_range(0, n);
    assert forall|x: int| s.to_set().contains(x) implies all.contains(x) by {
        let a = s.index_of(x);
        assert(s[a] == x);
        assert(0 <= order[a] < n);
    }
    assert(s.to_set().subset_of(all));
    vstd::set_lib::lemma_subset_equality(s.to_set(), all);
    assert(s.to_set().contains(i));
    let a = s.index_of(i);
    assert(order[a] == i);
}

/// There is one ranking: two rankings of the same values are equal.
pub proof fn law_ranking_is_unique(v: Seq<u32>, p: Seq<usize>, q: Seq<usize>)
    requires
        is_ranking(v, p),
        is_ranking(v, q),
        v.len() <= usize::MAX,
    ensures
        p == q,
{
    lemma_rankings_agree(v, p, q, v.len());
    assert(p =~= q);
}

proof fn lemma_rankings_agree(v: Seq<u32>, p: Seq<usize>, q: Seq<usize>, n: nat)
    requires
        is_ranking(v, p),
        is_ranking(v, q),
        v.len() <= usize::MAX,
        n <= v.len(),
    ensures
        forall|k: int| 0 <= k < n ==> p[k] == q[k],
    decreases n,
{
    if n > 0 {
        let k = n - 1;
        lemma_rankings_agree(v, p, q, k as nat);
        if p[k] != q[k] {
            lemma_ranking_holds_all(v, p, q[k] as int);
            lemma_ranking_holds_all(v, q, p[k] as int);
            let a = p.index_of(q[k]);
            let b = q.index_of(p[k]);
            assert(p[a] == q[k] && q[b] == p[k]);
            if a < k {
                assert(q[a] == q[k]);
                assert(ranks_before(v, q[a] as int, q[k] as int));
            }
            if b < k {
                assert(p[b] == p[k]);
                assert(ranks_before(v, p[b] as int, p[k] as int));
            }
            assert(ranks_before(v, p[k] as int, p[a] as int));
            assert(ranks_before(v, q[k] as int, q[b] as int));
        }
    }
}

/// Every index has its place in a ranking.
pub proof fn law_ranking_is_complete(v: Seq<u32>, order: Seq<usize>, i: int)
    requires
        is_ranking(v, order),
        0 <= i < v.len(),
        v.len() <= usize::MAX,
    ensures
        exists|a: int| 0 <= a < order.len() && #[trigger] order[a] == i,
{
    lemma_ranking_holds_all(v, order, i);
    let a = order.index_of(i as usize);
    assert(order[a] == i);
}

/// Top-K indices and values: the first `k` of the ranking, or all where there are
/// fewer
pub fn top_k(a: &[u32], k: usize) -> (r: Vec<(usize, u32)>)
    ensures
        exists|order: Seq<usize>|
            {
                &&& #[trigger] is_ranking(a@, order)
                &&& r@.len() == (if k < a@.len() {
                    k as nat
                } else {
                    a@.len()
                })
                &&& forall|i: int|
                    0 <= i < r@.len() ==> (#[trigger] r@[i]).0 == order[i] && r@[i].1
                        == a@[order[i] as int]
            },
{
    let order = rank_indices(a);
    let n: usize = if k < order.len() {
        k
    } else {
        order.len()
    };
    let mut out: Vec<(usize, u32)> = Vec::new();
    let mut i: usize = 0;
    while i < n
        invariant
            i <= n <= order@.len(),
            is_ranking(a@, order@),
            out@.len() == i,
            forall|j: int|
                0 <= j < i ==> (#[trigger] out@[j]).0 == order@[j] && out@[j].1
                    == a@[order@[j] as int],
        decreases n - i,
    {
        let x: usize = order[i];
        out.push((x, a[x]));
        i += 1;
    }
    out
}

/// The first of the largest among the first `n` values, as a scan from the left
/// finds it: a value takes over where it is larger than the one found so far.
pub open spec fn scan_max(a: Seq<u32>, n: nat) -> int
    decreases n,
{
    if n <= 1 {
        0
    } else {
        let m = scan_max(a, (n - 1) as nat);
        if single_lt(a[m], a[n - 1]) {
            n - 1
        } else {
            m
        }
    }
}

/// Return the index of the maximum value in a slice
pub fn argmax(a: &[u32]) -> (r: usize)
    requires
        a@.len() > 0,
    ensures
        r == scan_max(a@, a@.len()),
        r < a@.len(),
{
    let mut max_idx: usize = 0;
    let mut i: usize = 1;
    while i < a.len()
        invariant
            1 <= i <= a@.len(),
            max_idx == scan_max(a@, i as nat),
            max_idx < i,
        decreases a@.len() - i,
    {
        if less(a[max_idx], a[i]) {
            max_idx = i;
        }
        i += 1;
    }
    max_idx
}

/// Among numbers the index found holds a value that none exceeds, and the first
/// such value.
pub proof fn law_argmax_is_the_first_maximum(a: Seq<u32>, n: nat, i: int)
    requires
        0 < n <= a.len(),
        forall|k: int| 0 <= k < n ==> !single_is_nan(#[trigger] a[k]),
        0 <= i < n,
    ensures
        0 <= scan_max(a, n) < n,
        single_le(a[i], a[scan_max(a, n)]),
        i < scan_max(a, n) ==> single_lt(a[i], a[scan_max(a, n)]),
    decreases n,
{
    if n > 1 {
        let m = scan_max(a, (n - 1) as nat);
        if i < n - 1 {
            law_argmax_is_the_first_maximum(a, (n - 1) as nat, i);
        } else {
            law_argmax_is_the_first_maximum(a, (n - 1) as nat, 0);
        }
        assert(!single_is_nan(a[m]) && !single_is_nan(a[n - 1]) && !single_is_nan(a[i]));
    } else {
        assert(!single_is_nan(a[i]));
    }
}

} // verus!
