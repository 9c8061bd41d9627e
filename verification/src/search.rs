use crate::graph::repr::{is_adjacency, lemma_limits_monotone};
use crate::graph::Edge;
use vstd::prelude::*;

verus! {

/// The number of marked nodes below `k`.
pub open spec fn marked_count(marks: Seq<bool>, k: int) -> int
    decreases k,
{
    if k <= 0 {
        0
    } else {
        marked_count(marks, k - 1) + if marks[k - 1] {
            1int
        } else {
            0int
        }
    }
}

/// The number of edges in the blocks of the marked nodes below `k`.
pub open spec fn marked_degree(marks: Seq<bool>, limits: Seq<usize>, k: int) -> int
    decreases k,
{
    if k <= 0 {
        0
    } else {
        marked_degree(marks, limits, k - 1) + if marks[k - 1] {
            limits[k] - limits[k - 1]
        } else {
            0int
        }
    }
}

/// At most `k` of the first `k` nodes are marked.
pub proof fn lemma_marked_count_bound(marks: Seq<bool>, k: int)
    requires
        0 <= k,
    ensures
        0 <= marked_count(marks, k) <= k,
    decreases k,
{
    if k > 0 {
        lemma_marked_count_bound(marks, k - 1);
    }
}

/// Marking one more node raises the count by one.
pub proof fn lemma_marked_count_set(marks: Seq<bool>, x: int, k: int)
    requires
        0 <= x < marks.len(),
        !marks[x],
        0 <= k <= marks.len(),
    ensures
        marked_count(marks.update(x, true), k) == marked_count(marks, k) + if x < k {
            1int
        } else {
            0int
        },
    decreases k,
{
    if k > 0 {
        lemma_marked_count_set(marks, x, k - 1);
    }
}

/// The blocks of the marked nodes below `k` hold no more edges than all blocks below `k`.
pub proof fn lemma_marked_degree_bound(
    marks: Seq<bool>,
    edges: Seq<Edge>,
    limits: Seq<usize>,
    n: int,
    by_target: bool,
    k: int,
)
    requires
        is_adjacency(edges, limits, n, by_target),
        0 <= k <= n,
    ensures
        0 <= marked_degree(marks, limits, k) <= limits[k],
    decreases k,
{
    if k > 0 {
        lemma_marked_degree_bound(marks, edges, limits, n, by_target, k - 1);
        lemma_limits_monotone(edges, limits, n, by_target, k - 1, k);
    }
}

/// Marking one more node adds the size of its block.
pub proof fn lemma_marked_degree_set(marks: Seq<bool>, limits: Seq<usize>, x: int, k: int)
    requires
        0 <= x < marks.len(),
        !marks[x],
        0 <= k <= marks.len(),
    ensures
        marked_degree(marks.update(x, true), limits, k) == marked_degree(marks, limits, k) + if x
            < k {
            limits[x + 1] - limits[x]
        } else {
            0int
        },
    decreases k,
{
    if k > 0 {
        lemma_marked_degree_set(marks, limits, x, k - 1);
    }
}


/// Unmarking a marked node lowers the count by one.
pub proof fn lemma_marked_count_unset(marks: Seq<bool>, x: int, k: int)
    requires
        0 <= x < marks.len(),
        marks[x],
        0 <= k <= marks.len(),
    ensures
        marked_count(marks.update(x, false), k) == marked_count(marks, k) - if x < k {
            1int
        } else {
            0int
        },
    decreases k,
{
    if k > 0 {
        lemma_marked_count_unset(marks, x, k - 1);
    }
}

/// The count tells whether all, or none, of the first `k` nodes are marked.
pub proof fn lemma_marked_count_extremes(marks: Seq<bool>, k: int)
    requires
        0 <= k <= marks.len(),
    ensures
        marked_count(marks, k) == 0 <==> (forall|x: int| 0 <= x < k ==> !#[trigger] marks[x]),
        marked_count(marks, k) == k <==> (forall|x: int| 0 <= x < k ==> #[trigger] marks[x]),
    decreases k,
{
    if k > 0 {
        lemma_marked_count_extremes(marks, k - 1);
        lemma_marked_count_bound(marks, k - 1);
    }
}


/// Where every mark stays and one is added, the count grows.
pub proof fn lemma_marked_count_grows(before: Seq<bool>, after: Seq<bool>, x: int, k: int)
    requires
        0 <= k <= before.len(),
        before.len() == after.len(),
        forall|y: int| 0 <= y < k && #[trigger] before[y] ==> after[y],
    ensures
        marked_count(before, k) <= marked_count(after, k),
        0 <= x < k && !before[x] && after[x] ==> marked_count(before, k) < marked_count(after, k),
    decreases k,
{
    if k > 0 {
        lemma_marked_count_grows(before, after, x, k - 1);
    }
}

/// The rank `(key, stamp)` of `a` is below that of `b`, in lexicographic order.
pub open spec fn rank_below(keys: Seq<int>, stamps: Seq<nat>, a: int, b: int) -> bool {
    keys[a] < keys[b] || (keys[a] == keys[b] && stamps[a] < stamps[b])
}

/// Among the marked nodes below `k` there is one of the lowest rank.
pub proof fn lemma_lowest_rank(keys: Seq<int>, stamps: Seq<nat>, marks: Seq<bool>, k: int) -> (m: int)
    requires
        0 <= k <= marks.len(),
        exists|x: int| 0 <= x < k && #[trigger] marks[x],
    ensures
        0 <= m < k,
        marks[m],
        forall|x: int| 0 <= x < k && #[trigger] marks[x] ==> !rank_below(keys, stamps, x, m),
    decreases k,
{
    let last = k - 1;
    if exists|x: int| 0 <= x < last && #[trigger] marks[x] {
        let m = lemma_lowest_rank(keys, stamps, marks, last);
        if marks[last] && rank_below(keys, stamps, last, m) {
            last
        } else {
            m
        }
    } else {
        assert(marks[last]);
        last
    }
}

} // verus!
