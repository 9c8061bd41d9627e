use crate::graph::Edge;
use vstd::prelude::*;

verus! {

/// Every endpoint of every edge is a node below `n`.
pub open spec fn endpoints_below(edges: Seq<Edge>, n: int) -> bool {
    forall|i: int|
        0 <= i < edges.len() ==> (#[trigger] edges[i]).source < n && edges[i].target < n
}

/// The reduced weight of an edge `(u, v, w)` under the potentials `pi`: `w + pi(v) - pi(u)`.
pub open spec fn reduced_weight(e: Edge, pi: Seq<int>) -> int {
    e.weight + pi[e.target as int] - pi[e.source as int]
}

/// Johnson feasibility: no edge has a negative reduced weight.
pub open spec fn feasible(edges: Seq<Edge>, pi: Seq<int>) -> bool {
    forall|i: int| 0 <= i < edges.len() ==> reduced_weight(#[trigger] edges[i], pi) >= 0
}

/// The graph admits potentials under which every reduced weight is non-negative.
pub open spec fn admits_potentials(edges: Seq<Edge>, n: int) -> bool {
    exists|pi: Seq<int>| pi.len() == n && #[trigger] feasible(edges, pi)
}

/// `p` is a walk from `from` to `to`: a chain of edges of the graph, each starting where the
/// one before it ends. The empty walk leads from a node to itself.
pub open spec fn is_walk(edges: Seq<Edge>, p: Seq<Edge>, from: int, to: int) -> bool
    decreases p.len(),
{
    if p.len() == 0 {
        from == to
    } else {
        &&& edges.contains(p.last())
        &&& p.last().target == to
        &&& is_walk(edges, p.drop_last(), from, p.last().source as int)
    }
}

/// The sum of the weights along a walk.
pub open spec fn walk_weight(p: Seq<Edge>) -> int
    decreases p.len(),
{
    if p.len() == 0 {
        0
    } else {
        walk_weight(p.drop_last()) + p.last().weight
    }
}

/// The length of a walk from `from` to `to` under reduced weights. The potentials of the
/// inner nodes cancel, so only those of the two ends appear.
pub open spec fn reduced_length(pi: Seq<int>, p: Seq<Edge>, from: int, to: int) -> int {
    walk_weight(p) + pi[to] - pi[from]
}

/// Some walk from `from` to `to` has a reduced length strictly below `bound`.
pub open spec fn closer_than(edges: Seq<Edge>, pi: Seq<int>, from: int, to: int, bound: int) -> bool {
    exists|p: Seq<Edge>| #[trigger]
        is_walk(edges, p, from, to) && reduced_length(pi, p, from, to) < bound
}

/// `d` is the reduced length of a shortest walk from `from` to `to`.
pub open spec fn is_distance(edges: Seq<Edge>, pi: Seq<int>, from: int, to: int, d: int) -> bool {
    &&& exists|p: Seq<Edge>| #[trigger]
        is_walk(edges, p, from, to) && reduced_length(pi, p, from, to) == d
    &&& !closer_than(edges, pi, from, to, d)
}

/// Some walk from `from` to `to` has a raw weight strictly below `bound`.
pub open spec fn lighter_than(edges: Seq<Edge>, from: int, to: int, bound: int) -> bool {
    exists|p: Seq<Edge>| #[trigger] is_walk(edges, p, from, to) && walk_weight(p) < bound
}

/// A closed walk of negative weight.
pub open spec fn is_negative_cycle(edges: Seq<Edge>, p: Seq<Edge>) -> bool {
    exists|u: int| #[trigger] is_walk(edges, p, u, u) && walk_weight(p) < 0
}

/// The labels `h` respect every edge: along `(u, v, w)` they rise by at most `w`.
pub open spec fn respects(edges: Seq<Edge>, h: Seq<int>) -> bool {
    forall|i: int|
        0 <= i < edges.len() ==> h[(#[trigger] edges[i]).target as int] - h[edges[i].source as int]
            <= edges[i].weight
}

/// A walk extended by one more edge at its end is a walk, and its weight grows by the
/// weight of that edge.
pub proof fn lemma_walk_push(edges: Seq<Edge>, p: Seq<Edge>, from: int, e: Edge)
    requires
        is_walk(edges, p, from, e.source as int),
        edges.contains(e),
    ensures
        is_walk(edges, p.push(e), from, e.target as int),
        walk_weight(p.push(e)) == walk_weight(p) + e.weight,
{
    assert(p.push(e).drop_last() =~= p);
}

/// Two walks that meet form one walk, and the weights add up.
pub proof fn lemma_walk_concat(edges: Seq<Edge>, p: Seq<Edge>, q: Seq<Edge>, a: int, b: int, c: int)
    requires
        is_walk(edges, p, a, b),
        is_walk(edges, q, b, c),
    ensures
        is_walk(edges, p + q, a, c),
        walk_weight(p + q) == walk_weight(p) + walk_weight(q),
    decreases q.len(),
{
    if q.len() == 0 {
        assert(p + q =~= p);
    } else {
        lemma_walk_concat(edges, p, q.drop_last(), a, b, q.last().source as int);
        assert((p + q).drop_last() =~= p + q.drop_last());
    }
}

/// A single edge of the graph is a walk from its source to its target.
pub proof fn lemma_walk_single(edges: Seq<Edge>, e: Edge)
    requires
        edges.contains(e),
    ensures
        is_walk(edges, seq![e], e.source as int, e.target as int),
        walk_weight(seq![e]) == e.weight,
{
    let p = seq![e];
    assert(p.drop_last() =~= Seq::<Edge>::empty());
    assert(is_walk(edges, p.drop_last(), e.source as int, e.source as int));
    assert(walk_weight(p.drop_last()) == 0);
}

/// A walk with one more edge in front is a walk, and its weight grows by the weight of
/// that edge.
pub proof fn lemma_walk_prepend(edges: Seq<Edge>, e: Edge, p: Seq<Edge>, to: int)
    requires
        is_walk(edges, p, e.target as int, to),
        edges.contains(e),
    ensures
        is_walk(edges, seq![e] + p, e.source as int, to),
        walk_weight(seq![e] + p) == e.weight + walk_weight(p),
{
    lemma_walk_single(edges, e);
    lemma_walk_concat(edges, seq![e], p, e.source as int, e.target as int, to);
}

/// Labels that respect every edge rise along a walk by at most the weight of the walk.
pub proof fn lemma_respects_walk(edges: Seq<Edge>, h: Seq<int>, p: Seq<Edge>, from: int, to: int)
    requires
        respects(edges, h),
        is_walk(edges, p, from, to),
    ensures
        h[to] - h[from] <= walk_weight(p),
    decreases p.len(),
{
    if p.len() > 0 {
        let e = p.last();
        let i = choose|i: int| 0 <= i < edges.len() && edges[i] == e;
        assert(h[edges[i].target as int] - h[edges[i].source as int] <= edges[i].weight);
        lemma_respects_walk(edges, h, p.drop_last(), from, e.source as int);
    }
}

/// Under feasible potentials no walk has a negative reduced length.
pub proof fn lemma_feasible_walk(edges: Seq<Edge>, pi: Seq<int>, p: Seq<Edge>, from: int, to: int)
    requires
        feasible(edges, pi),
        is_walk(edges, p, from, to),
    ensures
        reduced_length(pi, p, from, to) >= 0,
    decreases p.len(),
{
    if p.len() > 0 {
        let e = p.last();
        let i = choose|i: int| 0 <= i < edges.len() && edges[i] == e;
        assert(reduced_weight(edges[i], pi) >= 0);
        lemma_feasible_walk(edges, pi, p.drop_last(), from, e.source as int);
    }
}

/// A graph that admits feasible potentials has no cycle of negative weight.
pub proof fn lemma_feasible_no_negative_cycle(edges: Seq<Edge>, n: int, p: Seq<Edge>)
    requires
        admits_potentials(edges, n),
    ensures
        !is_negative_cycle(edges, p),
{
    let pi = choose|pi: Seq<int>| pi.len() == n && #[trigger] feasible(edges, pi);
    assert forall|u: int| #[trigger] is_walk(edges, p, u, u) implies walk_weight(p) >= 0 by {
        lemma_feasible_walk(edges, pi, p, u, u);
    }
}


/// Under feasible potentials, a node that a walk reaches has a distance, and it is at most
/// the reduced length of that walk.
pub proof fn lemma_distance_exists(edges: Seq<Edge>, pi: Seq<int>, p: Seq<Edge>, from: int, to: int) -> (d: int)
    requires
        feasible(edges, pi),
        is_walk(edges, p, from, to),
    ensures
        0 <= d <= reduced_length(pi, p, from, to),
        is_distance(edges, pi, from, to, d),
    decreases reduced_length(pi, p, from, to),
{
    lemma_feasible_walk(edges, pi, p, from, to);
    let len = reduced_length(pi, p, from, to);
    if closer_than(edges, pi, from, to, len) {
        let q = choose|q: Seq<Edge>| #[trigger]
            is_walk(edges, q, from, to) && reduced_length(pi, q, from, to) < len;
        lemma_feasible_walk(edges, pi, q, from, to);
        lemma_distance_exists(edges, pi, q, from, to)
    } else {
        len
    }
}

/// The distance between two nodes is unique, and never negative under feasible potentials.
pub proof fn lemma_distance_unique(edges: Seq<Edge>, pi: Seq<int>, from: int, to: int, d1: int, d2: int)
    requires
        feasible(edges, pi),
        is_distance(edges, pi, from, to, d1),
        is_distance(edges, pi, from, to, d2),
    ensures
        d1 == d2,
        d1 >= 0,
{
    let p = choose|p: Seq<Edge>| #[trigger]
        is_walk(edges, p, from, to) && reduced_length(pi, p, from, to) == d1;
    lemma_feasible_walk(edges, pi, p, from, to);
}

/// The node `x` lies within `bound` of `from`.
pub open spec fn within(edges: Seq<Edge>, pi: Seq<int>, from: int, x: int, bound: int) -> bool {
    exists|d: int| d <= bound && #[trigger] is_distance(edges, pi, from, x, d)
}

/// By how much the potential of `x` rises when a proposal with the bound `bound` is accepted
/// after a search from `from`: by what the distance of `x` lacks to the bound.
pub open spec fn raise_of(edges: Seq<Edge>, pi: Seq<int>, from: int, bound: int, x: int) -> int {
    if within(edges, pi, from, x, bound) {
        bound - choose|d: int| d <= bound && #[trigger] is_distance(edges, pi, from, x, d)
    } else {
        0
    }
}

/// The potentials after every node has risen by its share.
pub open spec fn raised(edges: Seq<Edge>, pi: Seq<int>, from: int, bound: int) -> Seq<int> {
    Seq::new(pi.len(), |x: int| pi[x] + raise_of(edges, pi, from, bound, x))
}

/// The edge list with the weight of the edge at `idx` replaced.
pub open spec fn with_weight(edges: Seq<Edge>, idx: int, weight: int) -> Seq<Edge> {
    edges.update(idx, Edge { weight: weight as i64, ..edges[idx] })
}

/// The reduced weight that the edge at `idx` would have with the weight `weight`.
pub open spec fn proposed_weight(edges: Seq<Edge>, pi: Seq<int>, idx: int, weight: int) -> int {
    weight + pi[edges[idx].target as int] - pi[edges[idx].source as int]
}

/// The proposal to give the edge at `idx` the weight `weight` creates no cycle of negative
/// weight: either its reduced weight is not negative, or no walk from the head of the edge
/// back to its tail is short enough to close such a cycle.
pub open spec fn proposal_fits(edges: Seq<Edge>, pi: Seq<int>, idx: int, weight: int) -> bool {
    let rw = proposed_weight(edges, pi, idx, weight);
    rw >= 0 || !closer_than(
        edges,
        pi,
        edges[idx].target as int,
        edges[idx].source as int,
        -rw,
    )
}

/// What `raise_of` is for a node with a known distance.
pub proof fn lemma_raise_value(edges: Seq<Edge>, pi: Seq<int>, from: int, bound: int, x: int, d: int)
    requires
        feasible(edges, pi),
        is_distance(edges, pi, from, x, d),
    ensures
        raise_of(edges, pi, from, bound, x) == if d <= bound {
            bound - d
        } else {
            0
        },
{
    if within(edges, pi, from, x, bound) {
        let d2 = choose|d2: int| d2 <= bound && #[trigger] is_distance(edges, pi, from, x, d2);
        lemma_distance_unique(edges, pi, from, x, d, d2);
    }
}

/// A rise is never negative and never more than the bound.
pub proof fn lemma_raise_range(edges: Seq<Edge>, pi: Seq<int>, from: int, bound: int, x: int)
    requires
        feasible(edges, pi),
        bound >= 0,
    ensures
        0 <= raise_of(edges, pi, from, bound, x) <= bound,
{
    if within(edges, pi, from, x, bound) {
        let d = choose|d: int| d <= bound && #[trigger] is_distance(edges, pi, from, x, d);
        lemma_distance_unique(edges, pi, from, x, d, d);
    }
}

/// The rebalancing rule: where a proposal with a negative reduced weight fits, the raised
/// potentials are feasible for the graph with the new weight, and the changed edge has the
/// reduced weight zero.
pub proof fn lemma_rebalance(edges: Seq<Edge>, pi: Seq<int>, idx: int, weight: int)
    requires
        feasible(edges, pi),
        endpoints_below(edges, pi.len() as int),
        0 <= idx < edges.len(),
        i64::MIN <= weight <= i64::MAX,
        proposed_weight(edges, pi, idx, weight) < 0,
        proposal_fits(edges, pi, idx, weight),
    ensures
        feasible(
            with_weight(edges, idx, weight),
            raised(edges, pi, edges[idx].target as int, -proposed_weight(edges, pi, idx, weight)),
        ),
        reduced_weight(
            with_weight(edges, idx, weight)[idx],
            raised(edges, pi, edges[idx].target as int, -proposed_weight(edges, pi, idx, weight)),
        ) == 0,
{
    let s = edges[idx].target as int;
    let t = edges[idx].source as int;
    let bound = -proposed_weight(edges, pi, idx, weight);
    let pi2 = raised(edges, pi, s, bound);
    let edges2 = with_weight(edges, idx, weight);
    // the head of the edge rises by the whole bound
    assert(is_walk(edges, Seq::<Edge>::empty(), s, s));
    let d0 = lemma_distance_exists(edges, pi, Seq::<Edge>::empty(), s, s);
    lemma_raise_value(edges, pi, s, bound, s, d0);
    // the tail does not rise
    lemma_raise_range(edges, pi, s, bound, t);
    if within(edges, pi, s, t, bound) {
        let d = choose|d: int| d <= bound && #[trigger] is_distance(edges, pi, s, t, d);
        let p = choose|p: Seq<Edge>| #[trigger]
            is_walk(edges, p, s, t) && reduced_length(pi, p, s, t) == d;
        assert(d >= bound);
    }
    assert forall|j: int| 0 <= j < edges.len() implies reduced_weight(edges[j], pi) + raise_of(
        edges,
        pi,
        s,
        bound,
        edges[j].target as int,
    ) - raise_of(edges, pi, s, bound, edges[j].source as int) >= 0 by {
        let e = edges[j];
        let x = e.source as int;
        let y = e.target as int;
        assert(reduced_weight(edges[j], pi) >= 0);
        lemma_raise_range(edges, pi, s, bound, x);
        lemma_raise_range(edges, pi, s, bound, y);
        if within(edges, pi, s, x, bound) {
            let dx = choose|d: int| d <= bound && #[trigger] is_distance(edges, pi, s, x, d);
            let p = choose|p: Seq<Edge>| #[trigger]
                is_walk(edges, p, s, x) && reduced_length(pi, p, s, x) == dx;
            lemma_walk_push(edges, p, s, e);
            let dy = lemma_distance_exists(edges, pi, p.push(e), s, y);
            lemma_raise_value(edges, pi, s, bound, y, dy);
        }
    }
    assert forall|j: int| 0 <= j < edges2.len() implies reduced_weight(#[trigger] edges2[j], pi2) >= 0 by {
        assert(edges[j].target < pi.len() && edges[j].source < pi.len());
    }
}


/// A proposal for a self-loop fits exactly if the proposed weight is not negative.
pub proof fn lemma_self_loop_fits(edges: Seq<Edge>, pi: Seq<int>, idx: int, weight: int)
    requires
        0 <= idx < edges.len(),
        edges[idx].source == edges[idx].target,
    ensures
        proposal_fits(edges, pi, idx, weight) <==> weight >= 0,
{
    let u = edges[idx].source as int;
    if weight < 0 {
        let empty = Seq::<Edge>::empty();
        assert(is_walk(edges, empty, u, u));
        assert(reduced_length(pi, empty, u, u) == 0);
    }
}

/// The deciders agree: under feasible potentials, a proposal fits if and only if no walk from
/// the head of the edge back to its tail is lighter, on raw weights, than the negated new
/// weight. The searches on reduced weights decide the left side, the search on raw weights
/// the right side.
pub proof fn lemma_deciders_agree(edges: Seq<Edge>, pi: Seq<int>, idx: int, weight: int)
    requires
        feasible(edges, pi),
        0 <= idx < edges.len(),
    ensures
        proposal_fits(edges, pi, idx, weight) <==> !lighter_than(
            edges,
            edges[idx].target as int,
            edges[idx].source as int,
            -weight,
        ),
{
    let s = edges[idx].target as int;
    let t = edges[idx].source as int;
    let rw = proposed_weight(edges, pi, idx, weight);
    if lighter_than(edges, s, t, -weight) {
        let p = choose|p: Seq<Edge>| #[trigger] is_walk(edges, p, s, t) && walk_weight(p) < -weight;
        lemma_feasible_walk(edges, pi, p, s, t);
        assert(reduced_length(pi, p, s, t) < -rw);
    }
    if rw < 0 && closer_than(edges, pi, s, t, -rw) {
        let p = choose|p: Seq<Edge>| #[trigger] is_walk(edges, p, s, t) && reduced_length(pi, p, s, t) < -rw;
        assert(walk_weight(p) < -weight);
    }
}

/// A proposal that fits keeps the graph free of negative cycles: the graph with the new
/// weight admits feasible potentials again, which differ from the old ones by no more than
/// the weight has fallen.
pub proof fn lemma_fitting_proposal(edges: Seq<Edge>, pi: Seq<int>, idx: int, weight: int) -> (pi2: Seq<int>)
    requires
        feasible(edges, pi),
        endpoints_below(edges, pi.len() as int),
        0 <= idx < edges.len(),
        i64::MIN <= weight <= i64::MAX,
        proposal_fits(edges, pi, idx, weight),
    ensures
        pi2.len() == pi.len(),
        feasible(with_weight(edges, idx, weight), pi2),
        forall|x: int|
            0 <= x < pi.len() ==> pi[x] <= #[trigger] pi2[x] <= pi[x] + if edges[idx].weight > weight {
                edges[idx].weight - weight
            } else {
                0
            },
{
    let rw = proposed_weight(edges, pi, idx, weight);
    let edges2 = with_weight(edges, idx, weight);
    if rw >= 0 {
        assert forall|j: int| 0 <= j < edges2.len() implies reduced_weight(#[trigger] edges2[j], pi) >= 0 by {
            assert(reduced_weight(edges[j], pi) >= 0);
        }
        pi
    } else {
        lemma_rebalance(edges, pi, idx, weight);
        let s = edges[idx].target as int;
        let pi2 = raised(edges, pi, s, -rw);
        assert(reduced_weight(edges[idx], pi) >= 0);
        assert forall|x: int| 0 <= x < pi.len() implies pi[x] <= #[trigger] pi2[x] <= pi[x] + (
        edges[idx].weight - weight) by {
            lemma_raise_range(edges, pi, s, -rw, x);
        }
        pi2
    }
}

/// A proposal that does not fit creates a cycle of negative weight: the graph with the new
/// weight admits no feasible potentials. The walk that is too short may be taken to avoid
/// the changed edge, whose weight has fallen.
pub proof fn lemma_unfit_proposal(edges: Seq<Edge>, pi: Seq<int>, idx: int, weight: int)
    requires
        feasible(edges, pi),
        endpoints_below(edges, pi.len() as int),
        0 <= idx < edges.len(),
        i64::MIN <= weight <= i64::MAX,
        !proposal_fits(edges, pi, idx, weight),
    ensures
        !admits_potentials(with_weight(edges, idx, weight), pi.len() as int),
{
    let s = edges[idx].target as int;
    let t = edges[idx].source as int;
    let rw = proposed_weight(edges, pi, idx, weight);
    let edges2 = with_weight(edges, idx, weight);
    let n = pi.len() as int;
    assert(reduced_weight(edges[idx], pi) >= 0);
    assert(weight < edges[idx].weight);
    if admits_potentials(edges2, n) {
        let pi2 = choose|pi2: Seq<int>| pi2.len() == n && #[trigger] feasible(edges2, pi2);
        let p = choose|p: Seq<Edge>| #[trigger] is_walk(edges, p, s, t) && reduced_length(pi, p, s, t) < -rw;
        assert(reduced_weight(edges2[idx], pi2) >= 0);
        lemma_walk_lowered(edges, pi2, idx, weight, p, s, t);
    }
}

/// Potentials that are feasible after one weight has fallen bound every walk of the graph
/// before the fall from below, as they do after it.
proof fn lemma_walk_lowered(edges: Seq<Edge>, pi2: Seq<int>, idx: int, weight: int, p: Seq<Edge>, from: int, to: int)
    requires
        0 <= idx < edges.len(),
        i64::MIN <= weight <= i64::MAX,
        weight <= edges[idx].weight,
        feasible(with_weight(edges, idx, weight), pi2),
        is_walk(edges, p, from, to),
    ensures
        walk_weight(p) + pi2[to] - pi2[from] >= 0,
    decreases p.len(),
{
    let edges2 = with_weight(edges, idx, weight);
    if p.len() > 0 {
        let e = p.last();
        let j = choose|j: int| 0 <= j < edges.len() && edges[j] == e;
        assert(reduced_weight(edges2[j], pi2) >= 0);
        lemma_walk_lowered(edges, pi2, idx, weight, p.drop_last(), from, e.source as int);
    }
}

} // verus!
