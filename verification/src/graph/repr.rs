use crate::graph::{Edge, Node, POTENTIAL_LIMIT, WEIGHT_LIMIT};
use crate::paths::{endpoints_below, feasible, reduced_weight};
use crate::weight::Weight;
use vstd::prelude::*;
use vstd::slice::slice_subrange;

verus! {

/// The node by which an adjacency array groups its edges: the source in the forward array,
/// the target in the reverse one.
pub open spec fn key_of(e: Edge, by_target: bool) -> Node {
    if by_target {
        e.target
    } else {
        e.source
    }
}

fn key(e: Edge, by_target: bool) -> (k: Node)
    ensures
        k == key_of(e, by_target),
{
    if by_target {
        e.target
    } else {
        e.source
    }
}

/// The other endpoint.
pub open spec fn minor_of(e: Edge, by_target: bool) -> Node {
    if by_target {
        e.source
    } else {
        e.target
    }
}

/// The edges are in ascending order of their endpoints: by `(source, target)` in the forward
/// array, by `(target, source)` in the reverse one.
pub open spec fn sorted_by_endpoints(edges: Seq<Edge>, by_target: bool) -> bool {
    forall|i: int, j: int|
        0 <= i <= j < edges.len() ==> {
            ||| key_of(#[trigger] edges[i], by_target) < key_of(#[trigger] edges[j], by_target)
            ||| (key_of(edges[i], by_target) == key_of(edges[j], by_target) && minor_of(
                edges[i],
                by_target,
            ) <= minor_of(edges[j], by_target))
        }
}

/// `limits` cuts `edges` into one block per node: the edges whose key is `u` are exactly those
/// at the indices from `limits[u]` up to, not including, `limits[u + 1]`.
pub open spec fn is_adjacency(edges: Seq<Edge>, limits: Seq<usize>, n: int, by_target: bool) -> bool {
    &&& limits.len() == n + 1
    &&& limits[0] == 0
    &&& limits[n] == edges.len()
    &&& forall|u: int| 0 <= u < n ==> limits[u] <= #[trigger] limits[u + 1] <= edges.len()
    &&& forall|i: int|
        0 <= i < edges.len() ==> {
            &&& key_of(#[trigger] edges[i], by_target) < n
            &&& limits[key_of(edges[i], by_target) as int] <= i
            &&& i < limits[key_of(edges[i], by_target) + 1]
        }
}

/// An index inside the block of `u` holds an edge whose key is `u`.
pub proof fn lemma_block_key(edges: Seq<Edge>, limits: Seq<usize>, n: int, by_target: bool, u: int, i: int)
    requires
        is_adjacency(edges, limits, n, by_target),
        0 <= u < n,
        limits[u] <= i < limits[u + 1],
    ensures
        0 <= i < edges.len(),
        key_of(edges[i], by_target) == u,
{
    let k = key_of(edges[i], by_target) as int;
    if k < u {
        lemma_limits_monotone(edges, limits, n, by_target, k + 1, u);
    } else if k > u {
        lemma_limits_monotone(edges, limits, n, by_target, u + 1, k);
    }
}

/// The block limits never decrease.
pub proof fn lemma_limits_monotone(edges: Seq<Edge>, limits: Seq<usize>, n: int, by_target: bool, a: int, b: int)
    requires
        is_adjacency(edges, limits, n, by_target),
        0 <= a <= b <= n,
    ensures
        limits[a] <= limits[b],
    decreases b - a,
{
    if a < b {
        lemma_limits_monotone(edges, limits, n, by_target, a, b - 1);
        assert(limits[b - 1] <= limits[b - 1 + 1]);
    }
}

/// An edge as a triple of integers, with the endpoint that the adjacency array groups by
/// in front.
pub open spec fn triple_of(e: Edge, by_target: bool) -> (Node, Node, Weight) {
    (key_of(e, by_target), minor_of(e, by_target), e.weight)
}

/// The edge that a triple stands for.
pub open spec fn edge_of_triple(t: (Node, Node, Weight), by_target: bool) -> Edge {
    if by_target {
        Edge { source: t.1, target: t.0, weight: t.2 }
    } else {
        Edge { source: t.0, target: t.1, weight: t.2 }
    }
}

/// The triples are in ascending order, compared entry by entry.
pub open spec fn sorted_triples(s: Seq<(Node, Node, Weight)>) -> bool {
    forall|i: int, j: int|
        0 <= i <= j < s.len() ==> {
            ||| (#[trigger] s[i]).0 < (#[trigger] s[j]).0
            ||| (s[i].0 == s[j].0 && s[i].1 < s[j].1)
            ||| (s[i].0 == s[j].0 && s[i].1 == s[j].1 && s[i].2 <= s[j].2)
        }
}

/// `<[T]>::sort_unstable` on triples of integers, which are ordered entry by entry: the
/// vector afterwards holds the same triples, in ascending order.
#[verifier::external_body]
fn sort_triples(triples: &mut Vec<(Node, Node, Weight)>)
    ensures
        final(triples)@.to_multiset() == old(triples)@.to_multiset(),
        sorted_triples(final(triples)@),
{
    triples.sort_unstable();
}

/// The edges that the triples stand for.
pub open spec fn edges_of_triples(s: Seq<(Node, Node, Weight)>, by_target: bool) -> Seq<Edge> {
    Seq::new(s.len(), |i: int| edge_of_triple(s[i], by_target))
}

/// An edge occurs among the edges of some triples as often as its triple among the triples.
proof fn lemma_count_edges(s: Seq<(Node, Node, Weight)>, by_target: bool, e: Edge)
    ensures
        edges_of_triples(s, by_target).to_multiset().count(e) == s.to_multiset().count(
            triple_of(e, by_target),
        ),
    decreases s.len(),
{
    broadcast use vstd::seq_lib::group_to_multiset_ensures;

    let mapped = edges_of_triples(s, by_target);
    if s.len() == 0 {
        assert(mapped.to_multiset().len() == 0);
        assert(s.to_multiset().len() == 0);
        assert(mapped.to_multiset().count(e) <= mapped.to_multiset().len());
        assert(s.to_multiset().count(triple_of(e, by_target)) <= s.to_multiset().len());
    } else {
        let rest = s.drop_last();
        let last = s.last();
        lemma_count_edges(rest, by_target, e);
        assert(s =~= rest.push(last));
        assert(mapped =~= edges_of_triples(rest, by_target).push(edge_of_triple(last, by_target)));
        vstd::seq_lib::to_multiset_build(rest, last);
        vstd::seq_lib::to_multiset_build(edges_of_triples(rest, by_target), edge_of_triple(last, by_target));
        assert(triple_of(edge_of_triple(last, by_target), by_target) == last);
        assert(edge_of_triple(triple_of(e, by_target), by_target) == e);
    }
}

/// Sorts the edges by the pair of their endpoints: `(source, target)`, or
/// `(target, source)` when `by_target` is set; edges with the same endpoints by weight.
fn sort_edges(edges: &mut Vec<Edge>, by_target: bool)
    ensures
        final(edges)@.to_multiset() == old(edges)@.to_multiset(),
        sorted_by_endpoints(final(edges)@, by_target),
{
    let n = edges.len();
    let mut triples: Vec<(Node, Node, Weight)> = Vec::new();
    let mut i: usize = 0;
    while i < n
        invariant
            i <= n,
            n == edges@.len(),
            *edges == *old(edges),
            triples@.len() == i,
            forall|k: int| 0 <= k < i ==> #[trigger] triples@[k] == triple_of(edges@[k], by_target),
        decreases n - i,
    {
        let e = edges[i];
        if by_target {
            triples.push((e.target, e.source, e.weight));
        } else {
            triples.push((e.source, e.target, e.weight));
        }
        i += 1;
    }
    let ghost given = triples@;
    sort_triples(&mut triples);
    proof {
        vstd::seq_lib::to_multiset_len(given);
        vstd::seq_lib::to_multiset_len(triples@);
    }
    let mut k: usize = 0;
    while k < n
        invariant
            k <= n,
            n == edges@.len(),
            n == triples@.len(),
            forall|j: int| 0 <= j < k ==> #[trigger] edges@[j] == edge_of_triple(triples@[j], by_target),
        decreases n - k,
    {
        let t = triples[k];
        let e = if by_target {
            Edge { source: t.1, target: t.0, weight: t.2 }
        } else {
            Edge { source: t.0, target: t.1, weight: t.2 }
        };
        edges[k] = e;
        k += 1;
    }
    proof {
        let before = old(edges)@;
        let after = edges@;
        assert(after =~= edges_of_triples(triples@, by_target));
        assert(before =~= edges_of_triples(given, by_target)) by {
            assert forall|j: int| 0 <= j < before.len() implies before[j] == edge_of_triple(given[j], by_target) by {
                assert(given[j] == triple_of(before[j], by_target));
            }
        }
        assert(after.to_multiset() =~= before.to_multiset()) by {
            assert forall|e: Edge| after.to_multiset().count(e) == before.to_multiset().count(e) by {
                lemma_count_edges(triples@, by_target, e);
                lemma_count_edges(given, by_target, e);
            }
        }
        assert forall|i: int, j: int| 0 <= i <= j < after.len() implies {
            ||| key_of(#[trigger] after[i], by_target) < key_of(#[trigger] after[j], by_target)
            ||| (key_of(after[i], by_target) == key_of(after[j], by_target) && minor_of(after[i], by_target)
                <= minor_of(after[j], by_target))
        } by {
            let a = triples@[i];
            let b = triples@[j];
            assert(a.0 < b.0 || (a.0 == b.0 && a.1 < b.1) || (a.0 == b.0 && a.1 == b.1 && a.2 <= b.2));
        }
    }
}

/// Computes the block limits of edges that are sorted by their key.
#[verifier::loop_isolation(false)]
fn block_limits(edges: &Vec<Edge>, n: usize, by_target: bool) -> (limits: Vec<usize>)
    requires
        sorted_by_endpoints(edges@, by_target),
        forall|i: int| 0 <= i < edges@.len() ==> key_of(#[trigger] edges@[i], by_target) < n,
    ensures
        is_adjacency(edges@, limits@, n as int, by_target),
{
    let m = edges.len();
    let mut limits: Vec<usize> = Vec::new();
    let mut curr: usize = 0;
    let mut u: usize = 0;
    while u < n
        invariant
            u <= n,
            m == edges@.len(),
            curr <= m,
            limits@.len() == u,
            sorted_by_endpoints(edges@, by_target),
            forall|i: int| 0 <= i < edges@.len() ==> key_of(#[trigger] edges@[i], by_target) < n,
            forall|i: int| 0 <= i < curr ==> key_of(#[trigger] edges@[i], by_target) < u,
            forall|i: int| curr <= i < m ==> key_of(#[trigger] edges@[i], by_target) + 1 >= u,
            forall|v: int|
                0 <= v < u ==> {
                    &&& #[trigger] limits@[v] <= curr
                    &&& forall|i: int|
                        0 <= i < limits@[v] ==> key_of(#[trigger] edges@[i], by_target) < v
                    &&& forall|i: int|
                        limits@[v] <= i < m ==> key_of(#[trigger] edges@[i], by_target) >= v
                },
            forall|v: int| 0 <= v < u - 1 ==> #[trigger] limits@[v] <= limits@[v + 1],
        decreases n - u,
    {
        while curr < m && key(edges[curr], by_target) < u
            invariant
                u < n,
                m == edges@.len(),
                curr <= m,
                sorted_by_endpoints(edges@, by_target),
                forall|i: int| 0 <= i < curr ==> key_of(#[trigger] edges@[i], by_target) < u,
                forall|v: int| 0 <= v < u ==> #[trigger] limits@[v] <= curr,
                limits@.len() == u,
            decreases m - curr,
        {
            curr += 1;
        }
        proof {
            assert forall|i: int| curr <= i < m implies key_of(#[trigger] edges@[i], by_target)
                >= u by {
                assert(key_of(edges@[curr as int], by_target) >= u);
            }
        }
        limits.push(curr);
        u += 1;
    }
    limits.push(m);
    proof {
        let l = limits@;
        assert forall|i: int| 0 <= i < edges@.len() implies {
            &&& key_of(#[trigger] edges@[i], by_target) < n
            &&& l[key_of(edges@[i], by_target) as int] <= i
            &&& i < l[key_of(edges@[i], by_target) + 1]
        } by {
            let k = key_of(edges@[i], by_target) as int;
            assert(l[k] <= i) by {
                if i < l[k] {
                    assert(key_of(edges@[i], by_target) < k);
                }
            }
            if k + 1 < n {
                assert(i < l[k + 1]) by {
                    if l[k + 1] <= i {
                        assert(key_of(edges@[i], by_target) >= k + 1);
                    }
                }
            }
        }
        if n > 0 {
            assert(l[0] == 0) by {
                if l[0] > 0 {
                    assert(key_of(edges@[0], by_target) < 0);
                }
            }
        } else {
            assert(m == 0) by {
                if m > 0 {
                    assert(key_of(edges@[0], by_target) < n);
                }
            }
        }
        assert(l.len() == n + 1);
        assert(l[n as int] == m);
        assert forall|u: int| 0 <= u < n implies l[u] <= #[trigger] l[u + 1] <= edges@.len() by {
            if u + 1 < n {
                assert(l[u] <= l[u + 1]);
            }
        }
    }
    limits
}

/// Graph representation for the onedirectional search: a forward adjacency array and one
/// potential per node.
pub struct OneDirGraph {
    /// Potentials of each node
    potentials: Vec<Weight>,
    /// List of all edges sorted by source node
    edges: Vec<Edge>,
    /// `limits[u]` is the first edge in `edges` with source node `u`
    limits: Vec<usize>,
}

impl OneDirGraph {
    /// The edges, in source-major order.
    pub closed spec fn edges_spec(&self) -> Seq<Edge> {
        self.edges@
    }

    /// The block limits of the forward adjacency array.
    pub closed spec fn limits_spec(&self) -> Seq<usize> {
        self.limits@
    }

    /// The potential of every node.
    pub closed spec fn potentials_spec(&self) -> Seq<Weight> {
        self.potentials@
    }

    /// The number of nodes.
    pub open spec fn n_spec(&self) -> int {
        self.potentials_spec().len() as int
    }

    /// The number of edges.
    pub open spec fn m_spec(&self) -> int {
        self.edges_spec().len() as int
    }

    /// The potentials as mathematical integers.
    pub open spec fn pi(&self) -> Seq<int> {
        Seq::new(self.potentials_spec().len(), |u: int| self.potentials_spec()[u] as int)
    }

    /// Every weight is within `WEIGHT_LIMIT` and every potential within `POTENTIAL_LIMIT`.
    pub open spec fn within_limits(&self) -> bool {
        &&& forall|i: int|
            0 <= i < self.edges_spec().len() ==> -WEIGHT_LIMIT <= (#[trigger] self.edges_spec()[i]).weight
                <= WEIGHT_LIMIT
        &&& forall|u: int|
            0 <= u < self.potentials_spec().len() ==> -POTENTIAL_LIMIT
                <= #[trigger] self.potentials_spec()[u] <= POTENTIAL_LIMIT
    }

    /// What holds of the edges of a well-formed graph, whatever its potentials: they are
    /// grouped by source, every endpoint is a node, and every weight is within
    /// `WEIGHT_LIMIT`.
    pub open spec fn edges_wf(&self) -> bool {
        &&& is_adjacency(self.edges_spec(), self.limits_spec(), self.n_spec(), false)
        &&& endpoints_below(self.edges_spec(), self.n_spec())
        &&& forall|i: int|
            0 <= i < self.edges_spec().len() ==> -WEIGHT_LIMIT <= (#[trigger] self.edges_spec()[i]).weight
                <= WEIGHT_LIMIT
    }

    /// The representation invariant: the edges are grouped by source, every endpoint is a
    /// node, and weights and potentials are within their limits.
    pub open spec fn wf(&self) -> bool {
        &&& is_adjacency(self.edges_spec(), self.limits_spec(), self.n_spec(), false)
        &&& endpoints_below(self.edges_spec(), self.n_spec())
        &&& self.within_limits()
    }

    /// Johnson feasibility: under the potentials no edge has a negative reduced weight.
    pub open spec fn is_feasible_spec(&self) -> bool {
        feasible(self.edges_spec(), self.pi())
    }

    /// Every potential has a magnitude of at most `bound`.
    pub open spec fn potentials_within(&self, bound: int) -> bool {
        forall|u: int|
            0 <= u < self.potentials_spec().len() ==> -bound <= #[trigger] self.potentials_spec()[u]
                <= bound
    }

    /// Builds the graph from the number of nodes and an edge list: sorts the edges by
    /// `(source, target)` and sets every potential to zero.
    pub fn from_edges(n: usize, edges: Vec<Edge>) -> (g: Self)
        requires
            edges@.len() > 1,
            endpoints_below(edges@, n as int),
            forall|i: int|
                0 <= i < edges@.len() ==> -WEIGHT_LIMIT <= (#[trigger] edges@[i]).weight <= WEIGHT_LIMIT,
        ensures
            g.wf(),
            g.n_spec() == n,
            g.edges_spec().to_multiset() == edges@.to_multiset(),
            sorted_by_endpoints(g.edges_spec(), false),
            forall|u: int| 0 <= u < n ==> #[trigger] g.potentials_spec()[u] == 0,
    {
        let mut edges = edges;
        let ghost given = edges@;
        sort_edges(&mut edges, false);
        proof {
            lemma_same_edges_in_range(given, edges@, n as int);
        }
        let limits = block_limits(&edges, n, false);
        let potentials = zero_potentials(n);
        OneDirGraph { potentials, edges, limits }
    }

    /// Gives the edges back, in source-major order.
    pub fn into_edges(self) -> (edges: Vec<Edge>)
        ensures
            edges@ == self.edges_spec(),
    {
        self.edges
    }

    /// The number of nodes.
    pub fn n(&self) -> (n: usize)
        ensures
            n == self.n_spec(),
    {
        self.potentials.len()
    }

    /// The number of edges.
    pub fn m(&self) -> (m: usize)
        ensures
            m == self.m_spec(),
    {
        self.edges.len()
    }

    /// The edge at index `idx`.
    pub fn edge(&self, idx: usize) -> (e: Edge)
        requires
            idx < self.m_spec(),
        ensures
            e == self.edges_spec()[idx as int],
    {
        self.edges[idx]
    }

    /// All edges, in source-major order.
    pub fn edges(&self) -> (edges: &[Edge])
        ensures
            edges@ == self.edges_spec(),
    {
        self.edges.as_slice()
    }

    /// The potential of node `u`.
    pub fn potential(&self, u: Node) -> (p: Weight)
        requires
            u < self.n_spec(),
        ensures
            p == self.potentials_spec()[u as int],
    {
        self.potentials[u]
    }

    /// Adds `delta` to the potential of node `u`.
    pub fn update_potential(&mut self, u: Node, delta: Weight)
        requires
            u < old(self).n_spec(),
            -POTENTIAL_LIMIT <= old(self).potentials_spec()[u as int] + delta <= POTENTIAL_LIMIT,
        ensures
            final(self).potentials_spec() == old(self).potentials_spec().update(
                u as int,
                (old(self).potentials_spec()[u as int] + delta) as Weight,
            ),
            final(self).edges_spec() == old(self).edges_spec(),
            final(self).limits_spec() == old(self).limits_spec(),
    {
        let p = self.potentials[u];
        self.potentials[u] = p + delta;
    }

    /// The edges that leave node `u`.
    pub fn out_neighbors(&self, u: Node) -> (edges: &[Edge])
        requires
            self.edges_wf(),
            u < self.n_spec(),
        ensures
            edges@ == self.edges_spec().subrange(
                self.limits_spec()[u as int] as int,
                self.limits_spec()[u + 1] as int,
            ),
    {
        let len = self.limits.len();
        assert(u + 1 < len);
        proof {
            assert(self.limits@[u as int] <= self.limits@[u + 1] <= self.edges@.len());
        }
        slice_subrange(self.edges.as_slice(), self.limits[u], self.limits[u + 1])
    }

    /// The reduced weight of `edge` under the potentials: `w + p[target] - p[source]`.
    pub fn potential_weight(&self, edge: Edge) -> (w: Weight)
        requires
            self.wf(),
            edge.source < self.n_spec(),
            edge.target < self.n_spec(),
            -WEIGHT_LIMIT <= edge.weight <= WEIGHT_LIMIT,
        ensures
            w == reduced_weight(edge, self.pi()),
    {
        edge.weight + self.potentials[edge.target] - self.potentials[edge.source]
    }

    /// Sets the weight of the edge at index `idx`.
    pub fn update_weight(&mut self, idx: usize, weight: Weight)
        requires
            idx < old(self).m_spec(),
        ensures
            final(self).edges_spec() == old(self).edges_spec().update(
                idx as int,
                Edge { weight, ..old(self).edges_spec()[idx as int] },
            ),
            final(self).potentials_spec() == old(self).potentials_spec(),
            final(self).limits_spec() == old(self).limits_spec(),
    {
        self.edges[idx].weight = weight;
    }

    /// Checks whether the potentials are feasible: no edge has a negative reduced weight.
    pub fn is_feasible(&self) -> (b: bool)
        requires
            self.wf(),
        ensures
            b == self.is_feasible_spec(),
    {
        let mut i: usize = 0;
        while i < self.edges.len()
            invariant
                self.wf(),
                i <= self.edges@.len(),
                forall|j: int| 0 <= j < i ==> reduced_weight(#[trigger] self.edges@[j], self.pi()) >= 0,
            decreases self.edges@.len() - i,
        {
            if self.potential_weight(self.edges[i]) < 0 {
                return false;
            }
            i += 1;
        }
        true
    }
}

/// Graph representation for the bidirectional search: the forward graph and, beside it, the
/// same edges grouped by target.
pub struct TwoDirGraph {
    /// Potentials and edges sorted by source node
    forward: OneDirGraph,
    /// List of all edges sorted by target node
    rev_edges: Vec<Edge>,
    /// `rev_limits[u]` is the first edge in `rev_edges` with target node `u`
    rev_limits: Vec<usize>,
}

impl TwoDirGraph {
    /// The forward graph.
    pub closed spec fn forward_spec(&self) -> OneDirGraph {
        self.forward
    }

    /// The edges, in target-major order.
    pub closed spec fn rev_edges_spec(&self) -> Seq<Edge> {
        self.rev_edges@
    }

    /// The block limits of the reverse adjacency array.
    pub closed spec fn rev_limits_spec(&self) -> Seq<usize> {
        self.rev_limits@
    }

    /// The edges, in source-major order.
    pub open spec fn edges_spec(&self) -> Seq<Edge> {
        self.forward_spec().edges_spec()
    }

    /// The potential of every node.
    pub open spec fn potentials_spec(&self) -> Seq<Weight> {
        self.forward_spec().potentials_spec()
    }

    /// The number of nodes.
    pub open spec fn n_spec(&self) -> int {
        self.forward_spec().n_spec()
    }

    /// The number of edges.
    pub open spec fn m_spec(&self) -> int {
        self.forward_spec().m_spec()
    }

    /// The potentials as mathematical integers.
    pub open spec fn pi(&self) -> Seq<int> {
        self.forward_spec().pi()
    }

    /// The representation invariant: the forward graph is well formed, and the reverse
    /// adjacency array holds the same edges, grouped by target.
    pub open spec fn wf(&self) -> bool {
        &&& self.forward_spec().wf()
        &&& is_adjacency(self.rev_edges_spec(), self.rev_limits_spec(), self.n_spec(), true)
        &&& self.rev_edges_spec().to_multiset() == self.edges_spec().to_multiset()
    }

    /// Johnson feasibility: under the potentials no edge has a negative reduced weight.
    pub open spec fn is_feasible_spec(&self) -> bool {
        self.forward_spec().is_feasible_spec()
    }

    /// Builds the graph from the number of nodes and an edge list: sorts the edges by
    /// `(source, target)`, a copy of them by `(target, source)`, and sets every potential to
    /// zero.
    pub fn from_edges(n: usize, edges: Vec<Edge>) -> (g: Self)
        requires
            edges@.len() > 1,
            endpoints_below(edges@, n as int),
            forall|i: int|
                0 <= i < edges@.len() ==> -WEIGHT_LIMIT <= (#[trigger] edges@[i]).weight <= WEIGHT_LIMIT,
        ensures
            g.wf(),
            g.n_spec() == n,
            g.edges_spec().to_multiset() == edges@.to_multiset(),
            sorted_by_endpoints(g.edges_spec(), false),
            sorted_by_endpoints(g.rev_edges_spec(), true),
            forall|u: int| 0 <= u < n ==> #[trigger] g.potentials_spec()[u] == 0,
    {
        let forward = OneDirGraph::from_edges(n, edges);
        let mut rev_edges = forward.edges.clone();
        sort_edges(&mut rev_edges, true);
        proof {
            lemma_same_edges_in_range(forward.edges@, rev_edges@, n as int);
        }
        let rev_limits = block_limits(&rev_edges, n, true);
        TwoDirGraph { forward, rev_edges, rev_limits }
    }

    /// Gives the edges back, in source-major order.
    pub fn into_edges(self) -> (edges: Vec<Edge>)
        ensures
            edges@ == self.edges_spec(),
    {
        self.forward.into_edges()
    }

    /// The forward graph: the edges grouped by source, and the potentials.
    pub fn forward(&self) -> (g: &OneDirGraph)
        ensures
            *g == self.forward_spec(),
    {
        &self.forward
    }

    /// The number of nodes.
    pub fn n(&self) -> (n: usize)
        ensures
            n == self.n_spec(),
    {
        self.forward.n()
    }

    /// The number of edges.
    pub fn m(&self) -> (m: usize)
        ensures
            m == self.m_spec(),
    {
        self.forward.m()
    }

    /// The edge at index `idx` of the forward array.
    pub fn edge(&self, idx: usize) -> (e: Edge)
        requires
            idx < self.m_spec(),
        ensures
            e == self.edges_spec()[idx as int],
    {
        self.forward.edge(idx)
    }

    /// The potential of node `u`.
    pub fn potential(&self, u: Node) -> (p: Weight)
        requires
            u < self.n_spec(),
        ensures
            p == self.potentials_spec()[u as int],
    {
        self.forward.potential(u)
    }

    /// Adds `delta` to the potential of node `u`.
    pub fn update_potential(&mut self, u: Node, delta: Weight)
        requires
            u < old(self).n_spec(),
            -POTENTIAL_LIMIT <= old(self).potentials_spec()[u as int] + delta <= POTENTIAL_LIMIT,
        ensures
            final(self).potentials_spec() == old(self).potentials_spec().update(
                u as int,
                (old(self).potentials_spec()[u as int] + delta) as Weight,
            ),
            final(self).edges_spec() == old(self).edges_spec(),
            final(self).forward_spec().limits_spec() == old(self).forward_spec().limits_spec(),
            final(self).rev_edges_spec() == old(self).rev_edges_spec(),
            final(self).rev_limits_spec() == old(self).rev_limits_spec(),
    {
        self.forward.update_potential(u, delta);
    }

    /// The edges that leave node `u`.
    pub fn out_neighbors(&self, u: Node) -> (edges: &[Edge])
        requires
            self.wf(),
            u < self.n_spec(),
        ensures
            edges@ == self.edges_spec().subrange(
                self.forward_spec().limits_spec()[u as int] as int,
                self.forward_spec().limits_spec()[u + 1] as int,
            ),
    {
        self.forward.out_neighbors(u)
    }

    /// The edges that enter node `u`.
    pub fn in_neighbors(&self, u: Node) -> (edges: &[Edge])
        requires
            self.wf(),
            u < self.n_spec(),
        ensures
            edges@ == self.rev_edges_spec().subrange(
                self.rev_limits_spec()[u as int] as int,
                self.rev_limits_spec()[u + 1] as int,
            ),
    {
        let len = self.rev_limits.len();
        assert(u + 1 < len);
        proof {
            assert(self.rev_limits@[u as int] <= self.rev_limits@[u + 1] <= self.rev_edges@.len());
        }
        slice_subrange(self.rev_edges.as_slice(), self.rev_limits[u], self.rev_limits[u + 1])
    }

    /// The reduced weight of `edge` under the potentials: `w + p[target] - p[source]`.
    pub fn potential_weight(&self, edge: Edge) -> (w: Weight)
        requires
            self.wf(),
            edge.source < self.n_spec(),
            edge.target < self.n_spec(),
            -WEIGHT_LIMIT <= edge.weight <= WEIGHT_LIMIT,
        ensures
            w == reduced_weight(edge, self.pi()),
    {
        self.forward.potential_weight(edge)
    }

    /// Sets the weight of the edge at index `idx` of the forward array, and of its mirror in
    /// the reverse array: the first edge there with the same endpoints and the old weight.
    pub fn update_weight(&mut self, idx: usize, weight: Weight)
        requires
            old(self).wf(),
            idx < old(self).m_spec(),
            -WEIGHT_LIMIT <= weight <= WEIGHT_LIMIT,
        ensures
            final(self).wf(),
            final(self).edges_spec() == old(self).edges_spec().update(
                idx as int,
                Edge { weight, ..old(self).edges_spec()[idx as int] },
            ),
            final(self).potentials_spec() == old(self).potentials_spec(),
            final(self).forward_spec().limits_spec() == old(self).forward_spec().limits_spec(),
            final(self).rev_limits_spec() == old(self).rev_limits_spec(),
            exists|i: int|
                {
                    &&& 0 <= i < old(self).rev_edges_spec().len()
                    &&& old(self).rev_edges_spec()[i] == old(self).edges_spec()[idx as int]
                    &&& forall|j: int|
                        0 <= j < i ==> #[trigger] old(self).rev_edges_spec()[j] != old(
                            self,
                        ).edges_spec()[idx as int]
                    &&& #[trigger] final(self).rev_edges_spec() =~= old(self).rev_edges_spec().update(
                        i,
                        Edge { weight, ..old(self).edges_spec()[idx as int] },
                    )
                },
    {
        broadcast use vstd::seq_lib::group_to_multiset_ensures;

        let e = self.forward.edge(idx);
        let ghost changed = Edge { weight, ..e };
        let (u, v, w) = e.into_tuple();
        proof {
            lemma_same_edges(self.forward.edges@, self.rev_edges@);
            assert(self.rev_edges@.contains(e));
        }
        let ghost at = choose|j: int| 0 <= j < self.rev_edges@.len() && self.rev_edges@[j] == e;
        self.forward.update_weight(idx, weight);
        let ghost fwd_after = self.forward;
        let len = self.rev_limits.len();
        assert(v + 1 < len);
        let mut i = self.rev_limits[v];
        let end = self.rev_limits[v + 1];
        let mut found = false;
        while i < end
            invariant_except_break
                !found,
            invariant
                self.rev_limits@ == old(self).rev_limits@,
                self.forward == fwd_after,
                old(self).wf(),
                e == old(self).forward.edges@[idx as int],
                e == (Edge { source: u, target: v, weight: w }),
                changed == (Edge { weight, ..e }),
                0 <= at < old(self).rev_edges@.len(),
                old(self).rev_edges@[at] == e,
                old(self).rev_limits@[v as int] <= i <= end,
                end == old(self).rev_limits@[v + 1],
                end <= old(self).rev_edges@.len(),
                v < old(self).n_spec(),
                !found ==> self.rev_edges@ == old(self).rev_edges@,
                !found ==> forall|j: int| old(self).rev_limits@[v as int] <= j < i ==> #[trigger] self.rev_edges@[j] != e,
            ensures
                found ==> old(self).rev_limits@[v as int] <= i < end && old(self).rev_edges@[i as int] == e
                    && (forall|j: int| old(self).rev_limits@[v as int] <= j < i ==> #[trigger] old(self).rev_edges@[j] != e)
                    && self.rev_edges@ =~= old(self).rev_edges@.update(i as int, changed),
                !found ==> i == end,
            decreases end - i,
        {
            if self.rev_edges[i].source == u && self.rev_edges[i].weight == w {
                proof {
                    lemma_block_key(old(self).rev_edges@, old(self).rev_limits@, old(self).n_spec(), true, v as int, i as int);
                }
                self.rev_edges[i].weight = weight;
                found = true;
                break ;
            }
            i += 1;
        }
        proof {
            let rl = old(self).rev_limits@;
            assert(rl[v as int] <= at < rl[v + 1]);
            assert(found);
            assert forall|j: int| 0 <= j < i implies #[trigger] old(self).rev_edges@[j] != e by {
                if j < rl[v as int] && old(self).rev_edges@[j] == e {
                    assert(rl[key_of(old(self).rev_edges@[j], true) as int] <= j);
                }
            }
            let fe = old(self).forward.edges@;
            let re = old(self).rev_edges@;
            vstd::seq_lib::to_multiset_update(fe, idx as int, changed);
            vstd::seq_lib::to_multiset_update(re, i as int, changed);
            assert(self.forward.edges@ == fe.update(idx as int, changed));
            assert(self.rev_edges@ =~= re.update(i as int, changed));
            assert(is_adjacency(self.forward.edges@, self.forward.limits@, self.n_spec(), false)) by {
                assert forall|k: int| 0 <= k < fe.len() implies key_of(
                    #[trigger] self.forward.edges@[k],
                    false,
                ) == key_of(fe[k], false) by {}
            }
            assert(is_adjacency(self.rev_edges@, self.rev_limits@, self.n_spec(), true)) by {
                assert forall|k: int| 0 <= k < re.len() implies key_of(
                    #[trigger] self.rev_edges@[k],
                    true,
                ) == key_of(re[k], true) by {}
            }
            assert(endpoints_below(self.forward.edges@, self.n_spec())) by {
                assert forall|k: int| 0 <= k < fe.len() implies (#[trigger] self.forward.edges@[k]).source
                    == fe[k].source && self.forward.edges@[k].target == fe[k].target by {}
            }
        }
    }
}

/// A vector of `n` zeros.
fn zero_potentials(n: usize) -> (v: Vec<Weight>)
    ensures
        v@.len() == n,
        forall|u: int| 0 <= u < n ==> #[trigger] v@[u] == 0,
{
    let mut v: Vec<Weight> = Vec::new();
    let mut u: usize = 0;
    while u < n
        invariant
            u <= n,
            v@.len() == u,
            forall|k: int| 0 <= k < u ==> #[trigger] v@[k] == 0,
        decreases n - u,
    {
        v.push(0);
        u += 1;
    }
    v
}

/// Of two edge lists with the same edges, each holds every edge of the other.
pub proof fn lemma_same_edges(a: Seq<Edge>, b: Seq<Edge>)
    requires
        a.to_multiset() == b.to_multiset(),
    ensures
        forall|i: int| 0 <= i < b.len() ==> a.contains(#[trigger] b[i]),
        forall|i: int| 0 <= i < a.len() ==> b.contains(#[trigger] a[i]),
        a.len() == b.len(),
{
    broadcast use vstd::seq_lib::group_to_multiset_ensures;

    assert(a.to_multiset().len() == a.len());
    assert(b.to_multiset().len() == b.len());
    assert forall|i: int| 0 <= i < b.len() implies a.contains(#[trigger] b[i]) by {
        assert(b.contains(b[i]));
        assert(b.to_multiset().count(b[i]) > 0);
    }
    assert forall|i: int| 0 <= i < a.len() implies b.contains(#[trigger] a[i]) by {
        assert(a.contains(a[i]));
        assert(a.to_multiset().count(a[i]) > 0);
    }
}

/// A list with the same edges as one whose endpoints and weights are in range is in range.
proof fn lemma_same_edges_in_range(a: Seq<Edge>, b: Seq<Edge>, n: int)
    requires
        a.to_multiset() == b.to_multiset(),
        endpoints_below(a, n),
        forall|i: int| 0 <= i < a.len() ==> -WEIGHT_LIMIT <= (#[trigger] a[i]).weight <= WEIGHT_LIMIT,
    ensures
        endpoints_below(b, n),
        forall|i: int| 0 <= i < b.len() ==> -WEIGHT_LIMIT <= (#[trigger] b[i]).weight <= WEIGHT_LIMIT,
        forall|i: int| 0 <= i < b.len() ==> key_of(#[trigger] b[i], false) < n,
        forall|i: int| 0 <= i < b.len() ==> key_of(#[trigger] b[i], true) < n,
{
    lemma_same_edges(a, b);
    assert forall|i: int| 0 <= i < b.len() implies {
        &&& (#[trigger] b[i]).source < n
        &&& b[i].target < n
        &&& -WEIGHT_LIMIT <= b[i].weight <= WEIGHT_LIMIT
    } by {
        assert(a.contains(b[i]));
        let j = choose|j: int| 0 <= j < a.len() && a[j] == b[i];
        assert(a[j].source < n);
    }
}

} // verus!
