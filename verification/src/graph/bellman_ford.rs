use crate::bitset::{
    bits_of, cardinality, cardinality_of, new_all_set, new_unset, set_bit, unset_all, unset_bit,
};
use crate::graph::repr::{lemma_block_key, sorted_by_endpoints, OneDirGraph};
use crate::graph::{Edge, Node, NODE_LIMIT, POTENTIAL_LIMIT, WEIGHT_LIMIT};
use crate::paths::{
    admits_potentials, endpoints_below, feasible, is_negative_cycle, is_walk, lemma_feasible_walk,
    lemma_walk_prepend, lemma_walk_push, lighter_than, reduced_weight, walk_weight,
};
use crate::utils::lemma_distinct_below;
use crate::search::{
    lemma_lowest_rank, lemma_marked_count_bound, lemma_marked_count_extremes,
    lemma_marked_count_set, lemma_marked_count_unset, marked_count, rank_below,
};
use crate::weight::{Weight, MAX};
use ez_bitset::bitset::BitSet;
use std::collections::VecDeque;
use vstd::prelude::*;

verus! {

/// The graph admits feasible potentials whose magnitudes are at most `bound`.
pub open spec fn admits_potentials_within(edges: Seq<Edge>, n: int, bound: int) -> bool {
    exists|pi: Seq<int>| #[trigger] witnesses(edges, n, bound, pi)
}

/// The potentials `pi` are feasible for the graph and within `bound`.
pub open spec fn witnesses(edges: Seq<Edge>, n: int, bound: int, pi: Seq<int>) -> bool {
    &&& pi.len() == n
    &&& feasible(edges, pi)
    &&& forall|x: int| 0 <= x < n ==> -bound <= #[trigger] pi[x] <= bound
}

/// The workspace of the search with relaxation from a queue.
pub struct BellmanFord {
    distances: Vec<Weight>,
    queue: VecDeque<Node>,
    in_queue: BitSet,
}

/// What a distance counts for in the measure of progress: `MAX` counts more than any
/// distance that was found.
pub open spec fn term(x: Weight) -> int {
    if x < MAX {
        x + 2 * POTENTIAL_LIMIT
    } else {
        NODE_LIMIT * WEIGHT_LIMIT + 2 * POTENTIAL_LIMIT + 1
    }
}

/// The measure of progress: the sum of the terms of the first `k` distances.
pub open spec fn total(d: Seq<Weight>, k: int) -> int
    decreases k,
{
    if k <= 0 {
        0
    } else {
        total(d, k - 1) + term(d[k - 1])
    }
}

/// Replacing one distance changes the measure by the difference of the terms.
proof fn lemma_total_update(d: Seq<Weight>, k: int, v: int, x: Weight)
    requires
        0 <= v < d.len(),
        0 <= k <= d.len(),
    ensures
        total(d.update(v, x), k) == total(d, k) + if v < k {
            term(x) - term(d[v])
        } else {
            0
        },
    decreases k,
{
    if k > 0 {
        lemma_total_update(d, k - 1, v, x);
    }
}

/// The nodes that were reached.
pub open spec fn reached(d: Seq<Weight>) -> Seq<bool> {
    Seq::new(d.len(), |x: int| d[x] < MAX)
}

/// The edge at index `j` is relaxed: its target was reached, and lies no farther than its
/// source and the weight of the edge allow.
pub open spec fn edge_relaxed(edges: Seq<Edge>, d: Seq<Weight>, j: int) -> bool {
    d[edges[j].target as int] < MAX && d[edges[j].target as int] <= d[edges[j].source as int]
        + edges[j].weight
}

/// The first `k` edges that leave `x` are relaxed.
pub open spec fn node_relaxed(g: &OneDirGraph, d: Seq<Weight>, x: int, k: int) -> bool {
    forall|j: int|
        g.limits_spec()[x] <= j < g.limits_spec()[x] + k ==> #[trigger] edge_relaxed(g.edges_spec(), d, j)
}

/// What the search knows of node `x`: if it was reached, a walk of the recorded weight
/// leads to it, and the distance is within the bounds that exclude overflow.
pub open spec fn entry_ok(g: &OneDirGraph, d: Seq<Weight>, walks: Seq<Seq<Edge>>, s: Node, x: int) -> bool {
    d[x] < MAX ==> {
        &&& is_walk(g.edges_spec(), walks[x], s as int, x)
        &&& walk_weight(walks[x]) == d[x]
        &&& -2 * POTENTIAL_LIMIT <= d[x] <= (marked_count(reached(d), d.len() as int) - 1) * WEIGHT_LIMIT
    }
}

/// A node other than the target that was reached and does not wait in the queue has its
/// edges relaxed; the node under expansion, the first `progress` of them.
pub open spec fn settled_ok(
    g: &OneDirGraph,
    d: Seq<Weight>,
    bits: Seq<bool>,
    t: Node,
    cur: int,
    progress: int,
    x: int,
) -> bool {
    x != t && !bits[x] && d[x] < MAX ==> node_relaxed(
        g,
        d,
        x,
        if x == cur {
            progress
        } else {
            g.limits_spec()[x + 1] - g.limits_spec()[x]
        },
    )
}

/// The invariant of the search.
pub open spec fn search_ok(
    g: &OneDirGraph,
    d: Seq<Weight>,
    q: Seq<Node>,
    bits: Seq<bool>,
    walks: Seq<Seq<Edge>>,
    s: Node,
    t: Node,
    min_distance: Weight,
    cur: int,
    progress: int,
) -> bool {
    let n = g.n_spec();
    &&& d.len() == n
    &&& bits.len() == n
    &&& walks.len() == n
    &&& d[s as int] < MAX
    &&& d[s as int] <= 0
    &&& forall|x: int| 0 <= x < n ==> #[trigger] entry_ok(g, d, walks, s, x)
    &&& q.no_duplicates()
    &&& forall|i: int| 0 <= i < q.len() ==> (#[trigger] q[i]) < n && bits[q[i] as int] && d[q[i] as int] < MAX
    &&& forall|x: int| 0 <= x < n && #[trigger] bits[x] ==> q.contains(x as usize)
    &&& forall|x: int| 0 <= x < n ==> #[trigger] settled_ok(g, d, bits, t, cur, progress, x)
    &&& d[t as int] < MAX ==> d[t as int] >= min_distance
    &&& -1 <= cur < n
    &&& cur >= 0 ==> d[cur] < MAX && 0 <= progress <= g.limits_spec()[cur + 1] - g.limits_spec()[cur]
}

/// What the search may be run on: a well-formed graph of at most `NODE_LIMIT` nodes that
/// admits feasible potentials within `POTENTIAL_LIMIT`, and two of its nodes.
pub open spec fn runnable(g: &OneDirGraph, source: Node, target: Node) -> bool {
    &&& g.wf()
    &&& g.n_spec() <= NODE_LIMIT
    &&& source < g.n_spec()
    &&& target < g.n_spec()
    &&& admits_potentials_within(g.edges_spec(), g.n_spec(), POTENTIAL_LIMIT as int)
}

/// In a graph with feasible potentials, once every reached node but the target has its
/// edges relaxed, no walk from the source arrives with less than the recorded distance, be
/// it that of its end or, where the walk has passed the target, that of the target.
proof fn lemma_relaxed_walk(
    g: &OneDirGraph,
    pi: Seq<int>,
    d: Seq<Weight>,
    s: Node,
    t: Node,
    p: Seq<Edge>,
    v: int,
)
    requires
        g.wf(),
        d.len() == g.n_spec(),
        pi.len() == g.n_spec(),
        feasible(g.edges_spec(), pi),
        s < g.n_spec(),
        t < g.n_spec(),
        d[s as int] < MAX,
        d[s as int] <= 0,
        forall|j: int|
            0 <= j < g.edges_spec().len() && (#[trigger] g.edges_spec()[j]).source != t && d[g.edges_spec()[j].source as int]
                < MAX ==> edge_relaxed(g.edges_spec(), d, j),
        is_walk(g.edges_spec(), p, s as int, v),
    ensures
        (d[v] < MAX && d[v] <= walk_weight(p)) || (d[t as int] < MAX && d[t as int] + pi[t as int] - pi[v]
            <= walk_weight(p)),
        0 <= v < g.n_spec(),
    decreases p.len(),
{
    let edges = g.edges_spec();
    if p.len() > 0 {
        let e = p.last();
        let j = choose|j: int| 0 <= j < edges.len() && edges[j] == e;
        assert(edges[j].target < g.n_spec());
        assert(crate::paths::reduced_weight(edges[j], pi) >= 0);
        lemma_relaxed_walk(g, pi, d, s, t, p.drop_last(), e.source as int);
        if e.source != t && d[e.source as int] < MAX {
            assert(edge_relaxed(edges, d, j));
        }
    }
}

impl BellmanFord {
    /// The number of nodes of the graphs that this instance can search.
    pub closed spec fn n_spec(&self) -> int {
        self.distances@.len() as int
    }

    /// The distance of every node from the source of the last search; `MAX` for a node that
    /// was not reached.
    pub closed spec fn dist_spec(&self) -> Seq<Weight> {
        self.distances@
    }

    /// The nodes that wait for their expansion, first in line first.
    pub closed spec fn queue_spec(&self) -> Seq<Node> {
        self.queue@
    }

    /// For every node, whether it waits in the queue.
    pub closed spec fn queued_spec(&self) -> Seq<bool> {
        bits_of(self.in_queue)
    }

    /// The representation invariant: the set of queued nodes has one bit per node.
    pub closed spec fn wf(&self) -> bool {
        bits_of(self.in_queue).len() == self.distances@.len()
    }

    /// Creates the workspace for graphs with `n` nodes.
    pub fn new(n: usize) -> (r: Self)
        ensures
            r.wf(),
            r.n_spec() == n,
    {
        let mut distances: Vec<Weight> = Vec::new();
        let mut i: usize = 0;
        while i < n
            invariant
                i <= n,
                distances@.len() == i,
            decreases n - i,
        {
            distances.push(MAX);
            i += 1;
        }
        Self { distances, queue: VecDeque::with_capacity(n), in_queue: new_unset(n) }
    }

    /// Forgets what the last search found: no node is reached, none is queued.
    pub fn clear(&mut self)
        requires
            old(self).wf(),
        ensures
            final(self).wf(),
            final(self).n_spec() == old(self).n_spec(),
            final(self).queue_spec().len() == 0,
            forall|x: int| 0 <= x < final(self).n_spec() ==> #[trigger] final(self).dist_spec()[x] == MAX,
            forall|x: int| 0 <= x < final(self).n_spec() ==> !#[trigger] final(self).queued_spec()[x],
    {
        let n = self.distances.len();
        let mut i: usize = 0;
        while i < n
            invariant
                i <= n,
                n == self.distances@.len(),
                self.in_queue == old(self).in_queue,
                forall|x: int| 0 <= x < i ==> #[trigger] self.distances@[x] == MAX,
            decreases n - i,
        {
            self.distances[i] = MAX;
            i += 1;
        }
        self.queue.clear();
        unset_all(&mut self.in_queue);
    }
}


impl BellmanFord {
    spec fn inv(&self, g: &OneDirGraph, walks: Seq<Seq<Edge>>, s: Node, t: Node, md: Weight, cur: int, progress: int) -> bool {
        search_ok(g, self.distances@, self.queue@, bits_of(self.in_queue), walks, s, t, md, cur, progress)
    }

    /// An edge from the node under expansion gave its target a smaller distance.
    proof fn lemma_relax(
        pre: BellmanFord,
        post: BellmanFord,
        g: &OneDirGraph,
        walks: Seq<Seq<Edge>>,
        s: Node,
        t: Node,
        md: Weight,
        pi: Seq<int>,
        progress: int,
        u: Node,
    ) -> (walks2: Seq<Seq<Edge>>)
        requires
            runnable(g, s, t),
            witnesses(g.edges_spec(), g.n_spec(), POTENTIAL_LIMIT as int, pi),
            pre.inv(g, walks, s, t, md, u as int, progress),
            progress < g.limits_spec()[u + 1] - g.limits_spec()[u as int],
            ({
                let e = g.edges_spec()[g.limits_spec()[u as int] + progress];
                let d = pre.distances@;
                &&& d[u as int] + e.weight < d[e.target as int]
                &&& post.distances@ == d.update(e.target as int, (d[u as int] + e.weight) as Weight)
                &&& !(e.target == t && d[u as int] + e.weight < md)
                &&& if e.target == t {
                    post.queue@ == pre.queue@ && bits_of(post.in_queue) == bits_of(pre.in_queue)
                } else {
                    &&& bits_of(post.in_queue) == bits_of(pre.in_queue).update(e.target as int, true)
                    &&& post.queue@ == if bits_of(pre.in_queue)[e.target as int] {
                        pre.queue@
                    } else {
                        pre.queue@.push(e.target)
                    }
                }
            }),
        ensures
            walks2 == walks.update(
                g.edges_spec()[g.limits_spec()[u as int] + progress].target as int,
                walks[u as int].push(g.edges_spec()[g.limits_spec()[u as int] + progress]),
            ),
            post.inv(g, walks2, s, t, md, u as int, progress + 1),
            total(post.distances@, g.n_spec()) < total(pre.distances@, g.n_spec()),
            -2 * POTENTIAL_LIMIT <= pre.distances@[u as int] + g.edges_spec()[g.limits_spec()[u as int]
                + progress].weight <= NODE_LIMIT * WEIGHT_LIMIT,
    {
        let edges = g.edges_spec();
        let lim = g.limits_spec();
        let n = g.n_spec();
        let j = lim[u as int] + progress;
        lemma_block_key(edges, lim, n, false, u as int, j);
        let e = edges[j];
        let v = e.target as int;
        let d = pre.distances@;
        let d2 = post.distances@;
        let q = pre.queue@;
        let q2 = post.queue@;
        let bits = bits_of(pre.in_queue);
        let bits2 = bits_of(post.in_queue);
        let walks2 = walks.update(v, walks[u as int].push(e));
        assert(e.target < n);
        assert(-WEIGHT_LIMIT <= e.weight <= WEIGHT_LIMIT);
        assert(entry_ok(g, d, walks, s, u as int));
        lemma_walk_push(edges, walks[u as int], s as int, e);
        lemma_feasible_walk(edges, pi, walks2[v], s as int, v);
        let cost = d[u as int] + e.weight;
        // how many nodes are reached
        let c = marked_count(reached(d), n);
        let c2 = marked_count(reached(d2), n);
        lemma_marked_count_bound(reached(d), n);
        lemma_marked_count_bound(reached(d2), n);
        if d[v] < MAX {
            assert(reached(d2) =~= reached(d));
        } else {
            assert(reached(d2) =~= reached(d).update(v, true));
            lemma_marked_count_set(reached(d), v, n);
        }
        assert((c - 1) * WEIGHT_LIMIT + WEIGHT_LIMIT == c * WEIGHT_LIMIT) by (nonlinear_arith);
        assert((c2 - 1) * WEIGHT_LIMIT >= (c - 1) * WEIGHT_LIMIT) by (nonlinear_arith)
            requires
                c2 >= c,
        ;
        assert((c2 - 1) * WEIGHT_LIMIT <= NODE_LIMIT * WEIGHT_LIMIT) by (nonlinear_arith)
            requires
                c2 <= n,
                n <= NODE_LIMIT,
        ;
        assert(cost <= (c2 - 1) * WEIGHT_LIMIT) by {
            if d[v] < MAX {
                assert(entry_ok(g, d, walks, s, v));
            }
        }
        lemma_total_update(d, n, v, cost as Weight);
        assert forall|x: int| 0 <= x < n implies #[trigger] entry_ok(g, d2, walks2, s, x) by {
            assert(entry_ok(g, d, walks, s, x));
        }
        assert forall|x: int| 0 <= x < n implies #[trigger] settled_ok(g, d2, bits2, t, u as int, progress + 1, x) by {
            assert(settled_ok(g, d, bits, t, u as int, progress, x));
            if x != t && !bits2[x] && d2[x] < MAX {
                assert(x != v);
                let k = if x == u {
                    progress + 1
                } else {
                    lim[x + 1] - lim[x]
                };
                assert forall|j2: int| lim[x] <= j2 < lim[x] + k implies #[trigger] edge_relaxed(edges, d2, j2) by {
                    lemma_block_key(edges, lim, n, false, x, j2);
                    if j2 != j {
                        assert(edge_relaxed(edges, d, j2));
                    }
                }
            }
        }
        assert forall|i: int| 0 <= i < q2.len() implies (#[trigger] q2[i]) < n && bits2[q2[i] as int]
            && d2[q2[i] as int] < MAX by {
            if i < q.len() {
                assert(q2[i] == q[i]);
            }
        }
        assert(q2.no_duplicates()) by {
            if e.target != t && !bits[v] {
                assert(!q.contains(e.target)) by {
                    if q.contains(e.target) {
                        let i = choose|i: int| 0 <= i < q.len() && q[i] == e.target;
                        assert(bits[q[i] as int]);
                    }
                }
            }
        }
        assert forall|x: int| 0 <= x < n && #[trigger] bits2[x] implies q2.contains(x as usize) by {
            if bits[x] {
                assert(q.contains(x as usize));
                let i = choose|i: int| 0 <= i < q.len() && q[i] == x as usize;
                assert(q2[i] == x as usize);
            } else {
                assert(q2[q2.len() - 1] == x as usize);
            }
        }
        walks2
    }

    /// Searches for the walks from `source_node` that arrive at `target_node` with a weight
    /// below `min_distance`, on the raw weights of the graph. Returns *false* if there is
    /// one, or if `source_node` is `target_node`; *true* if there is none.
    ///
    /// A search from a node to itself answers before it looks at the graph.
    pub fn run(&mut self, graph: &OneDirGraph, source_node: Node, target_node: Node, min_distance: Weight) -> (r:
        bool)
        requires
            old(self).wf(),
            source_node == target_node || (old(self).n_spec() == graph.n_spec() && runnable(
                graph,
                source_node,
                target_node,
            )),
        ensures
            final(self).wf(),
            final(self).n_spec() == old(self).n_spec(),
            r == (source_node != target_node && !lighter_than(
                graph.edges_spec(),
                source_node as int,
                target_node as int,
                min_distance as int,
            )),
    {
        if source_node == target_node {
            return false;
        }
        let ghost edges = graph.edges_spec();
        let ghost lim = graph.limits_spec();
        let ghost n = graph.n_spec();
        let ghost pi = choose|pi: Seq<int>| #[trigger] witnesses(edges, n, POTENTIAL_LIMIT as int, pi);
        self.clear();
        proof {
            assert forall|x: int| 0 <= x < n implies self.distances@[x] == MAX && !bits_of(self.in_queue)[x] by {
                assert(self.dist_spec()[x] == MAX);
                assert(!self.queued_spec()[x]);
            }
            assert(self.queue_spec().len() == 0);
        }

        self.distances[source_node] = 0;
        self.queue.push_back(source_node);
        set_bit(&mut self.in_queue, source_node);

        let ghost mut walks: Seq<Seq<Edge>> = Seq::new(n as nat, |x: int| Seq::<Edge>::empty());
        proof {
            let d = self.distances@;
            assert(is_walk(edges, walks[source_node as int], source_node as int, source_node as int));
            assert(reached(d) =~= Seq::new(n as nat, |x: int| false).update(source_node as int, true));
            lemma_marked_count_set(Seq::new(n as nat, |x: int| false), source_node as int, n);
            lemma_marked_count_bound(Seq::new(n as nat, |x: int| false), n);
            lemma_no_marks(n);
            assert forall|x: int| 0 <= x < n implies #[trigger] entry_ok(graph, d, walks, source_node, x) by {}
            assert(self.queue@[0] == source_node);
        }
        loop
            invariant_except_break
                self.inv(graph, walks, source_node, target_node, min_distance, -1, 0),
            invariant
                runnable(graph, source_node, target_node),
                witnesses(edges, n, POTENTIAL_LIMIT as int, pi),
                edges == graph.edges_spec(),
                lim == graph.limits_spec(),
                n == graph.n_spec(),
                source_node != target_node,
                self.wf(),
                self.n_spec() == old(self).n_spec(),
            ensures
                self.inv(graph, walks, source_node, target_node, min_distance, -1, 0),
                self.queue@.len() == 0,
            decreases total(self.distances@, n), self.queue@.len(),
        {
            proof {
                let d = self.distances@;
                assert forall|x: int| 0 <= x < d.len() && #[trigger] d[x] < MAX implies -2 * POTENTIAL_LIMIT
                    <= d[x] by {
                    assert(entry_ok(graph, d, walks, source_node, x));
                }
                lemma_total_range(d, n);
            }
            let ghost q0 = self.queue@;
            let ghost d0 = self.distances@;
            let ghost bits0 = bits_of(self.in_queue);
            let next = self.queue.pop_front();
            let u = match next {
                None => {
                    break ;
                },
                Some(u) => u,
            };
            proof {
                assert(q0[0] == u);
            }
            unset_bit(&mut self.in_queue, u);
            proof {
                let q = self.queue@;
                let bits = bits_of(self.in_queue);
                let d = self.distances@;
                assert forall|i: int| 0 <= i < q.len() implies (#[trigger] q[i]) < n && bits[q[i] as int]
                    && d[q[i] as int] < MAX by {
                    assert(q[i] == q0[i + 1]);
                    assert(q0[i + 1] != q0[0]);
                }
                assert(q.no_duplicates()) by {
                    assert forall|i: int, j: int| 0 <= i < q.len() && 0 <= j < q.len() && i != j implies q[i]
                        != q[j] by {
                        assert(q[i] == q0[i + 1] && q[j] == q0[j + 1]);
                    }
                }
                assert forall|x: int| 0 <= x < n && #[trigger] bits[x] implies q.contains(x as usize) by {
                    assert(bits0[x]);
                    assert(q0.contains(x as usize));
                    let i = choose|i: int| 0 <= i < q0.len() && q0[i] == x as usize;
                    assert(i != 0);
                    assert(q[i - 1] == x as usize);
                }
                assert forall|x: int| 0 <= x < n implies #[trigger] settled_ok(
                    graph,
                    d,
                    bits,
                    target_node,
                    u as int,
                    0,
                    x,
                ) by {
                    assert(settled_ok(graph, d, bits0, target_node, -1, 0, x));
                }
                assert(lim[u as int] <= lim[u + 1]);
            }
            let edges_out = graph.out_neighbors(u);
            let ghost mut relaxed_any = false;
            let mut k: usize = 0;
            while k < edges_out.len()
                invariant
                    runnable(graph, source_node, target_node),
                    witnesses(edges, n, POTENTIAL_LIMIT as int, pi),
                    edges == graph.edges_spec(),
                    lim == graph.limits_spec(),
                    n == graph.n_spec(),
                    source_node != target_node,
                    self.wf(),
                    self.n_spec() == old(self).n_spec(),
                    u < n,
                    k <= edges_out@.len(),
                    edges_out@ == edges.subrange(lim[u as int] as int, lim[u + 1] as int),
                    self.inv(graph, walks, source_node, target_node, min_distance, u as int, k as int),
                    total(self.distances@, n) <= total(d0, n),
                    relaxed_any ==> total(self.distances@, n) < total(d0, n),
                    !relaxed_any ==> self.distances@ == d0 && self.queue@.len() == q0.len() - 1,
                decreases edges_out@.len() - k,
            {
                let edge = edges_out[k];
                proof {
                    lemma_block_key(edges, lim, n, false, u as int, lim[u as int] + k);
                    assert(edge == edges[lim[u as int] + k]);
                    assert(edge.target < n);
                    assert(-WEIGHT_LIMIT <= edge.weight <= WEIGHT_LIMIT);
                    assert(entry_ok(graph, self.distances@, walks, source_node, u as int));
                    lemma_marked_count_bound(reached(self.distances@), n);
                    let c = marked_count(reached(self.distances@), n);
                    assert((c - 1) * WEIGHT_LIMIT <= NODE_LIMIT * WEIGHT_LIMIT) by (nonlinear_arith)
                        requires
                            c <= n,
                            n <= NODE_LIMIT,
                    ;
                }
                let ghost pre = *self;
                if self.distances[u] + edge.weight < self.distances[edge.target] {
                    let cost = self.distances[u] + edge.weight;
                    self.distances[edge.target] = cost;
                    if edge.target == target_node {
                        if cost < min_distance {
                            proof {
                                let walk = walks[u as int].push(edge);
                                lemma_walk_push(edges, walks[u as int], source_node as int, edge);
                                assert(is_walk(edges, walk, source_node as int, target_node as int));
                                assert(walk_weight(walk) < min_distance);
                            }
                            return false;
                        }
                    } else {
                        if !set_bit(&mut self.in_queue, edge.target) {
                            self.queue.push_back(edge.target);
                        }
                    }
                    proof {
                        walks = Self::lemma_relax(
                            pre,
                            *self,
                            graph,
                            walks,
                            source_node,
                            target_node,
                            min_distance,
                            pi,
                            k as int,
                            u,
                        );
                        relaxed_any = true;
                    }
                } else {
                    proof {
                        let d = self.distances@;
                        let bits = bits_of(self.in_queue);
                        assert forall|x: int| 0 <= x < n implies #[trigger] settled_ok(
                            graph,
                            d,
                            bits,
                            target_node,
                            u as int,
                            k + 1,
                            x,
                        ) by {
                            assert(settled_ok(graph, d, bits, target_node, u as int, k as int, x));
                            assert(edge_relaxed(edges, d, lim[u as int] + k));
                        }
                    }
                }
                k += 1;
            }
            proof {
                let d = self.distances@;
                let bits = bits_of(self.in_queue);
                assert forall|x: int| 0 <= x < n implies #[trigger] settled_ok(graph, d, bits, target_node, -1, 0, x) by {
                    assert(settled_ok(graph, d, bits, target_node, u as int, k as int, x));
                }
                assert forall|x: int| 0 <= x < d.len() && #[trigger] d[x] < MAX implies -2 * POTENTIAL_LIMIT
                    <= d[x] by {
                    assert(entry_ok(graph, d, walks, source_node, x));
                }
                lemma_total_range(d, n);
                if relaxed_any {
                    assert(total(d, n) < total(d0, n));
                } else {
                    assert(d == d0);
                    assert(self.queue@.len() < q0.len());
                }
            }
        }
        proof {
            let d = self.distances@;
            let bits = bits_of(self.in_queue);
            let t = target_node;
            assert forall|x: int| 0 <= x < n implies !bits[x] by {
                if bits[x] {
                    assert(self.queue@.contains(x as usize));
                }
            }
            assert forall|j: int|
                0 <= j < edges.len() && (#[trigger] edges[j]).source != t && d[edges[j].source as int]
                    < MAX implies edge_relaxed(edges, d, j) by {
                let x = edges[j].source as int;
                assert(settled_ok(graph, d, bits, t, -1, 0, x));
                assert(lim[x] <= j < lim[x + 1]);
            }
            assert forall|p: Seq<Edge>| #[trigger]
                is_walk(edges, p, source_node as int, t as int) implies walk_weight(p) >= min_distance by {
                lemma_relaxed_walk(graph, pi, d, source_node, t, p, t as int);
            }
        }
        true
    }
}

/// No node of an unmarked sequence counts.
proof fn lemma_no_marks(n: int)
    requires
        0 <= n,
    ensures
        marked_count(Seq::new(n as nat, |x: int| false), n) == 0,
{
    lemma_no_marks_below(n, n);
}

proof fn lemma_no_marks_below(n: int, k: int)
    requires
        0 <= k <= n,
    ensures
        marked_count(Seq::new(n as nat, |x: int| false), k) == 0,
    decreases k,
{
    if k > 0 {
        lemma_no_marks_below(n, k - 1);
    }
}

/// The measure of progress never falls below zero while every reached distance is at least
/// `-2 * POTENTIAL_LIMIT`.
proof fn lemma_total_range(d: Seq<Weight>, k: int)
    requires
        0 <= k <= d.len(),
        forall|x: int| 0 <= x < d.len() && #[trigger] d[x] < MAX ==> -2 * POTENTIAL_LIMIT <= d[x],
    ensures
        total(d, k) >= 0,
    decreases k,
{
    if k > 0 {
        lemma_total_range(d, k - 1);
    }
}


/// The depths witness that the predecessors form a forest: a node without predecessor has
/// the depth `0`, any other node lies one deeper than its predecessor, and no node lies
/// deeper than `n - 1`.
pub open spec fn is_depth(pred: Seq<Node>, depth: Seq<int>) -> bool {
    &&& depth.len() == pred.len()
    &&& forall|v: int|
        0 <= v < pred.len() ==> {
            &&& 0 <= #[trigger] depth[v] < pred.len()
            &&& pred[v] >= pred.len() ==> depth[v] == 0
            &&& pred[v] < pred.len() ==> depth[v] == depth[pred[v] as int] + 1
        }
}

/// The predecessors form a forest: following them from any node leads, without ever
/// returning to a node, to a node without predecessor.
pub open spec fn is_forest(pred: Seq<Node>) -> bool {
    exists|depth: Seq<int>| #[trigger] is_depth(pred, depth)
}

/// The marked nodes are closed under the predecessors: there is one, each of them has a
/// predecessor, and that is marked too.
pub open spec fn is_closed(pred: Seq<Node>, marks: Seq<bool>) -> bool {
    &&& marks.len() == pred.len()
    &&& exists|v: int| 0 <= v < pred.len() && #[trigger] marks[v]
    &&& forall|v: int|
        0 <= v < pred.len() && #[trigger] marks[v] ==> pred[v] < pred.len() && marks[pred[v] as int]
}

/// The predecessors hold a cycle: some set of nodes is closed under them.
pub open spec fn has_cycle(pred: Seq<Node>) -> bool {
    exists|marks: Seq<bool>| #[trigger] is_closed(pred, marks)
}

/// A forest holds no cycle.
pub proof fn lemma_forest_has_no_cycle(pred: Seq<Node>)
    requires
        is_forest(pred),
    ensures
        !has_cycle(pred),
{
    let depth = choose|depth: Seq<int>| #[trigger] is_depth(pred, depth);
    if has_cycle(pred) {
        let marks = choose|marks: Seq<bool>| #[trigger] is_closed(pred, marks);
        let stamps = Seq::new(pred.len(), |v: int| 0nat);
        let m = lemma_lowest_rank(depth, stamps, marks, pred.len() as int);
        let p = pred[m] as int;
        assert(marks[p]);
        assert(depth[m] == depth[p] + 1);
        assert(rank_below(depth, stamps, p, m));
    }
}

/// The lists of successors up to node `k`: every node below `k` with a predecessor is
/// listed with that predecessor, once, and nothing else is listed.
spec fn successors_ok(pred: Seq<Node>, succ: Seq<Vec<Node>>, k: int) -> bool {
    &&& succ.len() == pred.len()
    &&& forall|u: int, i: int|
        0 <= u < succ.len() && 0 <= i < succ[u]@.len() ==> {
            &&& (#[trigger] succ[u]@[i]) < k
            &&& pred[succ[u]@[i] as int] == u
        }
    &&& forall|u: int, i: int, j: int|
        0 <= u < succ.len() && 0 <= i < j < succ[u]@.len() ==> (#[trigger] succ[u]@[i]) < (#[trigger] succ[u]@[j])
    &&& forall|v: int|
        0 <= v < k && #[trigger] pred[v] < pred.len() ==> succ[pred[v] as int]@.contains(v as usize)
}

/// The state of the walk over the forest.
spec fn walk_ok(
    pred: Seq<Node>,
    succ: Seq<Vec<Node>>,
    stack: Seq<Node>,
    unused: Seq<bool>,
    depth: Seq<int>,
    popped: int,
    cur: int,
    progress: int,
) -> bool {
    let n = pred.len() as int;
    &&& unused.len() == n
    &&& depth.len() == n
    &&& successors_ok(pred, succ, n)
    &&& 0 <= popped <= n
    &&& popped + marked_count(unused, n) == n
    &&& stack.no_duplicates()
    &&& forall|i: int|
        0 <= i < stack.len() ==> {
            &&& (#[trigger] stack[i]) < n
            &&& unused[stack[i] as int]
        }
    &&& forall|v: int|
        0 <= v < n && (!#[trigger] unused[v] || stack.contains(v as usize)) ==> {
            &&& 0 <= depth[v] <= popped
            &&& !unused[v] ==> depth[v] < popped
            &&& pred[v] >= n ==> depth[v] == 0
            &&& pred[v] < n ==> !unused[pred[v] as int] && depth[v] == depth[pred[v] as int] + 1
        }
    &&& forall|v: int| 0 <= v < n && #[trigger] pred[v] >= n ==> !unused[v] || stack.contains(v as usize)
    &&& forall|u: int, i: int|
        0 <= u < n && !unused[u] && 0 <= i < succ[u]@.len() && (u != cur || i < progress) ==> {
            ||| !unused[(#[trigger] succ[u]@[i]) as int]
            ||| stack.contains(succ[u]@[i])
        }
    &&& -1 <= cur < n
    &&& cur >= 0 ==> !unused[cur] && 0 <= progress <= succ[cur]@.len()
}

/// Check if the shortest path tree is acyclic via TopoSearch: walks the forest of the nodes
/// that have no predecessor, along the lists of successors, and says whether the walk has
/// reached every node.
pub fn shortest_path_tree_is_acyclic(graph: &OneDirGraph, predecessors: &[Node]) -> (r: bool)
    requires
        predecessors@.len() == graph.n_spec(),
    ensures
        r == is_forest(predecessors@),
        r == !has_cycle(predecessors@),
{
    let n = graph.n();
    let ghost pred = predecessors@;
    let mut unused_nodes = new_all_set(n);
    let mut successors: Vec<Vec<Node>> = Vec::new();
    let mut i: usize = 0;
    while i < n
        invariant
            i <= n,
            successors@.len() == i,
            forall|u: int| 0 <= u < i ==> (#[trigger] successors@[u])@.len() == 0,
        decreases n - i,
    {
        successors.push(Vec::new());
        i += 1;
    }
    let mut stack: Vec<Node> = Vec::new();
    let mut v: usize = 0;
    while v < n
        invariant
            v <= n,
            n == pred.len(),
            pred == predecessors@,
            successors_ok(pred, successors@, v as int),
            forall|i: int| 0 <= i < stack@.len() ==> (#[trigger] stack@[i]) < v && pred[stack@[i] as int] >= n,
            forall|i: int, j: int| 0 <= i < j < stack@.len() ==> (#[trigger] stack@[i]) < (#[trigger] stack@[j]),
            forall|x: int| 0 <= x < v && #[trigger] pred[x] >= n ==> stack@.contains(x as usize),
        decreases n - v,
    {
        let u = predecessors[v];
        let ghost succ0 = successors@;
        let ghost stack0 = stack@;
        if u >= n {
            stack.push(v);
            proof {
                assert forall|x: int| 0 <= x < v + 1 && #[trigger] pred[x] >= n implies stack@.contains(
                    x as usize,
                ) by {
                    if x < v {
                        assert(stack0.contains(x as usize));
                        let i = choose|i: int| 0 <= i < stack0.len() && stack0[i] == x as usize;
                        assert(stack@[i] == x as usize);
                    } else {
                        assert(stack@[stack@.len() - 1] == v);
                    }
                }
            }
        } else {
            successors[u].push(v);
            proof {
                let succ = successors@;
                assert forall|w: int, i: int| 0 <= w < succ.len() && 0 <= i < succ[w]@.len() implies {
                    &&& (#[trigger] succ[w]@[i]) < v + 1
                    &&& pred[succ[w]@[i] as int] == w
                } by {
                    if w != u || i < succ0[w]@.len() {
                        assert(succ[w]@[i] == succ0[w]@[i]);
                    }
                }
                assert forall|w: int, i: int, j: int|
                    0 <= w < succ.len() && 0 <= i < j < succ[w]@.len() implies (#[trigger] succ[w]@[i]) < (
                #[trigger] succ[w]@[j]) by {
                    if w != u || j < succ0[w]@.len() {
                        assert(succ[w]@[i] == succ0[w]@[i]);
                        assert(succ[w]@[j] == succ0[w]@[j]);
                    } else {
                        assert(succ[w]@[i] == succ0[w]@[i]);
                    }
                }
                assert forall|x: int| 0 <= x < v + 1 && #[trigger] pred[x] < pred.len() implies succ[pred[x] as int]@.contains(
                    x as usize,
                ) by {
                    if x < v {
                        let w = pred[x] as int;
                        assert(succ0[w]@.contains(x as usize));
                        let i = choose|i: int| 0 <= i < succ0[w]@.len() && succ0[w]@[i] == x as usize;
                        assert(succ[w]@[i] == x as usize);
                    } else {
                        assert(succ[u as int]@[succ[u as int]@.len() - 1] == v);
                    }
                }
            }
        }
        v += 1;
    }

    let ghost mut depth: Seq<int> = Seq::new(n as nat, |x: int| 0int);
    let ghost mut popped: int = 0;
    proof {
        let unused = bits_of(unused_nodes);
        lemma_marked_count_extremes(unused, n as int);
        assert(stack@.no_duplicates());
    }
    loop
        invariant
            n == pred.len(),
            pred == predecessors@,
            walk_ok(pred, successors@, stack@, bits_of(unused_nodes), depth, popped, -1, 0),
            cardinality_of(unused_nodes) == marked_count(bits_of(unused_nodes), n as int),
        ensures
            stack@.len() == 0,
        decreases cardinality_of(unused_nodes),
    {
        let ghost stack0 = stack@;
        let ghost unused0 = bits_of(unused_nodes);
        let top = stack.pop();
        let u = match top {
            None => {
                break ;
            },
            Some(u) => u,
        };
        proof {
            assert(stack0[stack0.len() - 1] == u);
            assert(unused0[u as int]);
            lemma_marked_count_unset(unused0, u as int, n as int);
            assert(stack0.contains(u));
        }
        unset_bit(&mut unused_nodes, u);
        proof {
            let unused = bits_of(unused_nodes);
            let st = stack@;
            assert forall|w: Node| #[trigger] st.contains(w) <==> (stack0.contains(w) && w != u) by {
                if st.contains(w) {
                    let i = choose|i: int| 0 <= i < st.len() && st[i] == w;
                    assert(stack0[i] == w);
                    assert(stack0[i] != stack0[stack0.len() - 1]);
                }
                if stack0.contains(w) && w != u {
                    let i = choose|i: int| 0 <= i < stack0.len() && stack0[i] == w;
                    assert(st[i] == w);
                }
            }
            popped = popped + 1;
            assert forall|w: int, i: int|
                0 <= w < n && !unused[w] && 0 <= i < successors@[w]@.len() && (w != u || i < 0) implies {
                ||| !unused[(#[trigger] successors@[w]@[i]) as int]
                ||| st.contains(successors@[w]@[i])
            } by {
                let x = successors@[w]@[i];
                assert(!unused0[x as int] || stack0.contains(x));
                if x == u {
                    // the node that was popped was not on the stack before its predecessor
                    assert(pred[u as int] == w);
                    assert(!unused0[w]);
                } 
            }
            assert forall|x: int| 0 <= x < n && (!#[trigger] unused[x] || st.contains(x as usize)) implies {
                &&& 0 <= depth[x] <= popped
                &&& !unused[x] ==> depth[x] < popped
                &&& pred[x] >= n ==> depth[x] == 0
                &&& pred[x] < n ==> !unused[pred[x] as int] && depth[x] == depth[pred[x] as int] + 1
            } by {
                assert(!unused0[x] || stack0.contains(x as usize));
            }
        }
        let len = successors[u].len();
        let ghost base = stack@;
        proof {
            assert(stack@ =~= base + successors@[u as int]@.take(0));
            assert forall|x: int|
                0 <= x < n && (!#[trigger] unused0[x] || stack0.contains(x as usize)) && pred[x]
                    < n implies !unused0[pred[x] as int] by {}
        }
        let mut k: usize = 0;
        while k < len
            invariant
                k <= len,
                u < n,
                n == pred.len(),
                pred == predecessors@,
                len == successors@[u as int]@.len(),
                unused0.len() == n,
                unused0[u as int],
                bits_of(unused_nodes) == unused0.update(u as int, false),
                stack@ == base + successors@[u as int]@.take(k as int),
                forall|w: Node| #[trigger] base.contains(w) ==> stack0.contains(w),
                forall|x: int|
                    0 <= x < n && (!#[trigger] unused0[x] || stack0.contains(x as usize)) && pred[x] < n
                        ==> !unused0[pred[x] as int],
                walk_ok(pred, successors@, stack@, bits_of(unused_nodes), depth, popped, u as int, k as int),
                cardinality_of(unused_nodes) == marked_count(bits_of(unused_nodes), n as int),
                cardinality_of(unused_nodes) < marked_count(unused0, n as int),
            decreases len - k,
        {
            let w = successors[u][k];
            let ghost st0 = stack@;
            let ghost unused = bits_of(unused_nodes);
            proof {
                assert(pred[w as int] == u);
                assert(w < n);
                // a successor of `u` was neither reached nor stacked before `u` was popped
                let list = successors@[u as int]@;
                assert(list[k as int] == w);
                assert(w != u) by {
                    if w == u {
                        assert(!unused0[pred[u as int] as int]);
                    }
                }
                assert(unused0[w as int]);
                assert(!stack0.contains(w));
                assert(!st0.contains(w)) by {
                    if st0.contains(w) {
                        let i = choose|i: int| 0 <= i < st0.len() && st0[i] == w;
                        if i < base.len() {
                            assert(base[i] == w);
                            assert(base.contains(w));
                        } else {
                            assert(list.take(k as int)[i - base.len()] == w);
                            assert(list[i - base.len()] < list[k as int]);
                        }
                    }
                }
            }
            stack.push(w);
            proof {
                let list = successors@[u as int]@;
                assert(stack@ =~= base + list.take(k as int + 1)) by {
                    assert(list.take(k as int + 1) =~= list.take(k as int).push(w));
                }
                let old_depth = depth;
                depth = depth.update(w as int, depth[u as int] + 1);
                let st = stack@;
                assert forall|x: Node| #[trigger] st.contains(x) <==> (st0.contains(x) || x == w) by {
                    if st0.contains(x) {
                        let i = choose|i: int| 0 <= i < st0.len() && st0[i] == x;
                        assert(st[i] == x);
                    }
                    if x == w {
                        assert(st[st.len() - 1] == w);
                    }
                }
                assert forall|x: int| 0 <= x < n && (!#[trigger] unused[x] || st.contains(x as usize)) implies {
                    &&& 0 <= depth[x] <= popped
                    &&& !unused[x] ==> depth[x] < popped
                    &&& pred[x] >= n ==> depth[x] == 0
                    &&& pred[x] < n ==> !unused[pred[x] as int] && depth[x] == depth[pred[x] as int] + 1
                } by {
                    if x != w {
                        assert(!unused[x] || st0.contains(x as usize));
                        if pred[x] < n {
                            assert(pred[x] != w);
                        }
                    }
                }
            }
            k += 1;
        }
    }
    let c = cardinality(&unused_nodes);
    proof {
        let unused = bits_of(unused_nodes);
        lemma_marked_count_extremes(unused, n as int);
        if c == 0 {
            assert(is_depth(pred, depth)) by {
                assert forall|x: int| 0 <= x < n implies {
                    &&& 0 <= #[trigger] depth[x] < n
                    &&& pred[x] >= n ==> depth[x] == 0
                    &&& pred[x] < n ==> depth[x] == depth[pred[x] as int] + 1
                } by {
                    assert(!unused[x]);
                }
            }
            lemma_forest_has_no_cycle(pred);
        } else {
            assert(is_closed(pred, unused)) by {
                assert forall|x: int| 0 <= x < n && #[trigger] unused[x] implies pred[x] < n && unused[pred[x] as int] by {
                    if pred[x] >= n {
                        assert(!unused[x] || stack@.contains(x as usize));
                    } else if !unused[pred[x] as int] {
                        let p = pred[x] as int;
                        assert(successors@[p]@.contains(x as usize));
                        let i = choose|i: int| 0 <= i < successors@[p]@.len() && successors@[p]@[i] == x as usize;
                        assert(!unused[successors@[p]@[i] as int] || stack@.contains(successors@[p]@[i]));
                    }
                }
            }
            if is_forest(pred) {
                lemma_forest_has_no_cycle(pred);
            }
        }
    }
    c == 0
}


/// The edge at index `j` does not allow a smaller distance for its target.
pub open spec fn edge_tight(edges: Seq<Edge>, d: Seq<Weight>, j: int) -> bool {
    d[edges[j].target as int] <= d[edges[j].source as int] + edges[j].weight
}

/// The first `k` edges that leave `x` allow no smaller distance for their targets.
pub open spec fn node_tight(g: &OneDirGraph, d: Seq<Weight>, x: int, k: int) -> bool {
    forall|j: int|
        g.limits_spec()[x] <= j < g.limits_spec()[x] + k ==> #[trigger] edge_tight(g.edges_spec(), d, j)
}

/// The distances plus the potentials: what the rank of a node is made of.
pub open spec fn rank_keys(d: Seq<Weight>, pi: Seq<int>) -> Seq<int> {
    Seq::new(d.len(), |x: int| d[x] + pi[x])
}

/// Under the potentials `pi`, every node ranks above its predecessor.
pub open spec fn ranked(pred: Seq<Node>, d: Seq<Weight>, stamps: Seq<nat>, pi: Seq<int>) -> bool {
    forall|v: int|
        0 <= v < pred.len() && #[trigger] pred[v] < pred.len() ==> rank_below(
            rank_keys(d, pi),
            stamps,
            pred[v] as int,
            v,
        )
}

/// Under whatever feasible potentials there are, every node ranks above its predecessor.
pub open spec fn always_ranked(edges: Seq<Edge>, pred: Seq<Node>, d: Seq<Weight>, stamps: Seq<nat>) -> bool {
    forall|pi: Seq<int>| pi.len() == pred.len() && #[trigger] feasible(edges, pi) ==> ranked(pred, d, stamps, pi)
}

/// The shift that makes every distance of the cycle search count as non-negative.
pub open spec fn floor_shift() -> int {
    2 * NODE_LIMIT * WEIGHT_LIMIT
}

/// The measure of progress of the cycle search: the sum of the first `k` distances, each
/// shifted to be non-negative.
pub open spec fn level(d: Seq<Weight>, k: int) -> int
    decreases k,
{
    if k <= 0 {
        0
    } else {
        level(d, k - 1) + d[k - 1] + floor_shift()
    }
}

proof fn lemma_level_update(d: Seq<Weight>, k: int, v: int, x: Weight)
    requires
        0 <= v < d.len(),
        0 <= k <= d.len(),
    ensures
        level(d.update(v, x), k) == level(d, k) + if v < k {
            x - d[v]
        } else {
            0
        },
    decreases k,
{
    if k > 0 {
        lemma_level_update(d, k - 1, v, x);
    }
}

proof fn lemma_level_range(d: Seq<Weight>, k: int)
    requires
        0 <= k <= d.len(),
        forall|x: int| 0 <= x < d.len() ==> -floor_shift() <= #[trigger] d[x],
    ensures
        level(d, k) >= 0,
    decreases k,
{
    if k > 0 {
        lemma_level_range(d, k - 1);
    }
}

/// What the cycle search knows of node `x`.
pub open spec fn cycle_entry_ok(
    d: Seq<Weight>,
    pred: Seq<Node>,
    stamps: Seq<nat>,
    clock: nat,
    relax: int,
    x: int,
) -> bool {
    let n = d.len() as int;
    &&& -(n - 1 + relax) * WEIGHT_LIMIT <= d[x] <= 0
    &&& pred[x] <= n
    &&& pred[x] == n ==> d[x] == 0
    &&& pred[x] < n ==> d[x] >= d[pred[x] as int] - WEIGHT_LIMIT
    &&& stamps[x] <= clock
}

/// A node that does not wait in the queue has tight edges; the node under expansion, the
/// first `progress` of them.
pub open spec fn cycle_settled_ok(g: &OneDirGraph, d: Seq<Weight>, bits: Seq<bool>, cur: int, progress: int, x: int) -> bool {
    !bits[x] ==> node_tight(
        g,
        d,
        x,
        if x == cur {
            progress
        } else {
            g.limits_spec()[x + 1] - g.limits_spec()[x]
        },
    )
}

/// The invariant of the cycle search.
pub open spec fn cycle_search_ok(
    g: &OneDirGraph,
    d: Seq<Weight>,
    pred: Seq<Node>,
    stamps: Seq<nat>,
    clock: nat,
    q: Seq<Node>,
    bits: Seq<bool>,
    relax: int,
    cur: int,
    progress: int,
) -> bool {
    let n = g.n_spec();
    &&& d.len() == n
    &&& pred.len() == n
    &&& stamps.len() == n
    &&& bits.len() == n
    &&& 0 <= relax < n || (n == 0 && relax == 0)
    &&& forall|x: int| 0 <= x < n ==> #[trigger] cycle_entry_ok(d, pred, stamps, clock, relax, x)
    &&& always_ranked(g.edges_spec(), pred, d, stamps)
    &&& q.no_duplicates()
    &&& forall|i: int| 0 <= i < q.len() ==> (#[trigger] q[i]) < n && bits[q[i] as int]
    &&& forall|x: int| 0 <= x < n && #[trigger] bits[x] ==> q.contains(x as usize)
    &&& forall|x: int| 0 <= x < n ==> #[trigger] cycle_settled_ok(g, d, bits, cur, progress, x)
    &&& -1 <= cur < n
    &&& cur >= 0 ==> 0 <= progress <= g.limits_spec()[cur + 1] - g.limits_spec()[cur]
}

/// In a forest of predecessors in which every node lies at most `WEIGHT_LIMIT` below its
/// predecessor, a node lies at most its depth times `WEIGHT_LIMIT` below zero.
proof fn lemma_depth_bound(d: Seq<Weight>, pred: Seq<Node>, depth: Seq<int>, v: int)
    requires
        d.len() == pred.len(),
        is_depth(pred, depth),
        0 <= v < pred.len(),
        forall|x: int|
            0 <= x < pred.len() ==> {
                &&& (#[trigger] pred[x]) >= pred.len() ==> d[x] == 0
                &&& pred[x] < pred.len() ==> d[x] >= d[pred[x] as int] - WEIGHT_LIMIT
            },
    ensures
        d[v] >= -depth[v] * WEIGHT_LIMIT,
        d[v] >= -(pred.len() - 1) * WEIGHT_LIMIT,
    decreases depth[v],
{
    let n = pred.len() as int;
    assert(0 <= depth[v] < n);
    if pred[v] < pred.len() {
        let p = pred[v] as int;
        assert(depth[v] == depth[p] + 1);
        assert(0 <= depth[p]);
        lemma_depth_bound(d, pred, depth, p);
        assert(-depth[p] * WEIGHT_LIMIT - WEIGHT_LIMIT == -depth[v] * WEIGHT_LIMIT) by (nonlinear_arith)
            requires
                depth[v] == depth[p] + 1,
        ;
    } else {
        assert(-depth[v] * WEIGHT_LIMIT == 0) by (nonlinear_arith)
            requires
                depth[v] == 0,
        ;
    }
    assert(-depth[v] * WEIGHT_LIMIT >= -(n - 1) * WEIGHT_LIMIT) by (nonlinear_arith)
        requires
            0 <= depth[v] <= n - 1,
    ;
}

/// Where every node ranks above its predecessor, the predecessors hold no cycle.
proof fn lemma_ranked_no_cycle(pred: Seq<Node>, d: Seq<Weight>, stamps: Seq<nat>, pi: Seq<int>)
    requires
        d.len() == pred.len(),
        stamps.len() == pred.len(),
        pi.len() == pred.len(),
        ranked(pred, d, stamps, pi),
    ensures
        !has_cycle(pred),
{
    if has_cycle(pred) {
        let marks = choose|marks: Seq<bool>| #[trigger] is_closed(pred, marks);
        let m = lemma_lowest_rank(rank_keys(d, pi), stamps, marks, pred.len() as int);
        let p = pred[m] as int;
        assert(marks[p]);
        assert(rank_below(rank_keys(d, pi), stamps, p, m));
    }
}

/// One relaxation of the cycle search keeps every node ranked above its predecessor.
proof fn lemma_relax_ranked(
    g: &OneDirGraph,
    d: Seq<Weight>,
    pred: Seq<Node>,
    stamps: Seq<nat>,
    clock: nat,
    j: int,
)
    requires
        g.edges_wf(),
        d.len() == g.n_spec(),
        pred.len() == g.n_spec(),
        stamps.len() == g.n_spec(),
        0 <= j < g.edges_spec().len(),
        forall|x: int| 0 <= x < stamps.len() ==> #[trigger] stamps[x] <= clock,
        always_ranked(g.edges_spec(), pred, d, stamps),
        d[g.edges_spec()[j].source as int] + g.edges_spec()[j].weight < d[g.edges_spec()[j].target as int],
        i64::MIN <= d[g.edges_spec()[j].source as int] + g.edges_spec()[j].weight,
    ensures
        always_ranked(
            g.edges_spec(),
            pred.update(g.edges_spec()[j].target as int, g.edges_spec()[j].source),
            d.update(
                g.edges_spec()[j].target as int,
                (d[g.edges_spec()[j].source as int] + g.edges_spec()[j].weight) as Weight,
            ),
            stamps.update(g.edges_spec()[j].target as int, clock + 1),
        ),
{
    let edges = g.edges_spec();
    let e = edges[j];
    let u = e.source as int;
    let v = e.target as int;
    let n = g.n_spec();
    assert(e.target < n && e.source < n);
    let cost = (d[u] + e.weight) as Weight;
    let pred2 = pred.update(v, e.source);
    let d2 = d.update(v, cost);
    let stamps2 = stamps.update(v, clock + 1);
    assert forall|pi: Seq<int>| pi.len() == pred2.len() && #[trigger] feasible(edges, pi) implies ranked(
        pred2,
        d2,
        stamps2,
        pi,
    ) by {
        assert(ranked(pred, d, stamps, pi));
        assert(reduced_weight(edges[j], pi) >= 0);
        let keys = rank_keys(d, pi);
        let keys2 = rank_keys(d2, pi);
        assert forall|x: int| 0 <= x < pred2.len() && #[trigger] pred2[x] < pred2.len() implies rank_below(
            keys2,
            stamps2,
            pred2[x] as int,
            x,
        ) by {
            if x == v {
                assert(u != v);
                assert(keys2[u] == keys[u]);
                assert(stamps[u] <= clock);
            } else {
                let p = pred[x] as int;
                assert(rank_below(keys, stamps, p, x));
                assert(keys2[x] == keys[x]);
                if p == v {
                    assert(keys2[v] < keys[v]);
                } else {
                    assert(keys2[p] == keys[p]);
                }
            }
        }
    }
}

/// What the search remembers of how node `x` got its predecessor: the edge `via[x]` leads
/// from the predecessor to `x`, and the distance of `x` is no smaller than that edge allows;
/// it is greater where the predecessor was relaxed since.
pub open spec fn via_ok(
    edges: Seq<Edge>,
    d: Seq<Weight>,
    pred: Seq<Node>,
    stamps: Seq<nat>,
    via: Seq<Edge>,
    x: int,
) -> bool {
    pred[x] < pred.len() ==> {
        &&& edges.contains(via[x])
        &&& via[x].source == pred[x]
        &&& via[x].target == x
        &&& d[x] >= d[pred[x] as int] + via[x].weight
        &&& stamps[pred[x] as int] >= stamps[x] ==> d[x] > d[pred[x] as int] + via[x].weight
    }
}

/// Every node got its predecessor by an edge of the graph.
pub open spec fn all_via_ok(edges: Seq<Edge>, d: Seq<Weight>, pred: Seq<Node>, stamps: Seq<nat>, via: Seq<Edge>) -> bool {
    &&& via.len() == pred.len()
    &&& d.len() == pred.len()
    &&& stamps.len() == pred.len()
    &&& forall|x: int| 0 <= x < pred.len() ==> #[trigger] via_ok(edges, d, pred, stamps, via, x)
}

/// A relaxation keeps the record of the edges in order.
proof fn lemma_via_relax(
    edges: Seq<Edge>,
    d: Seq<Weight>,
    pred: Seq<Node>,
    stamps: Seq<nat>,
    clock: nat,
    via: Seq<Edge>,
    j: int,
)
    requires
        all_via_ok(edges, d, pred, stamps, via),
        0 <= j < edges.len(),
        edges[j].source < pred.len(),
        edges[j].target < pred.len(),
        forall|x: int| 0 <= x < stamps.len() ==> #[trigger] stamps[x] <= clock,
        d[edges[j].source as int] + edges[j].weight < d[edges[j].target as int],
        i64::MIN <= d[edges[j].source as int] + edges[j].weight,
    ensures
        all_via_ok(
            edges,
            d.update(edges[j].target as int, (d[edges[j].source as int] + edges[j].weight) as Weight),
            pred.update(edges[j].target as int, edges[j].source),
            stamps.update(edges[j].target as int, clock + 1),
            via.update(edges[j].target as int, edges[j]),
        ),
{
    let e = edges[j];
    let u = e.source as int;
    let v = e.target as int;
    let d2 = d.update(v, (d[u] + e.weight) as Weight);
    let pred2 = pred.update(v, e.source);
    let stamps2 = stamps.update(v, clock + 1);
    let via2 = via.update(v, e);
    assert forall|x: int| 0 <= x < pred2.len() implies #[trigger] via_ok(edges, d2, pred2, stamps2, via2, x) by {
        assert(via_ok(edges, d, pred, stamps, via, x));
        assert(stamps[u] <= clock);
        if x != v && pred[x] < pred.len() {
            assert(stamps[x] <= clock);
            assert(stamps[pred[x] as int] <= clock);
        }
    }
}

/// The node that is reached from `v` by following the predecessors `k` times.
pub open spec fn ancestor(pred: Seq<Node>, v: Node, k: nat) -> Node
    decreases k,
{
    if k == 0 {
        v
    } else {
        pred[ancestor(pred, v, (k - 1) as nat) as int]
    }
}

/// The edges by which `v` and its first `k - 1` ancestors got their predecessors, from the
/// farthest ancestor on: a walk from the `k`-th ancestor of `v` to `v`.
pub open spec fn descent(pred: Seq<Node>, via: Seq<Edge>, v: Node, k: nat) -> Seq<Edge>
    decreases k,
{
    if k == 0 {
        Seq::empty()
    } else {
        seq![via[ancestor(pred, v, (k - 1) as nat) as int]] + descent(pred, via, v, (k - 1) as nat)
    }
}

/// Following the predecessors from a node of a closed set never leaves the set.
proof fn lemma_ancestor_marked(pred: Seq<Node>, marks: Seq<bool>, v: Node, k: nat)
    requires
        is_closed(pred, marks),
        v < pred.len(),
        marks[v as int],
    ensures
        ancestor(pred, v, k) < pred.len(),
        marks[ancestor(pred, v, k) as int],
    decreases k,
{
    if k > 0 {
        lemma_ancestor_marked(pred, marks, v, (k - 1) as nat);
    }
}

/// The ancestors of an ancestor are ancestors.
proof fn lemma_ancestor_add(pred: Seq<Node>, v: Node, i: nat, k: nat)
    ensures
        ancestor(pred, ancestor(pred, v, i), k) == ancestor(pred, v, i + k),
    decreases k,
{
    if k > 0 {
        lemma_ancestor_add(pred, v, i, (k - 1) as nat);
    }
}

/// The descent from the `k`-th ancestor of `v` is a walk to `v` that weighs no more than the
/// distance of `v` exceeds that of the ancestor, and less unless every node on the way was
/// relaxed after its predecessor.
proof fn lemma_descent(
    edges: Seq<Edge>,
    d: Seq<Weight>,
    pred: Seq<Node>,
    stamps: Seq<nat>,
    via: Seq<Edge>,
    marks: Seq<bool>,
    v: Node,
    k: nat,
)
    requires
        all_via_ok(edges, d, pred, stamps, via),
        is_closed(pred, marks),
        v < pred.len(),
        marks[v as int],
    ensures
        is_walk(edges, descent(pred, via, v, k), ancestor(pred, v, k) as int, v as int),
        walk_weight(descent(pred, via, v, k)) <= d[v as int] - d[ancestor(pred, v, k) as int],
        walk_weight(descent(pred, via, v, k)) < d[v as int] - d[ancestor(pred, v, k) as int] || k == 0
            || stamps[ancestor(pred, v, k) as int] < stamps[v as int],
    decreases k,
{
    if k > 0 {
        let below = (k - 1) as nat;
        let c = ancestor(pred, v, below);
        lemma_descent(edges, d, pred, stamps, via, marks, v, below);
        lemma_ancestor_marked(pred, marks, v, below);
        assert(via_ok(edges, d, pred, stamps, via, c as int));
        assert(pred[c as int] < pred.len());
        lemma_walk_prepend(edges, via[c as int], descent(pred, via, v, below), v as int);
    }
}

/// Where the predecessors hold a cycle, the edges by which its nodes got their predecessors
/// form a cycle of negative weight.
proof fn lemma_pred_cycle(edges: Seq<Edge>, d: Seq<Weight>, pred: Seq<Node>, stamps: Seq<nat>, via: Seq<Edge>)
    requires
        all_via_ok(edges, d, pred, stamps, via),
        has_cycle(pred),
        pred.len() <= usize::MAX,
    ensures
        exists|p: Seq<Edge>| is_negative_cycle(edges, p),
{
    let n = pred.len();
    let marks = choose|marks: Seq<bool>| #[trigger] is_closed(pred, marks);
    let start = choose|v: int| 0 <= v < pred.len() && #[trigger] marks[v];
    let first = start as usize;
    let chain = Seq::new(n + 1, |i: int| ancestor(pred, first, i as nat));
    assert forall|i: int| 0 <= i < chain.len() implies #[trigger] chain[i] < n by {
        lemma_ancestor_marked(pred, marks, first, i as nat);
    }
    if chain.no_duplicates() {
        lemma_distinct_below(chain, n);
    }
    let (a, b) = choose|a: int, b: int| 0 <= a < chain.len() && 0 <= b < chain.len() && a != b && chain[a] == chain[b];
    let (i, j) = if a < b {
        (a, b)
    } else {
        (b, a)
    };
    let v = ancestor(pred, first, i as nat);
    let k = (j - i) as nat;
    lemma_ancestor_marked(pred, marks, first, i as nat);
    lemma_ancestor_add(pred, first, i as nat, k);
    assert(chain[i] == v && chain[j] == ancestor(pred, first, j as nat));
    assert(ancestor(pred, v, k) == v);
    lemma_descent(edges, d, pred, stamps, via, marks, v, k);
    let p = descent(pred, via, v, k);
    assert(is_walk(edges, p, v as int, v as int) && walk_weight(p) < 0);
    assert(is_negative_cycle(edges, p));
}

/// Returns *true* if the graph has a negative weight cycle: if it admits no potentials
/// under which every reduced weight is non-negative. Where there are none, some closed
/// walk has a negative weight.
///
/// The search works on the raw weights and never reads the potentials of the graph, so
/// nothing is asked of them. The limit on the number of nodes keeps the recorded distances,
/// each the weight of a walk of fewer edges than there are nodes, within 64 bits.
pub fn has_negative_cycle(graph: &OneDirGraph) -> (r: bool)
    requires
        graph.edges_wf(),
        graph.n_spec() <= NODE_LIMIT,
    ensures
        r == !admits_potentials(graph.edges_spec(), graph.n_spec()),
        r ==> exists|p: Seq<Edge>| is_negative_cycle(graph.edges_spec(), p),
{
    let n = graph.n();
    let ghost edges = graph.edges_spec();
    let ghost lim = graph.limits_spec();
    // A value of `n` means: no predecessor set yet
    let mut predecessors: Vec<Node> = Vec::new();
    let mut distances: Vec<Weight> = Vec::new();
    let mut queue: VecDeque<Node> = VecDeque::new();
    let mut in_queue = new_all_set(n);
    let mut i: usize = 0;
    while i < n
        invariant
            i <= n,
            predecessors@.len() == i,
            distances@.len() == i,
            queue@.len() == i,
            forall|x: int| 0 <= x < i ==> #[trigger] predecessors@[x] == n,
            forall|x: int| 0 <= x < i ==> #[trigger] distances@[x] == 0,
            forall|x: int| 0 <= x < i ==> #[trigger] queue@[x] == x,
        decreases n - i,
    {
        predecessors.push(n);
        distances.push(0);
        queue.push_back(i);
        i += 1;
    }
    let mut num_relaxations: usize = 0;
    let ghost mut stamps: Seq<nat> = Seq::new(n as nat, |x: int| 0nat);
    let ghost mut clock: nat = 0;
    let ghost mut via: Seq<Edge> = Seq::new(n as nat, |x: int| Edge { source: 0, target: 0, weight: 0 });
    proof {
        let d = distances@;
        let pred = predecessors@;
        assert forall|x: int| 0 <= x < n implies #[trigger] cycle_entry_ok(d, pred, stamps, clock, 0, x) by {
            assert(-(n - 1 + 0) * WEIGHT_LIMIT <= 0) by (nonlinear_arith)
                requires
                    n >= 1,
            ;
        }
        assert forall|x: int| 0 <= x < n && #[trigger] bits_of(in_queue)[x] implies queue@.contains(
            x as usize,
        ) by {
            assert(queue@[x] == x as usize);
        }
    }
    loop
        invariant_except_break
            cycle_search_ok(
                graph,
                distances@,
                predecessors@,
                stamps,
                clock,
                queue@,
                bits_of(in_queue),
                num_relaxations as int,
                -1,
                0,
            ),
        invariant
            graph.edges_wf(),
            n == graph.n_spec(),
            n <= NODE_LIMIT,
            edges == graph.edges_spec(),
            lim == graph.limits_spec(),
            all_via_ok(edges, distances@, predecessors@, stamps, via),
        ensures
            cycle_search_ok(
                graph,
                distances@,
                predecessors@,
                stamps,
                clock,
                queue@,
                bits_of(in_queue),
                num_relaxations as int,
                -1,
                0,
            ),
            queue@.len() == 0,
        decreases level(distances@, n as int), queue@.len(),
    {
        let ghost q0 = queue@;
        let ghost d0 = distances@;
        let ghost bits0 = bits_of(in_queue);
        proof {
            lemma_cycle_level(distances@, predecessors@, stamps, clock, num_relaxations as int);
        }
        let next = queue.pop_front();
        let u = match next {
            None => {
                break ;
            },
            Some(u) => u,
        };
        proof {
            assert(q0[0] == u);
        }
        unset_bit(&mut in_queue, u);
        proof {
            let q = queue@;
            let bits = bits_of(in_queue);
            let d = distances@;
            assert forall|i: int| 0 <= i < q.len() implies (#[trigger] q[i]) < n && bits[q[i] as int] by {
                assert(q[i] == q0[i + 1]);
                assert(q0[i + 1] != q0[0]);
            }
            assert(q.no_duplicates()) by {
                assert forall|i: int, j: int| 0 <= i < q.len() && 0 <= j < q.len() && i != j implies q[i]
                    != q[j] by {
                    assert(q[i] == q0[i + 1] && q[j] == q0[j + 1]);
                }
            }
            assert forall|x: int| 0 <= x < n && #[trigger] bits[x] implies q.contains(x as usize) by {
                assert(bits0[x]);
                assert(q0.contains(x as usize));
                let i = choose|i: int| 0 <= i < q0.len() && q0[i] == x as usize;
                assert(i != 0);
                assert(q[i - 1] == x as usize);
            }
            assert forall|x: int| 0 <= x < n implies #[trigger] cycle_settled_ok(graph, d, bits, u as int, 0, x) by {
                assert(cycle_settled_ok(graph, d, bits0, -1, 0, x));
            }
            assert(lim[u as int] <= lim[u + 1]);
        }
        let edges_out = graph.out_neighbors(u);
        let ghost mut relaxed_any = false;
        let mut k: usize = 0;
        while k < edges_out.len()
            invariant
                graph.edges_wf(),
                n == graph.n_spec(),
                n <= NODE_LIMIT,
                edges == graph.edges_spec(),
                lim == graph.limits_spec(),
                u < n,
                k <= edges_out@.len(),
                edges_out@ == edges.subrange(lim[u as int] as int, lim[u + 1] as int),
                cycle_search_ok(
                    graph,
                    distances@,
                    predecessors@,
                    stamps,
                    clock,
                    queue@,
                    bits_of(in_queue),
                    num_relaxations as int,
                    u as int,
                    k as int,
                ),
                all_via_ok(edges, distances@, predecessors@, stamps, via),
                level(distances@, n as int) <= level(d0, n as int),
                relaxed_any ==> level(distances@, n as int) < level(d0, n as int),
                !relaxed_any ==> distances@ == d0 && queue@.len() == q0.len() - 1,
            decreases edges_out@.len() - k,
        {
            let edge = edges_out[k];
            let ghost j = lim[u as int] + k;
            proof {
                lemma_block_key(edges, lim, n as int, false, u as int, j);
                assert(edge == edges[j]);
                assert(edge.target < n);
                assert(-WEIGHT_LIMIT <= edge.weight <= WEIGHT_LIMIT);
                assert(cycle_entry_ok(distances@, predecessors@, stamps, clock, num_relaxations as int, u as int));
                assert(cycle_entry_ok(
                    distances@,
                    predecessors@,
                    stamps,
                    clock,
                    num_relaxations as int,
                    edge.target as int,
                ));
                lemma_floor(n as int, num_relaxations as int);
            }
            if distances[u] + edge.weight < distances[edge.target] {
                let ghost d = distances@;
                let ghost pred = predecessors@;
                let ghost q = queue@;
                let ghost bits = bits_of(in_queue);
                let ghost stamps0 = stamps;
                let ghost clock0 = clock;
                let ghost r0 = num_relaxations as int;
                let cost = distances[u] + edge.weight;
                proof {
                    assert forall|x: int| 0 <= x < stamps.len() implies #[trigger] stamps[x] <= clock by {
                        assert(cycle_entry_ok(d, pred, stamps, clock, r0, x));
                    }
                    lemma_relax_ranked(graph, d, pred, stamps, clock, j);
                    lemma_level_update(d, n as int, edge.target as int, cost);
                    lemma_via_relax(edges, d, pred, stamps, clock, via, j);
                }
                distances[edge.target] = cost;
                predecessors[edge.target] = u;
                num_relaxations += 1;
                proof {
                    stamps = stamps0.update(edge.target as int, clock0 + 1);
                    clock = clock0 + 1;
                    via = via.update(edge.target as int, edge);
                    relaxed_any = true;
                    let d2 = distances@;
                    let pred2 = predecessors@;
                    let r2 = r0 + 1;
                    assert(-(n - 1 + r2) * WEIGHT_LIMIT == -(n - 1 + r0) * WEIGHT_LIMIT - WEIGHT_LIMIT)
                        by (nonlinear_arith)
                        requires
                            r2 == r0 + 1,
                    ;
                    assert forall|x: int| 0 <= x < n implies #[trigger] cycle_entry_ok(
                        d2,
                        pred2,
                        stamps,
                        clock,
                        r2,
                        x,
                    ) by {
                        assert(cycle_entry_ok(d, pred, stamps0, clock0, r0, x));
                        assert(cycle_entry_ok(d, pred, stamps0, clock0, r0, u as int));
                        assert(cycle_entry_ok(d, pred, stamps0, clock0, r0, edge.target as int));
                    }
                }
                if num_relaxations == n {
                    num_relaxations = 0;
                    if !shortest_path_tree_is_acyclic(graph, predecessors.as_slice()) {
                        proof {
                            let d2 = distances@;
                            let pred2 = predecessors@;
                            if admits_potentials(edges, n as int) {
                                let pi = choose|pi: Seq<int>| pi.len() == n && #[trigger] feasible(edges, pi);
                                assert(ranked(pred2, d2, stamps, pi));
                                lemma_ranked_no_cycle(pred2, d2, stamps, pi);
                            }
                            lemma_pred_cycle(edges, d2, pred2, stamps, via);
                        }
                        return true;
                    }
                    proof {
                        let d2 = distances@;
                        let pred2 = predecessors@;
                        let depth = choose|depth: Seq<int>| #[trigger] is_depth(pred2, depth);
                        assert forall|x: int| 0 <= x < n implies {
                            &&& (#[trigger] pred2[x]) >= pred2.len() ==> d2[x] == 0
                            &&& pred2[x] < pred2.len() ==> d2[x] >= d2[pred2[x] as int] - WEIGHT_LIMIT
                        } by {
                            assert(cycle_entry_ok(d2, pred2, stamps, clock, n as int, x));
                        }
                        assert forall|x: int| 0 <= x < n implies #[trigger] cycle_entry_ok(
                            d2,
                            pred2,
                            stamps,
                            clock,
                            0,
                            x,
                        ) by {
                            assert(cycle_entry_ok(d2, pred2, stamps, clock, n as int, x));
                            lemma_depth_bound(d2, pred2, depth, x);
                        }
                    }
                }
                if !set_bit(&mut in_queue, edge.target) {
                    queue.push_back(edge.target);
                }
                proof {
                    let d2 = distances@;
                    let q2 = queue@;
                    let bits2 = bits_of(in_queue);
                    let v = edge.target as int;
                    assert forall|i: int| 0 <= i < q2.len() implies (#[trigger] q2[i]) < n && bits2[q2[i] as int] by {
                        if i < q.len() {
                            assert(q2[i] == q[i]);
                        }
                    }
                    assert(q2.no_duplicates()) by {
                        if !bits[v] {
                            assert(!q.contains(edge.target)) by {
                                if q.contains(edge.target) {
                                    let i = choose|i: int| 0 <= i < q.len() && q[i] == edge.target;
                                    assert(bits[q[i] as int]);
                                }
                            }
                        }
                    }
                    assert forall|x: int| 0 <= x < n && #[trigger] bits2[x] implies q2.contains(x as usize) by {
                        if bits[x] {
                            assert(q.contains(x as usize));
                            let i = choose|i: int| 0 <= i < q.len() && q[i] == x as usize;
                            assert(q2[i] == x as usize);
                        } else {
                            assert(q2[q2.len() - 1] == x as usize);
                        }
                    }
                    assert forall|x: int| 0 <= x < n implies #[trigger] cycle_settled_ok(
                        graph,
                        d2,
                        bits2,
                        u as int,
                        k + 1,
                        x,
                    ) by {
                        assert(cycle_settled_ok(graph, d, bits, u as int, k as int, x));
                        if !bits2[x] {
                            assert(x != v);
                            let kk = if x == u {
                                k + 1
                            } else {
                                lim[x + 1] - lim[x]
                            };
                            assert forall|j2: int| lim[x] <= j2 < lim[x] + kk implies #[trigger] edge_tight(
                                edges,
                                d2,
                                j2,
                            ) by {
                                lemma_block_key(edges, lim, n as int, false, x, j2);
                                if j2 != j {
                                    assert(edge_tight(edges, d, j2));
                                }
                            }
                        }
                    }
                }
            } else {
                proof {
                    let d = distances@;
                    let bits = bits_of(in_queue);
                    assert forall|x: int| 0 <= x < n implies #[trigger] cycle_settled_ok(
                        graph,
                        d,
                        bits,
                        u as int,
                        k + 1,
                        x,
                    ) by {
                        assert(cycle_settled_ok(graph, d, bits, u as int, k as int, x));
                        assert(edge_tight(edges, d, j));
                    }
                }
            }
            k += 1;
        }
        proof {
            let d = distances@;
            let bits = bits_of(in_queue);
            assert forall|x: int| 0 <= x < n implies #[trigger] cycle_settled_ok(graph, d, bits, -1, 0, x) by {
                assert(cycle_settled_ok(graph, d, bits, u as int, k as int, x));
            }
            lemma_cycle_level(d, predecessors@, stamps, clock, num_relaxations as int);
        }
    }
    proof {
        let d = distances@;
        let bits = bits_of(in_queue);
        let pi = Seq::new(n as nat, |x: int| -(d[x] as int));
        assert forall|x: int| 0 <= x < n implies !bits[x] by {
            if bits[x] {
                assert(queue@.contains(x as usize));
            }
        }
        assert(feasible(edges, pi)) by {
            assert forall|j: int| 0 <= j < edges.len() implies reduced_weight(#[trigger] edges[j], pi) >= 0 by {
                let x = edges[j].source as int;
                assert(edges[j].target < n);
                assert(cycle_settled_ok(graph, d, bits, -1, 0, x));
                assert(lim[x] <= j < lim[x + 1]);
                assert(edge_tight(edges, d, j));
            }
        }
    }
    false
}

/// The distances of the cycle search are never below the floor.
proof fn lemma_floor(n: int, relax: int)
    requires
        0 <= n <= NODE_LIMIT,
        0 <= relax <= n,
    ensures
        -(n - 1 + relax) * WEIGHT_LIMIT >= -floor_shift() + WEIGHT_LIMIT,
{
    assert((n - 1 + relax) * WEIGHT_LIMIT <= (2 * NODE_LIMIT - 1) * WEIGHT_LIMIT) by (nonlinear_arith)
        requires
            n - 1 + relax <= 2 * NODE_LIMIT - 1,
    ;
}

/// The measure of progress of the cycle search is not negative.
proof fn lemma_cycle_level(d: Seq<Weight>, pred: Seq<Node>, stamps: Seq<nat>, clock: nat, relax: int)
    requires
        d.len() <= NODE_LIMIT,
        0 <= relax <= d.len(),
        forall|x: int| 0 <= x < d.len() ==> #[trigger] cycle_entry_ok(d, pred, stamps, clock, relax, x),
    ensures
        level(d, d.len() as int) >= 0,
{
    lemma_floor(d.len() as int, relax);
    assert forall|x: int| 0 <= x < d.len() implies -floor_shift() <= #[trigger] d[x] by {
        assert(cycle_entry_ok(d, pred, stamps, clock, relax, x));
    }
    lemma_level_range(d, d.len() as int);
}


/// Graph representation for the naive bellman-ford search: the edges grouped by source,
/// without potentials.
pub struct Graph {
    /// The edges and their block limits
    adjacency: OneDirGraph,
}

impl Graph {
    /// The adjacency array of the graph.
    pub closed spec fn adjacency_spec(&self) -> OneDirGraph {
        self.adjacency
    }

    /// The edges, in source-major order.
    pub open spec fn edges_spec(&self) -> Seq<Edge> {
        self.adjacency_spec().edges_spec()
    }

    /// The number of nodes.
    pub open spec fn n_spec(&self) -> int {
        self.adjacency_spec().n_spec()
    }

    /// The number of edges.
    pub open spec fn m_spec(&self) -> int {
        self.adjacency_spec().m_spec()
    }

    /// The representation invariant: that of the adjacency array.
    pub open spec fn wf(&self) -> bool {
        self.adjacency_spec().wf()
    }

    /// Builds the graph from the number of nodes and an edge list: sorts the edges by
    /// `(source, target)`.
    pub fn from_edges(n: usize, edges: Vec<Edge>) -> (g: Self)
        requires
            edges@.len() > 1,
            endpoints_below(edges@, n as int),
            forall|i: int|
                0 <= i < edges@.len() ==> -WEIGHT_LIMIT <= (#[trigger] edges@[i]).weight <= WEIGHT_LIMIT,
        ensures
            g.wf(),
            g.n_spec() == n,
            g.edges_spec().to_multiset() == edges@.to_multiset(),
            sorted_by_endpoints(g.edges_spec(), false),
    {
        Graph { adjacency: OneDirGraph::from_edges(n, edges) }
    }

    /// Gives the edges back, in source-major order.
    pub fn into_edges(self) -> (edges: Vec<Edge>)
        ensures
            edges@ == self.edges_spec(),
    {
        self.adjacency.into_edges()
    }

    /// The adjacency array, for the searches on raw weights.
    pub fn adjacency(&self) -> (g: &OneDirGraph)
        ensures
            *g == self.adjacency_spec(),
    {
        &self.adjacency
    }

    /// The number of nodes.
    pub fn n(&self) -> (n: usize)
        ensures
            n == self.n_spec(),
    {
        self.adjacency.n()
    }

    /// The number of edges.
    pub fn m(&self) -> (m: usize)
        ensures
            m == self.m_spec(),
    {
        self.adjacency.m()
    }

    /// The edge at index `idx`.
    pub fn edge(&self, idx: usize) -> (e: Edge)
        requires
            idx < self.m_spec(),
        ensures
            e == self.edges_spec()[idx as int],
    {
        self.adjacency.edge(idx)
    }

    /// The edges that leave node `u`.
    pub fn out_neighbors(&self, u: Node) -> (edges: &[Edge])
        requires
            self.wf(),
            u < self.n_spec(),
        ensures
            edges@ == self.edges_spec().subrange(
                self.adjacency_spec().limits_spec()[u as int] as int,
                self.adjacency_spec().limits_spec()[u + 1] as int,
            ),
    {
        self.adjacency.out_neighbors(u)
    }

    /// Without potentials, the reduced weight of an edge is its weight.
    pub fn potential_weight(&self, edge: Edge) -> (w: Weight)
        ensures
            w == edge.weight,
    {
        edge.weight
    }

    /// Sets the weight of the edge at index `idx`.
    pub fn update_weight(&mut self, idx: usize, weight: Weight)
        requires
            old(self).wf(),
            idx < old(self).m_spec(),
            -WEIGHT_LIMIT <= weight <= WEIGHT_LIMIT,
        ensures
            final(self).wf(),
            final(self).n_spec() == old(self).n_spec(),
            final(self).edges_spec() == crate::paths::with_weight(old(self).edges_spec(), idx as int, weight as int),
            final(self).adjacency_spec().limits_spec() == old(self).adjacency_spec().limits_spec(),
    {
        let ghost before = self.adjacency;
        self.adjacency.update_weight(idx, weight);
        proof {
            let e1 = before.edges_spec();
            let e2 = self.adjacency.edges_spec();
            assert(self.adjacency.potentials_spec() == before.potentials_spec());
            assert forall|i: int| 0 <= i < e2.len() implies (#[trigger] e2[i]).source == e1[i].source
                && e2[i].target == e1[i].target && -WEIGHT_LIMIT <= e2[i].weight <= WEIGHT_LIMIT by {
                assert(-WEIGHT_LIMIT <= e1[i].weight <= WEIGHT_LIMIT);
            }
            assert forall|i: int| 0 <= i < e2.len() implies crate::graph::repr::key_of(#[trigger] e2[i], false)
                == crate::graph::repr::key_of(e1[i], false) by {}
        }
    }
}

} // verus!
