use crate::graph::repr::{lemma_block_key, OneDirGraph};
use crate::graph::{Edge, Node, DISTANCE_LIMIT};
use crate::paths::{
    closer_than, is_distance, is_walk, lemma_respects_walk, lemma_walk_push, reduced_length,
    reduced_weight, respects,
};
use crate::radixheap::RadixHeap;
use crate::search::{
    lemma_marked_count_bound, lemma_marked_count_set, lemma_marked_degree_bound,
    lemma_marked_degree_set, marked_count, marked_degree,
};
use crate::utils::{lemma_distinct_below, ReusableVec};
use crate::weight::{round_up, Weight, MAX};
use vstd::prelude::*;

verus! {

/// The graph that the onedirectional search runs on.
pub type Graph = OneDirGraph;

/// The states and visited distances of all nodes
pub struct VisitedDistances {
    /// Stores the tentative distance for each node in this iteration
    visit_map: Vec<Weight>,
    /// Stores which nodes were reached in this iteration: only beneficial if we have `o(n)`
    /// nodes seen in total
    seen_nodes: ReusableVec<Node>,
}

impl VisitedDistances {
    /// The tentative distance of every node; `MAX` for a node that was not reached.
    pub closed spec fn dist_spec(&self) -> Seq<Weight> {
        self.visit_map@
    }

    /// The number of nodes.
    pub open spec fn n_spec(&self) -> int {
        self.dist_spec().len() as int
    }

    /// The representation invariant: the list of seen nodes holds, once each, exactly the
    /// nodes with a distance below `MAX`.
    pub closed spec fn wf(&self) -> bool {
        &&& self.seen_nodes.wf()
        &&& self.seen_nodes.capacity_spec() == self.visit_map@.len()
        &&& self.seen_nodes@.no_duplicates()
        &&& forall|i: int|
            0 <= i < self.seen_nodes@.len() ==> (#[trigger] self.seen_nodes@[i]) < self.visit_map@.len()
                && self.visit_map@[self.seen_nodes@[i] as int] < MAX
        &&& forall|x: int|
            0 <= x < self.visit_map@.len() && #[trigger] self.visit_map@[x] < MAX
                ==> self.seen_nodes@.contains(x as usize)
    }

    /// Creates the state for `n` nodes, none of them reached.
    pub fn new(n: usize) -> (r: Self)
        ensures
            r.wf(),
            r.n_spec() == n,
            forall|x: int| 0 <= x < n ==> #[trigger] r.dist_spec()[x] == MAX,
    {
        let mut visit_map: Vec<Weight> = Vec::new();
        let mut i: usize = 0;
        while i < n
            invariant
                i <= n,
                visit_map@.len() == i,
                forall|x: int| 0 <= x < i ==> #[trigger] visit_map@[x] == MAX,
            decreases n - i,
        {
            visit_map.push(MAX);
            i += 1;
        }
        Self { visit_map, seen_nodes: ReusableVec::with_capacity(n) }
    }

    /// Returns *true* if the node is already visited, i.e. if there is a shorter path to the
    /// node
    pub fn is_visited(&self, node: Node, dist: Weight) -> (b: bool)
        requires
            node < self.n_spec(),
        ensures
            b == (self.dist_spec()[node as int] < dist),
    {
        self.visit_map[node] < dist
    }

    /// Updates the distance of a node: lowers it to `distance` if that is an improvement, and
    /// says whether it was.
    pub fn queue_node(&mut self, node: Node, distance: Weight) -> (b: bool)
        requires
            old(self).wf(),
            node < old(self).n_spec(),
        ensures
            final(self).wf(),
            b == (distance < old(self).dist_spec()[node as int]),
            final(self).dist_spec() == if b {
                old(self).dist_spec().update(node as int, distance)
            } else {
                old(self).dist_spec()
            },
    {
        if distance < self.visit_map[node] {
            if self.visit_map[node] == MAX {
                proof {
                    let s = self.seen_nodes@;
                    let t = s.push(node);
                    assert(!s.contains(node)) by {
                        if s.contains(node) {
                            let i = choose|i: int| 0 <= i < s.len() && s[i] == node;
                            assert(self.visit_map@[s[i] as int] < MAX);
                        }
                    }
                    assert(t.no_duplicates());
                    lemma_distinct_below(t, self.visit_map@.len());
                }
                self.seen_nodes.push(node);
            }
            self.visit_map[node] = distance;
            proof {
                let s = self.seen_nodes@;
                let o = old(self).seen_nodes@;
                assert forall|x: int|
                    0 <= x < self.visit_map@.len() && #[trigger] self.visit_map@[x]
                        < MAX implies s.contains(x as usize) by {
                    if x == node {
                        if old(self).visit_map@[x] == MAX {
                            assert(s[s.len() - 1] == node);
                        } else {
                            assert(o.contains(x as usize));
                        }
                    } else {
                        assert(o.contains(x as usize));
                        let i = choose|i: int| 0 <= i < o.len() && o[i] == x as usize;
                        assert(s[i] == x as usize);
                    }
                }
            }
            true
        } else {
            false
        }
    }

    /// Resets the data structure: afterwards no node is reached.
    pub fn reset(&mut self)
        requires
            old(self).wf(),
        ensures
            final(self).wf(),
            final(self).n_spec() == old(self).n_spec(),
            forall|x: int| 0 <= x < final(self).n_spec() ==> #[trigger] final(self).dist_spec()[x] == MAX,
    {
        let n = self.visit_map.len();
        if self.seen_nodes.is_asymptotically_full() {
            self.seen_nodes.clear();
            let mut i: usize = 0;
            while i < n
                invariant
                    i <= n,
                    n == self.visit_map@.len(),
                    forall|x: int| 0 <= x < i ==> #[trigger] self.visit_map@[x] == MAX,
                    self.seen_nodes.wf(),
                    self.seen_nodes@.len() == 0,
                    self.seen_nodes.capacity_spec() == n,
                decreases n - i,
            {
                self.visit_map[i] = MAX;
                i += 1;
            }
        } else {
            let len = self.seen_nodes.len();
            let mut i: usize = 0;
            while i < len
                invariant
                    i <= len,
                    len == self.seen_nodes@.len(),
                    n == self.visit_map@.len(),
                    self.seen_nodes == old(self).seen_nodes,
                    self.seen_nodes.wf(),
                    self.seen_nodes.capacity_spec() == n,
                    forall|k: int| 0 <= k < len ==> (#[trigger] self.seen_nodes@[k]) < n,
                    forall|k: int| 0 <= k < i ==> self.visit_map@[(#[trigger] self.seen_nodes@[k]) as int] == MAX,
                    forall|x: int|
                        0 <= x < n && #[trigger] self.visit_map@[x] < MAX
                            ==> self.seen_nodes@.contains(x as usize),
                decreases len - i,
            {
                let seen = self.seen_nodes.iter();
                let u = seen[i];
                self.visit_map[u] = MAX;
                i += 1;
            }
            proof {
                assert forall|x: int| 0 <= x < n implies #[trigger] self.visit_map@[x] == MAX by {
                    if self.visit_map@[x] < MAX {
                        let s = self.seen_nodes@;
                        assert(s.contains(x as usize));
                        let k = choose|k: int| 0 <= k < s.len() && s[k] == x as usize;
                        assert(self.visit_map@[s[k] as int] == MAX);
                    }
                }
            }
            self.seen_nodes.clear();
        }
    }

    /// Returns all discovered nodes in the shortest path tree and their total distances: each
    /// node with a distance below `MAX`, once, with that distance.
    pub fn get_distances(&self) -> (r: Vec<(Node, Weight)>)
        requires
            self.wf(),
        ensures
            forall|i: int|
                0 <= i < r@.len() ==> (#[trigger] r@[i]).0 < self.n_spec() && r@[i].1
                    == self.dist_spec()[r@[i].0 as int] && r@[i].1 < MAX,
            forall|i: int, j: int| 0 <= i < j < r@.len() ==> (#[trigger] r@[i]).0 != (#[trigger] r@[j]).0,
            forall|x: int|
                0 <= x < self.n_spec() && #[trigger] self.dist_spec()[x] < MAX ==> r@.contains(
                    (x as usize, self.dist_spec()[x]),
                ),
    {
        let n = self.visit_map.len();
        let mut r: Vec<(Node, Weight)> = Vec::new();
        if self.seen_nodes.is_asymptotically_full() {
            let mut u: usize = 0;
            while u < n
                invariant
                    u <= n,
                    n == self.visit_map@.len(),
                    forall|i: int|
                        0 <= i < r@.len() ==> (#[trigger] r@[i]).0 < u && r@[i].1
                            == self.visit_map@[r@[i].0 as int] && r@[i].1 < MAX,
                    forall|i: int, j: int|
                        0 <= i < j < r@.len() ==> (#[trigger] r@[i]).0 != (#[trigger] r@[j]).0,
                    forall|x: int|
                        0 <= x < u && #[trigger] self.visit_map@[x] < MAX ==> r@.contains(
                            (x as usize, self.visit_map@[x]),
                        ),
                decreases n - u,
            {
                let w = self.visit_map[u];
                if w < MAX {
                    let ghost before = r@;
                    r.push((u, w));
                    proof {
                        assert forall|x: int|
                            0 <= x <= u && #[trigger] self.visit_map@[x] < MAX implies r@.contains(
                            (x as usize, self.visit_map@[x]),
                        ) by {
                            if x < u {
                                let e = (x as usize, self.visit_map@[x]);
                                assert(before.contains(e));
                                let i = choose|i: int| 0 <= i < before.len() && before[i] == e;
                                assert(r@[i] == e);
                            } else {
                                assert(r@[r@.len() - 1] == (u, w));
                            }
                        }
                    }
                }
                u += 1;
            }
        } else {
            let seen = self.seen_nodes.iter();
            let len = seen.len();
            let mut k: usize = 0;
            while k < len
                invariant
                    k <= len,
                    self.wf(),
                    seen@ == self.seen_nodes@,
                    len == seen@.len(),
                    n == self.visit_map@.len(),
                    r@.len() == k,
                    forall|i: int|
                        0 <= i < k ==> #[trigger] r@[i] == (
                            seen@[i],
                            self.visit_map@[seen@[i] as int],
                        ),
                decreases len - k,
            {
                let u = seen[k];
                if self.visit_map[u] < MAX {
                    r.push((u, self.visit_map[u]));
                }
                k += 1;
            }
            proof {
                let s = self.seen_nodes@;
                assert forall|x: int|
                    0 <= x < n && #[trigger] self.visit_map@[x] < MAX implies r@.contains(
                    (x as usize, self.visit_map@[x]),
                ) by {
                    assert(s.contains(x as usize));
                    let i = choose|i: int| 0 <= i < s.len() && s[i] == x as usize;
                    assert(r@[i] == (x as usize, self.visit_map@[x]));
                }
            }
        }
        r
    }
}


/// The largest distance that the search records: `max_distance`, or `0` where that is
/// negative.
pub open spec fn bound_of(max_distance: Weight) -> int {
    if max_distance > 0 {
        max_distance as int
    } else {
        0
    }
}

/// The recorded distance of `x`, or one more than the bound where `x` was not reached.
pub open spec fn capped(d: Seq<Weight>, x: int, bound: int) -> int {
    if d[x] < MAX {
        d[x] as int
    } else {
        bound + 1
    }
}

/// The distance of the target of `e` is at most that of its source plus the reduced weight.
pub open spec fn relaxed(e: Edge, d: Seq<Weight>, pi: Seq<int>, bound: int) -> bool {
    capped(d, e.target as int, bound) <= d[e.source as int] + reduced_weight(e, pi)
}

/// The first `k` edges that leave `x` are relaxed.
pub open spec fn block_relaxed(g: &OneDirGraph, d: Seq<Weight>, bound: int, x: int, k: int) -> bool {
    forall|j: int|
        g.limits_spec()[x] <= j < g.limits_spec()[x] + k ==> relaxed(
            #[trigger] g.edges_spec()[j],
            d,
            g.pi(),
            bound,
        )
}

/// What a search between two different nodes may be started on: a well-formed graph with
/// feasible potentials, two of its nodes, and a distance bound within the limit. The limit
/// keeps the sum of a distance below the bound and one reduced weight within 64 bits.
pub open spec fn searchable(g: &OneDirGraph, source: Node, target: Node, max_distance: Weight) -> bool {
    &&& g.wf()
    &&& g.is_feasible_spec()
    &&& source < g.n_spec()
    &&& target < g.n_spec()
    &&& max_distance <= DISTANCE_LIMIT
}

/// `tree` is the shortest-path tree around `source` up to the distance `bound`: it lists,
/// once each, exactly the nodes whose distance from `source` under reduced weights is at
/// most `bound`, each with that distance.
pub open spec fn is_shortest_path_tree(
    tree: Seq<(Node, Weight)>,
    edges: Seq<Edge>,
    pi: Seq<int>,
    n: int,
    source: int,
    bound: int,
) -> bool {
    &&& forall|i: int, j: int| 0 <= i < j < tree.len() ==> (#[trigger] tree[i]).0 != (#[trigger] tree[j]).0
    &&& forall|i: int|
        0 <= i < tree.len() ==> {
            &&& (#[trigger] tree[i]).0 < n
            &&& tree[i].1 <= bound
            &&& is_distance(edges, pi, source, tree[i].0 as int, tree[i].1 as int)
        }
    &&& forall|x: int, d: int|
        0 <= x < n && d <= bound && #[trigger] is_distance(edges, pi, source, x, d) ==> exists|i: int|
            0 <= i < tree.len() && #[trigger] tree[i] == (x as usize, d as Weight)
}

/// The bookkeeping of a running search that the program itself does not store.
pub struct Search {
    /// For every reached node, a walk from the source of the recorded length
    pub walks: Seq<Seq<Edge>>,
    /// The nodes whose outgoing edges have all been relaxed
    pub expanded: Seq<bool>,
    /// The distance that was popped last
    pub cur: Weight,
    /// The node whose edges are being relaxed, or `-1`
    pub node: int,
    /// How many of its edges have been relaxed
    pub progress: int,
    /// Nothing has been popped yet
    pub fresh: bool,
}

/// Dijkstra instance to reuse data structure for multiple runs
/// Note that this is meant to be used on graphs with the same number of nodes only
pub struct Dijkstra {
    /// MinHeap used for Dijkstra
    heap: RadixHeap<Node>,
    /// Stores which nodes have already been visited in which total distance
    visit_states: VisitedDistances,
    /// A stack to keep track of nodes that can be visited directly without putting them on the
    /// heap
    zero_nodes: Vec<Node>,
}

impl Dijkstra {
    /// The number of nodes of the graphs that this instance can search.
    pub closed spec fn n_spec(&self) -> int {
        self.visit_states.n_spec()
    }

    /// The representation invariant of the workspace.
    pub closed spec fn wf(&self) -> bool {
        self.heap.wf() && self.visit_states.wf()
    }

    spec fn inv(&self, g: &OneDirGraph, s: Node, t: Node, dmax: Weight, st: Search) -> bool {
        let d = self.visit_states.dist_spec();
        let h = self.heap@;
        let z = self.zero_nodes@;
        let n = g.n_spec();
        let m = bound_of(dmax);
        let edges = g.edges_spec();
        let limits = g.limits_spec();
        let pi = g.pi();
        &&& self.heap.wf()
        &&& self.visit_states.wf()
        &&& d.len() == n
        &&& st.walks.len() == n
        &&& st.expanded.len() == n
        &&& self.heap.top_spec() == st.cur
        &&& 0 <= st.cur <= m
        &&& d[s as int] == 0
        &&& forall|x: int|
            0 <= x < n && #[trigger] d[x] < MAX ==> {
                &&& 0 <= d[x] <= m
                &&& is_walk(edges, st.walks[x], s as int, x)
                &&& reduced_length(pi, st.walks[x], s as int, x) == d[x]
            }
        &&& d[t as int] < MAX ==> d[t as int] >= dmax
        &&& forall|e: (Weight, Node)| #[trigger] h.count(e) > 0 ==> e.1 < n && d[e.1 as int] <= e.0 <= m
        &&& forall|x: int|
            0 <= x < n && #[trigger] st.expanded[x] ==> {
                &&& d[x] < MAX
                &&& d[x] <= st.cur
                &&& h.count((d[x], x as usize)) == 0
                &&& block_relaxed(g, d, m, x, limits[x + 1] - limits[x])
            }
        &&& forall|x: int|
            0 <= x < n && !st.expanded[x] && #[trigger] d[x] < MAX && x != st.node ==> if z.contains(
                x as usize,
            ) {
                d[x] == st.cur && h.count((d[x], x as usize)) == 0
            } else {
                h.count((d[x], x as usize)) == 1
            }
        &&& z.no_duplicates()
        &&& forall|i: int|
            0 <= i < z.len() ==> {
                &&& (#[trigger] z[i]) < n
                &&& !st.expanded[z[i] as int]
                &&& d[z[i] as int] == st.cur
                &&& z[i] != st.node
            }
        &&& -1 <= st.node < n
        &&& st.node >= 0 ==> {
            &&& !st.expanded[st.node]
            &&& d[st.node] == st.cur
            &&& h.count((st.cur, st.node as usize)) == 0
            &&& 0 <= st.progress <= limits[st.node + 1] - limits[st.node]
            &&& block_relaxed(g, d, m, st.node, st.progress)
        }
        &&& st.node < 0 ==> st.progress == 0
        &&& h.len() <= marked_degree(st.expanded, limits, n) + st.progress + if st.fresh {
            1int
        } else {
            0int
        }
    }

    /// Initializes Dijkstra for a graph with `n` nodes
    pub fn new(n: usize) -> (r: Self)
        ensures
            r.wf(),
            r.n_spec() == n,
    {
        Self { heap: RadixHeap::new(), visit_states: VisitedDistances::new(n), zero_nodes: Vec::new() }
    }
}

/// Lowering the distance of a node keeps the relaxed edges of another node relaxed.
proof fn lemma_block_stable(g: &OneDirGraph, d: Seq<Weight>, bound: int, x: int, k: int, y: int, v: Weight)
    requires
        g.wf(),
        0 <= x < g.n_spec(),
        0 <= y < g.n_spec(),
        d.len() == g.n_spec(),
        x != y,
        0 <= k <= g.limits_spec()[x + 1] - g.limits_spec()[x],
        block_relaxed(g, d, bound, x, k),
        v < d[y],
        v <= bound,
    ensures
        block_relaxed(g, d.update(y, v), bound, x, k),
{
    let d2 = d.update(y, v);
    assert forall|j: int| g.limits_spec()[x] <= j < g.limits_spec()[x] + k implies relaxed(
        #[trigger] g.edges_spec()[j],
        d2,
        g.pi(),
        bound,
    ) by {
        lemma_block_key(g.edges_spec(), g.limits_spec(), g.n_spec(), false, x, j);
        let e = g.edges_spec()[j];
        assert(relaxed(e, d, g.pi(), bound));
        assert(e.target < g.n_spec());
    }
}


/// The edge at position `k` of the block of `x`.
spec fn block_edge(g: &OneDirGraph, x: int, k: int) -> Edge {
    g.edges_spec()[g.limits_spec()[x] + k]
}

/// Facts about the edge that is relaxed next.
proof fn lemma_block_edge(g: &OneDirGraph, x: int, k: int)
    requires
        g.wf(),
        0 <= x < g.n_spec(),
        0 <= k < g.limits_spec()[x + 1] - g.limits_spec()[x],
    ensures
        g.edges_spec().contains(block_edge(g, x, k)),
        block_edge(g, x, k).source == x,
        block_edge(g, x, k).target < g.n_spec(),
        0 <= g.limits_spec()[x] + k < g.edges_spec().len(),
        -DISTANCE_LIMIT <= reduced_weight(block_edge(g, x, k), g.pi()) <= DISTANCE_LIMIT,
{
    let j = g.limits_spec()[x] + k;
    lemma_block_key(g.edges_spec(), g.limits_spec(), g.n_spec(), false, x, j);
    let e = g.edges_spec()[j];
    assert(e.target < g.n_spec());
    assert(-crate::graph::WEIGHT_LIMIT <= e.weight <= crate::graph::WEIGHT_LIMIT);
    let p = g.potentials_spec();
    assert(-crate::graph::POTENTIAL_LIMIT <= p[e.target as int] <= crate::graph::POTENTIAL_LIMIT);
    assert(-crate::graph::POTENTIAL_LIMIT <= p[e.source as int] <= crate::graph::POTENTIAL_LIMIT);
}

impl Dijkstra {
    /// The edge under relaxation was already relaxed: only the progress moves on.
    proof fn lemma_step_skip(
        pre: Dijkstra,
        post: Dijkstra,
        g: &OneDirGraph,
        s: Node,
        t: Node,
        dmax: Weight,
        st: Search,
    ) -> (st2: Search)
        requires
            searchable(g, s, t, dmax),
            pre.inv(g, s, t, dmax, st),
            st.node >= 0,
            st.progress < g.limits_spec()[st.node + 1] - g.limits_spec()[st.node],
            relaxed(
                block_edge(g, st.node, st.progress),
                pre.visit_states.dist_spec(),
                g.pi(),
                bound_of(dmax),
            ),
            post.visit_states.wf(),
            post.visit_states.dist_spec() == pre.visit_states.dist_spec(),
            post.heap == pre.heap,
            post.zero_nodes@ == pre.zero_nodes@,
        ensures
            st2 == (Search { progress: st.progress + 1, ..st }),
            post.inv(g, s, t, dmax, st2),
    {
        let st2 = Search { progress: st.progress + 1, ..st };
        st2
    }

    /// A zero-weight edge lowered the distance of its target to the current one: the target
    /// goes on the stack.
    proof fn lemma_step_zero(
        pre: Dijkstra,
        post: Dijkstra,
        g: &OneDirGraph,
        s: Node,
        t: Node,
        dmax: Weight,
        st: Search,
    ) -> (st2: Search)
        requires
            searchable(g, s, t, dmax),
            pre.inv(g, s, t, dmax, st),
            st.node >= 0,
            st.progress < g.limits_spec()[st.node + 1] - g.limits_spec()[st.node],
            reduced_weight(block_edge(g, st.node, st.progress), g.pi()) == 0,
            st.cur < pre.visit_states.dist_spec()[block_edge(g, st.node, st.progress).target as int],
            !(block_edge(g, st.node, st.progress).target == t && st.cur < dmax),
            post.visit_states.wf(),
            post.visit_states.dist_spec() == pre.visit_states.dist_spec().update(
                block_edge(g, st.node, st.progress).target as int,
                st.cur,
            ),
            post.heap == pre.heap,
            post.zero_nodes@ == pre.zero_nodes@.push(block_edge(g, st.node, st.progress).target),
        ensures
            st2 == (Search {
                walks: st.walks.update(
                    block_edge(g, st.node, st.progress).target as int,
                    st.walks[st.node].push(block_edge(g, st.node, st.progress)),
                ),
                progress: st.progress + 1,
                ..st
            }),
            post.inv(g, s, t, dmax, st2),
    {
        let e = block_edge(g, st.node, st.progress);
        let x = st.node;
        let y = e.target as int;
        let d = pre.visit_states.dist_spec();
        let d2 = post.visit_states.dist_spec();
        let h = pre.heap@;
        let z = pre.zero_nodes@;
        let z2 = post.zero_nodes@;
        let n = g.n_spec();
        let m = bound_of(dmax);
        let limits = g.limits_spec();
        let st2 = Search { walks: st.walks.update(y, st.walks[x].push(e)), progress: st.progress + 1, ..st };
        lemma_block_edge(g, x, st.progress);
        lemma_walk_push(g.edges_spec(), st.walks[x], s as int, e);
        assert(!st.expanded[y]);
        assert(y != x);
        assert(!z.contains(y as usize)) by {
            if z.contains(y as usize) {
                let i = choose|i: int| 0 <= i < z.len() && z[i] == y as usize;
                assert(d[z[i] as int] == st.cur);
            }
        }
        assert(h.count((st.cur, y as usize)) == 0);
        assert forall|x2: int| 0 <= x2 < n && #[trigger] st2.expanded[x2] implies block_relaxed(
            g,
            d2,
            m,
            x2,
            limits[x2 + 1] - limits[x2],
        ) by {
            assert(limits[x2] <= limits[x2 + 1]);
            lemma_block_stable(g, d, m, x2, limits[x2 + 1] - limits[x2], y, st.cur);
        }
        assert(block_relaxed(g, d2, m, x, st2.progress)) by {
            lemma_block_stable(g, d, m, x, st.progress, y, st.cur);
        }
        assert forall|v: usize| #[trigger] z2.contains(v) <==> (z.contains(v) || v == y) by {
            if z.contains(v) {
                let i = choose|i: int| 0 <= i < z.len() && z[i] == v;
                assert(z2[i] == v);
            }
            if v == y {
                assert(z2[z2.len() - 1] == v);
            }
        }
        assert forall|x2: int|
            0 <= x2 < n && !st2.expanded[x2] && #[trigger] d2[x2] < MAX && x2 != st2.node implies if z2.contains(
            x2 as usize,
        ) {
            d2[x2] == st2.cur && h.count((d2[x2], x2 as usize)) == 0
        } else {
            h.count((d2[x2], x2 as usize)) == 1
        } by {
            if x2 != y {
                assert(d[x2] < MAX);
            }
        }
        assert forall|x2: int| 0 <= x2 < n && #[trigger] d2[x2] < MAX implies {
            &&& 0 <= d2[x2] <= m
            &&& is_walk(g.edges_spec(), st2.walks[x2], s as int, x2)
            &&& reduced_length(g.pi(), st2.walks[x2], s as int, x2) == d2[x2]
        } by {
            if x2 != y {
                assert(d[x2] < MAX);
            }
        }
        assert forall|x2: int| 0 <= x2 < n && #[trigger] st2.expanded[x2] implies {
            &&& d2[x2] < MAX
            &&& d2[x2] <= st2.cur
            &&& h.count((d2[x2], x2 as usize)) == 0
        } by {
            assert(st.expanded[x2]);
        }
        assert forall|e2: (Weight, Node)| #[trigger] h.count(e2) > 0 implies e2.1 < n && d2[e2.1 as int]
            <= e2.0 <= m by {}
        st2
    }

    /// An edge lowered the distance of its target below the bound: the target goes on the heap.
    proof fn lemma_step_push(
        pre: Dijkstra,
        post: Dijkstra,
        g: &OneDirGraph,
        s: Node,
        t: Node,
        dmax: Weight,
        st: Search,
        cost: Weight,
    ) -> (st2: Search)
        requires
            searchable(g, s, t, dmax),
            pre.inv(g, s, t, dmax, st),
            st.node >= 0,
            st.progress < g.limits_spec()[st.node + 1] - g.limits_spec()[st.node],
            cost == st.cur + reduced_weight(block_edge(g, st.node, st.progress), g.pi()),
            cost <= dmax,
            cost < pre.visit_states.dist_spec()[block_edge(g, st.node, st.progress).target as int],
            !(block_edge(g, st.node, st.progress).target == t && cost < dmax),
            post.visit_states.wf(),
            post.visit_states.dist_spec() == pre.visit_states.dist_spec().update(
                block_edge(g, st.node, st.progress).target as int,
                cost,
            ),
            post.heap.wf(),
            post.heap@ == pre.heap@.insert((cost, block_edge(g, st.node, st.progress).target)),
            post.heap.top_spec() == pre.heap.top_spec(),
            post.zero_nodes@ == pre.zero_nodes@,
        ensures
            st2 == (Search {
                walks: st.walks.update(
                    block_edge(g, st.node, st.progress).target as int,
                    st.walks[st.node].push(block_edge(g, st.node, st.progress)),
                ),
                progress: st.progress + 1,
                ..st
            }),
            post.inv(g, s, t, dmax, st2),
    {
        let e = block_edge(g, st.node, st.progress);
        let x = st.node;
        let y = e.target as int;
        let d = pre.visit_states.dist_spec();
        let d2 = post.visit_states.dist_spec();
        let h = pre.heap@;
        let h2 = post.heap@;
        let z = pre.zero_nodes@;
        let n = g.n_spec();
        let m = bound_of(dmax);
        let limits = g.limits_spec();
        let st2 = Search { walks: st.walks.update(y, st.walks[x].push(e)), progress: st.progress + 1, ..st };
        lemma_block_edge(g, x, st.progress);
        lemma_walk_push(g.edges_spec(), st.walks[x], s as int, e);
        assert(reduced_weight(e, g.pi()) >= 0) by {
            assert(reduced_weight(g.edges_spec()[limits[x] + st.progress], g.pi()) >= 0);
        }
        assert(!st.expanded[y]);
        assert(y != x);
        assert(!z.contains(y as usize)) by {
            if z.contains(y as usize) {
                let i = choose|i: int| 0 <= i < z.len() && z[i] == y as usize;
                assert(d[z[i] as int] == st.cur);
            }
        }
        assert(h.count((cost, y as usize)) == 0);
        assert forall|x2: int| 0 <= x2 < n && #[trigger] st2.expanded[x2] implies block_relaxed(
            g,
            d2,
            m,
            x2,
            limits[x2 + 1] - limits[x2],
        ) by {
            assert(limits[x2] <= limits[x2 + 1]);
            lemma_block_stable(g, d, m, x2, limits[x2 + 1] - limits[x2], y, cost);
        }
        assert(block_relaxed(g, d2, m, x, st2.progress)) by {
            lemma_block_stable(g, d, m, x, st.progress, y, cost);
        }
        assert forall|x2: int|
            0 <= x2 < n && !st2.expanded[x2] && #[trigger] d2[x2] < MAX && x2 != st2.node implies if z.contains(
            x2 as usize,
        ) {
            d2[x2] == st2.cur && h2.count((d2[x2], x2 as usize)) == 0
        } else {
            h2.count((d2[x2], x2 as usize)) == 1
        } by {
            if x2 != y {
                assert(d[x2] < MAX);
            }
        }
        assert forall|x2: int| 0 <= x2 < n && #[trigger] d2[x2] < MAX implies {
            &&& 0 <= d2[x2] <= m
            &&& is_walk(g.edges_spec(), st2.walks[x2], s as int, x2)
            &&& reduced_length(g.pi(), st2.walks[x2], s as int, x2) == d2[x2]
        } by {
            if x2 != y {
                assert(d[x2] < MAX);
            }
        }
        assert forall|x2: int| 0 <= x2 < n && #[trigger] st2.expanded[x2] implies {
            &&& d2[x2] < MAX
            &&& d2[x2] <= st2.cur
            &&& h2.count((d2[x2], x2 as usize)) == 0
        } by {
            assert(st.expanded[x2]);
        }
        assert forall|e2: (Weight, Node)| #[trigger] h2.count(e2) > 0 implies e2.1 < n && d2[e2.1 as int]
            <= e2.0 <= m by {
            if e2 != (cost, y as usize) {
                assert(h.count(e2) > 0);
            }
        }
        st2
    }

    /// All edges of the current node are relaxed: the node is expanded.
    proof fn lemma_step_finish(self, g: &OneDirGraph, s: Node, t: Node, dmax: Weight, st: Search) -> (st2:
        Search)
        requires
            searchable(g, s, t, dmax),
            self.inv(g, s, t, dmax, st),
            st.node >= 0,
            st.progress == g.limits_spec()[st.node + 1] - g.limits_spec()[st.node],
        ensures
            st2 == (Search { expanded: st.expanded.update(st.node, true), node: -1, progress: 0, ..st }),
            self.inv(g, s, t, dmax, st2),
            marked_count(st2.expanded, g.n_spec()) == marked_count(st.expanded, g.n_spec()) + 1,
    {
        let st2 = Search { expanded: st.expanded.update(st.node, true), node: -1, progress: 0, ..st };
        let n = g.n_spec();
        lemma_marked_count_set(st.expanded, st.node, n);
        lemma_marked_degree_set(st.expanded, g.limits_spec(), st.node, n);
        let d = self.visit_states.dist_spec();
        let z = self.zero_nodes@;
        assert forall|x: int|
            0 <= x < n && !st2.expanded[x] && #[trigger] d[x] < MAX && x != st2.node implies if z.contains(
            x as usize,
        ) {
            d[x] == st2.cur && self.heap@.count((d[x], x as usize)) == 0
        } else {
            self.heap@.count((d[x], x as usize)) == 1
        } by {
            assert(x != st.node);
        }
        st2
    }

    /// The heap gave an entry that is out of date: nothing else changes.
    proof fn lemma_pop_stale(
        pre: Dijkstra,
        post: Dijkstra,
        g: &OneDirGraph,
        s: Node,
        t: Node,
        dmax: Weight,
        st: Search,
        e: (Weight, Node),
    ) -> (st2: Search)
        requires
            searchable(g, s, t, dmax),
            pre.inv(g, s, t, dmax, st),
            st.node == -1,
            pre.zero_nodes@.len() == 0,
            pre.heap@.count(e) > 0,
            post.heap.wf(),
            post.heap@ == pre.heap@.remove(e),
            post.heap.top_spec() == e.0,
            e.0 >= pre.heap.top_spec(),
            post.visit_states == pre.visit_states,
            post.zero_nodes@ == pre.zero_nodes@,
            pre.visit_states.dist_spec()[e.1 as int] < e.0,
        ensures
            st2 == (Search { cur: e.0, fresh: false, ..st }),
            post.inv(g, s, t, dmax, st2),
            post.heap@.len() == pre.heap@.len() - 1,
    {
        let st2 = Search { cur: e.0, fresh: false, ..st };
        let d = pre.visit_states.dist_spec();
        let h = pre.heap@;
        let h2 = post.heap@;
        assert forall|e2: (Weight, Node)| #[trigger] h2.count(e2) > 0 implies h.count(e2) > 0 by {}
        assert(h2.len() == h.len() - 1);
        st2
    }

    /// The heap gave the entry that holds the distance of its node: the node goes on the stack.
    proof fn lemma_pop_fresh(
        pre: Dijkstra,
        post: Dijkstra,
        g: &OneDirGraph,
        s: Node,
        t: Node,
        dmax: Weight,
        st: Search,
        e: (Weight, Node),
    ) -> (st2: Search)
        requires
            searchable(g, s, t, dmax),
            pre.inv(g, s, t, dmax, st),
            st.node == -1,
            pre.zero_nodes@.len() == 0,
            pre.heap@.count(e) > 0,
            post.heap.wf(),
            post.heap@ == pre.heap@.remove(e),
            post.heap.top_spec() == e.0,
            e.0 >= pre.heap.top_spec(),
            post.visit_states == pre.visit_states,
            post.zero_nodes@ == seq![e.1],
            !(pre.visit_states.dist_spec()[e.1 as int] < e.0),
        ensures
            st2 == (Search { cur: e.0, fresh: false, ..st }),
            post.inv(g, s, t, dmax, st2),
    {
        let st2 = Search { cur: e.0, fresh: false, ..st };
        let d = pre.visit_states.dist_spec();
        let h = pre.heap@;
        let h2 = post.heap@;
        let z2 = post.zero_nodes@;
        let n = g.n_spec();
        assert forall|e2: (Weight, Node)| #[trigger] h2.count(e2) > 0 implies h.count(e2) > 0 by {}
        assert(h2.len() == h.len() - 1);
        assert(d[e.1 as int] == e.0);
        assert(!st.expanded[e.1 as int]);
        assert(z2[0] == e.1);
        assert forall|v: usize| #[trigger] z2.contains(v) <==> v == e.1 by {}
        st2
    }

    /// The node on top of the stack becomes the current one.
    proof fn lemma_take(
        pre: Dijkstra,
        post: Dijkstra,
        g: &OneDirGraph,
        s: Node,
        t: Node,
        dmax: Weight,
        st: Search,
    ) -> (st2: Search)
        requires
            searchable(g, s, t, dmax),
            pre.inv(g, s, t, dmax, st),
            st.node == -1,
            pre.zero_nodes@.len() > 0,
            post.heap == pre.heap,
            post.visit_states == pre.visit_states,
            post.zero_nodes@ == pre.zero_nodes@.drop_last(),
        ensures
            st2 == (Search { node: pre.zero_nodes@.last() as int, progress: 0, ..st }),
            post.inv(g, s, t, dmax, st2),
    {
        let x = pre.zero_nodes@.last() as int;
        let st2 = Search { node: x, progress: 0, ..st };
        let d = pre.visit_states.dist_spec();
        let z = pre.zero_nodes@;
        let z2 = post.zero_nodes@;
        let n = g.n_spec();
        assert(z[z.len() - 1] == x as usize);
        assert(z.contains(x as usize));
        assert(d[x] < MAX);
        assert(g.limits_spec()[x] <= g.limits_spec()[x + 1]);
        assert forall|v: usize| v != x implies (#[trigger] z2.contains(v) <==> z.contains(v)) by {
            if z.contains(v) {
                let i = choose|i: int| 0 <= i < z.len() && z[i] == v;
                assert(z2[i] == v);
            }
            if z2.contains(v) {
                let i = choose|i: int| 0 <= i < z2.len() && z2[i] == v;
                assert(z[i] == v);
            }
        }
        assert forall|i: int| 0 <= i < z2.len() implies (#[trigger] z2[i]) != x by {
            assert(z[i] != z[z.len() - 1]);
        }
        st2
    }
}


impl Dijkstra {
    /// After the search has run dry, the recorded distances are the shortest-path tree.
    proof fn lemma_settled(
        self,
        g: &OneDirGraph,
        s: Node,
        t: Node,
        dmax: Weight,
        st: Search,
        tree: Seq<(Node, Weight)>,
    )
        requires
            searchable(g, s, t, dmax),
            self.inv(g, s, t, dmax, st),
            st.node == -1,
            self.heap@.len() == 0,
            self.zero_nodes@.len() == 0,
            forall|i: int|
                0 <= i < tree.len() ==> (#[trigger] tree[i]).0 < g.n_spec() && tree[i].1
                    == self.visit_states.dist_spec()[tree[i].0 as int] && tree[i].1 < MAX,
            forall|i: int, j: int| 0 <= i < j < tree.len() ==> (#[trigger] tree[i]).0 != (#[trigger] tree[j]).0,
            forall|x: int|
                0 <= x < g.n_spec() && #[trigger] self.visit_states.dist_spec()[x] < MAX ==> tree.contains(
                    (x as usize, self.visit_states.dist_spec()[x]),
                ),
        ensures
            is_shortest_path_tree(tree, g.edges_spec(), g.pi(), g.n_spec(), s as int, bound_of(dmax)),
            !closer_than(g.edges_spec(), g.pi(), s as int, t as int, dmax as int),
    {
        let d = self.visit_states.dist_spec();
        let n = g.n_spec();
        let m = bound_of(dmax);
        let edges = g.edges_spec();
        let limits = g.limits_spec();
        let pi = g.pi();
        let h = self.heap@;
        let z = self.zero_nodes@;
        assert forall|x: int| 0 <= x < n && #[trigger] d[x] < MAX implies st.expanded[x] by {
            if !st.expanded[x] {
                assert(!z.contains(x as usize));
                assert(h.count((d[x], x as usize)) == 1);
                assert(h.count((d[x], x as usize)) <= h.len());
            }
        }
        let labels = Seq::new(n as nat, |x: int| capped(d, x, m) - pi[x]);
        assert(respects(edges, labels)) by {
            assert forall|i: int| 0 <= i < edges.len() implies labels[(#[trigger] edges[i]).target as int]
                - labels[edges[i].source as int] <= edges[i].weight by {
                let e = edges[i];
                let x = e.source as int;
                assert(e.target < n);
                assert(reduced_weight(e, pi) >= 0);
                if d[x] < MAX {
                    assert(st.expanded[x]);
                    assert(block_relaxed(g, d, m, x, limits[x + 1] - limits[x]));
                    assert(relaxed(edges[i], d, pi, m));
                }
            }
        }
        assert forall|x: int, p: Seq<Edge>| 0 <= x < n && #[trigger] is_walk(edges, p, s as int, x) implies capped(
            d,
            x,
            m,
        ) <= reduced_length(pi, p, s as int, x) by {
            lemma_respects_walk(edges, labels, p, s as int, x);
        }
        assert forall|i: int| 0 <= i < tree.len() implies {
            &&& (#[trigger] tree[i]).0 < n
            &&& tree[i].1 <= m
            &&& is_distance(edges, pi, s as int, tree[i].0 as int, tree[i].1 as int)
        } by {
            let x = tree[i].0 as int;
            assert(d[x] < MAX);
            assert(is_walk(edges, st.walks[x], s as int, x));
        }
        assert forall|x: int, dd: int| 0 <= x < n && dd <= m && #[trigger] is_distance(edges, pi, s as int, x, dd) implies exists|
            i: int,
        |
            0 <= i < tree.len() && #[trigger] tree[i] == (x as usize, dd as Weight) by {
            let p = choose|p: Seq<Edge>| #[trigger]
                is_walk(edges, p, s as int, x) && reduced_length(pi, p, s as int, x) == dd;
            assert(capped(d, x, m) <= dd);
            assert(d[x] < MAX);
            assert(is_walk(edges, st.walks[x], s as int, x));
            assert(d[x] == dd);
            assert(tree.contains((x as usize, d[x])));
            let i = choose|i: int| 0 <= i < tree.len() && tree[i] == (x as usize, d[x]);
            assert(tree[i] == (x as usize, dd as Weight));
        }
        assert(capped(d, t as int, m) >= dmax);
    }

    /// Relaxes the edges that leave `node`, which is reached at the distance `dist`. Says
    /// *true* as soon as the target turns out to be closer than `max_distance`.
    fn expand(
        &mut self,
        graph: &OneDirGraph,
        target_node: Node,
        max_distance: Weight,
        node: Node,
        dist: Weight,
        Ghost(source): Ghost<Node>,
        Ghost(st0): Ghost<Search>,
    ) -> (r: (bool, Ghost<Search>))
        requires
            searchable(graph, source, target_node, max_distance),
            old(self).inv(graph, source, target_node, max_distance, st0),
            st0.node == node,
            st0.progress == 0,
            st0.cur == dist,
            !st0.fresh,
        ensures
            final(self).wf(),
            final(self).n_spec() == old(self).n_spec(),
            r.0 ==> closer_than(
                graph.edges_spec(),
                graph.pi(),
                source as int,
                target_node as int,
                max_distance as int,
            ),
            !r.0 ==> {
                &&& final(self).inv(graph, source, target_node, max_distance, r.1@)
                &&& r.1@.node == -1
                &&& r.1@.cur == dist
                &&& !r.1@.fresh
                &&& marked_count(r.1@.expanded, graph.n_spec()) == marked_count(
                    st0.expanded,
                    graph.n_spec(),
                ) + 1
            },
    {
        let neighbors = graph.out_neighbors(node);
        let ghost mut st = st0;
        let ghost edges = graph.edges_spec();
        let ghost limits = graph.limits_spec();
        let ghost pi = graph.pi();
        let mut k: usize = 0;
        while k < neighbors.len()
            invariant
                searchable(graph, source, target_node, max_distance),
                self.inv(graph, source, target_node, max_distance, st),
                st.node == node,
                st.progress == k,
                st.cur == dist,
                !st.fresh,
                st.expanded == st0.expanded,
                edges == graph.edges_spec(),
                limits == graph.limits_spec(),
                pi == graph.pi(),
                k <= neighbors@.len(),
                neighbors@ == edges.subrange(limits[node as int] as int, limits[node + 1] as int),
                self.n_spec() == old(self).n_spec(),
            decreases neighbors@.len() - k,
        {
            let edge = neighbors[k];
            proof {
                lemma_block_edge(graph, node as int, k as int);
                assert(edge == block_edge(graph, node as int, k as int));
                assert(reduced_weight(edges[limits[node as int] + k], pi) >= 0);
                let j = limits[node as int] + k;
                assert(-crate::graph::WEIGHT_LIMIT <= edges[j].weight <= crate::graph::WEIGHT_LIMIT);
            }
            let succ = edge.target;
            let next = graph.potential_weight(edge);
            let ghost pre = *self;
            let ghost walk = st.walks[node as int].push(edge);
            proof {
                lemma_walk_push(edges, st.walks[node as int], source as int, edge);
                assert(self.visit_states.dist_spec()[node as int] < MAX);
            }
            let mut lowered = false;
            if next <= 0 {
                lowered = self.visit_states.queue_node(succ, dist);
            }
            if lowered {
                if succ == target_node && dist < max_distance {
                    proof {
                        assert(is_walk(edges, walk, source as int, target_node as int));
                        assert(reduced_length(pi, walk, source as int, target_node as int) < max_distance);
                    }
                    return (true, Ghost(st));
                }
                self.zero_nodes.push(succ);
                proof {
                    st = Self::lemma_step_zero(pre, *self, graph, source, target_node, max_distance, st);
                }
            } else {
                let cost = dist + next;
                if cost > max_distance {
                    proof {
                        st = Self::lemma_step_skip(pre, *self, graph, source, target_node, max_distance, st);
                    }
                } else {
                    if succ == target_node && cost < max_distance {
                        proof {
                            assert(is_walk(edges, walk, source as int, target_node as int));
                            assert(reduced_length(pi, walk, source as int, target_node as int)
                                < max_distance);
                        }
                        return (true, Ghost(st));
                    }
                    let cost = round_up(cost, self.heap.top());
                    if self.visit_states.queue_node(succ, cost) {
                        proof {
                            self.heap.lemma_floor();
                            lemma_marked_degree_set(st.expanded, limits, node as int, graph.n_spec());
                            lemma_marked_degree_bound(
                                st.expanded.update(node as int, true),
                                edges,
                                limits,
                                graph.n_spec(),
                                false,
                                graph.n_spec(),
                            );
                        }
                        self.heap.push(cost, succ);
                        proof {
                            st = Self::lemma_step_push(
                                pre,
                                *self,
                                graph,
                                source,
                                target_node,
                                max_distance,
                                st,
                                cost,
                            );
                        }
                    } else {
                        proof {
                            st = Self::lemma_step_skip(
                                pre,
                                *self,
                                graph,
                                source,
                                target_node,
                                max_distance,
                                st,
                            );
                        }
                    }
                }
            }
            k += 1;
        }
        proof {
            st = self.lemma_step_finish(graph, source, target_node, max_distance, st);
        }
        (false, Ghost(st))
    }

    /// Expands the nodes on the stack, and those that join them, until the stack is empty.
    /// Says *true* as soon as the target turns out to be closer than `max_distance`.
    fn chase(
        &mut self,
        graph: &OneDirGraph,
        target_node: Node,
        max_distance: Weight,
        dist: Weight,
        Ghost(source): Ghost<Node>,
        Ghost(st0): Ghost<Search>,
    ) -> (r: (bool, Ghost<Search>))
        requires
            searchable(graph, source, target_node, max_distance),
            old(self).inv(graph, source, target_node, max_distance, st0),
            st0.node == -1,
            st0.cur == dist,
            !st0.fresh,
            old(self).zero_nodes@.len() > 0,
        ensures
            final(self).wf(),
            final(self).n_spec() == old(self).n_spec(),
            r.0 ==> closer_than(
                graph.edges_spec(),
                graph.pi(),
                source as int,
                target_node as int,
                max_distance as int,
            ),
            !r.0 ==> {
                &&& final(self).inv(graph, source, target_node, max_distance, r.1@)
                &&& r.1@.node == -1
                &&& !r.1@.fresh
                &&& final(self).zero_nodes@.len() == 0
                &&& marked_count(r.1@.expanded, graph.n_spec()) > marked_count(
                    st0.expanded,
                    graph.n_spec(),
                )
            },
    {
        let ghost n = graph.n_spec();
        let ghost mut st = st0;
        let ghost count0 = marked_count(st.expanded, n);
        while self.zero_nodes.len() > 0
            invariant
                searchable(graph, source, target_node, max_distance),
                self.inv(graph, source, target_node, max_distance, st),
                st.node == -1,
                st.cur == dist,
                !st.fresh,
                n == graph.n_spec(),
                self.n_spec() == old(self).n_spec(),
                count0 == marked_count(st0.expanded, n),
                marked_count(st.expanded, n) >= count0,
                self.zero_nodes@.len() == 0 ==> marked_count(st.expanded, n) > count0,
            decreases n - marked_count(st.expanded, n),
        {
            let ghost before = *self;
            let node = self.zero_nodes.pop().unwrap();
            proof {
                st = Self::lemma_take(before, *self, graph, source, target_node, max_distance, st);
                lemma_marked_count_bound(st.expanded.update(node as int, true), n);
                lemma_marked_count_set(st.expanded, node as int, n);
            }
            let (rejected, Ghost(next)) = self.expand(
                graph,
                target_node,
                max_distance,
                node,
                dist,
                Ghost(source),
                Ghost(st),
            );
            if rejected {
                return (true, Ghost(st));
            }
            proof {
                st = next;
            }
        }
        (false, Ghost(st))
    }

    /// Runs dijkstra under reduced weights on the given graph from `source_node`.
    ///
    /// Returns `None` if `source_node` is `target_node`, or if `target_node` is closer to
    /// `source_node` than `max_distance`. Otherwise returns the shortest-path tree around
    /// `source_node`: every node at a distance of at most `max_distance` (at most `0` where
    /// `max_distance` is negative), with its distance.
    ///
    /// A search from a node to itself answers before it looks at the graph.
    pub fn run(&mut self, graph: &OneDirGraph, source_node: Node, target_node: Node, max_distance: Weight) -> (r:
        Option<Vec<(Node, Weight)>>)
        requires
            old(self).wf(),
            source_node == target_node || (old(self).n_spec() == graph.n_spec() && searchable(
                graph,
                source_node,
                target_node,
                max_distance,
            )),
        ensures
            final(self).wf(),
            final(self).n_spec() == old(self).n_spec(),
            r.is_none() <==> source_node == target_node || closer_than(
                graph.edges_spec(),
                graph.pi(),
                source_node as int,
                target_node as int,
                max_distance as int,
            ),
            match r {
                Some(tree) => is_shortest_path_tree(
                    tree@,
                    graph.edges_spec(),
                    graph.pi(),
                    graph.n_spec(),
                    source_node as int,
                    bound_of(max_distance),
                ),
                None => true,
            },
    {
        if source_node == target_node {
            return None;
        }
        self.visit_states.reset();
        self.heap.clear();
        self.zero_nodes.clear();

        self.visit_states.queue_node(source_node, 0);
        proof {
            self.heap.lemma_floor();
        }
        self.heap.push(0, source_node);

        let ghost n = graph.n_spec();
        let ghost mut st = Search {
            walks: Seq::new(n as nat, |x: int| Seq::<Edge>::empty()),
            expanded: Seq::new(n as nat, |x: int| false),
            cur: 0,
            node: -1,
            progress: 0,
            fresh: true,
        };
        proof {
            self.lemma_started(graph, source_node, target_node, max_distance, st);
        }
        loop
            invariant
                searchable(graph, source_node, target_node, max_distance),
                source_node != target_node,
                self.inv(graph, source_node, target_node, max_distance, st),
                st.node == -1,
                self.zero_nodes@.len() == 0,
                n == graph.n_spec(),
                self.n_spec() == old(self).n_spec(),
            ensures
                self.inv(graph, source_node, target_node, max_distance, st),
                st.node == -1,
                self.zero_nodes@.len() == 0,
                self.heap@.len() == 0,
                self.n_spec() == old(self).n_spec(),
            decreases n - marked_count(st.expanded, n), self.heap@.len(),
        {
            let ghost pre = *self;
            proof {
                lemma_marked_count_bound(st.expanded, n);
            }
            let popped = self.heap.pop();
            let (dist, heap_node) = match popped {
                None => {
                    break ;
                },
                Some(entry) => entry,
            };
            if self.visit_states.is_visited(heap_node, dist) {
                proof {
                    st = Self::lemma_pop_stale(
                        pre,
                        *self,
                        graph,
                        source_node,
                        target_node,
                        max_distance,
                        st,
                        (dist, heap_node),
                    );
                }
                continue ;
            }
            self.zero_nodes.push(heap_node);
            proof {
                assert(self.zero_nodes@ =~= seq![heap_node]);
                st = Self::lemma_pop_fresh(
                    pre,
                    *self,
                    graph,
                    source_node,
                    target_node,
                    max_distance,
                    st,
                    (dist, heap_node),
                );
            }
            let (rejected, Ghost(next)) = self.chase(
                graph,
                target_node,
                max_distance,
                dist,
                Ghost(source_node),
                Ghost(st),
            );
            if rejected {
                return None;
            }
            proof {
                assert(marked_count(next.expanded, n) > marked_count(st.expanded, n));
                st = next;
                lemma_marked_count_bound(st.expanded, n);
            }
        }
        let tree = self.visit_states.get_distances();
        proof {
            self.lemma_settled(graph, source_node, target_node, max_distance, st, tree@);
        }
        Some(tree)
    }

    /// Right after the source was queued the search is in order.
    proof fn lemma_started(self, g: &OneDirGraph, s: Node, t: Node, dmax: Weight, st: Search)
        requires
            searchable(g, s, t, dmax),
            s != t,
            self.heap.wf(),
            self.visit_states.wf(),
            self.heap@ == vstd::multiset::Multiset::<(Weight, Node)>::empty().insert((0, s)),
            self.heap.top_spec() == 0,
            self.zero_nodes@.len() == 0,
            self.visit_states.dist_spec().len() == g.n_spec(),
            self.visit_states.dist_spec()[s as int] == 0,
            forall|x: int|
                0 <= x < g.n_spec() && x != s ==> #[trigger] self.visit_states.dist_spec()[x] == MAX,
            st == (Search {
                walks: Seq::new(g.n_spec() as nat, |x: int| Seq::<Edge>::empty()),
                expanded: Seq::new(g.n_spec() as nat, |x: int| false),
                cur: 0,
                node: -1,
                progress: 0,
                fresh: true,
            }),
        ensures
            self.inv(g, s, t, dmax, st),
    {
        let n = g.n_spec();
        lemma_marked_degree_bound(st.expanded, g.edges_spec(), g.limits_spec(), n, false, n);
        let h = self.heap@;
        assert forall|e: (Weight, Node)| #[trigger] h.count(e) > 0 implies e == (0 as Weight, s) by {}
        assert(h.len() == 1);
        assert(h.count((0 as Weight, s)) == 1);
        assert(is_walk(g.edges_spec(), st.walks[s as int], s as int, s as int));
    }
}

} // verus!
