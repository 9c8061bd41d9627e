use crate::graph::repr::{
    is_adjacency, key_of, lemma_block_key, lemma_same_edges, minor_of, TwoDirGraph,
};
use crate::graph::{Edge, Node, DISTANCE_LIMIT};
use crate::paths::{
    closer_than, feasible, is_distance, is_walk, lemma_feasible_walk, lemma_walk_concat, lemma_walk_prepend,
    lemma_walk_push, reduced_length, reduced_weight,
};
use crate::radixheap::RadixHeap;
use crate::search::{
    lemma_marked_count_bound, lemma_marked_count_set, lemma_marked_degree_bound,
    lemma_marked_degree_set, marked_count, marked_degree,
};
use crate::utils::{lemma_distinct_below, ReusableVec};
use crate::weight::{round_up, Weight, MAX};
use vstd::prelude::*;

verus! {

/// The graph that the bidirectional search runs on.
pub type Graph = TwoDirGraph;

/// The entry of a pair that belongs to one search: the first for the forward search, the
/// second for the backward search.
pub open spec fn own(p: (Weight, Weight), backward: bool) -> Weight {
    if backward {
        p.1
    } else {
        p.0
    }
}

/// The entry of a pair that belongs to the other search.
pub open spec fn other(p: (Weight, Weight), backward: bool) -> Weight {
    if backward {
        p.0
    } else {
        p.1
    }
}

/// The pair with the entry of one search replaced.
pub open spec fn with_own(p: (Weight, Weight), backward: bool, v: Weight) -> (Weight, Weight) {
    if backward {
        (p.0, v)
    } else {
        (v, p.1)
    }
}

/// The pair with the entry of the other search replaced.
pub open spec fn with_other(p: (Weight, Weight), backward: bool, v: Weight) -> (Weight, Weight) {
    if backward {
        (v, p.1)
    } else {
        (p.0, v)
    }
}

/// A search has visited a node when the entry of the other search holds `-1`.
pub open spec fn visited_by(p: (Weight, Weight), backward: bool) -> bool {
    other(p, backward) == -1
}

/// The largest tentative distance that a search records.
pub const KEY_LIMIT: Weight = 0x2000_0002_0000_0000;

/// What `queue_node_forward` and `queue_node_backward` answer, given the pair of the node:
/// `None` where the new distance is an improvement and, with the distance of the other
/// search, stays below `max_distance`; else whether it is an improvement.
pub open spec fn queue_answer(p: (Weight, Weight), backward: bool, distance: Weight, max_distance: Weight) -> Option<
    bool,
> {
    if distance < own(p, backward) {
        if other(p, backward) < MAX && distance + other(p, backward) < max_distance {
            None
        } else {
            Some(true)
        }
    } else {
        Some(false)
    }
}

/// Keep track of all VisitStates
pub struct VisitedDistances {
    /// VisitStates of all nodes: first entry is the tentative distance in the forward-search,
    /// second entry the tentative distance in the backward-search. An entry of -1 means that
    /// the node was visited in the other search
    visit_map: Vec<(Weight, Weight)>,
    /// Vector of all seen nodes: might be faster for `o(n)` nodes
    seen_nodes: ReusableVec<Node>,
}

fn get_own(p: (Weight, Weight), backward: bool) -> (r: Weight)
    ensures
        r == own(p, backward),
{
    if backward {
        p.1
    } else {
        p.0
    }
}

fn get_other(p: (Weight, Weight), backward: bool) -> (r: Weight)
    ensures
        r == other(p, backward),
{
    if backward {
        p.0
    } else {
        p.1
    }
}

impl VisitedDistances {
    /// The pair of tentative distances of every node.
    pub closed spec fn states_spec(&self) -> Seq<(Weight, Weight)> {
        self.visit_map@
    }

    /// The number of nodes.
    pub open spec fn n_spec(&self) -> int {
        self.states_spec().len() as int
    }

    /// The representation invariant: the list of seen nodes holds, once each, exactly the
    /// nodes whose pair is not `(MAX, MAX)`.
    pub closed spec fn wf(&self) -> bool {
        &&& self.seen_nodes.wf()
        &&& self.seen_nodes.capacity_spec() == self.visit_map@.len()
        &&& 2 * self.visit_map@.len() <= usize::MAX
        &&& self.seen_nodes@.no_duplicates()
        &&& forall|i: int|
            0 <= i < self.seen_nodes@.len() ==> (#[trigger] self.seen_nodes@[i]) < self.visit_map@.len()
                && self.visit_map@[self.seen_nodes@[i] as int] != (MAX, MAX)
        &&& forall|x: int|
            0 <= x < self.visit_map@.len() && #[trigger] self.visit_map@[x] != (MAX, MAX)
                ==> self.seen_nodes@.contains(x as usize)
    }

    /// Twice the number of nodes fits a machine word, so that `node + n` can be reported.
    pub proof fn lemma_bounded(&self)
        requires
            self.wf(),
        ensures
            2 * self.n_spec() <= usize::MAX,
    {
    }

    /// Creates a new instance
    pub fn new(n: usize) -> (r: Self)
        requires
            2 * n <= usize::MAX,
        ensures
            r.wf(),
            r.n_spec() == n,
            forall|x: int| 0 <= x < n ==> #[trigger] r.states_spec()[x] == (MAX, MAX),
    {
        let mut visit_map: Vec<(Weight, Weight)> = Vec::new();
        let mut i: usize = 0;
        while i < n
            invariant
                i <= n,
                visit_map@.len() == i,
                forall|x: int| 0 <= x < i ==> #[trigger] visit_map@[x] == (MAX, MAX),
            decreases n - i,
        {
            visit_map.push((MAX, MAX));
            i += 1;
        }
        Self { visit_map, seen_nodes: ReusableVec::with_capacity(n) }
    }

    fn visit_node(&mut self, backward: bool, node: Node)
        requires
            old(self).wf(),
            node < old(self).n_spec(),
            old(self).states_spec()[node as int] != (MAX, MAX),
        ensures
            final(self).wf(),
            final(self).states_spec() == old(self).states_spec().update(
                node as int,
                with_other(old(self).states_spec()[node as int], backward, -1i64),
            ),
    {
        if backward {
            self.visit_map[node].0 = -1;
        } else {
            self.visit_map[node].1 = -1;
        }
        proof {
            assert(self.visit_map@ =~= old(self).visit_map@.update(
                node as int,
                with_other(old(self).visit_map@[node as int], backward, -1i64),
            ));
            let s = self.seen_nodes@;
            assert forall|x: int|
                0 <= x < self.visit_map@.len() && #[trigger] self.visit_map@[x] != (
                    MAX,
                    MAX,
                ) implies s.contains(x as usize) by {
                assert(old(self).visit_map@[x] != (MAX, MAX));
            }
        }
    }

    /// Visits a node in the forward-search: marks the entry of the backward search with `-1`.
    pub fn visit_node_forward(&mut self, node: Node)
        requires
            old(self).wf(),
            node < old(self).n_spec(),
            old(self).states_spec()[node as int] != (MAX, MAX),
        ensures
            final(self).wf(),
            final(self).states_spec() == old(self).states_spec().update(
                node as int,
                (old(self).states_spec()[node as int].0, -1 as Weight),
            ),
    {
        self.visit_node(false, node)
    }

    /// Visits a node in the backward-search: marks the entry of the forward search with `-1`.
    pub fn visit_node_backward(&mut self, node: Node)
        requires
            old(self).wf(),
            node < old(self).n_spec(),
            old(self).states_spec()[node as int] != (MAX, MAX),
        ensures
            final(self).wf(),
            final(self).states_spec() == old(self).states_spec().update(
                node as int,
                (-1 as Weight, old(self).states_spec()[node as int].1),
            ),
    {
        self.visit_node(true, node)
    }

    fn is_visited(&self, backward: bool, node: Node, dist: Weight) -> (b: bool)
        requires
            node < self.n_spec(),
        ensures
            b == (own(self.states_spec()[node as int], backward) < dist),
    {
        get_own(self.visit_map[node], backward) < dist
    }

    /// Returns *true* if the node has been visited in the forward-search
    pub fn is_visited_forward(&self, node: Node, dist: Weight) -> (b: bool)
        requires
            node < self.n_spec(),
        ensures
            b == (self.states_spec()[node as int].0 < dist),
    {
        self.is_visited(false, node, dist)
    }

    /// Returns *true* if the node has been visited in the backward-search
    pub fn is_visited_backward(&self, node: Node, dist: Weight) -> (b: bool)
        requires
            node < self.n_spec(),
        ensures
            b == (self.states_spec()[node as int].1 < dist),
    {
        self.is_visited(true, node, dist)
    }

    fn queue_node(&mut self, backward: bool, node: Node, distance: Weight, max_distance: Weight) -> (r:
        Option<bool>)
        requires
            old(self).wf(),
            node < old(self).n_spec(),
            -KEY_LIMIT <= distance <= KEY_LIMIT,
            other(old(self).states_spec()[node as int], backward) < MAX ==> -KEY_LIMIT <= other(
                old(self).states_spec()[node as int],
                backward,
            ) <= KEY_LIMIT,
        ensures
            final(self).wf(),
            r == queue_answer(old(self).states_spec()[node as int], backward, distance, max_distance),
            final(self).states_spec() == if r == Some(true) {
                old(self).states_spec().update(
                    node as int,
                    with_own(old(self).states_spec()[node as int], backward, distance),
                )
            } else {
                old(self).states_spec()
            },
    {
        let p = self.visit_map[node];
        if distance < get_own(p, backward) {
            let o = get_other(p, backward);
            if o < MAX && distance + o < max_distance {
                return None;
            }
            if p.0 == MAX && p.1 == MAX {
                proof {
                    let s = self.seen_nodes@;
                    let t = s.push(node);
                    assert(!s.contains(node)) by {
                        if s.contains(node) {
                            let i = choose|i: int| 0 <= i < s.len() && s[i] == node;
                            assert(self.visit_map@[s[i] as int] != (MAX, MAX));
                        }
                    }
                    assert(t.no_duplicates());
                    lemma_distinct_below(t, self.visit_map@.len());
                }
                self.seen_nodes.push(node);
            }
            if backward {
                self.visit_map[node].1 = distance;
            } else {
                self.visit_map[node].0 = distance;
            }
            proof {
                assert(self.visit_map@ =~= old(self).visit_map@.update(
                    node as int,
                    with_own(p, backward, distance),
                ));
                let s = self.seen_nodes@;
                let o = old(self).seen_nodes@;
                assert forall|x: int|
                    0 <= x < self.visit_map@.len() && #[trigger] self.visit_map@[x] != (
                        MAX,
                        MAX,
                    ) implies s.contains(x as usize) by {
                    if x == node {
                        if p == (MAX, MAX) {
                            assert(s[s.len() - 1] == node);
                        } else {
                            assert(o.contains(x as usize));
                        }
                    } else {
                        assert(o.contains(x as usize));
                        let i = choose|i: int| 0 <= i < o.len() && o[i] == x as usize;
                        assert(s[i] == x as usize);
                    }
                }
                assert forall|i: int| 0 <= i < s.len() implies (#[trigger] s[i]) < self.visit_map@.len()
                    && self.visit_map@[s[i] as int] != (MAX, MAX) by {
                    if i < o.len() {
                        assert(s[i] == o[i]);
                    }
                }
            }
            Some(true)
        } else {
            Some(false)
        }
    }

    /// Queues a node in the forward-search
    ///
    /// Returns `Some(bool)` if the queue was allowed and did go through/did not go through.
    /// Returns `None` if we have found a negative weight cycle
    pub fn queue_node_forward(&mut self, node: Node, distance: Weight, max_distance: Weight) -> (r: Option<
        bool,
    >)
        requires
            old(self).wf(),
            node < old(self).n_spec(),
            -KEY_LIMIT <= distance <= KEY_LIMIT,
            old(self).states_spec()[node as int].1 < MAX ==> -KEY_LIMIT <= old(
                self,
            ).states_spec()[node as int].1 <= KEY_LIMIT,
        ensures
            final(self).wf(),
            r == queue_answer(old(self).states_spec()[node as int], false, distance, max_distance),
            final(self).states_spec() == if r == Some(true) {
                old(self).states_spec().update(
                    node as int,
                    (distance, old(self).states_spec()[node as int].1),
                )
            } else {
                old(self).states_spec()
            },
    {
        self.queue_node(false, node, distance, max_distance)
    }

    /// Queues a node in the backward-search
    ///
    /// Returns `Some(bool)` if the queue was allowed and did go through/did not go through.
    /// Returns `None` if we have found a negative weight cycle
    pub fn queue_node_backward(&mut self, node: Node, distance: Weight, max_distance: Weight) -> (r: Option<
        bool,
    >)
        requires
            old(self).wf(),
            node < old(self).n_spec(),
            -KEY_LIMIT <= distance <= KEY_LIMIT,
            old(self).states_spec()[node as int].0 < MAX ==> -KEY_LIMIT <= old(
                self,
            ).states_spec()[node as int].0 <= KEY_LIMIT,
        ensures
            final(self).wf(),
            r == queue_answer(old(self).states_spec()[node as int], true, distance, max_distance),
            final(self).states_spec() == if r == Some(true) {
                old(self).states_spec().update(
                    node as int,
                    (old(self).states_spec()[node as int].0, distance),
                )
            } else {
                old(self).states_spec()
            },
    {
        self.queue_node(true, node, distance, max_distance)
    }

    /// Resets the data structure: afterwards no node is seen.
    pub fn reset(&mut self)
        requires
            old(self).wf(),
        ensures
            final(self).wf(),
            final(self).n_spec() == old(self).n_spec(),
            forall|x: int|
                0 <= x < final(self).n_spec() ==> #[trigger] final(self).states_spec()[x] == (MAX, MAX),
    {
        let n = self.visit_map.len();
        if self.seen_nodes.is_asymptotically_full() {
            self.seen_nodes.clear();
            let mut i: usize = 0;
            while i < n
                invariant
                    i <= n,
                    n == self.visit_map@.len(),
                    forall|x: int| 0 <= x < i ==> #[trigger] self.visit_map@[x] == (MAX, MAX),
                    self.seen_nodes.wf(),
                    self.seen_nodes@.len() == 0,
                    self.seen_nodes.capacity_spec() == n,
                decreases n - i,
            {
                self.visit_map[i] = (MAX, MAX);
                i += 1;
            }
        } else {
            let len = self.seen_nodes.len();
            let mut i: usize = 0;
            while i < len
                invariant
                    i <= len,
                    len == self.seen_nodes@.len(),
                    n == self.visit_map@.len(),
                    self.seen_nodes == old(self).seen_nodes,
                    self.seen_nodes.wf(),
                    self.seen_nodes.capacity_spec() == n,
                    forall|k: int| 0 <= k < len ==> (#[trigger] self.seen_nodes@[k]) < n,
                    forall|k: int|
                        0 <= k < i ==> self.visit_map@[(#[trigger] self.seen_nodes@[k]) as int] == (
                            MAX,
                            MAX,
                        ),
                    forall|x: int|
                        0 <= x < n && #[trigger] self.visit_map@[x] != (MAX, MAX)
                            ==> self.seen_nodes@.contains(x as usize),
                decreases len - i,
            {
                let seen = self.seen_nodes.iter();
                let u = seen[i];
                self.visit_map[u] = (MAX, MAX);
                i += 1;
            }
            proof {
                assert forall|x: int| 0 <= x < n implies #[trigger] self.visit_map@[x] == (MAX, MAX) by {
                    if self.visit_map@[x] != (MAX, MAX) {
                        let s = self.seen_nodes@;
                        assert(s.contains(x as usize));
                        let k = choose|k: int| 0 <= k < s.len() && s[k] == x as usize;
                        assert(self.visit_map@[s[k] as int] == (MAX, MAX));
                    }
                }
            }
            self.seen_nodes.clear();
        }
    }

    /// What `get_distances` reports for node `x` with the pair `p`: for a node visited in the
    /// backward-search `x + n` and its backward distance, for one visited in the
    /// forward-search `x` and its forward distance, else nothing.
    pub open spec fn report(x: int, p: (Weight, Weight), n: int) -> Option<(Node, Weight)> {
        if p.0 == -1 {
            Some(((x + n) as usize, p.1))
        } else if p.1 == -1 {
            Some((x as usize, p.0))
        } else {
            None
        }
    }

    /// Some node is reported as `e`.
    pub open spec fn reported(&self, e: (Node, Weight)) -> bool {
        exists|x: int|
            0 <= x < self.n_spec() && #[trigger] Self::report(x, self.states_spec()[x], self.n_spec())
                == Some(e)
    }

    /// Returns the node-distance pairs of all visited nodes.
    /// For nodes visited in the backward-search, we set the node-value to `node + n`
    pub fn get_distances(&self) -> (r: Vec<(Node, Weight)>)
        requires
            self.wf(),
        ensures
            forall|i: int| 0 <= i < r@.len() ==> self.reported(#[trigger] r@[i]),
            forall|i: int, j: int| 0 <= i < j < r@.len() ==> (#[trigger] r@[i]).0 != (#[trigger] r@[j]).0,
            forall|x: int|
                0 <= x < self.n_spec() ==> match Self::report(
                    x,
                    #[trigger] self.states_spec()[x],
                    self.n_spec(),
                ) {
                    Some(e) => r@.contains(e),
                    None => true,
                },
    {
        let n = self.visit_map.len();
        let mut r: Vec<(Node, Weight)> = Vec::new();
        let ghost mut origin: Seq<int> = Seq::empty();
        if self.seen_nodes.is_asymptotically_full() {
            let mut u: usize = 0;
            while u < n
                invariant
                    u <= n,
                    2 * n <= usize::MAX,
                    n == self.visit_map@.len(),
                    origin.len() == r@.len(),
                    forall|i: int|
                        0 <= i < r@.len() ==> 0 <= #[trigger] origin[i] < u && Self::report(
                            origin[i],
                            self.visit_map@[origin[i]],
                            n as int,
                        ) == Some(r@[i]),
                    forall|i: int, j: int|
                        0 <= i < j < r@.len() ==> #[trigger] origin[i] < #[trigger] origin[j],
                    forall|x: int|
                        0 <= x < u ==> match Self::report(x, #[trigger] self.visit_map@[x], n as int) {
                            Some(e) => r@.contains(e),
                            None => true,
                        },
                decreases n - u,
            {
                let s = self.visit_map[u];
                let ghost before = r@;
                if s.0 == -1 {
                    r.push((u + n, s.1));
                    proof {
                        origin = origin.push(u as int);
                    }
                } else if s.1 == -1 {
                    r.push((u, s.0));
                    proof {
                        origin = origin.push(u as int);
                    }
                }
                proof {
                    assert forall|x: int| 0 <= x <= u implies match Self::report(
                        x,
                        #[trigger] self.visit_map@[x],
                        n as int,
                    ) {
                        Some(e) => r@.contains(e),
                        None => true,
                    } by {
                        match Self::report(x, self.visit_map@[x], n as int) {
                            Some(e) => {
                                if x < u {
                                    assert(before.contains(e));
                                    let i = choose|i: int| 0 <= i < before.len() && before[i] == e;
                                    assert(r@[i] == e);
                                } else {
                                    assert(r@[r@.len() - 1] == e);
                                }
                            },
                            None => {},
                        }
                    }
                }
                u += 1;
            }
            proof {
                assert forall|i: int, j: int| 0 <= i < j < r@.len() implies #[trigger] origin[i]
                    != #[trigger] origin[j] by {}
            }
        } else {
            let seen = self.seen_nodes.iter();
            let len = seen.len();
            let mut k: usize = 0;
            let ghost mut slot: Seq<int> = Seq::empty();
            while k < len
                invariant
                    k <= len,
                    self.wf(),
                    seen@ == self.seen_nodes@,
                    len == seen@.len(),
                    n == self.visit_map@.len(),
                    origin.len() == r@.len(),
                    slot.len() == r@.len(),
                    forall|i: int|
                        0 <= i < r@.len() ==> 0 <= #[trigger] slot[i] < k && origin[i] == seen@[slot[i]]
                            && Self::report(origin[i], self.visit_map@[origin[i]], n as int) == Some(
                            r@[i],
                        ),
                    forall|i: int, j: int| 0 <= i < j < r@.len() ==> slot[i] < slot[j],
                    forall|j: int|
                        0 <= j < k ==> match Self::report(
                            (#[trigger] seen@[j]) as int,
                            self.visit_map@[seen@[j] as int],
                            n as int,
                        ) {
                            Some(e) => r@.contains(e),
                            None => true,
                        },
                decreases len - k,
            {
                let u = seen[k];
                let s = self.visit_map[u];
                let ghost before = r@;
                if s.0 == -1 {
                    r.push((u + n, s.1));
                    proof {
                        origin = origin.push(u as int);
                        slot = slot.push(k as int);
                    }
                } else if s.1 == -1 {
                    r.push((u, s.0));
                    proof {
                        origin = origin.push(u as int);
                        slot = slot.push(k as int);
                    }
                }
                proof {
                    assert forall|j: int| 0 <= j <= k implies match Self::report(
                        (#[trigger] seen@[j]) as int,
                        self.visit_map@[seen@[j] as int],
                        n as int,
                    ) {
                        Some(e) => r@.contains(e),
                        None => true,
                    } by {
                        match Self::report(seen@[j] as int, self.visit_map@[seen@[j] as int], n as int) {
                            Some(e) => {
                                if j < k {
                                    assert(before.contains(e));
                                    let i = choose|i: int| 0 <= i < before.len() && before[i] == e;
                                    assert(r@[i] == e);
                                } else {
                                    assert(r@[r@.len() - 1] == e);
                                }
                            },
                            None => {},
                        }
                    }
                }
                k += 1;
            }
            proof {
                let s = self.seen_nodes@;
                assert forall|x: int| 0 <= x < n implies match Self::report(
                    x,
                    #[trigger] self.visit_map@[x],
                    n as int,
                ) {
                    Some(e) => r@.contains(e),
                    None => true,
                } by {
                    if self.visit_map@[x] != (MAX, MAX) {
                        assert(s.contains(x as usize));
                        let j = choose|j: int| 0 <= j < s.len() && s[j] == x as usize;
                        assert(seen@[j] == x);
                    }
                }
                assert forall|i: int, j: int| 0 <= i < j < r@.len() implies #[trigger] origin[i]
                    != #[trigger] origin[j] by {
                    assert(slot[i] < slot[j]);
                    assert(seen@[slot[i]] != seen@[slot[j]]);
                }
                assert forall|i: int| 0 <= i < r@.len() implies 0 <= #[trigger] origin[i] < n
                    && Self::report(origin[i], self.visit_map@[origin[i]], n as int) == Some(
                    r@[i],
                ) by {
                    assert(0 <= slot[i] < len);
                }
            }
        }
        proof {
            assert forall|i: int| 0 <= i < r@.len() implies self.reported(#[trigger] r@[i]) by {
                let x = origin[i];
                assert(Self::report(x, self.states_spec()[x], self.n_spec()) == Some(r@[i]));
            }
            assert(origin.len() == r@.len());
            assert forall|i: int, j: int| 0 <= i < j < r@.len() implies (#[trigger] r@[i]).0 != (#[trigger] r@[j]).0 by {
                assert(origin[i] != origin[j]);
                assert(0 <= origin[i] < n && 0 <= origin[j] < n);
                let (a, b) = (origin[i], origin[j]);
                assert(Self::report(a, self.visit_map@[a], n as int) == Some(r@[i]));
                assert(Self::report(b, self.visit_map@[b], n as int) == Some(r@[j]));
                // a node that is reported as `x + n` was visited backward, one reported as `x` was not
                if r@[i].0 == r@[j].0 {
                    assert(self.visit_map@[a].0 == -1 || self.visit_map@[b].0 == -1);
                }
            }
        }
        r
    }
}


/// The bookkeeping of a running bidirectional search that the program itself does not store.
pub struct BiSearch {
    /// For every node reached forward, a walk from the source of the recorded length
    pub walks: Seq<Seq<Edge>>,
    /// For every node reached backward, a walk to the target of the recorded length
    pub walks_back: Seq<Seq<Edge>>,
    /// The node whose edges are being relaxed, or `-1`
    pub node: int,
    /// Whether that node belongs to the backward search
    pub side: bool,
    /// How many of its edges have been relaxed
    pub progress: int,
    /// The forward search has popped nothing yet
    pub fresh_f: bool,
    /// The backward search has popped nothing yet
    pub fresh_b: bool,
}

/// The adjacency array that a search walks: the reverse one for the backward search.
pub open spec fn adj_edges(g: &TwoDirGraph, backward: bool) -> Seq<Edge> {
    if backward {
        g.rev_edges_spec()
    } else {
        g.edges_spec()
    }
}

/// The block limits of that array.
pub open spec fn adj_limits(g: &TwoDirGraph, backward: bool) -> Seq<usize> {
    if backward {
        g.rev_limits_spec()
    } else {
        g.forward_spec().limits_spec()
    }
}

/// A distance that a search has recorded, as opposed to the marks `-1` and `MAX`.
pub open spec fn recorded(v: Weight) -> bool {
    0 <= v <= KEY_LIMIT
}

/// The edge `e`, which leaves a node that the search has visited, is in order: its far end
/// is no farther than the edge allows or, where the other search has visited that end, the
/// two distances and the edge add up to at least `dmax`.
pub open spec fn settled(e: Edge, d: Seq<(Weight, Weight)>, pi: Seq<int>, dmax: Weight, backward: bool) -> bool {
    let x = key_of(e, backward) as int;
    let y = minor_of(e, backward) as int;
    let c = reduced_weight(e, pi);
    if visited_by(d[y], !backward) {
        own(d[x], backward) + c + own(d[y], !backward) >= dmax
    } else {
        own(d[y], backward) <= own(d[x], backward) + c
    }
}

/// The edge at index `j` of the adjacency array of the given search is settled.
pub open spec fn settled_at(g: &TwoDirGraph, d: Seq<(Weight, Weight)>, dmax: Weight, backward: bool, j: int) -> bool {
    settled(adj_edges(g, backward)[j], d, g.pi(), dmax, backward)
}

/// The first `k` edges in the block of `x` are settled.
pub open spec fn block_settled(
    g: &TwoDirGraph,
    d: Seq<(Weight, Weight)>,
    dmax: Weight,
    backward: bool,
    x: int,
    k: int,
) -> bool {
    forall|j: int|
        adj_limits(g, backward)[x] <= j < adj_limits(g, backward)[x] + k ==> #[trigger] settled_at(
            g,
            d,
            dmax,
            backward,
            j,
        )
}

/// The walk recorded for `x` leads from the source to `x`, or from `x` to the target, and has
/// the reduced length `len`.
pub open spec fn walk_to(
    g: &TwoDirGraph,
    s: Node,
    t: Node,
    walks: Seq<Seq<Edge>>,
    backward: bool,
    x: int,
    len: Weight,
) -> bool {
    if backward {
        is_walk(g.edges_spec(), walks[x], x, t as int) && reduced_length(g.pi(), walks[x], x, t as int)
            == len
    } else {
        is_walk(g.edges_spec(), walks[x], s as int, x) && reduced_length(g.pi(), walks[x], s as int, x)
            == len
    }
}

/// The distance that the given search has recorded for `x`, if any, is the length of the
/// walk recorded with it.
pub open spec fn walk_entry_ok(
    g: &TwoDirGraph,
    s: Node,
    t: Node,
    d: Seq<(Weight, Weight)>,
    walks: Seq<Seq<Edge>>,
    backward: bool,
    x: int,
) -> bool {
    let o = own(d[x], backward);
    o == -1 || o == MAX || (recorded(o) && walk_to(g, s, t, walks, backward, x, o))
}

/// Every recorded distance of the given search is the length of the walk recorded with it.
#[verifier::opaque]
pub open spec fn walks_ok(
    g: &TwoDirGraph,
    s: Node,
    t: Node,
    d: Seq<(Weight, Weight)>,
    walks: Seq<Seq<Edge>>,
    backward: bool,
) -> bool {
    forall|x: int| 0 <= x < d.len() ==> #[trigger] walk_entry_ok(g, s, t, d, walks, backward, x)
}

/// The heap of the given search matches the distance of `x`: where the search has visited
/// `x`, the heap has no entry at its distance; where `x` is queued, it has one.
pub open spec fn heap_entry_ok(
    d: Seq<(Weight, Weight)>,
    h: vstd::multiset::Multiset<(Weight, Node)>,
    top: Weight,
    backward: bool,
    x: int,
) -> bool {
    &&& visited_by(d[x], backward) ==> {
        &&& recorded(own(d[x], backward))
        &&& own(d[x], backward) <= top
        &&& h.count((own(d[x], backward), x as usize)) == 0
    }
    &&& !visited_by(d[x], backward) && !visited_by(d[x], !backward) && own(d[x], backward) < MAX
        ==> h.count((own(d[x], backward), x as usize)) == 1
}

/// The heap of the given search matches the distances: no entry lies below the distance of
/// its node, a visited node has no entry at its distance, and a node that is queued has one.
#[verifier::opaque]
pub open spec fn heap_ok(
    d: Seq<(Weight, Weight)>,
    h: vstd::multiset::Multiset<(Weight, Node)>,
    top: Weight,
    backward: bool,
) -> bool {
    &&& 0 <= top <= KEY_LIMIT
    &&& forall|e: (Weight, Node)| #[trigger]
        h.count(e) > 0 ==> e.1 < d.len() && own(d[e.1 as int], backward) <= e.0 <= KEY_LIMIT && top
            <= e.0
    &&& forall|x: int| 0 <= x < d.len() ==> #[trigger] heap_entry_ok(d, h, top, backward, x)
}

/// The edges of `x`, where the search has visited it, are settled; if it is under expansion,
/// the first `progress` of them.
pub open spec fn node_ok(
    g: &TwoDirGraph,
    d: Seq<(Weight, Weight)>,
    dmax: Weight,
    backward: bool,
    cur: int,
    progress: int,
    x: int,
) -> bool {
    visited_by(d[x], backward) ==> block_settled(
        g,
        d,
        dmax,
        backward,
        x,
        if x == cur {
            progress
        } else {
            adj_limits(g, backward)[x + 1] - adj_limits(g, backward)[x]
        },
    )
}

/// The edges of every visited node are settled; of the node under expansion, the first
/// `progress` edges.
#[verifier::opaque]
pub open spec fn blocks_ok(
    g: &TwoDirGraph,
    d: Seq<(Weight, Weight)>,
    dmax: Weight,
    backward: bool,
    cur: int,
    progress: int,
) -> bool {
    forall|x: int| 0 <= x < d.len() ==> #[trigger] node_ok(g, d, dmax, backward, cur, progress, x)
}

/// The node `x` is not visited by both searches, and its two distances, where both are
/// recorded, add up to at least `dmax`.
pub open spec fn pair_ok(d: Seq<(Weight, Weight)>, dmax: Weight, x: int) -> bool {
    &&& !(visited_by(d[x], false) && visited_by(d[x], true))
    &&& recorded(d[x].0) && recorded(d[x].1) ==> d[x].0 + d[x].1 >= dmax
}

/// No node is visited by both searches, and two recorded distances of one node add up to at
/// least `dmax`.
#[verifier::opaque]
pub open spec fn pairs_ok(d: Seq<(Weight, Weight)>, dmax: Weight) -> bool {
    forall|x: int| 0 <= x < d.len() ==> #[trigger] pair_ok(d, dmax, x)
}

/// The nodes that the given search has visited and fully expanded.
pub open spec fn done_nodes(d: Seq<(Weight, Weight)>, backward: bool, cur: int) -> Seq<bool> {
    Seq::new(d.len(), |x: int| visited_by(d[x], backward) && x != cur)
}

/// The heap is no larger than the number of edges relaxed so far, plus one for the entry
/// that it starts with.
pub open spec fn len_ok(
    g: &TwoDirGraph,
    d: Seq<(Weight, Weight)>,
    len: int,
    backward: bool,
    cur: int,
    progress: int,
    fresh: bool,
) -> bool {
    len <= marked_degree(done_nodes(d, backward, cur), adj_limits(g, backward), d.len() as int) + (if cur
        >= 0 {
        progress
    } else {
        0
    }) + if fresh {
        1int
    } else {
        0int
    }
}

/// The node that the given search is expanding, or `-1`.
pub open spec fn current(st: BiSearch, backward: bool) -> int {
    if st.side == backward {
        st.node
    } else {
        -1
    }
}

/// How many edges of its current node the given search has relaxed.
pub open spec fn progress_of(st: BiSearch, backward: bool) -> int {
    if st.side == backward && st.node >= 0 {
        st.progress
    } else {
        0
    }
}

/// The nodes that the given search has visited.
pub open spec fn visited(d: Seq<(Weight, Weight)>, backward: bool) -> Seq<bool> {
    Seq::new(d.len(), |x: int| visited_by(d[x], backward))
}

/// What a bidirectional search between two different nodes may be started on: a well-formed
/// graph with feasible potentials, two of its nodes, and a distance bound within the limit.
/// The limit keeps the sum of two distances below the bound, and of one of them and a reduced
/// weight, within 64 bits.
pub open spec fn searchable(g: &TwoDirGraph, source: Node, target: Node, max_distance: Weight) -> bool {
    &&& g.wf()
    &&& g.is_feasible_spec()
    &&& source < g.n_spec()
    &&& target < g.n_spec()
    &&& -DISTANCE_LIMIT <= max_distance <= DISTANCE_LIMIT
}

/// Bidirectional Dijkstra
pub struct BiDijkstra {
    /// The heap for the forward-search
    heapf: RadixHeap<Node>,
    /// The heap for the backward-search
    heapb: RadixHeap<Node>,
    /// The VisitStates of all nodes
    visit_states: VisitedDistances,
}

/// Facts about the edge at position `k` of the block of `x`.
proof fn lemma_adj_edge(g: &TwoDirGraph, backward: bool, x: int, k: int)
    requires
        g.wf(),
        g.is_feasible_spec(),
        0 <= x < g.n_spec(),
        0 <= k < adj_limits(g, backward)[x + 1] - adj_limits(g, backward)[x],
    ensures
        0 <= adj_limits(g, backward)[x] + k < adj_edges(g, backward).len(),
        g.edges_spec().contains(adj_edges(g, backward)[adj_limits(g, backward)[x] + k]),
        key_of(adj_edges(g, backward)[adj_limits(g, backward)[x] + k], backward) == x,
        minor_of(adj_edges(g, backward)[adj_limits(g, backward)[x] + k], backward) < g.n_spec(),
        0 <= reduced_weight(adj_edges(g, backward)[adj_limits(g, backward)[x] + k], g.pi())
            <= DISTANCE_LIMIT,
        -crate::graph::WEIGHT_LIMIT <= adj_edges(g, backward)[adj_limits(g, backward)[x] + k].weight
            <= crate::graph::WEIGHT_LIMIT,
{
    let j = adj_limits(g, backward)[x] + k;
    lemma_block_key(adj_edges(g, backward), adj_limits(g, backward), g.n_spec(), backward, x, j);
    let e = adj_edges(g, backward)[j];
    lemma_same_edges(g.edges_spec(), g.rev_edges_spec());
    assert(g.edges_spec().contains(e));
    lemma_edge_facts(g, e);
}

/// Facts about an edge of the graph.
proof fn lemma_edge_facts(g: &TwoDirGraph, e: Edge)
    requires
        g.wf(),
        g.is_feasible_spec(),
        g.edges_spec().contains(e),
    ensures
        e.source < g.n_spec(),
        e.target < g.n_spec(),
        0 <= reduced_weight(e, g.pi()) <= DISTANCE_LIMIT,
        -crate::graph::WEIGHT_LIMIT <= e.weight <= crate::graph::WEIGHT_LIMIT,
        g.rev_edges_spec().contains(e),
{
    let edges = g.edges_spec();
    let i = choose|i: int| 0 <= i < edges.len() && edges[i] == e;
    assert(edges[i].target < g.n_spec());
    assert(-crate::graph::WEIGHT_LIMIT <= edges[i].weight <= crate::graph::WEIGHT_LIMIT);
    assert(reduced_weight(edges[i], g.pi()) >= 0);
    let p = g.potentials_spec();
    assert(-crate::graph::POTENTIAL_LIMIT <= p[e.target as int] <= crate::graph::POTENTIAL_LIMIT);
    assert(-crate::graph::POTENTIAL_LIMIT <= p[e.source as int] <= crate::graph::POTENTIAL_LIMIT);
    lemma_same_edges(g.edges_spec(), g.rev_edges_spec());
}

/// An edge of the graph lies in the block of its key, in either adjacency array.
proof fn lemma_edge_index(g: &TwoDirGraph, backward: bool, e: Edge) -> (j: int)
    requires
        g.wf(),
        g.edges_spec().contains(e),
    ensures
        0 <= j < adj_edges(g, backward).len(),
        adj_edges(g, backward)[j] == e,
        key_of(e, backward) < g.n_spec(),
        adj_limits(g, backward)[key_of(e, backward) as int] <= j < adj_limits(g, backward)[key_of(
            e,
            backward,
        ) + 1],
{
    lemma_same_edges(g.edges_spec(), g.rev_edges_spec());
    let a = adj_edges(g, backward);
    assert(a.contains(e));
    let j = choose|j: int| 0 <= j < a.len() && a[j] == e;
    assert(key_of(a[j], backward) < g.n_spec());
    j
}

impl BiDijkstra {
    /// The number of nodes of the graphs that this instance can search.
    pub closed spec fn n_spec(&self) -> int {
        self.visit_states.n_spec()
    }

    /// The representation invariant of the workspace.
    pub closed spec fn wf(&self) -> bool {
        self.heapf.wf() && self.heapb.wf() && self.visit_states.wf()
    }

    /// The distance that the search in the given direction popped last; `0` before it has
    /// popped any.
    pub closed spec fn popped_spec(&self, backward: bool) -> Weight {
        self.heap_of(backward).top_spec()
    }

    /// How many entries wait in the heap of the search in the given direction.
    pub closed spec fn waiting_spec(&self, backward: bool) -> nat {
        self.heap_of(backward)@.len()
    }

    /// What the searches have recorded of the nodes.
    pub closed spec fn visits_spec(&self) -> VisitedDistances {
        self.visit_states
    }

    spec fn heap_of(&self, backward: bool) -> RadixHeap<Node> {
        if backward {
            self.heapb
        } else {
            self.heapf
        }
    }

    spec fn inv(&self, g: &TwoDirGraph, s: Node, t: Node, dmax: Weight, st: BiSearch) -> bool {
        let d = self.visit_states.states_spec();
        let n = g.n_spec();
        &&& self.visit_states.wf()
        &&& self.heapf.wf()
        &&& self.heapb.wf()
        &&& d.len() == n
        &&& st.walks.len() == n
        &&& st.walks_back.len() == n
        &&& walks_ok(g, s, t, d, st.walks, false)
        &&& walks_ok(g, s, t, d, st.walks_back, true)
        &&& heap_ok(d, self.heapf@, self.heapf.top_spec(), false)
        &&& heap_ok(d, self.heapb@, self.heapb.top_spec(), true)
        &&& blocks_ok(g, d, dmax, false, current(st, false), progress_of(st, false))
        &&& blocks_ok(g, d, dmax, true, current(st, true), progress_of(st, true))
        &&& len_ok(
            g,
            d,
            self.heapf@.len() as int,
            false,
            current(st, false),
            progress_of(st, false),
            st.fresh_f,
        )
        &&& len_ok(
            g,
            d,
            self.heapb@.len() as int,
            true,
            current(st, true),
            progress_of(st, true),
            st.fresh_b,
        )
        &&& pairs_ok(d, dmax)
        &&& -1 <= st.node < n
        &&& st.node >= 0 ==> {
            &&& visited_by(d[st.node], st.side)
            &&& own(d[st.node], st.side) == self.heap_of(st.side).top_spec()
            &&& 0 <= st.progress <= adj_limits(g, st.side)[st.node + 1] - adj_limits(g, st.side)[st.node]
        }
        &&& st.node < 0 ==> st.progress == 0
        &&& st.node >= 0 ==> !(if st.side {
            st.fresh_b
        } else {
            st.fresh_f
        })
        &&& st.fresh_f ==> {
            &&& st.fresh_b
            &&& self.heapf@ == vstd::multiset::Multiset::<(Weight, Node)>::empty().insert((0, s))
            &&& d[s as int] == (0 as Weight, MAX)
        }
        &&& st.fresh_b ==> {
            &&& self.heapb@ == vstd::multiset::Multiset::<(Weight, Node)>::empty().insert((0, t))
            &&& d[t as int].1 == 0
            &&& d[t as int].0 != -1
        }
        &&& !st.fresh_f ==> d[s as int] == (0 as Weight, -1 as Weight)
        &&& !st.fresh_b ==> d[t as int] == (-1 as Weight, 0 as Weight)
        &&& st.fresh_f || self.heapf.top_spec() + self.heapb.top_spec() < dmax
    }

    /// Creates a new instance
    pub fn new(n: usize) -> (r: Self)
        requires
            2 * n <= usize::MAX,
        ensures
            r.wf(),
            r.n_spec() == n,
    {
        Self { heapf: RadixHeap::new(), heapb: RadixHeap::new(), visit_states: VisitedDistances::new(n) }
    }
}

/// The edge at position `k` of the block of `x`.
pub open spec fn adj_edge(g: &TwoDirGraph, backward: bool, x: int, k: int) -> Edge {
    adj_edges(g, backward)[adj_limits(g, backward)[x] + k]
}

/// A change to the pair of `y` that leaves alone what `settled` reads keeps the settled edges
/// of `x` settled.
proof fn lemma_block_stable(
    g: &TwoDirGraph,
    d: Seq<(Weight, Weight)>,
    d2: Seq<(Weight, Weight)>,
    dmax: Weight,
    backward: bool,
    x: int,
    k: int,
    y: int,
    p: (Weight, Weight),
)
    requires
        g.wf(),
        g.is_feasible_spec(),
        0 <= x < g.n_spec(),
        0 <= y < g.n_spec(),
        d.len() == g.n_spec(),
        x != y,
        0 <= k <= adj_limits(g, backward)[x + 1] - adj_limits(g, backward)[x],
        block_settled(g, d, dmax, backward, x, k),
        d2 == d.update(y, p),
        visited_by(p, !backward) == visited_by(d[y], !backward),
        visited_by(d[y], !backward) ==> own(p, !backward) == own(d[y], !backward),
        !visited_by(d[y], !backward) ==> own(p, backward) <= own(d[y], backward),
    ensures
        block_settled(g, d2, dmax, backward, x, k),
{
    assert forall|j: int|
        adj_limits(g, backward)[x] <= j < adj_limits(g, backward)[x] + k implies #[trigger] settled_at(
        g,
        d2,
        dmax,
        backward,
        j,
    ) by {
        lemma_adj_edge(g, backward, x, j - adj_limits(g, backward)[x]);
        assert(settled_at(g, d, dmax, backward, j));
    }
}

/// Lowering the distance of a node that neither search has visited keeps all blocks in order.
proof fn lemma_blocks_lower(
    g: &TwoDirGraph,
    d: Seq<(Weight, Weight)>,
    d2: Seq<(Weight, Weight)>,
    dmax: Weight,
    side: bool,
    cur: int,
    progress: int,
    y: int,
    p: (Weight, Weight),
)
    requires
        g.wf(),
        g.is_feasible_spec(),
        d.len() == g.n_spec(),
        0 <= y < g.n_spec(),
        blocks_ok(g, d, dmax, side, cur, progress),
        cur >= 0 ==> 0 <= progress <= adj_limits(g, side)[cur + 1] - adj_limits(g, side)[cur],
        d2 == d.update(y, p),
        !visited_by(d[y], false) && !visited_by(d[y], true),
        !visited_by(p, false) && !visited_by(p, true),
        own(p, side) <= own(d[y], side),
    ensures
        blocks_ok(g, d2, dmax, side, cur, progress),
{
    reveal(blocks_ok);
    let lim = adj_limits(g, side);
    assert(is_adjacency(adj_edges(g, side), lim, g.n_spec(), side));
    assert forall|x: int| 0 <= x < d2.len() implies #[trigger] node_ok(
        g,
        d2,
        dmax,
        side,
        cur,
        progress,
        x,
    ) by {
        assert(node_ok(g, d, dmax, side, cur, progress, x));
        if visited_by(d2[x], side) {
            assert(lim[x] <= lim[x + 1]);
            lemma_block_stable(g, d, d2, dmax, side, x, if x == cur {
                progress
            } else {
                lim[x + 1] - lim[x]
            }, y, p);
        }
    }
}

/// One more edge of the node under expansion is settled.
proof fn lemma_blocks_advance(
    g: &TwoDirGraph,
    d: Seq<(Weight, Weight)>,
    dmax: Weight,
    side: bool,
    cur: int,
    progress: int,
)
    requires
        blocks_ok(g, d, dmax, side, cur, progress),
        0 <= cur < d.len(),
        settled(adj_edge(g, side, cur, progress), d, g.pi(), dmax, side),
    ensures
        blocks_ok(g, d, dmax, side, cur, progress + 1),
{
    reveal(blocks_ok);
    assert forall|x: int| 0 <= x < d.len() implies #[trigger] node_ok(
        g,
        d,
        dmax,
        side,
        cur,
        progress + 1,
        x,
    ) by {
        assert(node_ok(g, d, dmax, side, cur, progress, x));
        if x == cur && visited_by(d[x], side) {
            assert(settled_at(g, d, dmax, side, adj_limits(g, side)[cur] + progress));
        }
    }
}

/// The node under expansion is done, or a node without settled edges starts its expansion.
proof fn lemma_blocks_switch(
    g: &TwoDirGraph,
    d: Seq<(Weight, Weight)>,
    dmax: Weight,
    side: bool,
    cur: int,
    progress: int,
)
    requires
        blocks_ok(g, d, dmax, side, cur, progress),
        0 <= cur < d.len(),
        progress == adj_limits(g, side)[cur + 1] - adj_limits(g, side)[cur],
    ensures
        blocks_ok(g, d, dmax, side, -1, 0),
{
    reveal(blocks_ok);
    assert forall|x: int| 0 <= x < d.len() implies #[trigger] node_ok(g, d, dmax, side, -1, 0, x) by {
        assert(node_ok(g, d, dmax, side, cur, progress, x));
    }
}

/// Facts that the invariant gives about the edge under relaxation.
pub open spec fn step_facts(g: &TwoDirGraph, d: Seq<(Weight, Weight)>, top: Weight, side: bool, x: int, k: int) -> bool {
    let e = adj_edge(g, side, x, k);
    let y = minor_of(e, side) as int;
    &&& 0 <= x < g.n_spec()
    &&& 0 <= y < g.n_spec()
    &&& key_of(e, side) == x
    &&& g.edges_spec().contains(e)
    &&& 0 <= reduced_weight(e, g.pi()) <= DISTANCE_LIMIT
    &&& -crate::graph::WEIGHT_LIMIT <= e.weight <= crate::graph::WEIGHT_LIMIT
    &&& visited_by(d[x], side)
    &&& !visited_by(d[x], !side)
    &&& recorded(own(d[x], side))
    &&& own(d[x], side) == top
    &&& own(d[x], side) < DISTANCE_LIMIT
    &&& own(d[x], side) + reduced_weight(e, g.pi()) <= KEY_LIMIT
}

impl BiDijkstra {
    /// The invariant gives the facts about the edge under relaxation.
    proof fn lemma_facts(self, g: &TwoDirGraph, s: Node, t: Node, dmax: Weight, st: BiSearch)
        requires
            searchable(g, s, t, dmax),
            self.inv(g, s, t, dmax, st),
            st.node >= 0,
            st.progress < adj_limits(g, st.side)[st.node + 1] - adj_limits(g, st.side)[st.node],
        ensures
            step_facts(
                g,
                self.visit_states.states_spec(),
                self.heap_of(st.side).top_spec(),
                st.side,
                st.node,
                st.progress,
            ),
            0 <= self.heap_of(!st.side).top_spec(),
    {
        let bw = st.side;
        let x = st.node;
        let d = self.visit_states.states_spec();
        lemma_adj_edge(g, bw, x, st.progress);
        reveal(heap_ok);
        reveal(pairs_ok);
        assert(visited_by(d[x], bw));
        assert(pair_ok(d, dmax, x));
        assert(heap_entry_ok(d, self.heap_of(bw)@, self.heap_of(bw).top_spec(), bw, x));
    }
}


/// A node that neither search has visited got a lower distance and an entry on the heap.
proof fn lemma_heap_push(
    d: Seq<(Weight, Weight)>,
    d2: Seq<(Weight, Weight)>,
    h: vstd::multiset::Multiset<(Weight, Node)>,
    h2: vstd::multiset::Multiset<(Weight, Node)>,
    top: Weight,
    side: bool,
    y: int,
    cost: Weight,
)
    requires
        d.len() <= usize::MAX,
        heap_ok(d, h, top, side),
        0 <= y < d.len(),
        !visited_by(d[y], side),
        !visited_by(d[y], !side),
        d2 == d.update(y, with_own(d[y], side, cost)),
        top <= cost <= KEY_LIMIT,
        cost < own(d[y], side),
        h2 == h.insert((cost, y as usize)),
    ensures
        heap_ok(d2, h2, top, side),
{
    reveal(heap_ok);
    assert forall|e: (Weight, Node)| #[trigger] h2.count(e) > 0 implies e.1 < d2.len() && own(
        d2[e.1 as int],
        side,
    ) <= e.0 <= KEY_LIMIT && top <= e.0 by {
        if e != (cost, y as usize) {
            assert(h.count(e) > 0);
        }
    }
    assert(h.count((cost, y as usize)) == 0);
    assert forall|x: int| 0 <= x < d2.len() implies #[trigger] heap_entry_ok(d2, h2, top, side, x) by {
        assert(heap_entry_ok(d, h, top, side, x));
    }
}

/// A change to a pair that keeps the distance of this search and the visited marks keeps the
/// heap of this search in order.
proof fn lemma_heap_other(
    d: Seq<(Weight, Weight)>,
    d2: Seq<(Weight, Weight)>,
    h: vstd::multiset::Multiset<(Weight, Node)>,
    top: Weight,
    side: bool,
    y: int,
    p: (Weight, Weight),
)
    requires
        d.len() <= usize::MAX,
        heap_ok(d, h, top, side),
        0 <= y < d.len(),
        d2 == d.update(y, p),
        own(p, side) == own(d[y], side),
        visited_by(p, side) == visited_by(d[y], side),
        visited_by(d[y], !side) ==> visited_by(p, !side),
    ensures
        heap_ok(d2, h, top, side),
{
    reveal(heap_ok);
    assert forall|x: int| 0 <= x < d2.len() implies #[trigger] heap_entry_ok(d2, h, top, side, x) by {
        assert(heap_entry_ok(d, h, top, side, x));
    }
}

/// The heap gave its smallest entry, which is out of date.
proof fn lemma_heap_pop_stale(
    d: Seq<(Weight, Weight)>,
    h: vstd::multiset::Multiset<(Weight, Node)>,
    h2: vstd::multiset::Multiset<(Weight, Node)>,
    top: Weight,
    side: bool,
    e: (Weight, Node),
)
    requires
        d.len() <= usize::MAX,
        heap_ok(d, h, top, side),
        h.count(e) > 0,
        h2 == h.remove(e),
        forall|o: (Weight, Node)| h.count(o) > 0 ==> e.0 <= o.0,
        own(d[e.1 as int], side) < e.0,
    ensures
        heap_ok(d, h2, e.0, side),
        h2.len() == h.len() - 1,
{
    reveal(heap_ok);
    assert forall|o: (Weight, Node)| #[trigger] h2.count(o) > 0 implies h.count(o) > 0 by {}
    assert forall|x: int| 0 <= x < d.len() implies #[trigger] heap_entry_ok(d, h2, e.0, side, x) by {
        assert(heap_entry_ok(d, h, top, side, x));
    }
}

/// The heap gave its smallest entry, which holds the distance of its node: the search
/// visits the node.
proof fn lemma_heap_pop_visit(
    d: Seq<(Weight, Weight)>,
    d2: Seq<(Weight, Weight)>,
    h: vstd::multiset::Multiset<(Weight, Node)>,
    h2: vstd::multiset::Multiset<(Weight, Node)>,
    top: Weight,
    side: bool,
    e: (Weight, Node),
)
    requires
        d.len() <= usize::MAX,
        heap_ok(d, h, top, side),
        h.count(e) > 0,
        h2 == h.remove(e),
        forall|o: (Weight, Node)| h.count(o) > 0 ==> e.0 <= o.0,
        !(own(d[e.1 as int], side) < e.0),
        d2 == d.update(e.1 as int, with_other(d[e.1 as int], side, -1i64)),
    ensures
        heap_ok(d2, h2, e.0, side),
        h2.len() == h.len() - 1,
        e.1 < d.len(),
        !visited_by(d[e.1 as int], side),
        !visited_by(d[e.1 as int], !side),
        own(d[e.1 as int], side) == e.0,
        recorded(e.0),
{
    reveal(heap_ok);
    let x = e.1 as int;
    assert(heap_entry_ok(d, h, top, side, x));
    assert forall|o: (Weight, Node)| #[trigger] h2.count(o) > 0 implies h.count(o) > 0 by {}
    assert forall|x2: int| 0 <= x2 < d2.len() implies #[trigger] heap_entry_ok(d2, h2, e.0, side, x2) by {
        assert(heap_entry_ok(d, h, top, side, x2));
    }
}

/// The other search visited a node: the distance of this search for it is gone.
proof fn lemma_heap_visit_other(
    d: Seq<(Weight, Weight)>,
    d2: Seq<(Weight, Weight)>,
    h: vstd::multiset::Multiset<(Weight, Node)>,
    top: Weight,
    side: bool,
    x: int,
)
    requires
        d.len() <= usize::MAX,
        heap_ok(d, h, top, side),
        0 <= x < d.len(),
        !visited_by(d[x], side),
        !visited_by(d[x], !side),
        d2 == d.update(x, with_own(d[x], side, -1i64)),
    ensures
        heap_ok(d2, h, top, side),
{
    reveal(heap_ok);
    assert forall|x2: int| 0 <= x2 < d2.len() implies #[trigger] heap_entry_ok(d2, h, top, side, x2) by {
        assert(heap_entry_ok(d, h, top, side, x2));
    }
}

/// A node got a new distance together with a walk of that length.
proof fn lemma_walks_set(
    g: &TwoDirGraph,
    s: Node,
    t: Node,
    d: Seq<(Weight, Weight)>,
    d2: Seq<(Weight, Weight)>,
    walks: Seq<Seq<Edge>>,
    walks2: Seq<Seq<Edge>>,
    side: bool,
    y: int,
    cost: Weight,
)
    requires
        walks_ok(g, s, t, d, walks, side),
        0 <= y < d.len(),
        walks.len() == d.len(),
        d2 == d.update(y, with_own(d[y], side, cost)),
        walks2 == walks.update(y, walks2[y]),
        recorded(cost),
        walk_to(g, s, t, walks2, side, y, cost),
    ensures
        walks_ok(g, s, t, d2, walks2, side),
{
    reveal(walks_ok);
    assert forall|x: int| 0 <= x < d2.len() implies #[trigger] walk_entry_ok(g, s, t, d2, walks2, side, x) by {
        assert(walk_entry_ok(g, s, t, d, walks, side, x));
    }
}

/// A change to a pair that keeps the distance of this search, or marks it with `-1`, keeps
/// the walks of this search in order.
proof fn lemma_walks_other(
    g: &TwoDirGraph,
    s: Node,
    t: Node,
    d: Seq<(Weight, Weight)>,
    d2: Seq<(Weight, Weight)>,
    walks: Seq<Seq<Edge>>,
    side: bool,
    y: int,
    p: (Weight, Weight),
)
    requires
        walks_ok(g, s, t, d, walks, side),
        0 <= y < d.len(),
        d2 == d.update(y, p),
        own(p, side) == own(d[y], side) || own(p, side) == -1,
    ensures
        walks_ok(g, s, t, d2, walks, side),
{
    reveal(walks_ok);
    assert forall|x: int| 0 <= x < d2.len() implies #[trigger] walk_entry_ok(g, s, t, d2, walks, side, x) by {
        assert(walk_entry_ok(g, s, t, d, walks, side, x));
    }
}

/// A pair that is itself in order may replace another.
proof fn lemma_pairs_set(d: Seq<(Weight, Weight)>, d2: Seq<(Weight, Weight)>, dmax: Weight, y: int, p: (Weight, Weight))
    requires
        pairs_ok(d, dmax),
        0 <= y < d.len(),
        d2 == d.update(y, p),
        !(visited_by(p, false) && visited_by(p, true)),
        recorded(p.0) && recorded(p.1) ==> p.0 + p.1 >= dmax,
    ensures
        pairs_ok(d2, dmax),
{
    reveal(pairs_ok);
    assert forall|x: int| 0 <= x < d2.len() implies #[trigger] pair_ok(d2, dmax, x) by {
        assert(pair_ok(d, dmax, x));
    }
}

/// The search visits `x`: its own blocks stay in order, and `x` starts with no edge settled.
proof fn lemma_blocks_visit_same(
    g: &TwoDirGraph,
    d: Seq<(Weight, Weight)>,
    d2: Seq<(Weight, Weight)>,
    dmax: Weight,
    side: bool,
    x: int,
    p: (Weight, Weight),
)
    requires
        g.wf(),
        g.is_feasible_spec(),
        d.len() == g.n_spec(),
        0 <= x < g.n_spec(),
        blocks_ok(g, d, dmax, side, -1, 0),
        !visited_by(d[x], side),
        !visited_by(d[x], !side),
        d2 == d.update(x, p),
        !visited_by(p, !side),
        own(p, side) == own(d[x], side),
    ensures
        blocks_ok(g, d2, dmax, side, x, 0),
{
    let lim = adj_limits(g, side);
    assert(is_adjacency(adj_edges(g, side), lim, g.n_spec(), side));
    assert forall|x2: int| 0 <= x2 < d2.len() implies #[trigger] node_ok(g, d2, dmax, side, x, 0, x2) by {
        if visited_by(d2[x2], side) && x2 != x {
            assert(node_ok(g, d, dmax, side, -1, 0, x2)) by {
                reveal(blocks_ok);
            }
            assert(lim[x2] <= lim[x2 + 1]);
            lemma_block_stable(g, d, d2, dmax, side, x2, lim[x2 + 1] - lim[x2], x, p);
        }
    }
    assert(blocks_ok(g, d2, dmax, side, x, 0)) by {
        reveal(blocks_ok);
    }
}

/// The other search visits `x`: an edge of this search that leads to `x` stays settled,
/// because the two distances of `x` added up to at least `dmax`.
proof fn lemma_settled_visit_other(
    g: &TwoDirGraph,
    d: Seq<(Weight, Weight)>,
    d2: Seq<(Weight, Weight)>,
    dmax: Weight,
    side: bool,
    x: int,
    p: (Weight, Weight),
    e: Edge,
)
    requires
        d.len() == g.n_spec(),
        0 <= x < g.n_spec(),
        key_of(e, side) < g.n_spec(),
        minor_of(e, side) < g.n_spec(),
        key_of(e, side) != x,
        reduced_weight(e, g.pi()) <= DISTANCE_LIMIT,
        recorded(own(d[key_of(e, side) as int], side)),
        settled(e, d, g.pi(), dmax, side),
        !visited_by(d[x], !side),
        d2 == d.update(x, p),
        own(p, side) == -1,
        own(p, !side) == own(d[x], !side),
        recorded(own(d[x], !side)),
        own(d[x], side) == MAX || recorded(own(d[x], side)),
        recorded(own(d[x], side)) ==> own(d[x], side) + own(d[x], !side) >= dmax,
    ensures
        settled(e, d2, g.pi(), dmax, side),
{
}

/// The other search visits `x`: the block of another node stays settled.
proof fn lemma_block_visit_other(
    g: &TwoDirGraph,
    d: Seq<(Weight, Weight)>,
    d2: Seq<(Weight, Weight)>,
    dmax: Weight,
    side: bool,
    x2: int,
    k: int,
    x: int,
    p: (Weight, Weight),
)
    requires
        g.wf(),
        g.is_feasible_spec(),
        d.len() == g.n_spec(),
        0 <= x < g.n_spec(),
        0 <= x2 < g.n_spec(),
        x2 != x,
        0 <= k <= adj_limits(g, side)[x2 + 1] - adj_limits(g, side)[x2],
        block_settled(g, d, dmax, side, x2, k),
        recorded(own(d[x2], side)),
        !visited_by(d[x], !side),
        d2 == d.update(x, p),
        own(p, side) == -1,
        own(p, !side) == own(d[x], !side),
        recorded(own(d[x], !side)),
        own(d[x], side) == MAX || recorded(own(d[x], side)),
        recorded(own(d[x], side)) ==> own(d[x], side) + own(d[x], !side) >= dmax,
    ensures
        block_settled(g, d2, dmax, side, x2, k),
{
    let lim = adj_limits(g, side);
    assert forall|j: int| lim[x2] <= j < lim[x2] + k implies #[trigger] settled_at(g, d2, dmax, side, j) by {
        lemma_adj_edge(g, side, x2, j - lim[x2]);
        assert(settled_at(g, d, dmax, side, j));
        lemma_settled_visit_other(g, d, d2, dmax, side, x, p, adj_edges(g, side)[j]);
    }
}

/// The other search visits `x`: the blocks of this search stay in order.
proof fn lemma_blocks_visit_other(
    g: &TwoDirGraph,
    d: Seq<(Weight, Weight)>,
    d2: Seq<(Weight, Weight)>,
    h: vstd::multiset::Multiset<(Weight, Node)>,
    top: Weight,
    dmax: Weight,
    side: bool,
    x: int,
    p: (Weight, Weight),
)
    requires
        g.wf(),
        g.is_feasible_spec(),
        d.len() == g.n_spec(),
        0 <= x < g.n_spec(),
        blocks_ok(g, d, dmax, side, -1, 0),
        heap_ok(d, h, top, side),
        !visited_by(d[x], side),
        !visited_by(d[x], !side),
        d2 == d.update(x, p),
        own(p, side) == -1,
        own(p, !side) == own(d[x], !side),
        recorded(own(d[x], !side)),
        own(d[x], side) == MAX || recorded(own(d[x], side)),
        recorded(own(d[x], side)) ==> own(d[x], side) + own(d[x], !side) >= dmax,
    ensures
        blocks_ok(g, d2, dmax, side, -1, 0),
{
    let lim = adj_limits(g, side);
    assert(is_adjacency(adj_edges(g, side), lim, g.n_spec(), side));
    assert forall|x2: int| 0 <= x2 < d2.len() implies #[trigger] node_ok(g, d2, dmax, side, -1, 0, x2) by {
        if visited_by(d2[x2], side) {
            assert(x2 != x);
            assert(node_ok(g, d, dmax, side, -1, 0, x2)) by {
                reveal(blocks_ok);
            }
            assert(recorded(own(d[x2], side))) by {
                reveal(heap_ok);
                assert(heap_entry_ok(d, h, top, side, x2));
            }
            assert(lim[x2] <= lim[x2 + 1]);
            lemma_block_visit_other(g, d, d2, dmax, side, x2, lim[x2 + 1] - lim[x2], x, p);
        }
    }
    assert(blocks_ok(g, d2, dmax, side, -1, 0)) by {
        reveal(blocks_ok);
    }
}


/// The bookkeeping after the walk of `y` was replaced by the walk of `x` and the edge `e`.
pub open spec fn with_walk(st: BiSearch, x: int, y: int, e: Edge) -> BiSearch {
    if st.side {
        BiSearch { walks_back: st.walks_back.update(y, seq![e] + st.walks_back[x]), progress: st.progress + 1, ..st }
    } else {
        BiSearch { walks: st.walks.update(y, st.walks[x].push(e)), progress: st.progress + 1, ..st }
    }
}

/// An edge from a node that this search has visited to one that the other search has
/// visited is settled for this search, because it is for the other.
proof fn lemma_cross_settled(g: &TwoDirGraph, d: Seq<(Weight, Weight)>, dmax: Weight, side: bool, e: Edge)
    requires
        g.wf(),
        d.len() == g.n_spec(),
        blocks_ok(g, d, dmax, !side, -1, 0),
        g.edges_spec().contains(e),
        visited_by(d[minor_of(e, side) as int], !side),
        visited_by(d[key_of(e, side) as int], side),
    ensures
        settled(e, d, g.pi(), dmax, side),
{
    let j = lemma_edge_index(g, !side, e);
    let y = minor_of(e, side) as int;
    reveal(blocks_ok);
    assert(node_ok(g, d, dmax, !side, -1, 0, y));
    assert(settled_at(g, d, dmax, !side, j));
}

impl BiDijkstra {
    /// The far end of the edge under relaxation is no farther than the edge allows: the edge
    /// is settled and only the progress moves on.
    proof fn lemma_step_skip(
        pre: BiDijkstra,
        post: BiDijkstra,
        g: &TwoDirGraph,
        s: Node,
        t: Node,
        dmax: Weight,
        st: BiSearch,
        cost: Weight,
    ) -> (st2: BiSearch)
        requires
            searchable(g, s, t, dmax),
            pre.inv(g, s, t, dmax, st),
            st.node >= 0,
            st.progress < adj_limits(g, st.side)[st.node + 1] - adj_limits(g, st.side)[st.node],
            cost == own(pre.visit_states.states_spec()[st.node], st.side) + reduced_weight(
                adj_edge(g, st.side, st.node, st.progress),
                g.pi(),
            ),
            queue_answer(
                pre.visit_states.states_spec()[minor_of(
                    adj_edge(g, st.side, st.node, st.progress),
                    st.side,
                ) as int],
                st.side,
                cost,
                dmax,
            ) == Some(false),
            post.visit_states.wf(),
            post.visit_states.states_spec() == pre.visit_states.states_spec(),
            post.heapf == pre.heapf,
            post.heapb == pre.heapb,
        ensures
            st2 == (BiSearch { progress: st.progress + 1, ..st }),
            post.inv(g, s, t, dmax, st2),
    {
        let bw = st.side;
        let x = st.node;
        let e = adj_edge(g, bw, x, st.progress);
        let y = minor_of(e, bw) as int;
        let d = pre.visit_states.states_spec();
        let st2 = BiSearch { progress: st.progress + 1, ..st };
        pre.lemma_facts(g, s, t, dmax, st);
        assert(settled(e, d, g.pi(), dmax, bw)) by {
            if visited_by(d[y], !bw) {
                lemma_cross_settled(g, d, dmax, bw, e);
            }
        }
        lemma_blocks_advance(g, d, dmax, bw, x, st.progress);
        st2
    }

    /// The far end of the edge under relaxation got a new distance and went on the heap.
    proof fn lemma_step_push(
        pre: BiDijkstra,
        post: BiDijkstra,
        g: &TwoDirGraph,
        s: Node,
        t: Node,
        dmax: Weight,
        st: BiSearch,
        cost: Weight,
    ) -> (st2: BiSearch)
        requires
            searchable(g, s, t, dmax),
            pre.inv(g, s, t, dmax, st),
            st.node >= 0,
            st.progress < adj_limits(g, st.side)[st.node + 1] - adj_limits(g, st.side)[st.node],
            cost == own(pre.visit_states.states_spec()[st.node], st.side) + reduced_weight(
                adj_edge(g, st.side, st.node, st.progress),
                g.pi(),
            ),
            queue_answer(
                pre.visit_states.states_spec()[minor_of(
                    adj_edge(g, st.side, st.node, st.progress),
                    st.side,
                ) as int],
                st.side,
                cost,
                dmax,
            ) == Some(true),
            post.visit_states.wf(),
            post.visit_states.states_spec() == pre.visit_states.states_spec().update(
                minor_of(adj_edge(g, st.side, st.node, st.progress), st.side) as int,
                with_own(
                    pre.visit_states.states_spec()[minor_of(
                        adj_edge(g, st.side, st.node, st.progress),
                        st.side,
                    ) as int],
                    st.side,
                    cost,
                ),
            ),
            post.heap_of(st.side).wf(),
            post.heap_of(st.side)@ == pre.heap_of(st.side)@.insert(
                (cost, minor_of(adj_edge(g, st.side, st.node, st.progress), st.side)),
            ),
            post.heap_of(st.side).top_spec() == pre.heap_of(st.side).top_spec(),
            post.heap_of(!st.side) == pre.heap_of(!st.side),
        ensures
            st2 == with_walk(
                st,
                st.node,
                minor_of(adj_edge(g, st.side, st.node, st.progress), st.side) as int,
                adj_edge(g, st.side, st.node, st.progress),
            ),
            post.inv(g, s, t, dmax, st2),
            visited(post.visit_states.states_spec(), false) == visited(
                pre.visit_states.states_spec(),
                false,
            ),
            visited(post.visit_states.states_spec(), true) == visited(
                pre.visit_states.states_spec(),
                true,
            ),
    {
        let bw = st.side;
        let x = st.node;
        let e = adj_edge(g, bw, x, st.progress);
        let y = minor_of(e, bw) as int;
        let c = reduced_weight(e, g.pi());
        let d = pre.visit_states.states_spec();
        let d2 = post.visit_states.states_spec();
        let p = with_own(d[y], bw, cost);
        let n = g.n_spec();
        let st2 = with_walk(st, x, y, e);
        pre.lemma_facts(g, s, t, dmax, st);
        let top = pre.heap_of(bw).top_spec();
        // the far end is visited by neither search
        assert(!visited_by(d[y], bw)) by {
            reveal(heap_ok);
            assert(heap_entry_ok(d, pre.heap_of(bw)@, top, bw, y));
        }
        assert(!visited_by(d[y], !bw));
        assert(y != x);
        // walks
        let walks_own = if bw { st.walks_back } else { st.walks };
        let walks_own2 = if bw { st2.walks_back } else { st2.walks };
        assert(walk_to(g, s, t, walks_own, bw, x, own(d[x], bw))) by {
            reveal(walks_ok);
            assert(walk_entry_ok(g, s, t, d, walks_own, bw, x));
        }
        if bw {
            lemma_walk_prepend(g.edges_spec(), e, st.walks_back[x], t as int);
        } else {
            lemma_walk_push(g.edges_spec(), st.walks[x], s as int, e);
        }
        lemma_walks_set(g, s, t, d, d2, walks_own, walks_own2, bw, y, cost);
        let walks_far = if bw { st.walks } else { st.walks_back };
        lemma_walks_other(g, s, t, d, d2, walks_far, !bw, y, p);
        // heaps
        lemma_heap_push(d, d2, pre.heap_of(bw)@, post.heap_of(bw)@, top, bw, y, cost);
        lemma_heap_other(d, d2, pre.heap_of(!bw)@, pre.heap_of(!bw).top_spec(), !bw, y, p);
        // blocks
        lemma_blocks_lower(g, d, d2, dmax, bw, x, st.progress, y, p);
        lemma_blocks_lower(g, d, d2, dmax, !bw, -1, 0, y, p);
        assert(settled(e, d2, g.pi(), dmax, bw));
        lemma_blocks_advance(g, d2, dmax, bw, x, st.progress);
        // pairs
        lemma_pairs_set(d, d2, dmax, y, p);
        // heap sizes
        assert(done_nodes(d2, bw, x) =~= done_nodes(d, bw, x));
        assert(done_nodes(d2, !bw, -1) =~= done_nodes(d, !bw, -1));
        // the source and the target
        assert(s != y || st.fresh_f) by {
            if !st.fresh_f && s == y {
                assert(visited_by(d[s as int], false));
            }
        }
        assert(visited(d2, false) =~= visited(d, false));
        assert(visited(d2, true) =~= visited(d, true));
        st2
    }

    /// The far end of the edge under relaxation is closer to the other search than
    /// `max_distance` allows: the two recorded walks, joined, are shorter than that.
    proof fn lemma_step_reject(self, g: &TwoDirGraph, s: Node, t: Node, dmax: Weight, st: BiSearch, cost: Weight)
        requires
            searchable(g, s, t, dmax),
            self.inv(g, s, t, dmax, st),
            st.node >= 0,
            st.progress < adj_limits(g, st.side)[st.node + 1] - adj_limits(g, st.side)[st.node],
            cost == own(self.visit_states.states_spec()[st.node], st.side) + reduced_weight(
                adj_edge(g, st.side, st.node, st.progress),
                g.pi(),
            ),
            queue_answer(
                self.visit_states.states_spec()[minor_of(
                    adj_edge(g, st.side, st.node, st.progress),
                    st.side,
                ) as int],
                st.side,
                cost,
                dmax,
            ) == None::<bool>,
        ensures
            closer_than(g.edges_spec(), g.pi(), s as int, t as int, dmax as int),
    {
        let bw = st.side;
        let x = st.node;
        let e = adj_edge(g, bw, x, st.progress);
        let y = minor_of(e, bw) as int;
        let d = self.visit_states.states_spec();
        self.lemma_facts(g, s, t, dmax, st);
        let top = self.heap_of(bw).top_spec();
        assert(!visited_by(d[y], bw)) by {
            reveal(heap_ok);
            assert(heap_entry_ok(d, self.heap_of(bw)@, top, bw, y));
        }
        let edges = g.edges_spec();
        let pi = g.pi();
        reveal(walks_ok);
        assert(walk_entry_ok(g, s, t, d, st.walks, false, x));
        assert(walk_entry_ok(g, s, t, d, st.walks_back, true, x));
        assert(walk_entry_ok(g, s, t, d, st.walks, false, y));
        assert(walk_entry_ok(g, s, t, d, st.walks_back, true, y));
        if bw {
            lemma_walk_prepend(edges, e, st.walks_back[x], t as int);
            let back = seq![e] + st.walks_back[x];
            let front = st.walks[y];
            lemma_walk_concat(edges, front, back, s as int, y, t as int);
            assert(is_walk(edges, front + back, s as int, t as int));
            assert(reduced_length(pi, front + back, s as int, t as int) < dmax);
        } else {
            lemma_walk_push(edges, st.walks[x], s as int, e);
            let front = st.walks[x].push(e);
            let back = st.walks_back[y];
            lemma_walk_concat(edges, front, back, s as int, y, t as int);
            assert(is_walk(edges, front + back, s as int, t as int));
            assert(reduced_length(pi, front + back, s as int, t as int) < dmax);
        }
    }

    /// All edges of the current node are settled: the node is done.
    proof fn lemma_step_finish(self, g: &TwoDirGraph, s: Node, t: Node, dmax: Weight, st: BiSearch) -> (st2:
        BiSearch)
        requires
            searchable(g, s, t, dmax),
            self.inv(g, s, t, dmax, st),
            st.node >= 0,
            st.progress == adj_limits(g, st.side)[st.node + 1] - adj_limits(g, st.side)[st.node],
        ensures
            st2 == (BiSearch { node: -1, progress: 0, ..st }),
            self.inv(g, s, t, dmax, st2),
    {
        let st2 = BiSearch { node: -1, progress: 0, ..st };
        let bw = st.side;
        let d = self.visit_states.states_spec();
        let n = g.n_spec();
        lemma_blocks_switch(g, d, dmax, bw, st.node, st.progress);
        assert(done_nodes(d, bw, -1) =~= done_nodes(d, bw, st.node).update(st.node, true));
        lemma_marked_degree_set(done_nodes(d, bw, st.node), adj_limits(g, bw), st.node, n);
        st2
    }

    /// The heap gave an entry that is out of date: nothing else changes.
    proof fn lemma_pop_stale(
        pre: BiDijkstra,
        post: BiDijkstra,
        g: &TwoDirGraph,
        s: Node,
        t: Node,
        dmax: Weight,
        st: BiSearch,
        side: bool,
        e: (Weight, Node),
    )
        requires
            searchable(g, s, t, dmax),
            pre.inv(g, s, t, dmax, st),
            st.node == -1,
            pre.heap_of(side)@.count(e) > 0,
            forall|o: (Weight, Node)| pre.heap_of(side)@.count(o) > 0 ==> e.0 <= o.0,
            post.heap_of(side).wf(),
            post.heap_of(side)@ == pre.heap_of(side)@.remove(e),
            post.heap_of(side).top_spec() == e.0,
            post.heap_of(!side) == pre.heap_of(!side),
            post.visit_states == pre.visit_states,
            e.1 < g.n_spec(),
            own(pre.visit_states.states_spec()[e.1 as int], side) < e.0,
            e.0 + pre.heap_of(!side).top_spec() < dmax,
        ensures
            post.inv(g, s, t, dmax, st),
            post.heap_of(side)@.len() == pre.heap_of(side)@.len() - 1,
    {
        let d = pre.visit_states.states_spec();
        lemma_heap_pop_stale(d, pre.heap_of(side)@, post.heap_of(side)@, pre.heap_of(side).top_spec(), side, e);
        assert(!(if side { st.fresh_b } else { st.fresh_f })) by {
            if side {
                if st.fresh_b {
                    assert(e == (0 as Weight, t));
                }
            } else {
                if st.fresh_f {
                    assert(e == (0 as Weight, s));
                }
            }
        }
    }

    /// The heap gave the entry that holds the distance of its node: the search visits the
    /// node, which becomes the current one.
    proof fn lemma_pop_visit(
        pre: BiDijkstra,
        post: BiDijkstra,
        g: &TwoDirGraph,
        s: Node,
        t: Node,
        dmax: Weight,
        st: BiSearch,
        side: bool,
        e: (Weight, Node),
    ) -> (st2: BiSearch)
        requires
            searchable(g, s, t, dmax),
            pre.inv(g, s, t, dmax, st),
            st.node == -1,
            if side {
                !st.fresh_f
            } else {
                st.fresh_b ==> st.fresh_f
            },
            pre.heap_of(side)@.count(e) > 0,
            forall|o: (Weight, Node)| pre.heap_of(side)@.count(o) > 0 ==> e.0 <= o.0,
            post.heap_of(side).wf(),
            post.heap_of(side)@ == pre.heap_of(side)@.remove(e),
            post.heap_of(side).top_spec() == e.0,
            post.heap_of(!side) == pre.heap_of(!side),
            e.1 < g.n_spec(),
            !(own(pre.visit_states.states_spec()[e.1 as int], side) < e.0),
            e.0 + pre.heap_of(!side).top_spec() < dmax,
            post.visit_states.wf(),
            post.visit_states.states_spec() == pre.visit_states.states_spec().update(
                e.1 as int,
                with_other(pre.visit_states.states_spec()[e.1 as int], side, -1i64),
            ),
        ensures
            st2 == (BiSearch {
                node: e.1 as int,
                side: side,
                progress: 0,
                fresh_f: if side {
                    st.fresh_f
                } else {
                    false
                },
                fresh_b: if side {
                    false
                } else {
                    st.fresh_b
                },
                ..st
            }),
            post.inv(g, s, t, dmax, st2),
            marked_count(visited(post.visit_states.states_spec(), false), g.n_spec()) + marked_count(
                visited(post.visit_states.states_spec(), true),
                g.n_spec(),
            ) == marked_count(visited(pre.visit_states.states_spec(), false), g.n_spec())
                + marked_count(visited(pre.visit_states.states_spec(), true), g.n_spec()) + 1,
    {
        let d = pre.visit_states.states_spec();
        let d2 = post.visit_states.states_spec();
        let x = e.1 as int;
        let p = with_other(d[x], side, -1i64);
        let n = g.n_spec();
        let st2 = BiSearch {
            node: x,
            side: side,
            progress: 0,
            fresh_f: if side {
                st.fresh_f
            } else {
                false
            },
            fresh_b: if side {
                false
            } else {
                st.fresh_b
            },
            ..st
        };
        let h = pre.heap_of(side)@;
        let top = pre.heap_of(side).top_spec();
        let hf = pre.heap_of(!side)@;
        let topf = pre.heap_of(!side).top_spec();
        lemma_heap_pop_visit(d, d2, h, post.heap_of(side)@, top, side, e);
        assert(p == with_own(d[x], !side, -1i64));
        lemma_heap_visit_other(d, d2, hf, topf, !side, x);
        let walks_own = if side { st.walks_back } else { st.walks };
        let walks_far = if side { st.walks } else { st.walks_back };
        lemma_walks_other(g, s, t, d, d2, walks_own, side, x, p);
        lemma_walks_other(g, s, t, d, d2, walks_far, !side, x, p);
        lemma_blocks_visit_same(g, d, d2, dmax, side, x, p);
        assert(own(d[x], !side) == MAX || recorded(own(d[x], !side))) by {
            reveal(walks_ok);
            assert(walk_entry_ok(g, s, t, d, walks_far, !side, x));
        }
        assert(recorded(own(d[x], !side)) ==> own(d[x], !side) + own(d[x], side) >= dmax) by {
            reveal(pairs_ok);
            assert(pair_ok(d, dmax, x));
        }
        lemma_blocks_visit_other(g, d, d2, hf, topf, dmax, !side, x, p);
        lemma_pairs_set(d, d2, dmax, x, p);
        assert(done_nodes(d2, side, x) =~= done_nodes(d, side, -1));
        assert(done_nodes(d2, !side, -1) =~= done_nodes(d, !side, -1));
        assert(post.heap_of(side)@.len() == h.len() - 1);
        // the source and the target
        if side {
            if st.fresh_b {
                assert(e == (0 as Weight, t));
            } else {
                assert(visited_by(d[t as int], true));
            }
            assert(visited_by(d[s as int], false));
        } else {
            if st.fresh_f {
                assert(e == (0 as Weight, s));
            } else {
                assert(visited_by(d[s as int], false));
                assert(visited_by(d[t as int], true));
            }
        }
        // one more node is visited
        assert(visited(d2, side) =~= visited(d, side).update(x, true));
        assert(visited(d2, !side) =~= visited(d, !side));
        lemma_marked_count_set(visited(d, side), x, n);
        st2
    }
}


/// Some walk from `from` to `to` has the reduced length `d`.
pub open spec fn reaches_in(edges: Seq<Edge>, pi: Seq<int>, from: int, to: int, d: int) -> bool {
    exists|p: Seq<Edge>| #[trigger] is_walk(edges, p, from, to) && reduced_length(pi, p, from, to) == d
}

/// By how much the potential of a node with the pair `p` moves when the proposal is
/// accepted: up by `df` less its distance where the forward search has visited it, down by
/// `db` less its distance where the backward search has.
pub open spec fn shift_of(p: (Weight, Weight), df: int, db: int) -> int {
    if visited_by(p, false) {
        df - p.0
    } else if visited_by(p, true) {
        p.1 - db
    } else {
        0
    }
}

/// The potentials after every node has moved by its shift.
pub open spec fn shifted(pi: Seq<int>, d: Seq<(Weight, Weight)>, df: int, db: int) -> Seq<int> {
    Seq::new(pi.len(), |x: int| pi[x] + shift_of(d[x], df, db))
}

/// What the searches have recorded for `x` at the end fits the frontier distances.
pub open spec fn final_entry(g: &TwoDirGraph, d: Seq<(Weight, Weight)>, s: Node, t: Node, df: int, db: int, x: int) -> bool {
    &&& !(visited_by(d[x], false) && visited_by(d[x], true))
    &&& visited_by(d[x], false) ==> 0 <= d[x].0 <= df && reaches_in(
        g.edges_spec(),
        g.pi(),
        s as int,
        x,
        d[x].0 as int,
    )
    &&& visited_by(d[x], true) ==> 0 <= d[x].1 <= db && reaches_in(
        g.edges_spec(),
        g.pi(),
        x,
        t as int,
        d[x].1 as int,
    )
}

/// The state in which the searches ended justifies the acceptance of the proposal with the
/// frontier distances `df` and `db`.
pub open spec fn certified(g: &TwoDirGraph, d: Seq<(Weight, Weight)>, s: Node, t: Node, dmax: Weight, df: int, db: int) -> bool {
    &&& d.len() == g.n_spec()
    &&& df + db == dmax
    &&& forall|x: int| 0 <= x < d.len() ==> #[trigger] final_entry(g, d, s, t, df, db, x)
    &&& feasible(g.edges_spec(), shifted(g.pi(), d, df, db))
    &&& dmax > 0 ==> d[s as int] == (0 as Weight, -1 as Weight) && d[t as int] == (-1 as Weight, 0 as Weight)
}

/// By how much the potential of `x` moves according to the reported tree.
pub open spec fn tree_shift(tree: Seq<(Node, Weight)>, n: int, df: int, db: int, x: int) -> int {
    if exists|i: int| 0 <= i < tree.len() && (#[trigger] tree[i]).0 == x {
        let i = choose|i: int| 0 <= i < tree.len() && (#[trigger] tree[i]).0 == x;
        df - tree[i].1
    } else if exists|i: int| 0 <= i < tree.len() && (#[trigger] tree[i]).0 == x + n {
        let i = choose|i: int| 0 <= i < tree.len() && (#[trigger] tree[i]).0 == x + n;
        tree[i].1 - db
    } else {
        0
    }
}

/// The potentials after the rebalancing that the reported tree asks for.
pub open spec fn rebalanced(pi: Seq<int>, tree: Seq<(Node, Weight)>, df: int, db: int) -> Seq<int> {
    Seq::new(pi.len(), |x: int| pi[x] + tree_shift(tree, pi.len() as int, df, db, x))
}

/// An entry of the reported tree is in order: a node below `n` was visited forward, lies
/// within `df` of the source and is not reported as visited backward too; a node from `n` on
/// stands for one visited backward, within `db` of the target.
pub open spec fn tree_entry(
    tree: Seq<(Node, Weight)>,
    edges: Seq<Edge>,
    pi: Seq<int>,
    s: int,
    t: int,
    df: int,
    db: int,
    i: int,
) -> bool {
    let n = pi.len() as int;
    &&& tree[i].0 < 2 * n
    &&& 0 <= tree[i].1
    &&& tree[i].0 < n ==> {
        &&& tree[i].1 <= df
        &&& reaches_in(edges, pi, s, tree[i].0 as int, tree[i].1 as int)
        &&& forall|j: int| 0 <= j < tree.len() ==> (#[trigger] tree[j]).0 != tree[i].0 + n
    }
    &&& tree[i].0 >= n ==> {
        &&& tree[i].1 <= db
        &&& reaches_in(edges, pi, tree[i].0 - n, t, tree[i].1 as int)
    }
}

/// The frontier distances `df` and `db` are the distances that the two searches popped last,
/// but for one of them, which is tightened to what the other leaves of `dmax`.
pub open spec fn is_tightened(df: Weight, db: Weight, dmax: Weight, popped_f: Weight, popped_b: Weight) -> bool {
    ||| db == popped_b && df == dmax - db
    ||| df == popped_f && db == dmax - df
}

/// `tree` lists, once each, exactly what the record of the visited nodes reports: a node
/// visited in the forward-search with its distance from the source, one visited in the
/// backward-search as `node + n` with its distance to the target.
pub open spec fn is_report(tree: Seq<(Node, Weight)>, visits: VisitedDistances) -> bool {
    &&& forall|i: int| 0 <= i < tree.len() ==> visits.reported(#[trigger] tree[i])
    &&& forall|i: int, j: int| 0 <= i < j < tree.len() ==> (#[trigger] tree[i]).0 != (#[trigger] tree[j]).0
    &&& forall|e: (Node, Weight)| #[trigger] visits.reported(e) ==> tree.contains(e)
}

/// What an accepting run reports: frontier distances that add up to `dmax`, and a tree of
/// visited nodes such that the rebalanced potentials are feasible. Where `dmax` is positive,
/// the source and the target are in the tree, at distance `0` each.
pub open spec fn is_acceptance(
    tree: Seq<(Node, Weight)>,
    df: Weight,
    db: Weight,
    edges: Seq<Edge>,
    pi: Seq<int>,
    s: int,
    t: int,
    dmax: Weight,
) -> bool {
    &&& df + db == dmax
    &&& forall|i: int, j: int| 0 <= i < j < tree.len() ==> (#[trigger] tree[i]).0 != (#[trigger] tree[j]).0
    &&& forall|i: int| 0 <= i < tree.len() ==> #[trigger] tree_entry(tree, edges, pi, s, t, df as int, db as int, i)
    &&& feasible(edges, rebalanced(pi, tree, df as int, db as int))
    &&& dmax > 0 ==> tree.contains((s as usize, 0 as Weight)) && tree.contains(
        ((t + pi.len()) as usize, 0 as Weight),
    )
}

/// Where a run accepts, no walk from the source to the target is shorter than
/// `max_distance`.
pub proof fn lemma_acceptance_is_sound(
    tree: Seq<(Node, Weight)>,
    df: Weight,
    db: Weight,
    edges: Seq<Edge>,
    pi: Seq<int>,
    s: int,
    t: int,
    dmax: Weight,
)
    requires
        is_acceptance(tree, df, db, edges, pi, s, t, dmax),
        feasible(edges, pi),
        0 <= s < pi.len(),
        0 <= t < pi.len(),
        2 * pi.len() <= usize::MAX,
    ensures
        !closer_than(edges, pi, s, t, dmax as int),
{
    let n = pi.len() as int;
    assert forall|p: Seq<Edge>| #[trigger] is_walk(edges, p, s, t) implies reduced_length(pi, p, s, t)
        >= dmax by {
        lemma_feasible_walk(edges, pi, p, s, t);
        if dmax > 0 {
            let pi2 = rebalanced(pi, tree, df as int, db as int);
            lemma_feasible_walk(edges, pi2, p, s, t);
            let a = choose|i: int| 0 <= i < tree.len() && tree[i] == (s as usize, 0 as Weight);
            let b = choose|i: int| 0 <= i < tree.len() && tree[i] == ((t + n) as usize, 0 as Weight);
            assert(tree[a].0 == s);
            assert(tree[b].0 == t + n);
            let a2 = choose|i: int| 0 <= i < tree.len() && (#[trigger] tree[i]).0 == s;
            assert(a2 == a);
            assert(tree_shift(tree, n, df as int, db as int, s) == df);
            if exists|i: int| 0 <= i < tree.len() && (#[trigger] tree[i]).0 == t {
                let c = choose|i: int| 0 <= i < tree.len() && (#[trigger] tree[i]).0 == t;
                assert(tree_entry(tree, edges, pi, s, t, df as int, db as int, c));
                assert(tree[b].0 != tree[c].0 + n);
            }
            let b2 = choose|i: int| 0 <= i < tree.len() && (#[trigger] tree[i]).0 == t + n;
            assert(b2 == b);
            assert(tree_shift(tree, n, df as int, db as int, t) == -db);
        }
    }
}

/// Where a run with a positive bound accepts, the source rises by `df` and the target sinks
/// by `db`.
pub proof fn lemma_acceptance_ends(
    tree: Seq<(Node, Weight)>,
    df: Weight,
    db: Weight,
    edges: Seq<Edge>,
    pi: Seq<int>,
    s: int,
    t: int,
    dmax: Weight,
)
    requires
        is_acceptance(tree, df, db, edges, pi, s, t, dmax),
        dmax > 0,
        0 <= s < pi.len(),
        0 <= t < pi.len(),
        2 * pi.len() <= usize::MAX,
    ensures
        tree_shift(tree, pi.len() as int, df as int, db as int, s) == df,
        tree_shift(tree, pi.len() as int, df as int, db as int, t) == -db,
        0 <= df <= dmax,
        0 <= db <= dmax,
{
    let n = pi.len() as int;
    let a = choose|i: int| 0 <= i < tree.len() && tree[i] == (s as usize, 0 as Weight);
    let b = choose|i: int| 0 <= i < tree.len() && tree[i] == ((t + n) as usize, 0 as Weight);
    assert(tree[a].0 == s);
    assert(tree[b].0 == t + n);
    assert(tree_entry(tree, edges, pi, s, t, df as int, db as int, a));
    assert(tree_entry(tree, edges, pi, s, t, df as int, db as int, b));
    let a2 = choose|i: int| 0 <= i < tree.len() && (#[trigger] tree[i]).0 == s;
    assert(a2 == a);
    if exists|i: int| 0 <= i < tree.len() && (#[trigger] tree[i]).0 == t {
        let c = choose|i: int| 0 <= i < tree.len() && (#[trigger] tree[i]).0 == t;
        assert(tree_entry(tree, edges, pi, s, t, df as int, db as int, c));
        assert(tree[b].0 != tree[c].0 + n);
    }
    let b2 = choose|i: int| 0 <= i < tree.len() && (#[trigger] tree[i]).0 == t + n;
    assert(b2 == b);
}

/// What an accepting run with a positive bound reports is exact: the distance of a node in
/// the forward tree is the length of a shortest walk from the source to it, that of a node
/// in the backward tree the length of a shortest walk from it to the target; and a node
/// that is in neither tree lies no closer than `df` behind the source and no closer than
/// `db` before the target.
pub proof fn lemma_acceptance_distances(
    tree: Seq<(Node, Weight)>,
    df: Weight,
    db: Weight,
    edges: Seq<Edge>,
    pi: Seq<int>,
    s: int,
    t: int,
    dmax: Weight,
)
    requires
        is_acceptance(tree, df, db, edges, pi, s, t, dmax),
        dmax > 0,
        0 <= s < pi.len(),
        0 <= t < pi.len(),
        2 * pi.len() <= usize::MAX,
    ensures
        forall|i: int|
            0 <= i < tree.len() && (#[trigger] tree[i]).0 < pi.len() ==> is_distance(
                edges,
                pi,
                s,
                tree[i].0 as int,
                tree[i].1 as int,
            ),
        forall|i: int|
            0 <= i < tree.len() && (#[trigger] tree[i]).0 >= pi.len() ==> is_distance(
                edges,
                pi,
                tree[i].0 - pi.len(),
                t,
                tree[i].1 as int,
            ),
        forall|x: int, p: Seq<Edge>|
            0 <= x < pi.len() && tree_shift(tree, pi.len() as int, df as int, db as int, x) == 0 && #[trigger] is_walk(
                edges,
                p,
                s,
                x,
            ) ==> reduced_length(pi, p, s, x) >= df,
        forall|x: int, p: Seq<Edge>|
            0 <= x < pi.len() && tree_shift(tree, pi.len() as int, df as int, db as int, x) == 0 && #[trigger] is_walk(
                edges,
                p,
                x,
                t,
            ) ==> reduced_length(pi, p, x, t) >= db,
{
    let n = pi.len() as int;
    let pi2 = rebalanced(pi, tree, df as int, db as int);
    lemma_acceptance_ends(tree, df, db, edges, pi, s, t, dmax);
    assert forall|x: int, p: Seq<Edge>| 0 <= x < n && #[trigger] is_walk(edges, p, s, x) implies reduced_length(
        pi,
        p,
        s,
        x,
    ) >= df - tree_shift(tree, n, df as int, db as int, x) by {
        lemma_feasible_walk(edges, pi2, p, s, x);
    }
    assert forall|x: int, p: Seq<Edge>| 0 <= x < n && #[trigger] is_walk(edges, p, x, t) implies reduced_length(
        pi,
        p,
        x,
        t,
    ) >= tree_shift(tree, n, df as int, db as int, x) + db by {
        lemma_feasible_walk(edges, pi2, p, x, t);
    }
    assert forall|i: int| 0 <= i < tree.len() && (#[trigger] tree[i]).0 < n implies is_distance(
        edges,
        pi,
        s,
        tree[i].0 as int,
        tree[i].1 as int,
    ) by {
        let x = tree[i].0 as int;
        assert(tree_entry(tree, edges, pi, s, t, df as int, db as int, i));
        let k = choose|k: int| 0 <= k < tree.len() && (#[trigger] tree[k]).0 == x;
        assert(k == i);
        assert(tree_shift(tree, n, df as int, db as int, x) == df - tree[i].1);
    }
    assert forall|i: int| 0 <= i < tree.len() && (#[trigger] tree[i]).0 >= n implies is_distance(
        edges,
        pi,
        tree[i].0 - n,
        t,
        tree[i].1 as int,
    ) by {
        let x = tree[i].0 - n;
        assert(tree_entry(tree, edges, pi, s, t, df as int, db as int, i));
        if exists|k: int| 0 <= k < tree.len() && (#[trigger] tree[k]).0 == x {
            let k = choose|k: int| 0 <= k < tree.len() && (#[trigger] tree[k]).0 == x;
            assert(tree_entry(tree, edges, pi, s, t, df as int, db as int, k));
            assert(tree[i].0 != tree[k].0 + n);
        }
        let k = choose|k: int| 0 <= k < tree.len() && (#[trigger] tree[k]).0 == x + n;
        assert(k == i);
        assert(tree_shift(tree, n, df as int, db as int, x) == tree[i].1 - db);
    }
}

/// The tree that `get_distances` reports for a certified state is an acceptance.
proof fn lemma_tree(
    g: &TwoDirGraph,
    vs: VisitedDistances,
    s: Node,
    t: Node,
    dmax: Weight,
    df: Weight,
    db: Weight,
    tree: Seq<(Node, Weight)>,
)
    requires
        g.wf(),
        s < g.n_spec(),
        t < g.n_spec(),
        vs.wf(),
        certified(g, vs.states_spec(), s, t, dmax, df as int, db as int),
        forall|i: int| 0 <= i < tree.len() ==> vs.reported(#[trigger] tree[i]),
        forall|i: int, j: int| 0 <= i < j < tree.len() ==> (#[trigger] tree[i]).0 != (#[trigger] tree[j]).0,
        forall|x: int|
            0 <= x < vs.n_spec() ==> match VisitedDistances::report(
                x,
                #[trigger] vs.states_spec()[x],
                vs.n_spec(),
            ) {
                Some(e) => tree.contains(e),
                None => true,
            },
    ensures
        is_acceptance(tree, df, db, g.edges_spec(), g.pi(), s as int, t as int, dmax),
{
    let d = vs.states_spec();
    let n = g.n_spec();
    let pi = g.pi();
    let edges = g.edges_spec();
    vs.lemma_bounded();
    assert forall|x: int| 0 <= x < n implies tree_shift(tree, n, df as int, db as int, x) == shift_of(
        d[x],
        df as int,
        db as int,
    ) by {
        assert(final_entry(g, d, s, t, df as int, db as int, x));
        let r = VisitedDistances::report(x, d[x], n);
        if exists|i: int| 0 <= i < tree.len() && (#[trigger] tree[i]).0 == x {
            let i = choose|i: int| 0 <= i < tree.len() && (#[trigger] tree[i]).0 == x;
            assert(vs.reported(tree[i]));
            let x2 = choose|x2: int|
                0 <= x2 < n && #[trigger] VisitedDistances::report(x2, d[x2], n) == Some(tree[i]);
            assert(x2 == x);
        } else if exists|i: int| 0 <= i < tree.len() && (#[trigger] tree[i]).0 == x + n {
            let i = choose|i: int| 0 <= i < tree.len() && (#[trigger] tree[i]).0 == x + n;
            assert(vs.reported(tree[i]));
            let x2 = choose|x2: int|
                0 <= x2 < n && #[trigger] VisitedDistances::report(x2, d[x2], n) == Some(tree[i]);
            assert(x2 == x);
            if visited_by(d[x], false) {
                assert(tree.contains(r.unwrap()));
                let k = choose|k: int| 0 <= k < tree.len() && tree[k] == r.unwrap();
                assert(tree[k].0 == x);
            }
        } else {
            match r {
                Some(e) => {
                    assert(tree.contains(e));
                    let k = choose|k: int| 0 <= k < tree.len() && tree[k] == e;
                    assert(tree[k].0 == x || tree[k].0 == x + n);
                },
                None => {},
            }
        }
    }
    assert(rebalanced(pi, tree, df as int, db as int) =~= shifted(pi, d, df as int, db as int));
    assert forall|i: int| 0 <= i < tree.len() implies #[trigger] tree_entry(
        tree,
        edges,
        pi,
        s as int,
        t as int,
        df as int,
        db as int,
        i,
    ) by {
        assert(vs.reported(tree[i]));
        let x = choose|x: int| 0 <= x < n && #[trigger] VisitedDistances::report(x, d[x], n) == Some(tree[i]);
        assert(final_entry(g, d, s, t, df as int, db as int, x));
        if tree[i].0 < n {
            assert forall|j: int| 0 <= j < tree.len() implies (#[trigger] tree[j]).0 != tree[i].0 + n by {
                assert(vs.reported(tree[j]));
                let x3 = choose|x3: int|
                    0 <= x3 < n && #[trigger] VisitedDistances::report(x3, d[x3], n) == Some(tree[j]);
                if tree[j].0 == tree[i].0 + n {
                    assert(x3 == x);
                }
            }
        }
    }
    if dmax > 0 {
        assert(VisitedDistances::report(s as int, d[s as int], n) == Some((s, 0 as Weight)));
        assert(VisitedDistances::report(t as int, d[t as int], n) == Some(((t + n) as usize, 0 as Weight)));
    }
}


/// How one half of a round of the bidirectional search ended.
enum Half {
    /// The heap was empty
    Empty,
    /// The frontiers have met the bound: the search is over
    Stop,
    /// The target is closer than the bound
    Rejected,
    /// An entry with this distance was popped and, if it was up to date, its node expanded
    Went(Weight),
}

impl BiDijkstra {
    /// Under the shift that the final state asks for, an edge keeps a non-negative reduced
    /// weight.
    proof fn lemma_edge_shift(self, g: &TwoDirGraph, s: Node, t: Node, dmax: Weight, st: BiSearch, df: Weight, db: Weight, e: Edge)
        requires
            searchable(g, s, t, dmax),
            self.inv(g, s, t, dmax, st),
            st.node == -1,
            df + db == dmax,
            self.heapf.top_spec() <= df,
            self.heapb.top_spec() <= db,
            forall|o: (Weight, Node)| self.heapf@.count(o) > 0 ==> df <= o.0,
            forall|o: (Weight, Node)| self.heapb@.count(o) > 0 ==> db <= o.0,
            g.edges_spec().contains(e),
        ensures
            reduced_weight(e, shifted(g.pi(), self.visit_states.states_spec(), df as int, db as int)) >= 0,
    {
        let d = self.visit_states.states_spec();
        let x = e.source as int;
        let y = e.target as int;
        lemma_edge_facts(g, e);
        reveal(heap_ok);
        reveal(pairs_ok);
        reveal(blocks_ok);
        reveal(walks_ok);
        assert(pair_ok(d, dmax, x));
        assert(pair_ok(d, dmax, y));
        assert(heap_entry_ok(d, self.heapf@, self.heapf.top_spec(), false, x));
        assert(heap_entry_ok(d, self.heapf@, self.heapf.top_spec(), false, y));
        assert(heap_entry_ok(d, self.heapb@, self.heapb.top_spec(), true, x));
        assert(heap_entry_ok(d, self.heapb@, self.heapb.top_spec(), true, y));
        assert(walk_entry_ok(g, s, t, d, st.walks, false, y));
        assert(walk_entry_ok(g, s, t, d, st.walks_back, true, x));
        if visited_by(d[x], false) {
            let j = lemma_edge_index(g, false, e);
            assert(node_ok(g, d, dmax, false, -1, 0, x));
            assert(settled_at(g, d, dmax, false, j));
        } else if visited_by(d[y], true) {
            let j = lemma_edge_index(g, true, e);
            assert(node_ok(g, d, dmax, true, -1, 0, y));
            assert(settled_at(g, d, dmax, true, j));
        }
    }

    /// The state in which the searches end justifies the acceptance.
    proof fn lemma_certify(self, g: &TwoDirGraph, s: Node, t: Node, dmax: Weight, st: BiSearch, df: Weight, db: Weight)
        requires
            searchable(g, s, t, dmax),
            self.inv(g, s, t, dmax, st),
            st.node == -1,
            !st.fresh_f,
            !st.fresh_b,
            df + db == dmax,
            self.heapf.top_spec() <= df,
            self.heapb.top_spec() <= db,
            forall|o: (Weight, Node)| self.heapf@.count(o) > 0 ==> df <= o.0,
            forall|o: (Weight, Node)| self.heapb@.count(o) > 0 ==> db <= o.0,
        ensures
            certified(g, self.visit_states.states_spec(), s, t, dmax, df as int, db as int),
    {
        let d = self.visit_states.states_spec();
        let edges = g.edges_spec();
        let pi2 = shifted(g.pi(), d, df as int, db as int);
        assert forall|i: int| 0 <= i < edges.len() implies reduced_weight(#[trigger] edges[i], pi2) >= 0 by {
            self.lemma_edge_shift(g, s, t, dmax, st, df, db, edges[i]);
        }
        assert forall|x: int| 0 <= x < d.len() implies #[trigger] final_entry(
            g,
            d,
            s,
            t,
            df as int,
            db as int,
            x,
        ) by {
            reveal(heap_ok);
            reveal(pairs_ok);
            reveal(walks_ok);
            assert(pair_ok(d, dmax, x));
            assert(heap_entry_ok(d, self.heapf@, self.heapf.top_spec(), false, x));
            assert(heap_entry_ok(d, self.heapb@, self.heapb.top_spec(), true, x));
            assert(walk_entry_ok(g, s, t, d, st.walks, false, x));
            assert(walk_entry_ok(g, s, t, d, st.walks_back, true, x));
            if visited_by(d[x], false) {
                assert(is_walk(edges, st.walks[x], s as int, x));
            }
            if visited_by(d[x], true) {
                assert(is_walk(edges, st.walks_back[x], x, t as int));
            }
        }
    }

    /// A state in which nothing was visited justifies the acceptance of a proposal with a
    /// bound that is not positive.
    proof fn lemma_certify_untouched(g: &TwoDirGraph, d: Seq<(Weight, Weight)>, s: Node, t: Node, dmax: Weight)
        requires
            searchable(g, s, t, dmax),
            d.len() == g.n_spec(),
            dmax <= 0,
            forall|x: int| 0 <= x < d.len() ==> !visited_by(#[trigger] d[x], false) && !visited_by(d[x], true),
        ensures
            certified(g, d, s, t, dmax, dmax as int, 0),
    {
        assert(shifted(g.pi(), d, dmax as int, 0) =~= g.pi());
        assert forall|x: int| 0 <= x < d.len() implies #[trigger] final_entry(g, d, s, t, dmax as int, 0, x) by {
            assert(!visited_by(d[x], false));
        }
    }

    /// Right after the source and the target were queued the search is in order.
    proof fn lemma_started(self, g: &TwoDirGraph, s: Node, t: Node, dmax: Weight) -> (st: BiSearch)
        requires
            searchable(g, s, t, dmax),
            s != t,
            self.heapf.wf(),
            self.heapb.wf(),
            self.visit_states.wf(),
            self.heapf@ == vstd::multiset::Multiset::<(Weight, Node)>::empty().insert((0, s)),
            self.heapb@ == vstd::multiset::Multiset::<(Weight, Node)>::empty().insert((0, t)),
            self.heapf.top_spec() == 0,
            self.heapb.top_spec() == 0,
            self.visit_states.states_spec().len() == g.n_spec(),
            self.visit_states.states_spec()[s as int] == (0 as Weight, MAX),
            self.visit_states.states_spec()[t as int] == (MAX, 0 as Weight),
            forall|x: int|
                0 <= x < g.n_spec() && x != s && x != t ==> #[trigger] self.visit_states.states_spec()[x] == (
                    MAX,
                    MAX,
                ),
        ensures
            st.node == -1,
            st.fresh_f,
            st.fresh_b,
            self.inv(g, s, t, dmax, st),
    {
        let n = g.n_spec();
        let d = self.visit_states.states_spec();
        let st = BiSearch {
            walks: Seq::new(n as nat, |x: int| Seq::<Edge>::empty()),
            walks_back: Seq::new(n as nat, |x: int| Seq::<Edge>::empty()),
            node: -1,
            side: false,
            progress: 0,
            fresh_f: true,
            fresh_b: true,
        };
        lemma_marked_degree_bound(done_nodes(d, false, -1), adj_edges(g, false), adj_limits(g, false), n, false, n);
        lemma_marked_degree_bound(done_nodes(d, true, -1), adj_edges(g, true), adj_limits(g, true), n, true, n);
        let hf = self.heapf@;
        let hb = self.heapb@;
        assert(hf.len() == 1 && hb.len() == 1);
        self.visit_states.lemma_bounded();
        assert(walks_ok(g, s, t, d, st.walks, false)) by {
            reveal(walks_ok);
            assert forall|x: int| 0 <= x < d.len() implies #[trigger] walk_entry_ok(g, s, t, d, st.walks, false, x) by {
                if x == s {
                    assert(is_walk(g.edges_spec(), st.walks[x], s as int, x));
                }
            }
        }
        assert(walks_ok(g, s, t, d, st.walks_back, true)) by {
            reveal(walks_ok);
            assert forall|x: int| 0 <= x < d.len() implies #[trigger] walk_entry_ok(
                g,
                s,
                t,
                d,
                st.walks_back,
                true,
                x,
            ) by {
                if x == t {
                    assert(is_walk(g.edges_spec(), st.walks_back[x], x, t as int));
                }
            }
        }
        assert(heap_ok(d, hf, 0, false)) by {
            reveal(heap_ok);
            assert forall|x: int| 0 <= x < d.len() implies #[trigger] heap_entry_ok(d, hf, 0, false, x) by {}
        }
        assert(heap_ok(d, hb, 0, true)) by {
            reveal(heap_ok);
            assert forall|x: int| 0 <= x < d.len() implies #[trigger] heap_entry_ok(d, hb, 0, true, x) by {}
        }
        assert(blocks_ok(g, d, dmax, false, -1, 0)) by {
            reveal(blocks_ok);
            assert forall|x: int| 0 <= x < d.len() implies #[trigger] node_ok(g, d, dmax, false, -1, 0, x) by {}
        }
        assert(blocks_ok(g, d, dmax, true, -1, 0)) by {
            reveal(blocks_ok);
            assert forall|x: int| 0 <= x < d.len() implies #[trigger] node_ok(g, d, dmax, true, -1, 0, x) by {}
        }
        assert(pairs_ok(d, dmax)) by {
            reveal(pairs_ok);
            assert forall|x: int| 0 <= x < d.len() implies #[trigger] pair_ok(d, dmax, x) by {}
        }
        st
    }

    fn heap_pop(&mut self, backward: bool) -> (r: Option<(Weight, Node)>)
        requires
            old(self).heap_of(backward).wf(),
        ensures
            final(self).heap_of(backward).wf(),
            final(self).heap_of(!backward) == old(self).heap_of(!backward),
            final(self).visit_states == old(self).visit_states,
            match r {
                None => {
                    &&& old(self).heap_of(backward)@.len() == 0
                    &&& final(self).heap_of(backward)@ == old(self).heap_of(backward)@
                    &&& final(self).heap_of(backward).top_spec() == old(self).heap_of(backward).top_spec()
                },
                Some(e) => {
                    &&& old(self).heap_of(backward)@.count(e) > 0
                    &&& final(self).heap_of(backward)@ == old(self).heap_of(backward)@.remove(e)
                    &&& final(self).heap_of(backward).top_spec() == e.0
                    &&& forall|o: (Weight, Node)| old(self).heap_of(backward)@.count(o) > 0 ==> e.0 <= o.0
                },
            },
    {
        if backward {
            self.heapb.pop()
        } else {
            self.heapf.pop()
        }
    }

    fn heap_push(&mut self, backward: bool, key: Weight, value: Node)
        requires
            old(self).heap_of(backward).wf(),
            key >= old(self).heap_of(backward).top_spec(),
            old(self).heap_of(backward)@.len() < usize::MAX,
        ensures
            final(self).heap_of(backward).wf(),
            final(self).heap_of(backward)@ == old(self).heap_of(backward)@.insert((key, value)),
            final(self).heap_of(backward).top_spec() == old(self).heap_of(backward).top_spec(),
            final(self).heap_of(!backward) == old(self).heap_of(!backward),
            final(self).visit_states == old(self).visit_states,
    {
        if backward {
            proof {
                self.heapb.lemma_floor();
            }
            self.heapb.push(key, value)
        } else {
            proof {
                self.heapf.lemma_floor();
            }
            self.heapf.push(key, value)
        }
    }

    fn heap_top(&self, backward: bool) -> (r: Weight)
        ensures
            r == self.heap_of(backward).top_spec(),
    {
        if backward {
            self.heapb.top()
        } else {
            self.heapf.top()
        }
    }
}

/// The edges that leave `u` for the forward search, those that enter it for the backward one.
fn neighbors(graph: &TwoDirGraph, backward: bool, u: Node) -> (r: &[Edge])
    requires
        graph.wf(),
        u < graph.n_spec(),
    ensures
        r@ == adj_edges(graph, backward).subrange(
            adj_limits(graph, backward)[u as int] as int,
            adj_limits(graph, backward)[u + 1] as int,
        ),
{
    if backward {
        graph.in_neighbors(u)
    } else {
        graph.out_neighbors(u)
    }
}

/// The node at the far end of an edge: its target for the forward search, its source for
/// the backward one.
fn far_end(edge: Edge, backward: bool) -> (r: Node)
    ensures
        r == minor_of(edge, backward),
{
    if backward {
        edge.source
    } else {
        edge.target
    }
}


impl BiDijkstra {
    /// Relaxes the edges of `node`, which the given search has just visited at the distance
    /// `dist`. Says *true* as soon as the two searches meet below `max_distance`.
    fn expand(
        &mut self,
        graph: &TwoDirGraph,
        backward: bool,
        max_distance: Weight,
        node: Node,
        dist: Weight,
        Ghost(s): Ghost<Node>,
        Ghost(t): Ghost<Node>,
        Ghost(st0): Ghost<BiSearch>,
    ) -> (r: (bool, Ghost<BiSearch>))
        requires
            searchable(graph, s, t, max_distance),
            old(self).inv(graph, s, t, max_distance, st0),
            st0.node == node,
            st0.side == backward,
            st0.progress == 0,
            dist == own(old(self).visit_states.states_spec()[node as int], backward),
        ensures
            final(self).wf(),
            final(self).n_spec() == old(self).n_spec(),
            r.0 ==> closer_than(graph.edges_spec(), graph.pi(), s as int, t as int, max_distance as int),
            !r.0 ==> {
                &&& final(self).inv(graph, s, t, max_distance, r.1@)
                &&& r.1@.node == -1
                &&& r.1@.fresh_f == st0.fresh_f
                &&& r.1@.fresh_b == st0.fresh_b
                &&& final(self).heapf.top_spec() == old(self).heapf.top_spec()
                &&& final(self).heapb.top_spec() == old(self).heapb.top_spec()
                &&& visited(final(self).visit_states.states_spec(), false) == visited(
                    old(self).visit_states.states_spec(),
                    false,
                )
                &&& visited(final(self).visit_states.states_spec(), true) == visited(
                    old(self).visit_states.states_spec(),
                    true,
                )
            },
    {
        let edges = neighbors(graph, backward, node);
        let ghost mut st = st0;
        let ghost lim = adj_limits(graph, backward);
        let mut k: usize = 0;
        while k < edges.len()
            invariant
                searchable(graph, s, t, max_distance),
                self.inv(graph, s, t, max_distance, st),
                st.node == node,
                st.side == backward,
                st.progress == k,
                st.fresh_f == st0.fresh_f,
                st.fresh_b == st0.fresh_b,
                lim == adj_limits(graph, backward),
                k <= edges@.len(),
                edges@ == adj_edges(graph, backward).subrange(lim[node as int] as int, lim[node + 1] as int),
                dist == own(self.visit_states.states_spec()[node as int], backward),
                self.n_spec() == old(self).n_spec(),
                self.heapf.top_spec() == old(self).heapf.top_spec(),
                self.heapb.top_spec() == old(self).heapb.top_spec(),
                visited(self.visit_states.states_spec(), false) == visited(
                    old(self).visit_states.states_spec(),
                    false,
                ),
                visited(self.visit_states.states_spec(), true) == visited(
                    old(self).visit_states.states_spec(),
                    true,
                ),
            decreases edges@.len() - k,
        {
            let edge = edges[k];
            let ghost d = self.visit_states.states_spec();
            proof {
                self.lemma_facts(graph, s, t, max_distance, st);
                assert(edge == adj_edge(graph, backward, node as int, k as int));
            }
            let next = far_end(edge, backward);
            let cost = dist + graph.potential_weight(edge);
            let cost = round_up(cost, self.heap_top(backward));
            let ghost pre = *self;
            proof {
                let walks_far = if backward {
                    st.walks
                } else {
                    st.walks_back
                };
                assert(walk_entry_ok(graph, s, t, d, walks_far, !backward, next as int)) by {
                    reveal(walks_ok);
                }
            }
            let answer = self.visit_states.queue_node(backward, next, cost, max_distance);
            match answer {
                None => {
                    proof {
                        pre.lemma_step_reject(graph, s, t, max_distance, st, cost);
                    }
                    return (true, Ghost(st));
                },
                Some(true) => {
                    proof {
                        let done = done_nodes(d, backward, node as int);
                        lemma_marked_degree_set(done, lim, node as int, graph.n_spec());
                        lemma_marked_degree_bound(
                            done.update(node as int, true),
                            adj_edges(graph, backward),
                            lim,
                            graph.n_spec(),
                            backward,
                            graph.n_spec(),
                        );
                    }
                    self.heap_push(backward, cost, next);
                    proof {
                        st = Self::lemma_step_push(pre, *self, graph, s, t, max_distance, st, cost);
                    }
                },
                Some(false) => {
                    proof {
                        st = Self::lemma_step_skip(pre, *self, graph, s, t, max_distance, st, cost);
                    }
                },
            }
            k += 1;
        }
        proof {
            st = self.lemma_step_finish(graph, s, t, max_distance, st);
        }
        (false, Ghost(st))
    }

    /// One half of a round: pops the nearest entry of the given search and, unless the
    /// frontiers have met the bound, visits and expands its node.
    fn half_step(
        &mut self,
        graph: &TwoDirGraph,
        backward: bool,
        max_distance: Weight,
        far: Weight,
        Ghost(s): Ghost<Node>,
        Ghost(t): Ghost<Node>,
        Ghost(st0): Ghost<BiSearch>,
    ) -> (r: (Half, Ghost<BiSearch>))
        requires
            searchable(graph, s, t, max_distance),
            old(self).inv(graph, s, t, max_distance, st0),
            st0.node == -1,
            far == old(self).heap_of(!backward).top_spec(),
            if backward {
                !st0.fresh_f
            } else {
                st0.fresh_b ==> st0.fresh_f
            },
            st0.fresh_f ==> forall|x: int|
                0 <= x < graph.n_spec() ==> !visited_by(
                    #[trigger] old(self).visit_states.states_spec()[x],
                    false,
                ) && !visited_by(old(self).visit_states.states_spec()[x], true),
        ensures
            final(self).wf(),
            final(self).n_spec() == old(self).n_spec(),
            match r.0 {
                Half::Empty => {
                    &&& final(self).heap_of(!backward).top_spec() == far
                    &&& final(self).inv(graph, s, t, max_distance, st0)
                    &&& r.1@ == st0
                    &&& old(self).heap_of(backward)@.len() == 0
                    &&& final(self).heap_of(backward)@.len() == 0
                    &&& final(self).heap_of(!backward)@ == old(self).heap_of(!backward)@
                    &&& final(self).heap_of(backward).top_spec() == old(self).heap_of(
                        backward,
                    ).top_spec()
                    &&& final(self).visit_states == old(self).visit_states
                },
                Half::Stop => {
                    &&& final(self).heap_of(!backward).top_spec() == far
                    &&& final(self).heap_of(backward).top_spec() + far >= max_distance
                    &&& certified(
                        graph,
                        final(self).visit_states.states_spec(),
                        s,
                        t,
                        max_distance,
                        if backward {
                            far as int
                        } else {
                            max_distance - far
                        },
                        if backward {
                            max_distance - far
                        } else {
                            far as int
                        },
                    )
                },
                Half::Rejected => closer_than(
                    graph.edges_spec(),
                    graph.pi(),
                    s as int,
                    t as int,
                    max_distance as int,
                ),
                Half::Went(dist) => {
                    &&& final(self).heap_of(!backward).top_spec() == far
                    &&& dist + far < max_distance
                    &&& final(self).inv(graph, s, t, max_distance, r.1@)
                    &&& r.1@.node == -1
                    &&& dist == final(self).heap_of(backward).top_spec()
                    &&& !r.1@.fresh_f
                    &&& r.1@.fresh_b == (!backward && st0.fresh_b)
                    &&& {
                        ||| marked_count(visited(final(self).visit_states.states_spec(), false), graph.n_spec())
                            + marked_count(
                            visited(final(self).visit_states.states_spec(), true),
                            graph.n_spec(),
                        ) == marked_count(
                            visited(old(self).visit_states.states_spec(), false),
                            graph.n_spec(),
                        ) + marked_count(
                            visited(old(self).visit_states.states_spec(), true),
                            graph.n_spec(),
                        ) + 1
                        ||| {
                            &&& final(self).visit_states == old(self).visit_states
                            &&& final(self).heap_of(backward)@.len() == old(self).heap_of(backward)@.len()
                                - 1
                            &&& final(self).heap_of(!backward)@ == old(self).heap_of(!backward)@
                        }
                    }
                },
            },
    {
        let ghost pre = *self;
        let ghost d = self.visit_states.states_spec();
        let popped = self.heap_pop(backward);
        let (dist, node) = match popped {
            None => {
                return (Half::Empty, Ghost(st0));
            },
            Some(entry) => entry,
        };
        proof {
            reveal(heap_ok);
            assert(pre.heap_of(backward)@.count((dist, node)) > 0);
            assert(0 <= dist <= KEY_LIMIT && node < graph.n_spec());
            assert(0 <= far <= KEY_LIMIT);
        }
        if dist + far >= max_distance {
            proof {
                let own_end = (max_distance - far) as Weight;
                if st0.fresh_f {
                    // nothing has happened yet: the bound is not positive
                    assert(!backward);
                    assert((dist, node) == (0 as Weight, s));
                    assert(pre.heapb@.count((0 as Weight, t)) > 0);
                    assert(far == 0);
                    Self::lemma_certify_untouched(graph, d, s, t, max_distance);
                } else {
                    if backward {
                        if st0.fresh_b {
                            assert((dist, node) == (0 as Weight, t));
                        }
                        pre.lemma_certify(graph, s, t, max_distance, st0, far, own_end);
                    } else {
                        pre.lemma_certify(graph, s, t, max_distance, st0, own_end, far);
                    }
                }
            }
            return (Half::Stop, Ghost(st0));
        }
        if !self.visit_states.is_visited(backward, node, dist) {
            proof {
                let walks_own = if backward {
                    st0.walks_back
                } else {
                    st0.walks
                };
                assert(walk_entry_ok(graph, s, t, d, walks_own, backward, node as int)) by {
                    reveal(walks_ok);
                }
            }
            self.visit_states.visit_node(backward, node);
            let ghost st1 = Self::lemma_pop_visit(
                pre,
                *self,
                graph,
                s,
                t,
                max_distance,
                st0,
                backward,
                (dist, node),
            );
            let (rejected, Ghost(st2)) = self.expand(
                graph,
                backward,
                max_distance,
                node,
                dist,
                Ghost(s),
                Ghost(t),
                Ghost(st1),
            );
            if rejected {
                return (Half::Rejected, Ghost(st2));
            }
            (Half::Went(dist), Ghost(st2))
        } else {
            proof {
                Self::lemma_pop_stale(pre, *self, graph, s, t, max_distance, st0, backward, (dist, node));
                if st0.fresh_f {
                    assert((dist, node) == (0 as Weight, s));
                }
                if backward && st0.fresh_b {
                    assert((dist, node) == (0 as Weight, t));
                }
            }
            (Half::Went(dist), Ghost(st0))
        }
    }

    /// Runs bidirectional dijkstra under reduced weights on the given graph.
    ///
    /// Returns `None` if `source_node` is `target_node`, or if there exists a walk from
    /// `source_node` to `target_node` with a reduced length less than `max_distance`.
    /// Otherwise returns `Some(((df, db), tree))` where `df` and `db` are the frontier
    /// distances of the forward and the backward search, which add up to `max_distance`:
    /// one of them is the distance that its search popped last, the other is tightened to
    /// what that leaves of `max_distance`. `tree` holds the visited nodes with their
    /// distances, as the workspace records them: a node visited in the backward-search as
    /// `node + n`.
    ///
    /// Where the searches end because both heaps are empty, the two distances popped last
    /// add up to less than `max_distance`, and it is the forward frontier that is tightened.
    /// Where a search ends them because the distance that it pops and the one that the
    /// other search popped last add up to `max_distance` or more, its own frontier is
    /// tightened.
    ///
    /// Which entries the searches pop, and so where the two frontiers meet, depends on the
    /// order in which the heaps hand out entries of equal distance; the contract fixes what
    /// every such order gives.
    ///
    /// A search from a node to itself answers before it looks at the graph.
    pub fn run(&mut self, graph: &TwoDirGraph, source_node: Node, target_node: Node, max_distance: Weight) -> (r:
        Option<((Weight, Weight), Vec<(Node, Weight)>)>)
        requires
            old(self).wf(),
            source_node == target_node || (old(self).n_spec() == graph.n_spec() && searchable(
                graph,
                source_node,
                target_node,
                max_distance,
            )),
        ensures
            final(self).wf(),
            final(self).n_spec() == old(self).n_spec(),
            r.is_none() <==> source_node == target_node || closer_than(
                graph.edges_spec(),
                graph.pi(),
                source_node as int,
                target_node as int,
                max_distance as int,
            ),
            match r {
                Some(((df, db), tree)) => {
                    &&& is_acceptance(
                        tree@,
                        df,
                        db,
                        graph.edges_spec(),
                        graph.pi(),
                        source_node as int,
                        target_node as int,
                        max_distance,
                    )
                    &&& is_tightened(
                        df,
                        db,
                        max_distance,
                        final(self).popped_spec(false),
                        final(self).popped_spec(true),
                    )
                    &&& is_report(tree@, final(self).visits_spec())
                    &&& final(self).popped_spec(false) + final(self).popped_spec(true) < max_distance ==> {
                        &&& db == final(self).popped_spec(true)
                        &&& df == max_distance - db
                        &&& final(self).waiting_spec(false) == 0
                        &&& final(self).waiting_spec(true) == 0
                    }
                },
                None => true,
            },
    {
        if source_node == target_node {
            return None;
        }
        self.visit_states.reset();
        self.heapf.clear();
        self.heapb.clear();

        self.visit_states.queue_node_forward(source_node, 0, max_distance);
        self.visit_states.queue_node_backward(target_node, 0, max_distance);

        proof {
            self.heapf.lemma_floor();
            self.heapb.lemma_floor();
        }
        self.heapf.push(0, source_node);
        self.heapb.push(0, target_node);

        let mut df: Weight = 0;
        let mut db: Weight = 0;
        let ghost n = graph.n_spec();
        let ghost mut st = self.lemma_started(graph, source_node, target_node, max_distance);

        loop
            invariant_except_break
                searchable(graph, source_node, target_node, max_distance),
                source_node != target_node,
                self.inv(graph, source_node, target_node, max_distance, st),
                st.node == -1,
                st.fresh_b ==> st.fresh_f,
                st.fresh_f ==> forall|x: int|
                    0 <= x < n ==> !visited_by(#[trigger] self.visit_states.states_spec()[x], false)
                        && !visited_by(self.visit_states.states_spec()[x], true),
                df == self.heapf.top_spec(),
                db == self.heapb.top_spec(),
                df + db < max_distance || self.heapf@.len() > 0,
                n == graph.n_spec(),
                self.n_spec() == old(self).n_spec(),
            ensures
                self.wf(),
                self.n_spec() == old(self).n_spec(),
                certified(
                    graph,
                    self.visit_states.states_spec(),
                    source_node,
                    target_node,
                    max_distance,
                    df as int,
                    db as int,
                ),
                is_tightened(df, db, max_distance, self.heapf.top_spec(), self.heapb.top_spec()),
                self.heapf.top_spec() + self.heapb.top_spec() < max_distance ==> {
                    &&& db == self.heapb.top_spec()
                    &&& df == max_distance - db
                    &&& self.heapf@.len() == 0
                    &&& self.heapb@.len() == 0
                },
            decreases
                    2 * n - marked_count(visited(self.visit_states.states_spec(), false), n) - marked_count(
                        visited(self.visit_states.states_spec(), true),
                        n,
                    ),
                    self.heapf@.len() + self.heapb@.len(),
        {
            proof {
                lemma_marked_count_bound(visited(self.visit_states.states_spec(), false), n);
                lemma_marked_count_bound(visited(self.visit_states.states_spec(), true), n);
                reveal(heap_ok);
            }
            let (forward, Ghost(st1)) = self.half_step(
                graph,
                false,
                max_distance,
                db,
                Ghost(source_node),
                Ghost(target_node),
                Ghost(st),
            );
            match forward {
                Half::Rejected => {
                    return None;
                },
                Half::Stop => {
                    df = max_distance - db;
                    break ;
                },
                Half::Went(dist) => {
                    df = dist;
                },
                Half::Empty => {},
            }
            proof {
                st = st1;
            }
            let (back, Ghost(st2)) = self.half_step(
                graph,
                true,
                max_distance,
                df,
                Ghost(source_node),
                Ghost(target_node),
                Ghost(st),
            );
            match back {
                Half::Rejected => {
                    return None;
                },
                Half::Stop => {
                    db = max_distance - df;
                    break ;
                },
                Half::Went(dist) => {
                    db = dist;
                },
                Half::Empty => {},
            }
            proof {
                st = st2;
                lemma_marked_count_bound(visited(self.visit_states.states_spec(), false), n);
                lemma_marked_count_bound(visited(self.visit_states.states_spec(), true), n);
            }
            if self.heapf.is_empty() && self.heapb.is_empty() {
                df = max_distance - db;
                proof {
                    self.lemma_certify(graph, source_node, target_node, max_distance, st, df, db);
                }
                break ;
            }
        }
        let tree = self.visit_states.get_distances();
        proof {
            assert forall|e: (Node, Weight)| #[trigger] self.visit_states.reported(e) implies tree@.contains(e) by {
                let x = choose|x: int|
                    0 <= x < self.visit_states.n_spec() && #[trigger] VisitedDistances::report(
                        x,
                        self.visit_states.states_spec()[x],
                        self.visit_states.n_spec(),
                    ) == Some(e);
                assert(VisitedDistances::report(x, self.visit_states.states_spec()[x], self.visit_states.n_spec())
                    == Some(e));
            }
            lemma_tree(graph, self.visit_states, source_node, target_node, max_distance, df, db, tree@);
            self.visit_states.lemma_bounded();
            lemma_acceptance_is_sound(
                tree@,
                df,
                db,
                graph.edges_spec(),
                graph.pi(),
                source_node as int,
                target_node as int,
                max_distance,
            );
        }
        Some(((df, db), tree))
    }
}

} // verus!
