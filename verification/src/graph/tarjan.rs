use crate::graph::components::{lemma_reaches_trans, mutual, reaches};
use crate::graph::repr::{lemma_block_key, OneDirGraph};
use crate::paths::{endpoints_below, is_walk, lemma_walk_single};
use crate::graph::{Edge, Node};
use crate::search::{lemma_marked_count_bound, lemma_marked_count_set, marked_count};
use vstd::prelude::*;

verus! {

/// What the search for strongly connected components knows of a node.
#[derive(Debug, Clone, Copy, PartialEq, Eq, Structural)]
pub struct NodeState {
    pub visited: bool,
    pub on_stack: bool,
    pub index: Node,
    pub low_link: Node,
}

impl NodeState {
    /// The state of a node that the search has not reached.
    pub fn new() -> (r: NodeState)
        ensures
            r == (NodeState { visited: false, on_stack: false, index: 0, low_link: 0 }),
    {
        NodeState { visited: false, on_stack: false, index: 0, low_link: 0 }
    }

    /// The search reaches the node as the `u`-th: the node gets this index and low link and
    /// goes on the stack.
    pub fn visit(&mut self, u: Node)
        requires
            !old(self).visited,
        ensures
            *final(self) == (NodeState { visited: true, on_stack: true, index: u, low_link: u }),
    {
        self.index = u;
        self.low_link = u;
        self.visited = true;
        self.on_stack = true;
    }

    /// Lowers the low link to `l` where `l` is smaller.
    pub fn try_lower_link(&mut self, l: Node)
        ensures
            *final(self) == (NodeState {
                low_link: if l < old(self).low_link {
                    l
                } else {
                    old(self).low_link
                },
                ..*old(self)
            }),
    {
        if l < self.low_link {
            self.low_link = l;
        }
    }

    /// A node is the root of its component when no node with a smaller index is known to be
    /// reachable from it.
    pub fn is_root(&self) -> (b: bool)
        ensures
            b == (self.index == self.low_link),
    {
        self.index == self.low_link
    }
}


/// What the search remembers of a node whose edges it is walking: one entry of the call
/// stack of the depth-first search.
#[derive(Debug, Clone, Copy)]
struct StackFrame {
    node: Node,
    parent: Node,
    initial_stack_len: Node,
    first_call: bool,
    has_loop: bool,
}

/// Implementation of Tarjan's Algorithm for Strongly Connected Components.
/// It emits the nodes of one strongly connected component at a time; the order of the
/// components is the reverse topological order of the SCCs (i.e. if each SCC were contracted
/// into a single node).
pub struct StronglyConnected<'a> {
    graph: &'a OneDirGraph,
    idx: Node,
    states: Vec<NodeState>,
    potentially_unvisited: usize,
    include_singletons: bool,
    path_stack: Vec<Node>,
    call_stack: Vec<StackFrame>,
}

/// The nodes that the search has reached.
pub open spec fn visited_of(states: Seq<NodeState>) -> Seq<bool> {
    Seq::new(states.len(), |x: int| states[x].visited)
}

/// The path stack holds the nodes that are marked as on the stack, in the order in which the
/// search reached them, and their low links point into the stack.
spec fn path_ok(states: Seq<NodeState>, path: Seq<Node>, idx: Node) -> bool {
    &&& forall|i: int|
        0 <= i < path.len() ==> {
            &&& (#[trigger] path[i]) < states.len()
            &&& states[path[i] as int].on_stack
            &&& states[path[i] as int].visited
            &&& states[path[i] as int].index < idx
            &&& states[path[0] as int].index <= states[path[i] as int].low_link
            &&& states[path[i] as int].low_link <= states[path[i] as int].index
        }
    &&& forall|i: int, j: int|
        0 <= i < j < path.len() ==> states[(#[trigger] path[i]) as int].index < states[(#[trigger] path[j]) as int].index
    &&& forall|x: int| 0 <= x < states.len() && (#[trigger] states[x]).on_stack ==> path.contains(x as usize)
}

/// The frame at position `f` of the call stack is in order: it belongs to a node of the
/// graph, hangs below the frame before it and, once its node was reached, knows where the
/// node stands on the path stack.
spec fn frame_ok(states: Seq<NodeState>, path: Seq<Node>, calls: Seq<StackFrame>, f: int) -> bool {
    let frame = calls[f];
    &&& frame.node < states.len()
    &&& frame.parent < states.len()
    &&& f == 0 ==> frame.parent == frame.node
    &&& f > 0 ==> frame.parent == calls[f - 1].node && !calls[f - 1].first_call
    &&& f < calls.len() - 1 ==> !frame.first_call
    &&& frame.first_call ==> !states[frame.node as int].visited
    &&& !frame.first_call ==> {
        &&& frame.initial_stack_len < path.len()
        &&& path[frame.initial_stack_len as int] == frame.node
        &&& f == 0 ==> frame.initial_stack_len == 0
        &&& f > 0 ==> calls[f - 1].initial_stack_len < frame.initial_stack_len
    }
}

impl<'a> StronglyConnected<'a> {
    /// The number of nodes of the graph.
    pub closed spec fn n_spec(&self) -> int {
        self.states@.len() as int
    }

    /// For every node, whether the search has reached it.
    pub closed spec fn visited_spec(&self) -> Seq<bool> {
        visited_of(self.states@)
    }

    /// For every node, whether its component is complete: the search has reached the node
    /// and taken it off the stack again.
    pub closed spec fn emitted_spec(&self) -> Seq<bool> {
        Seq::new(self.states@.len(), |x: int| self.states@[x].visited && !self.states@[x].on_stack)
    }

    /// Whether nodes that lie on no cycle are returned as components of their own.
    pub closed spec fn include_singletons_spec(&self) -> bool {
        self.include_singletons
    }

    /// There is one mark for every node.
    pub proof fn lemma_emitted_len(&self)
        ensures
            self.emitted_spec().len() == self.n_spec(),
            self.visited_spec().len() == self.n_spec(),
    {
    }

    /// No edge leads from a node whose component is complete to one whose component is not:
    /// the components are completed in reverse topological order.
    pub proof fn lemma_complete_is_closed(&self)
        requires
            self.wf(),
        ensures
            forall|j: int|
                0 <= j < self.edges_spec().len() && self.emitted_spec()[(#[trigger] self.edges_spec()[j]).source as int]
                    ==> self.emitted_spec()[self.edges_spec()[j].target as int],
    {
        reveal(sound_of);
        let edges = self.edges_spec();
        assert forall|j: int| 0 <= j < edges.len() && self.emitted_spec()[(#[trigger] edges[j]).source as int] implies self.emitted_spec()[edges[j].target as int] by {
            assert(edges[j].source < self.states@.len() && edges[j].target < self.states@.len());
            assert(emitted_of(self.states@, edges[j].source as int));
        }
    }

    /// The representation invariant of the search: the stacks are in order, and what the
    /// search has found so far makes the components that it cuts off strongly connected
    /// components.
    pub closed spec fn wf(&self) -> bool {
        self.shape() && self.sound()
    }

    /// The edges of the graph that is searched.
    pub closed spec fn edges_spec(&self) -> Seq<Edge> {
        self.graph.edges_spec()
    }

    /// What makes the components that the search cuts off strongly connected components.
    pub closed spec fn sound(&self) -> bool {
        sound_of(self.states@, self.path_stack@, self.call_stack@, self.graph.edges_spec())
    }

    /// The stacks are in order.
    pub closed spec fn shape(&self) -> bool {
        let n = self.states@.len() as int;
        &&& self.graph.wf()
        &&& self.graph.n_spec() == n
        &&& self.idx == marked_count(visited_of(self.states@), n)
        &&& path_ok(self.states@, self.path_stack@, self.idx)
        &&& forall|f: int|
            0 <= f < self.call_stack@.len() ==> #[trigger] frame_ok(
                self.states@,
                self.path_stack@,
                self.call_stack@,
                f,
            )
        &&& self.call_stack@.len() == 0 ==> self.path_stack@.len() == 0
        &&& self.call_stack@.len() == 1 && self.call_stack@[0].first_call ==> self.path_stack@.len() == 0
        &&& self.potentially_unvisited <= n
        &&& forall|x: int| 0 <= x < self.potentially_unvisited ==> (#[trigger] self.states@[x]).visited
    }

    /// Construct the search for some graph
    pub fn new(graph: &'a OneDirGraph) -> (r: Self)
        requires
            graph.wf(),
        ensures
            r.wf(),
            r.edges_spec() == graph.edges_spec(),
            r.n_spec() == graph.n_spec(),
            r.include_singletons_spec(),
            forall|x: int| 0 <= x < r.n_spec() ==> !#[trigger] r.visited_spec()[x],
            forall|x: int| 0 <= x < r.n_spec() ==> !#[trigger] r.emitted_spec()[x],
    {
        let n = graph.n();
        let mut states: Vec<NodeState> = Vec::new();
        let mut i: usize = 0;
        while i < n
            invariant
                i <= n,
                states@.len() == i,
                forall|x: int| 0 <= x < i ==> !(#[trigger] states@[x]).visited && !states@[x].on_stack,
            decreases n - i,
        {
            states.push(NodeState::new());
            i += 1;
        }
        proof {
            lemma_unvisited(states@, n as int);
            reveal(sound_of);
            assert(active_count(Seq::<StackFrame>::empty()) == 0);
        }
        Self {
            graph,
            idx: 0,
            states,
            potentially_unvisited: 0,
            include_singletons: true,
            path_stack: Vec::new(),
            call_stack: Vec::new(),
        }
    }

    /// Each node that is not part of a circle is returned as its own SCC. With
    /// `singletons = false` those nodes are not returned (which can lead to a significant
    /// performance boost)
    pub fn set_include_singletons(&mut self, singletons: bool)
        requires
            old(self).wf(),
        ensures
            final(self).wf(),
            final(self).edges_spec() == old(self).edges_spec(),
            final(self).include_singletons_spec() == singletons,
            final(self).n_spec() == old(self).n_spec(),
            final(self).visited_spec() == old(self).visited_spec(),
            final(self).emitted_spec() == old(self).emitted_spec(),
    {
        self.include_singletons = singletons;
    }
}

/// Where no node is reached, none counts.
proof fn lemma_unvisited(states: Seq<NodeState>, k: int)
    requires
        0 <= k <= states.len(),
        forall|x: int| 0 <= x < states.len() ==> !(#[trigger] states[x]).visited,
    ensures
        marked_count(visited_of(states), k) == 0,
    decreases k,
{
    if k > 0 {
        lemma_unvisited(states, k - 1);
    }
}


/// The frame that is put on the call stack for a node that the search is about to reach.
spec fn fresh_frame(node: Node, parent: Option<Node>) -> StackFrame {
    StackFrame {
        node,
        parent: match parent {
            Some(p) => p,
            None => node,
        },
        initial_stack_len: 0,
        first_call: true,
        has_loop: false,
    }
}

/// The position, from `from` on, of the first edge of `block` that leads to a node which the
/// search has not reached; the length of `block` where there is none.
spec fn first_unseen(states: Seq<NodeState>, block: Seq<Edge>, from: int) -> int
    decreases block.len() - from,
{
    if from >= block.len() {
        block.len() as int
    } else if !states[block[from].target as int].visited {
        from
    } else {
        first_unseen(states, block, from + 1)
    }
}

/// The low link of the node `v` after the first `k` edges of `block`, its edges, were
/// walked: the smallest of its low link before and the indices of the nodes on the stack to
/// which these edges lead.
spec fn lowered(states: Seq<NodeState>, block: Seq<Edge>, v: Node, k: int) -> Node
    decreases k,
{
    if k <= 0 {
        states[v as int].low_link
    } else {
        let low = lowered(states, block, v, k - 1);
        let reached = states[block[k - 1].target as int];
        if reached.visited && reached.on_stack && reached.index < low {
            reached.index
        } else {
            low
        }
    }
}

/// Whether one of the first `k` edges of `block` leads to `v`.
spec fn loops_within(block: Seq<Edge>, v: Node, k: int) -> bool {
    exists|j: int| 0 <= j < k && (#[trigger] block[j]).target == v
}

/// The states and the call stack after the first `k` edges of the node `v` of the frame on
/// top were walked: only the low link of `v` and the note of a loop in its frame differ
/// from `states` and `calls`.
spec fn walked(
    states: Seq<NodeState>,
    calls: Seq<StackFrame>,
    block: Seq<Edge>,
    k: int,
    now: Seq<NodeState>,
    frames: Seq<StackFrame>,
) -> bool {
    let top = calls.len() - 1;
    let v = calls[top].node;
    &&& now == states.update(v as int, NodeState { low_link: lowered(states, block, v, k), ..states[v as int] })
    &&& frames == calls.update(
        top,
        StackFrame { has_loop: calls[top].has_loop || loops_within(block, v, k), ..calls[top] },
    )
}

/// Walking one more edge, which leads to a node that the search has reached, lowers the low
/// link by the index of that node where it is on the stack, and notes a loop where the edge
/// is one.
proof fn lemma_walked_step(
    states: Seq<NodeState>,
    calls: Seq<StackFrame>,
    block: Seq<Edge>,
    k: int,
    now: Seq<NodeState>,
    frames: Seq<StackFrame>,
    next: Seq<NodeState>,
    next_frames: Seq<StackFrame>,
)
    requires
        calls.len() > 0,
        0 <= k < block.len(),
        calls.last().node < states.len(),
        block[k].target < states.len(),
        states[block[k].target as int].visited,
        walked(states, calls, block, k, now, frames),
        next_frames == if block[k].target == calls.last().node {
            frames.update(calls.len() - 1, StackFrame { has_loop: true, ..frames[calls.len() - 1] })
        } else {
            frames
        },
        next == if states[block[k].target as int].on_stack {
            now.update(
                calls.last().node as int,
                NodeState {
                    low_link: if states[block[k].target as int].index < now[calls.last().node as int].low_link {
                        states[block[k].target as int].index
                    } else {
                        now[calls.last().node as int].low_link
                    },
                    ..now[calls.last().node as int]
                },
            )
        } else {
            now
        },
    ensures
        walked(states, calls, block, k + 1, next, next_frames),
        first_unseen(states, block, k) == first_unseen(states, block, k + 1),
{
    let top = calls.len() - 1;
    let v = calls[top].node;
    if block[k].target == v {
        assert(loops_within(block, v, k + 1));
    } else if loops_within(block, v, k + 1) {
        let j = choose|j: int| 0 <= j < k + 1 && (#[trigger] block[j]).target == v;
        assert(loops_within(block, v, k));
    }
    if loops_within(block, v, k) {
        let j = choose|j: int| 0 <= j < k && (#[trigger] block[j]).target == v;
        assert(loops_within(block, v, k + 1));
    }
    assert(next =~= states.update(
        v as int,
        NodeState { low_link: lowered(states, block, v, k + 1), ..states[v as int] },
    ));
    assert(next_frames =~= calls.update(
        top,
        StackFrame { has_loop: calls[top].has_loop || loops_within(block, v, k + 1), ..calls[top] },
    ));
}

impl<'a> StronglyConnected<'a> {
    /// What the lemmas on soundness need of the shape of the search.
    proof fn lemma_shape(&self)
        requires
            self.shape(),
        ensures
            shape_of(self.states@, self.path_stack@, self.call_stack@, self.graph.edges_spec(), self.idx),
            self.graph.wf(),
            self.states@.len() == self.graph.n_spec(),
    {
    }

    /// The edges of the node of the frame on top are done.
    closed spec fn scanned_out(&self) -> bool {
        node_done(self.states@, self.graph.edges_spec(), self.call_stack@.last().node as int)
    }

    /// The edges that leave the node `v`.
    closed spec fn block_spec(&self, v: Node) -> Seq<Edge> {
        self.graph.edges_spec().subrange(
            self.graph.limits_spec()[v as int] as int,
            self.graph.limits_spec()[v + 1] as int,
        )
    }

    /// How much work is left at most: two units for every node that was not reached, less
    /// one if the frame on top waits for its first call.
    closed spec fn work_left(&self) -> int {
        2 * (self.states@.len() - self.idx) - if self.call_stack@.len() > 0 && self.call_stack@.last().first_call {
            1int
        } else {
            0int
        }
    }

    /// Put a pristine stack frame on the call stack. Roughly speaking, this is the first step
    /// to a recursive call of search.
    fn push_node(&mut self, node: Node, parent: Option<Node>)
        requires
            old(self).shape(),
            node < old(self).n_spec(),
            !old(self).states@[node as int].visited,
            match parent {
                None => old(self).call_stack@.len() == 0,
                Some(p) => old(self).call_stack@.len() > 0 && old(self).call_stack@.last().node == p
                    && !old(self).call_stack@.last().first_call,
            },
            old(self).sound(),
            match parent {
                None => true,
                Some(p) => reaches(old(self).graph.edges_spec(), p as int, node as int),
            },
        ensures
            final(self).shape(),
            final(self).sound(),
            final(self).states == old(self).states,
            final(self).idx == old(self).idx,
            final(self).graph == old(self).graph,
            final(self).include_singletons == old(self).include_singletons,
            final(self).path_stack == old(self).path_stack,
            final(self).potentially_unvisited == old(self).potentially_unvisited,
            final(self).call_stack@.len() == old(self).call_stack@.len() + 1,
            final(self).call_stack@.last().first_call,
            final(self).call_stack@ == old(self).call_stack@.push(fresh_frame(node, parent)),
            final(self).work_left() == old(self).work_left() - 1,
    {
        let p = match parent {
            Some(p) => p,
            None => node,
        };
        proof {
            self.lemma_shape();
            lemma_sound_push(
                self.states@,
                self.path_stack@,
                self.call_stack@,
                self.graph.edges_spec(),
                self.idx,
                node,
                parent,
            );
        }
        proof {
            if old(self).call_stack@.len() > 0 {
                assert(frame_ok(
                    self.states@,
                    self.path_stack@,
                    self.call_stack@,
                    self.call_stack@.len() - 1,
                ));
            }
        }
        self.call_stack.push(
            StackFrame { node, parent: p, initial_stack_len: 0, first_call: true, has_loop: false },
        );
        proof {
            let calls = self.call_stack@;
            let before = old(self).call_stack@;
            assert forall|f: int| 0 <= f < calls.len() implies #[trigger] frame_ok(
                self.states@,
                self.path_stack@,
                calls,
                f,
            ) by {
                if f < before.len() {
                    assert(frame_ok(self.states@, self.path_stack@, before, f));
                    assert(calls[f] == before[f]);
                    if f > 0 {
                        assert(calls[f - 1] == before[f - 1]);
                    }
                }
            }
        }
    }

    /// Just like in a classic DFS where we want to compute a spanning-forest, we will need to
    /// to visit each node at least once. We start we node 0, and cover all nodes reachable from
    /// there in `search`. Then, we search for an untouched node here, and start over.
    fn next_unvisited_node(&mut self) -> (r: Option<Node>)
        requires
            old(self).shape(),
            old(self).sound(),
            old(self).call_stack@.len() == 0,
        ensures
            final(self).shape(),
            final(self).sound(),
            final(self).graph == old(self).graph,
            final(self).states == old(self).states,
            final(self).idx == old(self).idx,
            final(self).include_singletons == old(self).include_singletons,
            match r {
                Some(v) => final(self).call_stack@.len() == 1 && final(self).work_left() == old(self).work_left() - 1,
                None => {
                    &&& final(self).call_stack@.len() == 0
                    &&& forall|x: int| 0 <= x < final(self).states@.len() ==> (#[trigger] final(self).states@[x]).visited
                },
            },
    {
        let n = self.states.len();
        while self.potentially_unvisited < n
            invariant
                self.shape(),
                self.sound(),
                self.graph == old(self).graph,
                n == self.states@.len(),
                self.states == old(self).states,
                self.idx == old(self).idx,
                self.include_singletons == old(self).include_singletons,
                self.call_stack@.len() == 0,
                self.work_left() == old(self).work_left(),
            decreases n - self.potentially_unvisited,
        {
            if !self.states[self.potentially_unvisited].visited {
                let v = self.potentially_unvisited;
                self.push_node(v, None);
                return Some(v);
            }
            self.potentially_unvisited += 1;
        }
        None
    }

    /// The first call for the node of the frame on top: the search reaches the node, which
    /// goes on the path stack.
    fn enter(&mut self)
        requires
            old(self).shape(),
            old(self).sound(),
            old(self).call_stack@.len() > 0,
            old(self).call_stack@.last().first_call,
        ensures
            final(self).shape(),
            final(self).sound(),
            final(self).n_spec() == old(self).n_spec(),
            final(self).include_singletons == old(self).include_singletons,
            final(self).graph == old(self).graph,
            final(self).call_stack@.len() == old(self).call_stack@.len(),
            !final(self).call_stack@.last().first_call,
            final(self).work_left() == old(self).work_left() - 1,
            final(self).emitted_spec() == old(self).emitted_spec(),
    {
        let n = self.states.len();
        let top = self.call_stack.len() - 1;
        let ghost round = *self;
        proof {
            lemma_marked_count_bound(visited_of(self.states@), n as int);
            assert(frame_ok(self.states@, self.path_stack@, self.call_stack@, top as int));
        }
        let v = self.call_stack[top].node;
        let position = self.path_stack.len();
        self.call_stack[top].first_call = false;
        self.call_stack[top].initial_stack_len = position;
        proof {
            lemma_marked_count_set(visited_of(self.states@), v as int, n as int);
            lemma_marked_count_bound(visited_of(self.states@).update(v as int, true), n as int);
        }
        self.states[v].visit(self.idx);
        self.idx += 1;
        self.path_stack.push(v);
        proof {
            round.lemma_shape();
            assert(self.states@ =~= round.states@.update(
                v as int,
                NodeState { visited: true, on_stack: true, index: round.idx, low_link: round.idx },
            ));
            assert(self.call_stack@ =~= round.call_stack@.update(
                top as int,
                StackFrame {
                    first_call: false,
                    initial_stack_len: round.path_stack@.len() as usize,
                    ..round.call_stack@.last()
                },
            ));
            lemma_sound_enter(
                round.states@,
                round.path_stack@,
                round.call_stack@,
                round.graph.edges_spec(),
                round.idx,
                self.states@,
                self.path_stack@,
                self.call_stack@,
            );
        }
        proof {
            let states = self.states@;
            let path = self.path_stack@;
            let calls = self.call_stack@;
            assert(visited_of(states) =~= visited_of(round.states@).update(v as int, true));
            assert(self.emitted_spec() =~= round.emitted_spec());
            assert forall|i: int| 0 <= i < path.len() implies {
                &&& (#[trigger] path[i]) < states.len()
                &&& states[path[i] as int].on_stack
                &&& states[path[i] as int].visited
                &&& states[path[i] as int].index < self.idx
                &&& states[path[0] as int].index <= states[path[i] as int].low_link
                &&& states[path[i] as int].low_link <= states[path[i] as int].index
            } by {
                if i < round.path_stack@.len() {
                    assert(path[i] == round.path_stack@[i]);
                    assert(path[0] == round.path_stack@[0]);
                    assert(path[i] != v);
                }
            }
            assert forall|i: int, j: int| 0 <= i < j < path.len() implies states[(#[trigger] path[i]) as int].index
                < states[(#[trigger] path[j]) as int].index by {
                assert(path[i] == round.path_stack@[i]);
                assert(path[i] != v);
                if j < round.path_stack@.len() {
                    assert(path[j] == round.path_stack@[j]);
                    assert(path[j] != v);
                }
            }
            assert forall|x: int| 0 <= x < states.len() && (#[trigger] states[x]).on_stack implies path.contains(
                x as usize,
            ) by {
                if x == v {
                    assert(path[path.len() - 1] == v);
                } else {
                    assert(round.states@[x].on_stack);
                    assert(round.path_stack@.contains(x as usize));
                    let i = choose|i: int| 0 <= i < round.path_stack@.len() && round.path_stack@[i] == x as usize;
                    assert(path[i] == x as usize);
                }
            }
            assert forall|f: int| 0 <= f < calls.len() implies #[trigger] frame_ok(states, path, calls, f) by {
                assert(frame_ok(round.states@, round.path_stack@, round.call_stack@, f));
                if f < top {
                    assert(calls[f] == round.call_stack@[f]);
                    assert(path[calls[f].initial_stack_len as int] == round.path_stack@[calls[f].initial_stack_len as int]);
                }
                if f > 0 {
                    assert(frame_ok(round.states@, round.path_stack@, round.call_stack@, f - 1));
                }
            }
            assert forall|x: int| 0 <= x < self.potentially_unvisited implies (#[trigger] states[x]).visited by {
                assert(round.states@[x].visited);
            }
        }
    }

    /// Walks the edges of the node of the frame on top: lowers its low link by the nodes on
    /// the stack that it reaches and, as soon as it reaches a node that the search has not
    /// seen yet, puts a frame for it on the call stack and says *true*.
    fn scan(&mut self) -> (descend: bool)
        requires
            old(self).shape(),
            old(self).sound(),
            old(self).call_stack@.len() > 0,
            !old(self).call_stack@.last().first_call,
        ensures
            final(self).shape(),
            final(self).sound(),
            !descend ==> final(self).scanned_out(),
            final(self).n_spec() == old(self).n_spec(),
            final(self).include_singletons == old(self).include_singletons,
            final(self).graph == old(self).graph,
            final(self).emitted_spec() == old(self).emitted_spec(),
            descend ==> final(self).call_stack@.len() == old(self).call_stack@.len() + 1 && final(self).work_left() == old(self).work_left() - 1,
            !descend ==> final(self).call_stack@.len() == old(self).call_stack@.len() && final(self).work_left() == old(self).work_left() && !final(self).call_stack@.last().first_call,
            final(self).idx == old(self).idx,
            final(self).path_stack == old(self).path_stack,
            final(self).potentially_unvisited == old(self).potentially_unvisited,
            ({
                let v = old(self).call_stack@.last().node;
                let block = old(self).block_spec(v);
                let k = first_unseen(old(self).states@, block, 0);
                &&& 0 <= k <= block.len()
                &&& descend == (k < block.len())
                &&& !descend ==> walked(
                    old(self).states@,
                    old(self).call_stack@,
                    block,
                    k,
                    final(self).states@,
                    final(self).call_stack@,
                )
                &&& descend ==> walked(
                    old(self).states@,
                    old(self).call_stack@,
                    block,
                    k,
                    final(self).states@,
                    final(self).call_stack@.drop_last(),
                ) && final(self).call_stack@.last() == fresh_frame(block[k].target, Some(v))
            }),
    {
        let n = self.states.len();
        let top = self.call_stack.len() - 1;
        proof {
            assert(frame_ok(self.states@, self.path_stack@, self.call_stack@, top as int));
        }
        let v = self.call_stack[top].node;
        let neighbors = self.graph.out_neighbors(v);
        let ghost scan = *self;
        proof {
            let states = scan.states@;
            let calls = scan.call_stack@;
            assert(!loops_within(neighbors@, v, 0));
            assert(states =~= states.update(
                v as int,
                NodeState { low_link: lowered(states, neighbors@, v, 0), ..states[v as int] },
            ));
            assert(calls =~= calls.update(
                top as int,
                StackFrame {
                    has_loop: calls[top as int].has_loop || loops_within(neighbors@, v, 0),
                    ..calls[top as int]
                },
            ));
        }
        let mut k: usize = 0;
        while k < neighbors.len()
            invariant
                self.shape(),
                scan == *old(self),
                scan.shape(),
                scan.sound(),
                scan.call_stack@.len() == top + 1,
                n == self.states@.len(),
                v < n,
                self.include_singletons == scan.include_singletons,
                self.graph == scan.graph,
                self.idx == scan.idx,
                self.emitted_spec() == scan.emitted_spec(),
                self.call_stack@.len() == top + 1,
                self.work_left() == scan.work_left(),
                self.call_stack@[top as int].node == v,
                !self.call_stack@[top as int].first_call,
                k <= neighbors@.len(),
                neighbors@ == self.graph.edges_spec().subrange(
                    self.graph.limits_spec()[v as int] as int,
                    self.graph.limits_spec()[v + 1] as int,
                ),
                neighbors@ == scan.block_spec(v),
                v == scan.call_stack@.last().node,
                self.path_stack == scan.path_stack,
                self.potentially_unvisited == scan.potentially_unvisited,
                first_unseen(scan.states@, neighbors@, 0) == first_unseen(scan.states@, neighbors@, k as int),
                walked(scan.states@, scan.call_stack@, neighbors@, k as int, self.states@, self.call_stack@),
            decreases neighbors@.len() - k,
        {
            proof {
                lemma_block_key(
                    self.graph.edges_spec(),
                    self.graph.limits_spec(),
                    n as int,
                    false,
                    v as int,
                    self.graph.limits_spec()[v as int] + k,
                );
                let j = self.graph.limits_spec()[v as int] + k;
                assert(self.graph.edges_spec()[j].target < n);
                assert(frame_ok(self.states@, self.path_stack@, self.call_stack@, top as int));
            }
            let w = neighbors[k].target;
            let w_state = self.states[w];
            let ghost step = *self;
            if w == v {
                self.call_stack[top].has_loop = true;
                proof {
                    assert(self.work_left() == step.work_left());
                    let calls = self.call_stack@;
                    assert forall|f: int| 0 <= f < calls.len() implies #[trigger] frame_ok(
                        self.states@,
                        self.path_stack@,
                        calls,
                        f,
                    ) by {
                        assert(frame_ok(step.states@, step.path_stack@, step.call_stack@, f));
                        if f > 0 {
                            assert(frame_ok(step.states@, step.path_stack@, step.call_stack@, f - 1));
                        }
                    }
                }
            }
            if !w_state.visited {
                proof {
                    assert(self.call_stack@.len() == scan.call_stack@.len());
                    assert(self.work_left() == scan.work_left());
                    assert(self.call_stack@.last() == self.call_stack@[top as int]);
                    assert(scan.states@[v as int].visited);
                    assert(!scan.states@[w as int].visited);
                }
                let ghost frames = self.call_stack@;
                proof {
                    scan.lemma_shape();
                    lemma_sound_scan(
                        scan.graph,
                        scan.states@,
                        scan.path_stack@,
                        scan.call_stack@,
                        scan.idx,
                        k as int,
                        self.states@,
                        self.call_stack@,
                    );
                }
                self.push_node(w, Some(v));
                proof {
                    assert(self.call_stack@.drop_last() =~= frames);
                }
                return true;
            } else if w_state.on_stack {
                let ghost before = *self;
                self.states[v].try_lower_link(w_state.index);
                proof {
                    let states = self.states@;
                    let path = self.path_stack@;
                    let calls = self.call_stack@;
                    assert(visited_of(states) =~= visited_of(before.states@));
                    assert(self.emitted_spec() =~= before.emitted_spec());
                    assert(path.contains(w));
                    let iw = choose|i: int| 0 <= i < path.len() && path[i] == w;
                    assert(states[path[0] as int].index <= before.states@[w as int].index) by {
                        if iw > 0 {
                            assert(before.states@[path[0] as int].index < before.states@[path[iw] as int].index);
                        }
                    }
                    assert forall|i: int| 0 <= i < path.len() implies {
                        &&& (#[trigger] path[i]) < states.len()
                        &&& states[path[i] as int].on_stack
                        &&& states[path[i] as int].visited
                        &&& states[path[i] as int].index < self.idx
                        &&& states[path[0] as int].index <= states[path[i] as int].low_link
                        &&& states[path[i] as int].low_link <= states[path[i] as int].index
                    } by {
                        assert(before.states@[path[i] as int].on_stack);
                    }
                    assert forall|f: int| 0 <= f < calls.len() implies #[trigger] frame_ok(states, path, calls, f) by {
                        assert(frame_ok(before.states@, before.path_stack@, before.call_stack@, f));
                    }
                    assert forall|x: int| 0 <= x < self.potentially_unvisited implies (#[trigger] states[x]).visited by {
                        assert(before.states@[x].visited);
                    }
                }
            }
            proof {
                lemma_walked_step(
                    scan.states@,
                    scan.call_stack@,
                    neighbors@,
                    k as int,
                    step.states@,
                    step.call_stack@,
                    self.states@,
                    self.call_stack@,
                );
            }
            k += 1;
        }
        proof {
            scan.lemma_shape();
            lemma_first_unseen_range(scan.states@, neighbors@, k as int);
            lemma_sound_scan(
                scan.graph,
                scan.states@,
                scan.path_stack@,
                scan.call_stack@,
                scan.idx,
                k as int,
                self.states@,
                self.call_stack@,
            );
        }
        false
    }

    /// After the frame on top was popped and its low link passed on, the search is ready for
    /// the component of its node to be cut off the path stack.
    proof fn lemma_popped(before: Self, mid: Self, frame: StackFrame)
        requires
            before.shape(),
            before.call_stack@.len() > 0,
            frame == before.call_stack@.last(),
            !frame.first_call,
            mid.call_stack@ == before.call_stack@.drop_last(),
            mid.path_stack == before.path_stack,
            mid.idx == before.idx,
            mid.graph == before.graph,
            mid.potentially_unvisited == before.potentially_unvisited,
            mid.states@ == before.states@.update(
                frame.parent as int,
                NodeState {
                    low_link: if before.states@[frame.node as int].low_link
                        < before.states@[frame.parent as int].low_link {
                        before.states@[frame.node as int].low_link
                    } else {
                        before.states@[frame.parent as int].low_link
                    },
                    ..before.states@[frame.parent as int]
                },
            ),
            before.states@.len() <= usize::MAX,
        ensures
            mid.cut_ready(frame.initial_stack_len as int),
            mid.emitted_spec() == before.emitted_spec(),
            mid.path_stack@[frame.initial_stack_len as int] == frame.node,
            frame.node < mid.states@.len(),
            before.call_stack@.len() == 1 ==> mid.states@[frame.node as int].low_link
                == mid.states@[frame.node as int].index,
            mid.states@[frame.node as int].low_link == mid.states@[frame.node as int].index ==> mid.states@
                == before.states@ || before.call_stack@.len() > 1,
            mid.states@[frame.node as int].low_link != mid.states@[frame.node as int].index ==> mid.shape(),
    {
        reveal(StronglyConnected::cut_ready);
        let top = before.call_stack@.len() - 1;
        let first = frame.initial_stack_len as int;
        let v = frame.node;
        let states = mid.states@;
        let path = mid.path_stack@;
        let calls = mid.call_stack@;
        assert(frame_ok(before.states@, before.path_stack@, before.call_stack@, top));
        if top > 0 {
            assert(frame_ok(before.states@, before.path_stack@, before.call_stack@, top - 1));
            let below = before.call_stack@[top - 1];
            assert(path[below.initial_stack_len as int] == frame.parent);
            assert(before.states@[path[below.initial_stack_len as int] as int].on_stack);
        }
        assert(visited_of(states) =~= visited_of(before.states@));
        assert(mid.emitted_spec() =~= before.emitted_spec());
        assert(path[first] == v);
        assert(before.states@[path[first] as int].on_stack);
        assert forall|i: int| 0 <= i < path.len() implies {
            &&& (#[trigger] path[i]) < states.len()
            &&& states[path[i] as int].on_stack
            &&& states[path[i] as int].visited
            &&& states[path[i] as int].index < mid.idx
            &&& states[path[0] as int].index <= states[path[i] as int].low_link
            &&& states[path[i] as int].low_link <= states[path[i] as int].index
        } by {
            assert(before.states@[path[i] as int].on_stack);
        }
        assert forall|i: int, j: int| 0 <= i < j < path.len() implies states[(#[trigger] path[i]) as int].index
            < states[(#[trigger] path[j]) as int].index by {
            assert(before.states@[path[i] as int].index < before.states@[path[j] as int].index);
        }
        assert forall|f: int| 0 <= f < calls.len() implies #[trigger] frame_ok(states, path, calls, f) by {
            assert(frame_ok(before.states@, before.path_stack@, before.call_stack@, f));
            assert(calls[f] == before.call_stack@[f]);
            if f > 0 {
                assert(calls[f - 1] == before.call_stack@[f - 1]);
            }
        }
        assert forall|x: int| 0 <= x < mid.potentially_unvisited implies (#[trigger] states[x]).visited by {
            assert(before.states@[x].visited);
        }
        assert forall|x: int| 0 <= x < states.len() && (#[trigger] states[x]).on_stack implies path.contains(
            x as usize,
        ) by {
            assert(before.states@[x].on_stack);
        }
        if top == 0 {
            assert(first == 0);
        }
    }

    /// Takes the nodes from position `first` on off the path stack, and off the stack, and
    /// returns them.
    fn take_component(&mut self, first: usize) -> (component: Vec<Node>)
        requires
            old(self).cut_ready(first as int),
        ensures
            final(self).shape(),
            final(self).n_spec() == old(self).n_spec(),
            final(self).include_singletons == old(self).include_singletons,
            final(self).graph == old(self).graph,
            final(self).call_stack == old(self).call_stack,
            final(self).idx == old(self).idx,
            final(self).path_stack@ == old(self).path_stack@.take(first as int),
            final(self).states@.len() == old(self).states@.len(),
            forall|x: int|
                0 <= x < old(self).states@.len() ==> #[trigger] final(self).states@[x] == cleared(
                    old(self).states@,
                    component@,
                    x,
                ),
            component@ == old(self).path_stack@.subrange(first as int, old(self).path_stack@.len() as int),
            component@.len() > 0,
            component@.no_duplicates(),
            forall|x: int|
                0 <= x < old(self).n_spec() ==> (#[trigger] final(self).emitted_spec()[x] <==> old(self).emitted_spec()[x] || component@.contains(x as usize)),
            forall|i: int|
                0 <= i < component@.len() ==> (#[trigger] component@[i]) < old(self).n_spec() && !old(self).emitted_spec()[component@[i] as int],
    {
        let ghost mid = *self;
        let n = self.states.len();
        proof {
            reveal(StronglyConnected::cut_ready);
        }
        let mut component: Vec<Node> = Vec::new();
        let end = self.path_stack.len();
        let mut i: usize = first;
        while i < end
            invariant
                first <= i <= end,
                end == self.path_stack@.len(),
                *self == mid,
                component@ == mid.path_stack@.subrange(first as int, i as int),
            decreases end - i,
        {
            component.push(self.path_stack[i]);
            proof {
                let path0 = mid.path_stack@;
                assert(path0.subrange(first as int, i as int + 1) =~= path0.subrange(first as int, i as int).push(
                    path0[i as int],
                ));
            }
            i += 1;
        }
        self.path_stack.truncate(first);
        let mut j: usize = 0;
        proof {
            assert(component@.take(0) =~= Seq::<Node>::empty());
        }
        while j < component.len()
            invariant
                j <= component@.len(),
                n == mid.states@.len(),
                component@ == mid.path_stack@.subrange(first as int, mid.path_stack@.len() as int),
                mid.cut_ready(first as int),
                self.path_stack@ == mid.path_stack@.take(first as int),
                self.call_stack == mid.call_stack,
                self.idx == mid.idx,
                self.graph == mid.graph,
                self.include_singletons == mid.include_singletons,
                self.potentially_unvisited == mid.potentially_unvisited,
                self.states@.len() == n,
                forall|x: int|
                    0 <= x < n ==> #[trigger] self.states@[x] == cleared(mid.states@, component@.take(j as int), x),
            decreases component@.len() - j,
        {
            let w = component[j];
            proof {
                reveal(StronglyConnected::cut_ready);
                assert(w == mid.path_stack@[first + j]);
            }
            let ghost before = self.states@;
            self.states[w].on_stack = false;
            proof {
                let done = component@.take(j as int);
                let more = component@.take(j as int + 1);
                assert(more =~= done.push(w));
                assert forall|x: int| 0 <= x < n implies #[trigger] self.states@[x] == cleared(mid.states@, more, x) by {
                    assert(before[x] == cleared(mid.states@, done, x));
                    if x == w {
                        assert(more[j as int] == w);
                    } else if done.contains(x as usize) {
                        let p = choose|p: int| 0 <= p < done.len() && done[p] == x as usize;
                        assert(more[p] == x as usize);
                    } else if more.contains(x as usize) {
                        let p = choose|p: int| 0 <= p < more.len() && more[p] == x as usize;
                        assert(done[p] == x as usize);
                    }
                }
            }
            j += 1;
        }
        proof {
            assert(component@.take(component@.len() as int) =~= component@);
            Self::lemma_cut(mid, *self, first as int);
            reveal(StronglyConnected::cut_ready);
            assert(component@.no_duplicates()) by {
                assert forall|a: int, b: int|
                    0 <= a < component@.len() && 0 <= b < component@.len() && a != b implies component@[a]
                    != component@[b] by {
                    let path0 = mid.path_stack@;
                    if a < b {
                        assert(mid.states@[path0[first + a] as int].index < mid.states@[path0[first + b] as int].index);
                    } else {
                        assert(mid.states@[path0[first + b] as int].index < mid.states@[path0[first + a] as int].index);
                    }
                }
            }
            assert forall|i: int| 0 <= i < component@.len() implies (#[trigger] component@[i]) < mid.n_spec()
                && !mid.emitted_spec()[component@[i] as int] by {
                assert(component@[i] == mid.path_stack@[first + i]);
                assert(mid.states@[mid.path_stack@[first + i] as int].on_stack);
            }
        }
        component
    }

    /// The edges of the node of the frame on top are done: takes the frame off the call
    /// stack, passes the low link on to the node below and, if the node is the root of its
    /// component, takes the component off the path stack and returns it.
    fn leave(&mut self) -> (r: Option<Vec<Node>>)
        requires
            old(self).shape(),
            old(self).sound(),
            old(self).scanned_out(),
            old(self).call_stack@.len() > 0,
            !old(self).call_stack@.last().first_call,
        ensures
            final(self).shape(),
            final(self).sound(),
            match r {
                None => true,
                Some(component) => is_class(component@, old(self).graph.edges_spec(), old(self).n_spec()),
            },
            final(self).n_spec() == old(self).n_spec(),
            final(self).include_singletons == old(self).include_singletons,
            final(self).graph == old(self).graph,
            final(self).call_stack@.len() == old(self).call_stack@.len() - 1,
            final(self).work_left() == old(self).work_left(),
            forall|x: int|
                0 <= x < old(self).n_spec() && old(self).emitted_spec()[x] ==> #[trigger] final(self).emitted_spec()[x],
            match r {
                None => final(self).include_singletons ==> final(self).emitted_spec() == old(self).emitted_spec(),
                Some(component) => {
                    &&& component@.len() > 0
                    &&& component@.no_duplicates()
                    &&& forall|i: int|
                        0 <= i < component@.len() ==> {
                            &&& (#[trigger] component@[i]) < final(self).n_spec()
                            &&& !old(self).emitted_spec()[component@[i] as int]
                            &&& final(self).emitted_spec()[component@[i] as int]
                        }
                    &&& forall|x: int|
                        0 <= x < final(self).n_spec() && #[trigger] final(self).emitted_spec()[x] ==> old(self).emitted_spec()[x] || component@.contains(x as usize)
                },
            },
    {
        let n = self.states.len();
        let ghost before_pop = *self;
        proof {
            let top = self.call_stack@.len() - 1;
            assert(frame_ok(self.states@, self.path_stack@, self.call_stack@, top));
        }
        let frame = self.call_stack.pop().unwrap();
        let v = frame.node;
        let state = self.states[v];
        self.states[frame.parent].try_lower_link(state.low_link);
        proof {
            Self::lemma_popped(before_pop, *self, frame);
            before_pop.lemma_shape();
            assert(self.states@ =~= passed_on(before_pop.states@, frame));
            assert(self.call_stack@ =~= before_pop.call_stack@.drop_last());
            if before_pop.states@[v as int].low_link != before_pop.states@[v as int].index {
                lemma_sound_keep(
                    before_pop.states@,
                    before_pop.path_stack@,
                    before_pop.call_stack@,
                    before_pop.graph.edges_spec(),
                    before_pop.idx,
                );
            }
        }
        if state.is_root() {
            let last = self.path_stack.len() - 1;
            proof {
                reveal(StronglyConnected::cut_ready);
            }
            if !self.include_singletons && self.path_stack[last] == v && !frame.has_loop {
                // skip producing component descriptor, since we have a singleton node
                let ghost mid = *self;
                let ghost first = frame.initial_stack_len as int;
                proof {
                    if first < last {
                        assert(mid.states@[mid.path_stack@[first] as int].index
                            < mid.states@[mid.path_stack@[last as int] as int].index);
                    }
                }
                self.states[v].on_stack = false;
                self.path_stack.pop();
                proof {
                    assert(self.path_stack@ =~= mid.path_stack@.take(first));
                    assert(mid.path_stack@.subrange(first, mid.path_stack@.len() as int) =~= seq![v]);
                    assert forall|x: int| 0 <= x < n implies #[trigger] self.states@[x] == cleared(
                        mid.states@,
                        seq![v],
                        x,
                    ) by {
                        if x == v {
                            assert(seq![v][0] == v);
                        }
                    }
                    Self::lemma_cut(mid, *self, first);
                    lemma_sound_cut(
                        before_pop.states@,
                        before_pop.path_stack@,
                        before_pop.call_stack@,
                        before_pop.graph.edges_spec(),
                        before_pop.idx,
                        self.states@,
                    );
                }
                None
            } else {
                // this component goes into the result, so produce a descriptor and clean-up
                // stack while doing so
                let component = self.take_component(frame.initial_stack_len);
                proof {
                    lemma_sound_cut(
                        before_pop.states@,
                        before_pop.path_stack@,
                        before_pop.call_stack@,
                        before_pop.graph.edges_spec(),
                        before_pop.idx,
                        self.states@,
                    );
                }
                proof {
                    assert forall|i: int| 0 <= i < component@.len() implies self.emitted_spec()[(
                    #[trigger] component@[i]) as int] by {
                        assert(component@.contains(component@[i]));
                    }
                }
                Some(component)
            }
        } else {
            None
        }
    }

    /// Walks on until a component is complete, and returns it; returns `None` when the call
    /// stack has run empty.
    fn search(&mut self) -> (r: Option<Vec<Node>>)
        requires
            old(self).shape(),
            old(self).sound(),
        ensures
            final(self).shape(),
            final(self).sound(),
            final(self).graph == old(self).graph,
            match r {
                None => true,
                Some(component) => is_class(component@, old(self).graph.edges_spec(), old(self).n_spec()),
            },
            final(self).n_spec() == old(self).n_spec(),
            final(self).include_singletons == old(self).include_singletons,
            final(self).work_left() <= old(self).work_left(),
            old(self).call_stack@.len() > 0 && old(self).call_stack@.last().first_call ==> final(self).work_left() < old(self).work_left(),
            forall|x: int|
                0 <= x < old(self).n_spec() && old(self).emitted_spec()[x] ==> #[trigger] final(self).emitted_spec()[x],
            match r {
                None => {
                    &&& final(self).call_stack@.len() == 0
                    &&& final(self).include_singletons ==> final(self).emitted_spec() == old(self).emitted_spec()
                },
                Some(component) => {
                    &&& component@.len() > 0
                    &&& component@.no_duplicates()
                    &&& forall|i: int|
                        0 <= i < component@.len() ==> {
                            &&& (#[trigger] component@[i]) < final(self).n_spec()
                            &&& !old(self).emitted_spec()[component@[i] as int]
                            &&& final(self).emitted_spec()[component@[i] as int]
                        }
                    &&& final(self).include_singletons ==> forall|x: int|
                        0 <= x < final(self).n_spec() && #[trigger] final(self).emitted_spec()[x] ==> old(self).emitted_spec()[x] || component@.contains(x as usize)
                },
            },
    {
        let ghost n = self.n_spec();
        loop
            invariant
                self.shape(),
                self.sound(),
                self.graph == old(self).graph,
                n == self.n_spec(),
                n == old(self).n_spec(),
                self.include_singletons == old(self).include_singletons,
                self.work_left() <= old(self).work_left(),
                old(self).call_stack@.len() > 0 && old(self).call_stack@.last().first_call ==> (self.work_left()
                    < old(self).work_left() || *self == *old(self)),
                forall|x: int|
                    0 <= x < n && old(self).emitted_spec()[x] ==> #[trigger] self.emitted_spec()[x],
                self.include_singletons ==> self.emitted_spec() == old(self).emitted_spec(),
            decreases self.work_left(), self.call_stack@.len(),
        {
            if self.call_stack.len() == 0 {
                return None;
            }
            let top = self.call_stack.len() - 1;
            proof {
                self.lemma_work_left();
            }
            if self.call_stack[top].first_call {
                self.enter();
            }
            if self.scan() {
                proof {
                    self.lemma_work_left();
                }
                continue ;
            }
            let ghost before = *self;
            let left = self.leave();
            proof {
                self.lemma_work_left();
            }
            if let Some(component) = left {
                proof {
                    assert forall|i: int| 0 <= i < component@.len() implies !old(self).emitted_spec()[(
                    #[trigger] component@[i]) as int] by {
                        assert(!before.emitted_spec()[component@[i] as int]);
                    }
                }
                return Some(component);
            }
        }
    }

    /// The work that is left is never negative.
    proof fn lemma_work_left(&self)
        requires
            self.shape(),
        ensures
            self.work_left() >= 0,
    {
        let n = self.states@.len() as int;
        lemma_marked_count_bound(visited_of(self.states@), n);
        if self.call_stack@.len() > 0 && self.call_stack@.last().first_call {
            let f = self.call_stack@.len() - 1;
            assert(frame_ok(self.states@, self.path_stack@, self.call_stack@, f));
            let v = self.call_stack@[f].node as int;
            lemma_marked_count_set(visited_of(self.states@), v, n);
            lemma_marked_count_bound(visited_of(self.states@).update(v, true), n);
        }
    }

    /// Returns either a vector of node ids that form an SCC or None if no further SCC was
    /// found. No node is returned twice; with singletons included, every node is returned
    /// in exactly one component before `None` is.
    pub fn next(&mut self) -> (r: Option<Vec<Node>>)
        requires
            old(self).wf(),
        ensures
            final(self).wf(),
            final(self).edges_spec() == old(self).edges_spec(),
            match r {
                None => true,
                Some(component) => is_class(component@, old(self).edges_spec(), old(self).n_spec()),
            },
            final(self).n_spec() == old(self).n_spec(),
            final(self).include_singletons_spec() == old(self).include_singletons_spec(),
            forall|x: int|
                0 <= x < old(self).n_spec() && old(self).emitted_spec()[x] ==> #[trigger] final(self).emitted_spec()[x],
            match r {
                None => {
                    &&& forall|x: int| 0 <= x < final(self).n_spec() ==> #[trigger] final(self).emitted_spec()[x]
                    &&& final(self).include_singletons_spec() ==> final(self).emitted_spec() == old(self).emitted_spec()
                },
                Some(component) => {
                    &&& component@.len() > 0
                    &&& component@.no_duplicates()
                    &&& forall|i: int|
                        0 <= i < component@.len() ==> {
                            &&& (#[trigger] component@[i]) < final(self).n_spec()
                            &&& !old(self).emitted_spec()[component@[i] as int]
                            &&& final(self).emitted_spec()[component@[i] as int]
                        }
                    &&& final(self).include_singletons_spec() ==> forall|x: int|
                        0 <= x < final(self).n_spec() && #[trigger] final(self).emitted_spec()[x] ==> old(self).emitted_spec()[x] || component@.contains(x as usize)
                },
            },
    {
        let ghost n = self.n_spec();
        loop
            invariant
                self.shape(),
                self.sound(),
                self.graph == old(self).graph,
                n == self.n_spec(),
                n == old(self).n_spec(),
                self.include_singletons == old(self).include_singletons,
                forall|x: int|
                    0 <= x < n && old(self).emitted_spec()[x] ==> #[trigger] self.emitted_spec()[x],
                self.include_singletons ==> self.emitted_spec() == old(self).emitted_spec(),
            decreases self.work_left(),
        {
            let ghost round = *self;
            proof {
                self.lemma_work_left();
            }
            let found = self.search();
            if let Some(component) = found {
                proof {
                    assert forall|i: int| 0 <= i < component@.len() implies !old(self).emitted_spec()[(
                    #[trigger] component@[i]) as int] by {
                        assert(!round.emitted_spec()[component@[i] as int]);
                    }
                }
                return Some(component);
            }
            let ghost after = *self;
            let fresh = self.next_unvisited_node();
            proof {
                assert(self.emitted_spec() =~= after.emitted_spec());
                self.lemma_work_left();
            }
            if fresh.is_none() {
                proof {
                    assert forall|x: int| 0 <= x < n implies #[trigger] self.emitted_spec()[x] by {
                        assert(self.states@[x].visited);
                        if self.states@[x].on_stack {
                            assert(self.path_stack@.contains(x as usize));
                        }
                    }
                }
                return None;
            }
        }
    }

    /// After a frame was popped, everything is in order but for the component of its node,
    /// which may still stand on the path stack from `first` on.
    #[verifier::opaque]
    spec fn cut_ready(&self, first: int) -> bool {
        let n = self.states@.len() as int;
        &&& self.graph.wf()
        &&& self.graph.n_spec() == n
        &&& n <= usize::MAX
        &&& self.idx == marked_count(visited_of(self.states@), n)
        &&& path_ok(self.states@, self.path_stack@, self.idx)
        &&& forall|f: int|
            0 <= f < self.call_stack@.len() ==> #[trigger] frame_ok(
                self.states@,
                self.path_stack@,
                self.call_stack@,
                f,
            )
        &&& 0 <= first < self.path_stack@.len()
        &&& self.call_stack@.len() == 0 ==> first == 0
        &&& self.call_stack@.len() > 0 ==> !self.call_stack@.last().first_call
            && self.call_stack@.last().initial_stack_len < first
        &&& self.potentially_unvisited <= n
        &&& forall|x: int| 0 <= x < self.potentially_unvisited ==> (#[trigger] self.states@[x]).visited
    }

    /// Taking the component off the path stack, and its nodes off the stack, leaves the
    /// search in order, with exactly these nodes emitted in addition.
    proof fn lemma_cut(mid: Self, post: Self, first: int)
        requires
            mid.cut_ready(first),
            post.path_stack@ == mid.path_stack@.take(first),
            post.call_stack == mid.call_stack,
            post.idx == mid.idx,
            post.graph == mid.graph,
            post.potentially_unvisited == mid.potentially_unvisited,
            post.states@.len() == mid.states@.len(),
            forall|x: int|
                0 <= x < mid.states@.len() ==> #[trigger] post.states@[x] == cleared(
                    mid.states@,
                    mid.path_stack@.subrange(first, mid.path_stack@.len() as int),
                    x,
                ),
        ensures
            post.shape(),
            forall|x: int|
                0 <= x < mid.states@.len() ==> (#[trigger] post.emitted_spec()[x] <==> mid.emitted_spec()[x]
                    || mid.path_stack@.subrange(first, mid.path_stack@.len() as int).contains(x as usize)),
    {
        reveal(StronglyConnected::cut_ready);
        let n = mid.states@.len() as int;
        let states = mid.states@;
        let path = mid.path_stack@;
        let calls = mid.call_stack@;
        let part = path.subrange(first, path.len() as int);
        let states2 = post.states@;
        let path2 = post.path_stack@;
        assert(visited_of(states2) =~= visited_of(states));
        // the nodes that stay on the path stack are not among those taken off
        assert forall|i: int| 0 <= i < first implies !part.contains(#[trigger] path[i]) by {
            if part.contains(path[i]) {
                let p = choose|p: int| 0 <= p < part.len() && part[p] == path[i];
                assert(states[path[i] as int].index < states[path[first + p] as int].index);
            }
        }
        assert forall|i: int| 0 <= i < path2.len() implies {
            &&& (#[trigger] path2[i]) < states2.len()
            &&& states2[path2[i] as int].on_stack
            &&& states2[path2[i] as int].visited
            &&& states2[path2[i] as int].index < post.idx
            &&& states2[path2[0] as int].index <= states2[path2[i] as int].low_link
            &&& states2[path2[i] as int].low_link <= states2[path2[i] as int].index
        } by {
            assert(path2[i] == path[i]);
            assert(path2[0] == path[0]);
            assert(!part.contains(path[i]));
            assert(!part.contains(path[0]));
        }
        assert forall|i: int, j: int| 0 <= i < j < path2.len() implies states2[(#[trigger] path2[i]) as int].index
            < states2[(#[trigger] path2[j]) as int].index by {
            assert(path2[i] == path[i] && path2[j] == path[j]);
            assert(states[path[i] as int].index < states[path[j] as int].index);
        }
        assert forall|x: int| 0 <= x < states2.len() && (#[trigger] states2[x]).on_stack implies path2.contains(
            x as usize,
        ) by {
            assert(states2[x] == cleared(states, part, x));
            assert(!part.contains(x as usize));
            assert(states[x].on_stack);
            assert(path.contains(x as usize));
            let i = choose|i: int| 0 <= i < path.len() && path[i] == x as usize;
            if i >= first {
                assert(part[i - first] == x as usize);
            }
            assert(path2[i] == x as usize);
        }
        assert forall|f: int| 0 <= f < calls.len() implies #[trigger] frame_ok(states2, path2, calls, f) by {
            assert(frame_ok(states, path, calls, f));
            lemma_frames_rise(states, path, calls, f);
            assert(path2[calls[f].initial_stack_len as int] == path[calls[f].initial_stack_len as int]);
        }
        assert forall|x: int| 0 <= x < post.potentially_unvisited implies (#[trigger] states2[x]).visited by {
            assert(states[x].visited);
            assert(states2[x] == cleared(states, part, x));
        }
        assert forall|x: int| 0 <= x < n implies (#[trigger] post.emitted_spec()[x] <==> mid.emitted_spec()[x]
            || part.contains(x as usize)) by {
            assert(states2[x] == cleared(states, part, x));
            assert(post.emitted_spec()[x] == (states2[x].visited && !states2[x].on_stack));
            assert(mid.emitted_spec()[x] == (states[x].visited && !states[x].on_stack));
            if part.contains(x as usize) {
                let p = choose|p: int| 0 <= p < part.len() && part[p] == x as usize;
                assert(path[first + p] == x as usize);
                assert(states[path[first + p] as int].visited);
                assert(states[path[first + p] as int].on_stack);
            }
        }
    }
}

/// The state of node `x` after the nodes of `part` were taken off the stack.
spec fn cleared(states: Seq<NodeState>, part: Seq<Node>, x: int) -> NodeState {
    if part.contains(x as usize) {
        NodeState { on_stack: false, ..states[x] }
    } else {
        states[x]
    }
}

/// The frames stand on the path stack in rising order: no frame stands above the last.
proof fn lemma_frames_rise(states: Seq<NodeState>, path: Seq<Node>, calls: Seq<StackFrame>, f: int)
    requires
        0 <= f < calls.len(),
        forall|g: int| 0 <= g < calls.len() ==> #[trigger] frame_ok(states, path, calls, g),
        !calls.last().first_call,
    ensures
        !calls[f].first_call,
        calls[f].initial_stack_len <= calls.last().initial_stack_len,
    decreases calls.len() - f,
{
    assert(frame_ok(states, path, calls, f));
    if f < calls.len() - 1 {
        assert(frame_ok(states, path, calls, f + 1));
        lemma_frames_rise(states, path, calls, f + 1);
    }
}


/// The frames whose node was reached stand on the path stack in rising order.
proof fn lemma_rise(states: Seq<NodeState>, path: Seq<Node>, calls: Seq<StackFrame>, f: int, g: int)
    requires
        0 <= f <= g < calls.len(),
        forall|h: int| 0 <= h < calls.len() ==> #[trigger] frame_ok(states, path, calls, h),
        !calls[g].first_call,
    ensures
        !calls[f].first_call,
        calls[f].initial_stack_len <= calls[g].initial_stack_len,
        f < g ==> calls[f].initial_stack_len < calls[g].initial_stack_len,
        calls[g].initial_stack_len < path.len(),
        path[calls[g].initial_stack_len as int] == calls[g].node,
    decreases g - f,
{
    assert(frame_ok(states, path, calls, g));
    if f < g {
        assert(frame_ok(states, path, calls, g - 1));
        lemma_rise(states, path, calls, f, g - 1);
    }
}

/// The node `x` is complete: the search has reached it and taken it off the stack again.
spec fn emitted_of(states: Seq<NodeState>, x: int) -> bool {
    states[x].visited && !states[x].on_stack
}

/// The number of frames whose node the search has reached: all but, at most, the one on top.
spec fn active_count(calls: Seq<StackFrame>) -> int {
    if calls.len() > 0 && calls.last().first_call {
        calls.len() - 1
    } else {
        calls.len() as int
    }
}

/// Where on the path stack the nodes that were reached below the frame `f` end: where the
/// node of the next frame stands or, for the last frame, at the top.
spec fn upper(path: Seq<Node>, calls: Seq<StackFrame>, f: int) -> int {
    if f + 1 < active_count(calls) {
        calls[f + 1].initial_stack_len as int
    } else {
        path.len() as int
    }
}

/// No edge leads from a complete node to one that is not complete.
spec fn closed_ok(states: Seq<NodeState>, edges: Seq<Edge>) -> bool {
    forall|j: int|
        0 <= j < edges.len() && emitted_of(states, (#[trigger] edges[j]).source as int) ==> emitted_of(
            states,
            edges[j].target as int,
        )
}

/// Every frame hangs below the one before it by a walk.
spec fn tree_ok(calls: Seq<StackFrame>, edges: Seq<Edge>) -> bool {
    forall|f: int|
        1 <= f < calls.len() ==> reaches(edges, calls[f - 1].node as int, (#[trigger] calls[f]).node as int)
}

/// The node of a frame reaches every node that stands on the path stack from its own
/// position on.
spec fn below_ok(path: Seq<Node>, calls: Seq<StackFrame>, edges: Seq<Edge>) -> bool {
    forall|f: int, i: int|
        0 <= f < active_count(calls) && calls[f].initial_stack_len <= i < path.len() ==> #[trigger] reaches(
            edges,
            calls[f].node as int,
            path[i] as int,
        )
}

/// The low link of the node at position `i` of the path stack is the index of a node that
/// stands no higher on the path stack and that the node reaches.
spec fn anchor_ok(states: Seq<NodeState>, path: Seq<Node>, edges: Seq<Edge>, i: int) -> bool {
    exists|j: int|
        0 <= j <= i && states[path[j] as int].index == states[path[i] as int].low_link && #[trigger] reaches(
            edges,
            path[i] as int,
            path[j] as int,
        )
}

/// The edge at `j`, if it leaves `x`, leads to a node that was reached, and the low link of
/// `x` is no greater than the index of that node if it is on the stack.
spec fn edge_done(states: Seq<NodeState>, edges: Seq<Edge>, x: int, j: int) -> bool {
    edges[j].source == x ==> states[edges[j].target as int].visited && (states[edges[j].target as int].on_stack
        ==> states[x].low_link <= states[edges[j].target as int].index)
}

/// Every edge that leaves `x` is done.
spec fn node_done(states: Seq<NodeState>, edges: Seq<Edge>, x: int) -> bool {
    forall|j: int| 0 <= j < edges.len() ==> #[trigger] edge_done(states, edges, x, j)
}

/// The node at position `i` of the path stack, which was reached below the frame `f` and
/// whose own frame is gone: it is no root, its edges are done, and its low link has been
/// passed on to the node of the frame.
spec fn done_ok(
    states: Seq<NodeState>,
    path: Seq<Node>,
    calls: Seq<StackFrame>,
    edges: Seq<Edge>,
    f: int,
    i: int,
) -> bool {
    let x = path[i] as int;
    &&& states[x].low_link < states[x].index
    &&& node_done(states, edges, x)
    &&& states[calls[f].node as int].low_link <= states[x].low_link
}

/// What makes the components that the search cuts off strongly connected components.
#[verifier::opaque]
spec fn sound_of(states: Seq<NodeState>, path: Seq<Node>, calls: Seq<StackFrame>, edges: Seq<Edge>) -> bool {
    &&& closed_ok(states, edges)
    &&& tree_ok(calls, edges)
    &&& below_ok(path, calls, edges)
    &&& forall|i: int| 0 <= i < path.len() ==> #[trigger] anchor_ok(states, path, edges, i)
    &&& forall|f: int, i: int|
        0 <= f < active_count(calls) && calls[f].initial_stack_len < i < upper(path, calls, f) ==> #[trigger] done_ok(
            states,
            path,
            calls,
            edges,
            f,
            i,
        )
}

/// The shape of the stacks, as the lemmas on soundness need it.
spec fn shape_of(states: Seq<NodeState>, path: Seq<Node>, calls: Seq<StackFrame>, edges: Seq<Edge>, idx: Node) -> bool {
    &&& path_ok(states, path, idx)
    &&& forall|f: int| 0 <= f < calls.len() ==> #[trigger] frame_ok(states, path, calls, f)
    &&& endpoints_below(edges, states.len() as int)
    &&& calls.len() == 0 ==> path.len() == 0
}

/// A new frame for a node that the node of the frame on top reaches keeps the search sound.
proof fn lemma_sound_push(
    states: Seq<NodeState>,
    path: Seq<Node>,
    calls: Seq<StackFrame>,
    edges: Seq<Edge>,
    idx: Node,
    node: Node,
    parent: Option<Node>,
)
    requires
        shape_of(states, path, calls, edges, idx),
        sound_of(states, path, calls, edges),
        match parent {
            None => calls.len() == 0,
            Some(p) => calls.len() > 0 && calls.last().node == p && !calls.last().first_call && reaches(
                edges,
                p as int,
                node as int,
            ),
        },
    ensures
        sound_of(states, path, calls.push(fresh_frame(node, parent)), edges),
{
    reveal(sound_of);
    let calls2 = calls.push(fresh_frame(node, parent));
    assert(active_count(calls2) == active_count(calls));
    assert forall|f: int| 1 <= f < calls2.len() implies reaches(
        edges,
        calls2[f - 1].node as int,
        (#[trigger] calls2[f]).node as int,
    ) by {
        if f < calls.len() {
            assert(reaches(edges, calls[f - 1].node as int, calls[f].node as int));
        }
    }
    assert forall|f: int, i: int|
        0 <= f < active_count(calls2) && calls2[f].initial_stack_len <= i < path.len() implies #[trigger] reaches(
        edges,
        calls2[f].node as int,
        path[i] as int,
    ) by {
        assert(reaches(edges, calls[f].node as int, path[i] as int));
    }
    assert forall|f: int, i: int|
        0 <= f < active_count(calls2) && calls2[f].initial_stack_len < i < upper(path, calls2, f) implies #[trigger] done_ok(
        states,
        path,
        calls2,
        edges,
        f,
        i,
    ) by {
        assert(upper(path, calls2, f) == upper(path, calls, f));
        assert(done_ok(states, path, calls, edges, f, i));
    }
}

/// Positions on the path stack are told apart by the indices of their nodes.
proof fn lemma_positions(states: Seq<NodeState>, path: Seq<Node>, idx: Node, i: int, j: int)
    requires
        path_ok(states, path, idx),
        0 <= i < path.len(),
        0 <= j < path.len(),
    ensures
        states[path[i] as int].index <= states[path[j] as int].index ==> i <= j,
        path[i] == path[j] ==> i == j,
{
    if j < i {
        assert(states[path[j] as int].index < states[path[i] as int].index);
    }
    if i < j {
        assert(states[path[i] as int].index < states[path[j] as int].index);
    }
}

/// The first call for the node of the frame on top keeps the search sound.
proof fn lemma_sound_enter(
    states: Seq<NodeState>,
    path: Seq<Node>,
    calls: Seq<StackFrame>,
    edges: Seq<Edge>,
    idx: Node,
    states2: Seq<NodeState>,
    path2: Seq<Node>,
    calls2: Seq<StackFrame>,
)
    requires
        shape_of(states, path, calls, edges, idx),
        sound_of(states, path, calls, edges),
        calls.len() > 0,
        calls.last().first_call,
        path.len() <= usize::MAX,
        states2 == states.update(
            calls.last().node as int,
            NodeState { visited: true, on_stack: true, index: idx, low_link: idx },
        ),
        path2 == path.push(calls.last().node),
        calls2 == calls.update(
            calls.len() - 1,
            StackFrame { first_call: false, initial_stack_len: path.len() as usize, ..calls.last() },
        ),
    ensures
        sound_of(states2, path2, calls2, edges),
{
    reveal(sound_of);
    let top = calls.len() - 1;
    let v = calls[top].node;
    let n = states.len() as int;
    assert(frame_ok(states, path, calls, top));
    assert(!states[v as int].visited);
    assert forall|i: int| 0 <= i < path.len() implies #[trigger] path[i] != v by {
        assert(states[path[i] as int].visited);
    }
    assert forall|f: int| 0 <= f < top implies (#[trigger] calls[f]).node != v && !calls[f].first_call
        && calls[f].initial_stack_len < path.len() && path[calls[f].initial_stack_len as int] == calls[f].node by {
        assert(frame_ok(states, path, calls, f));
        assert(states[path[calls[f].initial_stack_len as int] as int].visited);
    }
    assert(active_count(calls) == top);
    assert(active_count(calls2) == top + 1);
    assert forall|j: int| 0 <= j < edges.len() && emitted_of(states2, (#[trigger] edges[j]).source as int) implies emitted_of(
        states2,
        edges[j].target as int,
    ) by {
        assert(emitted_of(states, edges[j].source as int));
    }
    assert forall|f: int| 1 <= f < calls2.len() implies reaches(
        edges,
        calls2[f - 1].node as int,
        (#[trigger] calls2[f]).node as int,
    ) by {
        assert(reaches(edges, calls[f - 1].node as int, calls[f].node as int));
    }
    assert forall|f: int, i: int|
        0 <= f < active_count(calls2) && calls2[f].initial_stack_len <= i < path2.len() implies #[trigger] reaches(
        edges,
        calls2[f].node as int,
        path2[i] as int,
    ) by {
        if f == top {
            assert(is_walk(edges, Seq::<Edge>::empty(), v as int, v as int));
        } else if i < path.len() {
            assert(reaches(edges, calls[f].node as int, path[i] as int));
        } else {
            let below = calls[top - 1];
            lemma_rise(states, path, calls, f, top - 1);
            assert(reaches(edges, calls[f].node as int, path[below.initial_stack_len as int] as int));
            assert(reaches(edges, calls[top - 1].node as int, calls[top].node as int));
            lemma_reaches_trans(edges, calls[f].node as int, below.node as int, v as int);
        }
    }
    assert forall|i: int| 0 <= i < path2.len() implies #[trigger] anchor_ok(states2, path2, edges, i) by {
        if i < path.len() {
            assert(anchor_ok(states, path, edges, i));
            let j = choose|j: int|
                0 <= j <= i && states[path[j] as int].index == states[path[i] as int].low_link && #[trigger] reaches(
                    edges,
                    path[i] as int,
                    path[j] as int,
                );
            assert(reaches(edges, path2[i] as int, path2[j] as int));
        } else {
            assert(is_walk(edges, Seq::<Edge>::empty(), v as int, v as int));
            assert(reaches(edges, path2[i] as int, path2[i] as int));
        }
    }
    assert forall|f: int, i: int|
        0 <= f < active_count(calls2) && calls2[f].initial_stack_len < i < upper(path2, calls2, f) implies #[trigger] done_ok(
        states2,
        path2,
        calls2,
        edges,
        f,
        i,
    ) by {
        assert(f < top);
        assert(upper(path2, calls2, f) == upper(path, calls, f));
        assert(done_ok(states, path, calls, edges, f, i));
        let x = path[i] as int;
        assert forall|j: int| 0 <= j < edges.len() implies #[trigger] edge_done(states2, edges, x, j) by {
            assert(edge_done(states, edges, x, j));
        }
    }
}


/// The low link after `k` edges is no greater than before and than the index of any node
/// on the stack to which one of these edges leads, and it is one of these values.
proof fn lemma_lowered(states: Seq<NodeState>, block: Seq<Edge>, v: Node, k: int)
    requires
        0 <= k <= block.len(),
    ensures
        lowered(states, block, v, k) <= states[v as int].low_link,
        forall|m: int|
            0 <= m < k && states[(#[trigger] block[m]).target as int].visited && states[block[m].target as int].on_stack
                ==> lowered(states, block, v, k) <= states[block[m].target as int].index,
        lowered(states, block, v, k) == states[v as int].low_link || exists|m: int|
            0 <= m < k && states[(#[trigger] block[m]).target as int].visited && states[block[m].target as int].on_stack
                && states[block[m].target as int].index == lowered(states, block, v, k),
    decreases k,
{
    if k > 0 {
        lemma_lowered(states, block, v, k - 1);
        let low = lowered(states, block, v, k - 1);
        let reached = states[block[k - 1].target as int];
        if reached.visited && reached.on_stack && reached.index < low {
            assert(block[k - 1].target == block[k - 1].target);
        } else if low != states[v as int].low_link {
            let m = choose|m: int|
                0 <= m < k - 1 && states[(#[trigger] block[m]).target as int].visited && states[block[m].target as int].on_stack
                    && states[block[m].target as int].index == low;
            assert(states[block[m].target as int].index == lowered(states, block, v, k));
        }
    }
}

/// The edges before the first that leads to a node not yet reached lead to nodes that were
/// reached.
proof fn lemma_unseen(states: Seq<NodeState>, block: Seq<Edge>, from: int, m: int)
    requires
        0 <= from <= m < first_unseen(states, block, from),
    ensures
        m < block.len(),
        states[block[m].target as int].visited,
    decreases block.len() - from,
{
    if from < block.len() && states[block[from].target as int].visited && from < m {
        lemma_unseen(states, block, from + 1, m);
    }
}

/// Walking the edges of the node of the frame on top keeps the search sound. Where all of
/// them were walked, they are done; where the walk stopped at an edge, the node reaches the
/// target of that edge.
proof fn lemma_sound_scan(
    g: &OneDirGraph,
    states: Seq<NodeState>,
    path: Seq<Node>,
    calls: Seq<StackFrame>,
    idx: Node,
    k: int,
    states2: Seq<NodeState>,
    calls2: Seq<StackFrame>,
)
    requires
        g.wf(),
        states.len() == g.n_spec(),
        shape_of(states, path, calls, g.edges_spec(), idx),
        sound_of(states, path, calls, g.edges_spec()),
        calls.len() > 0,
        !calls.last().first_call,
        k == first_unseen(
            states,
            g.edges_spec().subrange(
                g.limits_spec()[calls.last().node as int] as int,
                g.limits_spec()[calls.last().node + 1] as int,
            ),
            0,
        ),
        walked(
            states,
            calls,
            g.edges_spec().subrange(
                g.limits_spec()[calls.last().node as int] as int,
                g.limits_spec()[calls.last().node + 1] as int,
            ),
            k,
            states2,
            calls2,
        ),
    ensures
        sound_of(states2, path, calls2, g.edges_spec()),
        ({
            let v = calls.last().node;
            let block = g.edges_spec().subrange(g.limits_spec()[v as int] as int, g.limits_spec()[v + 1] as int);
            &&& 0 <= k <= block.len()
            &&& k == block.len() ==> node_done(states2, g.edges_spec(), v as int)
            &&& k < block.len() ==> reaches(g.edges_spec(), v as int, block[k].target as int)
        }),
{
    reveal(sound_of);
    let edges = g.edges_spec();
    let lim = g.limits_spec();
    let n = states.len() as int;
    let top = calls.len() - 1;
    let v = calls[top].node;
    lemma_rise(states, path, calls, top, top);
    let a = calls[top].initial_stack_len as int;
    assert(lim[v as int] <= lim[v + 1] <= edges.len());
    let block = edges.subrange(lim[v as int] as int, lim[v + 1] as int);
    assert(0 <= k <= block.len()) by {
        lemma_first_unseen_range(states, block, 0);
    }
    lemma_lowered(states, block, v, k);
    let low2 = lowered(states, block, v, k);
    assert forall|m: int| 0 <= m < block.len() implies edges.contains(#[trigger] block[m]) && block[m].source == v
        && block[m].target < n by {
        lemma_block_key(edges, lim, n, false, v as int, lim[v as int] + m);
        assert(block[m] == edges[lim[v as int] + m]);
    }
    assert(active_count(calls2) == active_count(calls));
    assert forall|j: int| 0 <= j < edges.len() && emitted_of(states2, (#[trigger] edges[j]).source as int) implies emitted_of(
        states2,
        edges[j].target as int,
    ) by {
        assert(emitted_of(states, edges[j].source as int));
    }
    assert forall|f: int| 1 <= f < calls2.len() implies reaches(
        edges,
        calls2[f - 1].node as int,
        (#[trigger] calls2[f]).node as int,
    ) by {
        assert(reaches(edges, calls[f - 1].node as int, calls[f].node as int));
    }
    assert forall|f: int, i: int|
        0 <= f < active_count(calls2) && calls2[f].initial_stack_len <= i < path.len() implies #[trigger] reaches(
        edges,
        calls2[f].node as int,
        path[i] as int,
    ) by {
        assert(reaches(edges, calls[f].node as int, path[i] as int));
    }
    assert forall|i: int| 0 <= i < path.len() implies #[trigger] anchor_ok(states2, path, edges, i) by {
        assert(anchor_ok(states, path, edges, i));
        let j = choose|j: int|
            0 <= j <= i && states[path[j] as int].index == states[path[i] as int].low_link && #[trigger] reaches(
                edges,
                path[i] as int,
                path[j] as int,
            );
        if path[i] == v && low2 != states[v as int].low_link {
            let m = choose|m: int|
                0 <= m < k && states[(#[trigger] block[m]).target as int].visited && states[block[m].target as int].on_stack
                    && states[block[m].target as int].index == low2;
            let t = block[m].target;
            assert(edges.contains(block[m]));
            lemma_walk_single(edges, block[m]);
            assert(reaches(edges, v as int, t as int));
            assert(path.contains(t));
            let jt = choose|jt: int| 0 <= jt < path.len() && path[jt] == t;
            lemma_positions(states, path, idx, jt, i);
            assert(reaches(edges, path[i] as int, path[jt] as int));
        } else {
            assert(reaches(edges, path[i] as int, path[j] as int));
        }
    }
    assert forall|f: int, i: int|
        0 <= f < active_count(calls2) && calls2[f].initial_stack_len < i < upper(path, calls2, f) implies #[trigger] done_ok(
        states2,
        path,
        calls2,
        edges,
        f,
        i,
    ) by {
        assert(upper(path, calls2, f) == upper(path, calls, f));
        assert(done_ok(states, path, calls, edges, f, i));
        lemma_rise(states, path, calls, f, top);
        lemma_rise(states, path, calls, f, f);
        if f < top {
            lemma_rise(states, path, calls, f + 1, top);
            lemma_positions(states, path, idx, calls[f].initial_stack_len as int, a);
            assert(calls[f].node != v);
        }
        lemma_positions(states, path, idx, i, a);
        let x = path[i] as int;
        assert(x != v);
        assert(states2[x] == states[x]);
        assert forall|j: int| 0 <= j < edges.len() implies #[trigger] edge_done(states2, edges, x, j) by {
            assert(edge_done(states, edges, x, j));
        }
        assert(node_done(states2, edges, x));
        assert(states2[calls2[f].node as int].low_link <= states[calls[f].node as int].low_link);
    }
    if k == block.len() {
        assert forall|j: int| 0 <= j < edges.len() implies #[trigger] edge_done(states2, edges, v as int, j) by {
            if edges[j].source == v {
                let m = j - lim[v as int];
                assert(block[m] == edges[j]);
                lemma_unseen(states, block, 0, m);
            }
        }
    } else {
        lemma_walk_single(edges, block[k]);
    }
}

/// The first edge that leads to a node not yet reached stands within the block.
proof fn lemma_first_unseen_range(states: Seq<NodeState>, block: Seq<Edge>, from: int)
    requires
        0 <= from <= block.len(),
    ensures
        from <= first_unseen(states, block, from) <= block.len(),
    decreases block.len() - from,
{
    if from < block.len() && states[block[from].target as int].visited {
        lemma_first_unseen_range(states, block, from + 1);
    }
}

/// No walk leads from a complete node to one that is not complete.
proof fn lemma_stays(states: Seq<NodeState>, edges: Seq<Edge>, p: Seq<Edge>, x: int, y: int)
    requires
        closed_ok(states, edges),
        emitted_of(states, x),
        is_walk(edges, p, x, y),
    ensures
        emitted_of(states, y),
    decreases p.len(),
{
    if p.len() > 0 {
        lemma_stays(states, edges, p.drop_last(), x, p.last().source as int);
        let j = choose|j: int| 0 <= j < edges.len() && edges[j] == p.last();
        assert(emitted_of(states, edges[j].source as int));
    }
}

/// `part` holds exactly the nodes that are strongly connected to its nodes.
pub open spec fn is_class(part: Seq<Node>, edges: Seq<Edge>, n: int) -> bool {
    forall|x: Node, y: Node| #[trigger]
        part.contains(x) && y < n ==> (#[trigger] part.contains(y) <==> mutual(edges, x as int, y as int))
}


/// The state of the parent after the low link of the node of the popped frame was passed on.
spec fn passed_on(states: Seq<NodeState>, frame: StackFrame) -> Seq<NodeState> {
    states.update(
        frame.parent as int,
        NodeState {
            low_link: if states[frame.node as int].low_link < states[frame.parent as int].low_link {
                states[frame.node as int].low_link
            } else {
                states[frame.parent as int].low_link
            },
            ..states[frame.parent as int]
        },
    )
}

/// Leaving a node that is no root keeps the search sound.
proof fn lemma_sound_keep(states: Seq<NodeState>, path: Seq<Node>, calls: Seq<StackFrame>, edges: Seq<Edge>, idx: Node)
    requires
        shape_of(states, path, calls, edges, idx),
        sound_of(states, path, calls, edges),
        calls.len() > 0,
        !calls.last().first_call,
        node_done(states, edges, calls.last().node as int),
        states[calls.last().node as int].low_link != states[calls.last().node as int].index,
    ensures
        sound_of(passed_on(states, calls.last()), path, calls.drop_last(), edges),
{
    reveal(sound_of);
    let top = calls.len() - 1;
    let frame = calls[top];
    let v = frame.node;
    let a = frame.initial_stack_len as int;
    let states2 = passed_on(states, frame);
    let calls2 = calls.drop_last();
    lemma_rise(states, path, calls, top, top);
    assert(frame_ok(states, path, calls, top));
    if top == 0 {
        assert(states[path[0] as int].index <= states[path[a] as int].low_link);
        assert(states[path[a] as int].low_link <= states[path[a] as int].index);
    }
    assert(top > 0);
    lemma_rise(states, path, calls, top - 1, top);
    lemma_rise(states, path, calls, top - 1, top - 1);
    let p = calls[top - 1].node;
    let b = calls[top - 1].initial_stack_len as int;
    assert(frame.parent == p && path[b] == p && b < a);
    lemma_positions(states, path, idx, a, b);
    assert(p != v);
    assert(active_count(calls) == top + 1);
    assert(active_count(calls2) == top);
    assert forall|j: int| 0 <= j < edges.len() && emitted_of(states2, (#[trigger] edges[j]).source as int) implies emitted_of(
        states2,
        edges[j].target as int,
    ) by {
        assert(emitted_of(states, edges[j].source as int));
    }
    assert forall|f: int| 1 <= f < calls2.len() implies reaches(
        edges,
        calls2[f - 1].node as int,
        (#[trigger] calls2[f]).node as int,
    ) by {
        assert(reaches(edges, calls[f - 1].node as int, calls[f].node as int));
    }
    assert forall|f: int, i: int|
        0 <= f < active_count(calls2) && calls2[f].initial_stack_len <= i < path.len() implies #[trigger] reaches(
        edges,
        calls2[f].node as int,
        path[i] as int,
    ) by {
        assert(reaches(edges, calls[f].node as int, path[i] as int));
    }
    assert forall|i: int| 0 <= i < path.len() implies #[trigger] anchor_ok(states2, path, edges, i) by {
        assert(anchor_ok(states, path, edges, i));
        let j = choose|j: int|
            0 <= j <= i && states[path[j] as int].index == states[path[i] as int].low_link && #[trigger] reaches(
                edges,
                path[i] as int,
                path[j] as int,
            );
        if path[i] == p && states[v as int].low_link < states[p as int].low_link {
            lemma_positions(states, path, idx, i, b);
            assert(anchor_ok(states, path, edges, a));
            let jv = choose|jv: int|
                0 <= jv <= a && states[path[jv] as int].index == states[path[a] as int].low_link && #[trigger] reaches(
                    edges,
                    path[a] as int,
                    path[jv] as int,
                );
            assert(reaches(edges, calls[top - 1].node as int, path[a] as int));
            lemma_reaches_trans(edges, p as int, v as int, path[jv] as int);
            lemma_positions(states, path, idx, jv, b);
            assert(reaches(edges, path[i] as int, path[jv] as int));
        } else {
            assert(reaches(edges, path[i] as int, path[j] as int));
        }
    }
    assert forall|f: int, i: int|
        0 <= f < active_count(calls2) && calls2[f].initial_stack_len < i < upper(path, calls2, f) implies #[trigger] done_ok(
        states2,
        path,
        calls2,
        edges,
        f,
        i,
    ) by {
        let x = path[i] as int;
        lemma_rise(states, path, calls, f, top - 1);
        lemma_rise(states, path, calls, f, f);
        if f < top - 1 {
            lemma_rise(states, path, calls, f + 1, top - 1);
            lemma_rise(states, path, calls, f + 1, f + 1);
            assert(upper(path, calls2, f) == upper(path, calls, f));
            assert(done_ok(states, path, calls, edges, f, i));
            lemma_positions(states, path, idx, i, b);
            lemma_positions(states, path, idx, calls[f].initial_stack_len as int, b);
        } else if i < a {
            assert(upper(path, calls, f) == a);
            assert(done_ok(states, path, calls, edges, f, i));
        } else if i == a {
            assert(x == v);
        } else {
            assert(done_ok(states, path, calls, edges, top, i));
        }
        lemma_positions(states, path, idx, i, b);
        assert(x != p);
        assert(states2[x] == states[x]);
        assert forall|j: int| 0 <= j < edges.len() implies #[trigger] edge_done(states2, edges, x, j) by {
            assert(edge_done(states, edges, x, j));
        }
        assert(node_done(states2, edges, x));
    }
}

/// Cutting the component of a root off the path stack keeps the search sound, and the
/// component is a class of strongly connected nodes.
proof fn lemma_sound_cut(
    states: Seq<NodeState>,
    path: Seq<Node>,
    calls: Seq<StackFrame>,
    edges: Seq<Edge>,
    idx: Node,
    states2: Seq<NodeState>,
)
    requires
        shape_of(states, path, calls, edges, idx),
        sound_of(states, path, calls, edges),
        calls.len() > 0,
        !calls.last().first_call,
        node_done(states, edges, calls.last().node as int),
        states[calls.last().node as int].low_link == states[calls.last().node as int].index,
        states.len() <= usize::MAX,
        states2.len() == states.len(),
        forall|x: int|
            0 <= x < states.len() ==> #[trigger] states2[x] == cleared(
                passed_on(states, calls.last()),
                path.subrange(calls.last().initial_stack_len as int, path.len() as int),
                x,
            ),
    ensures
        sound_of(states2, path.take(calls.last().initial_stack_len as int), calls.drop_last(), edges),
        is_class(
            path.subrange(calls.last().initial_stack_len as int, path.len() as int),
            edges,
            states.len() as int,
        ),
{
    reveal(sound_of);
    let n = states.len() as int;
    let top = calls.len() - 1;
    let frame = calls[top];
    let v = frame.node;
    let a = frame.initial_stack_len as int;
    let part = path.subrange(a, path.len() as int);
    let path2 = path.take(a);
    let calls2 = calls.drop_last();
    lemma_rise(states, path, calls, top, top);
    assert(frame_ok(states, path, calls, top));
    assert(active_count(calls) == top + 1);
    // passing the low link of a root on changes nothing
    assert(passed_on(states, frame) =~= states) by {
        if top > 0 {
            lemma_rise(states, path, calls, top - 1, top);
            lemma_rise(states, path, calls, top - 1, top - 1);
            let b = calls[top - 1].initial_stack_len as int;
            assert(states[path[b] as int].index < states[path[a] as int].index);
            assert(states[path[b] as int].low_link <= states[path[b] as int].index);
        }
    }
    // what stands in the component
    assert forall|x: Node| #[trigger] part.contains(x) implies x < n && states[x as int].on_stack && exists|i: int|
        a <= i < path.len() && path[i] == x by {
        let m = choose|m: int| 0 <= m < part.len() && part[m] == x;
        assert(path[a + m] == x);
    }
    assert forall|x: int| 0 <= x < n && states[x].on_stack && states[v as int].index <= states[x].index implies part.contains(
        x as usize,
    ) by {
        assert(path.contains(x as usize));
        let i = choose|i: int| 0 <= i < path.len() && path[i] == x as usize;
        lemma_positions(states, path, idx, a, i);
        assert(part[i - a] == x as usize);
    }
    // every node of the component has its edges done, with a low link of at least the index of the root
    assert forall|i: int| a <= i < path.len() implies node_done(states, edges, (#[trigger] path[i]) as int)
        && states[v as int].index <= states[path[i] as int].low_link by {
        if i > a {
            assert(done_ok(states, path, calls, edges, top, i));
        }
    }
    assert forall|x: int| 0 <= x < n implies (emitted_of(states2, x) <==> emitted_of(states, x) || part.contains(
        x as usize,
    )) by {
        assert(states2[x] == cleared(states, part, x));
    }
    assert forall|j: int| 0 <= j < edges.len() && emitted_of(states2, (#[trigger] edges[j]).source as int) implies emitted_of(
        states2,
        edges[j].target as int,
    ) by {
        let x = edges[j].source;
        let t = edges[j].target as int;
        if part.contains(x) {
            let i = choose|i: int| a <= i < path.len() && path[i] == x;
            assert(node_done(states, edges, path[i] as int));
            assert(edge_done(states, edges, x as int, j));
        } else {
            assert(emitted_of(states, x as int));
        }
    }
    assert(closed_ok(states2, edges));
    if top > 0 {
        assert(active_count(calls2) == top);
    }
    assert forall|f: int| 1 <= f < calls2.len() implies reaches(
        edges,
        calls2[f - 1].node as int,
        (#[trigger] calls2[f]).node as int,
    ) by {
        assert(reaches(edges, calls[f - 1].node as int, calls[f].node as int));
    }
    assert forall|f: int, i: int|
        0 <= f < active_count(calls2) && calls2[f].initial_stack_len <= i < path2.len() implies #[trigger] reaches(
        edges,
        calls2[f].node as int,
        path2[i] as int,
    ) by {
        assert(reaches(edges, calls[f].node as int, path[i] as int));
    }
    assert forall|i: int| 0 <= i < path2.len() implies #[trigger] anchor_ok(states2, path2, edges, i) by {
        assert(anchor_ok(states, path, edges, i));
        let j = choose|j: int|
            0 <= j <= i && states[path[j] as int].index == states[path[i] as int].low_link && #[trigger] reaches(
                edges,
                path[i] as int,
                path[j] as int,
            );
        assert(states2[path[i] as int] == cleared(states, part, path[i] as int));
        assert(states2[path[j] as int] == cleared(states, part, path[j] as int));
        assert(reaches(edges, path2[i] as int, path2[j] as int));
    }
    assert forall|f: int, i: int|
        0 <= f < active_count(calls2) && calls2[f].initial_stack_len < i < upper(path2, calls2, f) implies #[trigger] done_ok(
        states2,
        path2,
        calls2,
        edges,
        f,
        i,
    ) by {
        lemma_rise(states, path, calls, f, top - 1);
        lemma_rise(states, path, calls, f, f);
        lemma_rise(states, path, calls, top - 1, top);
        if f < top - 1 {
            lemma_rise(states, path, calls, f + 1, top - 1);
        }
        assert(upper(path2, calls2, f) == upper(path, calls, f));
        assert(done_ok(states, path, calls, edges, f, i));
        assert(frame_ok(states, path, calls, f));
        let x = path[i] as int;
        assert(states2[x] == cleared(states, part, x));
        assert(states2[calls[f].node as int] == cleared(states, part, calls[f].node as int));
        assert forall|j: int| 0 <= j < edges.len() implies #[trigger] edge_done(states2, edges, x, j) by {
            assert(edge_done(states, edges, x, j));
            if edges[j].source == x {
                assert(states2[edges[j].target as int] == cleared(states, part, edges[j].target as int));
            }
        }
        assert(node_done(states2, edges, x));
    }
    // the component is a class
    assert forall|x: Node, y: Node| #[trigger] part.contains(x) && y < n implies (#[trigger] part.contains(y)
        <==> mutual(edges, x as int, y as int)) by {
        let i = choose|i: int| a <= i < path.len() && path[i] == x;
        lemma_back(states, path, calls, edges, idx, i);
        assert(reaches(edges, v as int, path[i] as int));
        if part.contains(y) {
            let k = choose|k: int| a <= k < path.len() && path[k] == y;
            lemma_back(states, path, calls, edges, idx, k);
            assert(reaches(edges, v as int, path[k] as int));
            lemma_reaches_trans(edges, x as int, v as int, y as int);
            lemma_reaches_trans(edges, y as int, v as int, x as int);
        }
        if mutual(edges, x as int, y as int) && !part.contains(y) {
            if emitted_of(states, y as int) {
                let p = choose|p: Seq<Edge>| #[trigger] is_walk(edges, p, y as int, x as int);
                lemma_stays(states, edges, p, y as int, x as int);
            } else {
                let p = choose|p: Seq<Edge>| #[trigger] is_walk(edges, p, x as int, y as int);
                assert(emitted_of(states2, x as int));
                lemma_stays(states2, edges, p, x as int, y as int);
            }
        }
    }
}

/// Every node of the component of a root reaches the root.
proof fn lemma_back(states: Seq<NodeState>, path: Seq<Node>, calls: Seq<StackFrame>, edges: Seq<Edge>, idx: Node, i: int)
    requires
        shape_of(states, path, calls, edges, idx),
        sound_of(states, path, calls, edges),
        calls.len() > 0,
        !calls.last().first_call,
        states[calls.last().node as int].low_link == states[calls.last().node as int].index,
        calls.last().initial_stack_len <= i < path.len(),
    ensures
        reaches(edges, path[i] as int, calls.last().node as int),
    decreases i,
{
    reveal(sound_of);
    let top = calls.len() - 1;
    let v = calls[top].node;
    let a = calls[top].initial_stack_len as int;
    lemma_rise(states, path, calls, top, top);
    if i == a {
        assert(is_walk(edges, Seq::<Edge>::empty(), v as int, v as int));
    } else {
        assert(active_count(calls) == top + 1);
        assert(done_ok(states, path, calls, edges, top, i));
        assert(anchor_ok(states, path, edges, i));
        let j = choose|j: int|
            0 <= j <= i && states[path[j] as int].index == states[path[i] as int].low_link && #[trigger] reaches(
                edges,
                path[i] as int,
                path[j] as int,
            );
        lemma_positions(states, path, idx, a, j);
        lemma_positions(states, path, idx, i, j);
        lemma_back(states, path, calls, edges, idx, j);
        lemma_reaches_trans(edges, path[i] as int, path[j] as int, v as int);
    }
}


} // verus!
