use crate::bidijkstra::{
    is_acceptance, lemma_acceptance_ends, rebalanced, tree_entry, tree_shift, BiDijkstra,
};
use crate::dijkstra::{is_shortest_path_tree, Dijkstra};
use crate::graph::bellman_ford::{admits_potentials_within, witnesses, BellmanFord, Graph};
use crate::graph::repr::{OneDirGraph, TwoDirGraph};
use crate::graph::{Edge, Node, NODE_LIMIT, POTENTIAL_LIMIT, WEIGHT_LIMIT};
use crate::paths::{
    admits_potentials, lemma_deciders_agree, lemma_fitting_proposal, lemma_self_loop_fits,
    lemma_unfit_proposal,
    lighter_than, closer_than, endpoints_below, feasible, is_distance, is_walk, lemma_distance_unique,
    lemma_raise_value, lemma_rebalance, proposal_fits, proposed_weight, raise_of, raised,
    reduced_length, reduced_weight, with_weight, within,
};
use crate::random::{gen_weight, sample_index, sample_weight};
use crate::text::{contains_char, starts_with_char, starts_with_spec};
use crate::weight::Weight;
use vstd::prelude::*;

verus! {

/// Which algorithm to use for the MCMC
#[derive(Debug, Copy, Clone, PartialEq, Eq, Structural)]
pub enum Algorithm {
    /// The onedirectional dijkstra search
    Dijkstra,
    /// The bidirectional dijkstra search
    BiDijkstra,
    /// The naive version using bellman ford
    BellmanFord,
}

/// The algorithm that a text names: the onedirectional search if it starts with `d`, else
/// Bellman-Ford if it holds an `f`, else the bidirectional search.
pub open spec fn algorithm_of(s: Seq<char>) -> Algorithm {
    if starts_with_spec(s, 'd') {
        Algorithm::Dijkstra
    } else if s.contains('f') {
        Algorithm::BellmanFord
    } else {
        Algorithm::BiDijkstra
    }
}

impl Algorithm {
    /// Reads the algorithm off a text. There is always an answer: the default is
    /// `BiDijkstra`.
    pub fn from_str(s: &str) -> (r: Algorithm)
        ensures
            r == algorithm_of(s@),
    {
        if starts_with_char(s, 'd') {
            Algorithm::Dijkstra
        } else if contains_char(s, 'f') {
            Algorithm::BellmanFord
        } else {
            Algorithm::BiDijkstra
        }
    }
}

/// Starting weights for edges
#[derive(Debug, Copy, Clone, PartialEq, Eq, Structural)]
pub enum InitialWeights {
    /// Start with the maximum weight
    Maximum,
    /// Start with `0`
    Zero,
    /// Start with a uniform weight in `[0, max_weight]`
    Uniform,
    /// Start with a specified weight: will be clamped to `[0, max_weight]`
    Value(Weight),
}

/// The text names one of the initial weights `Maximum`, `Zero` or `Uniform`, by its first
/// letter.
pub open spec fn initial_weights_of(s: Seq<char>) -> Option<InitialWeights> {
    if starts_with_spec(s, 'm') {
        Some(InitialWeights::Maximum)
    } else if starts_with_spec(s, 'z') {
        Some(InitialWeights::Zero)
    } else if starts_with_spec(s, 'u') {
        Some(InitialWeights::Uniform)
    } else {
        None
    }
}

impl InitialWeights {
    /// Generate a weight based on `self` and `max_weight`: `rng` is only drawn from in the
    /// `Uniform` case.
    pub fn generate_weight(&self, rng: &mut rand_pcg::Lcg128Xsl64, max_weight: Weight) -> (w: Weight)
        requires
            0 <= max_weight,
        ensures
            match *self {
                InitialWeights::Maximum => w == max_weight,
                InitialWeights::Zero => w == 0,
                InitialWeights::Uniform => 0 <= w <= max_weight,
                InitialWeights::Value(v) => w == if v < 0 {
                    0
                } else if v > max_weight {
                    max_weight
                } else {
                    v
                },
            },
    {
        match self {
            InitialWeights::Maximum => max_weight,
            InitialWeights::Zero => 0,
            InitialWeights::Uniform => gen_weight(rng, 0, max_weight),
            InitialWeights::Value(v) => {
                if *v < 0 {
                    0
                } else if *v > max_weight {
                    max_weight
                } else {
                    *v
                }
            },
        }
    }

    /// Return a char representing the initial weight type: used for logging in experiments
    pub fn to_char(&self) -> (c: char)
        ensures
            c == match *self {
                InitialWeights::Maximum => 'm',
                InitialWeights::Zero => 'z',
                InitialWeights::Uniform => 'u',
                InitialWeights::Value(_) => 'v',
            },
    {
        match self {
            InitialWeights::Maximum => 'm',
            InitialWeights::Zero => 'z',
            InitialWeights::Uniform => 'u',
            InitialWeights::Value(_) => 'v',
        }
    }

    /// Reads one of the initial weights `Maximum`, `Zero` and `Uniform` off a text; `None`
    /// where the text names none of them and is to be read as a number.
    pub fn from_keyword(s: &str) -> (r: Option<InitialWeights>)
        ensures
            r == initial_weights_of(s@),
    {
        if starts_with_char(s, 'm') {
            Some(InitialWeights::Maximum)
        } else if starts_with_char(s, 'z') {
            Some(InitialWeights::Zero)
        } else if starts_with_char(s, 'u') {
            Some(InitialWeights::Uniform)
        } else {
            None
        }
    }
}

/// The sum of the rises that the first `k` entries of the tree ask for node `x`.
pub open spec fn lift(tree: Seq<(Node, Weight)>, k: int, bound: int, x: int) -> int
    decreases k,
{
    if k <= 0 {
        0
    } else {
        lift(tree, k - 1, bound, x) + if tree[k - 1].0 == x {
            bound - tree[k - 1].1
        } else {
            0
        }
    }
}

/// In a tree without repeated nodes, the lift of a node is the rise of its one entry.
proof fn lemma_lift(tree: Seq<(Node, Weight)>, k: int, bound: int, x: int)
    requires
        0 <= k <= tree.len(),
        forall|i: int, j: int| 0 <= i < j < tree.len() ==> (#[trigger] tree[i]).0 != (#[trigger] tree[j]).0,
    ensures
        (forall|i: int| 0 <= i < k ==> (#[trigger] tree[i]).0 != x) ==> lift(tree, k, bound, x) == 0,
        forall|i: int| 0 <= i < k && (#[trigger] tree[i]).0 == x ==> lift(tree, k, bound, x) == bound - tree[i].1,
    decreases k,
{
    if k > 0 {
        lemma_lift(tree, k - 1, bound, x);
        assert forall|i: int| 0 <= i < k && (#[trigger] tree[i]).0 == x implies lift(tree, k, bound, x)
            == bound - tree[i].1 by {
            if i < k - 1 {
                assert(tree[i].0 != tree[k - 1].0);
            } else {
                assert forall|j: int| 0 <= j < k - 1 implies (#[trigger] tree[j]).0 != x by {
                    assert(tree[j].0 != tree[k - 1].0);
                }
            }
        }
    }
}

/// What a graph must satisfy before a proposal: it is well formed and feasible, and its
/// potentials leave room for one rebalancing.
pub open spec fn steppable(g: &OneDirGraph, idx: usize, weight: Weight) -> bool {
    &&& g.wf()
    &&& g.is_feasible_spec()
    &&& idx < g.m_spec()
    &&& -WEIGHT_LIMIT <= weight <= WEIGHT_LIMIT
    &&& g.potentials_within(POTENTIAL_LIMIT - 2 * WEIGHT_LIMIT)
}

/// A rejected proposal leaves the graph as it was; an accepted one replaces the weight.
pub open spec fn stepped(before: &OneDirGraph, after: &OneDirGraph, idx: usize, weight: Weight, accepted: bool) -> bool {
    &&& after.wf()
    &&& after.is_feasible_spec()
    &&& after.limits_spec() == before.limits_spec()
    &&& after.n_spec() == before.n_spec()
    &&& accepted <==> proposal_fits(before.edges_spec(), before.pi(), idx as int, weight as int)
    &&& after.edges_spec() == if accepted {
        with_weight(before.edges_spec(), idx as int, weight as int)
    } else {
        before.edges_spec()
    }
    &&& !accepted ==> after.potentials_spec() == before.potentials_spec()
}

/// Facts about a proposal with a negative reduced weight.
proof fn lemma_proposal(g: &OneDirGraph, idx: usize, weight: Weight)
    requires
        steppable(g, idx, weight),
        proposed_weight(g.edges_spec(), g.pi(), idx as int, weight as int) < 0,
    ensures
        g.edges_spec()[idx as int].source < g.n_spec(),
        g.edges_spec()[idx as int].target < g.n_spec(),
        0 < -proposed_weight(g.edges_spec(), g.pi(), idx as int, weight as int)
            <= g.edges_spec()[idx as int].weight - weight <= 2 * WEIGHT_LIMIT,
{
    let e = g.edges_spec()[idx as int];
    assert(reduced_weight(e, g.pi()) >= 0);
    assert(e.target < g.n_spec());
}

/// After the weight of an edge was replaced, the graph is still well formed.
proof fn lemma_weight_replaced(before: &OneDirGraph, after: &OneDirGraph, idx: usize, weight: Weight)
    requires
        before.wf(),
        idx < before.m_spec(),
        -WEIGHT_LIMIT <= weight <= WEIGHT_LIMIT,
        after.edges_spec() == with_weight(before.edges_spec(), idx as int, weight as int),
        after.limits_spec() == before.limits_spec(),
        after.potentials_spec().len() == before.potentials_spec().len(),
        forall|u: int|
            0 <= u < after.potentials_spec().len() ==> -POTENTIAL_LIMIT
                <= #[trigger] after.potentials_spec()[u] <= POTENTIAL_LIMIT,
    ensures
        after.wf(),
{
    let e1 = before.edges_spec();
    let e2 = after.edges_spec();
    assert forall|i: int| 0 <= i < e2.len() implies (#[trigger] e2[i]).source == e1[i].source && e2[i].target
        == e1[i].target && -WEIGHT_LIMIT <= e2[i].weight <= WEIGHT_LIMIT by {
        assert(-WEIGHT_LIMIT <= e1[i].weight <= WEIGHT_LIMIT);
    }
    assert forall|i: int| 0 <= i < e2.len() implies crate::graph::repr::key_of(#[trigger] e2[i], false)
        == crate::graph::repr::key_of(e1[i], false) by {}
}

/// One step of the chain on the graph of the onedirectional search: proposes the weight
/// `weight` for the edge at index `idx`. The proposal is accepted if it creates no cycle of
/// negative weight; the potentials are then rebalanced so that they stay feasible: every
/// node within the bound of the head of the edge rises by what its distance lacks to the
/// bound. Says whether the proposal was accepted.
pub fn step_dijkstra(graph: &mut OneDirGraph, dijkstra: &mut Dijkstra, idx: usize, weight: Weight) -> (accepted:
    bool)
    requires
        steppable(old(graph), idx, weight),
        old(dijkstra).wf(),
        old(dijkstra).n_spec() == old(graph).n_spec(),
    ensures
        stepped(old(graph), final(graph), idx, weight, accepted),
        final(dijkstra).wf(),
        final(dijkstra).n_spec() == old(dijkstra).n_spec(),
        accepted ==> final(graph).pi() == if proposed_weight(
            old(graph).edges_spec(),
            old(graph).pi(),
            idx as int,
            weight as int,
        ) >= 0 {
            old(graph).pi()
        } else {
            raised(
                old(graph).edges_spec(),
                old(graph).pi(),
                old(graph).edges_spec()[idx as int].target as int,
                -proposed_weight(old(graph).edges_spec(), old(graph).pi(), idx as int, weight as int),
            )
        },
        forall|u: int|
            0 <= u < old(graph).n_spec() ==> old(graph).potentials_spec()[u]
                <= #[trigger] final(graph).potentials_spec()[u] <= old(graph).potentials_spec()[u] + (
            if old(graph).edges_spec()[idx as int].weight > weight {
                old(graph).edges_spec()[idx as int].weight - weight
            } else {
                0
            }),
{
    let ghost edges = graph.edges_spec();
    let ghost pi = graph.pi();
    let ghost n = graph.n_spec();
    let edge = graph.edge(idx);
    proof {
        assert(edge.target < n && edge.source < n);
        assert(-WEIGHT_LIMIT <= edge.weight <= WEIGHT_LIMIT);
    }
    let potential_weight = graph.potential_weight(Edge::new(edge.source, edge.target, weight));
    if potential_weight >= 0 {
        graph.update_weight(idx, weight);
        proof {
            lemma_weight_replaced(old(graph), graph, idx, weight);
            assert(graph.pi() =~= pi);
            assert forall|i: int| 0 <= i < edges.len() implies reduced_weight(
                #[trigger] graph.edges_spec()[i],
                graph.pi(),
            ) >= 0 by {
                assert(reduced_weight(edges[i], pi) >= 0);
            }
        }
        return true;
    }
    let bound = -potential_weight;
    proof {
        lemma_proposal(graph, idx, weight);
    }
    let found = dijkstra.run(graph, edge.target, edge.source, bound);
    match found {
        None => {
            proof {
                if edge.target == edge.source {
                    let empty = Seq::<Edge>::empty();
                    assert(is_walk(edges, empty, edge.target as int, edge.source as int));
                    assert(reduced_length(pi, empty, edge.target as int, edge.source as int) < bound);
                }
            }
            false
        },
        Some(tree) => {
            graph.update_weight(idx, weight);
            let len = tree.len();
            let mut k: usize = 0;
            while k < len
                invariant
                    k <= len,
                    len == tree@.len(),
                    steppable(old(graph), idx, weight),
                    edges == old(graph).edges_spec(),
                    pi == old(graph).pi(),
                    n == old(graph).n_spec(),
                    0 < bound <= 2 * WEIGHT_LIMIT,
                    is_shortest_path_tree(tree@, edges, pi, n, edge.target as int, bound as int),
                    graph.edges_spec() == with_weight(edges, idx as int, weight as int),
                    graph.limits_spec() == old(graph).limits_spec(),
                    graph.potentials_spec().len() == n,
                    forall|x: int|
                        0 <= x < n ==> #[trigger] graph.potentials_spec()[x] == pi[x] + lift(
                            tree@,
                            k as int,
                            bound as int,
                            x,
                        ),
                decreases len - k,
            {
                let (node, dist) = tree[k];
                proof {
                    lemma_lift(tree@, k as int, bound as int, node as int);
                    assert(tree@[k as int].0 < n);
                    assert(is_distance(edges, pi, edge.target as int, node as int, dist as int));
                    lemma_distance_unique(edges, pi, edge.target as int, node as int, dist as int, dist as int);
                    assert forall|i: int| 0 <= i < k implies (#[trigger] tree@[i]).0 != node by {
                        assert(tree@[i].0 != tree@[k as int].0);
                    }
                    assert(old(graph).potentials_spec()[node as int] == pi[node as int]);
                }
                graph.update_potential(node, bound - dist);
                k += 1;
            }
            proof {
                let s = edge.target as int;
                let pi2 = raised(edges, pi, s, bound as int);
                assert(graph.pi() =~= pi2) by {
                    assert forall|x: int| 0 <= x < n implies graph.potentials_spec()[x] == pi[x] + raise_of(
                        edges,
                        pi,
                        s,
                        bound as int,
                        x,
                    ) by {
                        lemma_lift(tree@, len as int, bound as int, x);
                        if exists|i: int| 0 <= i < len && (#[trigger] tree@[i]).0 == x {
                            let i = choose|i: int| 0 <= i < len && (#[trigger] tree@[i]).0 == x;
                            lemma_raise_value(edges, pi, s, bound as int, x, tree@[i].1 as int);
                        } else {
                            if within(edges, pi, s, x, bound as int) {
                                let d = choose|d: int| d <= bound && #[trigger] is_distance(edges, pi, s, x, d);
                                let i = choose|i: int|
                                    0 <= i < tree@.len() && #[trigger] tree@[i] == (x as usize, d as Weight);
                                assert(tree@[i].0 == x);
                            }
                        }
                    }
                }
                lemma_rebalance(edges, pi, idx as int, weight as int);
                assert forall|u: int| 0 <= u < n implies old(graph).potentials_spec()[u]
                    <= #[trigger] graph.potentials_spec()[u] <= old(graph).potentials_spec()[u] + bound by {
                    crate::paths::lemma_raise_range(edges, pi, s, bound as int, u);
                    assert(graph.pi()[u] == graph.potentials_spec()[u]);
                    assert(pi2[u] == pi[u] + raise_of(edges, pi, s, bound as int, u));
                    assert(pi[u] == old(graph).potentials_spec()[u]);
                }
                lemma_weight_replaced(old(graph), graph, idx, weight);
            }
            true
        },
    }
}


/// The sum of the shifts that the first `k` entries of the tree of a bidirectional search
/// ask for node `x`.
pub open spec fn bi_lift(tree: Seq<(Node, Weight)>, k: int, n: int, df: int, db: int, x: int) -> int
    decreases k,
{
    if k <= 0 {
        0
    } else {
        bi_lift(tree, k - 1, n, df, db, x) + if tree[k - 1].0 == x {
            df - tree[k - 1].1
        } else if tree[k - 1].0 == x + n {
            tree[k - 1].1 - db
        } else {
            0
        }
    }
}

/// A node that is listed once, forward or backward, is lifted by the shift of that entry.
proof fn lemma_bi_lift(tree: Seq<(Node, Weight)>, k: int, n: int, df: int, db: int, x: int)
    requires
        0 <= k <= tree.len(),
        0 <= x < n,
        forall|i: int, j: int| 0 <= i < j < tree.len() ==> (#[trigger] tree[i]).0 != (#[trigger] tree[j]).0,
        forall|i: int, j: int|
            0 <= i < tree.len() && 0 <= j < tree.len() ==> (#[trigger] tree[i]).0 + n != (#[trigger] tree[j]).0,
    ensures
        (forall|i: int| 0 <= i < k ==> (#[trigger] tree[i]).0 != x && tree[i].0 != x + n) ==> bi_lift(
            tree,
            k,
            n,
            df,
            db,
            x,
        ) == 0,
        forall|i: int|
            0 <= i < k && (#[trigger] tree[i]).0 == x ==> bi_lift(tree, k, n, df, db, x) == df - tree[i].1,
        forall|i: int|
            0 <= i < k && (#[trigger] tree[i]).0 == x + n ==> bi_lift(tree, k, n, df, db, x) == tree[i].1
                - db,
    decreases k,
{
    if k > 0 {
        lemma_bi_lift(tree, k - 1, n, df, db, x);
        let last = tree[k - 1].0;
        assert forall|j: int| 0 <= j < k - 1 implies (#[trigger] tree[j]).0 != last && tree[j].0 + n != last
            && tree[j].0 != last + n by {
            assert(tree[j].0 != tree[k - 1].0);
            assert(tree[j].0 + n != tree[k - 1].0);
            assert(tree[k - 1].0 + n != tree[j].0);
        }
        assert forall|i: int| 0 <= i < k && (#[trigger] tree[i]).0 == x implies bi_lift(tree, k, n, df, db, x)
            == df - tree[i].1 by {
            if i < k - 1 {
                assert(tree[i].0 != tree[k - 1].0);
                assert(tree[i].0 + n != tree[k - 1].0);
            }
        }
        assert forall|i: int| 0 <= i < k && (#[trigger] tree[i]).0 == x + n implies bi_lift(
            tree,
            k,
            n,
            df,
            db,
            x,
        ) == tree[i].1 - db by {
            if i < k - 1 {
                assert(tree[i].0 != tree[k - 1].0);
                assert(tree[k - 1].0 + n != tree[i].0);
            }
        }
    }
}

/// The lift of the whole tree is the shift that the tree stands for.
proof fn lemma_bi_lift_all(tree: Seq<(Node, Weight)>, n: int, df: int, db: int, x: int)
    requires
        0 <= x < n,
        forall|i: int, j: int| 0 <= i < j < tree.len() ==> (#[trigger] tree[i]).0 != (#[trigger] tree[j]).0,
        forall|i: int, j: int|
            0 <= i < tree.len() && 0 <= j < tree.len() ==> (#[trigger] tree[i]).0 + n != (#[trigger] tree[j]).0,
    ensures
        bi_lift(tree, tree.len() as int, n, df, db, x) == tree_shift(tree, n, df, db, x),
{
    lemma_bi_lift(tree, tree.len() as int, n, df, db, x);
    if exists|i: int| 0 <= i < tree.len() && (#[trigger] tree[i]).0 == x {
    } else if exists|i: int| 0 <= i < tree.len() && (#[trigger] tree[i]).0 == x + n {
    } else {
        assert forall|i: int| 0 <= i < tree.len() implies (#[trigger] tree[i]).0 != x && tree[i].0 != x + n by {}
    }
}

/// No node of an accepted tree is listed both forward and backward.
proof fn lemma_not_both(
    tree: Seq<(Node, Weight)>,
    df: Weight,
    db: Weight,
    edges: Seq<Edge>,
    pi: Seq<int>,
    s: int,
    t: int,
    dmax: Weight,
)
    requires
        is_acceptance(tree, df, db, edges, pi, s, t, dmax),
    ensures
        forall|i: int, j: int|
            0 <= i < tree.len() && 0 <= j < tree.len() ==> (#[trigger] tree[i]).0 + pi.len() != (
            #[trigger] tree[j]).0,
{
    let n = pi.len() as int;
    assert forall|i: int, j: int| 0 <= i < tree.len() && 0 <= j < tree.len() implies (#[trigger] tree[i]).0 + n
        != (#[trigger] tree[j]).0 by {
        assert(tree_entry(tree, edges, pi, s, t, df as int, db as int, i));
        assert(tree_entry(tree, edges, pi, s, t, df as int, db as int, j));
    }
}

/// What a graph of the bidirectional search must satisfy before a proposal.
pub open spec fn steppable_two(g: &TwoDirGraph, idx: usize, weight: Weight) -> bool {
    &&& g.wf()
    &&& steppable(&g.forward_spec(), idx, weight)
}

/// A rejected proposal leaves the graph as it was; an accepted one replaces the weight, in
/// both adjacency arrays.
pub open spec fn stepped_two(before: &TwoDirGraph, after: &TwoDirGraph, idx: usize, weight: Weight, accepted: bool) -> bool {
    &&& after.wf()
    &&& after.is_feasible_spec()
    &&& after.forward_spec().limits_spec() == before.forward_spec().limits_spec()
    &&& after.rev_limits_spec() == before.rev_limits_spec()
    &&& after.n_spec() == before.n_spec()
    &&& accepted <==> proposal_fits(before.edges_spec(), before.pi(), idx as int, weight as int)
    &&& after.edges_spec() == if accepted {
        with_weight(before.edges_spec(), idx as int, weight as int)
    } else {
        before.edges_spec()
    }
    &&& !accepted ==> after.potentials_spec() == before.potentials_spec() && after.rev_edges_spec()
        == before.rev_edges_spec()
}

/// One step of the chain on the graph of the bidirectional search: proposes the weight
/// `weight` for the edge at index `idx`. The proposal is accepted if it creates no cycle of
/// negative weight; the potentials are then rebalanced so that they stay feasible: a node
/// that the forward search visited rises by what its distance lacks to the forward frontier,
/// one that the backward search visited sinks by what its distance lacks to the backward
/// frontier. Says whether the proposal was accepted.
pub fn step_bidijkstra(graph: &mut TwoDirGraph, bidijkstra: &mut BiDijkstra, idx: usize, weight: Weight) -> (accepted:
    bool)
    requires
        steppable_two(old(graph), idx, weight),
        old(bidijkstra).wf(),
        old(bidijkstra).n_spec() == old(graph).n_spec(),
        2 * old(graph).n_spec() <= usize::MAX,
    ensures
        stepped_two(old(graph), final(graph), idx, weight, accepted),
        final(bidijkstra).wf(),
        final(bidijkstra).n_spec() == old(bidijkstra).n_spec(),
        reduced_weight(final(graph).edges_spec()[idx as int], final(graph).pi()) >= 0,
        accepted && proposed_weight(old(graph).edges_spec(), old(graph).pi(), idx as int, weight as int) < 0
            ==> reduced_weight(final(graph).edges_spec()[idx as int], final(graph).pi()) == 0,
        forall|u: int|
            0 <= u < old(graph).n_spec() ==> {
                let room = if old(graph).edges_spec()[idx as int].weight > weight {
                    old(graph).edges_spec()[idx as int].weight - weight
                } else {
                    0
                };
                old(graph).potentials_spec()[u] - room <= #[trigger] final(graph).potentials_spec()[u]
                    <= old(graph).potentials_spec()[u] + room
            },
{
    let ghost edges = graph.edges_spec();
    let ghost pi = graph.pi();
    let ghost n = graph.n_spec();
    let ghost fwd = graph.forward_spec();
    let edge = graph.edge(idx);
    proof {
        assert(edge.target < n && edge.source < n);
        assert(-WEIGHT_LIMIT <= edge.weight <= WEIGHT_LIMIT);
    }
    let potential_weight = graph.potential_weight(Edge::new(edge.source, edge.target, weight));
    if potential_weight >= 0 {
        graph.update_weight(idx, weight);
        proof {
            assert(graph.pi() =~= pi);
            assert forall|i: int| 0 <= i < edges.len() implies reduced_weight(
                #[trigger] graph.edges_spec()[i],
                graph.pi(),
            ) >= 0 by {
                assert(reduced_weight(edges[i], pi) >= 0);
            }
        }
        return true;
    }
    let bound = -potential_weight;
    proof {
        lemma_proposal(&fwd, idx, weight);
    }
    let found = bidijkstra.run(graph, edge.target, edge.source, bound);
    match found {
        None => {
            proof {
                if edge.target == edge.source {
                    let empty = Seq::<Edge>::empty();
                    assert(is_walk(edges, empty, edge.target as int, edge.source as int));
                    assert(reduced_length(pi, empty, edge.target as int, edge.source as int) < bound);
                }
            }
            false
        },
        Some(((df, db), tree)) => {
            graph.update_weight(idx, weight);
            let nodes = graph.n();
            let len = tree.len();
            let ghost mid = *graph;
            proof {
                lemma_not_both(tree@, df, db, edges, pi, edge.target as int, edge.source as int, bound);
                lemma_acceptance_ends(tree@, df, db, edges, pi, edge.target as int, edge.source as int, bound);
            }
            let mut k: usize = 0;
            while k < len
                invariant
                    k <= len,
                    len == tree@.len(),
                    nodes == n,
                    steppable_two(old(graph), idx, weight),
                    edges == old(graph).edges_spec(),
                    pi == old(graph).pi(),
                    n == old(graph).n_spec(),
                    pi.len() == n,
                    0 < bound <= 2 * WEIGHT_LIMIT,
                    0 <= df <= bound,
                    0 <= db <= bound,
                    is_acceptance(tree@, df, db, edges, pi, edge.target as int, edge.source as int, bound),
                    forall|i: int, j: int|
                        0 <= i < tree@.len() && 0 <= j < tree@.len() ==> (#[trigger] tree@[i]).0 + n != (
                        #[trigger] tree@[j]).0,
                    mid.wf(),
                    graph.edges_spec() == mid.edges_spec(),
                    graph.rev_edges_spec() == mid.rev_edges_spec(),
                    graph.rev_limits_spec() == mid.rev_limits_spec(),
                    graph.forward_spec().limits_spec() == mid.forward_spec().limits_spec(),
                    graph.potentials_spec().len() == n,
                    forall|x: int|
                        0 <= x < n ==> #[trigger] graph.potentials_spec()[x] == pi[x] + bi_lift(
                            tree@,
                            k as int,
                            n,
                            df as int,
                            db as int,
                            x,
                        ),
                decreases len - k,
            {
                let (node, dist) = tree[k];
                proof {
                    assert(tree_entry(
                        tree@,
                        edges,
                        pi,
                        edge.target as int,
                        edge.source as int,
                        df as int,
                        db as int,
                        k as int,
                    ));
                    let x: int = if node < n {
                        node as int
                    } else {
                        node - n
                    };
                    lemma_bi_lift(tree@, k as int, n, df as int, db as int, x);
                    assert forall|i: int| 0 <= i < k implies (#[trigger] tree@[i]).0 != x && tree@[i].0 != x
                        + n by {
                        assert(tree@[i].0 != tree@[k as int].0);
                        assert(tree@[i].0 + n != tree@[k as int].0);
                        assert(tree@[k as int].0 + n != tree@[i].0);
                    }
                    assert(old(graph).potentials_spec()[x] == pi[x]);
                }
                if node < nodes {
                    graph.update_potential(node, df - dist);
                } else {
                    graph.update_potential(node - nodes, dist - db);
                }
                k += 1;
            }
            proof {
                let s = edge.target as int;
                let t = edge.source as int;
                let pi2 = rebalanced(pi, tree@, df as int, db as int);
                assert(graph.pi() =~= pi2) by {
                    assert forall|x: int| 0 <= x < n implies graph.potentials_spec()[x] == pi[x] + tree_shift(
                        tree@,
                        n,
                        df as int,
                        db as int,
                        x,
                    ) by {
                        lemma_bi_lift_all(tree@, n, df as int, db as int, x);
                    }
                }
                let e2 = graph.edges_spec();
                assert forall|i: int| 0 <= i < e2.len() implies reduced_weight(#[trigger] e2[i], pi2) >= 0 by {
                    assert(reduced_weight(edges[i], pi2) >= 0);
                    assert(edges[i].target < n && edges[i].source < n);
                }
                assert forall|u: int| 0 <= u < n implies old(graph).potentials_spec()[u] - bound
                    <= #[trigger] graph.potentials_spec()[u] <= old(graph).potentials_spec()[u] + bound by {
                    lemma_bi_lift(tree@, len as int, n, df as int, db as int, u);
                    if exists|i: int| 0 <= i < len && (#[trigger] tree@[i]).0 == u {
                        let i = choose|i: int| 0 <= i < len && (#[trigger] tree@[i]).0 == u;
                        assert(tree_entry(tree@, edges, pi, s, t, df as int, db as int, i));
                    } else if exists|i: int| 0 <= i < len && (#[trigger] tree@[i]).0 == u + n {
                        let i = choose|i: int| 0 <= i < len && (#[trigger] tree@[i]).0 == u + n;
                        assert(tree_entry(tree@, edges, pi, s, t, df as int, db as int, i));
                    } else {
                        assert forall|i: int| 0 <= i < len implies (#[trigger] tree@[i]).0 != u && tree@[i].0
                            != u + n by {}
                    }
                    assert(pi[u] == old(graph).potentials_spec()[u]);
                }
            }
            true
        },
    }
}


/// The endpoints of the edges are those of `before`, and every weight is either the one of
/// `before` or lies between `min_weight` and `max_weight`.
pub open spec fn reweighted(before: Seq<Edge>, after: Seq<Edge>, min_weight: Weight, max_weight: Weight) -> bool {
    &&& after.len() == before.len()
    &&& forall|i: int|
        0 <= i < after.len() ==> {
            &&& (#[trigger] after[i]).source == before[i].source
            &&& after[i].target == before[i].target
            &&& after[i].weight == before[i].weight || min_weight <= after[i].weight <= max_weight
        }
}

/// What a chain may be started on: a well-formed, feasible graph with at least one edge, a
/// weight range within the limit that no weight of the graph exceeds, and potentials that
/// leave room for `num_rounds` rebalancings. An accepted proposal moves a potential by at
/// most the width of the weight range, so after `num_rounds` steps every potential is still
/// within `POTENTIAL_LIMIT - 2 * WEIGHT_LIMIT`, which the sums of a step need to stay
/// within 64 bits.
pub open spec fn chain_ready(g: &OneDirGraph, min_weight: Weight, max_weight: Weight, num_rounds: u64) -> bool {
    &&& g.wf()
    &&& g.is_feasible_spec()
    &&& g.m_spec() > 0
    &&& -WEIGHT_LIMIT <= min_weight <= max_weight <= WEIGHT_LIMIT
    &&& forall|i: int| 0 <= i < g.edges_spec().len() ==> (#[trigger] g.edges_spec()[i]).weight <= max_weight
    &&& g.potentials_within(
        POTENTIAL_LIMIT - 2 * WEIGHT_LIMIT - num_rounds * (max_weight - min_weight),
    )
}

/// The edges after the proposals `proposals`, each the index of an edge and a weight for that
/// edge, were made in turn on a graph of `n` nodes: a proposal replaces the weight where the
/// graph with the new weight has no cycle of negative weight, and changes nothing where it
/// has one.
pub open spec fn chain_edges(edges: Seq<Edge>, n: int, proposals: Seq<(int, int)>) -> Seq<Edge>
    decreases proposals.len(),
{
    if proposals.len() == 0 {
        edges
    } else {
        let before = chain_edges(edges, n, proposals.drop_last());
        let after = with_weight(before, proposals.last().0, proposals.last().1);
        if admits_potentials(after, n) {
            after
        } else {
            before
        }
    }
}

/// `proposals` are `num_rounds` proposals, each for one of the edges and with a weight from
/// `min_weight` up to and including `max_weight`, and `after` is what they make of `before`.
pub open spec fn is_chain(
    before: Seq<Edge>,
    after: Seq<Edge>,
    n: int,
    min_weight: Weight,
    max_weight: Weight,
    num_rounds: int,
    proposals: Seq<(int, int)>,
) -> bool {
    &&& proposals.len() == num_rounds
    &&& forall|k: int|
        0 <= k < proposals.len() ==> 0 <= (#[trigger] proposals[k]).0 < before.len() && min_weight
            <= proposals[k].1 <= max_weight
    &&& after == chain_edges(before, n, proposals)
}

/// `after` is what some `num_rounds` proposals make of `before`.
pub open spec fn chained(
    before: Seq<Edge>,
    after: Seq<Edge>,
    n: int,
    min_weight: Weight,
    max_weight: Weight,
    num_rounds: int,
) -> bool {
    exists|proposals: Seq<(int, int)>| #[trigger]
        is_chain(before, after, n, min_weight, max_weight, num_rounds, proposals)
}

/// One more proposal prolongs a chain by its step.
proof fn lemma_chain_step(
    before: Seq<Edge>,
    now: Seq<Edge>,
    next: Seq<Edge>,
    n: int,
    min_weight: Weight,
    max_weight: Weight,
    round: int,
    proposals: Seq<(int, int)>,
    idx: int,
    weight: int,
)
    requires
        is_chain(before, now, n, min_weight, max_weight, round, proposals),
        0 <= idx < before.len(),
        min_weight <= weight <= max_weight,
        next == if admits_potentials(with_weight(now, idx, weight), n) {
            with_weight(now, idx, weight)
        } else {
            now
        },
    ensures
        is_chain(before, next, n, min_weight, max_weight, round + 1, proposals.push((idx, weight))),
{
    let longer = proposals.push((idx, weight));
    assert(longer.drop_last() =~= proposals);
    assert(longer.last() == (idx, weight));
    assert forall|k: int| 0 <= k < longer.len() implies 0 <= (#[trigger] longer[k]).0 < before.len()
        && min_weight <= longer[k].1 <= max_weight by {
        if k < proposals.len() {
            assert(longer[k] == proposals[k]);
        }
    }
}

/// The MCMC used for generating negative edge weights
pub trait NegWeightMCMC: Sized {
    /// What the chain may be started on.
    spec fn ready(&self, min_weight: Weight, max_weight: Weight, num_rounds: u64) -> bool;

    /// What holds of the graph after a chain of `num_rounds` steps, compared with the graph
    /// before it.
    spec fn follows(&self, before: &Self, min_weight: Weight, max_weight: Weight, num_rounds: u64) -> bool;

    /// Given a graph and an RNG, runs `num_rounds` steps of the chain: each proposes, for an
    /// edge drawn uniformly, a weight drawn uniformly from `min_weight` up to and including
    /// `max_weight`.
    fn run_mcmc(
        &mut self,
        rng: &mut rand_pcg::Lcg128Xsl64,
        min_weight: Weight,
        max_weight: Weight,
        num_rounds: u64,
    )
        requires
            old(self).ready(min_weight, max_weight, num_rounds),
        ensures
            final(self).follows(old(self), min_weight, max_weight, num_rounds),
    ;
}

impl NegWeightMCMC for OneDirGraph {
    open spec fn ready(&self, min_weight: Weight, max_weight: Weight, num_rounds: u64) -> bool {
        chain_ready(self, min_weight, max_weight, num_rounds)
    }

    open spec fn follows(&self, before: &Self, min_weight: Weight, max_weight: Weight, num_rounds: u64) -> bool {
        &&& self.wf()
        &&& self.is_feasible_spec()
        &&& self.n_spec() == before.n_spec()
        &&& self.limits_spec() == before.limits_spec()
        &&& reweighted(before.edges_spec(), self.edges_spec(), min_weight, max_weight)
        &&& chained(before.edges_spec(), self.edges_spec(), self.n_spec() as int, min_weight, max_weight, num_rounds as int)
    }

    fn run_mcmc(
        &mut self,
        rng: &mut rand_pcg::Lcg128Xsl64,
        min_weight: Weight,
        max_weight: Weight,
        num_rounds: u64,
    ) {
        let mut dijkstra = Dijkstra::new(self.n());
        let m = self.m();
        let ghost range = max_weight - min_weight;
        let ghost mut proposals: Seq<(int, int)> = Seq::empty();
        let mut round: u64 = 0;
        while round < num_rounds
            invariant
                round <= num_rounds,
                range == max_weight - min_weight,
                -WEIGHT_LIMIT <= min_weight <= max_weight <= WEIGHT_LIMIT,
                m == self.m_spec(),
                m > 0,
                self.wf(),
                self.is_feasible_spec(),
                self.n_spec() == old(self).n_spec(),
                self.limits_spec() == old(self).limits_spec(),
                dijkstra.wf(),
                dijkstra.n_spec() == self.n_spec(),
                is_chain(
                    old(self).edges_spec(),
                    self.edges_spec(),
                    self.n_spec() as int,
                    min_weight,
                    max_weight,
                    round as int,
                    proposals,
                ),
                reweighted(old(self).edges_spec(), self.edges_spec(), min_weight, max_weight),
                forall|i: int|
                    0 <= i < self.edges_spec().len() ==> (#[trigger] self.edges_spec()[i]).weight
                        <= max_weight,
                self.potentials_within(POTENTIAL_LIMIT - 2 * WEIGHT_LIMIT - (num_rounds - round) * range),
            decreases num_rounds - round,
        {
            let idx = sample_index(rng, m);
            let weight = sample_weight(rng, min_weight, max_weight);
            let ghost before = *self;
            proof {
                assert((num_rounds - round) * range >= range) by (nonlinear_arith)
                    requires
                        num_rounds - round >= 1,
                        range >= 0,
                ;
                assert((num_rounds - round) * range == (num_rounds - (round + 1)) * range + range)
                    by (nonlinear_arith);
            }
            let _ = step_dijkstra(self, &mut dijkstra, idx, weight);
            proof {
                lemma_verdict(before.edges_spec(), before.pi(), idx as int, weight as int);
                lemma_chain_step(
                    old(self).edges_spec(),
                    before.edges_spec(),
                    self.edges_spec(),
                    self.n_spec() as int,
                    min_weight,
                    max_weight,
                    round as int,
                    proposals,
                    idx as int,
                    weight as int,
                );
                proposals = proposals.push((idx as int, weight as int));
                assert(before.edges_spec()[idx as int].weight - weight <= range);
            }
            round += 1;
        }
    }
}

impl NegWeightMCMC for TwoDirGraph {
    open spec fn ready(&self, min_weight: Weight, max_weight: Weight, num_rounds: u64) -> bool {
        &&& self.wf()
        &&& 2 * self.n_spec() <= usize::MAX
        &&& chain_ready(&self.forward_spec(), min_weight, max_weight, num_rounds)
    }

    open spec fn follows(&self, before: &Self, min_weight: Weight, max_weight: Weight, num_rounds: u64) -> bool {
        &&& self.wf()
        &&& self.is_feasible_spec()
        &&& self.n_spec() == before.n_spec()
        &&& self.forward_spec().limits_spec() == before.forward_spec().limits_spec()
        &&& self.rev_limits_spec() == before.rev_limits_spec()
        &&& reweighted(before.edges_spec(), self.edges_spec(), min_weight, max_weight)
        &&& chained(before.edges_spec(), self.edges_spec(), self.n_spec() as int, min_weight, max_weight, num_rounds as int)
    }

    fn run_mcmc(
        &mut self,
        rng: &mut rand_pcg::Lcg128Xsl64,
        min_weight: Weight,
        max_weight: Weight,
        num_rounds: u64,
    ) {
        let mut bidijkstra = BiDijkstra::new(self.n());
        let m = self.m();
        let ghost range = max_weight - min_weight;
        let ghost mut proposals: Seq<(int, int)> = Seq::empty();
        let mut round: u64 = 0;
        while round < num_rounds
            invariant
                round <= num_rounds,
                range == max_weight - min_weight,
                -WEIGHT_LIMIT <= min_weight <= max_weight <= WEIGHT_LIMIT,
                m == self.m_spec(),
                m > 0,
                self.wf(),
                self.is_feasible_spec(),
                2 * self.n_spec() <= usize::MAX,
                self.n_spec() == old(self).n_spec(),
                self.forward_spec().limits_spec() == old(self).forward_spec().limits_spec(),
                self.rev_limits_spec() == old(self).rev_limits_spec(),
                bidijkstra.wf(),
                bidijkstra.n_spec() == self.n_spec(),
                is_chain(
                    old(self).edges_spec(),
                    self.edges_spec(),
                    self.n_spec() as int,
                    min_weight,
                    max_weight,
                    round as int,
                    proposals,
                ),
                reweighted(old(self).edges_spec(), self.edges_spec(), min_weight, max_weight),
                forall|i: int|
                    0 <= i < self.edges_spec().len() ==> (#[trigger] self.edges_spec()[i]).weight
                        <= max_weight,
                self.forward_spec().potentials_within(
                    POTENTIAL_LIMIT - 2 * WEIGHT_LIMIT - (num_rounds - round) * range,
                ),
            decreases num_rounds - round,
        {
            let idx = sample_index(rng, m);
            let weight = sample_weight(rng, min_weight, max_weight);
            let ghost before = *self;
            proof {
                assert((num_rounds - round) * range >= range) by (nonlinear_arith)
                    requires
                        num_rounds - round >= 1,
                        range >= 0,
                ;
                assert((num_rounds - round) * range == (num_rounds - (round + 1)) * range + range)
                    by (nonlinear_arith);
            }
            let _ = step_bidijkstra(self, &mut bidijkstra, idx, weight);
            proof {
                lemma_verdict(before.edges_spec(), before.pi(), idx as int, weight as int);
                lemma_chain_step(
                    old(self).edges_spec(),
                    before.edges_spec(),
                    self.edges_spec(),
                    self.n_spec() as int,
                    min_weight,
                    max_weight,
                    round as int,
                    proposals,
                    idx as int,
                    weight as int,
                );
                proposals = proposals.push((idx as int, weight as int));
                assert(before.edges_spec()[idx as int].weight - weight <= range);
                let limit = POTENTIAL_LIMIT - 2 * WEIGHT_LIMIT - (num_rounds - (round + 1)) * range;
                assert forall|u: int| 0 <= u < self.forward_spec().potentials_spec().len() implies -limit
                    <= #[trigger] self.forward_spec().potentials_spec()[u] <= limit by {
                    let now = self.potentials_spec()[u];
                    let was = before.forward_spec().potentials_spec()[u];
                    assert(was - range <= now <= was + range);
                }
            }
            round += 1;
        }
    }
}


/// What a graph without potentials must satisfy before a proposal: it is well formed, has
/// at most `NODE_LIMIT` nodes, and admits feasible potentials that leave room for one
/// rebalancing.
pub open spec fn steppable_raw(g: &Graph, idx: usize, weight: Weight) -> bool {
    &&& g.wf()
    &&& g.n_spec() <= NODE_LIMIT
    &&& idx < g.m_spec()
    &&& -WEIGHT_LIMIT <= weight <= WEIGHT_LIMIT
    &&& admits_potentials_within(g.edges_spec(), g.n_spec(), POTENTIAL_LIMIT - 2 * WEIGHT_LIMIT)
}

/// One step of the chain on the graph without potentials: proposes the weight `weight` for
/// the edge at index `idx`. A weight that is no smaller than the old one is accepted at
/// once; a smaller one for a self-loop if it is not negative; a smaller one for another
/// edge if no walk from the head of the edge back to its tail is so light that it would
/// close a cycle of negative weight. Says whether the proposal was accepted.
pub fn step_bellman_ford(graph: &mut Graph, bellman_ford: &mut BellmanFord, idx: usize, weight: Weight) -> (accepted:
    bool)
    requires
        steppable_raw(old(graph), idx, weight),
        old(bellman_ford).wf(),
        old(bellman_ford).n_spec() == old(graph).n_spec(),
    ensures
        final(graph).wf(),
        final(graph).n_spec() == old(graph).n_spec(),
        final(graph).adjacency_spec().limits_spec() == old(graph).adjacency_spec().limits_spec(),
        final(bellman_ford).wf(),
        final(bellman_ford).n_spec() == old(bellman_ford).n_spec(),
        accepted <==> admits_potentials(
            with_weight(old(graph).edges_spec(), idx as int, weight as int),
            old(graph).n_spec(),
        ),
        final(graph).edges_spec() == if accepted {
            with_weight(old(graph).edges_spec(), idx as int, weight as int)
        } else {
            old(graph).edges_spec()
        },
        forall|bound: int| #[trigger]
            admits_potentials_within(old(graph).edges_spec(), old(graph).n_spec(), bound)
                ==> admits_potentials_within(
                final(graph).edges_spec(),
                old(graph).n_spec(),
                bound + if old(graph).edges_spec()[idx as int].weight > weight {
                    old(graph).edges_spec()[idx as int].weight - weight
                } else {
                    0
                },
            ),
{
    let ghost edges = graph.edges_spec();
    let ghost n = graph.n_spec();
    let edge = graph.edge(idx);
    proof {
        let g = graph.adjacency_spec();
        assert(g.edges_spec()[idx as int].target < n && g.edges_spec()[idx as int].source < n);
        let pi = choose|pi: Seq<int>| #[trigger] witnesses(edges, n, POTENTIAL_LIMIT - 2 * WEIGHT_LIMIT, pi);
        assert(witnesses(edges, n, POTENTIAL_LIMIT as int, pi));
    }
    let accepted = weight >= edge.weight || if edge.source == edge.target {
        weight >= 0
    } else {
        bellman_ford.run(graph.adjacency(), edge.target, edge.source, -weight)
    };
    proof {
        let edges2 = with_weight(edges, idx as int, weight as int);
        let room: int = if edge.weight > weight {
            edge.weight - weight
        } else {
            0
        };
        assert forall|bound: int, pi: Seq<int>| #[trigger] witnesses(edges, n, bound, pi) implies (accepted
            <==> proposal_fits(edges, pi, idx as int, weight as int)) by {
            lemma_deciders_agree(edges, pi, idx as int, weight as int);
            assert(reduced_weight(edges[idx as int], pi) >= 0);
            if edge.source == edge.target {
                lemma_self_loop_fits(edges, pi, idx as int, weight as int);
            }
        }
        let pi = choose|pi: Seq<int>| #[trigger] witnesses(edges, n, POTENTIAL_LIMIT - 2 * WEIGHT_LIMIT, pi);
        if accepted {
            let pi2 = lemma_fitting_proposal(edges, pi, idx as int, weight as int);
            assert(pi2.len() == n && feasible(edges2, pi2));
            assert forall|bound: int| #[trigger] admits_potentials_within(edges, n, bound) implies admits_potentials_within(
                edges2,
                n,
                bound + room,
            ) by {
                let p = choose|p: Seq<int>| #[trigger] witnesses(edges, n, bound, p);
                let fitted = lemma_fitting_proposal(edges, p, idx as int, weight as int);
                assert(witnesses(edges2, n, bound + room, fitted));
            }
        } else {
            lemma_unfit_proposal(edges, pi, idx as int, weight as int);
            assert forall|bound: int| #[trigger] admits_potentials_within(edges, n, bound) implies admits_potentials_within(
                edges,
                n,
                bound + room,
            ) by {
                let p = choose|p: Seq<int>| #[trigger] witnesses(edges, n, bound, p);
                assert(witnesses(edges, n, bound + room, p));
            }
        }
    }
    if accepted {
        graph.update_weight(idx, weight);
    }
    accepted
}

impl NegWeightMCMC for Graph {
    open spec fn ready(&self, min_weight: Weight, max_weight: Weight, num_rounds: u64) -> bool {
        &&& self.wf()
        &&& self.n_spec() <= NODE_LIMIT
        &&& self.m_spec() > 0
        &&& -WEIGHT_LIMIT <= min_weight <= max_weight <= WEIGHT_LIMIT
        &&& forall|i: int|
            0 <= i < self.edges_spec().len() ==> (#[trigger] self.edges_spec()[i]).weight <= max_weight
        &&& admits_potentials_within(
            self.edges_spec(),
            self.n_spec(),
            POTENTIAL_LIMIT - 2 * WEIGHT_LIMIT - num_rounds * (max_weight - min_weight),
        )
    }

    open spec fn follows(&self, before: &Self, min_weight: Weight, max_weight: Weight, num_rounds: u64) -> bool {
        &&& self.wf()
        &&& admits_potentials(self.edges_spec(), self.n_spec())
        &&& self.n_spec() == before.n_spec()
        &&& self.adjacency_spec().limits_spec() == before.adjacency_spec().limits_spec()
        &&& reweighted(before.edges_spec(), self.edges_spec(), min_weight, max_weight)
        &&& chained(before.edges_spec(), self.edges_spec(), self.n_spec() as int, min_weight, max_weight, num_rounds as int)
    }

    fn run_mcmc(
        &mut self,
        rng: &mut rand_pcg::Lcg128Xsl64,
        min_weight: Weight,
        max_weight: Weight,
        num_rounds: u64,
    ) {
        let mut bellman_ford = BellmanFord::new(self.n());
        let m = self.m();
        let ghost range = max_weight - min_weight;
        let ghost n = self.n_spec();
        let ghost mut proposals: Seq<(int, int)> = Seq::empty();
        let mut round: u64 = 0;
        while round < num_rounds
            invariant
                round <= num_rounds,
                range == max_weight - min_weight,
                -WEIGHT_LIMIT <= min_weight <= max_weight <= WEIGHT_LIMIT,
                m == self.m_spec(),
                m > 0,
                self.wf(),
                n == self.n_spec(),
                n == old(self).n_spec(),
                n <= NODE_LIMIT,
                self.adjacency_spec().limits_spec() == old(self).adjacency_spec().limits_spec(),
                bellman_ford.wf(),
                bellman_ford.n_spec() == n,
                is_chain(
                    old(self).edges_spec(),
                    self.edges_spec(),
                    self.n_spec() as int,
                    min_weight,
                    max_weight,
                    round as int,
                    proposals,
                ),
                reweighted(old(self).edges_spec(), self.edges_spec(), min_weight, max_weight),
                forall|i: int|
                    0 <= i < self.edges_spec().len() ==> (#[trigger] self.edges_spec()[i]).weight
                        <= max_weight,
                admits_potentials_within(
                    self.edges_spec(),
                    n,
                    POTENTIAL_LIMIT - 2 * WEIGHT_LIMIT - (num_rounds - round) * range,
                ),
            decreases num_rounds - round,
        {
            let idx = sample_index(rng, m);
            let weight = sample_weight(rng, min_weight, max_weight);
            let ghost before = *self;
            let ghost bound = POTENTIAL_LIMIT - 2 * WEIGHT_LIMIT - (num_rounds - round) * range;
            proof {
                assert((num_rounds - round) * range >= range) by (nonlinear_arith)
                    requires
                        num_rounds - round >= 1,
                        range >= 0,
                ;
                assert((num_rounds - round) * range == (num_rounds - (round + 1)) * range + range)
                    by (nonlinear_arith);
                let pi = choose|pi: Seq<int>| #[trigger] witnesses(before.edges_spec(), n, bound, pi);
                assert(witnesses(before.edges_spec(), n, POTENTIAL_LIMIT - 2 * WEIGHT_LIMIT, pi));
            }
            let _ = step_bellman_ford(self, &mut bellman_ford, idx, weight);
            proof {
                lemma_chain_step(
                    old(self).edges_spec(),
                    before.edges_spec(),
                    self.edges_spec(),
                    self.n_spec() as int,
                    min_weight,
                    max_weight,
                    round as int,
                    proposals,
                    idx as int,
                    weight as int,
                );
                proposals = proposals.push((idx as int, weight as int));
                let room: int = if before.edges_spec()[idx as int].weight > weight {
                    before.edges_spec()[idx as int].weight - weight
                } else {
                    0
                };
                assert(room <= range);
                assert(admits_potentials_within(self.edges_spec(), n, bound + room));
                let pi = choose|pi: Seq<int>| #[trigger] witnesses(self.edges_spec(), n, bound + room, pi);
                assert(witnesses(self.edges_spec(), n, bound + range, pi));
            }
            round += 1;
        }
        proof {
            let pi = choose|pi: Seq<int>| #[trigger]
                witnesses(self.edges_spec(), n, POTENTIAL_LIMIT - 2 * WEIGHT_LIMIT - (num_rounds - round) * range, pi);
            assert(pi.len() == n && feasible(self.edges_spec(), pi));
        }
    }
}

/// The verdict of the searches on reduced weights is that of the graph: under feasible
/// potentials a proposal fits exactly if the graph with the new weight has no cycle of
/// negative weight, that is, admits feasible potentials.
pub proof fn lemma_verdict(edges: Seq<Edge>, pi: Seq<int>, idx: int, weight: int)
    requires
        feasible(edges, pi),
        endpoints_below(edges, pi.len() as int),
        0 <= idx < edges.len(),
        i64::MIN <= weight <= i64::MAX,
    ensures
        proposal_fits(edges, pi, idx, weight) <==> admits_potentials(
            with_weight(edges, idx, weight),
            pi.len() as int,
        ),
{
    if proposal_fits(edges, pi, idx, weight) {
        let pi2 = lemma_fitting_proposal(edges, pi, idx, weight);
        assert(pi2.len() == pi.len() && feasible(with_weight(edges, idx, weight), pi2));
    } else {
        lemma_unfit_proposal(edges, pi, idx, weight);
    }
}

/// A graph whose potentials are feasible has no cycle of negative weight: the search for
/// one on raw weights answers *false*.
pub proof fn lemma_feasible_graph_admits(g: &OneDirGraph)
    requires
        g.is_feasible_spec(),
    ensures
        admits_potentials(g.edges_spec(), g.n_spec()),
{
    assert(g.pi().len() == g.n_spec() && feasible(g.edges_spec(), g.pi()));
}

/// A graph with a self-loop of negative weight admits no feasible potentials: the search
/// for a negative cycle answers *true*.
pub proof fn lemma_negative_self_loop(edges: Seq<Edge>, n: int, i: int)
    requires
        0 <= i < edges.len(),
        edges[i].source == edges[i].target,
        edges[i].weight < 0,
    ensures
        !admits_potentials(edges, n),
{
    if admits_potentials(edges, n) {
        let pi = choose|pi: Seq<int>| pi.len() == n && #[trigger] feasible(edges, pi);
        assert(reduced_weight(edges[i], pi) >= 0);
    }
}

/// Where every reduced weight is zero, a target that can be reached at all is closer than
/// any positive bound: the searches reject.
pub proof fn lemma_zero_weights_reject(edges: Seq<Edge>, pi: Seq<int>, p: Seq<Edge>, source: int, target: int, bound: int)
    requires
        forall|i: int| 0 <= i < edges.len() ==> reduced_weight(#[trigger] edges[i], pi) == 0,
        is_walk(edges, p, source, target),
        bound > 0,
    ensures
        closer_than(edges, pi, source, target, bound),
{
    lemma_zero_walk(edges, pi, p, source, target);
}

/// Where every reduced weight is zero, every walk has the reduced length zero.
proof fn lemma_zero_walk(edges: Seq<Edge>, pi: Seq<int>, p: Seq<Edge>, from: int, to: int)
    requires
        forall|i: int| 0 <= i < edges.len() ==> reduced_weight(#[trigger] edges[i], pi) == 0,
        is_walk(edges, p, from, to),
    ensures
        reduced_length(pi, p, from, to) == 0,
    decreases p.len(),
{
    if p.len() > 0 {
        let e = p.last();
        let j = choose|j: int| 0 <= j < edges.len() && edges[j] == e;
        assert(reduced_weight(edges[j], pi) == 0);
        lemma_zero_walk(edges, pi, p.drop_last(), from, e.source as int);
    }
}


/// A walk from the head of an edge back to its tail, in a graph with feasible potentials,
/// weighs at least the negated weight of the edge: closing the cycle with the edge gives
/// no negative weight.
proof fn lemma_feasible_passes(edges: Seq<Edge>, pi: Seq<int>, idx: int)
    requires
        feasible(edges, pi),
        0 <= idx < edges.len(),
    ensures
        !lighter_than(edges, edges[idx].target as int, edges[idx].source as int, -(edges[idx].weight as int)),
{
    let s = edges[idx].target as int;
    let t = edges[idx].source as int;
    assert(reduced_weight(edges[idx], pi) >= 0);
    assert forall|p: Seq<Edge>| #[trigger] is_walk(edges, p, s, t) implies crate::paths::walk_weight(p)
        >= -(edges[idx].weight as int) by {
        crate::paths::lemma_feasible_walk(edges, pi, p, s, t);
    }
}

/// One step of the chain on the graph of the onedirectional search, cross-checked against
/// the search on raw weights: after the step, that search is asked whether a walk from the
/// head of the edge back to its tail is lighter than the negated proposed weight; for a
/// self-loop, the sign of the proposed weight answers. Returns whether the proposal was
/// accepted, and whether the answer agrees with that: it always does.
pub fn step_dijkstra_tested(
    graph: &mut OneDirGraph,
    dijkstra: &mut Dijkstra,
    tester: &mut BellmanFord,
    idx: usize,
    weight: Weight,
) -> (r: (bool, bool))
    requires
        steppable(old(graph), idx, weight),
        old(graph).n_spec() <= NODE_LIMIT,
        old(dijkstra).wf(),
        old(dijkstra).n_spec() == old(graph).n_spec(),
        old(tester).wf(),
        old(tester).n_spec() == old(graph).n_spec(),
    ensures
        stepped(old(graph), final(graph), idx, weight, r.0),
        final(dijkstra).wf(),
        final(dijkstra).n_spec() == old(dijkstra).n_spec(),
        final(tester).wf(),
        final(tester).n_spec() == old(tester).n_spec(),
        r.1,
        forall|u: int|
            0 <= u < old(graph).n_spec() ==> old(graph).potentials_spec()[u]
                <= #[trigger] final(graph).potentials_spec()[u] <= old(graph).potentials_spec()[u] + (
            if old(graph).edges_spec()[idx as int].weight > weight {
                old(graph).edges_spec()[idx as int].weight - weight
            } else {
                0
            }),
{
    let edge = graph.edge(idx);
    let ghost edges = graph.edges_spec();
    let ghost pi = graph.pi();
    let accepted = step_dijkstra(graph, dijkstra, idx, weight);
    proof {
        assert(edge.source < graph.n_spec() && edge.target < graph.n_spec());
        assert(crate::graph::bellman_ford::witnesses(
            graph.edges_spec(),
            graph.n_spec(),
            POTENTIAL_LIMIT as int,
            graph.pi(),
        ));
        if accepted {
            lemma_feasible_passes(graph.edges_spec(), graph.pi(), idx as int);
        } else {
            lemma_deciders_agree(edges, pi, idx as int, weight as int);
        }
    }
    let passes = if edge.source == edge.target {
        proof {
            lemma_self_loop_fits(edges, pi, idx as int, weight as int);
        }
        weight >= 0
    } else {
        tester.run(graph, edge.target, edge.source, -weight)
    };
    (accepted, passes == accepted)
}

/// One step of the chain on the graph of the bidirectional search, cross-checked against
/// the search on raw weights. Returns whether the proposal was accepted, and whether the
/// answer of that search agrees with that: it always does.
pub fn step_bidijkstra_tested(
    graph: &mut TwoDirGraph,
    bidijkstra: &mut BiDijkstra,
    tester: &mut BellmanFord,
    idx: usize,
    weight: Weight,
) -> (r: (bool, bool))
    requires
        steppable_two(old(graph), idx, weight),
        old(graph).n_spec() <= NODE_LIMIT,
        2 * old(graph).n_spec() <= usize::MAX,
        old(bidijkstra).wf(),
        old(bidijkstra).n_spec() == old(graph).n_spec(),
        old(tester).wf(),
        old(tester).n_spec() == old(graph).n_spec(),
    ensures
        stepped_two(old(graph), final(graph), idx, weight, r.0),
        final(bidijkstra).wf(),
        final(bidijkstra).n_spec() == old(bidijkstra).n_spec(),
        final(tester).wf(),
        final(tester).n_spec() == old(tester).n_spec(),
        r.1,
        forall|u: int|
            0 <= u < old(graph).n_spec() ==> {
                let room = if old(graph).edges_spec()[idx as int].weight > weight {
                    old(graph).edges_spec()[idx as int].weight - weight
                } else {
                    0
                };
                old(graph).potentials_spec()[u] - room <= #[trigger] final(graph).potentials_spec()[u]
                    <= old(graph).potentials_spec()[u] + room
            },
{
    let edge = graph.edge(idx);
    let ghost edges = graph.edges_spec();
    let ghost pi = graph.pi();
    let accepted = step_bidijkstra(graph, bidijkstra, idx, weight);
    proof {
        assert(edge.source < graph.n_spec() && edge.target < graph.n_spec());
        assert(crate::graph::bellman_ford::witnesses(
            graph.edges_spec(),
            graph.n_spec(),
            POTENTIAL_LIMIT as int,
            graph.pi(),
        ));
        if accepted {
            lemma_feasible_passes(graph.edges_spec(), graph.pi(), idx as int);
        } else {
            lemma_deciders_agree(edges, pi, idx as int, weight as int);
        }
    }
    let passes = if edge.source == edge.target {
        proof {
            lemma_self_loop_fits(edges, pi, idx as int, weight as int);
        }
        weight >= 0
    } else {
        tester.run(graph.forward(), edge.target, edge.source, -weight)
    };
    (accepted, passes == accepted)
}

/// The chain with every decision cross-checked against the search on raw weights.
pub trait ExpNegWeightMCMC: NegWeightMCMC {
    /// What the cross-check may be run on: a graph of at most `NODE_LIMIT` nodes.
    spec fn testable(&self) -> bool;

    /// Runs `num_rounds` steps of the chain as `run_mcmc` does and asks the search on raw
    /// weights after every step whether it would have decided likewise. Says whether it
    /// agreed every time: it always does.
    fn run_mcmc_tested(
        &mut self,
        rng: &mut rand_pcg::Lcg128Xsl64,
        min_weight: Weight,
        max_weight: Weight,
        num_rounds: u64,
    ) -> (agrees: bool)
        requires
            old(self).ready(min_weight, max_weight, num_rounds),
            old(self).testable(),
        ensures
            final(self).follows(old(self), min_weight, max_weight, num_rounds),
            agrees,
    ;
}

impl ExpNegWeightMCMC for OneDirGraph {
    open spec fn testable(&self) -> bool {
        self.n_spec() <= NODE_LIMIT
    }

    fn run_mcmc_tested(
        &mut self,
        rng: &mut rand_pcg::Lcg128Xsl64,
        min_weight: Weight,
        max_weight: Weight,
        num_rounds: u64,
    ) -> (agrees: bool) {
        let mut dijkstra = Dijkstra::new(self.n());
        let mut tester = BellmanFord::new(self.n());
        let mut agrees = true;
        let m = self.m();
        let ghost range = max_weight - min_weight;
        let ghost mut proposals: Seq<(int, int)> = Seq::empty();
        let mut round: u64 = 0;
        while round < num_rounds
            invariant
                round <= num_rounds,
                agrees,
                tester.wf(),
                tester.n_spec() == self.n_spec(),
                self.n_spec() <= NODE_LIMIT,
                range == max_weight - min_weight,
                -WEIGHT_LIMIT <= min_weight <= max_weight <= WEIGHT_LIMIT,
                m == self.m_spec(),
                m > 0,
                self.wf(),
                self.is_feasible_spec(),
                self.n_spec() == old(self).n_spec(),
                self.limits_spec() == old(self).limits_spec(),
                dijkstra.wf(),
                dijkstra.n_spec() == self.n_spec(),
                is_chain(
                    old(self).edges_spec(),
                    self.edges_spec(),
                    self.n_spec() as int,
                    min_weight,
                    max_weight,
                    round as int,
                    proposals,
                ),
                reweighted(old(self).edges_spec(), self.edges_spec(), min_weight, max_weight),
                forall|i: int|
                    0 <= i < self.edges_spec().len() ==> (#[trigger] self.edges_spec()[i]).weight
                        <= max_weight,
                self.potentials_within(POTENTIAL_LIMIT - 2 * WEIGHT_LIMIT - (num_rounds - round) * range),
            decreases num_rounds - round,
        {
            let idx = sample_index(rng, m);
            let weight = sample_weight(rng, min_weight, max_weight);
            let ghost before = *self;
            proof {
                assert((num_rounds - round) * range >= range) by (nonlinear_arith)
                    requires
                        num_rounds - round >= 1,
                        range >= 0,
                ;
                assert((num_rounds - round) * range == (num_rounds - (round + 1)) * range + range)
                    by (nonlinear_arith);
            }
            let (_, ok) = step_dijkstra_tested(self, &mut dijkstra, &mut tester, idx, weight);
            agrees = agrees && ok;
            proof {
                lemma_verdict(before.edges_spec(), before.pi(), idx as int, weight as int);
                lemma_chain_step(
                    old(self).edges_spec(),
                    before.edges_spec(),
                    self.edges_spec(),
                    self.n_spec() as int,
                    min_weight,
                    max_weight,
                    round as int,
                    proposals,
                    idx as int,
                    weight as int,
                );
                proposals = proposals.push((idx as int, weight as int));
                assert(before.edges_spec()[idx as int].weight - weight <= range);
            }
            round += 1;
        }
        agrees
    }
}

impl ExpNegWeightMCMC for TwoDirGraph {
    open spec fn testable(&self) -> bool {
        self.n_spec() <= NODE_LIMIT
    }

    fn run_mcmc_tested(
        &mut self,
        rng: &mut rand_pcg::Lcg128Xsl64,
        min_weight: Weight,
        max_weight: Weight,
        num_rounds: u64,
    ) -> (agrees: bool) {
        let mut bidijkstra = BiDijkstra::new(self.n());
        let mut tester = BellmanFord::new(self.n());
        let mut agrees = true;
        let m = self.m();
        let ghost range = max_weight - min_weight;
        let ghost mut proposals: Seq<(int, int)> = Seq::empty();
        let mut round: u64 = 0;
        while round < num_rounds
            invariant
                round <= num_rounds,
                agrees,
                tester.wf(),
                tester.n_spec() == self.n_spec(),
                self.n_spec() <= NODE_LIMIT,
                range == max_weight - min_weight,
                -WEIGHT_LIMIT <= min_weight <= max_weight <= WEIGHT_LIMIT,
                m == self.m_spec(),
                m > 0,
                self.wf(),
                self.is_feasible_spec(),
                2 * self.n_spec() <= usize::MAX,
                self.n_spec() == old(self).n_spec(),
                self.forward_spec().limits_spec() == old(self).forward_spec().limits_spec(),
                self.rev_limits_spec() == old(self).rev_limits_spec(),
                bidijkstra.wf(),
                bidijkstra.n_spec() == self.n_spec(),
                is_chain(
                    old(self).edges_spec(),
                    self.edges_spec(),
                    self.n_spec() as int,
                    min_weight,
                    max_weight,
                    round as int,
                    proposals,
                ),
                reweighted(old(self).edges_spec(), self.edges_spec(), min_weight, max_weight),
                forall|i: int|
                    0 <= i < self.edges_spec().len() ==> (#[trigger] self.edges_spec()[i]).weight
                        <= max_weight,
                self.forward_spec().potentials_within(
                    POTENTIAL_LIMIT - 2 * WEIGHT_LIMIT - (num_rounds - round) * range,
                ),
            decreases num_rounds - round,
        {
            let idx = sample_index(rng, m);
            let weight = sample_weight(rng, min_weight, max_weight);
            let ghost before = *self;
            proof {
                assert((num_rounds - round) * range >= range) by (nonlinear_arith)
                    requires
                        num_rounds - round >= 1,
                        range >= 0,
                ;
                assert((num_rounds - round) * range == (num_rounds - (round + 1)) * range + range)
                    by (nonlinear_arith);
            }
            let (_, ok) = step_bidijkstra_tested(self, &mut bidijkstra, &mut tester, idx, weight);
            agrees = agrees && ok;
            proof {
                lemma_verdict(before.edges_spec(), before.pi(), idx as int, weight as int);
                lemma_chain_step(
                    old(self).edges_spec(),
                    before.edges_spec(),
                    self.edges_spec(),
                    self.n_spec() as int,
                    min_weight,
                    max_weight,
                    round as int,
                    proposals,
                    idx as int,
                    weight as int,
                );
                proposals = proposals.push((idx as int, weight as int));
                assert(before.edges_spec()[idx as int].weight - weight <= range);
                let limit = POTENTIAL_LIMIT - 2 * WEIGHT_LIMIT - (num_rounds - (round + 1)) * range;
                assert forall|u: int| 0 <= u < self.forward_spec().potentials_spec().len() implies -limit
                    <= #[trigger] self.forward_spec().potentials_spec()[u] <= limit by {
                    let now = self.potentials_spec()[u];
                    let was = before.forward_spec().potentials_spec()[u];
                    assert(was - range <= now <= was + range);
                }
            }
            round += 1;
        }
        agrees
    }
}

} // verus!
