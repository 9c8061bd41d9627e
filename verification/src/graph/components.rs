use crate::graph::repr::{lemma_same_edges, OneDirGraph};
use crate::graph::tarjan::{is_class, StronglyConnected};
use crate::graph::{Edge, Node};
use crate::paths::{endpoints_below, is_walk, lemma_walk_concat};
use crate::search::{lemma_marked_count_bound, lemma_marked_count_grows, marked_count};
use vstd::prelude::*;

verus! {

/// The node `x` stands in the part at position `p`.
pub open spec fn in_part(parts: Seq<Seq<Node>>, p: int, x: Node) -> bool {
    0 <= p < parts.len() && parts[p].contains(x)
}

/// The node `x` stands in one of the parts.
pub open spec fn covered(parts: Seq<Seq<Node>>, x: Node) -> bool {
    exists|p: int| #[trigger] in_part(parts, p, x)
}

/// `parts` split the nodes below `n`: no part is empty or holds a node twice, and every
/// node stands in exactly one of them.
pub open spec fn is_partition(parts: Seq<Seq<Node>>, n: int) -> bool {
    &&& forall|p: int|
        0 <= p < parts.len() ==> (#[trigger] parts[p]).len() > 0 && parts[p].no_duplicates()
    &&& forall|p: int, x: Node| #[trigger] in_part(parts, p, x) ==> x < n
    &&& forall|p: int, q: int, x: Node| #[trigger] in_part(parts, p, x) && #[trigger] in_part(parts, q, x) ==> p == q
    &&& forall|x: Node| x < n ==> #[trigger] covered(parts, x)
}

/// The part at `best` is the first among the largest.
pub open spec fn is_first_largest(parts: Seq<Seq<Node>>, best: int) -> bool {
    &&& 0 <= best < parts.len()
    &&& forall|p: int| 0 <= p < parts.len() ==> (#[trigger] parts[p]).len() <= parts[best].len()
    &&& forall|p: int| 0 <= p < best ==> (#[trigger] parts[p]).len() < parts[best].len()
}

/// The position of the node `u` in `component`.
pub open spec fn rank_in(component: Seq<Node>, u: Node) -> int {
    choose|i: int| 0 <= i < component.len() && component[i] == u
}

/// Of the first `k` of `edges`, those with both ends in `component`, in their order, each
/// end replaced by its position in `component`.
pub open spec fn restricted(edges: Seq<(Node, Node)>, component: Seq<Node>, k: int) -> Seq<(Node, Node)>
    decreases k,
{
    if k <= 0 {
        Seq::empty()
    } else {
        let rest = restricted(edges, component, k - 1);
        let (u, v) = edges[k - 1];
        if component.contains(u) && component.contains(v) {
            rest.push((rank_in(component, u) as usize, rank_in(component, v) as usize))
        } else {
            rest
        }
    }
}

/// The parts as sequences of nodes.
pub open spec fn parts_of(parts: Seq<Vec<Node>>) -> Seq<Seq<Node>> {
    parts.map_values(|c: Vec<Node>| c@)
}

/// Some walk leads from `a` to `b`.
pub open spec fn reaches(edges: Seq<Edge>, a: int, b: int) -> bool {
    exists|p: Seq<Edge>| #[trigger] is_walk(edges, p, a, b)
}

/// Walks lead from `a` to `b` and from `b` to `a`: the two nodes are strongly connected.
pub open spec fn mutual(edges: Seq<Edge>, a: int, b: int) -> bool {
    reaches(edges, a, b) && reaches(edges, b, a)
}

/// The nodes `x` and `y` stand in the same part.
pub open spec fn same_part(parts: Seq<Seq<Node>>, x: Node, y: Node) -> bool {
    exists|p: int| #[trigger] in_part(parts, p, x) && in_part(parts, p, y)
}

/// `parts` are the strongly connected components of the graph with the edges `edges` on
/// `n` nodes: they split the nodes, and two nodes stand in the same part exactly if walks
/// lead from each to the other.
pub open spec fn is_scc_partition(parts: Seq<Seq<Node>>, edges: Seq<Edge>, n: int) -> bool {
    &&& is_partition(parts, n)
    &&& forall|x: Node, y: Node|
        x < n && y < n ==> (#[trigger] same_part(parts, x, y) <==> mutual(edges, x as int, y as int))
}

/// Walks that meet make one walk.
pub proof fn lemma_reaches_trans(edges: Seq<Edge>, a: int, b: int, c: int)
    requires
        reaches(edges, a, b),
        reaches(edges, b, c),
    ensures
        reaches(edges, a, c),
{
    let p = choose|p: Seq<Edge>| #[trigger] is_walk(edges, p, a, b);
    let q = choose|q: Seq<Edge>| #[trigger] is_walk(edges, q, b, c);
    lemma_walk_concat(edges, p, q, a, b, c);
}

/// A walk in a graph is a walk in every graph that holds its edges.
pub proof fn lemma_walk_carries(a: Seq<Edge>, b: Seq<Edge>, p: Seq<Edge>, from: int, to: int)
    requires
        is_walk(a, p, from, to),
        forall|i: int| 0 <= i < a.len() ==> b.contains(#[trigger] a[i]),
    ensures
        is_walk(b, p, from, to),
    decreases p.len(),
{
    if p.len() > 0 {
        let i = choose|i: int| 0 <= i < a.len() && a[i] == p.last();
        assert(b.contains(a[i]));
        lemma_walk_carries(a, b, p.drop_last(), from, p.last().source as int);
    }
}

/// Every part holds exactly the nodes that are strongly connected to its nodes.
pub open spec fn are_classes(parts: Seq<Seq<Node>>, edges: Seq<Edge>, n: int) -> bool {
    forall|p: int, x: Node, y: Node| #[trigger]
        in_part(parts, p, x) && y < n ==> (#[trigger] in_part(parts, p, y) <==> mutual(edges, x as int, y as int))
}

/// Parts that split the nodes into classes of strongly connected nodes are the strongly
/// connected components.
proof fn lemma_classes(parts: Seq<Seq<Node>>, edges: Seq<Edge>, n: int)
    requires
        is_partition(parts, n),
        are_classes(parts, edges, n),
    ensures
        is_scc_partition(parts, edges, n),
{
    assert forall|x: Node, y: Node| x < n && y < n implies (#[trigger] same_part(parts, x, y) <==> mutual(
        edges,
        x as int,
        y as int,
    )) by {
        if same_part(parts, x, y) {
            let p = choose|p: int| #[trigger] in_part(parts, p, x) && in_part(parts, p, y);
            assert(in_part(parts, p, x) && in_part(parts, p, y));
        }
        if mutual(edges, x as int, y as int) {
            assert(covered(parts, x));
            let p = choose|p: int| #[trigger] in_part(parts, p, x);
            assert(in_part(parts, p, x));
            assert(in_part(parts, p, y) <==> mutual(edges, x as int, y as int));
        }
    }
}

/// The strongly connected components of the graph, in the order in which the depth-first
/// search completes them, nodes on no cycle included as components of their own.
pub fn components(graph: &OneDirGraph) -> (parts: Vec<Vec<Node>>)
    requires
        graph.wf(),
    ensures
        is_scc_partition(parts_of(parts@), graph.edges_spec(), graph.n_spec() as int),
{
    let ghost n = graph.n_spec() as int;
    let mut search = StronglyConnected::new(graph);
    let mut parts: Vec<Vec<Node>> = Vec::new();
    loop
        invariant_except_break
            search.wf(),
            search.edges_spec() == graph.edges_spec(),
            are_classes(parts_of(parts@), graph.edges_spec(), n),
            search.n_spec() == n,
            search.include_singletons_spec(),
            forall|p: int|
                0 <= p < parts@.len() ==> (#[trigger] parts_of(parts@)[p]).len() > 0 && parts_of(
                    parts@,
                )[p].no_duplicates(),
            forall|p: int, x: Node| #[trigger]
                in_part(parts_of(parts@), p, x) ==> x < n && search.emitted_spec()[x as int],
            forall|p: int, q: int, x: Node| #[trigger]
                in_part(parts_of(parts@), p, x) && #[trigger] in_part(parts_of(parts@), q, x) ==> p == q,
            forall|x: Node|
                x < n && #[trigger] search.emitted_spec()[x as int] ==> covered(parts_of(parts@), x),
        ensures
            is_partition(parts_of(parts@), n),
            are_classes(parts_of(parts@), graph.edges_spec(), n),
        decreases n - marked_count(search.emitted_spec(), n),
    {
        let ghost before = search.emitted_spec();
        let ghost known = parts_of(parts@);
        proof {
            search.lemma_emitted_len();
            lemma_marked_count_bound(before, n);
        }
        match search.next() {
            None => {
                proof {
                    assert forall|x: Node| x < n implies #[trigger] covered(parts_of(parts@), x) by {
                        assert(search.emitted_spec()[x as int]);
                    }
                }
                break ;
            },
            Some(component) => {
                let ghost c = component@;
                parts.push(component);
                proof {
                    search.lemma_emitted_len();
                    let now = parts_of(parts@);
                    let last = known.len() as int;
                    assert(now =~= known.push(c));
                    assert(c[0] == c[0] && c.contains(c[0]));
                    assert forall|y: int| 0 <= y < n && #[trigger] before[y] implies search.emitted_spec()[y] by {}
                    assert(c[0] < n && !before[c[0] as int] && search.emitted_spec()[c[0] as int]);
                    lemma_marked_count_grows(before, search.emitted_spec(), c[0] as int, n);
                    assert(marked_count(before, n) < marked_count(search.emitted_spec(), n));
                    lemma_marked_count_bound(search.emitted_spec(), n);
                    assert forall|p: int, x: Node| #[trigger] in_part(now, p, x) implies x < n
                        && search.emitted_spec()[x as int] by {
                        if p < last {
                            assert(in_part(known, p, x));
                        } else {
                            let i = choose|i: int| 0 <= i < c.len() && c[i] == x;
                            assert(c[i] < n);
                        }
                    }
                    assert forall|p: int, q: int, x: Node| #[trigger]
                        in_part(now, p, x) && #[trigger] in_part(now, q, x) implies p == q by {
                        if p < last {
                            assert(in_part(known, p, x));
                        } else {
                            let i = choose|i: int| 0 <= i < c.len() && c[i] == x;
                            assert(!before[c[i] as int]);
                        }
                        if q < last {
                            assert(in_part(known, q, x));
                        } else {
                            let i = choose|i: int| 0 <= i < c.len() && c[i] == x;
                            assert(!before[c[i] as int]);
                        }
                    }
                    assert forall|p: int, x: Node, y: Node| #[trigger] in_part(now, p, x) && y < n implies (#[trigger] in_part(
                        now,
                        p,
                        y,
                    ) <==> mutual(graph.edges_spec(), x as int, y as int)) by {
                        if p < last {
                            assert(in_part(known, p, x));
                            assert(in_part(known, p, y) <==> mutual(graph.edges_spec(), x as int, y as int));
                        } else {
                            assert(c.contains(x));
                            assert(c.contains(y) <==> mutual(graph.edges_spec(), x as int, y as int));
                        }
                    }
                    assert forall|x: Node| x < n && #[trigger] search.emitted_spec()[x as int] implies covered(
                        now,
                        x,
                    ) by {
                        if before[x as int] {
                            let p = choose|p: int| #[trigger] in_part(known, p, x);
                            assert(in_part(now, p, x));
                        } else {
                            assert(c.contains(x));
                            assert(in_part(now, last, x));
                        }
                    }
                }
            },
        }
    }
    proof {
        lemma_classes(parts_of(parts@), graph.edges_spec(), n);
    }
    parts
}

/// The number of strongly connected components of the graph, nodes on no cycle counted as
/// components of their own.
pub fn num_sccs(graph: &OneDirGraph) -> (r: usize)
    requires
        graph.wf(),
    ensures
        exists|parts: Seq<Seq<Node>>| #[trigger]
            is_scc_partition(parts, graph.edges_spec(), graph.n_spec() as int) && parts.len() == r,
{
    let parts = components(graph);
    proof {
        assert(is_scc_partition(parts_of(parts@), graph.edges_spec(), graph.n_spec() as int));
    }
    parts.len()
}

/// The position of the largest part; of the first of them, should several be as large.
pub fn largest(parts: &Vec<Vec<Node>>) -> (best: usize)
    requires
        parts@.len() > 0,
    ensures
        is_first_largest(parts_of(parts@), best as int),
{
    let mut best: usize = 0;
    let mut p: usize = 1;
    while p < parts.len()
        invariant
            1 <= p <= parts@.len(),
            best < p,
            forall|q: int| 0 <= q < p ==> (#[trigger] parts_of(parts@)[q]).len() <= parts_of(parts@)[best as int].len(),
            forall|q: int| 0 <= q < best ==> (#[trigger] parts_of(parts@)[q]).len() < parts_of(parts@)[best as int].len(),
        decreases parts@.len() - p,
    {
        if parts[p].len() > parts[best].len() {
            best = p;
        }
        p += 1;
    }
    best
}

/// Keeps the edges between nodes of `component` and numbers their ends anew, each by its
/// position in `component`.
pub fn restrict(n: usize, edges: &Vec<(Node, Node)>, component: &Vec<Node>) -> (kept: Vec<(Node, Node)>)
    requires
        component@.no_duplicates(),
        forall|i: int| 0 <= i < component@.len() ==> (#[trigger] component@[i]) < n,
        forall|k: int| 0 <= k < edges@.len() ==> (#[trigger] edges@[k]).0 < n && edges@[k].1 < n,
    ensures
        kept@ == restricted(edges@, component@, edges@.len() as int),
{
    let mut number: Vec<usize> = Vec::new();
    let mut x: usize = 0;
    while x < n
        invariant
            x <= n,
            number@.len() == x,
            forall|y: int| 0 <= y < x ==> #[trigger] number@[y] == usize::MAX,
        decreases n - x,
    {
        number.push(usize::MAX);
        x += 1;
    }
    let mut i: usize = 0;
    while i < component.len()
        invariant
            i <= component@.len(),
            number@.len() == n,
            component@.no_duplicates(),
            forall|j: int| 0 <= j < component@.len() ==> (#[trigger] component@[j]) < n,
            forall|j: int| 0 <= j < i ==> #[trigger] number@[component@[j] as int] == j,
            forall|y: int|
                0 <= y < n && #[trigger] number@[y] != usize::MAX ==> 0 <= number@[y] < i && component@[number@[y] as int]
                    == y,
        decreases component@.len() - i,
    {
        let u = component[i];
        number[u] = i;
        i += 1;
    }
    proof {
        assert forall|y: Node| y < n implies (#[trigger] component@.contains(y) <==> number@[y as int]
            != usize::MAX) && (component@.contains(y) ==> number@[y as int] == rank_in(component@, y)) by {
            if component@.contains(y) {
                let j = choose|j: int| 0 <= j < component@.len() && component@[j] == y;
                assert(number@[component@[j] as int] == j);
                let r = rank_in(component@, y);
                assert(component@[r] == y);
            }
        }
    }
    let mut kept: Vec<(Node, Node)> = Vec::new();
    let mut k: usize = 0;
    while k < edges.len()
        invariant
            k <= edges@.len(),
            number@.len() == n,
            forall|e: int| 0 <= e < edges@.len() ==> (#[trigger] edges@[e]).0 < n && edges@[e].1 < n,
            forall|y: Node|
                y < n ==> (#[trigger] component@.contains(y) <==> number@[y as int] != usize::MAX) && (
                component@.contains(y) ==> number@[y as int] == rank_in(component@, y)),
            kept@ == restricted(edges@, component@, k as int),
        decreases edges@.len() - k,
    {
        let (u, v) = edges[k];
        if number[u] != usize::MAX && number[v] != usize::MAX {
            kept.push((number[u], number[v]));
        }
        k += 1;
    }
    kept
}


/// The edges that the pairs stand for, each with the weight zero.
pub open spec fn weighted(pairs: Seq<(Node, Node)>) -> Seq<Edge> {
    Seq::new(pairs.len(), |k: int| Edge { source: pairs[k].0, target: pairs[k].1, weight: 0 })
}

/// Graphs that hold the same edges have the same strongly connected nodes.
proof fn lemma_mutual_carries(a: Seq<Edge>, b: Seq<Edge>, x: int, y: int)
    requires
        forall|i: int| 0 <= i < a.len() ==> b.contains(#[trigger] a[i]),
        mutual(a, x, y),
    ensures
        mutual(b, x, y),
{
    let p = choose|p: Seq<Edge>| #[trigger] is_walk(a, p, x, y);
    lemma_walk_carries(a, b, p, x, y);
    let q = choose|q: Seq<Edge>| #[trigger] is_walk(a, q, y, x);
    lemma_walk_carries(a, b, q, y, x);
}

/// Keeps the largest strongly connected component of the graph with the edges `edges` on
/// `n` nodes, the first of them should several be as large, and numbers its nodes anew:
/// returns the number of its nodes and the edges between them.
pub fn largest_component(n: usize, edges: &Vec<(Node, Node)>) -> (r: (usize, Vec<(Node, Node)>))
    requires
        edges@.len() > 1,
        forall|k: int| 0 <= k < edges@.len() ==> (#[trigger] edges@[k]).0 < n && edges@[k].1 < n,
    ensures
        exists|parts: Seq<Seq<Node>>, best: int| #[trigger]
            is_first_largest(parts, best) && is_scc_partition(parts, weighted(edges@), n as int) && r.0
                == parts[best].len() && r.1@ == restricted(edges@, parts[best], edges@.len() as int),
{
    let mut list: Vec<Edge> = Vec::new();
    let mut k: usize = 0;
    while k < edges.len()
        invariant
            k <= edges@.len(),
            list@.len() == k,
            forall|e: int| 0 <= e < edges@.len() ==> (#[trigger] edges@[e]).0 < n && edges@[e].1 < n,
            forall|e: int| 0 <= e < k ==> #[trigger] list@[e] == weighted(edges@)[e],
        decreases edges@.len() - k,
    {
        let (u, v) = edges[k];
        list.push(Edge::new(u, v, 0));
        k += 1;
    }
    proof {
        assert(list@ =~= weighted(edges@));
        assert(edges@[0].0 < n);
        assert(endpoints_below(list@, n as int));
    }
    let graph = OneDirGraph::from_edges(n, list);
    let parts = components(&graph);
    proof {
        let view = parts_of(parts@);
        assert(covered(view, 0usize));
        let p = choose|p: int| #[trigger] in_part(view, p, 0usize);
        assert(in_part(view, p, 0usize));
    }
    let best = largest(&parts);
    proof {
        let view = parts_of(parts@);
        let c = view[best as int];
        assert forall|i: int| 0 <= i < c.len() implies (#[trigger] c[i]) < n by {
            assert(c.contains(c[i]));
            assert(in_part(view, best as int, c[i]));
        }
        let mine = graph.edges_spec();
        let given = weighted(edges@);
        lemma_same_edges(mine, given);
        assert forall|x: Node, y: Node| x < n && y < n implies (#[trigger] same_part(view, x, y) <==> mutual(
            given,
            x as int,
            y as int,
        )) by {
            if mutual(given, x as int, y as int) {
                lemma_mutual_carries(given, mine, x as int, y as int);
            }
            if mutual(mine, x as int, y as int) {
                lemma_mutual_carries(mine, given, x as int, y as int);
            }
        }
        assert(is_scc_partition(view, given, n as int));
    }
    let kept = restrict(n, edges, &parts[best]);
    (parts[best].len(), kept)
}

} // verus!
