use negweight::graph::components::{
    components, largest, largest_component, num_sccs, restrict,
};
use negweight::graph::generators::{get_band_bounds, Complete, Cycle, EdgeResult, GraphGenerator};
use negweight::graph::repr::{OneDirGraph, TwoDirGraph};
use negweight::graph::tarjan::{NodeState, StronglyConnected};
use negweight::graph::writer::{edge_line, store_graph};
use negweight::graph::Edge;
use negweight::utils::ReusableVec;
use rand::SeedableRng;
use rand_pcg::Pcg64;

fn sample_edges() -> Vec<Edge> {
    vec![
        Edge::new(2, 0, 5),
        Edge::new(0, 1, 1),
        Edge::new(1, 2, -3),
        Edge::new(0, 2, 4),
        Edge::new(2, 0, 7),
        Edge::new(1, 1, 0),
    ]
}

#[test]
fn one_dir_graph_groups_edges_by_source() {
    let graph = OneDirGraph::from_edges(3, sample_edges());
    assert_eq!(graph.n(), 3);
    assert_eq!(graph.m(), 6);
    let ends: Vec<(usize, usize)> = graph.edges().iter().map(|e| (e.source, e.target)).collect();
    assert_eq!(ends, vec![(0, 1), (0, 2), (1, 1), (1, 2), (2, 0), (2, 0)]);
    assert_eq!(graph.out_neighbors(0).len(), 2);
    assert_eq!(graph.out_neighbors(1).len(), 2);
    assert_eq!(graph.out_neighbors(2).len(), 2);
    assert!(graph.out_neighbors(2).iter().all(|e| e.source == 2 && e.target == 0));
    for u in 0..3 {
        assert_eq!(graph.potential(u), 0);
    }
    let mut weights: Vec<i64> = graph.into_edges().iter().map(|e| e.weight).collect();
    weights.sort();
    assert_eq!(weights, vec![-3, 0, 1, 4, 5, 7]);
}

#[test]
fn potentials_reduce_the_weights() {
    let mut graph = OneDirGraph::from_edges(3, sample_edges());
    assert!(!graph.is_feasible());
    graph.update_potential(2, 3);
    graph.update_potential(0, -1);
    assert_eq!(graph.potential(2), 3);
    assert_eq!(graph.potential(0), -1);
    // w + p[target] - p[source]
    assert_eq!(graph.potential_weight(Edge::new(1, 2, -3)), 0);
    assert_eq!(graph.potential_weight(Edge::new(0, 2, 4)), 8);
    assert_eq!(graph.potential_weight(Edge::new(2, 0, 5)), 1);
    assert!(graph.is_feasible());
    graph.update_weight(0, -1);
    assert_eq!(graph.edge(0), Edge::new(0, 1, -1));
    assert!(graph.is_feasible());
    graph.update_weight(0, -2);
    assert!(!graph.is_feasible());
}

#[test]
fn two_dir_graph_mirrors_weights_into_the_reverse_array() {
    let mut graph = TwoDirGraph::from_edges(3, sample_edges());
    assert_eq!(graph.n(), 3);
    assert_eq!(graph.m(), 6);
    let into_zero: Vec<i64> = graph.in_neighbors(0).iter().map(|e| e.weight).collect();
    assert_eq!(into_zero.len(), 2);
    assert!(graph.in_neighbors(0).iter().all(|e| e.target == 0 && e.source == 2));
    assert_eq!(graph.in_neighbors(1).len(), 2);
    assert_eq!(graph.in_neighbors(2).len(), 2);

    // the first of the two parallel edges from 2 to 0
    let first = graph.edge(4);
    graph.update_weight(4, 9);
    assert_eq!(graph.edge(4).weight, 9);
    let mut mirrored: Vec<i64> = graph.in_neighbors(0).iter().map(|e| e.weight).collect();
    mirrored.sort();
    let mut expected: Vec<i64> = into_zero.iter().map(|&w| if w == first.weight { 9 } else { w }).collect();
    expected.sort();
    assert_eq!(mirrored, expected);

    // the forward and the reverse array hold the same edges
    let mut forward: Vec<(usize, usize, i64)> = (0..6).map(|i| graph.edge(i).into_tuple()).collect();
    let mut reverse: Vec<(usize, usize, i64)> = (0..3)
        .flat_map(|u| graph.in_neighbors(u).iter().map(|e| e.into_tuple()).collect::<Vec<_>>())
        .collect();
    forward.sort();
    reverse.sort();
    assert_eq!(forward, reverse);
    assert_eq!(graph.forward().m(), 6);
    assert_eq!(graph.out_neighbors(1).len(), 2);
}

#[test]
fn complete_generator_lists_all_pairs() {
    let mut rng = Pcg64::seed_from_u64(1);
    let edges = Complete::new(3, false).generate(&mut rng);
    assert_eq!(edges, vec![(0, 1), (0, 2), (1, 0), (1, 2), (2, 0), (2, 1)]);
    let with_loops = Complete::new(2, true).generate(&mut rng);
    assert_eq!(with_loops, vec![(0, 0), (0, 1), (1, 0), (1, 1)]);
    assert!(Complete::new(0, true).generate(&mut rng).is_empty());
    assert!(Complete::new(1, false).generate(&mut rng).is_empty());
}

#[test]
fn cycle_generator_closes_the_cycle() {
    let mut rng = Pcg64::seed_from_u64(1);
    assert_eq!(Cycle::new(4).generate(&mut rng), vec![(0, 1), (1, 2), (2, 3), (3, 0)]);
    assert_eq!(Cycle::new(1).generate(&mut rng), vec![(0, 0)]);
    assert!(Cycle::new(0).generate(&mut rng).is_empty());
}

#[test]
fn band_bounds_are_prefix_sums() {
    assert_eq!(get_band_bounds(&[3, 0, 4, 1]), vec![0, 3, 3, 7, 8]);
    assert_eq!(get_band_bounds(&[]), vec![0]);
    assert_ne!(EdgeResult::Forward, EdgeResult::Backward);
    assert_eq!(EdgeResult::Both, EdgeResult::Both);
}

#[test]
fn node_state_follows_the_search() {
    let mut state = NodeState::new();
    assert!(!state.visited);
    state.visit(7);
    assert!(state.visited && state.on_stack);
    assert_eq!((state.index, state.low_link), (7, 7));
    assert!(state.is_root());
    state.try_lower_link(9);
    assert_eq!(state.low_link, 7);
    state.try_lower_link(4);
    assert_eq!(state.low_link, 4);
    assert!(!state.is_root());
}

#[test]
fn reusable_vec_forgets_on_clear() {
    let mut v: ReusableVec<usize> = ReusableVec::with_capacity(4);
    assert_eq!(v.len(), 0);
    assert!(!v.is_asymptotically_full());
    v.push(3);
    v.push(8);
    assert_eq!(v.len(), 2);
    assert_eq!(v.iter().to_vec(), vec![3, 8]);
    assert!(v.is_asymptotically_full());
    v.clear();
    assert_eq!(v.len(), 0);
    assert!(v.iter().is_empty());
    v.push(1);
    assert_eq!(v.iter().to_vec(), vec![1]);
}

fn components_of(n: usize, ends: &[(usize, usize)], singletons: bool) -> Vec<Vec<usize>> {
    let edges = ends.iter().map(|&(u, v)| Edge::new(u, v, 1)).collect();
    let graph = OneDirGraph::from_edges(n, edges);
    let mut search = StronglyConnected::new(&graph);
    search.set_include_singletons(singletons);
    let mut components = Vec::new();
    while let Some(mut component) = search.next() {
        component.sort();
        components.push(component);
    }
    assert_eq!(search.next(), None);
    components
}

#[test]
fn strongly_connected_components_partition_the_nodes() {
    // two cycles, joined by one edge, and two nodes that lie on no cycle
    let ends = [(0, 1), (1, 2), (2, 0), (2, 3), (3, 4), (4, 3), (4, 5), (6, 0)];
    let components = components_of(7, &ends, true);
    assert_eq!(components, vec![vec![5], vec![3, 4], vec![0, 1, 2], vec![6]]);
    let mut nodes: Vec<usize> = components.concat();
    nodes.sort();
    assert_eq!(nodes, vec![0, 1, 2, 3, 4, 5, 6]);
}

#[test]
fn strongly_connected_components_without_singletons() {
    let ends = [(0, 1), (1, 2), (2, 0), (2, 3), (3, 4), (4, 3), (4, 5), (6, 0), (5, 5)];
    let components = components_of(7, &ends, false);
    // node 5 has a loop and so is a component, node 6 lies on no cycle
    assert_eq!(components, vec![vec![5], vec![3, 4], vec![0, 1, 2]]);
}

#[test]
fn a_strongly_connected_graph_is_one_component() {
    let ends = [(0, 1), (0, 2), (1, 3), (1, 4), (2, 1), (2, 3), (3, 0), (3, 1), (3, 4), (4, 0)];
    assert_eq!(components_of(5, &ends, true), vec![vec![0, 1, 2, 3, 4]]);
    assert_eq!(components_of(5, &ends, false), vec![vec![0, 1, 2, 3, 4]]);
}

#[test]
fn edges_are_stored_one_per_line() {
    let text = |chars: Vec<char>| chars.into_iter().collect::<String>();
    assert_eq!(text(edge_line(Edge::new(0, 12, -7))), "0,12,-7\n");
    assert_eq!(text(edge_line(Edge::new(305, 0, 0))), "305,0,0\n");
    assert_eq!(text(edge_line(Edge::new(1, 2, 1_000_000))), "1,2,1000000\n");
    assert_eq!(
        text(edge_line(Edge::new(9, 10, i64::MIN))),
        "9,10,-9223372036854775808\n"
    );
    assert_eq!(
        text(edge_line(Edge::new(usize::MAX, 0, i64::MAX))),
        format!("{},0,{}\n", usize::MAX, i64::MAX)
    );
    let graph = OneDirGraph::from_edges(3, sample_edges());
    assert_eq!(
        text(store_graph(graph.edges())),
        "0,1,1\n0,2,4\n1,1,0\n1,2,-3\n2,0,5\n2,0,7\n"
    );
    assert_eq!(text(store_graph(&[])), "");
}

#[test]
fn edges_convert_from_triples() {
    assert_eq!(Edge::from((3, 4, -5)), Edge::new(3, 4, -5));
    assert_eq!(Edge::new(3, 4, -5).into_tuple(), (3, 4, -5));
}

#[test]
fn the_largest_component_is_kept_and_numbered_anew() {
    // two cycles, joined by one edge, and two nodes that lie on no cycle
    let ends = vec![(0, 1), (1, 2), (2, 0), (2, 3), (3, 4), (4, 3), (4, 5), (6, 0)];
    let edges = ends.iter().map(|&(u, v)| Edge::new(u, v, 0)).collect();
    let graph = OneDirGraph::from_edges(7, edges);
    let parts = components(&graph);
    assert_eq!(parts.len(), 4);
    assert_eq!(num_sccs(&graph), 4);
    let best = largest(&parts);
    assert_eq!(best, 2);
    let mut nodes = parts[best].clone();
    nodes.sort();
    assert_eq!(nodes, vec![0, 1, 2]);

    let (n, kept) = largest_component(7, &ends);
    assert_eq!(n, 3);
    let at = |u: usize| parts[best].iter().position(|&x| x == u).unwrap();
    assert_eq!(kept, vec![(at(0), at(1)), (at(1), at(2)), (at(2), at(0))]);

    // the largest component need not hold the first node
    let ends = vec![(0, 1), (1, 2), (2, 3), (3, 1), (3, 3)];
    let (n, mut kept) = largest_component(4, &ends);
    assert_eq!(n, 3);
    assert_eq!(kept.len(), 4);
    kept.sort();
    assert!(kept.iter().all(|&(u, v)| u < 3 && v < 3));
    assert_eq!(kept.iter().filter(|&&(u, v)| u == v).count(), 1);
}

#[test]
fn components_are_classes_of_nodes_that_reach_each_other() {
    let ends = [(0, 1), (1, 2), (2, 0), (2, 3), (3, 4), (4, 3), (4, 5), (6, 0), (5, 5), (7, 6), (6, 7)];
    let edges: Vec<Edge> = ends.iter().map(|&(u, v)| Edge::new(u, v, 0)).collect();
    let mut found = components(&OneDirGraph::from_edges(9, edges));
    for part in found.iter_mut() {
        part.sort();
    }
    found.sort();
    assert_eq!(found, vec![vec![0, 1, 2], vec![3, 4], vec![5], vec![6, 7], vec![8]]);
}

#[test]
fn the_first_of_the_largest_parts_is_picked() {
    let parts = vec![vec![4], vec![0, 1], vec![2, 3], vec![5]];
    assert_eq!(largest(&parts), 1);
    assert_eq!(largest(&vec![vec![7]]), 0);
}

#[test]
fn restricting_keeps_the_edges_inside_in_their_order() {
    let edges = vec![(3, 1), (0, 1), (1, 3), (3, 3), (2, 3), (1, 0)];
    let kept = restrict(4, &edges, &vec![3, 1]);
    assert_eq!(kept, vec![(0, 1), (1, 0), (0, 0)]);
    assert_eq!(restrict(4, &edges, &vec![]), vec![]);
}
