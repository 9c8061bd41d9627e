use negweight::graph::bellman_ford::{
    has_negative_cycle, shortest_path_tree_is_acyclic, BellmanFord, Graph,
};
use negweight::graph::repr::OneDirGraph;
use negweight::graph::{Edge, Node};

const EDGES: [(Node, Node); 10] = [
    (0, 1),
    (0, 2),
    (1, 3),
    (1, 4),
    (2, 1),
    (2, 3),
    (3, 0),
    (3, 1),
    (3, 4),
    (4, 0),
];

const GOOD_WEIGHTS: [[i64; 10]; 3] = [[-1, -1, -1, -1, -1, -1, 3, 1, 0, 3], [0; 10], [1; 10]];

const BAD_WEIGHTS: [[i64; 10]; 2] = [[-1, -1, -1, -1, -1, -1, 3, 1, 0, 2], [-1; 10]];

const DISTANCES: [[i64; 5]; 5] = [
    [0, -2, -1, -3, -3],
    [2, 0, 1, -1, -1],
    [1, -1, 0, -2, -2],
    [3, 1, 2, 0, 0],
    [3, 1, 2, 0, 0],
];

fn graph_with(weights: [i64; 10]) -> OneDirGraph {
    let edges = EDGES
        .iter()
        .zip(weights.iter())
        .map(|(&(u, v), &w)| Edge::new(u, v, w))
        .collect();
    OneDirGraph::from_edges(5, edges)
}

#[test]
fn feasible_graphs_have_no_negative_cycle() {
    for weights in GOOD_WEIGHTS {
        assert!(!has_negative_cycle(&graph_with(weights)));
    }
}

#[test]
fn infeasible_graphs_have_a_negative_cycle() {
    for weights in BAD_WEIGHTS {
        assert!(has_negative_cycle(&graph_with(weights)));
    }
}

#[test]
fn a_negative_four_cycle_is_found() {
    let edges = vec![
        Edge::new(0, 1, -1),
        Edge::new(1, 2, -1),
        Edge::new(2, 3, -1),
        Edge::new(3, 0, -1),
    ];
    assert!(has_negative_cycle(&OneDirGraph::from_edges(4, edges)));
    let edges = vec![
        Edge::new(0, 1, -1),
        Edge::new(1, 2, -1),
        Edge::new(2, 3, -1),
        Edge::new(3, 0, 3),
    ];
    assert!(!has_negative_cycle(&OneDirGraph::from_edges(4, edges)));
}

#[test]
fn a_negative_self_loop_is_a_negative_cycle() {
    let edges = vec![Edge::new(0, 1, 5), Edge::new(1, 1, -1), Edge::new(1, 2, 5)];
    assert!(has_negative_cycle(&OneDirGraph::from_edges(3, edges)));
    let edges = vec![Edge::new(0, 1, 5), Edge::new(1, 1, 0), Edge::new(1, 2, 5)];
    assert!(!has_negative_cycle(&OneDirGraph::from_edges(3, edges)));
}

#[test]
fn predecessors_form_a_forest_or_hold_a_cycle() {
    let graph = graph_with([1; 10]);
    // `5` stands for: no predecessor
    assert!(shortest_path_tree_is_acyclic(&graph, &[5, 5, 5, 5, 5]));
    assert!(shortest_path_tree_is_acyclic(&graph, &[5, 0, 1, 2, 3]));
    assert!(shortest_path_tree_is_acyclic(&graph, &[3, 3, 3, 5, 0]));
    assert!(!shortest_path_tree_is_acyclic(&graph, &[1, 0, 5, 5, 5]));
    assert!(!shortest_path_tree_is_acyclic(&graph, &[0, 5, 5, 5, 5]));
    assert!(!shortest_path_tree_is_acyclic(&graph, &[4, 0, 1, 2, 3]));
}

#[test]
fn bellman_ford_compares_the_distance_with_the_bound() {
    let graph = graph_with(GOOD_WEIGHTS[0]);
    let mut search = BellmanFord::new(5);
    for u in 0..5 {
        for v in 0..5 {
            let d = DISTANCES[u][v];
            if u == v {
                // a search from a node to itself is always rejected
                assert!(!search.run(&graph, u, v, d));
                assert!(!search.run(&graph, u, v, d - 3));
                assert!(!search.run(&graph, u, v, d + 1));
                continue;
            }
            // no walk is lighter than the distance, some walk is lighter than any greater bound
            assert!(search.run(&graph, u, v, d));
            assert!(search.run(&graph, u, v, d - 3));
            assert!(!search.run(&graph, u, v, d + 1));
        }
    }
}

#[test]
fn bellman_ford_answers_unreachable_targets() {
    let edges = vec![Edge::new(0, 1, -4), Edge::new(1, 2, 1)];
    let graph = OneDirGraph::from_edges(4, edges);
    let mut search = BellmanFord::new(4);
    assert!(search.run(&graph, 0, 3, 1_000));
    assert!(search.run(&graph, 2, 0, 1_000));
    assert!(!search.run(&graph, 0, 2, -2));
    assert!(search.run(&graph, 0, 2, -3));
}

#[test]
fn bellman_ford_rejects_a_search_from_a_node_to_itself() {
    let edges = vec![Edge::new(0, 1, -4), Edge::new(1, 2, 1)];
    let graph = OneDirGraph::from_edges(4, edges);
    let mut search = BellmanFord::new(4);
    for bound in [i64::MIN, -5, 0, 1, i64::MAX] {
        assert!(!search.run(&graph, 1, 1, bound));
        assert!(!search.run(&graph, 3, 3, bound));
    }
    // before it looks at the graph
    let mut other = BellmanFord::new(9);
    assert!(!other.run(&graph, 7, 7, 0));
}

#[test]
fn raw_graph_keeps_its_edges() {
    let edges = vec![Edge::new(1, 0, 2), Edge::new(0, 1, -1), Edge::new(0, 0, 4)];
    let mut graph = Graph::from_edges(2, edges);
    assert_eq!((graph.n(), graph.m()), (2, 3));
    assert_eq!(graph.edge(0), Edge::new(0, 0, 4));
    assert_eq!(graph.potential_weight(graph.edge(1)), -1);
    assert_eq!(graph.out_neighbors(0).len(), 2);
    graph.update_weight(2, -1);
    assert_eq!(graph.edge(2), Edge::new(1, 0, -1));
    assert!(has_negative_cycle(graph.adjacency()));
    graph.update_weight(2, 1);
    assert!(!has_negative_cycle(graph.adjacency()));
    assert_eq!(graph.into_edges().len(), 3);
}
