use negweight::bidijkstra::{BiDijkstra, Graph, VisitedDistances};
use negweight::graph::{Edge, Node};
use negweight::weight::MAX;

const EDGES: [(Node, Node); 10] = [
    (0, 1),
    (0, 2),
    (1, 3),
    (1, 4),
    (2, 1),
    (2, 3),
    (3, 0),
    (3, 1),
    (3, 4),
    (4, 0),
];

const ONES: [[i64; 5]; 5] = [
    [0, 1, 1, 2, 2],
    [2, 0, 3, 1, 1],
    [2, 1, 0, 1, 2],
    [1, 1, 2, 0, 1],
    [1, 2, 2, 3, 0],
];

fn graph_with(weights: [i64; 10]) -> Graph {
    let edges = EDGES
        .iter()
        .zip(weights.iter())
        .map(|(&(u, v), &w)| Edge::new(u, v, w))
        .collect();
    Graph::from_edges(5, edges)
}

#[test]
fn bidijkstra_rejects_exactly_the_targets_within_the_bound() {
    let graph = graph_with([1; 10]);
    let mut search = BiDijkstra::new(5);
    for u in 0..5 {
        for v in 0..5 {
            if u == v {
                assert!(search.run(&graph, u, v, 3).is_none());
                continue;
            }
            let d = ONES[u][v];
            assert!(search.run(&graph, u, v, d + 1).is_none());
            assert!(search.run(&graph, u, v, d + 5).is_none());
            assert!(search.run(&graph, u, v, d).is_some());
            assert!(search.run(&graph, u, v, d - 1).is_some());
            assert!(search.run(&graph, u, v, 0).is_some());
            assert!(search.run(&graph, u, v, -4).is_some());
        }
    }
}

#[test]
fn bidijkstra_reports_both_trees() {
    let graph = graph_with([1; 10]);
    let mut search = BiDijkstra::new(5);
    for u in 0..5 {
        for v in 0..5 {
            if u == v {
                continue;
            }
            let bound = ONES[u][v];
            let ((df, db), tree) = search.run(&graph, u, v, bound).unwrap();
            assert_eq!(df + db, bound);
            assert!(tree.contains(&(u, 0)));
            assert!(tree.contains(&(v + 5, 0)));
            let mut nodes: Vec<Node> = tree.iter().map(|&(x, _)| x % 5).collect();
            nodes.sort();
            nodes.dedup();
            assert_eq!(nodes.len(), tree.len());
            for &(x, d) in &tree {
                if x < 5 {
                    assert_eq!(d, ONES[u][x]);
                    assert!(d <= df);
                } else {
                    assert_eq!(d, ONES[x - 5][v]);
                    assert!(d <= db);
                }
            }
            // the rebalanced potentials keep every reduced weight non-negative
            let mut shift = [0i64; 5];
            for &(x, d) in &tree {
                if x < 5 {
                    shift[x] = df - d;
                } else {
                    shift[x - 5] = d - db;
                }
            }
            for &(a, b) in &EDGES {
                assert!(1 + shift[b] - shift[a] >= 0);
            }
            assert_eq!(shift[u] - shift[v], bound);
        }
    }
}

#[test]
fn bidijkstra_stops_at_once_on_a_bound_that_is_not_positive() {
    let graph = graph_with([1; 10]);
    let mut search = BiDijkstra::new(5);
    let ((df, db), tree) = search.run(&graph, 0, 3, -2).unwrap();
    assert_eq!((df, db), (-2, 0));
    assert!(tree.is_empty());
}

#[test]
fn bidijkstra_handles_unreachable_targets() {
    let edges = vec![Edge::new(0, 1, 2), Edge::new(1, 0, 2), Edge::new(2, 3, 1), Edge::new(3, 2, 1)];
    let graph = Graph::from_edges(4, edges);
    let mut search = BiDijkstra::new(4);
    let ((df, db), _) = search.run(&graph, 0, 3, 100).unwrap();
    assert_eq!(df + db, 100);
    assert!(search.run(&graph, 0, 1, 3).is_none());
    assert!(search.run(&graph, 0, 1, 2).is_some());
}

#[test]
fn visit_states_follow_the_two_searches() {
    let mut states = VisitedDistances::new(3);
    assert_eq!(states.queue_node_forward(0, 4, 10), Some(true));
    assert_eq!(states.queue_node_forward(0, 4, 10), Some(false));
    assert_eq!(states.queue_node_forward(0, 3, 10), Some(true));
    assert!(!states.is_visited_forward(0, 3));
    assert!(states.is_visited_forward(0, 4));
    // the two distances of node 0 stay at or above the bound
    assert_eq!(states.queue_node_backward(0, 7, 10), Some(true));
    assert_eq!(states.queue_node_backward(0, 6, 10), None);
    assert_eq!(states.queue_node_forward(0, 2, 10), None);
    assert!(states.is_visited_backward(0, 8));
    assert!(!states.is_visited_backward(0, 7));
    assert!(states.is_visited_backward(0, MAX));
    assert!(!states.is_visited_backward(1, MAX));

    assert_eq!(states.queue_node_backward(1, 5, 10), Some(true));
    states.visit_node_forward(0);
    states.visit_node_backward(1);
    // a visited node takes no distance from the other search
    assert_eq!(states.queue_node_backward(0, 0, 10), Some(false));
    assert_eq!(states.queue_node_forward(1, 0, 10), Some(false));
    let mut distances = states.get_distances();
    distances.sort();
    assert_eq!(distances, vec![(0, 3), (1 + 3, 5)]);
    states.reset();
    assert!(states.get_distances().is_empty());
    assert_eq!(states.queue_node_forward(0, 9, 10), Some(true));
}

#[test]
fn the_frontiers_meet_in_the_middle_of_a_path() {
    let graph = Graph::from_edges(
        3,
        vec![Edge::new(0, 1, 1), Edge::new(1, 2, 1), Edge::new(2, 0, 5)],
    );
    let mut search = BiDijkstra::new(3);
    let ((df, db), mut tree) = search.run(&graph, 0, 2, 2).unwrap();
    assert_eq!((df, db), (1, 1));
    tree.sort();
    assert_eq!(tree, vec![(0, 0), (1, 1), (5, 0)]);
}

#[test]
fn empty_heaps_leave_the_rest_of_the_bound_to_the_forward_search() {
    let graph = Graph::from_edges(3, vec![Edge::new(0, 1, 1), Edge::new(1, 0, 1)]);
    let mut search = BiDijkstra::new(3);
    let ((df, db), mut tree) = search.run(&graph, 0, 2, 5).unwrap();
    assert_eq!((df, db), (5, 0));
    tree.sort();
    assert_eq!(tree, vec![(0, 0), (1, 1), (5, 0)]);
}

#[test]
fn a_bidirectional_search_from_a_node_to_itself_never_looks_at_the_graph() {
    let graph = Graph::from_edges(2, vec![Edge::new(0, 1, -7), Edge::new(1, 0, 1)]);
    assert!(!graph.forward().is_feasible());
    let mut search = BiDijkstra::new(9);
    assert_eq!(search.run(&graph, 5, 5, i64::MAX), None);
    assert_eq!(search.run(&graph, 0, 0, -3), None);
}
