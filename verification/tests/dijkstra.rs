use negweight::dijkstra::{Dijkstra, Graph};
use negweight::graph::{Edge, Node};

const EDGES: [(Node, Node); 10] = [
    (0, 1),
    (0, 2),
    (1, 3),
    (1, 4),
    (2, 1),
    (2, 3),
    (3, 0),
    (3, 1),
    (3, 4),
    (4, 0),
];

fn graph_with(weights: [i64; 10]) -> Graph {
    let edges = EDGES
        .iter()
        .zip(weights.iter())
        .map(|(&(u, v), &w)| Edge::new(u, v, w))
        .collect();
    Graph::from_edges(5, edges)
}

#[test]
fn test_dijkstra() {
    let graph = graph_with([1; 10]);
    let mut dijsktra = Dijkstra::new(graph.n());

    let res: [[i64; 5]; 5] = [
        [0, 1, 1, 2, 2],
        [2, 0, 3, 1, 1],
        [2, 1, 0, 1, 2],
        [1, 1, 2, 0, 1],
        [1, 2, 2, 3, 0],
    ];

    let targets: [Node; 5] = [4, 2, 4, 2, 3];

    for u in 0..graph.n() {
        let mut dj = vec![0; graph.n()];
        for (v, w) in dijsktra
            .run(&graph, u, targets[u], res[u][targets[u]])
            .unwrap()
        {
            dj[v] = w;
        }
        assert_eq!(res[u].to_vec(), dj);
    }
}

#[test]
fn dijkstra_rejects_a_node_as_its_own_target() {
    let graph = graph_with([1; 10]);
    let mut dijkstra = Dijkstra::new(graph.n());
    assert!(dijkstra.run(&graph, 2, 2, 5).is_none());
}

#[test]
fn dijkstra_rejects_a_target_within_the_bound() {
    let graph = graph_with([1; 10]);
    let mut dijkstra = Dijkstra::new(graph.n());
    assert!(dijkstra.run(&graph, 0, 4, 3).is_none());
    assert!(dijkstra.run(&graph, 0, 4, 2).is_some());
}

#[test]
fn dijkstra_chases_zero_weights() {
    let graph = graph_with([0; 10]);
    let mut dijkstra = Dijkstra::new(graph.n());
    for u in 0..5 {
        for v in 0..5 {
            assert!(dijkstra.run(&graph, u, v, 1).is_none());
        }
    }
    let tree = dijkstra.run(&graph, 0, 3, 0).unwrap();
    let mut nodes: Vec<Node> = tree.iter().map(|&(v, _)| v).collect();
    nodes.sort();
    assert_eq!(nodes, vec![0, 1, 2, 3, 4]);
    assert!(tree.iter().all(|&(_, d)| d == 0));
}

#[test]
fn dijkstra_works_under_reduced_weights() {
    let weights = [-1, -1, -1, -1, -1, -1, 3, 1, 0, 3];
    let distances: [[i64; 5]; 5] = [
        [0, -2, -1, -3, -3],
        [2, 0, 1, -1, -1],
        [1, -1, 0, -2, -2],
        [3, 1, 2, 0, 0],
        [3, 1, 2, 0, 0],
    ];
    let mut graph = graph_with(weights);
    let potentials = [0, 2, 1, 3, 3];
    for (u, &p) in potentials.iter().enumerate() {
        graph.update_potential(u, p);
    }
    assert!(graph.is_feasible());

    let targets: [Node; 5] = [4, 2, 4, 2, 3];
    let mut dijkstra = Dijkstra::new(graph.n());
    for u in 0..5 {
        let reduced = |v: usize| distances[u][v] + potentials[v] - potentials[u];
        let bound = reduced(targets[u]);
        let tree = dijkstra.run(&graph, u, targets[u], bound).unwrap();
        let within = (0..5).filter(|&v| reduced(v) <= bound).count();
        assert_eq!(tree.len(), within);
        for (v, d) in tree {
            assert_eq!(d, reduced(v));
        }
        assert!(dijkstra.run(&graph, u, targets[u], bound + 1).is_none());
    }
}

#[test]
fn a_search_from_a_node_to_itself_never_looks_at_the_graph() {
    let graph = Graph::from_edges(2, vec![Edge::new(0, 1, -7), Edge::new(1, 0, 1)]);
    assert!(!graph.is_feasible());
    let mut search = Dijkstra::new(9);
    assert_eq!(search.run(&graph, 5, 5, i64::MAX), None);
    assert_eq!(search.run(&graph, 0, 0, -3), None);
}
