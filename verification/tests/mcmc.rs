use negweight::bidijkstra::BiDijkstra;
use negweight::dijkstra::Dijkstra;
use negweight::graph::bellman_ford::{has_negative_cycle, BellmanFord, Graph as RawGraph};
use negweight::graph::generators::{Cycle, GraphGenerator};
use negweight::graph::repr::{OneDirGraph, TwoDirGraph};
use negweight::graph::{Edge, Node};
use negweight::mcmc::{
    step_bellman_ford, step_bidijkstra, step_bidijkstra_tested, step_dijkstra,
    step_dijkstra_tested, Algorithm, ExpNegWeightMCMC, InitialWeights, NegWeightMCMC,
};
use rand::{Rng, SeedableRng};
use rand_pcg::Pcg64;

const EDGES: [(Node, Node); 10] = [
    (0, 1),
    (0, 2),
    (1, 3),
    (1, 4),
    (2, 1),
    (2, 3),
    (3, 0),
    (3, 1),
    (3, 4),
    (4, 0),
];

fn edges_with(ends: &[(Node, Node)], weight: i64) -> Vec<Edge> {
    ends.iter().map(|&(u, v)| Edge::new(u, v, weight)).collect()
}

fn random_edges(rng: &mut Pcg64, n: usize, m: usize, weight: i64) -> Vec<Edge> {
    (0..m)
        .map(|_| Edge::new(rng.gen_range(0..n), rng.gen_range(0..n), weight))
        .collect()
}

fn weights_of(graph: &OneDirGraph) -> Vec<i64> {
    graph.edges().iter().map(|e| e.weight).collect()
}

#[test]
fn a_proposal_with_a_non_negative_reduced_weight_is_accepted_directly() {
    let mut graph = OneDirGraph::from_edges(5, edges_with(&EDGES, 1));
    let mut dijkstra = Dijkstra::new(5);
    assert!(step_dijkstra(&mut graph, &mut dijkstra, 3, 0));
    assert_eq!(graph.edge(3).weight, 0);
    assert!((0..5).all(|u| graph.potential(u) == 0));
    assert!(graph.is_feasible());
}

#[test]
fn an_accepted_proposal_rebalances_the_potentials() {
    // the shortest way back from node 1 to node 0 has the length 2
    let mut graph = OneDirGraph::from_edges(5, edges_with(&EDGES, 1));
    let mut dijkstra = Dijkstra::new(5);
    assert!(step_dijkstra(&mut graph, &mut dijkstra, 0, -2));
    assert_eq!(graph.edge(0), Edge::new(0, 1, -2));
    assert!(graph.is_feasible());
    // every node within the bound of node 1 rose by what its distance lacks to the bound
    let potentials: Vec<i64> = (0..5).map(|u| graph.potential(u)).collect();
    assert_eq!(potentials, vec![0, 2, 0, 1, 1]);
    assert_eq!(graph.potential_weight(graph.edge(0)), 0);
    assert!(!has_negative_cycle(&graph));
}

#[test]
fn a_proposal_that_closes_a_negative_cycle_is_rejected() {
    let mut graph = OneDirGraph::from_edges(5, edges_with(&EDGES, 1));
    let mut dijkstra = Dijkstra::new(5);
    let before = weights_of(&graph);
    assert!(!step_dijkstra(&mut graph, &mut dijkstra, 0, -3));
    assert_eq!(weights_of(&graph), before);
    assert!((0..5).all(|u| graph.potential(u) == 0));

    let mut graph = TwoDirGraph::from_edges(5, edges_with(&EDGES, 1));
    let mut bidijkstra = BiDijkstra::new(5);
    assert!(!step_bidijkstra(&mut graph, &mut bidijkstra, 0, -3));
    assert!(step_bidijkstra(&mut graph, &mut bidijkstra, 0, -2));
    assert!(graph.forward().is_feasible());
    assert_eq!(graph.potential_weight(graph.edge(0)), 0);

    let mut graph = RawGraph::from_edges(5, edges_with(&EDGES, 1));
    let mut bellman_ford = BellmanFord::new(5);
    assert!(!step_bellman_ford(&mut graph, &mut bellman_ford, 0, -3));
    assert!(step_bellman_ford(&mut graph, &mut bellman_ford, 0, -2));
    assert!(step_bellman_ford(&mut graph, &mut bellman_ford, 0, 7));
    assert_eq!(graph.edge(0).weight, 7);
}

#[test]
fn a_negative_self_loop_is_never_accepted() {
    let ends = [(0, 0), (0, 1), (1, 0)];
    let mut graph = OneDirGraph::from_edges(2, edges_with(&ends, 1));
    let mut dijkstra = Dijkstra::new(2);
    assert!(!step_dijkstra(&mut graph, &mut dijkstra, 0, -1));
    assert!(step_dijkstra(&mut graph, &mut dijkstra, 0, 0));
    let mut graph = TwoDirGraph::from_edges(2, edges_with(&ends, 1));
    let mut bidijkstra = BiDijkstra::new(2);
    assert!(!step_bidijkstra(&mut graph, &mut bidijkstra, 0, -1));
    let mut graph = RawGraph::from_edges(2, edges_with(&ends, 1));
    let mut bellman_ford = BellmanFord::new(2);
    assert!(!step_bellman_ford(&mut graph, &mut bellman_ford, 0, -1));
    assert!(step_bellman_ford(&mut graph, &mut bellman_ford, 0, 0));
}

#[test]
fn the_three_deciders_agree_on_every_proposal() {
    let mut rng = Pcg64::seed_from_u64(1234);
    let n = 100;
    let edges = random_edges(&mut rng, n, 500, 1);
    let mut one = OneDirGraph::from_edges(n, edges.clone());
    let mut two = TwoDirGraph::from_edges(n, edges.clone());
    let mut raw = RawGraph::from_edges(n, edges);
    let mut dijkstra = Dijkstra::new(n);
    let mut bidijkstra = BiDijkstra::new(n);
    let mut bellman_ford = BellmanFord::new(n);
    let mut accepted = 0;
    for _ in 0..2500 {
        let idx = rng.gen_range(0..500);
        let weight = rng.gen_range(-1..=1);
        let a = step_dijkstra(&mut one, &mut dijkstra, idx, weight);
        let b = step_bidijkstra(&mut two, &mut bidijkstra, idx, weight);
        let c = step_bellman_ford(&mut raw, &mut bellman_ford, idx, weight);
        assert_eq!(a, b);
        assert_eq!(a, c);
        accepted += a as usize;
        assert!(one.is_feasible());
        assert!(two.forward().is_feasible());
    }
    assert!(accepted > 0 && accepted < 2500);
    assert_eq!(weights_of(&one), weights_of(two.forward()));
    assert_eq!(weights_of(&one), weights_of(raw.adjacency()));
    assert!(weights_of(&one).iter().any(|&w| w < 0));
    assert!(!has_negative_cycle(&one));
    assert!(!has_negative_cycle(two.forward()));
    assert!(!has_negative_cycle(raw.adjacency()));
}

#[test]
fn the_chain_keeps_the_graph_feasible_and_the_weights_in_range() {
    for seed in [1234u64, 7, 99] {
        let mut rng = Pcg64::seed_from_u64(seed);
        let n = 100;
        let edges = random_edges(&mut rng, n, 500, 4);
        let mut one = OneDirGraph::from_edges(n, edges.clone());
        one.run_mcmc(&mut rng, -3, 4, 2500);
        assert!(one.is_feasible());
        assert!(!has_negative_cycle(&one));
        assert!(weights_of(&one).iter().all(|&w| -3 <= w && w <= 4));
        assert!(weights_of(&one).iter().any(|&w| w < 0));

        let mut two = TwoDirGraph::from_edges(n, edges.clone());
        two.run_mcmc(&mut rng, -3, 4, 2500);
        assert!(two.forward().is_feasible());
        assert!(!has_negative_cycle(two.forward()));
        assert!(weights_of(two.forward()).iter().all(|&w| -3 <= w && w <= 4));

        let mut raw = RawGraph::from_edges(n, edges);
        raw.run_mcmc(&mut rng, -3, 4, 500);
        assert!(!has_negative_cycle(raw.adjacency()));
        assert!(weights_of(raw.adjacency()).iter().all(|&w| -3 <= w && w <= 4));
    }
}

#[test]
fn the_weights_around_a_cycle_never_sum_below_zero() {
    let mut rng = Pcg64::seed_from_u64(16);
    let ends = Cycle::new(16).generate(&mut rng);
    let mut graph = TwoDirGraph::from_edges(16, edges_with(&ends, 1));
    for _ in 0..10 {
        graph.run_mcmc(&mut rng, -1, 1, 16);
        let sum: i64 = weights_of(graph.forward()).iter().sum();
        assert!(sum >= 0);
    }
    let mut graph = OneDirGraph::from_edges(16, edges_with(&ends, 1));
    graph.run_mcmc(&mut rng, -1, 1, 160);
    assert!(weights_of(&graph).iter().sum::<i64>() >= 0);
}

#[test]
fn zero_rounds_leave_the_graph_alone() {
    let mut rng = Pcg64::seed_from_u64(3);
    let mut graph = OneDirGraph::from_edges(5, edges_with(&EDGES, 1));
    graph.run_mcmc(&mut rng, -1, 1, 0);
    assert_eq!(weights_of(&graph), vec![1; 10]);
}

#[test]
fn algorithms_are_read_off_their_names() {
    assert_eq!(Algorithm::from_str("d"), Algorithm::Dijkstra);
    assert_eq!(Algorithm::from_str("dijkstra"), Algorithm::Dijkstra);
    assert_eq!(Algorithm::from_str("df"), Algorithm::Dijkstra);
    assert_eq!(Algorithm::from_str("bf"), Algorithm::BellmanFord);
    assert_eq!(Algorithm::from_str("bellmanford"), Algorithm::BellmanFord);
    assert_eq!(Algorithm::from_str("bd"), Algorithm::BiDijkstra);
    assert_eq!(Algorithm::from_str("bidijkstra"), Algorithm::BiDijkstra);
    assert_eq!(Algorithm::from_str(""), Algorithm::BiDijkstra);
}

#[test]
fn initial_weights_follow_their_kind() {
    let mut rng = Pcg64::seed_from_u64(5);
    assert_eq!(InitialWeights::Maximum.generate_weight(&mut rng, 9), 9);
    assert_eq!(InitialWeights::Zero.generate_weight(&mut rng, 9), 0);
    assert_eq!(InitialWeights::Value(4).generate_weight(&mut rng, 9), 4);
    assert_eq!(InitialWeights::Value(-4).generate_weight(&mut rng, 9), 0);
    assert_eq!(InitialWeights::Value(40).generate_weight(&mut rng, 9), 9);
    for _ in 0..100 {
        let w = InitialWeights::Uniform.generate_weight(&mut rng, 9);
        assert!(0 <= w && w <= 9);
    }
    assert_eq!(InitialWeights::Uniform.generate_weight(&mut rng, 0), 0);
    assert_eq!(InitialWeights::Maximum.to_char(), 'm');
    assert_eq!(InitialWeights::Zero.to_char(), 'z');
    assert_eq!(InitialWeights::Uniform.to_char(), 'u');
    assert_eq!(InitialWeights::Value(3).to_char(), 'v');
    assert_eq!(InitialWeights::from_keyword("max"), Some(InitialWeights::Maximum));
    assert_eq!(InitialWeights::from_keyword("zero"), Some(InitialWeights::Zero));
    assert_eq!(InitialWeights::from_keyword("u"), Some(InitialWeights::Uniform));
    assert_eq!(InitialWeights::from_keyword("0.5"), None);
    assert_eq!(InitialWeights::from_keyword(""), None);
}

#[test]
fn the_cross_check_agrees_with_every_decision() {
    let mut rng = Pcg64::seed_from_u64(4321);
    let n = 60;
    let edges = random_edges(&mut rng, n, 300, 2);
    let mut one = OneDirGraph::from_edges(n, edges.clone());
    let mut two = TwoDirGraph::from_edges(n, edges);
    let mut dijkstra = Dijkstra::new(n);
    let mut bidijkstra = BiDijkstra::new(n);
    let mut tester = BellmanFord::new(n);
    let mut rejected = 0;
    for _ in 0..1500 {
        let idx = rng.gen_range(0..300);
        let weight = rng.gen_range(-2..=2);
        let (a, agrees) = step_dijkstra_tested(&mut one, &mut dijkstra, &mut tester, idx, weight);
        assert!(agrees);
        let (b, agrees) = step_bidijkstra_tested(&mut two, &mut bidijkstra, &mut tester, idx, weight);
        assert!(agrees);
        assert_eq!(a, b);
        rejected += !a as usize;
    }
    assert!(rejected > 0);
}

#[test]
fn the_same_proposals_give_the_same_weights_whatever_the_search() {
    for seed in [5u64, 21, 1234] {
        let mut one = OneDirGraph::from_edges(5, edges_with(&EDGES, 2));
        let mut two = TwoDirGraph::from_edges(5, edges_with(&EDGES, 2));
        let mut raw = RawGraph::from_edges(5, edges_with(&EDGES, 2));
        one.run_mcmc(&mut Pcg64::seed_from_u64(seed), -2, 2, 200);
        two.run_mcmc(&mut Pcg64::seed_from_u64(seed), -2, 2, 200);
        raw.run_mcmc(&mut Pcg64::seed_from_u64(seed), -2, 2, 200);
        assert_eq!(weights_of(&one), weights_of(two.forward()));
        assert_eq!(weights_of(&one), weights_of(raw.adjacency()));
        assert!(weights_of(&one).iter().any(|&w| w != 2));
    }
}

#[test]
fn uniform_start_weights_are_drawn_from_the_whole_range_at_once() {
    let mut rng = Pcg64::seed_from_u64(77);
    let mut twin = Pcg64::seed_from_u64(77);
    for _ in 0..200 {
        let drawn = InitialWeights::Uniform.generate_weight(&mut rng, 1000);
        let expected: i64 = twin.gen_range(0..=1000);
        assert_eq!(drawn, expected);
    }
}

#[test]
fn the_cross_checked_chain_agrees_and_ends_where_the_chain_ends() {
    for seed in [3u64, 1234] {
        let mut plain = OneDirGraph::from_edges(5, edges_with(&EDGES, 2));
        let mut checked = OneDirGraph::from_edges(5, edges_with(&EDGES, 2));
        plain.run_mcmc(&mut Pcg64::seed_from_u64(seed), -2, 2, 300);
        assert!(checked.run_mcmc_tested(&mut Pcg64::seed_from_u64(seed), -2, 2, 300));
        assert_eq!(weights_of(&plain), weights_of(&checked));

        let mut plain = TwoDirGraph::from_edges(5, edges_with(&EDGES, 2));
        let mut checked = TwoDirGraph::from_edges(5, edges_with(&EDGES, 2));
        plain.run_mcmc(&mut Pcg64::seed_from_u64(seed), -2, 2, 300);
        assert!(checked.run_mcmc_tested(&mut Pcg64::seed_from_u64(seed), -2, 2, 300));
        assert_eq!(weights_of(plain.forward()), weights_of(checked.forward()));
    }
    // self-loops are cross-checked by the sign of the proposed weight
    let ends = [(0, 0), (0, 1), (1, 0), (1, 1)];
    let mut graph = OneDirGraph::from_edges(2, edges_with(&ends, 1));
    assert!(graph.run_mcmc_tested(&mut Pcg64::seed_from_u64(5), -3, 3, 200));
    assert!(weights_of(&graph)[0] >= 0 && weights_of(&graph)[3] >= 0);
}
