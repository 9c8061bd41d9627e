use negweight::cycle_cover::{
    count_frequencies, sample_encoding, sample_valid, valid_encodings, Weights,
};
use rand::{Rng, SeedableRng};
use rand_pcg::Pcg64;
use std::collections::HashSet;

#[test]
fn node_try_update() {
    let mut node = Weights::new();
    assert!(node.try_update(0, 1));
    assert!(!node.try_update(0, -1));
    assert!(node.try_update(1, 1));
    assert!(node.try_update(0, -1));
}

#[test]
#[allow(clippy::identity_op)]
fn node_encoding() {
    let mut node = Weights::new();
    node.try_update(0, 0);
    assert_eq!(node.encode(1, -1, 1), 1);

    node.try_update(0, 1);
    assert_eq!(node.encode(1, -1, 1), 2);

    assert_eq!(node.encode(2, -1, 1), 2 + 3);
    assert_eq!(node.encode(3, -1, 1), 2 + 3 + 9);
}

#[test]
fn weights_track_their_total() {
    let mut node = Weights::new();
    assert_eq!(node.total_weight(), 0);
    node.update(3, -5);
    assert_eq!(node.total_weight(), -5);
    assert_eq!(node.get_weight(3), -5);
    assert!(!node.try_update(2, 4));
    assert_eq!(node.get_weight(2), 0);
    assert!(node.try_update(2, 5));
    assert_eq!(node.total_weight(), 0);
}

#[test]
fn valid_encodings_are_those_of_weightings_that_do_not_sum_below_zero() {
    // one edge with a weight of -1, 0 or 1: the weights 0 and 1 are valid
    let one: Vec<u32> = sorted(valid_encodings(1, -1, 1));
    assert_eq!(one, vec![1, 2]);
    // two edges: the six pairs with a sum of at least zero
    let two = sorted(valid_encodings(2, -1, 1));
    assert_eq!(two, vec![2, 4, 5, 6, 7, 8]);
    assert_eq!(valid_encodings(3, -1, 1).len(), 17);
    assert_eq!(valid_encodings(2, 0, 3).len(), 16);
    assert_eq!(sorted(valid_encodings(2, -2, -1)), Vec::<u32>::new());
    assert_eq!(sorted(valid_encodings(1, 0, 0)), vec![0]);
}

fn sorted(set: HashSet<u32>) -> Vec<u32> {
    let mut v: Vec<u32> = set.into_iter().collect();
    v.sort();
    v
}

#[test]
fn the_chain_on_the_cycle_ends_in_a_valid_weighting() {
    let mut rng = Pcg64::seed_from_u64(8);
    let valid = valid_encodings(4, -1, 1);
    let mut seen = HashSet::new();
    for steps in 0..200 {
        let code = sample_encoding(&mut rng, 4, -1, 1, steps);
        assert!(valid.contains(&code));
        seen.insert(code);
    }
    assert!(seen.len() > 10);
    // without a step, every weight is still zero
    assert_eq!(sample_encoding(&mut rng, 4, -1, 1, 0), 1 + 3 + 9 + 27);
}

#[test]
fn frequencies_are_counted_and_tallied() {
    let valid: HashSet<u32> = [2, 4, 5, 6, 7, 8].into_iter().collect();
    let samples = [4, 4, 8, 2, 4, 8, 7];
    let (counts, completion) = count_frequencies(&samples, &valid, 9, false);
    // 5 and 6 never occur, 2 and 7 occur once, 8 twice, 4 three times
    assert_eq!(counts, vec![(0, 2), (1, 2), (2, 1), (3, 1)]);
    assert_eq!(counts.iter().map(|&(f, c)| f * c).sum::<u64>(), 7);
    // a hundredth of six encodings is none: the encodings are never all seen
    assert_eq!(completion, None);

    let all = [2, 4, 5, 5, 6, 7, 8, 8];
    let (counts, completion) = count_frequencies(&all, &valid, 9, false);
    assert_eq!(counts, vec![(1, 4), (2, 2)]);
    assert_eq!(completion, Some(6));
    let (counts, completion) = count_frequencies(&all, &valid, 9, true);
    assert!(counts.is_empty());
    assert_eq!(completion, Some(6));

    let (counts, completion) = count_frequencies(&[], &valid, 9, true);
    assert_eq!(counts, vec![(0, 6)]);
    assert_eq!(completion, None);
}

#[test]
fn the_chain_on_the_cycle_draws_a_node_and_a_weight_per_step() {
    for seed in [1u64, 2, 3] {
        let mut rng = Pcg64::seed_from_u64(seed);
        let code = sample_encoding(&mut rng, 4, -2, 3, 50);
        let mut twin = Pcg64::seed_from_u64(seed);
        let mut weights = Weights::new();
        for _ in 0..50 {
            let node: usize = twin.gen_range(0..4);
            let weight: i8 = twin.gen_range(-2..=3);
            weights.try_update(node, weight);
        }
        assert_eq!(code, weights.encode(4, -2, 3));
    }
}

#[test]
fn a_valid_code_is_drawn_if_the_tries_suffice() {
    let mut rng = Pcg64::seed_from_u64(9);
    let valid: HashSet<u32> = [3u32, 11].into_iter().collect();
    for _ in 0..50 {
        let code = sample_valid(&mut rng, &valid, 16, 1_000_000).unwrap();
        assert!(code == 3 || code == 11);
    }
    assert_eq!(sample_valid(&mut rng, &valid, 16, 0), None);
    assert_eq!(sample_valid(&mut rng, &HashSet::new(), 16, 100), None);
    let all: HashSet<u32> = (0..16).collect();
    let mut twin = Pcg64::seed_from_u64(4);
    let expected: u32 = twin.gen_range(0..16);
    assert_eq!(sample_valid(&mut Pcg64::seed_from_u64(4), &all, 16, 1), Some(expected));
}
