use crate::random::{gen_code, gen_index, gen_small};
use std::collections::{HashMap, HashSet};
use vstd::prelude::*;

verus! {

/// A weighting of the cycle, written as one number in a positional system.
pub type WeightEncoding = u32;

/// The weights of the cycle are small integers.
pub type WeightType = i8;

/// The largest cycle that the experiment handles.
pub const MAX_NODES: usize = 16;

/// The weights of the edges of a single cycle, and their sum.
#[derive(Clone, Debug)]
pub struct Weights {
    weights: [WeightType; 16],
    total_weight: i32,
}

/// The sum of the first `k` weights.
pub open spec fn weight_sum(weights: Seq<WeightType>, k: int) -> int
    decreases k,
{
    if k <= 0 {
        0
    } else {
        weight_sum(weights, k - 1) + weights[k - 1]
    }
}

/// The power `base` to the `k`.
pub open spec fn power(base: int, k: int) -> int
    decreases k,
{
    if k <= 0 {
        1
    } else {
        base * power(base, k - 1)
    }
}

/// The first `k` weights as one number: the weight of node `i`, less `min`, is the digit of
/// weight `base` to the `i`.
pub open spec fn encoding(weights: Seq<WeightType>, k: int, min: int, base: int) -> int
    decreases k,
{
    if k <= 0 {
        0
    } else {
        encoding(weights, k - 1, min, base) + (weights[k - 1] - min) * power(base, k - 1)
    }
}

/// Replacing one weight changes the sum by the difference.
pub proof fn lemma_sum_update(weights: Seq<WeightType>, k: int, node: int, weight: WeightType)
    requires
        0 <= node < weights.len(),
        0 <= k <= weights.len(),
    ensures
        weight_sum(weights.update(node, weight), k) == weight_sum(weights, k) + if node < k {
            weight - weights[node]
        } else {
            0
        },
    decreases k,
{
    if k > 0 {
        lemma_sum_update(weights, k - 1, node, weight);
    }
}

/// The sum of `k` weights lies between `-128 * k` and `127 * k`.
pub proof fn lemma_sum_range(weights: Seq<WeightType>, k: int)
    requires
        0 <= k <= weights.len(),
    ensures
        -128 * k <= weight_sum(weights, k) <= 127 * k,
    decreases k,
{
    if k > 0 {
        lemma_sum_range(weights, k - 1);
    }
}

/// With every digit below the base, the encoding of `k` digits is below the base to the `k`.
pub proof fn lemma_encoding_range(weights: Seq<WeightType>, k: int, min: int, base: int)
    requires
        0 <= k <= weights.len(),
        base >= 1,
        forall|i: int| 0 <= i < k ==> 0 <= #[trigger] weights[i] - min < base,
    ensures
        0 <= encoding(weights, k, min, base) < power(base, k),
        power(base, k) >= 1,
    decreases k,
{
    if k > 0 {
        lemma_encoding_range(weights, k - 1, min, base);
        let digit = weights[k - 1] - min;
        let p = power(base, k - 1);
        assert(0 <= digit < base);
        assert(digit * p <= (base - 1) * p) by (nonlinear_arith)
            requires
                0 <= digit <= base - 1,
                p >= 1,
        ;
        assert(digit * p >= 0) by (nonlinear_arith)
            requires
                0 <= digit,
                p >= 1,
        ;
        assert((base - 1) * p + p == base * p) by (nonlinear_arith);
    }
}

/// Higher powers of a base of at least one are no smaller.
pub proof fn lemma_power_monotone(base: int, a: int, b: int)
    requires
        base >= 1,
        0 <= a <= b,
    ensures
        1 <= power(base, a) <= power(base, b),
    decreases b,
{
    if a < b {
        lemma_power_monotone(base, a, b - 1);
        let p = power(base, b - 1);
        assert(base * p >= p) by (nonlinear_arith)
            requires
                base >= 1,
                p >= 1,
        ;
    } else if b > 0 {
        lemma_power_monotone(base, a - 1, b - 1);
        let p = power(base, b - 1);
        assert(base * p >= 1) by (nonlinear_arith)
            requires
                base >= 1,
                p >= 1,
        ;
    }
}

impl View for Weights {
    type V = Seq<WeightType>;

    /// The weight of every node.
    closed spec fn view(&self) -> Seq<WeightType> {
        self.weights@
    }
}

impl Weights {
    /// The sum of all weights.
    pub closed spec fn total_spec(&self) -> int {
        self.total_weight as int
    }

    /// The representation invariant: `total_weight` is the sum of the weights.
    pub closed spec fn wf(&self) -> bool {
        self.total_weight == weight_sum(self.weights@, 16)
    }

    /// The view has one weight for each of the 16 nodes, and the total is their sum.
    pub proof fn lemma_total(&self)
        requires
            self.wf(),
        ensures
            self@.len() == 16,
            self.total_spec() == weight_sum(self@, 16),
    {
    }

    /// All weights zero.
    pub fn new() -> (r: Weights)
        ensures
            r.wf(),
            r@ == Seq::new(16, |i: int| 0i8),
            r.total_spec() == 0,
    {
        let r = Weights { weights: [0;16], total_weight: 0 };
        proof {
            assert(r.weights@ =~= Seq::new(16, |i: int| 0i8));
            lemma_zero_sum(r.weights@, 16);
        }
        r
    }

    /// Sets the weight of `node` to `weight` unless that makes the sum of the weights
    /// negative, and says whether it did.
    pub fn try_update(&mut self, node: usize, weight: WeightType) -> (r: bool)
        requires
            old(self).wf(),
            node < MAX_NODES,
        ensures
            final(self).wf(),
            r == (old(self).total_spec() - old(self)@[node as int] + weight >= 0),
            final(self)@ == if r {
                old(self)@.update(node as int, weight)
            } else {
                old(self)@
            },
    {
        proof {
            lemma_sum_range(self.weights@, 16);
        }
        let new_total = self.total_weight - self.weights[node] as i32 + weight as i32;
        if new_total < 0 {
            return false;
        }
        proof {
            lemma_sum_update(self.weights@, 16, node as int, weight);
        }
        self.weights[node] = weight;
        self.total_weight = new_total;
        true
    }

    /// Sets the weight of `node` to `weight`.
    pub fn update(&mut self, node: usize, weight: WeightType)
        requires
            old(self).wf(),
            node < MAX_NODES,
        ensures
            final(self).wf(),
            final(self)@ == old(self)@.update(node as int, weight),
    {
        proof {
            lemma_sum_range(self.weights@, 16);
            lemma_sum_update(self.weights@, 16, node as int, weight);
        }
        self.total_weight = self.total_weight - self.weights[node] as i32 + weight as i32;
        self.weights[node] = weight;
    }

    /// The weight of `node`.
    pub fn get_weight(&self, node: usize) -> (w: WeightType)
        requires
            node < MAX_NODES,
            self@.len() == 16,
        ensures
            w == self@[node as int],
    {
        self.weights[node]
    }

    /// The sum of all weights.
    pub fn total_weight(&self) -> (t: i32)
        ensures
            t == self.total_spec(),
    {
        self.total_weight
    }

    /// Writes the weights of the first `nodes` nodes as one number with the base
    /// `1 + max - min`: the weight of node `i`, less `min`, is the digit of weight
    /// `base` to the `i`.
    pub fn encode(&self, nodes: usize, min: WeightType, max: WeightType) -> (r: WeightEncoding)
        requires
            self@.len() == 16,
            nodes <= MAX_NODES,
            min <= max,
            forall|i: int| 0 <= i < nodes ==> min <= #[trigger] self@[i] <= max,
            power(1 + max - min, nodes as int) <= u32::MAX,
        ensures
            r == encoding(self@, nodes as int, min as int, 1 + max - min),
    {
        let ghost base = 1 + max - min;
        let step: u32 = (1 + (max as i32 - min as i32)) as u32;
        let mut encoding: u32 = 0;
        let mut digit: u32 = 1;
        let mut i: usize = 0;
        while i < nodes
            invariant
                i <= nodes <= 16,
                self@.len() == 16,
                base == 1 + max - min,
                step == base,
                1 <= base <= 256,
                forall|j: int| 0 <= j < nodes ==> min <= #[trigger] self@[j] <= max,
                power(base, nodes as int) <= u32::MAX,
                encoding == crate::cycle_cover::encoding(self@, i as int, min as int, base),
                digit == power(base, i as int),
            decreases nodes - i,
        {
            proof {
                lemma_power_monotone(base, 0, i as int);
                lemma_power_monotone(base, i as int + 1, nodes as int);
                assert forall|j: int| 0 <= j < i + 1 implies 0 <= #[trigger] self@[j] - min < base by {
                    assert(min <= self@[j] <= max);
                }
                lemma_encoding_range(self@, i as int + 1, min as int, base);
                lemma_encoding_range(self@, i as int, min as int, base);
                let d = self@[i as int] - min;
                let p = power(base, i as int);
                assert(0 <= d * p) by (nonlinear_arith)
                    requires
                        0 <= d,
                        p >= 1,
                ;
                assert(power(base, i as int + 1) == base * p);
            }
            let d: u32 = (self.weights[i] as i32 - min as i32) as u32;
            encoding = encoding + d * digit;
            digit = digit * step;
            i += 1;
        }
        encoding
    }
}

/// The sum of zeros is zero.
proof fn lemma_zero_sum(weights: Seq<WeightType>, k: int)
    requires
        0 <= k <= weights.len(),
        forall|i: int| 0 <= i < k ==> #[trigger] weights[i] == 0,
    ensures
        weight_sum(weights, k) == 0,
    decreases k,
{
    if k > 0 {
        lemma_zero_sum(weights, k - 1);
    }
}


/// The weights of the first `nodes` nodes lie between `min` and `max` and do not sum below
/// zero.
pub open spec fn is_valid_weighting(w: Seq<WeightType>, nodes: int, min: int, max: int) -> bool {
    &&& w.len() == 16
    &&& forall|i: int| 0 <= i < nodes ==> min <= #[trigger] w[i] <= max
    &&& weight_sum(w, nodes) >= 0
}

/// Some valid weighting that starts with the first `k` weights of `prefix` has the
/// encoding `code`.
pub open spec fn extends_to(code: int, prefix: Seq<WeightType>, k: int, nodes: int, min: int, max: int) -> bool {
    exists|w: Seq<WeightType>| #[trigger]
        is_valid_weighting(w, nodes, min, max) && agree(w, prefix, k) && encoding(w, nodes, min, 1 + max - min)
            == code
}

/// The two weightings have their first `k` weights in common.
pub open spec fn agree(a: Seq<WeightType>, b: Seq<WeightType>, k: int) -> bool {
    forall|i: int| 0 <= i < k ==> #[trigger] a[i] == b[i]
}

/// `code` is the encoding of a valid weighting.
pub open spec fn is_valid_encoding(code: int, nodes: int, min: int, max: int) -> bool {
    exists|w: Seq<WeightType>| #[trigger]
        is_valid_weighting(w, nodes, min, max) && encoding(w, nodes, min, 1 + max - min) == code
}

/// Weightings with the first `k` weights in common have the sum and the encoding of these
/// in common.
pub proof fn lemma_agree(a: Seq<WeightType>, b: Seq<WeightType>, k: int, min: int, base: int)
    requires
        agree(a, b, k),
    ensures
        weight_sum(a, k) == weight_sum(b, k),
        encoding(a, k, min, base) == encoding(b, k, min, base),
    decreases k,
{
    if k > 0 {
        assert(agree(a, b, k - 1));
        lemma_agree(a, b, k - 1, min, base);
        assert(a[k - 1] == b[k - 1]);
    }
}

/// The sum of weights, of which all from `k` on are zero, is the sum of the first `k`.
proof fn lemma_sum_tail(w: Seq<WeightType>, k: int, n: int)
    requires
        0 <= k <= n <= w.len(),
        forall|i: int| k <= i < n ==> #[trigger] w[i] == 0,
    ensures
        weight_sum(w, n) == weight_sum(w, k),
    decreases n,
{
    if n > k {
        lemma_sum_tail(w, k, n - 1);
    }
}

/// Collects, into `encodings`, the encodings of the valid weightings that start with the
/// first `node_id` weights of `node`.
fn collect(
    node: &mut Weights,
    encodings: &mut HashSet<WeightEncoding>,
    node_id: usize,
    nodes: usize,
    min: WeightType,
    max: WeightType,
)
    requires
        old(node).wf(),
        node_id < nodes <= MAX_NODES,
        min <= max,
        power(1 + max - min, nodes as int) <= u32::MAX,
        forall|i: int| 0 <= i < node_id ==> min <= #[trigger] old(node)@[i] <= max,
        forall|i: int| nodes <= i < 16 ==> #[trigger] old(node)@[i] == 0,
    ensures
        final(node).wf(),
        agree(final(node)@, old(node)@, node_id as int),
        forall|i: int| nodes <= i < 16 ==> #[trigger] final(node)@[i] == 0,
        forall|code: WeightEncoding|
            final(encodings)@.contains(code) <==> old(encodings)@.contains(code) || extends_to(
                code as int,
                old(node)@,
                node_id as int,
                nodes as int,
                min as int,
                max as int,
            ),
    decreases nodes - node_id,
{
    broadcast use vstd::std_specs::hash::group_hash_axioms;

    let ghost prefix = node@;
    let ghost base = 1 + max - min;
    proof {
        node.lemma_total();
    }
    let mut w: i16 = min as i16;
    while w <= max as i16
        invariant
            min <= w <= max + 1,
            node.wf(),
            node@.len() == 16,
            prefix.len() == 16,
            node_id < nodes <= MAX_NODES,
            min <= max,
            base == 1 + max - min,
            power(base, nodes as int) <= u32::MAX,
            agree(node@, prefix, node_id as int),
            forall|i: int| 0 <= i < node_id ==> min <= #[trigger] prefix[i] <= max,
            forall|i: int| nodes <= i < 16 ==> #[trigger] node@[i] == 0,
            forall|code: WeightEncoding|
                encodings@.contains(code) <==> old(encodings)@.contains(code) || exists|v: Seq<WeightType>| #[trigger]
                    is_valid_weighting(v, nodes as int, min as int, max as int) && agree(
                        v,
                        prefix,
                        node_id as int,
                    ) && v[node_id as int] < w && encoding(v, nodes as int, min as int, base) == code,
        decreases max - w + 1,
    {
        let ghost set_before = encodings@;
        node.update(node_id, w as WeightType);
        let ghost fixed = node@;
        proof {
            node.lemma_total();
            assert(agree(fixed, prefix, node_id as int));
            assert forall|i: int| 0 <= i < node_id + 1 implies min <= #[trigger] fixed[i] <= max by {
                if i < node_id {
                    assert(fixed[i] == prefix[i]);
                }
            }
        }
        if node_id == nodes - 1 {
            proof {
                lemma_sum_tail(fixed, nodes as int, 16);
            }
            if node.total_weight() >= 0 {
                let code = node.encode(nodes, min, max);
                encodings.insert(code);
                proof {
                    assert(is_valid_weighting(fixed, nodes as int, min as int, max as int));
                }
            }
            proof {
                // every weighting that starts with these `nodes` weights has their sum and encoding
                assert forall|v: Seq<WeightType>| agree(v, fixed, nodes as int) implies weight_sum(v, nodes as int)
                    == weight_sum(fixed, nodes as int) && encoding(v, nodes as int, min as int, base)
                    == encoding(fixed, nodes as int, min as int, base) by {
                    lemma_agree(v, fixed, nodes as int, min as int, base);
                }
                assert forall|code: WeightEncoding|
                    encodings@.contains(code) <==> set_before.contains(code) || extends_to(
                        code as int,
                        fixed,
                        node_id + 1,
                        nodes as int,
                        min as int,
                        max as int,
                    ) by {
                    if extends_to(code as int, fixed, node_id + 1, nodes as int, min as int, max as int) {
                        let v = choose|v: Seq<WeightType>| #[trigger]
                            is_valid_weighting(v, nodes as int, min as int, max as int) && agree(
                                v,
                                fixed,
                                node_id + 1,
                            ) && encoding(v, nodes as int, min as int, base) == code;
                        assert(agree(v, fixed, nodes as int));
                    }
                }
            }
        } else {
            collect(node, encodings, node_id + 1, nodes, min, max);
            proof {
                assert(agree(node@, prefix, node_id as int)) by {
                    assert forall|i: int| 0 <= i < node_id implies #[trigger] node@[i] == prefix[i] by {
                        assert(node@[i] == fixed[i]);
                    }
                }
            }
        }
        proof {
            // the weightings whose weight at `node_id` is at most `w`
            assert forall|code: WeightEncoding|
                encodings@.contains(code) <==> old(encodings)@.contains(code) || exists|v: Seq<WeightType>| #[trigger]
                    is_valid_weighting(v, nodes as int, min as int, max as int) && agree(
                        v,
                        prefix,
                        node_id as int,
                    ) && v[node_id as int] < w + 1 && encoding(v, nodes as int, min as int, base) == code by {
                let here = extends_to(code as int, fixed, node_id + 1, nodes as int, min as int, max as int);
                if here {
                    let v = choose|v: Seq<WeightType>| #[trigger]
                        is_valid_weighting(v, nodes as int, min as int, max as int) && agree(
                            v,
                            fixed,
                            node_id + 1,
                        ) && encoding(v, nodes as int, min as int, base) == code;
                    assert(v[node_id as int] == fixed[node_id as int]);
                    assert(agree(v, prefix, node_id as int)) by {
                        assert forall|i: int| 0 <= i < node_id implies #[trigger] v[i] == prefix[i] by {
                            assert(v[i] == fixed[i]);
                        }
                    }
                }
                if exists|v: Seq<WeightType>| #[trigger]
                    is_valid_weighting(v, nodes as int, min as int, max as int) && agree(
                        v,
                        prefix,
                        node_id as int,
                    ) && v[node_id as int] < w + 1 && encoding(v, nodes as int, min as int, base) == code {
                    let v = choose|v: Seq<WeightType>| #[trigger]
                        is_valid_weighting(v, nodes as int, min as int, max as int) && agree(
                            v,
                            prefix,
                            node_id as int,
                        ) && v[node_id as int] < w + 1 && encoding(v, nodes as int, min as int, base) == code;
                    if v[node_id as int] == w {
                        assert(agree(v, fixed, node_id + 1)) by {
                            assert forall|i: int| 0 <= i < node_id + 1 implies #[trigger] v[i] == fixed[i] by {
                                if i < node_id {
                                    assert(v[i] == prefix[i]);
                                    assert(fixed[i] == prefix[i]);
                                }
                            }
                        }
                        assert(here);
                    }
                }
            }
        }
        w += 1;
    }
    proof {
        assert forall|code: WeightEncoding|
            encodings@.contains(code) <==> old(encodings)@.contains(code) || extends_to(
                code as int,
                prefix,
                node_id as int,
                nodes as int,
                min as int,
                max as int,
            ) by {
            if extends_to(code as int, prefix, node_id as int, nodes as int, min as int, max as int) {
                let v = choose|v: Seq<WeightType>| #[trigger]
                    is_valid_weighting(v, nodes as int, min as int, max as int) && agree(
                        v,
                        prefix,
                        node_id as int,
                    ) && encoding(v, nodes as int, min as int, base) == code;
                assert(min <= v[node_id as int] <= max);
            }
        }
    }
}

/// The encodings of all weightings of a cycle of `nodes` edges with weights between `min`
/// and `max` whose sum is not negative.
pub fn valid_encodings(nodes: usize, min: WeightType, max: WeightType) -> (encodings: HashSet<WeightEncoding>)
    requires
        1 <= nodes <= MAX_NODES,
        min <= max,
        power(1 + max - min, nodes as int) <= u32::MAX,
    ensures
        forall|code: WeightEncoding|
            encodings@.contains(code) <==> is_valid_encoding(code as int, nodes as int, min as int, max as int),
{
    let mut encodings: HashSet<WeightEncoding> = HashSet::new();
    let mut node = Weights::new();
    proof {
        node.lemma_total();
    }
    let ghost start = node@;
    collect(&mut node, &mut encodings, 0, nodes, min, max);
    proof {
        assert forall|code: WeightEncoding|
            encodings@.contains(code) <==> is_valid_encoding(
                code as int,
                nodes as int,
                min as int,
                max as int,
            ) by {
            if is_valid_encoding(code as int, nodes as int, min as int, max as int) {
                let v = choose|v: Seq<WeightType>| #[trigger]
                    is_valid_weighting(v, nodes as int, min as int, max as int) && encoding(
                        v,
                        nodes as int,
                        min as int,
                        1 + max - min,
                    ) == code;
                assert(agree(v, start, 0));
            }
        }
    }
    encodings
}

/// The weighting after the proposals `proposals`, each a node and a weight for it, were made
/// in turn on the weighting with all weights zero: a proposal is taken over unless the sum
/// of the weights would fall below zero.
pub open spec fn weighting_after(proposals: Seq<(int, WeightType)>) -> Seq<WeightType>
    decreases proposals.len(),
{
    if proposals.len() == 0 {
        Seq::new(16, |i: int| 0i8)
    } else {
        let before = weighting_after(proposals.drop_last());
        let after = before.update(proposals.last().0, proposals.last().1);
        if weight_sum(after, 16) >= 0 {
            after
        } else {
            before
        }
    }
}

/// `proposals` are `num_steps` proposals, each for one of the first `nodes` nodes and with a
/// weight from `min` up to and including `max`.
pub open spec fn are_proposals(proposals: Seq<(int, WeightType)>, nodes: int, min: int, max: int, num_steps: int) -> bool {
    &&& proposals.len() == num_steps
    &&& forall|k: int|
        0 <= k < proposals.len() ==> 0 <= (#[trigger] proposals[k]).0 < nodes && min <= proposals[k].1 <= max
}

/// `code` encodes the weighting that some `num_steps` proposals leave.
pub open spec fn is_sample(code: int, nodes: int, min: int, max: int, num_steps: int) -> bool {
    exists|proposals: Seq<(int, WeightType)>| #[trigger]
        are_proposals(proposals, nodes, min, max, num_steps) && code == encoding(
            weighting_after(proposals),
            nodes,
            min,
            1 + max - min,
        )
}

/// Runs `num_steps` steps of the chain on a cycle of `nodes` edges that all start with the
/// weight zero: each step proposes, for an edge drawn uniformly, a weight drawn uniformly
/// from `min_weight` up to and including `max_weight`, and takes it over unless the sum of
/// the weights would fall below zero. Returns the encoding of the weighting at the end.
pub fn sample_encoding(
    rng: &mut rand_pcg::Lcg128Xsl64,
    nodes: usize,
    min_weight: WeightType,
    max_weight: WeightType,
    num_steps: u64,
) -> (code: WeightEncoding)
    requires
        1 <= nodes <= MAX_NODES,
        min_weight <= 0 <= max_weight,
        power(1 + max_weight - min_weight, nodes as int) <= u32::MAX,
    ensures
        is_valid_encoding(code as int, nodes as int, min_weight as int, max_weight as int),
        is_sample(code as int, nodes as int, min_weight as int, max_weight as int, num_steps as int),
{
    let mut node = Weights::new();
    proof {
        node.lemma_total();
    }
    let ghost mut proposals: Seq<(int, WeightType)> = Seq::empty();
    let mut step: u64 = 0;
    while step < num_steps
        invariant
            node.wf(),
            node@.len() == 16,
            1 <= nodes <= MAX_NODES,
            min_weight <= 0 <= max_weight,
            forall|i: int| 0 <= i < nodes ==> min_weight <= #[trigger] node@[i] <= max_weight,
            forall|i: int| nodes <= i < 16 ==> #[trigger] node@[i] == 0,
            node.total_spec() >= 0,
            step <= num_steps,
            are_proposals(proposals, nodes as int, min_weight as int, max_weight as int, step as int),
            node@ == weighting_after(proposals),
        decreases num_steps - step,
    {
        let node_id = gen_index(rng, nodes);
        let weight = gen_small(rng, min_weight, max_weight);
        let ghost before = node@;
        proof {
            node.lemma_total();
            lemma_sum_update(before, 16, node_id as int, weight);
        }
        let _ = node.try_update(node_id, weight);
        proof {
            node.lemma_total();
            let longer = proposals.push((node_id as int, weight));
            assert(longer.drop_last() =~= proposals);
            assert(longer.last() == (node_id as int, weight));
            assert forall|k: int| 0 <= k < longer.len() implies 0 <= (#[trigger] longer[k]).0 < nodes
                && min_weight <= longer[k].1 <= max_weight by {
                if k < proposals.len() {
                    assert(longer[k] == proposals[k]);
                }
            }
            proposals = longer;
        }
        step += 1;
    }
    proof {
        node.lemma_total();
        lemma_sum_tail(node@, nodes as int, 16);
        assert(is_valid_weighting(node@, nodes as int, min_weight as int, max_weight as int));
    }
    node.encode(nodes, min_weight, max_weight)
}


/// Draws codes below `possible` uniformly until one is a valid encoding, `tries` times at
/// most: returns the first valid code, or `None` where every draw was invalid.
pub fn sample_valid(
    rng: &mut rand_pcg::Lcg128Xsl64,
    valid: &HashSet<WeightEncoding>,
    possible: WeightEncoding,
    tries: u64,
) -> (r: Option<WeightEncoding>)
    requires
        possible > 0,
    ensures
        match r {
            Some(code) => valid@.contains(code) && code < possible,
            None => true,
        },
        tries == 0 ==> r.is_none(),
{
    broadcast use vstd::std_specs::hash::group_hash_axioms;

    let mut left = tries;
    while left > 0
        invariant
            possible > 0,
            left <= tries,
        decreases left,
    {
        let code = gen_code(rng, possible);
        if valid.contains(&code) {
            return Some(code);
        }
        left -= 1;
    }
    None
}

/// How often the encoding `e` occurs among the first `k` samples.
pub open spec fn occurrences(samples: Seq<WeightEncoding>, k: int, e: int) -> int
    decreases k,
{
    if k <= 0 {
        0
    } else {
        occurrences(samples, k - 1, e) + if samples[k - 1] == e {
            1int
        } else {
            0int
        }
    }
}

/// The valid encodings that do not occur among the first `k` samples.
pub open spec fn unseen(samples: Seq<WeightEncoding>, valid: Set<WeightEncoding>, k: int) -> Set<WeightEncoding> {
    valid.difference(samples.take(k).to_set())
}

/// How many valid encodings below `k` occur exactly `f` times among the samples.
pub open spec fn tally(samples: Seq<WeightEncoding>, valid: Set<WeightEncoding>, f: int, k: int) -> int
    decreases k,
{
    if k <= 0 {
        0
    } else {
        tally(samples, valid, f, k - 1) + if valid.contains((k - 1) as u32) && occurrences(
            samples,
            samples.len() as int,
            k - 1,
        ) == f {
            1int
        } else {
            0int
        }
    }
}

/// After how many samples the number of valid encodings that did not occur yet has come
/// down to `threshold` for the first time, counted from zero; `None` if it never has.
pub open spec fn is_completion(
    samples: Seq<WeightEncoding>,
    valid: Set<WeightEncoding>,
    threshold: int,
    time: Option<u64>,
) -> bool {
    match time {
        Some(step) => {
            &&& step < samples.len()
            &&& unseen(samples, valid, step + 1).len() == threshold
            &&& forall|k: int| 1 <= k <= step ==> (#[trigger] unseen(samples, valid, k)).len() != threshold
        },
        None => forall|k: int| 1 <= k <= samples.len() ==> (#[trigger] unseen(samples, valid, k)).len() != threshold,
    }
}

/// The counts of the frequencies: for every number of times that some valid encoding
/// occurs, how many valid encodings occur that often; in ascending order of the frequency.
pub open spec fn is_count_of_frequencies(
    counts: Seq<(u64, u64)>,
    samples: Seq<WeightEncoding>,
    valid: Set<WeightEncoding>,
    size: int,
) -> bool {
    &&& forall|i: int, j: int| 0 <= i < j < counts.len() ==> (#[trigger] counts[i]).0 < (#[trigger] counts[j]).0
    &&& forall|i: int|
        0 <= i < counts.len() ==> (#[trigger] counts[i]).1 > 0 && counts[i].1 == tally(
            samples,
            valid,
            counts[i].0 as int,
            size,
        )
    &&& forall|f: int|
        0 <= f <= samples.len() && #[trigger] tally(samples, valid, f, size) > 0 ==> exists|i: int|
            0 <= i < counts.len() && (#[trigger] counts[i]).0 == f
}

/// No encoding occurs more often than there are samples.
proof fn lemma_occurrences_bound(samples: Seq<WeightEncoding>, k: int, e: int)
    requires
        0 <= k,
    ensures
        0 <= occurrences(samples, k, e) <= k,
    decreases k,
{
    if k > 0 {
        lemma_occurrences_bound(samples, k - 1, e);
    }
}

/// A tally counts no more encodings than it has looked at.
proof fn lemma_tally_bound(samples: Seq<WeightEncoding>, valid: Set<WeightEncoding>, f: int, k: int)
    requires
        0 <= k,
    ensures
        0 <= tally(samples, valid, f, k) <= k,
    decreases k,
{
    if k > 0 {
        lemma_tally_bound(samples, valid, f, k - 1);
    }
}

/// Counts how often each sample occurs, and how many valid encodings occur how often.
///
/// Returns the counts of the frequencies, and the step at which the number of valid
/// encodings that did not occur yet had come down to a hundredth of all valid encodings.
/// With `quit_early`, the counting stops at that step, and no counts are returned.
pub fn count_frequencies(
    random_encodings: &[WeightEncoding],
    valid_encodings: &HashSet<WeightEncoding>,
    size: usize,
    quit_early: bool,
) -> (r: (Vec<(u64, u64)>, Option<u64>))
    requires
        size <= u32::MAX,
        random_encodings@.len() < usize::MAX,
        forall|e: WeightEncoding| valid_encodings@.contains(e) ==> e < size,
        forall|i: int| 0 <= i < random_encodings@.len() ==> valid_encodings@.contains(#[trigger] random_encodings@[i]),
        valid_encodings@.finite(),
    ensures
        is_completion(random_encodings@, valid_encodings@, (valid_encodings@.len() / 100) as int, r.1),
        quit_early && r.1.is_some() ==> r.0@.len() == 0,
        !(quit_early && r.1.is_some()) ==> is_count_of_frequencies(
            r.0@,
            random_encodings@,
            valid_encodings@,
            size as int,
        ),
{
    broadcast use vstd::std_specs::hash::group_hash_axioms;

    let ghost samples = random_encodings@;
    let ghost valid = valid_encodings@;
    let runs = random_encodings.len();
    let mut encoding_frequency: Vec<u64> = Vec::new();
    let mut i: usize = 0;
    while i < size
        invariant
            i <= size,
            encoding_frequency@.len() == i,
            forall|e: int| 0 <= e < i ==> #[trigger] encoding_frequency@[e] == 0,
        decreases size - i,
    {
        encoding_frequency.push(0);
        i += 1;
    }
    let mut completion_time: Option<u64> = None;
    let mut num_unseen = valid_encodings.len();
    let threshold = valid_encodings.len() / 100;
    proof {
        assert(samples.take(0) =~= Seq::<WeightEncoding>::empty());
        assert(unseen(samples, valid, 0) =~= valid);
    }
    let mut step: usize = 0;
    while step < runs
        invariant
            step <= runs,
            runs == samples.len(),
            samples == random_encodings@,
            valid == valid_encodings@,
            valid.finite(),
            threshold == valid.len() / 100,
            encoding_frequency@.len() == size,
            runs < usize::MAX,
            forall|e: WeightEncoding| valid.contains(e) ==> e < size,
            forall|i: int| 0 <= i < samples.len() ==> valid.contains(#[trigger] samples[i]),
            forall|e: int| 0 <= e < size ==> #[trigger] encoding_frequency@[e] == occurrences(samples, step as int, e),
            num_unseen == unseen(samples, valid, step as int).len(),
            match completion_time {
                Some(at) => {
                    &&& !quit_early
                    &&& at < step
                    &&& is_completion(samples, valid, threshold as int, Some(at))
                },
                None => forall|k: int| 1 <= k <= step ==> (#[trigger] unseen(samples, valid, k)).len() != threshold,
            },
        decreases runs - step,
    {
        let encoding = random_encodings[step];
        proof {
            lemma_occurrences_bound(samples, step as int, encoding as int);
            let before = unseen(samples, valid, step as int);
            let after = unseen(samples, valid, step as int + 1);
            assert(samples.take(step as int + 1) =~= samples.take(step as int).push(encoding));
            assert(samples.take(step as int + 1).to_set() =~= samples.take(step as int).to_set().insert(encoding)) by {
                let a = samples.take(step as int);
                let b = samples.take(step as int + 1);
                assert forall|x: WeightEncoding| b.to_set().contains(x) <==> a.to_set().insert(encoding).contains(
                    x,
                ) by {
                    if b.contains(x) {
                        let j = choose|j: int| 0 <= j < b.len() && b[j] == x;
                        if j < a.len() {
                            assert(a[j] == x);
                        }
                    }
                    if a.contains(x) {
                        let j = choose|j: int| 0 <= j < a.len() && a[j] == x;
                        assert(b[j] == x);
                    }
                    if x == encoding {
                        assert(b[step as int] == x);
                    }
                }
            }
            assert(after =~= before.remove(encoding));
            lemma_first_occurrence(samples, step as int, encoding);
            if before.contains(encoding) {
                assert(before.len() > 0) by {
                    if before.len() == 0 {
                        assert(before =~= Set::<WeightEncoding>::empty());
                    }
                }
            }
        }
        encoding_frequency[encoding as usize] += 1;
        if encoding_frequency[encoding as usize] == 1 {
            num_unseen -= 1;
        }
        if completion_time.is_none() && num_unseen == threshold {
            completion_time = Some(step as u64);
            if quit_early {
                return (Vec::new(), completion_time);
            }
        }
        step += 1;
    }
    // how many valid encodings occur how often
    let mut count_of_frequencies: HashMap<u64, u64> = HashMap::new();
    let mut e: usize = 0;
    while e < size
        invariant
            e <= size,
            size <= u32::MAX,
            runs == samples.len(),
            runs < usize::MAX,
            encoding_frequency@.len() == size,
            valid == valid_encodings@,
            forall|x: int| 0 <= x < size ==> #[trigger] encoding_frequency@[x] == occurrences(samples, runs as int, x),
            forall|g: u64| #[trigger]
                count_of_frequencies@.contains_key(g) ==> g <= runs && count_of_frequencies@[g] > 0,
            forall|g: u64|
                g <= runs ==> #[trigger] tally(samples, valid, g as int, e as int) == if count_of_frequencies@.contains_key(
                    g,
                ) {
                    count_of_frequencies@[g] as int
                } else {
                    0
                },
        decreases size - e,
    {
        let ghost known = count_of_frequencies@;
        proof {
            lemma_occurrences_bound(samples, runs as int, e as int);
        }
        if valid_encodings.contains(&(e as u32)) {
            let frequency = encoding_frequency[e];
            proof {
                lemma_tally_bound(samples, valid, frequency as int, e as int);
            }
            let count = match count_of_frequencies.get(&frequency) {
                Some(count) => *count,
                None => 0,
            };
            count_of_frequencies.insert(frequency, count + 1);
        }
        proof {
            let now = count_of_frequencies@;
            assert forall|g: u64| g <= runs implies #[trigger] tally(samples, valid, g as int, e as int + 1) == if now.contains_key(
                g,
            ) {
                now[g] as int
            } else {
                0
            } by {
                let earlier = tally(samples, valid, g as int, e as int);
                assert(earlier == if known.contains_key(g) {
                    known[g] as int
                } else {
                    0
                });
            }
        }
        e += 1;
    }
    let mut counts: Vec<(u64, u64)> = Vec::new();
    let mut g: usize = 0;
    while g < runs + 1
        invariant
            g <= runs + 1,
            runs == samples.len(),
            runs < usize::MAX,
            forall|x: u64| #[trigger] count_of_frequencies@.contains_key(x) ==> x <= runs && count_of_frequencies@[x] > 0,
            forall|x: u64|
                x <= runs ==> #[trigger] tally(samples, valid, x as int, size as int) == if count_of_frequencies@.contains_key(
                    x,
                ) {
                    count_of_frequencies@[x] as int
                } else {
                    0
                },
            forall|i: int| 0 <= i < counts@.len() ==> (#[trigger] counts@[i]).0 < g && counts@[i].1 > 0 && counts@[i].1
                == tally(samples, valid, counts@[i].0 as int, size as int),
            forall|i: int, j: int| 0 <= i < j < counts@.len() ==> (#[trigger] counts@[i]).0 < (#[trigger] counts@[j]).0,
            forall|x: int|
                0 <= x < g && #[trigger] tally(samples, valid, x, size as int) > 0 ==> exists|i: int|
                    0 <= i < counts@.len() && (#[trigger] counts@[i]).0 == x,
        decreases runs + 1 - g,
    {
        let ghost before = counts@;
        let frequency = g as u64;
        proof {
            assert(tally(samples, valid, frequency as int, size as int) == if count_of_frequencies@.contains_key(
                frequency,
            ) {
                count_of_frequencies@[frequency] as int
            } else {
                0
            });
        }
        if let Some(count) = count_of_frequencies.get(&frequency) {
            counts.push((frequency, *count));
        }
        proof {
            assert forall|x: int| 0 <= x < g + 1 && #[trigger] tally(samples, valid, x, size as int) > 0 implies exists|
                i: int,
            |
                0 <= i < counts@.len() && (#[trigger] counts@[i]).0 == x by {
                if x < g {
                    let i = choose|i: int| 0 <= i < before.len() && (#[trigger] before[i]).0 == x;
                    assert(counts@[i].0 == x);
                } else {
                    assert(counts@[counts@.len() - 1].0 == g);
                }
            }
        }
        g += 1;
    }
    (counts, completion_time)
}

/// A sample that occurs for the first time was unseen before.
proof fn lemma_first_occurrence(samples: Seq<WeightEncoding>, k: int, e: WeightEncoding)
    requires
        0 <= k <= samples.len(),
    ensures
        occurrences(samples, k, e as int) == 0 <==> !samples.take(k).to_set().contains(e),
    decreases k,
{
    if k > 0 {
        lemma_first_occurrence(samples, k - 1, e);
        lemma_occurrences_bound(samples, k - 1, e as int);
        let a = samples.take(k - 1);
        let b = samples.take(k);
        if b.contains(e) {
            let j = choose|j: int| 0 <= j < b.len() && b[j] == e;
            if j < k - 1 {
                assert(a[j] == e);
            }
        }
        if a.contains(e) {
            let j = choose|j: int| 0 <= j < a.len() && a[j] == e;
            assert(b[j] == e);
        }
        if samples[k - 1] == e {
            assert(b[k - 1] == e);
        }
    }
}

} // verus!
