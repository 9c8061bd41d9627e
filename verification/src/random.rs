use crate::weight::Weight;
use rand::distributions::{Distribution, Uniform};
use rand::Rng;
use vstd::prelude::*;

verus! {

/// The generator `rand_pcg::Pcg64`, which is `rand_pcg::Lcg128Xsl64`. Its state is hidden
/// from the proofs: nothing is known of the numbers that it hands out but what the sampling
/// functions below state.
#[verifier::external_type_specification]
#[verifier::external_body]
pub struct ExPcg64(rand_pcg::Lcg128Xsl64);

/// `Uniform::new(0, m)` of the crate `rand`, sampled once: a number from `0` up to, not
/// including, `m`. The constructor panics on an empty range, which `m > 0` rules out.
#[verifier::external_body]
pub(crate) fn sample_index(rng: &mut rand_pcg::Lcg128Xsl64, m: usize) -> (r: usize)
    requires
        m > 0,
    ensures
        r < m,
{
    Uniform::new(0usize, m).sample(rng)
}

/// `Uniform::new_inclusive(min, max)` of the crate `rand`, sampled once: a weight from `min`
/// up to and including `max`. The constructor panics where `min > max`.
#[verifier::external_body]
pub(crate) fn sample_weight(rng: &mut rand_pcg::Lcg128Xsl64, min: Weight, max: Weight) -> (r: Weight)
    requires
        min <= max,
    ensures
        min <= r <= max,
{
    Uniform::new_inclusive(min, max).sample(rng)
}

/// `Rng::gen_range` of the crate `rand` on the range `0..m`: a number from `0` up to, not
/// including, `m`. The function panics on an empty range, which `m > 0` rules out.
#[verifier::external_body]
pub(crate) fn gen_index(rng: &mut rand_pcg::Lcg128Xsl64, m: usize) -> (r: usize)
    requires
        m > 0,
    ensures
        r < m,
{
    rng.gen_range(0..m)
}

/// `Rng::gen_range` of the crate `rand` on the range `0..bound` of 32-bit numbers: a number
/// from `0` up to, not including, `bound`. The function panics on an empty range, which
/// `bound > 0` rules out.
#[verifier::external_body]
pub(crate) fn gen_code(rng: &mut rand_pcg::Lcg128Xsl64, bound: u32) -> (r: u32)
    requires
        bound > 0,
    ensures
        r < bound,
{
    rng.gen_range(0..bound)
}

/// `Rng::gen_range` of the crate `rand` on the range `min..=max` of weights: a weight from
/// `min` up to and including `max`. The function panics where `min > max`.
#[verifier::external_body]
pub(crate) fn gen_weight(rng: &mut rand_pcg::Lcg128Xsl64, min: Weight, max: Weight) -> (r: Weight)
    requires
        min <= max,
    ensures
        min <= r <= max,
{
    rng.gen_range(min..=max)
}

/// `Rng::gen_range` of the crate `rand` on the range `min..=max` of 8-bit numbers: a number
/// from `min` up to and including `max`. The function panics where `min > max`.
#[verifier::external_body]
pub(crate) fn gen_small(rng: &mut rand_pcg::Lcg128Xsl64, min: i8, max: i8) -> (r: i8)
    requires
        min <= max,
    ensures
        min <= r <= max,
{
    rng.gen_range(min..=max)
}

} // verus!
