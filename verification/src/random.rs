//! The random source and what is taken on trust about it.
use vstd::prelude::*;
use rand::distributions::{Distribution, Uniform};
use rand::rngs::StdRng;
use rand::Rng;

verus! {

/// `rand::rngs::StdRng`, taken as it is. What it hands out next is not
/// known, only what every outcome has in common.
#[verifier::external_type_specification]
#[verifier::external_body]
pub struct ExStdRng(StdRng);

/// `Uniform::from(0..bound)` sampled once: some index below `bound`.
#[verifier::external_body]
pub(crate) fn uniform_index(rng: &mut StdRng, bound: usize) -> (index: usize)
    requires
        bound > 0,
    ensures
        index < bound,
{
    Uniform::from(0..bound).sample(rng)
}

/// `Rng::gen_range(0..bound)`: some index below `bound`.
#[verifier::external_body]
pub(crate) fn range_index(rng: &mut StdRng, bound: usize) -> (index: usize)
    requires
        bound > 0,
    ensures
        index < bound,
{
    rng.gen_range(0..bound)
}

/// `Rng::gen_ratio`: a draw that comes out true with the chance `numerator`
/// in `denominator`. The outside function panics on a denominator of zero
/// and on a numerator above the denominator.
#[verifier::external_body]
pub(crate) fn chance(rng: &mut StdRng, numerator: u32, denominator: u32) -> (hit: bool)
    requires
        0 < denominator,
        numerator <= denominator,
{
    rng.gen_ratio(numerator, denominator)
}

} // verus!
