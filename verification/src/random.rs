//! The generator of random numbers that the randomised strategies draw from.

use rand::{Rng, SeedableRng};
use rand_pcg::Pcg32;
use vstd::prelude::*;

verus! {

/// The generator `rand_pcg::Pcg32`, of which nothing is known here.
#[verifier::external_type_specification]
#[verifier::external_body]
pub struct ExPcg32(rand_pcg::Lcg64Xsh32);

/// `rand::SeedableRng::seed_from_u64` for `rand_pcg::Pcg32`: a generator
/// made from a seed.
#[verifier::external_body]
pub(crate) fn seeded(seed: u64) -> (rng: Pcg32) {
    Pcg32::seed_from_u64(seed)
}

/// `rand::Rng::gen_range` on the range `0..n`: some number below `n`.
#[verifier::external_body]
pub(crate) fn draw_below(rng: &mut Pcg32, n: usize) -> (x: usize)
    requires
        n > 0,
    ensures
        x < n,
{
    rng.gen_range(0..n)
}

} // verus!
