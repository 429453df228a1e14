use vstd::prelude::*;
use rand::SeedableRng;
use rand::RngExt;

verus! {

#[verifier::external_type_specification]
#[verifier::external_body]
pub struct ExStdRng(rand::rngs::StdRng);

/// The explicit randomness context threaded through every heuristic:
/// a seedable generator, so test runs can be reproduced.
#[derive(Debug)]
pub struct RandomSource {
    rng: rand::rngs::StdRng,
}

/// Relies on rand's `SeedableRng::seed_from_u64` for `StdRng`: builds a
/// generator from the seed.
#[verifier::external_body]
fn std_rng_from_seed(seed: u64) -> (r: rand::rngs::StdRng) {
    rand::rngs::StdRng::seed_from_u64(seed)
}

/// Relies on rand's `RngExt::random_range` over `0 .. n`: the draw is
/// below `n` (the range must not be empty, or the call panics).
#[verifier::external_body]
fn std_rng_below(rng: &mut rand::rngs::StdRng, n: usize) -> (r: usize)
    requires
        n >= 1,
    ensures
        r < n,
{
    rng.random_range(0..n)
}

impl RandomSource {
    /// A deterministic generator for the given seed.
    pub fn new(seed: u64) -> (r: RandomSource) {
        RandomSource { rng: std_rng_from_seed(seed) }
    }

    /// A draw, uniform over `0 .. n`.
    pub fn below(&mut self, n: usize) -> (r: usize)
        requires
            n >= 1,
        ensures
            r < n,
    {
        std_rng_below(&mut self.rng, n)
    }
}

} // verus!
