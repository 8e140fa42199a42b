//! The source of random integers in a bounded range.
//!
//! Randomness is an injected capability: every operation that needs it takes
//! a `RandomSource` by mutable reference, never a hidden global generator.

use vstd::prelude::*;

verus! {

#[verifier::external_type_specification]
#[verifier::external_body]
pub struct ExStdRng(rand::rngs::StdRng);

/// A capability that hands out uniformly distributed integers in an
/// inclusive bound. Wraps a pseudo-random generator of the `rand` crate.
pub struct RandomSource {
    rng: rand::rngs::StdRng,
}

impl RandomSource {
    /// Relies on rand's `SeedableRng::from_entropy` for `StdRng`: a fresh
    /// generator seeded from the operating system's entropy source.
    #[verifier::external_body]
    pub fn from_entropy() -> RandomSource {
        RandomSource { rng: <rand::rngs::StdRng as rand::SeedableRng>::from_entropy() }
    }

    /// Relies on rand's `SeedableRng::seed_from_u64` for `StdRng`: a
    /// generator whose output is determined by the seed, so that a fixed
    /// seed drives a reproducible run.
    #[verifier::external_body]
    pub fn from_seed(seed: u64) -> RandomSource {
        RandomSource { rng: <rand::rngs::StdRng as rand::SeedableRng>::seed_from_u64(seed) }
    }
}

/// Relies on rand's `Rng::gen_range` over the inclusive range `min..=max`:
/// it returns a value within the bounds and panics only on an empty range,
/// which the precondition rules out. Nothing more is assumed of the value.
#[verifier::external_body]
pub fn get_random_number(rng: &mut RandomSource, min: u32, max: u32) -> (r: u32)
    requires
        min <= max,
    ensures
        min <= r <= max,
{
    rand::Rng::gen_range(&mut rng.rng, min..=max)
}

} // verus!
