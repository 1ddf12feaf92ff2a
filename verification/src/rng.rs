//! The random-source capability.
//!
//! Every stochastic operator in the crate draws its randomness through the
//! [`RandSource`] trait, passed by mutable reference into each call, so a run
//! is reproducible from a fixed seed. [`StdRand`] is the standard
//! implementation, backed by the `rand` crate; a caller may supply any other
//! implementation (for example a scripted one in a test).

use vstd::prelude::*;

verus! {

/// A source of uniform randomness. The one primitive is an integer draw;
/// a uniform boolean is `below(2) == 1`.
pub trait RandSource {
    /// Draw a uniform integer in `[0, n)`.
    fn below(&mut self, n: u128) -> (r: u128)
        requires
            n >= 1,
        ensures
            r < n,
    ;
}

/// Declares `rand::rngs::StdRng` so a generator can live in a field; the
/// value stays opaque to the verifier.
#[verifier::external_type_specification]
#[verifier::external_body]
pub struct ExStdRng(rand::rngs::StdRng);

/// The standard random source, a seedable generator from the `rand` crate.
pub struct StdRand {
    rng: rand::rngs::StdRng,
}

impl StdRand {
    /// Relies on `rand::SeedableRng::seed_from_u64`: creates a generator
    /// deterministically from the seed.
    #[verifier::external_body]
    pub fn from_seed(seed: u64) -> (r: StdRand) {
        StdRand { rng: <rand::rngs::StdRng as rand::SeedableRng>::seed_from_u64(seed) }
    }

    /// Relies on `rand::Rng::gen_range`: returns a uniform value in
    /// `[0, n)` and panics only when the range is empty, which the
    /// `requires` rules out.
    #[verifier::external_body]
    fn draw_below(&mut self, n: u128) -> (r: u128)
        requires
            n >= 1,
        ensures
            r < n,
    {
        rand::Rng::gen_range(&mut self.rng, 0..n)
    }
}

impl RandSource for StdRand {
    fn below(&mut self, n: u128) -> (r: u128) {
        self.draw_below(n)
    }
}

} // verus!
