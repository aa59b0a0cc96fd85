//! Seeded random number source used to shuffle candidate edges.
//!
//! The generator is rand's `StdRng`, seeded from a single `u64`.  Its output
//! is a deterministic function of the seed (the algorithm is fixed within a
//! given version of rand), which is what makes maze generation reproducible;
//! the values themselves are opaque, so they are named by an uninterpreted
//! stream function rather than described.

use vstd::prelude::*;

verus! {

/// Declares rand's `StdRng` so that it can be held in a field; its state is
/// opaque to verification.
#[verifier::external_type_specification]
#[verifier::external_body]
pub struct ExStdRng(rand::rngs::StdRng);

/// The `i`-th value drawn from a `rand::rngs::StdRng` built by
/// `StdRng::seed_from_u64(seed)`.  Uninterpreted: the only fact used about
/// the stream is that equal seeds yield equal streams.
pub uninterp spec fn rng_stream(seed: u64, i: nat) -> u64;

/// Relies on rand's `StdRng::seed_from_u64`: builds the generator whose
/// successive `next_u64` outputs are `rng_stream(seed, 0)`,
/// `rng_stream(seed, 1)`, ...
#[verifier::external_body]
fn stdrng_from_seed(seed: u64) -> (r: rand::rngs::StdRng) {
    <rand::rngs::StdRng as rand::SeedableRng>::seed_from_u64(seed)
}

/// A `StdRng` together with the seed it was built from and a ghost count of
/// the values drawn so far, so that contracts can name each drawn value.
pub(crate) struct SeededRng {
    pub(crate) inner: rand::rngs::StdRng,
    pub(crate) seed: u64,
    pub(crate) drawn: Ghost<nat>,
}

impl SeededRng {
    pub(crate) fn new(seed: u64) -> (r: SeededRng)
        ensures
            r.seed == seed,
            r.drawn@ == 0,
    {
        SeededRng { inner: stdrng_from_seed(seed), seed, drawn: Ghost(0) }
    }

    /// Relies on rand's `RngCore::next_u64` for `StdRng`: the next value of
    /// the deterministic stream fixed by the seed, a pure function of the
    /// seed and of how many values were drawn before.
    #[verifier::external_body]
    pub(crate) fn next_u64(&mut self) -> (r: u64)
        ensures
            r == rng_stream(old(self).seed, old(self).drawn@),
            final(self).seed == old(self).seed,
            final(self).drawn@ == old(self).drawn@ + 1,
    {
        rand::RngCore::next_u64(&mut self.inner)
    }
}

} // verus!
