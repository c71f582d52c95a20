//! Randomness for generation and mutation: a seedable generator backed by
//! an outside crate, plus the small verified decision helpers built on it.

use vstd::prelude::*;

verus! {

#[verifier::external_type_specification]
#[verifier::external_body]
pub struct ExRomuDuoJrRand(libafl_bolts::rands::RomuDuoJrRand);

/// The random number source threaded through generation and mutation.
///
/// The caller owns it and seeds it; with a fixed seed the stream of draws
/// is fixed, so generation from a fixed seed is reproducible.
pub struct Rng {
    inner: libafl_bolts::rands::RomuDuoJrRand,
}

impl Rng {
    /// Relies on libafl_bolts::rands::RomuDuoJrRand::with_seed: builds the
    /// generator state from the given seed.
    #[verifier::external_body]
    pub fn with_seed(seed: u64) -> Rng {
        Rng { inner: libafl_bolts::rands::RomuDuoJrRand::with_seed(seed) }
    }

    /// Relies on libafl_bolts::rands::Rand::next: returns the next 64-bit
    /// draw and advances the generator state.
    #[verifier::external_body]
    pub fn next(&mut self) -> u64 {
        libafl_bolts::rands::Rand::next(&mut self.inner)
    }

    /// Relies on libafl_bolts::rands::Rand::below: its result is
    /// `(next() * n) >> 64`, which is strictly below `n`.
    #[verifier::external_body]
    pub fn below(&mut self, n: usize) -> (r: usize)
        requires
            n >= 1,
        ensures
            r < n,
    {
        let bound = std::num::NonZeroUsize::new(n).unwrap();
        libafl_bolts::rands::Rand::below(&mut self.inner, bound)
    }

    /// A draw from the inclusive range `[lo, hi]`.
    pub fn between(&mut self, lo: usize, hi: usize) -> (r: usize)
        requires
            lo <= hi,
            hi - lo < usize::MAX,
        ensures
            lo <= r <= hi,
    {
        lo + self.below(hi - lo + 1)
    }

    /// A draw from the inclusive 64-bit range `[lo, hi]`.
    pub fn between_u64(&mut self, lo: u64, hi: u64) -> (r: u64)
        requires
            lo <= hi,
            hi - lo < u64::MAX,
        ensures
            lo <= r <= hi,
    {
        let span = hi - lo + 1;
        lo + self.next() % span
    }

    /// A fair coin: true with probability 1/2.
    pub fn binary(&mut self) -> bool {
        self.below(2) == 0
    }

    /// True with probability `1/n`.
    pub fn one_of(&mut self, n: usize) -> bool
        requires
            n >= 1,
    {
        self.below(n) == 0
    }

    /// True with probability `n/total`.
    pub fn n_out_of(&mut self, n: usize, total: usize) -> bool
        requires
            0 < n < total,
    {
        self.below(total) < n
    }
}

} // verus!
