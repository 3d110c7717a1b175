//! Deterministic pseudo-random generator in the splitmix64 family. Seeded
//! explicitly so that review sessions and jitter are reproducible.

use vstd::prelude::*;

verus! {

/// The additive constant of the splitmix64 state update.
pub const GOLDEN_GAMMA: u64 = 0x9e3779b97f4a7c15;

/// State after one splitmix64 step.
pub open spec fn next_state_of(s: u64) -> u64 {
    vstd::wrapping::u64_specs::wrapping_add(s, GOLDEN_GAMMA)
}

/// The splitmix64 output mix of a state value.
pub open spec fn mix_of(s: u64) -> u64 {
    let z1 = vstd::wrapping::u64_specs::wrapping_mul(s ^ (s >> 30u64), 0xbf58476d1ce4e5b9);
    let z2 = vstd::wrapping::u64_specs::wrapping_mul(z1 ^ (z1 >> 27u64), 0x94d049bb133111eb);
    z2 ^ (z2 >> 31u64)
}

/// A splitmix64 generator: one 64-bit word of state.
#[derive(Clone, Debug, PartialEq, Eq, Structural)]
pub struct SplitMix64 {
    state: u64,
}

impl SplitMix64 {
    /// The current state, for specifications.
    pub closed spec fn view(&self) -> u64 {
        self.state
    }

    pub fn from_seed(seed: u64) -> (r: SplitMix64)
        ensures
            r@ == seed,
    {
        SplitMix64 { state: seed }
    }

    /// Advances the state one step and returns the mixed output word.
    pub fn next_rand(&mut self) -> (r: u64)
        ensures
            final(self)@ == next_state_of(old(self)@),
            r == mix_of(final(self)@),
    {
        self.state = self.state.wrapping_add(GOLDEN_GAMMA);
        let mut z: u64 = self.state;
        z = (z ^ (z >> 30)).wrapping_mul(0xbf58476d1ce4e5b9);
        z = (z ^ (z >> 27)).wrapping_mul(0x94d049bb133111eb);
        z ^ (z >> 31)
    }
}

} // verus!
