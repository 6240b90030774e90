use vstd::prelude::*;

verus! {

/// Multiplier of the Numerical Recipes linear congruential generator.
pub const LCG_MUL: u64 = 6364136223846793005;
/// Increment of the Numerical Recipes linear congruential generator.
pub const LCG_INC: u64 = 1442695040888963407;

/// One step of the generator: `state * LCG_MUL + LCG_INC` modulo 2^64.
#[verifier::opaque]
pub open spec fn lcg_step(state: u64) -> u64 {
    vstd::wrapping::u64_specs::wrapping_add(
        vstd::wrapping::u64_specs::wrapping_mul(state, LCG_MUL),
        LCG_INC,
    )
}

/// The state after `k` steps from `state`.
pub open spec fn lcg_iter(state: u64, k: nat) -> u64
    decreases k,
{
    if k == 0 {
        state
    } else {
        lcg_step(lcg_iter(state, (k - 1) as nat))
    }
}

/// A seeded, deterministic linear congruential generator.
pub struct Lcg {
    pub state: u64,
}

impl Lcg {
    /// Seeds the generator; the seed is the state.
    pub fn new(seed: u64) -> (r: Self)
        ensures
            r.state == seed,
    {
        Lcg { state: seed }
    }

    /// Advances the state by one step and returns the new state.
    pub fn next(&mut self) -> (r: u64)
        ensures
            r == lcg_step(old(self).state),
            final(self).state == r,
    {
        proof {
            reveal(lcg_step);
        }
        self.state = self.state.wrapping_mul(LCG_MUL).wrapping_add(LCG_INC);
        self.state
    }

    /// Advances the generator and reduces the new state modulo `n`.
    pub fn next_range(&mut self, n: u64) -> (r: u64)
        requires
            n > 0,
        ensures
            final(self).state == lcg_step(old(self).state),
            r == final(self).state % n,
    {
        self.next() % n
    }

    /// Advances the generator and returns a value below `n` (the new state modulo `n`).
    pub fn below(&mut self, n: u64) -> (r: u64)
        requires
            n > 0,
        ensures
            final(self).state == lcg_step(old(self).state),
            r == final(self).state % n,
            r < n,
    {
        self.next() % n
    }
}

} // verus!
