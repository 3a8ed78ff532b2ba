use vstd::prelude::*;

verus! {

/// Multiplier of the linear congruential generator.
pub const LCG_MULTIPLIER: u64 = 6364136223846793005;

/// The generator's state after one step from `s`.
pub open spec fn lcg_step(s: u64) -> u64 {
    ((s as int * LCG_MULTIPLIER as int + 1) % 0x1_0000_0000_0000_0000) as u64
}

/// A deterministic stream of 64-bit values from a seed.
pub struct Rng {
    pub state: u64,
}

impl Rng {
    /// A generator whose first value is the step from `seed`.
    pub fn new(seed: u64) -> (r: Rng)
        ensures
            r.state == seed,
    {
        Rng { state: seed }
    }

    /// Advances the state by one step and returns the new state.
    pub fn next(&mut self) -> (r: u64)
        ensures
            r == lcg_step(old(self).state),
            final(self).state == r,
    {
        let m = self.state.wrapping_mul(LCG_MULTIPLIER);
        let s = m.wrapping_add(1);
        assert(s as int == (self.state as int * LCG_MULTIPLIER as int + 1) % 0x1_0000_0000_0000_0000) by (nonlinear_arith)
            requires
                m as int == (self.state as int * LCG_MULTIPLIER as int) % 0x1_0000_0000_0000_0000,
                s as int == (m as int + 1) % 0x1_0000_0000_0000_0000,
        ;
        self.state = s;
        s
    }
}

} // verus!
