//! A seedable, fully deterministic pseudo-random source.
//!
//! Training draws samples and initial weights through this linear
//! congruential generator, so a fixed seed replays the exact same sequence
//! of draws: every downstream result is a mathematical function of the seed.

use vstd::prelude::*;

verus! {

/// Multiplier of the linear congruential step (Knuth's MMIX constant).
pub const LCG_MUL: u64 = 6364136223846793005;

/// Increment of the linear congruential step (Knuth's MMIX constant).
pub const LCG_INC: u64 = 1442695040888963407;

/// One step of the generator: `s * LCG_MUL + LCG_INC` modulo `2^64`.
pub open spec fn lcg_next(s: u64) -> u64 {
    (((s as int) * (LCG_MUL as int) + (LCG_INC as int)) % 0x1_0000_0000_0000_0000) as u64
}

/// The state after `t` steps from `seed`.
pub open spec fn lcg_iter(seed: u64, t: nat) -> u64
    decreases t,
{
    if t == 0 {
        seed
    } else {
        lcg_next(lcg_iter(seed, (t - 1) as nat))
    }
}

/// The seedable random source used for weight initialization and sample
/// draws during training.
#[derive(Debug)]
pub struct SomRng {
    state: u64,
}

impl SomRng {
    /// The current generator state.
    pub closed spec fn state_spec(&self) -> u64 {
        self.state
    }

    /// Seeds the generator.
    pub fn new(seed: u64) -> (r: SomRng)
        ensures
            r.state_spec() == seed,
    {
        SomRng { state: seed }
    }

    /// Advances the generator one step and returns the new state.
    pub fn next_u64(&mut self) -> (r: u64)
        ensures
            r == lcg_next(old(self).state_spec()),
            final(self).state_spec() == lcg_next(old(self).state_spec()),
    {
        let wide: u128 = (self.state as u128) * (LCG_MUL as u128) + (LCG_INC as u128);
        assert((self.state as int) * (LCG_MUL as int) + (LCG_INC as int)
            < 0x1_0000_0000_0000_0000_0000_0000_0000_0000) by (nonlinear_arith)
            requires
                self.state <= 0xffff_ffff_ffff_ffffu64,
        ;
        let next: u64 = (wide % 0x1_0000_0000_0000_0000u128) as u64;
        self.state = next;
        next
    }

    /// Draws an index below `n`: the next state reduced modulo `n`.
    pub fn next_below(&mut self, n: usize) -> (r: usize)
        requires
            n >= 1,
        ensures
            r < n,
            r == lcg_next(old(self).state_spec()) as int % (n as int),
            final(self).state_spec() == lcg_next(old(self).state_spec()),
    {
        let v = self.next_u64();
        (v % (n as u64)) as usize
    }
}

} // verus!
