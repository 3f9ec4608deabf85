//! Deterministic random service.
//!
//! Every decision point of the ruin strategies draws from one logical stream
//! of pseudo-random values, so that a fixed initial seed reproduces an entire
//! search run.  The stream is a linear congruential generator whose step and
//! draws are fully specified: the value drawn and the state reached are exact
//! functions of the state before the draw.

use vstd::prelude::*;

verus! {

/// Multiplier of the congruential step.
pub const STEP_MUL: u64 = 6364136223846793005;

/// Increment of the congruential step.
pub const STEP_INC: u64 = 1442695040888963407;

/// The generator state reached after one step from state `s`.
pub open spec fn next_state(s: u64) -> u64 {
    (((s as int) * (STEP_MUL as int) + (STEP_INC as int)) % 0x1_0000_0000_0000_0000) as u64
}

/// The integer drawn from the inclusive range `[lo, hi]` at state `s`.
pub open spec fn picked_in(s: u64, lo: int, hi: int) -> int {
    lo + (next_state(s) as int) % (hi - lo + 1)
}

/// The coin-flip outcome at state `s`.
pub open spec fn picked_flip(s: u64) -> bool {
    next_state(s) % 2 == 0
}

/// A reproducible stream of uniform draws.  Two streams started from the
/// same seed answer every sequence of requests identically.
pub struct DefaultRandom {
    pub state: u64,
}

impl DefaultRandom {
    /// Starts the stream at the given seed.
    pub fn new(seed: u64) -> (r: DefaultRandom)
        ensures
            r.state == seed,
    {
        DefaultRandom { state: seed }
    }

    /// Advances the stream by one congruential step and returns the new raw value.
    fn step(&mut self) -> (r: u64)
        ensures
            final(self).state == next_state(old(self).state),
            r == next_state(old(self).state),
    {
        let s = self.state as u128;
        proof {
            assert(s * (STEP_MUL as u128) <= 0xffff_ffff_ffff_ffffu128 * (STEP_MUL as u128))
                by (nonlinear_arith)
                requires
                    s <= 0xffff_ffff_ffff_ffffu128,
            ;
        }
        let wide: u128 = s * (STEP_MUL as u128) + (STEP_INC as u128);
        let next: u64 = (wide % 0x1_0000_0000_0000_0000u128) as u64;
        self.state = next;
        next
    }

    /// Uniform draw from the inclusive range `[lo, hi]`.
    pub fn uniform_int(&mut self, lo: usize, hi: usize) -> (r: usize)
        requires
            lo <= hi,
        ensures
            lo <= r <= hi,
            r as int == picked_in(old(self).state, lo as int, hi as int),
            final(self).state == next_state(old(self).state),
    {
        let x = self.step();
        let span: u128 = (hi - lo) as u128 + 1;
        let off: usize = ((x as u128) % span) as usize;
        lo + off
    }

    /// Uniform coin flip.
    pub fn is_head_not_tails(&mut self) -> (r: bool)
        ensures
            r == picked_flip(old(self).state),
            final(self).state == next_state(old(self).state),
    {
        let x = self.step();
        x % 2 == 0
    }
}

} // verus!
