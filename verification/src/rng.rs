//! Deterministic byte-stream generator used for dithering.
//!
//! A 64-bit xorshift state is advanced once per requested byte and the byte
//! is taken from the high bits of a multiplicative mix of the new state. The
//! generator is an explicit value seeded per stylization call, so identical
//! calls draw identical byte streams.

use vstd::prelude::*;

verus! {

/// Fixed initial seed of the dithering stream.
pub const DITHER_SEED: u64 = 0x9E3779B97F4A7C15;

/// Multiplicative mixing constant applied before a byte is extracted.
pub const DITHER_MIX: u64 = 0x2545F4914F6CDD1D;

/// One xorshift64 step.
pub open spec fn next_state(s: u64) -> u64 {
    let a = s ^ (s << 13);
    let b = a ^ (a >> 7);
    b ^ (b << 17)
}

/// The byte handed out after the state has advanced to `s`.
pub open spec fn byte_of_state(s: u64) -> u8 {
    (vstd::wrapping::u64_specs::wrapping_mul(s, DITHER_MIX) >> 56) as u8
}

/// The state after drawing `n` bytes from state `s`.
pub open spec fn state_after(s: u64, n: nat) -> u64
    decreases n,
{
    if n == 0 {
        s
    } else {
        state_after(next_state(s), (n - 1) as nat)
    }
}

/// Drawing once more advances the final state by one step.
pub proof fn lemma_state_after_snoc(s: u64, n: nat)
    ensures
        state_after(s, n + 1) == next_state(state_after(s, n)),
    decreases n,
{
    if n == 0 {
        assert(state_after(s, 1) == state_after(next_state(s), 0));
    } else {
        lemma_state_after_snoc(next_state(s), (n - 1) as nat);
        assert(state_after(s, n + 1) == state_after(next_state(s), n));
    }
}

/// Deterministic dithering byte stream.
pub struct DitherGen {
    pub state: u64,
}

impl DitherGen {
    /// A fresh generator at the fixed initial seed.
    pub fn new() -> (g: DitherGen)
        ensures
            g.state == DITHER_SEED,
    {
        DitherGen { state: DITHER_SEED }
    }

    /// Advances the state once and hands out the mixed high byte.
    pub fn next_byte(&mut self) -> (b: u8)
        ensures
            final(self).state == next_state(old(self).state),
            b == byte_of_state(final(self).state),
    {
        let mut s = self.state;
        s = s ^ (s << 13);
        s = s ^ (s >> 7);
        s = s ^ (s << 17);
        self.state = s;
        (s.wrapping_mul(DITHER_MIX) >> 56) as u8
    }
}

} // verus!
