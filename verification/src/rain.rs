//! The tiny deterministic random number generator behind the rain, so the
//! game needs no `rand` dependency: a 32-bit linear congruential generator
//! whose middle 24 bits make each draw.
use vstd::prelude::*;

verus! {

/// The generator's state.
pub struct Rng {
    pub state: u32,
}

/// The state after `s`.
pub open spec fn lcg_next(s: u32) -> u32 {
    ((s * 1664525 + 1013904223) % 0x1_0000_0000) as u32
}

/// The 24 bits a state yields.
pub open spec fn draw_bits(s: u32) -> u32 {
    (s >> 8u32) & 0x00FF_FFFFu32
}

impl Default for Rng {
    fn default() -> (r: Rng)
        ensures
            r.state == 0x9E37_79B9,
    {
        Rng { state: 0x9E37_79B9 }
    }
}

impl Rng {
    /// Advance the state and give its middle 24 bits: a draw in
    /// `0..2^24`, which divided by `2^24` is uniform in `[0, 1)`.
    pub fn next_bits(&mut self) -> (r: u32)
        ensures
            final(self).state == lcg_next(old(self).state),
            r == draw_bits(final(self).state),
            r < 0x0100_0000,
    {
        self.state = self.state.wrapping_mul(1664525).wrapping_add(1013904223);
        let s = self.state;
        let r = (s >> 8u32) & 0x00FF_FFFFu32;
        assert(r < 0x0100_0000) by (bit_vector)
            requires
                r == (s >> 8u32) & 0x00FF_FFFFu32,
        ;
        r
    }
}

} // verus!
