//! A deterministic xorshift pseudo-random number generator.
//!
//! The generator is seeded explicitly, so sequences are reproducible;
//! it supplies the 64-bit priorities that shape the treap.

use vstd::prelude::*;

verus! {

/// The exact 64-bit word produced by one xorshift step from the oldest
/// state word `x` and the newest state word `w`.
pub open spec fn xorshift_out(x: u64, w: u64) -> u64 {
    (w ^ (w >> 19u64)) ^ ((x ^ (x << 11u64)) ^ ((x ^ (x << 11u64)) >> 8u64))
}

/// A 256-bit-state xorshift generator. Every stream it produces is a
/// pure function of the seed passed to [`XorShift::new`].
#[derive(Clone)]
pub struct XorShift {
    x: u64,
    y: u64,
    z: u64,
    w: u64,
}

impl XorShift {
    /// The state words of the generator, oldest first.
    pub closed spec fn state(self) -> (u64, u64, u64, u64) {
        (self.x, self.y, self.z, self.w)
    }

    /// Builds a generator from a seed; three state words are fixed
    /// constants, the fourth is the seed itself.
    pub fn new(seed: u64) -> (r: Self)
        ensures
            r.state() == (9018237498u64, 1982731389u64, 1894712904u64, seed),
    {
        XorShift { x: 9018237498, y: 1982731389, z: 1894712904, w: seed }
    }

    /// Advances the generator one step and returns the fresh word.
    /// The result and the new state are exact functions of the old state.
    pub fn next(&mut self) -> (r: u64)
        ensures
            r == xorshift_out(old(self).state().0, old(self).state().3),
            final(self).state() == (
                old(self).state().1,
                old(self).state().2,
                old(self).state().3,
                xorshift_out(old(self).state().0, old(self).state().3),
            ),
    {
        let t: u64 = self.x ^ (self.x << 11);
        self.x = self.y;
        self.y = self.z;
        self.z = self.w;
        self.w = (self.w ^ (self.w >> 19)) ^ (t ^ (t >> 8));
        self.w
    }
}

} // verus!
