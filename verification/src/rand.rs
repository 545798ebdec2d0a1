use vstd::prelude::*;

verus! {

/// Multiplier of the linear congruential generator.
pub const RNG_MULTIPLIER: u64 = 6364136223846793005;
/// Increment of the linear congruential generator.
pub const RNG_INCREMENT: u64 = 1442695040888963407;

/// One step of the generator on the mathematical integers, reduced modulo 2^64.
pub open spec fn spec_advance(val: u64) -> u64 {
    ((val * RNG_MULTIPLIER + RNG_INCREMENT) % 0x1_0000_0000_0000_0000) as u64
}

/// One step of the 64-bit linear congruential generator (wrapping arithmetic).
pub fn advance(val: u64) -> (r: u64)
    ensures
        r == spec_advance(val),
{
    let m = val.wrapping_mul(RNG_MULTIPLIER);
    let r = m.wrapping_add(RNG_INCREMENT);
    assert(r == spec_advance(val)) by (nonlinear_arith)
        requires
            m == (val * RNG_MULTIPLIER) % 0x1_0000_0000_0000_0000,
            r == (m + RNG_INCREMENT) % 0x1_0000_0000_0000_0000,
    {
    }
    r
}

/// A deterministic pseudo-random number generator.
pub struct Rng {
    pub curr: u64,
}

impl Rng {
    /// A generator whose state is the seed.
    pub fn new(seed: u64) -> (r: Self)
        ensures
            r.curr == seed,
    {
        Rng { curr: seed }
    }

    /// Advances the state and returns a number in `from..to`.
    pub fn get(&mut self, from: u64, to: u64) -> (r: u64)
        requires
            from < to,
        ensures
            final(self).curr == spec_advance(old(self).curr),
            r == final(self).curr % ((to - from) as u64) + from,
            from <= r < to,
    {
        self.curr = advance(self.curr);
        self.curr % (to - from) + from
    }
}

} // verus!
