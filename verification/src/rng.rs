use vstd::prelude::*;

verus! {

/// Multiplier that spreads a seed over the generator's state.
pub const SEED_MIX: u64 = 0xDEAD_BEEF_CAFE_BABE;

/// Output multiplier of xorshift64*.
pub const OUTPUT_MIX: u64 = 0x2545_F491_4F6C_DD1D;

/// One xorshift64 step on the state.
pub open spec fn xorshift(x: u64) -> u64 {
    let a = x ^ (x << 13u64);
    let b = a ^ (a >> 7u64);
    b ^ (b << 17u64)
}

/// An xorshift64* pseudo-random generator.
pub struct Rng {
    pub state: u64,
}

impl Rng {
    /// A generator whose state is the seed mixed by a wrapping multiplication.
    pub fn new(seed: u64) -> (r: Rng)
        ensures
            r.state == seed.wrapping_mul(SEED_MIX),
    {
        Rng { state: seed.wrapping_mul(SEED_MIX) }
    }

    /// Advances the state by one xorshift step and returns the new state scrambled by
    /// the xorshift64* multiplier. A non-zero state never becomes zero.
    pub fn next_u64(&mut self) -> (out: u64)
        ensures
            final(self).state == xorshift(old(self).state),
            out == final(self).state.wrapping_mul(OUTPUT_MIX),
            old(self).state != 0 ==> final(self).state != 0,
    {
        let mut x = self.state;
        x ^= x << 13;
        x ^= x >> 7;
        x ^= x << 17;
        self.state = x;
        proof {
            let s = old(self).state;
            assert(s != 0 ==> xorshift(s) != 0) by (bit_vector);
        }
        x.wrapping_mul(OUTPUT_MIX)
    }
}

/// The number of users a synthesis run simulates when its description names none.
pub fn default_num_users() -> (n: u64)
    ensures
        n == 100_000,
{
    100_000
}

} // verus!
