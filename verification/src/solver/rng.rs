//! A small generator of pseudo-random numbers, xoshiro256**, seeded by SplitMix64.

use vstd::prelude::*;
use vstd::wrapping::u64_specs;

verus! {

/// A number with its bits moved left in a circle.
pub open spec fn rotated(x: u64, k: u64) -> u64 {
    (x << k) | (x >> ((64 - k) as u64))
}

fn rotate_left(x: u64, k: u64) -> (r: u64)
    requires
        0 < k < 64,
    ensures
        r == rotated(x, k),
{
    (x << k) | (x >> (64 - k))
}

/// The state of SplitMix64 after `i` steps.
pub open spec fn seed_state(seed: u64, i: nat) -> u64
    decreases i,
{
    if i == 0 {
        seed
    } else {
        u64_specs::wrapping_add(seed_state(seed, (i - 1) as nat), 0x9e37_79b9_7f4a_7c15)
    }
}

/// What SplitMix64 makes of a state.
pub open spec fn seed_output(state: u64) -> u64 {
    let a = u64_specs::wrapping_mul(state ^ (state >> 30), 0xbf58_476d_1ce4_e5b9);
    let b = u64_specs::wrapping_mul(a ^ (a >> 27), 0x94d0_49bb_1331_11eb);
    b ^ (b >> 31)
}

/// The generator.
#[derive(Clone, Copy, PartialEq, Eq, Hash, Debug, Structural)]
pub struct Xoshiro256SS {
    pub s0: u64,
    pub s1: u64,
    pub s2: u64,
    pub s3: u64,
}

fn scramble(state: u64) -> (r: u64)
    ensures
        r == seed_output(state),
{
    let a: u64 = (state ^ (state >> 30)).wrapping_mul(0xbf58_476d_1ce4_e5b9);
    let b: u64 = (a ^ (a >> 27)).wrapping_mul(0x94d0_49bb_1331_11eb);
    b ^ (b >> 31)
}

impl Xoshiro256SS {
    /// The generator that a seed gives.
    pub open spec fn seeded(seed: u64) -> Xoshiro256SS {
        Xoshiro256SS {
            s0: seed_output(seed_state(seed, 1)),
            s1: seed_output(seed_state(seed, 2)),
            s2: seed_output(seed_state(seed, 3)),
            s3: seed_output(seed_state(seed, 4)),
        }
    }

    /// The next number.
    pub open spec fn output(self) -> u64 {
        u64_specs::wrapping_mul(rotated(u64_specs::wrapping_mul(self.s1, 5), 7), 9)
    }

    /// The generator after a number is drawn.
    pub open spec fn advanced(self) -> Xoshiro256SS {
        let s2 = self.s2 ^ self.s0;
        let s3 = self.s3 ^ self.s1;
        Xoshiro256SS {
            s0: self.s0 ^ s3,
            s1: self.s1 ^ s2,
            s2: s2 ^ (self.s1 << 17),
            s3: rotated(s3, 45),
        }
    }

    /// The generator that a seed gives.
    pub fn new(seed: u64) -> (r: Self)
        ensures
            r == Self::seeded(seed),
    {
        let a: u64 = seed.wrapping_add(0x9e37_79b9_7f4a_7c15);
        let b: u64 = a.wrapping_add(0x9e37_79b9_7f4a_7c15);
        let c: u64 = b.wrapping_add(0x9e37_79b9_7f4a_7c15);
        let d: u64 = c.wrapping_add(0x9e37_79b9_7f4a_7c15);
        proof {
            reveal_with_fuel(seed_state, 5);
        }
        Xoshiro256SS { s0: scramble(a), s1: scramble(b), s2: scramble(c), s3: scramble(d) }
    }

    /// Draws the next number.
    pub fn next_u64(&mut self) -> (r: u64)
        ensures
            r == old(self).output(),
            *final(self) == old(self).advanced(),
    {
        let result: u64 = rotate_left(self.s1.wrapping_mul(5), 7).wrapping_mul(9);
        let t: u64 = self.s1 << 17;
        let s2: u64 = self.s2 ^ self.s0;
        let s3: u64 = self.s3 ^ self.s1;
        self.s1 = self.s1 ^ s2;
        self.s0 = self.s0 ^ s3;
        self.s2 = s2 ^ t;
        self.s3 = rotate_left(s3, 45);
        result
    }

    /// Draws the next number and keeps its upper 53 bits, as many as a fraction of a
    /// double-precision number has.
    pub fn next_53_bits(&mut self) -> (r: u64)
        ensures
            r == old(self).output() >> 11,
            r < 0x20_0000_0000_0000,
            *final(self) == old(self).advanced(),
    {
        let x: u64 = self.next_u64();
        assert(x >> 11 < 0x20_0000_0000_0000) by (bit_vector);
        x >> 11
    }
}

/// The number of columns of a sketch: at most the rank, at most the number of right-hand sides,
/// and at least one.
pub fn sketch_columns(rank: usize, n_rhs: usize) -> (r: usize)
    ensures
        r == if rank == 0 || n_rhs == 0 {
            1
        } else if rank <= n_rhs {
            rank
        } else {
            n_rhs
        },
{
    let m: usize = if rank <= n_rhs {
        rank
    } else {
        n_rhs
    };
    if m == 0 {
        1
    } else {
        m
    }
}

} // verus!
