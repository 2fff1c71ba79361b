//! The xoroshiro128+ pseudo-random generator: two 64-bit words of state, one
//! 64-bit output per step, and a jump along the generator's jump polynomial,
//! which sets streams far apart.

use vstd::prelude::*;

verus! {

/// Low word of the jump polynomial.
pub const JUMP_LOW: u64 = 0xdf900294d8f554a5;

/// High word of the jump polynomial.
pub const JUMP_HIGH: u64 = 0x170865df4b3201fc;

/// `x` rotated left by 24 bits.
pub open spec fn rotl24(x: u64) -> u64 {
    (x << 24) | (x >> 40)
}

/// `x` rotated left by 37 bits.
pub open spec fn rotl37(x: u64) -> u64 {
    (x << 37) | (x >> 27)
}

/// What a generator in state `s` hands out: the sum of its two words, modulo 2^64.
pub open spec fn output(s: (u64, u64)) -> u64 {
    ((s.0 + s.1) % 0x1_0000_0000_0000_0000) as u64
}

/// The state that follows `s`.
pub open spec fn next_state(s: (u64, u64)) -> (u64, u64) {
    let t = s.1 ^ s.0;
    (rotl24(s.0) ^ t ^ (t << 16), rotl37(t))
}

/// Whether bit `i` of the 128-bit jump polynomial is set.
pub open spec fn jump_bit(i: nat) -> bool {
    if i < 64 {
        JUMP_LOW & (1u64 << (i as u64)) != 0
    } else {
        JUMP_HIGH & (1u64 << ((i - 64) as u64)) != 0
    }
}

/// The jump, from bit `i` on: `acc` collects, by exclusive or, the states
/// `s`, `next_state(s)`, .. that stand at the set bits of the polynomial.
pub open spec fn jump_fold(s: (u64, u64), acc: (u64, u64), i: nat) -> (u64, u64)
    decreases 128 - i,
{
    if i >= 128 {
        acc
    } else {
        let taken = if jump_bit(i) {
            (acc.0 ^ s.0, acc.1 ^ s.1)
        } else {
            acc
        };
        jump_fold(next_state(s), taken, i + 1)
    }
}

/// The state that a jump leads to from `s`.
pub open spec fn jumped(s: (u64, u64)) -> (u64, u64) {
    jump_fold(s, (0, 0), 0)
}

/// A xoroshiro128+ generator.
pub struct Xoroshiro128Plus {
    s0: u64,
    s1: u64,
}

impl View for Xoroshiro128Plus {
    type V = (u64, u64);

    /// The two words of state.
    closed spec fn view(&self) -> (u64, u64) {
        (self.s0, self.s1)
    }
}

fn rotate_left_24(x: u64) -> (r: u64)
    ensures
        r == rotl24(x),
{
    (x << 24) | (x >> 40)
}

fn rotate_left_37(x: u64) -> (r: u64)
    ensures
        r == rotl37(x),
{
    (x << 37) | (x >> 27)
}

impl Xoroshiro128Plus {
    /// A generator seeded with two words; the seed is jumped once, so the
    /// first output already depends on every bit of it.
    pub fn new(s0: u64, s1: u64) -> (prng: Self)
        ensures
            prng@ == jumped((s0, s1)),
    {
        let mut prng = Xoroshiro128Plus { s0, s1 };
        prng.jump();
        prng
    }

    /// Hands out the next number and moves to the next state.
    pub fn random_u64(&mut self) -> (result: u64)
        ensures
            result == output(old(self)@),
            final(self)@ == next_state(old(self)@),
    {
        let result = self.s0.wrapping_add(self.s1);
        self.s1 = self.s1 ^ self.s0;
        self.s0 = rotate_left_24(self.s0) ^ self.s1 ^ (self.s1 << 16);
        self.s1 = rotate_left_37(self.s1);
        result
    }

    /// Jumps ahead: the new state collects, by exclusive or, the states
    /// that stand at the set bits of the jump polynomial along the next 128
    /// steps.
    pub fn jump(&mut self)
        ensures
            final(self)@ == jumped(old(self)@),
    {
        let ghost start = self@;
        let mut s0: u64 = 0;
        let mut s1: u64 = 0;
        let mut w: u64 = 0;
        while w < 2
            invariant
                w <= 2,
                jump_fold(self@, (s0, s1), (64 * w) as nat) == jumped(start),
            decreases 2 - w,
        {
            let word: u64 = if w == 0 {
                JUMP_LOW
            } else {
                JUMP_HIGH
            };
            let mut b: u64 = 0;
            while b < 64
                invariant
                    b <= 64,
                    w < 2,
                    word == if w == 0 {
                        JUMP_LOW
                    } else {
                        JUMP_HIGH
                    },
                    jump_fold(self@, (s0, s1), (64 * w + b) as nat) == jumped(start),
                decreases 64 - b,
            {
                if word & (1u64 << b) != 0 {
                    s0 = s0 ^ self.s0;
                    s1 = s1 ^ self.s1;
                }
                self.random_u64();
                b = b + 1;
            }
            w = w + 1;
        }
        self.s0 = s0;
        self.s1 = s1;
    }
}

} // verus!
