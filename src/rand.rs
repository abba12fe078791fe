//! Pseudo-random number generators.
use vstd::prelude::*;

verus! {

/// Number of words of Mersenne Twister state.
pub const MT_N: usize = 624;
/// Middle word offset of the Mersenne Twister recurrence.
pub const MT_M: usize = 397;

/// One step of the 32-bit xorshift recurrence (shifts 13, 17, 5).
pub open spec fn xorshift(x: u32) -> u32 {
    let a = x ^ ((x << 13u32) as u32);
    let b = a ^ (a >> 17u32);
    b ^ ((b << 5u32) as u32)
}

fn xorshift_step(x: u32) -> (r: u32)
    ensures
        r == xorshift(x),
{
    let mut y = x;
    y ^= y << 13u32;
    y ^= y >> 17u32;
    y ^= y << 5u32;
    y
}

/// Linear congruential generator modulo 2^32.
pub struct LCG {
    pub state: u32,
    pub a: u32,
    pub c: u32,
    pub m: u64,
}

impl LCG {
    /// Multiplier 1664525, increment 1013904223, modulus 2^32.
    pub fn new(seed: u32) -> (r: LCG)
        ensures
            r.state == seed,
            r.a == 1664525,
            r.c == 1013904223,
            r.m == 0x1_0000_0000,
    {
        LCG { state: seed, a: 1664525, c: 1013904223, m: 0x1_0000_0000 }
    }

    /// Next state `(a * state + c) mod m`, which is also returned.
    pub fn next(&mut self) -> (r: u32)
        requires
            old(self).m == 0x1_0000_0000,
        ensures
            r == (old(self).a * old(self).state + old(self).c) % 0x1_0000_0000,
            final(self).state == r,
            final(self).a == old(self).a,
            final(self).c == old(self).c,
            final(self).m == old(self).m,
    {
        let v = self.a.wrapping_mul(self.state).wrapping_add(self.c);
        let r = (v as u64 % self.m) as u32;
        proof {
            let a = self.a as int;
            let s = self.state as int;
            let c = self.c as int;
            let p = (a * s) % 0x1_0000_0000;
            assert(v == (p + c) % 0x1_0000_0000);
            assert((p + c) % 0x1_0000_0000 == (a * s + c) % 0x1_0000_0000) by {
                vstd::arithmetic::div_mod::lemma_add_mod_noop(a * s, c, 0x1_0000_0000);
                vstd::arithmetic::div_mod::lemma_mod_twice(a * s, 0x1_0000_0000);
                vstd::arithmetic::div_mod::lemma_mod_twice(c, 0x1_0000_0000);
                vstd::arithmetic::div_mod::lemma_add_mod_noop(p, c, 0x1_0000_0000);
            }
        }
        self.state = r;
        r
    }
}

/// Marsaglia's 32-bit xorshift generator.
pub struct Xorshift32 {
    pub state: u32,
}

impl Xorshift32 {
    pub fn new(seed: u32) -> (r: Xorshift32)
        ensures
            r.state == seed,
    {
        Xorshift32 { state: seed }
    }

    /// Next state `xorshift(state)`, which is also returned.
    pub fn next(&mut self) -> (r: u32)
        ensures
            r == xorshift(old(self).state),
            final(self).state == r,
    {
        let x = xorshift_step(self.state);
        self.state = x;
        x
    }
}

/// Middle-square generator: bits 8 to 23 of the wrapped square.
pub struct MiddleSquare {
    pub state: u32,
}

impl MiddleSquare {
    pub fn new(seed: u32) -> (r: MiddleSquare)
        ensures
            r.state == seed,
    {
        MiddleSquare { state: seed }
    }

    /// Next state: the middle 16 bits of `state * state mod 2^32`.
    pub fn next(&mut self) -> (r: u32)
        ensures
            r == ((old(self).state as int * old(self).state as int) % 0x1_0000_0000) / 0x100 % 0x10000,
            final(self).state == r,
    {
        let squared = self.state.wrapping_mul(self.state);
        let middle = (squared >> 8u32) & 0xFFFF;
        assert((squared >> 8u32) & 0xFFFF == squared / 0x100 % 0x10000) by (bit_vector);
        self.state = middle;
        middle
    }
}

/// Additive lagged Fibonacci generator modulo 2^32.
pub struct FibonacciLCG {
    pub state1: u32,
    pub state2: u32,
    pub m: u64,
}

impl FibonacciLCG {
    pub fn new(seed1: u32, seed2: u32) -> (r: FibonacciLCG)
        ensures
            r.state1 == seed1,
            r.state2 == seed2,
            r.m == 0x1_0000_0000,
    {
        FibonacciLCG { state1: seed1, state2: seed2, m: 0x1_0000_0000 }
    }

    /// Next value `(state1 + state2) mod m`; the pair shifts along.
    pub fn next(&mut self) -> (r: u32)
        requires
            old(self).m == 0x1_0000_0000,
        ensures
            r == (old(self).state1 + old(self).state2) % 0x1_0000_0000,
            final(self).state1 == old(self).state2,
            final(self).state2 == r,
            final(self).m == old(self).m,
    {
        let next_value = (self.state1.wrapping_add(self.state2) as u64 % self.m) as u32;
        self.state1 = self.state2;
        self.state2 = next_value;
        next_value
    }
}

/// Seeding recurrence of the Mersenne Twister: word `i` from word `i - 1`.
pub open spec fn mt_seed_step(prev: u32, i: int) -> u32 {
    ((0x6c078965 * ((prev ^ (prev >> 30u32)) as int) + i) % 0x1_0000_0000) as u32
}

/// Tempering of an output word.
pub open spec fn temper(y0: u32) -> u32 {
    let y1 = y0 ^ (y0 >> 11u32);
    let y2 = y1 ^ (((y1 << 7u32) as u32) & 0x9d2c5680);
    let y3 = y2 ^ (((y2 << 15u32) as u32) & 0xefc60000);
    y3 ^ (y3 >> 18u32)
}

/// Twist of word `i`, given its current value, the next word and the word
/// `397` places on.
pub open spec fn twist_word(cur: u32, next: u32, far: u32) -> u32 {
    let y = ((cur & 0x80000000) + (next & 0x7fffffff)) as u32;
    let v = far ^ (y >> 1u32);
    if y % 2 != 0 {
        v ^ 0x9908b0df
    } else {
        v
    }
}

/// MT19937.
pub struct MersenneTwister {
    pub state: [u32; MT_N],
    pub index: usize,
}

impl MersenneTwister {
    /// State seeded from `seed`; the first draw twists.
    pub fn new(seed: u32) -> (r: MersenneTwister)
        ensures
            r.state@[0] == seed,
            forall|i: int| 1 <= i < MT_N ==> #[trigger] r.state@[i] == mt_seed_step(r.state@[i - 1], i),
            r.index == MT_N,
    {
        let mut mt = MersenneTwister { state: [0u32; MT_N], index: MT_N };
        mt.state[0] = seed;
        let mut i: usize = 1;
        while i < MT_N
            invariant
                1 <= i <= MT_N,
                mt.index == MT_N,
                mt.state@[0] == seed,
                forall|j: int| 1 <= j < i ==> #[trigger] mt.state@[j] == mt_seed_step(mt.state@[j - 1], j),
            decreases MT_N - i,
        {
            let prev = mt.state[i - 1];
            let v = 0x6c078965u32.wrapping_mul(prev ^ (prev >> 30u32)).wrapping_add(i as u32);
            proof {
                let p = (prev ^ (prev >> 30u32)) as int;
                let q = (0x6c078965 * p) % 0x1_0000_0000;
                assert(v == (q + i) % 0x1_0000_0000);
                vstd::arithmetic::div_mod::lemma_add_mod_noop(0x6c078965 * p, i as int, 0x1_0000_0000);
                vstd::arithmetic::div_mod::lemma_mod_twice(0x6c078965 * p, 0x1_0000_0000);
                vstd::arithmetic::div_mod::lemma_add_mod_noop(q, i as int, 0x1_0000_0000);
                vstd::arithmetic::div_mod::lemma_small_mod(i as nat, 0x1_0000_0000);
            }
            mt.state[i] = v;
            i = i + 1;
        }
        mt
    }

    /// The next output: twists the state when it is used up, then tempers
    /// the next word.
    pub fn next(&mut self) -> (r: u32)
        requires
            old(self).index <= MT_N,
        ensures
            old(self).index < MT_N ==> r == temper(old(self).state@[old(self).index as int]) && final(self).state
                == old(self).state && final(self).index == old(self).index + 1,
            old(self).index == MT_N ==> final(self).index == 1,
            final(self).index <= MT_N,
    {
        if self.index >= MT_N {
            self.twist();
        }
        let y0 = self.state[self.index];
        let mut y = y0;
        y ^= y >> 11u32;
        y ^= (y << 7u32) & 0x9d2c5680;
        y ^= (y << 15u32) & 0xefc60000;
        y ^= y >> 18u32;
        self.index = self.index + 1;
        y
    }

    /// Regenerates all 624 words in place, word `i` from the current words
    /// `i`, `i + 1` and `i + 397` (taken round the table), and restarts
    /// the output index.
    pub fn twist(&mut self)
        ensures
            final(self).index == 0,
            forall|i: int|
                0 <= i < MT_N - 1 ==> #[trigger] final(self).state@[i] == twist_word(
                    old(self).state@[i],
                    old(self).state@[i + 1],
                    if i < MT_N - MT_M { old(self).state@[i + MT_M] } else { final(self).state@[i + MT_M - MT_N] },
                ),
            final(self).state@[MT_N - 1] == twist_word(
                old(self).state@[MT_N - 1],
                final(self).state@[0],
                final(self).state@[MT_M - 1],
            ),
    {
        let mut i: usize = 0;
        while i < MT_N
            invariant
                0 <= i <= MT_N,
                forall|j: int| i <= j < MT_N ==> #[trigger] self.state@[j] == old(self).state@[j],
                forall|j: int|
                    0 <= j < i && j < MT_N - 1 ==> #[trigger] self.state@[j] == twist_word(
                        old(self).state@[j],
                        old(self).state@[j + 1],
                        if j < MT_N - MT_M { old(self).state@[j + MT_M] } else { self.state@[j + MT_M - MT_N] },
                    ),
                i == MT_N ==> self.state@[MT_N - 1] == twist_word(
                    old(self).state@[MT_N - 1],
                    self.state@[0],
                    self.state@[MT_M - 1],
                ),
            decreases MT_N - i,
        {
            let cur = self.state[i];
            let next = self.state[(i + 1) % MT_N];
            let far = self.state[(i + MT_M) % MT_N];
            assert((cur & 0x80000000) + (next & 0x7fffffff) <= 0xFFFF_FFFF) by (bit_vector);
            let y = (cur & 0x80000000) + (next & 0x7fffffff);
            let mut v = far ^ (y >> 1u32);
            if y % 2 != 0 {
                v ^= 0x9908b0df;
            }
            self.state[i] = v;
            i = i + 1;
        }
        self.index = 0;
    }
}

/// Xorshift generator seeded from the low half of a time value.
pub struct TimeSeed {
    pub state: u32,
}

impl TimeSeed {
    pub fn new(start_time: u64) -> (r: TimeSeed)
        ensures
            r.state == start_time % 0x1_0000_0000,
    {
        let low = start_time & 0xFFFF_FFFF;
        assert(start_time & 0xFFFF_FFFF == start_time % 0x1_0000_0000) by (bit_vector);
        TimeSeed { state: low as u32 }
    }

    /// Next state `xorshift(state)`, which is also returned.
    pub fn next(&mut self) -> (r: u32)
        ensures
            r == xorshift(old(self).state),
            final(self).state == r,
    {
        self.state = xorshift_step(self.state);
        self.state
    }
}

/// 32-bit linear feedback shift register with taps at bits 0, 2, 3 and 5.
pub struct LFSR {
    pub state: u32,
}

/// One right shift of the register, feeding the tap parity in at bit 31.
pub open spec fn lfsr_step(s: u32) -> u32 {
    let bit = (s ^ (s >> 2u32) ^ (s >> 3u32) ^ (s >> 5u32)) & 1;
    (s >> 1u32) | ((bit << 31u32) as u32)
}

impl LFSR {
    pub fn new(seed: u32) -> (r: LFSR)
        ensures
            r.state == seed,
    {
        LFSR { state: seed }
    }

    /// Next state `lfsr_step(state)`, which is also returned.
    pub fn next(&mut self) -> (r: u32)
        ensures
            r == lfsr_step(old(self).state),
            final(self).state == r,
    {
        let s = self.state;
        let bit = ((s >> 0u32) ^ (s >> 2u32) ^ (s >> 3u32) ^ (s >> 5u32)) & 1;
        assert(s >> 0u32 == s) by (bit_vector);
        self.state = (s >> 1u32) | (bit << 31u32);
        self.state
    }
}

/// Exclusive or of a linear congruential and a xorshift generator.
pub struct CombinedGenerator {
    pub gen1: LCG,
    pub gen2: Xorshift32,
}

impl CombinedGenerator {
    pub fn new(seed1: u32, seed2: u32) -> (r: CombinedGenerator)
        ensures
            r.gen1.state == seed1,
            r.gen1.a == 1664525,
            r.gen1.c == 1013904223,
            r.gen1.m == 0x1_0000_0000,
            r.gen2.state == seed2,
    {
        CombinedGenerator { gen1: LCG::new(seed1), gen2: Xorshift32::new(seed2) }
    }

    /// Steps both generators and combines their outputs.
    pub fn next(&mut self) -> (r: u32)
        requires
            old(self).gen1.m == 0x1_0000_0000,
        ensures
            final(self).gen1.state == (old(self).gen1.a * old(self).gen1.state + old(self).gen1.c) % 0x1_0000_0000,
            final(self).gen2.state == xorshift(old(self).gen2.state),
            r == final(self).gen1.state ^ final(self).gen2.state,
            final(self).gen1.m == old(self).gen1.m,
    {
        let r1 = self.gen1.next();
        let r2 = self.gen2.next();
        r1 ^ r2
    }
}

} // verus!
