//! A small multiplicative linear-congruential generator.
//!
//! The generator walks the non-zero residues modulo the Mersenne prime
//! `2^31 - 1`. It is not of cryptographic quality; it is meant for choosing
//! node heights and similar low-stakes decisions, reproducibly from a seed.

use vstd::arithmetic::div_mod::{
    lemma_fundamental_div_mod, lemma_mod_multiples_vanish, lemma_small_mod,
};
use vstd::arithmetic::power2::{lemma2_to64, lemma_pow2_strictly_increases, pow2};
use vstd::bits::lemma_u32_shl_is_mul;
use vstd::prelude::*;

verus! {

/// The modulus of the generator, `2^31 - 1`.
pub const MODULUS: u32 = 2147483647;

/// The multiplier of the generator, `7^5`.
pub const MULTIPLIER: u32 = 16807;

/// Whether `state` is a state the generator can be in: a non-zero residue.
pub open spec fn valid_state(state: int) -> bool {
    1 <= state < MODULUS
}

/// The state a generator starts in when it is seeded with `s`: the low 31
/// bits of `s`, except that the two seeds that would make every later value
/// equal (zero and the modulus itself) are replaced by 1.
pub open spec fn initial_state(s: u32) -> int {
    let low = s as int % 0x8000_0000;
    if low == 0 || low == MODULUS {
        1
    } else {
        low
    }
}

/// One step of the generator.
pub open spec fn next_state(state: int) -> int {
    (state * MULTIPLIER) % (MODULUS as int)
}

/// A step never leaves the non-zero residues: the multiplier has an inverse
/// modulo the modulus, 1407677000, so a product that is a multiple of the
/// modulus comes from a state that is one.
pub proof fn lemma_next_state_valid(state: int)
    requires
        valid_state(state),
    ensures
        valid_state(next_state(state)),
{
    let product = state * 16807;
    let q = product / 2147483647;
    if product % 2147483647 == 0 {
        assert(product == q * 2147483647);
        // 16807 * 1407677000 == 11017 * 2147483647 + 1
        assert(state == 2147483647 * (q * 1407677000 - state * 11017));
        assert(false);
    }
}

/// Different states have different successors, so the states of a generator
/// run through a cycle and never fall into one from outside.
pub proof fn lemma_next_state_injective(a: int, b: int)
    requires
        valid_state(a),
        valid_state(b),
        next_state(a) == next_state(b),
    ensures
        a == b,
{
    let qa = (a * 16807) / 2147483647;
    let qb = (b * 16807) / 2147483647;
    let d = a - b;
    let q = qa - qb;
    assert(d * 16807 == q * 2147483647);
    // 16807 * 1407677000 == 11017 * 2147483647 + 1
    assert(d == 2147483647 * (q * 1407677000 - d * 11017));
}

/// The step without a division. The two halves of the product, cut at bit
/// 31, add up to a number that is congruent to the product, because 2^31 is
/// 1 modulo the modulus. The sum is less than twice the modulus, and it is
/// neither zero nor the modulus.
proof fn lemma_halves(state: int)
    requires
        valid_state(state),
    ensures
        ({
            let product = state * 16807;
            let sum = product / 0x8000_0000 + product % 0x8000_0000;
            &&& 0 < sum < 2 * 2147483647
            &&& sum != 2147483647
            &&& next_state(state) == if sum > 2147483647 {
                sum - 2147483647
            } else {
                sum
            }
        }),
{
    let product = state * 16807;
    let high = product / 0x8000_0000;
    let low = product % 0x8000_0000;
    let sum = high + low;
    lemma_fundamental_div_mod(product, 0x8000_0000);
    assert(product == 2147483647 * high + sum);
    assert(0 <= high <= 16806);
    lemma_mod_multiples_vanish(high, sum, 2147483647);
    assert(next_state(state) == sum % 2147483647);
    lemma_next_state_valid(state);
    if sum < 2147483647 {
        lemma_small_mod(sum as nat, 2147483647);
    } else {
        lemma_mod_multiples_vanish(1, sum - 2147483647, 2147483647);
        lemma_small_mod((sum - 2147483647) as nat, 2147483647);
    }
}

/// What `skewed` returns when the generator is in `state`.
pub open spec fn skewed_value(state: int, max_log: u32) -> int {
    let first = next_state(state);
    let width = first % (max_log + 1);
    next_state(first) % (pow2(width as nat) as int)
}

/// The height drawn by a generator in `state` once the height has reached
/// `level`.
pub open spec fn drawn_level(state: int, level: nat, max_level: nat, branching: int) -> nat
    decreases max_level - level,
{
    if level < max_level && next_state(state) % branching == 0 {
        drawn_level(next_state(state), level + 1, max_level, branching)
    } else {
        level
    }
}

/// The state in which a generator is left by the draw that `drawn_level`
/// describes. No trial is made, and the state stays, once the height has
/// reached `max_level`.
pub open spec fn state_after_draw(state: int, level: nat, max_level: nat, branching: int) -> int
    decreases max_level - level,
{
    if level >= max_level {
        state
    } else if next_state(state) % branching == 0 {
        state_after_draw(next_state(state), level + 1, max_level, branching)
    } else {
        next_state(state)
    }
}

/// The generator. Its view is the state it is in.
pub struct Random {
    seed: u32,
}

impl View for Random {
    type V = int;

    /// The state of the generator.
    closed spec fn view(&self) -> int {
        self.seed as int
    }
}

impl Random {
    /// The generator is in a state that generators can be in.
    #[verifier::type_invariant]
    spec fn inv(&self) -> bool {
        valid_state(self.seed as int)
    }

    /// A generator seeded with `s`.
    pub fn new(s: u32) -> (r: Self)
        ensures
            r@ == initial_state(s),
            valid_state(r@),
    {
        let mut seed: u32 = s & 0x7fffffffu32;
        assert(s & 0x7fffffffu32 == s % 0x8000_0000u32) by (bit_vector);
        if seed == 0 || seed == MODULUS {
            seed = 1;
        }
        Random { seed }
    }

    /// Advances the generator and returns its new state.
    pub fn next(&mut self) -> (r: u32)
        ensures
            final(self)@ == next_state(old(self)@),
            r == final(self)@,
            valid_state(r as int),
    {
        proof {
            use_type_invariant(&*self);
            lemma_halves(self.seed as int);
        }
        // The product modulo 2^31 - 1, without a division: 2^31 is 1 modulo
        // the modulus, so the high and the low half of the product add up to
        // a number that is congruent to it.
        let product: u64 = self.seed as u64 * 16807u64;
        let high: u64 = product >> 31;
        let low: u64 = product & 0x7fffffffu64;
        assert(high == product / 0x8000_0000u64 && low == product % 0x8000_0000u64) by (bit_vector)
            requires
                high == product >> 31,
                low == product & 0x7fffffffu64,
        ;
        // The sum may be the modulus or more, but it is less than twice the
        // modulus, and it is not the modulus itself.
        let mut seed: u32 = (high + low) as u32;
        if seed > MODULUS {
            seed -= MODULUS;
        }
        self.seed = seed;
        seed
    }

    /// A value in `[0, n - 1]`, by reducing the next state modulo `n`.
    pub fn uniform(&mut self, n: u32) -> (r: u32)
        requires
            n >= 1,
        ensures
            final(self)@ == next_state(old(self)@),
            valid_state(final(self)@),
            r == final(self)@ % (n as int),
            r < n,
    {
        self.next() % n
    }

    /// True about once in `n` calls: when the next state is a multiple of `n`.
    pub fn one_in(&mut self, n: u32) -> (r: bool)
        requires
            n >= 1,
        ensures
            final(self)@ == next_state(old(self)@),
            valid_state(final(self)@),
            r == (final(self)@ % (n as int) == 0),
    {
        self.next() % n == 0
    }

    /// A value in `[0, 2^max_log - 1]` with exponential bias towards small
    /// values: first a bit width is drawn from `[0, max_log]`, then a value
    /// of that many bits.
    pub fn skewed(&mut self, max_log: u32) -> (r: u32)
        requires
            max_log <= 31,
        ensures
            final(self)@ == next_state(next_state(old(self)@)),
            valid_state(final(self)@),
            r == skewed_value(old(self)@, max_log),
            r < pow2(max_log as nat),
    {
        let offset: u32 = self.uniform(max_log + 1);
        proof {
            if offset < max_log {
                lemma_pow2_strictly_increases(offset as nat, max_log as nat);
            }
            if offset < 31 {
                lemma_pow2_strictly_increases(offset as nat, 31);
            }
            lemma2_to64();
            lemma_u32_shl_is_mul(1, offset);
        }
        self.uniform(1u32 << offset)
    }

    /// A height for a new node, in `[1, max_level]`: starting from 1, the
    /// height grows by one for as long as it is below `max_level` and a
    /// one-in-`branching` trial succeeds.
    pub fn random_level(&mut self, max_level: usize, branching: u32) -> (level: usize)
        requires
            max_level >= 1,
            branching >= 1,
        ensures
            level == drawn_level(old(self)@, 1, max_level as nat, branching as int),
            final(self)@ == state_after_draw(old(self)@, 1, max_level as nat, branching as int),
            valid_state(final(self)@),
            1 <= level <= max_level,
    {
        proof {
            use_type_invariant(&*self);
        }
        let mut level: usize = 1;
        while level < max_level && self.one_in(branching)
            invariant
                1 <= level <= max_level,
                branching >= 1,
                valid_state(self@),
                drawn_level(self@, level as nat, max_level as nat, branching as int)
                    == drawn_level(old(self)@, 1, max_level as nat, branching as int),
                state_after_draw(self@, level as nat, max_level as nat, branching as int)
                    == state_after_draw(old(self)@, 1, max_level as nat, branching as int),
            decreases max_level - level,
        {
            level += 1;
        }
        level
    }
}

} // verus!
