//! The period of the generator.
//!
//! The multiplier is a primitive root of the modulus: its powers run through
//! all non-zero residues before they come back to 1. So a generator visits
//! every state once before it is again in the state it started from, and
//! what it does "once in `n`" it does, in a period, as often as there are
//! multiples of `n` among its states.

use crate::random::{lemma_next_state_injective, lemma_next_state_valid, next_state, valid_state};
use vstd::arithmetic::div_mod::{
    lemma_fundamental_div_mod, lemma_fundamental_div_mod_converse, lemma_mul_mod_noop_general,
    lemma_small_mod,
};
use vstd::prelude::*;
use vstd::relations::injective_on;
use vstd::set_lib::{lemma_int_range, lemma_map_size, lemma_subset_equality, set_int_range};

mod divisors;
mod powers;

use divisors::lemma_proper_divisor;
use powers::{
    lemma_power_of_period_over_11, lemma_power_of_period_over_151, lemma_power_of_period_over_2,
    lemma_power_of_period_over_3, lemma_power_of_period_over_31, lemma_power_of_period_over_331,
    lemma_power_of_period_over_7,
};

verus! {

/// The number of states of a generator, `2^31 - 2`.
pub const PERIOD: u32 = 2147483646;

/// The state of a generator `steps` steps after it was in `state`.
pub open spec fn state_after(state: int, steps: nat) -> int
    decreases steps,
{
    if steps == 0 {
        state
    } else {
        next_state(state_after(state, (steps - 1) as nat))
    }
}

/// The power of the multiplier with the exponent `n`, modulo the modulus:
/// the state of a generator `n` steps after state 1.
pub open spec fn power(n: nat) -> int {
    state_after(1, n)
}

/// A generator stays in states that generators can be in.
pub proof fn lemma_state_after_valid(state: int, steps: nat)
    requires
        valid_state(state),
    ensures
        valid_state(state_after(state, steps)),
    decreases steps,
{
    if steps > 0 {
        lemma_state_after_valid(state, (steps - 1) as nat);
        lemma_next_state_valid(state_after(state, (steps - 1) as nat));
    }
}

/// Steps add up.
pub proof fn lemma_state_after_add(state: int, a: nat, b: nat)
    ensures
        state_after(state_after(state, a), b) == state_after(state, a + b),
    decreases b,
{
    if b > 0 {
        lemma_state_after_add(state, a, (b - 1) as nat);
    }
}

/// A step back is unique, so states that meet after some steps were the
/// same before.
pub proof fn lemma_state_after_injective(a: int, b: int, steps: nat)
    requires
        valid_state(a),
        valid_state(b),
        state_after(a, steps) == state_after(b, steps),
    ensures
        a == b,
    decreases steps,
{
    if steps > 0 {
        let before = (steps - 1) as nat;
        lemma_state_after_valid(a, before);
        lemma_state_after_valid(b, before);
        lemma_next_state_injective(state_after(a, before), state_after(b, before));
        lemma_state_after_injective(a, b, before);
    }
}

/// To go `steps` steps on is to multiply by a power of the multiplier.
pub proof fn lemma_state_after_is_product(state: int, steps: nat)
    requires
        valid_state(state),
    ensures
        state_after(state, steps) == (state * power(steps)) % 2147483647,
    decreases steps,
{
    if steps == 0 {
        lemma_small_mod(state as nat, 2147483647);
    } else {
        let before = (steps - 1) as nat;
        lemma_state_after_is_product(state, before);
        let p = power(before);
        lemma_mul_mod_noop_general(state * p, 16807, 2147483647);
        lemma_mul_mod_noop_general(state, p * 16807, 2147483647);
        assert(state * p * 16807 == state * (p * 16807)) by (nonlinear_arith);
    }
}

/// The power with a sum as exponent is the product of the powers.
pub proof fn lemma_power_add(a: nat, b: nat)
    ensures
        power(a + b) == (power(a) * power(b)) % 2147483647,
{
    lemma_state_after_add(1, a, b);
    lemma_state_after_valid(1, a);
    lemma_state_after_is_product(power(a), b);
}

/// An exponent whose power is 1 has only multiples whose power is 1.
pub proof fn lemma_power_multiple(k: nat, m: nat)
    requires
        power(k) == 1,
    ensures
        power(k * m) == 1,
    decreases m,
{
    if m == 0 {
        assert(k * m == 0) by (nonlinear_arith)
            requires
                m == 0,
        ;
    } else {
        lemma_power_multiple(k, (m - 1) as nat);
        lemma_power_add(k * ((m - 1) as nat), k);
        assert(k * ((m - 1) as nat) + k == k * m) by (nonlinear_arith)
            requires
                m > 0,
        ;
    }
}

/// The power whose exponent is the period is 1.
pub proof fn lemma_power_of_period()
    ensures
        power(2147483646) == 1,
{
    lemma_power_of_period_over_2();
    lemma_power_add(1073741823, 1073741823);
}

/// No smaller power is 1: the multiplier is a primitive root of the modulus.
pub proof fn lemma_order(k: nat)
    requires
        0 < k < 2147483646,
    ensures
        power(k) != 1,
    decreases k,
{
    if power(k) == 1 {
        let q = (2147483646int / k as int) as nat;
        let r = (2147483646int % k as int) as nat;
        lemma_fundamental_div_mod(2147483646, k as int);
        lemma_power_of_period();
        lemma_power_multiple(k, q);
        lemma_power_add(k * q, r);
        lemma_state_after_valid(1, r);
        lemma_small_mod(power(r) as nat, 2147483647);
        assert(power(r) == 1);
        if r == 0 {
            let p = lemma_proper_divisor(k as int);
            let m = ((2147483646int / p) / k as int) as nat;
            lemma_fundamental_div_mod(2147483646int / p, k as int);
            lemma_power_multiple(k, m);
            lemma_power_of_period_over_2();
            lemma_power_of_period_over_3();
            lemma_power_of_period_over_7();
            lemma_power_of_period_over_11();
            lemma_power_of_period_over_31();
            lemma_power_of_period_over_151();
            lemma_power_of_period_over_331();
        } else {
            lemma_order(r);
        }
    }
}

/// The powers with exponents below the period are all different.
pub proof fn lemma_power_injective(i: nat, j: nat)
    requires
        i < j < 2147483646,
    ensures
        power(i) != power(j),
{
    if power(i) == power(j) {
        let d = (j - i) as nat;
        lemma_state_after_add(1, d, i);
        lemma_state_after_valid(1, d);
        lemma_state_after_injective(power(d), 1, i);
        lemma_order(d);
    }
}

/// A power keeps its value when the period is added to its exponent.
pub proof fn lemma_power_periodic(n: nat)
    ensures
        power(n + 2147483646) == power(n),
{
    lemma_power_of_period();
    lemma_power_add(n, 2147483646);
    lemma_state_after_valid(1, n);
    lemma_small_mod(power(n) as nat, 2147483647);
}

/// Every state is a power of the multiplier: there are as many powers with
/// exponents below the period as there are states, and no two are the same.
pub proof fn lemma_every_state_is_a_power(state: int) -> (n: nat)
    requires
        valid_state(state),
    ensures
        n < 2147483646,
        power(n) == state,
{
    let exponents = set_int_range(0, 2147483646);
    let states = set_int_range(1, 2147483647);
    let f = |n: int| power(n as nat);
    let image = exponents.map(f);
    lemma_int_range(0, 2147483646);
    lemma_int_range(1, 2147483647);
    assert(injective_on(f, exponents)) by {
        assert forall|a: int, b: int|
            exponents.contains(a) && exponents.contains(b) && #[trigger] f(a) == #[trigger] f(b)
                implies a == b by {
            if a < b {
                lemma_power_injective(a as nat, b as nat);
            }
            if b < a {
                lemma_power_injective(b as nat, a as nat);
            }
        }
    }
    lemma_map_size(exponents, image, f);
    assert forall|s: int| image.contains(s) implies states.contains(s) by {
        let n = choose|n: int| exponents.contains(n) && s == f(n);
        lemma_state_after_valid(1, n as nat);
    }
    lemma_subset_equality(image, states);
    assert(states.contains(state));
    assert(image.contains(state));
    let n = choose|n: int| exponents.contains(n) && state == f(n);
    n as nat
}

/// The generator has full period: it is back in the state it started from
/// after as many steps as there are states, and not before.
pub proof fn lemma_full_period(state: int, steps: nat)
    requires
        valid_state(state),
    ensures
        state_after(state, PERIOD as nat) == state,
        0 < steps < PERIOD ==> state_after(state, steps) != state,
{
    let j = lemma_every_state_is_a_power(state);
    lemma_state_after_add(1, j, 2147483646);
    lemma_power_periodic(j);
    if 0 < steps < 2147483646 && state_after(state, steps) == state {
        lemma_state_after_add(1, j, steps);
        if j + steps < 2147483646 {
            lemma_power_injective(j, j + steps);
        } else {
            let e = (j + steps - 2147483646) as nat;
            lemma_power_periodic(e);
            if e < j {
                lemma_power_injective(e, j);
            } else {
                lemma_power_injective(j, e);
            }
        }
    }
}

/// On its way round a generator is in every state: it gets from any state
/// to any state in fewer steps than there are states.
pub proof fn lemma_every_state_reached(from: int, to: int) -> (steps: nat)
    requires
        valid_state(from),
        valid_state(to),
    ensures
        steps < PERIOD,
        state_after(from, steps) == to,
{
    let a = lemma_every_state_is_a_power(from);
    let b = lemma_every_state_is_a_power(to);
    if a <= b {
        let steps = (b - a) as nat;
        lemma_state_after_add(1, a, steps);
        steps
    } else {
        let steps = (b + 2147483646 - a) as nat;
        lemma_state_after_add(1, a, steps);
        lemma_power_periodic(b);
        steps
    }
}

/// How often a generator comes into a state that is a multiple of `n` in
/// the `steps` steps that follow `state`: how often `one_in(n)` is true in
/// as many calls.
pub open spec fn hits(state: int, n: int, steps: nat) -> nat
    decreases steps,
{
    if steps == 0 {
        0
    } else if state_after(state, steps) % n == 0 {
        hits(state, n, (steps - 1) as nat) + 1
    } else {
        hits(state, n, (steps - 1) as nat)
    }
}

/// The multiples of `n` from 1 to `top`.
spec fn multiples(n: int, top: int) -> Set<int> {
    Set::new(|s: int| 1 <= s <= top && s % n == 0)
}

/// The multiples of `n` among the states that follow `state` in `steps`
/// steps.
spec fn hit_states(state: int, n: int, steps: nat) -> Set<int> {
    Set::new(|s: int| s % n == 0 && exists|k: nat| 1 <= k <= steps && s == state_after(state, k))
}

/// There are `top / n` multiples of `n` from 1 to `top`.
proof fn lemma_count_multiples(n: int, top: int)
    requires
        n >= 1,
        top >= 0,
    ensures
        multiples(n, top).finite(),
        multiples(n, top).len() == top / n,
    decreases top,
{
    if top == 0 {
        assert(multiples(n, top) =~= Set::<int>::empty());
        lemma_fundamental_div_mod_converse(0, n, 0, 0);
    } else {
        lemma_count_multiples(n, top - 1);
        let q = top / n;
        let r = top % n;
        lemma_fundamental_div_mod(top, n);
        if r == 0 {
            assert(top - 1 == (q - 1) * n + (n - 1)) by (nonlinear_arith)
                requires
                    top == n * q,
            ;
            lemma_fundamental_div_mod_converse(top - 1, n, q - 1, n - 1);
            assert(multiples(n, top) =~= multiples(n, top - 1).insert(top));
        } else {
            assert(top - 1 == q * n + (r - 1)) by (nonlinear_arith)
                requires
                    top == n * q + r,
            ;
            lemma_fundamental_div_mod_converse(top - 1, n, q, r - 1);
            assert(multiples(n, top) =~= multiples(n, top - 1));
        }
    }
}

/// Within a period a generator is in no state twice.
proof fn lemma_no_state_twice(state: int, a: nat, b: nat)
    requires
        valid_state(state),
        a < b <= a + 2147483645,
    ensures
        state_after(state, a) != state_after(state, b),
{
    lemma_state_after_valid(state, a);
    lemma_state_after_add(state, a, (b - a) as nat);
    lemma_full_period(state_after(state, a), (b - a) as nat);
}

/// The hits are as many as the multiples of `n` among the states that were
/// visited.
proof fn lemma_hits_are_hit_states(state: int, n: int, steps: nat)
    requires
        valid_state(state),
        n >= 1,
        steps <= 2147483646,
    ensures
        hit_states(state, n, steps).finite(),
        hit_states(state, n, steps).len() == hits(state, n, steps),
    decreases steps,
{
    if steps == 0 {
        assert(hit_states(state, n, steps) =~= Set::<int>::empty());
    } else {
        let before = (steps - 1) as nat;
        let x = state_after(state, steps);
        lemma_hits_are_hit_states(state, n, before);
        assert(!hit_states(state, n, before).contains(x)) by {
            if hit_states(state, n, before).contains(x) {
                let k = choose|k: nat| 1 <= k <= before && x == state_after(state, k);
                lemma_no_state_twice(state, k, steps);
            }
        }
        if x % n == 0 {
            assert(hit_states(state, n, steps) =~= hit_states(state, n, before).insert(x));
        } else {
            assert(hit_states(state, n, steps) =~= hit_states(state, n, before));
        }
    }
}

/// What "once in `n`" means for this generator: in the course of a period
/// the generator comes into a multiple of `n` as often as there are
/// multiples of `n` among its states, whatever state it starts in.
pub proof fn lemma_one_in_frequency(state: int, n: int)
    requires
        valid_state(state),
        n >= 1,
    ensures
        hits(state, n, PERIOD as nat) == PERIOD as int / n,
{
    lemma_hits_are_hit_states(state, n, 2147483646);
    lemma_count_multiples(n, 2147483646);
    let all = multiples(n, 2147483646);
    let hit = hit_states(state, n, 2147483646);
    assert forall|s: int| all.contains(s) implies hit.contains(s) by {
        let steps = lemma_every_state_reached(state, s);
        if steps == 0 {
            lemma_full_period(state, 0);
            assert(s == state_after(state, 2147483646nat));
        } else {
            assert(s == state_after(state, steps));
        }
    }
    assert forall|s: int| hit.contains(s) implies all.contains(s) by {
        let k = choose|k: nat| 1 <= k <= 2147483646 && s == state_after(state, k);
        lemma_state_after_valid(state, k);
    }
    assert(hit =~= all);
}

} // verus!
