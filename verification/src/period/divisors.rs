//! The divisors of the period.
//!
//! The period is `2 * 3 * 3 * 7 * 11 * 31 * 151 * 331`. A number that
//! divides it, and is not the period itself, lacks one of these primes, and
//! so divides the period divided by that prime.

use vstd::arithmetic::div_mod::{lemma_fundamental_div_mod, lemma_mod_multiples_basic};
use vstd::prelude::*;

verus! {

/// The primes that divide the period.
pub(super) open spec fn prime_factor(p: int) -> bool {
    p == 2 || p == 3 || p == 7 || p == 11 || p == 31 || p == 151 || p == 331
}

/// None of the smaller numbers, but 1, divides `p`.
spec fn prime(p: int) -> bool {
    forall|d: int| 1 < d < p ==> #[trigger] (p % d) != 0
}

/// The prime factors of the period are primes.
proof fn lemma_prime_factors_are_prime(p: int)
    requires
        prime_factor(p),
    ensures
        prime(p),
{
    assert forall|d: int| 1 < d < p implies #[trigger] (p % d) != 0 by {
        let e = d as u16;
        if p == 2 {
        } else if p == 3 {
            assert(3u16 % e != 0) by (bit_vector)
                requires
                    1 < e < 3,
            ;
        } else if p == 7 {
            assert(7u16 % e != 0) by (bit_vector)
                requires
                    1 < e < 7,
            ;
        } else if p == 11 {
            assert(11u16 % e != 0) by (bit_vector)
                requires
                    1 < e < 11,
            ;
        } else if p == 31 {
            assert(31u16 % e != 0) by (bit_vector)
                requires
                    1 < e < 31,
            ;
        } else if p == 151 {
            assert(151u16 % e != 0) by (bit_vector)
                requires
                    1 < e < 151,
            ;
        } else {
            assert(331u16 % e != 0) by (bit_vector)
                requires
                    1 < e < 331,
            ;
        }
    }
}

/// Two numbers have a common divisor that is a sum of multiples of them.
proof fn lemma_common_divisor(a: int, b: int) -> (r: (int, int, int))
    requires
        a >= 0,
        b >= 0,
        a > 0 || b > 0,
    ensures
        r.2 > 0,
        a * r.0 + b * r.1 == r.2,
        a % r.2 == 0,
        b % r.2 == 0,
    decreases b,
{
    if b == 0 {
        assert(a * 1 + b * 0 == a) by (nonlinear_arith);
        (1, 0, a)
    } else {
        let q = a / b;
        let m = a % b;
        lemma_fundamental_div_mod(a, b);
        let (x, y, g) = lemma_common_divisor(b, m);
        lemma_fundamental_div_mod(b, g);
        lemma_fundamental_div_mod(m, g);
        let bg = b / g;
        let mg = m / g;
        assert(a == g * (bg * q + mg)) by (nonlinear_arith)
            requires
                a == b * q + m,
                b == g * bg,
                m == g * mg,
        ;
        lemma_mod_multiples_basic(bg * q + mg, g);
        assert(a * y + b * (x - q * y) == g) by (nonlinear_arith)
            requires
                a == b * q + m,
                b * x + m * y == g,
        ;
        (y, x - q * y, g)
    }
}

/// A prime factor of the period that divides a product divides one of the
/// factors.
proof fn lemma_prime_divides_factor(p: int, a: int, b: int)
    requires
        prime_factor(p),
        (a * b) % p == 0,
    ensures
        a % p == 0 || b % p == 0,
{
    if a % p != 0 {
        let r = a % p;
        let (x, y, g) = lemma_common_divisor(r, p);
        lemma_prime_factors_are_prime(p);
        lemma_fundamental_div_mod(r, g);
        assert(g <= r) by (nonlinear_arith)
            requires
                r == g * (r / g),
                r > 0,
                g > 0,
        ;
        assert(g == 1);
        lemma_fundamental_div_mod(a, p);
        lemma_fundamental_div_mod(a * b, p);
        let m = (a * b) / p;
        let k = a / p;
        let w = m - k * b;
        assert(r * b == p * w) by (nonlinear_arith)
            requires
                a == p * k + r,
                a * b == p * m,
                w == m - k * b,
        ;
        let rb = r * b;
        assert(b == rb * x + p * (b * y)) by (nonlinear_arith)
            requires
                r * x + p * y == 1,
                rb == r * b,
        ;
        assert(b == p * (w * x + b * y)) by (nonlinear_arith)
            requires
                b == rb * x + p * (b * y),
                rb == p * w,
        ;
        lemma_mod_multiples_basic(w * x + b * y, p);
    }
}

/// One step of taking a number apart: where `c * g` is `p * n` and the
/// prime `p` does not divide `c`, it divides `g`, and `c` times the rest of
/// `g` is `n`.
proof fn lemma_peel(p: int, c: int, g: int, n: int)
    requires
        prime_factor(p),
        c * g == p * n,
        c % p != 0,
    ensures
        g % p == 0,
        c * (g / p) == n,
{
    assert((p * n) % p == 0) by (nonlinear_arith)
        requires
            p > 0,
    ;
    lemma_prime_divides_factor(p, c, g);
    lemma_fundamental_div_mod(g, p);
    assert(c * (g / p) == n) by (nonlinear_arith)
        requires
            c * g == p * n,
            g == p * (g / p),
            p > 0,
    ;
}

/// Where the prime `p` divides `c`, and `c * g` is `m`, the number `g`
/// divides `m / p`.
proof fn lemma_cofactor(p: int, c: int, g: int, m: int)
    requires
        p > 0,
        g > 0,
        c % p == 0,
        c * g == m,
    ensures
        m % p == 0,
        (m / p) % g == 0,
{
    lemma_fundamental_div_mod(c, p);
    let d = c / p;
    assert(m == p * (d * g)) by (nonlinear_arith)
        requires
            c == p * d,
            c * g == m,
    ;
    assert(m % p == 0 && m / p == d * g) by (nonlinear_arith)
        requires
            m == p * (d * g),
            p > 0,
    ;
    assert((d * g) % g == 0) by (nonlinear_arith)
        requires
            g > 0,
    ;
}

/// A divisor of the period, other than the period itself, divides the
/// period divided by one of its prime factors.
pub(super) proof fn lemma_proper_divisor(g: int) -> (p: int)
    requires
        0 < g < 2147483646,
        2147483646int % g == 0,
    ensures
        prime_factor(p),
        (2147483646int / p) % g == 0,
{
    let c = 2147483646int / g;
    lemma_fundamental_div_mod(2147483646, g);
    assert(c * g == 2147483646) by (nonlinear_arith)
        requires
            2147483646 == g * c,
    ;
    if c % 2 == 0 {
        lemma_cofactor(2, c, g, 2147483646);
        2
    } else if c % 3 == 0 {
        lemma_cofactor(3, c, g, 2147483646);
        3
    } else if c % 7 == 0 {
        lemma_cofactor(7, c, g, 2147483646);
        7
    } else if c % 11 == 0 {
        lemma_cofactor(11, c, g, 2147483646);
        11
    } else if c % 31 == 0 {
        lemma_cofactor(31, c, g, 2147483646);
        31
    } else if c % 151 == 0 {
        lemma_cofactor(151, c, g, 2147483646);
        151
    } else if c % 331 == 0 {
        lemma_cofactor(331, c, g, 2147483646);
        331
    } else {
        // No prime factor of the period divides `c`, so all of them are in
        // `g`, which then is the period.
        lemma_peel(2, c, g, 1073741823);
        let g1 = g / 2;
        lemma_peel(3, c, g1, 357913941);
        let g2 = g1 / 3;
        lemma_peel(3, c, g2, 119304647);
        let g3 = g2 / 3;
        lemma_peel(7, c, g3, 17043521);
        let g4 = g3 / 7;
        lemma_peel(11, c, g4, 1549411);
        let g5 = g4 / 11;
        lemma_peel(31, c, g5, 49981);
        let g6 = g5 / 31;
        lemma_peel(151, c, g6, 331);
        let g7 = g6 / 151;
        lemma_peel(331, c, g7, 1);
        let g8 = g7 / 331;
        assert(false) by (nonlinear_arith)
            requires
                c * g8 == 1,
                c * g == 2147483646,
                0 < g < 2147483646,
        ;
        2
    }
}

} // verus!
