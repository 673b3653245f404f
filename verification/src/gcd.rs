//! Greatest common divisors of natural numbers, with the facts that make
//! a fraction in lowest terms the smallest way to write its value.

use vstd::arithmetic::div_mod::{
    lemma_fundamental_div_mod, lemma_mod_multiples_basic, lemma_truncate_middle,
};
use vstd::prelude::*;

verus! {

/// The greatest common divisor, by Euclid's recursion. `gcd(0, 0)` is 0.
pub open spec fn gcd(a: nat, b: nat) -> nat
    decreases b,
{
    if b == 0 {
        a
    } else {
        gcd(b, a % b)
    }
}

/// `c` divides `x` exactly when `x` is `c` times its quotient by `c`.
pub proof fn lemma_divisible_iff_multiple(x: int, c: int)
    requires
        c > 0,
    ensures
        x % c == 0 <==> x == c * (x / c),
{
    lemma_fundamental_div_mod(x, c);
}

/// Whatever divides `x` and `y` divides `x * k + y`.
pub proof fn lemma_divides_combination(x: int, y: int, k: int, c: int)
    requires
        c > 0,
        x % c == 0,
        y % c == 0,
    ensures
        (x * k + y) % c == 0,
{
    lemma_divisible_iff_multiple(x, c);
    lemma_divisible_iff_multiple(y, c);
    let m = (x / c) * k + y / c;
    assert(x * k + y == m * c) by (nonlinear_arith)
        requires
            x == c * (x / c),
            y == c * (y / c),
            m == (x / c) * k + y / c,
    ;
    lemma_mod_multiples_basic(m, c);
}

/// The greatest common divisor divides both numbers.
pub proof fn lemma_gcd_divides(a: nat, b: nat)
    requires
        a > 0 || b > 0,
    ensures
        gcd(a, b) > 0,
        a % gcd(a, b) == 0,
        b % gcd(a, b) == 0,
    decreases b,
{
    if b == 0 {
        lemma_mod_multiples_basic(1, a as int);
        lemma_mod_multiples_basic(0, a as int);
    } else {
        let r = a % b;
        lemma_gcd_divides(b, r);
        let g = gcd(b, r);
        lemma_fundamental_div_mod(a as int, b as int);
        lemma_divides_combination(b as int, r as int, (a / b) as int, g as int);
        assert(a == b * (a / b) + r);
        assert(b * (a / b) == b * ((a / b) as int));
    }
}

/// Every common divisor of two numbers divides their greatest common divisor.
pub proof fn lemma_gcd_greatest(a: nat, b: nat, c: nat)
    requires
        c > 0,
        a % c == 0,
        b % c == 0,
    ensures
        gcd(a, b) % c == 0,
    decreases b,
{
    if b != 0 {
        let r = a % b;
        lemma_fundamental_div_mod(a as int, b as int);
        lemma_divides_combination(b as int, a as int, -((a / b) as int), c as int);
        assert(r == b * (-((a / b) as int)) + a) by (nonlinear_arith)
            requires
                a == b * (a / b) + r,
        ;
        lemma_gcd_greatest(b, r, c);
    }
}

/// Scaling both numbers scales their greatest common divisor.
pub proof fn lemma_gcd_scale(a: nat, b: nat, k: nat)
    requires
        k > 0,
    ensures
        gcd(k * a, k * b) == k * gcd(a, b),
    decreases b,
{
    if b == 0 {
        assert(k * b == 0) by (nonlinear_arith)
            requires
                b == 0,
        ;
    } else {
        assert(k * b > 0) by (nonlinear_arith)
            requires
                k > 0,
                b > 0,
        ;
        lemma_truncate_middle(a as int, k as int, b as int);
        assert((k * a) % (k * b) == k * (a % b));
        lemma_gcd_scale(b, a % b, k);
    }
}

/// Dividing two numbers by their greatest common divisor leaves them coprime.
pub proof fn lemma_gcd_quotients_coprime(a: nat, b: nat)
    requires
        a > 0 || b > 0,
    ensures
        gcd(a / gcd(a, b), b / gcd(a, b)) == 1,
{
    let g = gcd(a, b);
    lemma_gcd_divides(a, b);
    lemma_divisible_iff_multiple(a as int, g as int);
    lemma_divisible_iff_multiple(b as int, g as int);
    lemma_gcd_scale(a / g, b / g, g);
    let h = gcd(a / g, b / g);
    assert(g == g * h);
    assert(h == 1) by (nonlinear_arith)
        requires
            g == g * h,
            g > 0,
    ;
}

/// A fraction `p / q` in lowest terms is the smallest of all fractions
/// `n / d` with the same value.
pub proof fn lemma_lowest_terms_minimal(p: nat, q: nat, n: nat, d: nat)
    requires
        q > 0,
        d > 0,
        gcd(p, q) == 1,
        n * q == p * d,
    ensures
        q <= d,
        p <= n,
{
    lemma_gcd_scale(p, q, d);
    assert(gcd(d * p, d * q) == d);
    lemma_mod_multiples_basic(n as int, q as int);
    lemma_mod_multiples_basic(d as int, q as int);
    assert(d * p == n * q) by (nonlinear_arith)
        requires
            n * q == p * d,
    ;
    lemma_gcd_greatest(d * p, d * q, q);
    lemma_divisible_iff_multiple(d as int, q as int);
    let t = d / q;
    assert(t >= 1 && q <= d && p <= n) by (nonlinear_arith)
        requires
            d == q * t,
            d > 0,
            q > 0,
            t >= 0,
            n * q == p * d,
            p >= 0,
            n >= 0,
    ;
}

/// The greatest common divisor of two machine integers.
pub fn gcd_u128(a: u128, b: u128) -> (g: u128)
    ensures
        g == gcd(a as nat, b as nat),
{
    let mut x: u128 = a;
    let mut y: u128 = b;
    while y != 0
        invariant
            gcd(x as nat, y as nat) == gcd(a as nat, b as nat),
        decreases y,
    {
        let r: u128 = x % y;
        x = y;
        y = r;
    }
    x
}

} // verus!
