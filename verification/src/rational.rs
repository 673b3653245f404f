//! Exact rational numbers in lowest terms, held in machine integers.
//!
//! Every value is a fraction `num / den` with `den > 0`, numerator and
//! denominator coprime, and both within `LIMIT` in magnitude. Arithmetic is
//! exact: an operation either returns the true result or reports that the
//! result cannot be written within those limits.

use crate::gcd::{
    gcd, gcd_u128, lemma_divisible_iff_multiple, lemma_gcd_divides, lemma_gcd_quotients_coprime,
    lemma_lowest_terms_minimal,
};
use vstd::prelude::*;

verus! {

/// The largest magnitude that a numerator or a denominator may have.
pub const LIMIT: i64 = 9_223_372_036_854_775_807;

/// The real number `n / d`.
pub open spec fn fraction(n: int, d: int) -> real {
    n as real / d as real
}

/// Whether `n / d` has a positive denominator and both parts within `LIMIT`.
pub open spec fn in_range(n: int, d: int) -> bool {
    -LIMIT <= n <= LIMIT && 0 < d <= LIMIT
}

/// Whether the real number `v` can be held in a `Rational`.
pub open spec fn representable(v: real) -> bool {
    exists|n: int, d: int| in_range(n, d) && #[trigger] fraction(n, d) == v
}

/// The absolute value of an integer.
pub open spec fn magnitude(n: int) -> nat {
    if n < 0 {
        (-n) as nat
    } else {
        n as nat
    }
}

/// Multiplying numerator and denominator by the same factor keeps the value.
pub proof fn lemma_fraction_scale(n: int, d: int, k: int)
    requires
        d != 0,
        k != 0,
    ensures
        fraction(k * n, k * d) == fraction(n, d),
{
    let nr = n as real;
    let dr = d as real;
    let kr = k as real;
    assert((k * n) as real == (k as real) * (n as real)) by (nonlinear_arith);
    assert((k * d) as real == (k as real) * (d as real)) by (nonlinear_arith);
    assert((kr * nr) / (kr * dr) == nr / dr) by (nonlinear_arith)
        requires
            kr != 0real,
            dr != 0real,
    ;
}

/// Two fractions are equal exactly when their cross products are.
pub proof fn lemma_fraction_equal(n1: int, d1: int, n2: int, d2: int)
    requires
        d1 > 0,
        d2 > 0,
    ensures
        (fraction(n1, d1) == fraction(n2, d2)) == (n1 * d2 == n2 * d1),
{
    let a = n1 as real;
    let b = d1 as real;
    let c = n2 as real;
    let d = d2 as real;
    assert((n1 * d2) as real == (n1 as real) * (d2 as real)) by (nonlinear_arith);
    assert((n2 * d1) as real == (n2 as real) * (d1 as real)) by (nonlinear_arith);
    assert((a / b == c / d) == (a * d == c * b)) by (nonlinear_arith)
        requires
            b > 0real,
            d > 0real,
    ;
}

/// Two fractions are ordered as their cross products are.
pub proof fn lemma_fraction_less(n1: int, d1: int, n2: int, d2: int)
    requires
        d1 > 0,
        d2 > 0,
    ensures
        (fraction(n1, d1) < fraction(n2, d2)) == (n1 * d2 < n2 * d1),
{
    let a = n1 as real;
    let b = d1 as real;
    let c = n2 as real;
    let d = d2 as real;
    assert((n1 * d2) as real == (n1 as real) * (d2 as real)) by (nonlinear_arith);
    assert((n2 * d1) as real == (n2 as real) * (d1 as real)) by (nonlinear_arith);
    assert((a / b < c / d) == (a * d < c * b)) by (nonlinear_arith)
        requires
            b > 0real,
            d > 0real,
    ;
}

/// The sum of two fractions, over the product of their denominators.
pub proof fn lemma_fraction_add(n1: int, d1: int, n2: int, d2: int)
    requires
        d1 != 0,
        d2 != 0,
    ensures
        fraction(n1, d1) + fraction(n2, d2) == fraction(n1 * d2 + n2 * d1, d1 * d2),
{
    let a = n1 as real;
    let b = d1 as real;
    let c = n2 as real;
    let d = d2 as real;
    assert((n1 * d2) as real == (n1 as real) * (d2 as real)) by (nonlinear_arith);
    assert((n2 * d1) as real == (n2 as real) * (d1 as real)) by (nonlinear_arith);
    assert((d1 * d2) as real == (d1 as real) * (d2 as real)) by (nonlinear_arith);
    assert(a / b + c / d == (a * d + c * b) / (b * d)) by (nonlinear_arith)
        requires
            b != 0real,
            d != 0real,
    ;
}

/// The product of two fractions.
pub proof fn lemma_fraction_mul(n1: int, d1: int, n2: int, d2: int)
    requires
        d1 != 0,
        d2 != 0,
    ensures
        fraction(n1, d1) * fraction(n2, d2) == fraction(n1 * n2, d1 * d2),
{
    let a = n1 as real;
    let b = d1 as real;
    let c = n2 as real;
    let d = d2 as real;
    assert((n1 * n2) as real == (n1 as real) * (n2 as real)) by (nonlinear_arith);
    assert((d1 * d2) as real == (d1 as real) * (d2 as real)) by (nonlinear_arith);
    assert((a / b) * (c / d) == (a * c) / (b * d)) by (nonlinear_arith)
        requires
            b != 0real,
            d != 0real,
    ;
}

/// The quotient of two fractions.
pub proof fn lemma_fraction_div(n1: int, d1: int, n2: int, d2: int)
    requires
        d1 != 0,
        d2 != 0,
        n2 != 0,
    ensures
        fraction(n1, d1) / fraction(n2, d2) == fraction(n1 * d2, d1 * n2),
{
    let a = n1 as real;
    let b = d1 as real;
    let c = n2 as real;
    let d = d2 as real;
    assert((n1 * d2) as real == (n1 as real) * (d2 as real)) by (nonlinear_arith);
    assert((d1 * n2) as real == (d1 as real) * (n2 as real)) by (nonlinear_arith);
    assert((a / b) / (c / d) == (a * d) / (b * c)) by (nonlinear_arith)
        requires
            b != 0real,
            c != 0real,
            d != 0real,
    ;
}

/// A fraction in lowest terms can be held exactly when its own parts are
/// within the limits: no other way of writing the value is smaller.
pub proof fn lemma_representable_lowest_terms(p: int, q: int)
    requires
        q > 0,
        gcd(magnitude(p), q as nat) == 1,
    ensures
        representable(fraction(p, q)) == in_range(p, q),
{
    if in_range(p, q) {
        assert(in_range(p, q) && fraction(p, q) == fraction(p, q));
    }
    if representable(fraction(p, q)) {
        let (n, d) = choose|n: int, d: int|
            in_range(n, d) && #[trigger] fraction(n, d) == fraction(p, q);
        lemma_fraction_equal(n, d, p, q);
        assert(magnitude(n) * q == magnitude(p) * d) by (nonlinear_arith)
            requires
                n * q == p * d,
                q > 0,
                d > 0,
        ;
        lemma_lowest_terms_minimal(magnitude(p), q as nat, magnitude(n), d as nat);
    }
}

/// An exact rational number.
#[derive(Clone, Copy, Debug, PartialEq, Eq)]
pub struct Rational {
    num: i64,
    den: i64,
}

impl View for Rational {
    type V = real;

    closed spec fn view(&self) -> real {
        fraction(self.num as int, self.den as int)
    }
}

/// Brings `n / d` to lowest terms and returns it if it then fits.
fn reduce(n: i128, d: i128) -> (r: Option<Rational>)
    requires
        d > 0,
        n > i128::MIN,
    ensures
        r.is_some() == representable(fraction(n as int, d as int)),
        r matches Some(x) ==> x@ == fraction(n as int, d as int),
{
    let negative: bool = n < 0;
    let an: u128 = if negative {
        (-n) as u128
    } else {
        n as u128
    };
    let ad: u128 = d as u128;
    let g: u128 = gcd_u128(an, ad);
    proof {
        lemma_gcd_divides(an as nat, ad as nat);
        lemma_gcd_quotients_coprime(an as nat, ad as nat);
        lemma_divisible_iff_multiple(an as int, g as int);
        lemma_divisible_iff_multiple(ad as int, g as int);
    }
    let p: u128 = an / g;
    let q: u128 = ad / g;
    let ghost sp: int = if negative {
        -(p as int)
    } else {
        p as int
    };
    proof {
        assert(q > 0) by (nonlinear_arith)
            requires
                ad == g * q,
                ad > 0,
                g > 0,
        ;
        assert(n == g * sp) by (nonlinear_arith)
            requires
                an == g * p,
                sp == if negative {
                    -(p as int)
                } else {
                    p as int
                },
                n == if negative {
                    -(an as int)
                } else {
                    an as int
                },
        ;
        lemma_fraction_scale(sp, q as int, g as int);
        assert(magnitude(sp) == p);
        lemma_representable_lowest_terms(sp, q as int);
    }
    if p <= LIMIT as u128 && q <= LIMIT as u128 {
        let m: i64 = p as i64;
        let num: i64 = if negative {
            -m
        } else {
            m
        };
        Some(Rational { num, den: q as i64 })
    } else {
        None
    }
}

impl Rational {
    /// What holds of every value: a positive denominator, both parts within
    /// the limits, and no common factor.
    #[verifier::type_invariant]
    pub closed spec fn lowest_terms(self) -> bool {
        in_range(self.num as int, self.den as int) && gcd(
            magnitude(self.num as int),
            self.den as nat,
        ) == 1
    }

    /// Every value of this type can be held in it.
    pub proof fn lemma_representable(self)
        requires
            self.lowest_terms(),
        ensures
            representable(self@),
    {
        assert(in_range(self.num as int, self.den as int) && fraction(
            self.num as int,
            self.den as int,
        ) == self@);
    }

    /// Two values that stand for the same number are the same value, part
    /// by part.
    pub proof fn lemma_equal_values_are_identical(self, other: Rational)
        requires
            self.lowest_terms(),
            other.lowest_terms(),
            self@ == other@,
        ensures
            self == other,
    {
        let n1 = self.num as int;
        let d1 = self.den as int;
        let n2 = other.num as int;
        let d2 = other.den as int;
        lemma_fraction_equal(n1, d1, n2, d2);
        assert(magnitude(n1) * d2 == magnitude(n2) * d1 && (n1 < 0 <==> n2 < 0)) by (nonlinear_arith)
            requires
                n1 * d2 == n2 * d1,
                d1 > 0,
                d2 > 0,
        ;
        lemma_lowest_terms_minimal(magnitude(n1), d1 as nat, magnitude(n2), d2 as nat);
        lemma_lowest_terms_minimal(magnitude(n2), d2 as nat, magnitude(n1), d1 as nat);
    }

    /// The fraction `num / den`, if `den` is not zero and the value fits.
    pub fn new(num: i64, den: i64) -> (r: Option<Rational>)
        ensures
            r.is_some() == (den != 0 && representable(fraction(num as int, den as int))),
            r matches Some(x) ==> x@ == fraction(num as int, den as int),
    {
        if den == 0 {
            return None;
        }
        let n: i128 = num as i128;
        let d: i128 = den as i128;
        if d < 0 {
            proof {
                lemma_fraction_scale(n as int, d as int, -1);
            }
            reduce(-n, -d)
        } else {
            reduce(n, d)
        }
    }

    /// The whole number `n`.
    pub fn from_integer(n: i32) -> (r: Rational)
        ensures
            r@ == n as real,
    {
        proof {
            reveal_with_fuel(gcd, 3);
            let a = n as real;
            assert(a / 1real == a) by (nonlinear_arith);
        }
        Rational { num: n as i64, den: 1 }
    }

    /// The number 0.
    pub fn zero() -> (r: Rational)
        ensures
            r@ == 0real,
    {
        Rational::from_integer(0)
    }

    /// The number 1.
    pub fn one() -> (r: Rational)
        ensures
            r@ == 1real,
    {
        Rational::from_integer(1)
    }

    /// The numerator of the value in lowest terms.
    pub fn numerator(&self) -> (n: i64)
        ensures
            n == self.spec_numerator(),
    {
        self.num
    }

    /// The denominator of the value in lowest terms; it is positive.
    pub fn denominator(&self) -> (d: i64)
        ensures
            d == self.spec_denominator(),
    {
        self.den
    }

    /// The numerator of the value in lowest terms.
    pub closed spec fn spec_numerator(&self) -> int {
        self.num as int
    }

    /// The denominator of the value in lowest terms.
    pub closed spec fn spec_denominator(&self) -> int {
        self.den as int
    }

    /// The value is its numerator over its denominator, which are coprime
    /// and within the limits.
    pub proof fn lemma_parts(self)
        requires
            self.lowest_terms(),
        ensures
            self@ == fraction(self.spec_numerator(), self.spec_denominator()),
            in_range(self.spec_numerator(), self.spec_denominator()),
            gcd(magnitude(self.spec_numerator()), self.spec_denominator() as nat) == 1,
    {
    }

    /// The negated value. It always fits.
    pub fn neg(self) -> (r: Rational)
        ensures
            r@ == -self@,
    {
        proof {
            use_type_invariant(&self);
            lemma_fraction_scale(self.num as int, self.den as int, -1);
            lemma_fraction_scale(-self.num as int, self.den as int, -1);
            let a = self.num as real;
            let b = self.den as real;
            assert((-self.num) as real == -a);
            assert((-a) / b == -(a / b)) by (nonlinear_arith)
                requires
                    b > 0real,
            ;
        }
        Rational { num: -self.num, den: self.den }
    }

    /// The sum, if it fits.
    pub fn checked_add(self, rhs: Rational) -> (r: Option<Rational>)
        ensures
            r.is_some() == representable(self@ + rhs@),
            r matches Some(x) ==> x@ == self@ + rhs@,
    {
        proof {
            use_type_invariant(&self);
            use_type_invariant(&rhs);
            lemma_fraction_add(self.num as int, self.den as int, rhs.num as int, rhs.den as int);
            lemma_products_bounded(self.num as int, rhs.den as int);
            lemma_products_bounded(rhs.num as int, self.den as int);
            lemma_products_bounded(self.den as int, rhs.den as int);
        }
        let n: i128 = (self.num as i128) * (rhs.den as i128) + (rhs.num as i128) * (self.den as i128);
        let d: i128 = (self.den as i128) * (rhs.den as i128);
        reduce(n, d)
    }

    /// The difference, if it fits.
    pub fn checked_sub(self, rhs: Rational) -> (r: Option<Rational>)
        ensures
            r.is_some() == representable(self@ - rhs@),
            r matches Some(x) ==> x@ == self@ - rhs@,
    {
        self.checked_add(rhs.neg())
    }

    /// The product, if it fits.
    pub fn checked_mul(self, rhs: Rational) -> (r: Option<Rational>)
        ensures
            r.is_some() == representable(self@ * rhs@),
            r matches Some(x) ==> x@ == self@ * rhs@,
    {
        proof {
            use_type_invariant(&self);
            use_type_invariant(&rhs);
            lemma_fraction_mul(self.num as int, self.den as int, rhs.num as int, rhs.den as int);
            lemma_products_bounded(self.num as int, rhs.num as int);
            lemma_products_bounded(self.den as int, rhs.den as int);
        }
        let n: i128 = (self.num as i128) * (rhs.num as i128);
        let d: i128 = (self.den as i128) * (rhs.den as i128);
        reduce(n, d)
    }

    /// The quotient, if the divisor is not zero and the quotient fits.
    pub fn checked_div(self, rhs: Rational) -> (r: Option<Rational>)
        ensures
            r.is_some() == (rhs@ != 0real && representable(self@ / rhs@)),
            r matches Some(x) ==> x@ == self@ / rhs@,
    {
        proof {
            use_type_invariant(&self);
            use_type_invariant(&rhs);
            lemma_fraction_sign(rhs.num as int, rhs.den as int);
            lemma_products_bounded(self.num as int, rhs.den as int);
            lemma_products_bounded(self.den as int, rhs.num as int);
        }
        if rhs.num == 0 {
            return None;
        }
        proof {
            lemma_fraction_div(self.num as int, self.den as int, rhs.num as int, rhs.den as int);
        }
        let n: i128 = (self.num as i128) * (rhs.den as i128);
        let d: i128 = (self.den as i128) * (rhs.num as i128);
        if d < 0 {
            proof {
                lemma_fraction_scale(n as int, d as int, -1);
            }
            reduce(-n, -d)
        } else {
            reduce(n, d)
        }
    }

    /// Whether the value is 0.
    pub fn is_zero(&self) -> (b: bool)
        ensures
            b == (self@ == 0real),
    {
        proof {
            use_type_invariant(self);
            lemma_fraction_sign(self.num as int, self.den as int);
        }
        self.num == 0
    }

    /// Whether the value is below 0.
    pub fn is_negative(&self) -> (b: bool)
        ensures
            b == (self@ < 0real),
    {
        proof {
            use_type_invariant(self);
            lemma_fraction_sign(self.num as int, self.den as int);
        }
        self.num < 0
    }

    /// Whether the value is above 0.
    pub fn is_positive(&self) -> (b: bool)
        ensures
            b == (self@ > 0real),
    {
        proof {
            use_type_invariant(self);
            lemma_fraction_sign(self.num as int, self.den as int);
        }
        self.num > 0
    }

    /// Whether this value is below `other`.
    pub fn less_than(&self, other: &Rational) -> (b: bool)
        ensures
            b == (self@ < other@),
    {
        proof {
            use_type_invariant(self);
            use_type_invariant(other);
            lemma_fraction_less(self.num as int, self.den as int, other.num as int, other.den as int);
            lemma_products_bounded(self.num as int, other.den as int);
            lemma_products_bounded(other.num as int, self.den as int);
        }
        (self.num as i128) * (other.den as i128) < (other.num as i128) * (self.den as i128)
    }

    /// Whether this value and `other` are the same number.
    pub fn equals(&self, other: &Rational) -> (b: bool)
        ensures
            b == (self@ == other@),
    {
        proof {
            use_type_invariant(self);
            use_type_invariant(other);
            lemma_fraction_equal(self.num as int, self.den as int, other.num as int, other.den as int);
            lemma_products_bounded(self.num as int, other.den as int);
            lemma_products_bounded(other.num as int, self.den as int);
        }
        (self.num as i128) * (other.den as i128) == (other.num as i128) * (self.den as i128)
    }
}

/// A product of two parts of values stays far inside the 128-bit range, and
/// is positive or nonzero when both parts are.
proof fn lemma_products_bounded(a: int, b: int)
    requires
        -LIMIT <= a <= LIMIT,
        -LIMIT <= b <= LIMIT,
    ensures
        -(LIMIT * LIMIT) <= a * b <= LIMIT * LIMIT,
        a > 0 && b > 0 ==> a * b > 0,
        a != 0 && b != 0 ==> a * b != 0,
{
    assert(-(LIMIT * LIMIT) <= a * b <= LIMIT * LIMIT) by (nonlinear_arith)
        requires
            -LIMIT <= a <= LIMIT,
            -LIMIT <= b <= LIMIT,
    ;
    assert(a > 0 && b > 0 ==> a * b > 0) by (nonlinear_arith);
    assert(a != 0 && b != 0 ==> a * b != 0) by (nonlinear_arith);
}

/// With a positive denominator, a fraction has the sign of its numerator.
pub proof fn lemma_fraction_sign(n: int, d: int)
    requires
        d > 0,
    ensures
        (fraction(n, d) == 0real) == (n == 0),
        (fraction(n, d) < 0real) == (n < 0),
        (fraction(n, d) > 0real) == (n > 0),
{
    let a = n as real;
    let b = d as real;
    assert(((a / b == 0real) == (a == 0real)) && ((a / b < 0real) == (a < 0real)) && ((a / b
        > 0real) == (a > 0real))) by (nonlinear_arith)
        requires
            b > 0real,
    ;
}

} // verus!
