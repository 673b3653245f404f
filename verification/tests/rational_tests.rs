use rustplex::gcd::gcd_u128;
use rustplex::rational::{Rational, LIMIT};

fn q(num: i64, den: i64) -> Rational {
    Rational::new(num, den).unwrap()
}

#[test]
fn gcd_of_machine_integers() {
    assert_eq!(gcd_u128(12, 18), 6);
    assert_eq!(gcd_u128(18, 12), 6);
    assert_eq!(gcd_u128(7, 0), 7);
    assert_eq!(gcd_u128(0, 7), 7);
    assert_eq!(gcd_u128(0, 0), 0);
    assert_eq!(gcd_u128(17, 5), 1);
}

#[test]
fn rational_new_reduces_to_lowest_terms() {
    let r = q(6, -4);
    assert_eq!(r.numerator(), -3);
    assert_eq!(r.denominator(), 2);
}

#[test]
fn rational_new_of_zero_is_zero_over_one() {
    let r = q(0, -9);
    assert_eq!(r.numerator(), 0);
    assert_eq!(r.denominator(), 1);
    assert_eq!(r, Rational::zero());
}

#[test]
fn rational_new_rejects_zero_denominator() {
    assert_eq!(Rational::new(1, 0), None);
    assert_eq!(Rational::new(0, 0), None);
}

#[test]
fn rational_new_rejects_what_does_not_fit() {
    assert_eq!(Rational::new(i64::MIN, 1), None);
    assert_eq!(Rational::new(1, i64::MIN), None);
    assert_eq!(Rational::new(i64::MIN, 3), None);
    assert_eq!(Rational::new(i64::MIN, 2), Some(q(-(1i64 << 62), 1)));
    assert_eq!(Rational::new(i64::MIN, i64::MIN), Some(Rational::one()));
    assert_eq!(q(LIMIT, 1).numerator(), i64::MAX);
    assert_eq!(q(-LIMIT, LIMIT), Rational::from_integer(-1));
}

#[test]
fn rational_from_integer_and_constants() {
    assert_eq!(Rational::from_integer(-7), q(-7, 1));
    assert_eq!(Rational::from_integer(i32::MIN).numerator(), i32::MIN as i64);
    assert_eq!(Rational::zero(), q(0, 1));
    assert_eq!(Rational::one(), q(5, 5));
}

#[test]
fn rational_sum_difference_product_quotient() {
    assert_eq!(q(1, 2).checked_add(q(1, 3)), Some(q(5, 6)));
    assert_eq!(q(1, 6).checked_add(q(1, 3)), Some(q(1, 2)));
    assert_eq!(q(1, 2).checked_sub(q(1, 3)), Some(q(1, 6)));
    assert_eq!(q(1, 3).checked_sub(q(1, 2)), Some(q(-1, 6)));
    assert_eq!(q(2, 3).checked_mul(q(-3, 4)), Some(q(-1, 2)));
    assert_eq!(q(2, 3).checked_div(q(-4, 9)), Some(q(-3, 2)));
    assert_eq!(q(0, 1).checked_div(q(5, 7)), Some(Rational::zero()));
}

#[test]
fn rational_division_by_zero_gives_nothing() {
    assert_eq!(q(1, 2).checked_div(Rational::zero()), None);
    assert_eq!(Rational::zero().checked_div(Rational::zero()), None);
}

#[test]
fn rational_results_that_do_not_fit_give_nothing() {
    let big = q(LIMIT, 1);
    let tiny = q(1, LIMIT);
    assert_eq!(big.checked_add(Rational::one()), None);
    assert_eq!(big.neg().checked_sub(Rational::one()), None);
    assert_eq!(big.checked_mul(q(2, 1)), None);
    assert_eq!(tiny.checked_mul(q(1, 2)), None);
    assert_eq!(big.checked_div(q(1, 2)), None);
    assert_eq!(tiny.checked_add(q(1, 2)), None);
    assert_eq!(big.checked_mul(tiny), Some(Rational::one()));
    assert_eq!(big.checked_sub(big), Some(Rational::zero()));
    assert_eq!(big.checked_add(big.neg()), Some(Rational::zero()));
}

#[test]
fn rational_negation_always_fits() {
    assert_eq!(q(3, 4).neg(), q(-3, 4));
    assert_eq!(q(-LIMIT, 1).neg(), q(LIMIT, 1));
    assert_eq!(Rational::zero().neg(), Rational::zero());
}

#[test]
fn rational_signs() {
    assert!(q(-1, 3).is_negative());
    assert!(!q(-1, 3).is_positive());
    assert!(!q(-1, 3).is_zero());
    assert!(q(1, 3).is_positive());
    assert!(!q(1, 3).is_negative());
    assert!(Rational::zero().is_zero());
    assert!(!Rational::zero().is_negative());
    assert!(!Rational::zero().is_positive());
}

#[test]
fn rational_order_and_equality() {
    assert!(q(1, 3).less_than(&q(1, 2)));
    assert!(!q(1, 2).less_than(&q(1, 3)));
    assert!(!q(1, 2).less_than(&q(2, 4)));
    assert!(q(-1, 2).less_than(&q(-1, 3)));
    assert!(q(-LIMIT, 1).less_than(&q(LIMIT, 1)));
    assert!(q(LIMIT - 1, LIMIT).less_than(&Rational::one()));
    assert!(q(1, 2).equals(&q(2, 4)));
    assert!(!q(1, 2).equals(&q(1, 3)));
}
