use core::cmp::Ordering;

use neco::{BigInt, BigUint, Polynomial, RationalPolynomial, RawRational, ReducedRational, Sign};

fn integer(value: i32) -> BigInt {
    BigInt::try_from(value).unwrap()
}

fn polynomial(values: &[i32]) -> Polynomial {
    Polynomial::from_coefficients(values.iter().copied().map(integer).collect())
}

fn rational(numerator: i32, denominator: u32) -> ReducedRational {
    RawRational::new(integer(numerator), BigUint::try_from(denominator).unwrap())
        .reduce()
        .unwrap()
        .into_reduced()
}

fn assert_integer_coefficients(value: &Polynomial, expected: &[i32]) {
    assert_eq!(value.coefficients().len(), expected.len());
    for (coefficient, expected) in value.coefficients().iter().zip(expected) {
        let expected_sign = match expected.cmp(&0) {
            Ordering::Less => Sign::Negative,
            Ordering::Equal => Sign::Zero,
            Ordering::Greater => Sign::Positive,
        };
        assert_eq!(coefficient.sign(), expected_sign);
        assert_eq!(
            coefficient.magnitude().to_u32(),
            Some(expected.unsigned_abs())
        );
    }
}

#[test]
fn integer_normalization_and_operations_preserve_coefficient_order() {
    let normalized = polynomial(&[2, 0, 0]);
    assert_integer_coefficients(&normalized, &[2]);
    assert_eq!(normalized.degree(), Some(0));

    let left = polynomial(&[1, 2, 1]);
    let right = polynomial(&[-1, 0, 1]);
    assert_integer_coefficients(&left.add(&right).unwrap(), &[0, 2, 2]);
    assert_integer_coefficients(&left.sub(&left).unwrap(), &[]);
    assert_integer_coefficients(&left.mul(&right).unwrap(), &[-1, -2, 0, 2, 1]);
    assert_integer_coefficients(&left.derivative().unwrap(), &[2, 2]);
    assert_eq!(left.evaluate_bigint(&integer(2)).unwrap(), integer(9));
    assert_integer_coefficients(&left.compose(&polynomial(&[1, 1])).unwrap(), &[4, 4, 1]);
}

#[test]
fn rational_division_and_gcd_use_monic_normal_form() {
    let dividend = RationalPolynomial::from_coefficients(vec![
        rational(-1, 1),
        rational(0, 1),
        rational(1, 1),
    ]);
    let divisor = RationalPolynomial::from_coefficients(vec![rational(-1, 1), rational(1, 1)]);
    let (quotient, remainder) = dividend.div_rem(&divisor).unwrap();
    assert!(remainder.is_zero());
    assert_eq!(quotient.coefficients(), [rational(1, 1), rational(1, 1)]);

    let repeated = RationalPolynomial::from_coefficients(vec![
        rational(1, 1),
        rational(-2, 1),
        rational(1, 1),
    ]);
    assert_eq!(
        dividend.gcd(&repeated).unwrap().coefficients(),
        [rational(-1, 1), rational(1, 1)]
    );
}

#[test]
fn square_free_removes_content_sign_and_repeated_factor() {
    let candidate = polynomial(&[0, -2, 4, -2]).candidate().unwrap();
    let square_free = candidate.square_free().unwrap();
    assert_integer_coefficients(square_free.polynomial(), &[0, -1, 1]);
}

#[test]
fn zero_and_constant_polynomials_are_not_candidates() {
    assert!(Polynomial::zero().candidate().is_err());
    assert!(polynomial(&[3]).candidate().is_err());
    assert!(polynomial(&[3, 1]).candidate().is_ok());
}

#[test]
fn primitive_part_divides_by_the_content_and_makes_the_leading_coefficient_positive() {
    let value = polynomial(&[4, -6, 2]);
    assert_integer_coefficients(&value.primitive_part().unwrap(), &[2, -3, 1]);
    let negative = polynomial(&[-4, -2]);
    assert_integer_coefficients(&negative.primitive_part().unwrap(), &[2, 1]);
    assert!(Polynomial::zero().primitive_part().unwrap().is_zero());
}

#[test]
fn rational_conversion_keeps_every_coefficient() {
    let value = polynomial(&[3, 0, -1]);
    let converted = value.to_rational().unwrap();
    assert_eq!(
        converted.coefficients(),
        [rational(3, 1), rational(0, 1), rational(-1, 1)]
    );
    let halves = RationalPolynomial::from_coefficients(vec![rational(1, 2), rational(3, 4)]);
    assert_integer_coefficients(&halves.to_primitive_integer().unwrap(), &[2, 3]);
}

#[test]
fn rational_division_by_zero_polynomial_fails() {
    let dividend = RationalPolynomial::from_coefficients(vec![rational(1, 1), rational(1, 1)]);
    let zero = RationalPolynomial::from_coefficients(Vec::new());
    assert!(dividend.div_rem(&zero).is_err());
}
