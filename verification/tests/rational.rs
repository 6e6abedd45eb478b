use core::cmp::Ordering;

use neco::{BigInt, BigUint, BigintError, RawRational, ReducedRational, Sign};

fn integer(value: i32) -> BigInt {
    BigInt::try_from(value).unwrap()
}

fn natural(value: u32) -> BigUint {
    BigUint::try_from(value).unwrap()
}

fn rational(numerator: i32, denominator: u32) -> ReducedRational {
    RawRational::new(integer(numerator), natural(denominator))
        .reduce()
        .unwrap()
        .into_reduced()
}

#[test]
fn reduction_preserves_input_and_gcd() {
    let reduction = RawRational::new(integer(-6), natural(8)).reduce().unwrap();
    assert_eq!(reduction.input().numerator(), &integer(-6));
    assert_eq!(reduction.input().denominator(), &natural(8));
    assert_eq!(reduction.gcd(), &natural(2));
    assert_eq!(reduction.reduced().numerator(), &integer(-3));
    assert_eq!(reduction.reduced().denominator(), &natural(4));
}

#[test]
fn reduction_normalizes_zero_and_rejects_zero_denominator() {
    let zero = RawRational::new(integer(0), natural(7)).reduce().unwrap();
    assert_eq!(zero.gcd(), &natural(7));
    assert_eq!(zero.reduced().numerator(), &integer(0));
    assert_eq!(zero.reduced().denominator(), &natural(1));
    assert_eq!(
        RawRational::new(integer(1), BigUint::zero()).reduce(),
        Err(BigintError::ZeroDenominator)
    );
}

#[test]
fn arithmetic_reduces_results() {
    let one_half = rational(1, 2);
    let one_third = rational(1, 3);
    assert_eq!(one_half.add(&one_third).unwrap(), rational(5, 6));
    assert_eq!(one_half.sub(&one_third).unwrap(), rational(1, 6));
    assert_eq!(one_half.mul(&one_third).unwrap(), rational(1, 6));
    assert_eq!(one_half.div(&one_third).unwrap(), rational(3, 2));
    assert_eq!(
        one_half.div(&rational(0, 1)),
        Err(BigintError::DivisionByZero)
    );
}

#[test]
fn powers_include_negative_exponents() {
    let value = rational(-2, 3);
    assert_eq!(value.pow_i32(0).unwrap(), rational(1, 1));
    assert_eq!(value.pow_i32(3).unwrap(), rational(-8, 27));
    assert_eq!(value.pow_i32(-2).unwrap(), rational(9, 4));
    assert_eq!(value.pow_i32(-3).unwrap(), rational(-27, 8));
    assert_eq!(rational(0, 1).pow_i32(-1), Err(BigintError::DivisionByZero));
}

#[test]
fn integer_and_dyadic_rounding_use_euclidean_quotients() {
    let value = rational(-7, 3);
    assert_eq!(value.floor().unwrap(), integer(-3));
    assert_eq!(value.ceil().unwrap(), integer(-2));

    let floor = value.dyadic_floor(2).unwrap();
    let ceil = value.dyadic_ceil(2).unwrap();
    assert_eq!(floor.integer(), &integer(-5));
    assert_eq!(floor.exponent(), 1);
    assert_eq!(ceil.integer(), &integer(-9));
    assert_eq!(ceil.exponent(), 2);
}

#[test]
fn ordering_compares_cross_products_without_allocation() {
    assert_eq!(rational(2, 3).cmp(&rational(3, 4)), Ordering::Less);
    assert_eq!(rational(-2, 3).cmp(&rational(-3, 4)), Ordering::Greater);
    assert_eq!(rational(2, 4).cmp(&rational(1, 2)), Ordering::Equal);
    assert_eq!(rational(-1, 2).cmp(&rational(0, 1)), Ordering::Less);
    assert_eq!(integer(-1).sign(), Sign::Negative);
}

#[test]
fn reduced_forms_of_equal_values_are_identical() {
    assert_eq!(rational(6, 8), rational(-9, 12).mul(&rational(-1, 1)).unwrap());
    assert_eq!(rational(0, 5), rational(0, 1));
    assert_eq!(rational(10, 4).denominator(), &natural(2));
    assert!(rational(1, 3) < rational(1, 2));
}

#[test]
fn ordering_of_multi_limb_cross_products() {
    let big = ReducedRational::from_bigint(
        BigInt::from_sign_magnitude(
            Sign::Positive,
            BigUint::from_limbs_le(vec![5, 7, 9]).unwrap(),
        ),
    )
    .unwrap();
    let bigger = big.add(&rational(1, 3)).unwrap();
    assert_eq!(big.cmp(&bigger), Ordering::Less);
    assert_eq!(bigger.cmp(&big), Ordering::Greater);
    assert_eq!(big.cmp(&big.try_clone().unwrap()), Ordering::Equal);
}
