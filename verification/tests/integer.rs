use neco::{BigInt, BigUint, BigintError, Sign};

fn integer_value(value: i64) -> BigInt {
    BigInt::try_from(value).unwrap()
}

#[test]
fn negative_division_is_euclidean() {
    let dividend = BigInt::try_from(-7_i32).unwrap();
    let divisor = BigInt::try_from(3_i32).unwrap();
    let (quotient, remainder) = dividend.div_rem_euclid(&divisor).unwrap();
    assert_eq!(quotient.sign(), Sign::Negative);
    assert_eq!(quotient.magnitude().to_u32(), Some(3));
    assert_eq!(remainder.to_u32(), Some(2));
}

#[test]
fn bezout_vector() {
    let left = BigInt::try_from(30_i32).unwrap();
    let right = BigInt::try_from(21_i32).unwrap();
    let result = left.extended_gcd(&right).unwrap();
    assert_eq!(result.gcd().to_u32(), Some(3));
    let value = left
        .mul(result.x())
        .unwrap()
        .add(&right.mul(result.y()).unwrap())
        .unwrap();
    assert_eq!(value, BigInt::try_from(3_i32).unwrap());
}

#[test]
fn euclidean_division_by_a_negative_divisor_keeps_the_remainder_nonnegative() {
    let (quotient, remainder) = integer_value(-7).div_rem_euclid(&integer_value(-3)).unwrap();
    assert_eq!(quotient, integer_value(3));
    assert_eq!(remainder.to_u32(), Some(2));
    let (quotient, remainder) = integer_value(7).div_rem_euclid(&integer_value(-3)).unwrap();
    assert_eq!(quotient, integer_value(-2));
    assert_eq!(remainder.to_u32(), Some(1));
    let (quotient, remainder) = integer_value(-6).div_rem_euclid(&integer_value(3)).unwrap();
    assert_eq!(quotient, integer_value(-2));
    assert!(remainder.is_zero());
    assert_eq!(
        integer_value(5).div_rem_euclid(&BigInt::zero()),
        Err(BigintError::DivisionByZero)
    );
}

#[test]
fn exact_division_keeps_the_product_sign_and_rejects_remainders() {
    assert_eq!(integer_value(-12).exact_div(&integer_value(4)).unwrap(), integer_value(-3));
    assert_eq!(integer_value(-12).exact_div(&integer_value(-4)).unwrap(), integer_value(3));
    assert_eq!(integer_value(7).exact_div(&integer_value(2)), Err(BigintError::NonExactDivision));
    assert_eq!(integer_value(7).exact_div(&integer_value(0)), Err(BigintError::DivisionByZero));
}

#[test]
fn powers_and_signs_of_integers() {
    assert_eq!(integer_value(-2).pow_u32(3).unwrap(), integer_value(-8));
    assert_eq!(integer_value(-2).pow_u32(4).unwrap(), integer_value(16));
    assert_eq!(integer_value(0).pow_u32(0).unwrap(), integer_value(1));
    assert_eq!(integer_value(0).pow_u32(5).unwrap(), integer_value(0));
    assert_eq!(integer_value(-5).negated().unwrap(), integer_value(5));
    assert_eq!(integer_value(-5).abs().unwrap(), BigUint::try_from(5_u32).unwrap());
    assert_eq!(integer_value(i64::MIN).magnitude().limbs_le(), &[0, 0x8000_0000]);
}

#[test]
fn integer_sum_difference_and_order() {
    assert_eq!(integer_value(-5).add(&integer_value(3)).unwrap(), integer_value(-2));
    assert_eq!(integer_value(5).sub(&integer_value(8)).unwrap(), integer_value(-3));
    assert_eq!(integer_value(-5).add(&integer_value(5)).unwrap(), BigInt::zero());
    assert_eq!(integer_value(-5).cmp(&integer_value(-3)), core::cmp::Ordering::Less);
    assert_eq!(integer_value(2).cmp(&integer_value(-3)), core::cmp::Ordering::Greater);
    assert!(integer_value(-1) < integer_value(0));
    assert_eq!(
        BigInt::from_sign_magnitude(Sign::Zero, BigUint::try_from(4_u32).unwrap()),
        integer_value(4)
    );
}

#[test]
fn extended_gcd_with_negative_operands_keeps_the_bezout_identity() {
    let left = integer_value(-30);
    let right = integer_value(21);
    let result = left.extended_gcd(&right).unwrap();
    assert_eq!(result.gcd().to_u32(), Some(3));
    let value = left
        .mul(result.x())
        .unwrap()
        .add(&right.mul(result.y()).unwrap())
        .unwrap();
    assert_eq!(value, integer_value(3));
    let copy = result.try_clone().unwrap();
    assert_eq!(copy, result);
}
