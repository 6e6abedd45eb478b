use neco::error::BigintError;
use neco::natural::{
    checked_result_limb_count, multiplication_result_limb_count, subtraction_result_limb_count,
    BigUint,
};

fn limbs(values: &[u32]) -> BigUint {
    BigUint::from_limbs_le(values.to_vec()).expect("valid test limbs")
}

fn uint(value: u32) -> BigUint {
    BigUint::try_from(value).expect("small test integer")
}

#[test]
fn required_length_accepts_a_result_at_the_virtual_limit() {
    assert_eq!(checked_result_limb_count(3, 0, 3), Ok(3));
    assert_eq!(
        checked_result_limb_count(3, 1, 3),
        Err(BigintError::CapacityOverflow)
    );
    assert_eq!(checked_result_limb_count(2, 1, 3), Ok(3));
}

#[test]
fn arithmetic_prepass_reports_normalized_result_lengths() {
    assert_eq!(subtraction_result_limb_count(&[0, 0, 1], &[1]), 2);
    assert_eq!(subtraction_result_limb_count(&[7], &[7]), 0);
    assert_eq!(multiplication_result_limb_count(&[1], &[1]), Ok(1));
    assert_eq!(multiplication_result_limb_count(&[1, 1], &[1, 1]), Ok(3));
    assert_eq!(
        multiplication_result_limb_count(&[u32::MAX, u32::MAX], &[u32::MAX, u32::MAX]),
        Ok(4)
    );
}

#[test]
fn division_vector() {
    let seven = BigUint::try_from(7_u32).unwrap();
    let three = BigUint::try_from(3_u32).unwrap();
    let (quotient, remainder) = seven.div_rem(&three).unwrap();
    assert_eq!(quotient.to_u32(), Some(2));
    assert_eq!(remainder.to_u32(), Some(1));
}

#[test]
fn shifts_bits_and_lengths_have_exact_values() {
    let value = limbs(&[0x8000_0001, 0x3]);
    assert_eq!(value.bit_len(), 34);
    assert!(value.bit(0));
    assert!(!value.bit(1));
    assert!(value.bit(31));
    assert!(value.bit(33));
    assert!(!value.bit(34));
    assert!(!value.bit(1000));
    assert_eq!(value.shr_bits(31).unwrap().limbs_le(), &[7]);
    assert_eq!(value.shr_bits(64).unwrap().limbs_le(), &[] as &[u32]);
    assert_eq!(uint(5).shl_bits(0).unwrap(), uint(5));
    assert_eq!(BigUint::zero().bit_len(), 0);
}

#[test]
fn gcd_lcm_and_powers_match_integer_values() {
    assert_eq!(uint(30).gcd(&uint(21)).unwrap(), uint(3));
    assert_eq!(uint(0).gcd(&uint(9)).unwrap(), uint(9));
    assert_eq!(uint(0).gcd(&uint(0)).unwrap(), uint(0));
    assert_eq!(uint(4).lcm(&uint(6)).unwrap(), uint(12));
    assert_eq!(uint(0).lcm(&uint(6)).unwrap(), uint(0));
    assert_eq!(uint(3).pow_u32(5).unwrap(), uint(243));
    assert_eq!(uint(7).pow_u32(0).unwrap(), uint(1));
    assert_eq!(
        uint(2).pow_u32(64).unwrap().limbs_le(),
        &[0, 0, 1]
    );
    assert_eq!(uint(12).exact_div(&uint(4)).unwrap(), uint(3));
    assert_eq!(uint(13).exact_div(&uint(4)), Err(BigintError::NonExactDivision));
    assert_eq!(uint(13).exact_div(&uint(0)), Err(BigintError::DivisionByZero));
    assert_eq!(uint(13).div_rem(&uint(0)), Err(BigintError::DivisionByZero));
}
