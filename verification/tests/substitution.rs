use neco::substitution::{
    biguint_usize, constant_polynomial, constant_y_polynomial, monomial_polynomial,
    multiplication_substitution, reciprocal_polynomial, substitute_root_power,
    substitute_signed_x_signed_y, substitute_x_minus_y, substitute_y_minus_x,
};
use neco::{AlgnumError, BigInt, BigUint, Polynomial, RepresentationResource};

fn integer(value: i32) -> BigInt {
    BigInt::try_from(value).unwrap()
}

fn polynomial(values: &[i32]) -> Polynomial {
    Polynomial::from_coefficients(values.iter().copied().map(integer).collect())
}

#[test]
fn x_minus_y_expands_by_binomial_coefficients() {
    let cube = polynomial(&[0, 0, 0, 1]);
    let rows = substitute_x_minus_y(&cube).unwrap();
    assert_eq!(
        rows,
        vec![
            polynomial(&[0, 0, 0, 1]),
            polynomial(&[0, 0, -3]),
            polynomial(&[0, 3]),
            polynomial(&[-1]),
        ]
    );
}

#[test]
fn y_minus_x_negates_the_odd_powers_of_x() {
    let cube = polynomial(&[0, 0, 0, 1]);
    let rows = substitute_y_minus_x(&cube).unwrap();
    assert_eq!(
        rows,
        vec![
            polynomial(&[0, 0, 0, -1]),
            polynomial(&[0, 0, 3]),
            polynomial(&[0, -3]),
            polynomial(&[1]),
        ]
    );
}

#[test]
fn x_plus_y_of_a_general_polynomial() {
    let value = polynomial(&[1, 2, 1]);
    let rows = substitute_signed_x_signed_y(&value, false, false).unwrap();
    assert_eq!(
        rows,
        vec![polynomial(&[1, 2, 1]), polynomial(&[2, 2]), polynomial(&[1])]
    );
}

#[test]
fn multiplication_substitution_homogenizes() {
    let value = polynomial(&[2, 3, 5]);
    let rows = multiplication_substitution(&value).unwrap();
    assert_eq!(
        rows,
        vec![polynomial(&[0, 0, 5]), polynomial(&[0, 3]), polynomial(&[2])]
    );
    assert_eq!(
        multiplication_substitution(&Polynomial::zero()),
        Err(AlgnumError::ZeroPolynomial)
    );
}

#[test]
fn reciprocal_reverses_and_trims() {
    assert_eq!(
        reciprocal_polynomial(&polynomial(&[1, 2, 3])).unwrap(),
        polynomial(&[3, 2, 1])
    );
    assert_eq!(
        reciprocal_polynomial(&polynomial(&[0, 1])).unwrap(),
        polynomial(&[1])
    );
    assert!(reciprocal_polynomial(&Polynomial::zero()).unwrap().is_zero());
}

#[test]
fn root_power_spreads_the_coefficients() {
    assert_eq!(
        substitute_root_power(&polynomial(&[1, 2, 3]), 2).unwrap(),
        polynomial(&[1, 0, 2, 0, 3])
    );
    assert_eq!(
        substitute_root_power(&polynomial(&[1, 2, 3]), 1).unwrap(),
        polynomial(&[1, 2, 3])
    );
    assert_eq!(
        substitute_root_power(&polynomial(&[1, 2, 3]), 0).unwrap(),
        polynomial(&[3])
    );
    assert_eq!(
        substitute_root_power(&Polynomial::zero(), 3),
        Err(AlgnumError::ZeroPolynomial)
    );
}

#[test]
fn constants_and_monomials() {
    assert_eq!(constant_polynomial(&integer(7)).unwrap(), polynomial(&[7]));
    assert!(constant_polynomial(&integer(0)).unwrap().is_zero());
    assert_eq!(
        monomial_polynomial(3, integer(4)).unwrap(),
        polynomial(&[0, 0, 0, 4])
    );
    assert!(monomial_polynomial(3, integer(0)).unwrap().is_zero());
    assert_eq!(
        constant_y_polynomial(&polynomial(&[1, 0, 2])).unwrap(),
        vec![polynomial(&[1]), Polynomial::zero(), polynomial(&[2])]
    );
}

#[test]
fn usize_conversion_respects_the_resource_limit() {
    let five = BigUint::try_from(5_u32).unwrap();
    assert_eq!(
        biguint_usize(&five, RepresentationResource::CoefficientCount).unwrap(),
        5
    );
    let largest = BigUint::try_from(usize::MAX).unwrap();
    assert_eq!(
        biguint_usize(&largest, RepresentationResource::CoefficientCount).unwrap(),
        usize::MAX
    );
    assert!(matches!(
        biguint_usize(&largest, RepresentationResource::PolynomialDegree),
        Err(AlgnumError::RepresentationLimit { .. })
    ));
}
