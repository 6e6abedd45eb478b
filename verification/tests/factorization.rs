use neco::factorization::{accepted_candidates, selected_factor};
use neco::{BigInt, IrreduciblePolynomial, Polynomial, Sign};

fn polynomial(values: &[i32]) -> Polynomial {
    Polynomial::from_coefficients(
        values
            .iter()
            .map(|value| BigInt::try_from(*value).unwrap())
            .collect(),
    )
}

fn coefficients(value: &Polynomial) -> Vec<(Sign, u32)> {
    value
        .coefficients()
        .iter()
        .map(|value| (value.sign(), value.magnitude().to_u32().unwrap()))
        .collect()
}

fn factor(values: &[i32]) -> Vec<IrreduciblePolynomial> {
    polynomial(values)
        .candidate()
        .unwrap()
        .square_free()
        .unwrap()
        .factor()
        .unwrap()
}

#[test]
fn required_quartic_factors_and_reconstructs_in_canonical_order() {
    let source = polynomial(&[6, 0, -5, 0, 1]);
    let factors = source
        .try_clone()
        .unwrap()
        .candidate()
        .unwrap()
        .square_free()
        .unwrap()
        .factor()
        .unwrap();
    assert_eq!(factors.len(), 2);
    assert_eq!(
        coefficients(factors[0].polynomial()),
        [(Sign::Negative, 3), (Sign::Zero, 0), (Sign::Positive, 1)]
    );
    assert_eq!(
        coefficients(factors[1].polynomial()),
        [(Sign::Negative, 2), (Sign::Zero, 0), (Sign::Positive, 1)]
    );
    assert_eq!(
        factors[0]
            .polynomial()
            .mul(factors[1].polynomial())
            .unwrap(),
        source
    );
}

#[test]
fn irreducible_and_recursive_factorizations_preserve_the_source() {
    let irreducible = polynomial(&[-2, 0, 1]);
    let factors = irreducible
        .try_clone()
        .unwrap()
        .candidate()
        .unwrap()
        .square_free()
        .unwrap()
        .factor()
        .unwrap();
    assert_eq!(factors.len(), 1);
    assert_eq!(factors[0].polynomial(), &irreducible);

    let source = polynomial(&[-6, 11, -6, 1]);
    let factors = source
        .try_clone()
        .unwrap()
        .candidate()
        .unwrap()
        .square_free()
        .unwrap()
        .factor()
        .unwrap();
    assert_eq!(factors.len(), 3);
    let mut product = Polynomial::one().unwrap();
    for factor in factors {
        product = product.mul(factor.polynomial()).unwrap();
    }
    assert_eq!(product, source);
}

#[test]
fn equal_degree_factors_use_highest_degree_coefficients_first() {
    let source = polynomial(&[2, 5, 2]);
    let factors = source
        .candidate()
        .unwrap()
        .square_free()
        .unwrap()
        .factor()
        .unwrap();

    assert_eq!(factors.len(), 2);
    assert_eq!(
        coefficients(factors[0].polynomial()),
        [(Sign::Positive, 2), (Sign::Positive, 1)]
    );
    assert_eq!(
        coefficients(factors[1].polynomial()),
        [(Sign::Positive, 1), (Sign::Positive, 2)]
    );
}

#[test]
fn complete_enumeration_factors_the_required_quartic() {
    let factors = factor(&[6, 0, -5, 0, 1]);
    assert_eq!(factors.len(), 2);
    assert_eq!(factors[0].polynomial(), &polynomial(&[-3, 0, 1]));
    assert_eq!(factors[1].polynomial(), &polynomial(&[-2, 0, 1]));

    assert_eq!(factor(&[-2, 0, 1]).len(), 1);
}

#[test]
fn final_order_distinguishes_non_monic_linear_factors() {
    let factors = factor(&[2, 5, 2]);
    assert_eq!(factors.len(), 2);
    assert_eq!(factors[0].polynomial(), &polynomial(&[2, 1]));
    assert_eq!(factors[1].polynomial(), &polynomial(&[1, 2]));
}

#[test]
fn f0_factorization_vectors_match_all_terminal_coefficients() {
    let factors = factor(&[6, 0, -5, 0, 1]);
    assert_eq!(
        coefficients(factors[0].polynomial()),
        [(Sign::Negative, 3), (Sign::Zero, 0), (Sign::Positive, 1)]
    );
    assert_eq!(
        coefficients(factors[1].polynomial()),
        [(Sign::Negative, 2), (Sign::Zero, 0), (Sign::Positive, 1)]
    );

    let factors = factor(&[-2, 0, 1]);
    assert_eq!(factors.len(), 1);
    assert_eq!(
        coefficients(factors[0].polynomial()),
        [(Sign::Negative, 2), (Sign::Zero, 0), (Sign::Positive, 1)]
    );
}

#[test]
fn factors_of_a_product_of_linear_and_quadratic_terms() {
    // (x + 1)(x^2 + 1)(2x - 3) = 2x^4 - x^3 - x^2 - x - 3
    let factors = factor(&[-3, -1, -1, -1, 2]);
    assert_eq!(factors.len(), 3);
    assert_eq!(factors[0].polynomial(), &polynomial(&[1, 1]));
    assert_eq!(factors[1].polynomial(), &polynomial(&[-3, 2]));
    assert_eq!(factors[2].polynomial(), &polynomial(&[1, 0, 1]));
    let mut product = Polynomial::one().unwrap();
    for value in &factors {
        product = product.mul(value.polynomial()).unwrap();
    }
    assert_eq!(product, polynomial(&[-3, -1, -1, -1, 2]));
}

#[test]
fn linear_polynomial_is_its_own_factor() {
    let factors = factor(&[3, 2]);
    assert_eq!(factors.len(), 1);
    assert_eq!(factors[0].polynomial(), &polynomial(&[3, 2]));
    let copy = factors[0].try_clone().unwrap();
    assert_eq!(copy, factors[0]);
}

#[test]
fn selection_takes_the_least_candidate_of_the_least_degree() {
    let value = polynomial(&[6, 0, -5, 0, 1]);
    assert!(selected_factor(&polynomial(&[1, 1])).unwrap().is_none());
    assert!(selected_factor(&Polynomial::zero()).unwrap().is_none());
    assert_eq!(selected_factor(&value).unwrap(), Some(polynomial(&[-3, 0, 1])));
    assert!(accepted_candidates(&value, 1).unwrap().is_empty());
    let quadratics = accepted_candidates(&value, 2).unwrap();
    assert!(quadratics.contains(&polynomial(&[-3, 0, 1])));
    assert!(quadratics.contains(&polynomial(&[-2, 0, 1])));
    for (index, candidate) in quadratics.iter().enumerate() {
        assert!(!quadratics[..index].contains(candidate));
        assert!(value.is_exactly_divisible_by(candidate).unwrap());
    }
}

#[test]
fn linear_candidates_of_a_quadratic_with_integer_roots() {
    let value = polynomial(&[-2, 1, 1]);
    let linear = accepted_candidates(&value, 1).unwrap();
    assert_eq!(linear.len(), 2);
    assert!(linear.contains(&polynomial(&[-1, 1])));
    assert!(linear.contains(&polynomial(&[2, 1])));
    assert_eq!(selected_factor(&value).unwrap(), Some(polynomial(&[-1, 1])));
}
