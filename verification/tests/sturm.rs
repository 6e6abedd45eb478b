use neco::sturm::{
    initial_search_exponent, is_isolated_root_count, next_search_exponent,
    primitive_integer_preserving_sign, SturmSequence,
};
use neco::{AlgnumError, BigInt, Dyadic, Polynomial, RationalPolynomial};

fn integer(value: i32) -> BigInt {
    BigInt::try_from(value).unwrap()
}

fn dyadic(value: i32) -> Dyadic {
    Dyadic::new(integer(value), 0)
}

#[test]
fn primitive_conversion_preserves_a_negative_leading_coefficient() {
    let polynomial = Polynomial::from_coefficients(vec![integer(1), integer(-2)]);
    let rational = RationalPolynomial::from_integer(&polynomial).unwrap();
    assert_eq!(
        primitive_integer_preserving_sign(&rational).unwrap(),
        polynomial
    );
}

#[test]
fn ordinary_split_uses_the_exact_dyadic_midpoint() {
    let polynomial = Polynomial::from_coefficients(vec![integer(-2), integer(0), integer(1)]);
    let sequence = SturmSequence::new(&polynomial).unwrap();
    let children = sequence.split_interval(dyadic(-2), dyadic(2), 2).unwrap();
    assert_eq!(children.len(), 2);
    assert_eq!(children[0].1, dyadic(0));
    assert_eq!(children[1].0, dyadic(0));
}

#[test]
fn split_refuses_a_wrong_total_and_reversed_ends() {
    let polynomial = Polynomial::from_coefficients(vec![integer(-2), integer(0), integer(1)]);
    let sequence = SturmSequence::new(&polynomial).unwrap();
    assert_eq!(
        sequence.split_interval(dyadic(-2), dyadic(2), 1),
        Err(AlgnumError::NoTargetRoot)
    );
    assert_eq!(
        sequence.split_interval(dyadic(2), dyadic(-2), 2),
        Err(AlgnumError::InvalidIsolation)
    );
}

#[test]
fn midpoint_root_search_advances_one_exponent_at_a_time() {
    assert_eq!(initial_search_exponent(), 1);
    assert_eq!(next_search_exponent(1), Some(2));
    assert_eq!(next_search_exponent(u32::MAX), None);
}

#[test]
fn only_one_root_marks_an_interval_as_isolated() {
    assert!(!is_isolated_root_count(0));
    assert!(is_isolated_root_count(1));
    assert!(!is_isolated_root_count(2));
}

#[test]
fn root_counts_follow_sign_variations() {
    let cubic =
        Polynomial::from_coefficients(vec![integer(0), integer(-1), integer(0), integer(1)]);
    let sequence = SturmSequence::new(&cubic).unwrap();
    assert_eq!(sequence.root_count(&dyadic(-2), &dyadic(2)).unwrap(), 3);
    assert_eq!(
        sequence
            .root_count(&Dyadic::new(integer(1), 1), &dyadic(2))
            .unwrap(),
        1
    );
    assert_eq!(
        sequence.root_count(&dyadic(1), &dyadic(2)),
        Err(AlgnumError::InvalidIsolation)
    );
    assert_eq!(
        sequence.root_count(&dyadic(2), &dyadic(-2)),
        Err(AlgnumError::InvalidIsolation)
    );
    assert!(sequence.is_root(&dyadic(0)).unwrap());
    assert!(!sequence.is_root(&dyadic(3)).unwrap());
    assert_eq!(sequence.variations_at(&dyadic(-2)).unwrap(), 3);
    assert_eq!(sequence.variations_at(&dyadic(2)).unwrap(), 0);
}

#[test]
fn constant_polynomials_have_no_sturm_sequence() {
    assert_eq!(
        SturmSequence::new(&Polynomial::zero()),
        Err(AlgnumError::ZeroPolynomial)
    );
    assert_eq!(
        SturmSequence::new(&Polynomial::from_coefficients(vec![integer(5)])),
        Err(AlgnumError::ZeroPolynomial)
    );
}

#[test]
fn a_root_at_the_midpoint_is_split_around() {
    let cubic =
        Polynomial::from_coefficients(vec![integer(0), integer(-1), integer(0), integer(1)]);
    let sequence = SturmSequence::new(&cubic).unwrap();
    let children = sequence.split_interval(dyadic(-2), dyadic(2), 3).unwrap();
    assert_eq!(children.len(), 3);
    assert_eq!(children[1].0, Dyadic::new(integer(-1), 1));
    assert_eq!(children[1].1, Dyadic::new(integer(1), 1));
    assert_eq!(children[1].2, 1);
    assert_eq!(children[0].2 + children[2].2, 2);
}

#[test]
fn root_bound_rounds_a_noninteger_coefficient_ratio_upward() {
    let polynomial = Polynomial::from_coefficients(vec![integer(-3), integer(2)]);
    let sequence = SturmSequence::new(&polynomial).unwrap();
    assert_eq!(
        sequence.initial_interval().unwrap(),
        (dyadic(-3), dyadic(3))
    );
}

#[test]
fn root_bound_moves_past_an_endpoint_root() {
    let polynomial = Polynomial::from_coefficients(vec![integer(-1), integer(1)]);
    let sequence = SturmSequence::new(&polynomial).unwrap();
    assert_eq!(
        sequence.nonroot_interval_from_bound(integer(1)).unwrap(),
        (dyadic(-2), dyadic(2))
    );
}

#[test]
fn root_bound_of_a_cubic_skips_past_integer_roots() {
    // x^3 - x: coefficients over the leading one give 1, so the search starts at 2.
    let polynomial = Polynomial::from_coefficients(vec![integer(0), integer(-1), integer(0), integer(1)]);
    let sequence = SturmSequence::new(&polynomial).unwrap();
    assert_eq!(sequence.initial_interval().unwrap(), (dyadic(-2), dyadic(2)));
    assert_eq!(
        sequence.nonroot_interval_from_bound(integer(-1)).unwrap(),
        (dyadic(-2), dyadic(2))
    );
    assert_eq!(
        sequence.nonroot_interval_from_bound(integer(0)).unwrap(),
        (dyadic(-2), dyadic(2))
    );
}

#[test]
fn isolates_three_roots_in_ascending_order() {
    let polynomial =
        Polynomial::from_coefficients(vec![integer(0), integer(-1), integer(0), integer(1)]);
    let sequence = SturmSequence::new(&polynomial).unwrap();
    let roots = sequence.isolate_real_roots().unwrap();
    assert_eq!(roots.len(), 3);
    assert_eq!(roots[0].index, 0);
    assert_eq!(roots[1].index, 1);
    assert_eq!(roots[2].index, 2);
    assert!(roots[0].enclosure.upper() <= roots[1].enclosure.lower());
    assert!(roots[1].enclosure.upper() <= roots[2].enclosure.lower());
}

#[test]
fn construction_interval_distinguishes_all_invalid_cases() {
    let polynomial = Polynomial::from_coefficients(vec![integer(-1), integer(0), integer(1)]);
    let sequence = SturmSequence::new(&polynomial).unwrap();
    assert_eq!(
        sequence.certify_root(dyadic(1), dyadic(2)),
        Err(AlgnumError::InvalidIsolation)
    );
    assert_eq!(
        sequence.root_count(&dyadic(1), &dyadic(2)),
        Err(AlgnumError::InvalidIsolation)
    );
    assert_eq!(
        sequence.certify_root(dyadic(2), dyadic(3)),
        Err(AlgnumError::NoTargetRoot)
    );
    assert_eq!(
        sequence.certify_root(dyadic(-2), dyadic(2)),
        Err(AlgnumError::MultipleTargetRoots)
    );
}

#[test]
fn refinement_preserves_the_selected_root() {
    let polynomial = Polynomial::from_coefficients(vec![integer(-2), integer(0), integer(1)]);
    let sequence = SturmSequence::new(&polynomial).unwrap();
    let root = sequence.certify_root(dyadic(1), dyadic(2)).unwrap();
    assert_eq!(sequence.refine(&root.enclosure, 0).unwrap(), root.enclosure);
    let refined = sequence.refine(&root.enclosure, 16).unwrap();
    assert_eq!(
        sequence
            .root_count(refined.lower(), refined.upper())
            .unwrap(),
        1
    );
    assert!(refined.width().unwrap() <= Dyadic::new(integer(1), 16));
}

#[test]
fn certified_root_reports_its_position_and_reversed_ends_are_refused() {
    let polynomial = Polynomial::from_coefficients(vec![integer(-2), integer(0), integer(1)]);
    let sequence = SturmSequence::new(&polynomial).unwrap();
    let negative = sequence.certify_root(dyadic(-2), dyadic(-1)).unwrap();
    assert_eq!(negative.index, 0);
    let positive = sequence.certify_root(dyadic(1), dyadic(2)).unwrap();
    assert_eq!(positive.index, 1);
    assert!(dyadic(1) <= *positive.enclosure.lower());
    assert!(*positive.enclosure.upper() <= dyadic(2));
    assert_eq!(
        sequence.certify_root(dyadic(2), dyadic(1)),
        Err(AlgnumError::InvalidIsolation)
    );
    let roots = sequence.isolate_real_roots().unwrap();
    assert_eq!(roots.len(), 2);
}

#[test]
fn refinement_refuses_an_interval_without_one_root() {
    let polynomial = Polynomial::from_coefficients(vec![integer(-2), integer(0), integer(1)]);
    let sequence = SturmSequence::new(&polynomial).unwrap();
    let wide = neco::DyadicEnclosure::new(dyadic(-2), dyadic(2)).unwrap();
    assert_eq!(sequence.refine(&wide, 4), Err(AlgnumError::InvalidIsolation));
    let narrow = neco::DyadicEnclosure::new(dyadic(1), dyadic(2)).unwrap();
    let refined = sequence.refine(&narrow, 3).unwrap();
    assert!(refined.width().unwrap() <= Dyadic::new(integer(1), 3));
}
