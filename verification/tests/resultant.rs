use neco::resultant::{determinant, inversion_is_odd, next_permutation, resultant};
use neco::{BigInt, Polynomial, Sign};

fn polynomial(coefficients: &[i32]) -> Polynomial {
    Polynomial::from_coefficients(
        coefficients
            .iter()
            .map(|value| BigInt::try_from(*value).expect("small coefficient"))
            .collect(),
    )
}

fn constant(value: i32) -> Polynomial {
    polynomial(&[value])
}

#[test]
fn sylvester_vectors_have_the_required_values() {
    let first = resultant(
        &[constant(-2), Polynomial::zero(), constant(1)],
        &[constant(-1), constant(1)],
    )
    .expect("resultant");
    assert_eq!(first, constant(-1));

    let shifted = resultant(
        &[constant(1), Polynomial::zero(), constant(1)],
        &[constant(1), constant(1)],
    )
    .expect("resultant");
    assert_eq!(shifted, constant(2));

    let symbolic = resultant(
        &[polynomial(&[0, -1]), constant(1)],
        &[constant(-1), constant(1)],
    )
    .expect("symbolic resultant");
    assert_eq!(symbolic, polynomial(&[-1, 1]));
}

#[test]
fn leibniz_formula_visits_all_six_terms() {
    let matrix = [1, 2, 3, 4, 5, 6, 7, 8, 10]
        .map(constant)
        .into_iter()
        .collect::<Vec<_>>();
    assert_eq!(determinant(&matrix, 3).expect("determinant"), constant(-3));

    let mut permutation = vec![0, 1, 2];
    for expected in [
        vec![0, 2, 1],
        vec![1, 0, 2],
        vec![1, 2, 0],
        vec![2, 0, 1],
        vec![2, 1, 0],
    ] {
        assert!(next_permutation(&mut permutation));
        assert_eq!(permutation, expected);
    }
    assert!(!next_permutation(&mut permutation));
}

#[test]
fn constant_and_zero_inputs_follow_the_defined_branches() {
    let positive_degree = [constant(1), constant(1)];
    assert_eq!(
        resultant(&[constant(3)], &positive_degree).expect("left constant"),
        constant(3)
    );
    assert_eq!(
        resultant(&positive_degree, &[constant(3)]).expect("right constant"),
        constant(3)
    );
    assert_eq!(
        resultant(&[constant(2)], &[constant(3)]).expect("two constants"),
        constant(1)
    );
    assert!(resultant(&[], &positive_degree)
        .expect("zero polynomial")
        .is_zero());
}

#[test]
fn trailing_zero_coefficients_do_not_change_the_resultant() {
    let padded = resultant(
        &[constant(-2), Polynomial::zero(), constant(1), Polynomial::zero()],
        &[constant(-1), constant(1), Polynomial::zero()],
    )
    .expect("resultant");
    assert_eq!(padded, constant(-1));
}

#[test]
fn constant_coefficient_is_raised_to_the_other_degree() {
    let cubic = [constant(1), constant(0), constant(0), constant(1)];
    assert_eq!(
        resultant(&[polynomial(&[1, 1])], &cubic).expect("power"),
        polynomial(&[1, 3, 3, 1])
    );
}

#[test]
fn determinant_of_polynomial_entries_and_of_nothing() {
    let matrix = vec![
        polynomial(&[1]),
        polynomial(&[0, 0, 1]),
        polynomial(&[0, 0, 0, 1]),
        polynomial(&[1]),
    ];
    assert_eq!(
        determinant(&matrix, 2).unwrap(),
        polynomial(&[1, 0, 0, 0, 0, -1])
    );
    assert_eq!(determinant(&[], 0).unwrap(), constant(1));
    let zero_matrix = vec![
        Polynomial::zero(),
        Polynomial::zero(),
        Polynomial::zero(),
        Polynomial::zero(),
    ];
    assert!(determinant(&zero_matrix, 2).unwrap().is_zero());
}

#[test]
fn inversion_parity_counts_out_of_order_pairs() {
    assert!(!inversion_is_odd(&vec![0, 1, 2]));
    assert!(inversion_is_odd(&vec![0, 2, 1]));
    assert!(!inversion_is_odd(&vec![1, 2, 0]));
    assert!(inversion_is_odd(&vec![2, 1, 0]));
    assert!(!inversion_is_odd(&Vec::new()));
}

#[test]
fn next_permutation_of_repeated_values_skips_duplicates() {
    let mut values = vec![0, 0, 1];
    assert!(next_permutation(&mut values));
    assert_eq!(values, vec![0, 1, 0]);
    assert!(next_permutation(&mut values));
    assert_eq!(values, vec![1, 0, 0]);
    assert!(!next_permutation(&mut values));
    assert_eq!(values, vec![1, 0, 0]);
    let mut single = vec![4];
    assert!(!next_permutation(&mut single));
}

#[test]
fn repeated_resultant_candidate_is_square_free_before_root_selection() {
    let square_free = polynomial(&[0, 0, 1])
        .candidate()
        .unwrap()
        .square_free()
        .unwrap();
    assert_eq!(square_free.polynomial().degree(), Some(1));
    assert_eq!(
        square_free.polynomial().coefficients()[0].sign(),
        Sign::Zero
    );
    assert_eq!(
        square_free.polynomial().coefficients()[1]
            .magnitude()
            .to_u32(),
        Some(1)
    );
}

#[test]
fn square_free_conversion_removes_the_quotient_content() {
    let square_free = polynomial(&[1, 4, 4])
        .candidate()
        .unwrap()
        .square_free()
        .unwrap();
    assert_eq!(square_free.polynomial(), &polynomial(&[1, 2]));
}
