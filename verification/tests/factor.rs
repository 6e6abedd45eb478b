use core::cmp::Ordering;

use neco::factor::{
    candidate_degree_allowed, cartesian_start, compare_polynomials, integer_point,
    kronecker_points, next_cartesian_digits, select_minimum_candidate, signed_divisors,
};
use neco::interpolation::interpolate_integer_candidate;
use neco::{AlgnumError, BigInt, BigUint, BigintError, Polynomial, Sign};

fn polynomial(coefficients: &[i32]) -> Polynomial {
    Polynomial::from_coefficients(
        coefficients
            .iter()
            .map(|value| BigInt::try_from(*value).expect("small test coefficient"))
            .collect(),
    )
}

fn integer(value: &BigInt) -> i32 {
    let magnitude = value.magnitude().to_u32().expect("small test magnitude") as i32;
    if value.sign() == Sign::Negative {
        -magnitude
    } else {
        magnitude
    }
}

#[test]
fn divisors_are_complete_and_have_the_required_order() {
    let value = BigInt::try_from(12_i32).expect("small integer");
    let divisors = signed_divisors(&value).expect("divisors");
    assert_eq!(
        divisors.iter().map(integer).collect::<Vec<_>>(),
        [1, -1, 2, -2, 3, -3, 4, -4, 6, -6, 12, -12]
    );
    let square = BigInt::try_from(9_i32).expect("small square");
    assert_eq!(
        signed_divisors(&square)
            .expect("square divisors")
            .iter()
            .map(integer)
            .collect::<Vec<_>>(),
        [1, -1, 3, -3, 9, -9]
    );
}

#[test]
fn divisors_of_negative_one_and_zero() {
    let negative = BigInt::try_from(-10_i32).expect("small integer");
    assert_eq!(
        signed_divisors(&negative)
            .expect("divisors")
            .iter()
            .map(integer)
            .collect::<Vec<_>>(),
        [1, -1, 2, -2, 5, -5, 10, -10]
    );
    let one = BigInt::try_from(1_i32).expect("one");
    assert_eq!(
        signed_divisors(&one)
            .expect("divisors")
            .iter()
            .map(integer)
            .collect::<Vec<_>>(),
        [1, -1]
    );
    assert!(signed_divisors(&BigInt::zero()).expect("zero").is_empty());
    let prime = BigInt::try_from(13_i32).expect("prime");
    assert_eq!(signed_divisors(&prime).expect("divisors").len(), 4);
}

#[test]
fn candidate_selection_considers_later_lexicographic_minimum() {
    let selected = select_minimum_candidate(vec![polynomial(&[2, 1]), polynomial(&[1, 1])])
        .expect("candidate");
    assert_eq!(selected, polynomial(&[1, 1]));
}

#[test]
fn candidate_degree_rejects_zero_and_the_first_excess_degree() {
    assert!(!candidate_degree_allowed(0, 1));
    assert!(candidate_degree_allowed(1, 1));
    assert!(!candidate_degree_allowed(2, 1));
}

#[test]
fn empty_candidate_list_selects_nothing() {
    assert!(select_minimum_candidate(Vec::new()).is_none());
}

#[test]
fn selection_keeps_the_first_of_equal_minima() {
    let selected = select_minimum_candidate(vec![
        polynomial(&[5, 1]),
        polynomial(&[-1, 1]),
        polynomial(&[3, 1]),
        polynomial(&[-1, 1]),
    ])
    .expect("candidate");
    assert_eq!(selected, polynomial(&[-1, 1]));
}

#[test]
fn comparison_reads_coefficients_from_the_highest_degree() {
    assert_eq!(
        compare_polynomials(&polynomial(&[9, 1]), &polynomial(&[0, 2])),
        Ordering::Less
    );
    assert_eq!(
        compare_polynomials(&polynomial(&[1, 2]), &polynomial(&[2, 2])),
        Ordering::Less
    );
    assert_eq!(
        compare_polynomials(&polynomial(&[1, 2]), &polynomial(&[1, 2])),
        Ordering::Equal
    );
    assert_eq!(
        compare_polynomials(&polynomial(&[1, 1, 1]), &polynomial(&[5, 5])),
        Ordering::Less
    );
    assert_eq!(
        compare_polynomials(&polynomial(&[1, 2]), &polynomial(&[5, 1])),
        Ordering::Greater
    );
    assert_eq!(
        compare_polynomials(&polynomial(&[5]), &polynomial(&[1, 5])),
        Ordering::Less
    );
}

#[test]
fn point_sequence_skips_exact_zeros() {
    let value = polynomial(&[0, -1, 1]);
    let (points, evaluations) = kronecker_points(&value, 1).expect("point search");
    assert_eq!(points.iter().map(integer).collect::<Vec<_>>(), [-1, 2]);
    assert_eq!(evaluations.iter().map(integer).collect::<Vec<_>>(), [2, 2]);
}

#[test]
fn point_sequence_alternates_signs() {
    let mut index = BigUint::zero();
    let one = BigUint::one().unwrap();
    let mut seen = Vec::new();
    for _ in 0..6 {
        seen.push(integer(&integer_point(&index).unwrap()));
        index = index.add(&one).unwrap();
    }
    assert_eq!(seen, [0, 1, -1, 2, -2, 3]);
}

#[test]
fn exact_division_over_the_integers() {
    let product = polynomial(&[-2, 1, 1]);
    let factor = polynomial(&[-1, 1]);
    assert_eq!(product.exact_div(&factor).unwrap(), polynomial(&[2, 1]));
    assert!(product.is_exactly_divisible_by(&factor).unwrap());
    assert!(!product.is_exactly_divisible_by(&polynomial(&[1, 1])).unwrap());
    assert!(product.exact_div(&polynomial(&[1, 1])).is_err());
    assert!(polynomial(&[1, 0, 1]).exact_div(&polynomial(&[0, 2])).is_err());
}

fn integers(values: &[i32]) -> Vec<BigInt> {
    values
        .iter()
        .map(|value| BigInt::try_from(*value).expect("small integer"))
        .collect()
}

#[test]
fn cartesian_product_changes_the_last_digit_first() {
    let columns = [
        vec![BigInt::zero(), BigInt::zero()],
        vec![BigInt::zero(), BigInt::zero(), BigInt::zero()],
    ];
    let mut tuples = Vec::new();
    let mut digits = cartesian_start(&columns)
        .expect("cartesian product")
        .expect("nonempty columns");
    loop {
        tuples.push(digits.clone());
        if !next_cartesian_digits(&mut digits, &columns) {
            break;
        }
    }
    assert_eq!(
        tuples,
        [
            vec![0, 0],
            vec![0, 1],
            vec![0, 2],
            vec![1, 0],
            vec![1, 1],
            vec![1, 2],
        ]
    );
}

#[test]
fn cartesian_product_of_an_empty_column_is_empty() {
    let columns = [vec![BigInt::zero()], Vec::new()];
    assert!(cartesian_start(&columns).expect("cartesian product").is_none());
    let none: [Vec<BigInt>; 0] = [];
    let mut digits = cartesian_start(&none).expect("empty product").expect("one tuple");
    assert!(digits.is_empty());
    assert!(!next_cartesian_digits(&mut digits, &none));
}

#[test]
fn lagrange_interpolation_preserves_every_evaluation_point() {
    let points = [BigInt::zero(), BigInt::try_from(1_i32).expect("point")];
    let columns = [
        vec![BigInt::try_from(1_i32).expect("value")],
        vec![BigInt::try_from(3_i32).expect("value")],
    ];
    let value = interpolate_integer_candidate(&points, &columns, &[0, 0])
        .expect("interpolation")
        .expect("integer coefficients");
    assert_eq!(value, polynomial(&[1, 2]));
}

#[test]
fn lagrange_interpolation_rejects_noninteger_coefficients() {
    let points = [BigInt::zero(), BigInt::try_from(2_i32).expect("point")];
    let columns = [
        vec![BigInt::zero()],
        vec![BigInt::try_from(1_i32).expect("value")],
    ];
    assert!(interpolate_integer_candidate(&points, &columns, &[0, 0])
        .expect("interpolation")
        .is_none());
}

#[test]
fn lagrange_interpolation_through_three_points() {
    // x^2 - 2 at -1, 0 and 2 takes -1, -2 and 2.
    let points = integers(&[-1, 0, 2]);
    let columns = [integers(&[5, -1]), integers(&[-2]), integers(&[7, 8, 2])];
    let value = interpolate_integer_candidate(&points, &columns, &[1, 0, 2])
        .expect("interpolation")
        .expect("integer coefficients");
    assert_eq!(value, polynomial(&[-2, 0, 1]));
    let constant = interpolate_integer_candidate(&points, &columns, &[1, 0, 2]).unwrap().unwrap();
    for (point, expected) in [(-1, -1), (0, -2), (2, 2)] {
        let at = constant.evaluate_bigint(&BigInt::try_from(point).unwrap()).unwrap();
        assert_eq!(integer(&at), expected);
    }
}

#[test]
fn lagrange_interpolation_refuses_mismatched_or_out_of_range_input() {
    let points = integers(&[0, 1]);
    let columns = [integers(&[1]), integers(&[3])];
    assert!(interpolate_integer_candidate(&points, &columns, &[0]).unwrap().is_none());
    assert!(interpolate_integer_candidate(&points[..1], &columns, &[0, 0]).unwrap().is_none());
    assert!(interpolate_integer_candidate(&points, &columns, &[0, 1]).unwrap().is_none());
}

#[test]
fn lagrange_interpolation_through_a_repeated_point_divides_by_zero() {
    let points = integers(&[1, 1]);
    let columns = [integers(&[1]), integers(&[2])];
    assert_eq!(
        interpolate_integer_candidate(&points, &columns, &[0, 0]),
        Err(AlgnumError::Bigint(BigintError::DivisionByZero))
    );
}
