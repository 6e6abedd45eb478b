use std::cmp::Ordering;

use neco::algebraic::{
    binary_selection_precisions, candidate_root_visit_limit, enclosures_intersect, opposite_sign,
    result_selection_precision,
};
use neco::{AbsoluteBits, ExprId, IsolationCache};
use neco::{
    AlgnumError, BigInt, BigUint, Dyadic, DyadicEnclosure, RawRational, IrreduciblePolynomial, IsolatingInterval, MinimalPolynomial,
    Polynomial, RationalPolynomial, RealAlgebraic, ReducedRational, RootIndex, Sign,
};

fn polynomial(values: &[i32]) -> Polynomial {
    Polynomial::from_coefficients(
        values
            .iter()
            .map(|value| BigInt::try_from(*value).unwrap())
            .collect(),
    )
}

fn integer(value: i32) -> Dyadic {
    Dyadic::new(BigInt::try_from(value).unwrap(), 0)
}

fn factors(values: &[i32]) -> Vec<IrreduciblePolynomial> {
    polynomial(values)
        .candidate()
        .unwrap()
        .square_free()
        .unwrap()
        .factor()
        .unwrap()
}

fn root(values: &[i32], lower: i32, upper: i32) -> RealAlgebraic {
    let factors = factors(values);
    assert_eq!(factors.len(), 1);
    factors[0]
        .certify_root(integer(lower), integer(upper))
        .unwrap()
        .into_value()
}

fn rational(values: &[i32]) -> RationalPolynomial {
    RationalPolynomial::from_coefficients(
        values
            .iter()
            .map(|value| ReducedRational::from_bigint(BigInt::try_from(*value).unwrap()).unwrap())
            .collect(),
    )
}

#[test]
fn is_one_cases_cover_zero_one_negative_one_two_and_sqrt_two() {
    let zero = root(&[0, 1], -1, 1);
    let one = root(&[-1, 1], 0, 2);
    let negative_one = root(&[1, 1], -2, 0);
    let two = root(&[-2, 1], 1, 3);
    let sqrt_two = root(&[-2, 0, 1], 1, 2);

    assert!(!zero.is_one());
    assert!(one.is_one());
    assert!(!negative_one.is_one());
    assert!(!two.is_one());
    assert!(!sqrt_two.is_one());
}

#[test]
fn zero_is_the_only_root_of_x() {
    assert!(root(&[0, 1], -1, 1).is_zero());
    assert!(!root(&[-1, 1], 0, 2).is_zero());
    assert!(!root(&[-2, 0, 1], -2, -1).is_zero());
}

#[test]
fn irreducible_roots_are_isolated_in_increasing_order() {
    let factors = factors(&[-2, 0, 1]);
    let roots = factors[0].isolate_real_roots().unwrap();
    assert_eq!(roots.len(), 2);
    assert_eq!(roots[0].value().root_index(), RootIndex::new(0));
    assert_eq!(roots[1].value().root_index().get(), 1);
    assert_ne!(
        roots[0].enclosure().upper().cmp(roots[1].enclosure().lower()),
        Ordering::Greater
    );
    assert_eq!(roots[1].value().minimal_polynomial().polynomial(), &polynomial(&[-2, 0, 1]));
}

#[test]
fn certification_names_the_root_by_its_position() {
    let factors = factors(&[-2, 0, 1]);
    let negative = factors[0].certify_root(integer(-2), integer(-1)).unwrap();
    let positive = factors[0].certify_root(integer(1), integer(2)).unwrap();
    assert_eq!(negative.value().root_index().get(), 0);
    assert_eq!(positive.value().root_index().get(), 1);
    assert_eq!(
        factors[0].certify_root(integer(-2), integer(2)),
        Err(AlgnumError::MultipleTargetRoots)
    );
    assert_eq!(
        factors[0].certify_root(integer(2), integer(3)),
        Err(AlgnumError::NoTargetRoot)
    );
}

#[test]
fn refinement_narrows_the_interval_of_the_same_number() {
    let certified = factors(&[-2, 0, 1])[0]
        .certify_root(integer(1), integer(2))
        .unwrap();
    let interval = IsolatingInterval::new(
        certified.value().try_clone().unwrap(),
        certified.enclosure().try_clone().unwrap(),
    );
    let refined = interval.refine(4).unwrap();
    assert_eq!(refined.value(), interval.value());
    assert_ne!(
        refined
            .enclosure()
            .width()
            .unwrap()
            .cmp(&Dyadic::new(BigInt::try_from(1).unwrap(), 4)),
        Ordering::Greater
    );
    assert_ne!(
        refined.enclosure().lower().cmp(interval.enclosure().lower()),
        Ordering::Less
    );
    assert_ne!(
        refined.enclosure().upper().cmp(interval.enclosure().upper()),
        Ordering::Greater
    );
}

#[test]
fn quotient_arithmetic_reduces_modulo_the_minimal_polynomial() {
    let minimal = MinimalPolynomial::new(factors(&[-2, 0, 1]).remove(0));
    let quotient = minimal.quotient().unwrap();
    let x = rational(&[0, 1]);
    assert_eq!(quotient.mul(&x, &x).unwrap(), rational(&[2]));
    assert_eq!(quotient.add(&x, &x).unwrap(), rational(&[0, 2]));
    assert_eq!(quotient.sub(&x, &x).unwrap(), rational(&[]));
    let once = quotient.reduce(&rational(&[1, 0, 0, 1])).unwrap();
    assert_eq!(once, rational(&[1, 2]));
    assert_eq!(quotient.reduce(&once).unwrap(), once);
    let generator = quotient.generator().unwrap();
    assert_eq!(generator.as_polynomial().unwrap(), x);
    assert_eq!(generator.minimal_polynomial(), &minimal);
}

#[test]
fn enclosure_narrows_around_the_selected_root() {
    let sqrt_two = root(&[-2, 0, 1], 1, 2);
    let interval = sqrt_two.enclose(4).unwrap();
    assert_eq!(interval.value(), &sqrt_two);
    assert_ne!(
        interval
            .enclosure()
            .width()
            .unwrap()
            .cmp(&Dyadic::new(BigInt::try_from(1).unwrap(), 4)),
        Ordering::Greater
    );
    assert_eq!(interval.enclosure().lower().cmp(&integer(1)), Ordering::Greater);
    assert_eq!(interval.enclosure().upper().cmp(&integer(2)), Ordering::Less);

    let missing = RealAlgebraic::new(
        MinimalPolynomial::new(factors(&[-2, 0, 1]).remove(0)),
        RootIndex::new(5),
    );
    assert_eq!(missing.enclose(2), Err(AlgnumError::NoTargetRoot));
}

#[test]
fn comparison_with_a_dyadic_and_sign() {
    let sqrt_two = root(&[-2, 0, 1], 1, 2);
    let negative_sqrt_two = root(&[-2, 0, 1], -2, -1);
    assert_eq!(sqrt_two.compare_dyadic(&integer(1)).unwrap(), Ordering::Greater);
    assert_eq!(sqrt_two.compare_dyadic(&integer(2)).unwrap(), Ordering::Less);
    assert_eq!(
        negative_sqrt_two.compare_dyadic(&integer(-1)).unwrap(),
        Ordering::Less
    );
    assert_eq!(root(&[-1, 1], 0, 2).compare_dyadic(&integer(1)).unwrap(), Ordering::Equal);
    assert_eq!(root(&[-1, 1], 0, 2).compare_dyadic(&integer(3)).unwrap(), Ordering::Less);
    assert_eq!(sqrt_two.sign().unwrap(), Sign::Positive);
    assert_eq!(negative_sqrt_two.sign().unwrap(), Sign::Negative);
    assert_eq!(root(&[0, 1], -1, 1).sign().unwrap(), Sign::Zero);
}

fn reduced(numerator: i32, denominator: u32) -> ReducedRational {
    RawRational::new(
        BigInt::try_from(numerator).unwrap(),
        BigUint::try_from(denominator).unwrap(),
    )
    .reduce()
    .unwrap()
    .into_reduced()
}

#[test]
fn rational_coefficients_preserve_order_and_zero() {
    let polynomial = RationalPolynomial::from_coefficients(vec![reduced(1, 2), reduced(0, 1)]);
    let conversion = polynomial.to_real_algebraic_coefficients().unwrap();
    assert_eq!(conversion.coefficients().len(), 1);
}

#[test]
fn integer_and_rational_literals_are_roots_of_linear_polynomials() {
    let three = RealAlgebraic::from_integer(BigInt::try_from(3).unwrap()).unwrap();
    assert_eq!(three.minimal_polynomial().polynomial(), &polynomial(&[-3, 1]));
    assert_eq!(three.root_index().get(), 0);
    assert!(!three.is_one());
    assert!(RealAlgebraic::from_integer(BigInt::try_from(1).unwrap())
        .unwrap()
        .is_one());
    let half = RealAlgebraic::from_reduced_rational(&reduced(1, 2)).unwrap();
    assert_eq!(half.minimal_polynomial().polynomial(), &polynomial(&[-1, 2]));
    assert_eq!(half.compare_dyadic(&integer(1)).unwrap(), Ordering::Less);
    let conversion = RationalPolynomial::from_coefficients(vec![reduced(-2, 1), reduced(1, 3)])
        .to_real_algebraic_coefficients()
        .unwrap();
    assert_eq!(conversion.try_clone().unwrap(), conversion);
    let values = conversion.into_coefficients();
    assert_eq!(values[0].minimal_polynomial().polynomial(), &polynomial(&[2, 1]));
    assert_eq!(values[1].minimal_polynomial().polynomial(), &polynomial(&[-1, 3]));
}

#[test]
fn enclosure_intersection_includes_a_shared_endpoint() {
    let left = DyadicEnclosure::new(integer(0), integer(1)).unwrap();
    let touching = DyadicEnclosure::new(integer(1), integer(2)).unwrap();
    let disjoint = DyadicEnclosure::new(integer(2), integer(3)).unwrap();
    assert!(enclosures_intersect(&left, &touching));
    assert!(!enclosures_intersect(&left, &disjoint));
}

#[test]
fn candidate_selection_refines_the_result_enclosure_at_each_precision() {
    assert_eq!(result_selection_precision(0), 0);
    assert_eq!(result_selection_precision(7), 7);
}

#[test]
fn binary_candidate_selection_refines_both_inputs_at_each_precision() {
    assert_eq!(binary_selection_precisions(0), (0, 0));
    assert_eq!(binary_selection_precisions(7), (7, 7));
}

#[test]
fn selection_visits_every_root_and_signs_flip() {
    assert_eq!(candidate_root_visit_limit(3), 3);
    assert_eq!(opposite_sign(Sign::Negative), Sign::Positive);
    assert_eq!(opposite_sign(Sign::Zero), Sign::Zero);
    assert_eq!(opposite_sign(Sign::Positive), Sign::Negative);
}

#[test]
fn square_free_certification_selects_the_one_factor_with_the_root() {
    let square_free = polynomial(&[6, -2, -3, 1])
        .candidate()
        .unwrap()
        .square_free()
        .unwrap();
    let sqrt_two = square_free.certify_root(integer(1), integer(2)).unwrap();
    assert_eq!(
        sqrt_two.value().minimal_polynomial().polynomial(),
        &polynomial(&[-2, 0, 1])
    );
    assert_eq!(sqrt_two.value().root_index().get(), 1);
    let three = square_free.certify_root(integer(2), integer(4)).unwrap();
    assert_eq!(three.value().minimal_polynomial().polynomial(), &polynomial(&[-3, 1]));
    assert_eq!(
        square_free.certify_root(integer(0), integer(4)),
        Err(AlgnumError::MultipleTargetRoots)
    );
    assert_eq!(
        square_free.certify_root(integer(4), integer(5)),
        Err(AlgnumError::NoTargetRoot)
    );
    assert_eq!(
        square_free.certify_root(integer(3), integer(4)),
        Err(AlgnumError::InvalidIsolation)
    );
    assert_eq!(
        square_free.certify_root(integer(2), integer(1)),
        Err(AlgnumError::InvalidIsolation)
    );
}

fn three_real_root_factor() -> IrreduciblePolynomial {
    let mut factors = factors(&[1, -3, 0, 1]);
    assert_eq!(factors.len(), 1);
    factors.pop().unwrap()
}

#[test]
fn irreducible_quadratic_roots_are_isolated_in_order_and_refine_monotonically() {
    let factors = factors(&[-2, 0, 1]);
    let roots = factors[0].isolate_real_roots().unwrap();
    assert_eq!(roots.len(), 2);
    assert_eq!(roots[0].value().root_index().get(), 0);
    assert_eq!(roots[1].value().root_index().get(), 1);
    assert_ne!(
        roots[0].enclosure().upper().cmp(roots[1].enclosure().lower()),
        Ordering::Greater
    );
    for root in roots {
        let before = root.enclosure().width().unwrap();
        let refined = root.value().enclose(8).unwrap();
        let after = refined.enclosure().width().unwrap();
        assert_ne!(after.cmp(&before), Ordering::Greater);
        assert_eq!(refined.value(), root.value());
    }
}

#[test]
fn irreducible_three_real_root_polynomial_assigns_indices_zero_one_two() {
    let factors = factors(&[1, -3, 0, 1]);
    assert_eq!(factors.len(), 1);
    let roots = factors[0].isolate_real_roots().unwrap();
    assert_eq!(
        roots
            .iter()
            .map(|root| root.value().root_index().get())
            .collect::<Vec<_>>(),
        [0, 1, 2]
    );
}

#[test]
fn public_root_certification_distinguishes_all_interval_failures() {
    let factor = three_real_root_factor();
    assert_eq!(
        factor.certify_root(integer(2), integer(-2)),
        Err(AlgnumError::InvalidIsolation)
    );
    assert_eq!(
        factor.certify_root(integer(3), integer(4)),
        Err(AlgnumError::NoTargetRoot)
    );
    assert_eq!(
        factor.certify_root(integer(-2), integer(2)),
        Err(AlgnumError::MultipleTargetRoots)
    );
}

#[test]
fn a_valid_constructed_interval_returns_the_same_root_on_refinement() {
    let factor = three_real_root_factor();
    let certified = factor.certify_root(integer(0), integer(1)).unwrap();
    assert_eq!(certified.value().root_index().get(), 1);
    let refined = certified.value().enclose(10).unwrap();
    assert_eq!(refined.value(), certified.value());
    assert_ne!(
        refined
            .enclosure()
            .width()
            .unwrap()
            .cmp(&Dyadic::new(BigInt::try_from(1).unwrap(), 10)),
        Ordering::Greater
    );
}

#[test]
fn reducible_square_free_endpoint_root_precedes_multiple_internal_roots() {
    let square_free = polynomial(&[0, 2, -3, 1])
        .candidate()
        .unwrap()
        .square_free()
        .unwrap();
    assert_eq!(
        square_free.certify_root(integer(0), integer(3)),
        Err(AlgnumError::InvalidIsolation)
    );
}

#[test]
fn candidate_rejects_zero_and_nonzero_constants() {
    assert_eq!(
        Polynomial::zero().candidate(),
        Err(AlgnumError::ZeroPolynomial)
    );
    assert_eq!(
        polynomial(&[3]).candidate(),
        Err(AlgnumError::ZeroPolynomial)
    );
}

#[test]
fn isolation_cache_keeps_one_interval_per_expression_and_precision() {
    let sqrt_two = root(&[-2, 0, 1], 1, 2);
    let coarse = sqrt_two.enclose(2).unwrap();
    let fine = sqrt_two.enclose(8).unwrap();
    let mut cache = IsolationCache::new();
    cache
        .insert(ExprId::new(2), AbsoluteBits::new(8), fine.try_clone().unwrap())
        .unwrap();
    cache
        .insert(ExprId::new(1), AbsoluteBits::new(2), coarse.try_clone().unwrap())
        .unwrap();
    cache
        .insert(ExprId::new(2), AbsoluteBits::new(8), coarse.try_clone().unwrap())
        .unwrap();
    assert_eq!(cache.len(), 2);
    assert_eq!(cache.get(ExprId::new(2), AbsoluteBits::new(8)), Some(&fine));
    assert_eq!(cache.get(ExprId::new(1), AbsoluteBits::new(2)), Some(&coarse));
    assert_eq!(cache.get(ExprId::new(1), AbsoluteBits::new(8)), None);
}

fn coefficient_values(value: &RealAlgebraic) -> Vec<i64> {
    value
        .minimal_polynomial()
        .polynomial()
        .coefficients()
        .iter()
        .map(|coefficient| {
            let magnitude = i64::from(coefficient.magnitude().to_u32().unwrap());
            match coefficient.sign() {
                Sign::Negative => -magnitude,
                Sign::Zero => 0,
                Sign::Positive => magnitude,
            }
        })
        .collect()
}

#[test]
fn sums_and_differences_select_the_root_of_the_resultant() {
    let sqrt_two = root(&[-2, 0, 1], 1, 2);
    let sqrt_three = root(&[-3, 0, 1], 1, 2);
    let sum = sqrt_two.add(&sqrt_three).unwrap();
    assert_eq!(coefficient_values(&sum), vec![1, 0, -10, 0, 1]);
    assert_eq!(sum.root_index().get(), 3);
    assert_eq!(coefficient_values(&sqrt_two.sub(&sqrt_two).unwrap()), vec![0, 1]);
    let two = root(&[-2, 1], 1, 3);
    let three = root(&[-3, 1], 2, 4);
    assert_eq!(
        two.add(&three).unwrap().compare_dyadic(&integer(5)).unwrap(),
        Ordering::Equal
    );
    assert_eq!(coefficient_values(&three.sub(&two).unwrap()), vec![-1, 1]);
}

#[test]
fn exact_integer_and_reduced_rational_literals_are_constructible() {
    let integer = RealAlgebraic::from_integer(BigInt::try_from(3).unwrap()).unwrap();
    assert!(!integer.is_one());
    let half = RealAlgebraic::from_reduced_rational(&reduced(1, 2)).unwrap();
    assert!(half.compare(&integer).unwrap().is_lt());
}

#[test]
fn comparison_of_two_algebraic_numbers_is_the_sign_of_their_difference() {
    let sqrt_two = root(&[-2, 0, 1], 1, 2);
    let sqrt_three = root(&[-3, 0, 1], 1, 2);
    assert_eq!(sqrt_two.compare(&sqrt_three).unwrap(), Ordering::Less);
    assert_eq!(sqrt_three.compare(&sqrt_two).unwrap(), Ordering::Greater);
    assert_eq!(sqrt_two.compare(&sqrt_two).unwrap(), Ordering::Equal);
}
