use neco::{BigInt, BigintError, Dyadic, DyadicEnclosure};

fn integer(value: i64) -> BigInt {
    BigInt::try_from(value).unwrap()
}

#[test]
fn normalizes_and_computes_arithmetic() {
    let half = Dyadic::new(integer(4), 3);
    assert_eq!(half.integer(), &integer(1));
    assert_eq!(half.exponent(), 1);

    let three_halves = Dyadic::new(integer(3), 1);
    assert_eq!(half.add(&three_halves).unwrap(), Dyadic::new(integer(2), 0));
    assert_eq!(three_halves.sub(&half).unwrap(), Dyadic::new(integer(1), 0));
    assert_eq!(half.mul(&three_halves).unwrap(), Dyadic::new(integer(3), 2));
    assert_eq!(
        half.midpoint(&three_halves).unwrap(),
        Dyadic::new(integer(1), 0)
    );
}

#[test]
fn orders_without_expanding_exponents() {
    let negative = Dyadic::new(integer(-1), u32::MAX);
    let zero = Dyadic::new(integer(0), 12);
    let positive = Dyadic::new(integer(1), u32::MAX);
    assert!(negative < zero);
    assert!(zero < positive);
    assert!(Dyadic::new(integer(1), 1) < Dyadic::new(integer(3), 2));
    assert_eq!(Dyadic::new(integer(2), 2), Dyadic::new(integer(1), 1));
}

#[test]
fn enclosure_rejects_reversed_endpoints() {
    assert_eq!(
        DyadicEnclosure::new(Dyadic::new(integer(1), 0), Dyadic::new(integer(0), 0)),
        Err(BigintError::InvalidInterval)
    );
    let enclosure =
        DyadicEnclosure::new(Dyadic::new(integer(-3), 2), Dyadic::new(integer(5), 1)).unwrap();
    assert!(enclosure.contains_dyadic(&Dyadic::new(integer(0), 0)));
    assert!(enclosure.contains_dyadic(&Dyadic::new(integer(-3), 2)));
    assert!(!enclosure.contains_dyadic(&Dyadic::new(integer(3), 0)));
    assert_eq!(enclosure.width().unwrap(), Dyadic::new(integer(13), 2));
    assert_eq!(enclosure.midpoint().unwrap(), Dyadic::new(integer(7), 3));
}

#[test]
fn exponent_overflow_reports_the_required_exponent() {
    let tiny = Dyadic::new(integer(1), u32::MAX);
    match tiny.mul(&Dyadic::new(integer(1), 1)) {
        Err(BigintError::ExponentOverflow { required, maximum }) => {
            assert_eq!(maximum, u32::MAX);
            assert_eq!(required.limbs_le(), &[0, 1]);
        }
        other => panic!("unexpected result {other:?}"),
    }
    assert!(tiny.midpoint(&tiny).is_err());
    assert_eq!(Dyadic::new(integer(-12), 5).integer(), &integer(-3));
    assert_eq!(Dyadic::new(integer(-12), 5).exponent(), 3);
}
