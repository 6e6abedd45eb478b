use neco::projection::{ordered_to_bits, LAST_ORDERED, NEGATIVE_COUNT, NEGATIVE_KEY_START};
use neco::{AbsoluteBits, ProjectionPolicy};

#[test]
fn ordered_bits_exclude_negative_zero() {
    assert_eq!(ordered_to_bits(NEGATIVE_COUNT - 1), 0x8000_0000_0000_0001);
    assert_eq!(ordered_to_bits(NEGATIVE_COUNT), 0);
    assert_eq!(ordered_to_bits(NEGATIVE_COUNT + 1), 1);
}

#[test]
fn ordered_bits_cover_signed_normal_subnormal_zero_and_finite_endpoints() {
    let negative_one_bits = (-1.0_f64).to_bits();
    let negative_one_ordered = (!negative_one_bits) - NEGATIVE_KEY_START;
    let positive_one_ordered = NEGATIVE_COUNT + 1.0_f64.to_bits();
    let observations = [
        ordered_to_bits(0),
        ordered_to_bits(negative_one_ordered),
        ordered_to_bits(NEGATIVE_COUNT - 1),
        ordered_to_bits(NEGATIVE_COUNT),
        ordered_to_bits(NEGATIVE_COUNT + 1),
        ordered_to_bits(positive_one_ordered),
        ordered_to_bits(LAST_ORDERED),
    ];
    assert_eq!(
        observations,
        [
            (-f64::MAX).to_bits(),
            (-1.0_f64).to_bits(),
            0x8000_0000_0000_0001,
            0,
            1,
            1.0_f64.to_bits(),
            f64::MAX.to_bits(),
        ]
    );
    assert!(observations.windows(2).all(|pair| {
        f64::from_bits(pair[0]) < f64::from_bits(pair[1]) || (pair[0] == 0 && pair[1] == 1)
    }));
}

#[test]
fn projection_policy_keeps_its_precision() {
    let policy = ProjectionPolicy::new(AbsoluteBits::new(20));
    assert_eq!(policy.absolute_bits(), AbsoluteBits::new(20));
    assert_eq!(policy.absolute_bits().get(), 20);
}
