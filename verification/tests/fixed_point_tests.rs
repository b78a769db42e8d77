use exchange_rate::fixed_point::FixedPoint;
use exchange_rate::fixed_point::FIXED_POINT_SCALE;

#[test]
fn one_is_the_scale_factor() {
    assert_eq!(FIXED_POINT_SCALE, 1_000_000_000_000_000_000);
    assert_eq!(FixedPoint::one().into_inner(), FIXED_POINT_SCALE);
}

#[test]
fn raw_representation_round_trips() {
    assert_eq!(FixedPoint::from_inner(0).into_inner(), 0);
    assert_eq!(FixedPoint::from_inner(42).into_inner(), 42);
    assert_eq!(FixedPoint::from_inner(u128::MAX).into_inner(), u128::MAX);
}

#[test]
fn division_by_zero_fails_without_panicking() {
    let zero = FixedPoint::from_inner(0);
    assert!(FixedPoint::one().checked_div(&zero).is_none());
}

#[test]
fn division_overflow_fails_without_panicking() {
    let big = FixedPoint::from_inner(u128::MAX);
    assert!(big.checked_div(&FixedPoint::one()).is_none());
}

#[test]
fn renders_all_eighteen_fractional_digits() {
    assert_eq!(
        FixedPoint::from_inner(2000 * FIXED_POINT_SCALE).to_decimal_string(),
        "2000.000000000000000000"
    );
    assert_eq!(FixedPoint::one().to_decimal_string(), "1.000000000000000000");
    assert_eq!(FixedPoint::from_inner(0).to_decimal_string(), "0.000000000000000000");
    assert_eq!(
        FixedPoint::from_inner(FIXED_POINT_SCALE / 2).to_decimal_string(),
        "0.500000000000000000"
    );
    assert_eq!(
        FixedPoint::from_inner(333_333_333_333_333_333).to_decimal_string(),
        "0.333333333333333333"
    );
    assert_eq!(FixedPoint::from_inner(5).to_decimal_string(), "0.000000000000000005");
    assert_eq!(
        FixedPoint::from_inner(12 * FIXED_POINT_SCALE + 34).to_decimal_string(),
        "12.000000000000000034"
    );
}

#[test]
fn division_computes_exact_quotients() {
    let two = FixedPoint::from_inner(2 * FIXED_POINT_SCALE);
    let three = FixedPoint::from_inner(3 * FIXED_POINT_SCALE);
    let six = FixedPoint::from_inner(6 * FIXED_POINT_SCALE);
    assert_eq!(six.checked_div(&three).unwrap().into_inner(), 2 * FIXED_POINT_SCALE);
    assert_eq!(FixedPoint::one().checked_div(&two).unwrap().into_inner(), FIXED_POINT_SCALE / 2);
    // 1 / 3 truncates toward zero
    assert_eq!(FixedPoint::one().checked_div(&three).unwrap().into_inner(), 333_333_333_333_333_333);
}
