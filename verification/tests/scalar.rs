use liteparse::scalar::Scalar;

fn s(value: f32) -> Scalar {
    Scalar { bits: value.to_bits() }
}

fn samples() -> Vec<f32> {
    vec![
        0.0,
        -0.0,
        f32::from_bits(1),
        -f32::from_bits(1),
        f32::MIN_POSITIVE,
        0.1,
        0.5,
        1.0,
        -1.0,
        1.0000001,
        2.0,
        72.0,
        -250.75,
        16777216.0,
        f32::MAX,
        f32::MIN,
        f32::INFINITY,
        f32::NEG_INFINITY,
        f32::NAN,
        -f32::NAN,
    ]
}

#[test]
fn comparison_agrees_with_the_hardware() {
    for a in samples() {
        assert_eq!(s(a).is_nan(), a.is_nan());
        for b in samples() {
            assert_eq!(s(a).less_than(s(b)), a < b, "{a} < {b}");
            assert_eq!(s(a).at_most(s(b)), a <= b, "{a} <= {b}");
        }
    }
}

#[test]
fn min_and_max_agree_with_the_hardware() {
    for a in samples() {
        for b in samples() {
            let low = f32::from_bits(s(a).min(s(b)).bits);
            let high = f32::from_bits(s(a).max(s(b)).bits);
            assert!(low == a.min(b) || (low.is_nan() && a.min(b).is_nan()));
            assert!(high == a.max(b) || (high.is_nan() && a.max(b).is_nan()));
        }
    }
}

#[test]
fn what_is_no_number_loses() {
    assert_eq!(s(f32::NAN).min(s(3.0)), s(3.0));
    assert_eq!(s(3.0).min(s(f32::NAN)), s(3.0));
    assert_eq!(s(f32::NAN).max(s(3.0)), s(3.0));
    assert_eq!(s(3.0).max(s(f32::NAN)), s(3.0));
}

#[test]
fn of_equals_the_first_is_kept() {
    assert_eq!(s(-0.0).min(s(0.0)), s(-0.0));
    assert_eq!(s(0.0).min(s(-0.0)), s(0.0));
    assert_eq!(s(0.0).max(s(-0.0)), s(0.0));
}

#[test]
fn order_is_linear_on_numbers() {
    for a in samples() {
        for b in samples() {
            if a.is_nan() || b.is_nan() {
                assert!(!s(a).less_than(s(b)) && !s(a).at_most(s(b)));
            } else {
                assert_eq!(s(a).at_most(s(b)), !s(b).less_than(s(a)));
            }
        }
    }
}

#[test]
fn infinities_have_their_patterns_and_bound_the_numbers() {
    assert_eq!(Scalar::infinity(), s(f32::INFINITY));
    assert_eq!(Scalar::neg_infinity(), s(f32::NEG_INFINITY));
    assert!(s(f32::MAX).less_than(Scalar::infinity()));
    assert!(Scalar::neg_infinity().less_than(s(f32::MIN)));
}
