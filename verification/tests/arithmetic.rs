use liteparse::scalar::Scalar;

fn s(value: f32) -> Scalar {
    Scalar { bits: value.to_bits() }
}

fn agrees(ours: Scalar, theirs: f32) -> bool {
    if theirs.is_nan() {
        ours.is_nan()
    } else {
        ours.bits == theirs.to_bits()
    }
}

fn check_pair(a: f32, b: f32) {
    assert!(agrees(s(a).sum(s(b)), a + b), "{a:e} + {b:e}");
    assert!(agrees(s(a).difference(s(b)), a - b), "{a:e} - {b:e}");
    assert!(agrees(s(a).product(s(b)), a * b), "{a:e} * {b:e}");
    assert!(agrees(s(a).quotient(s(b)), a / b), "{a:e} / {b:e}");
}

fn check_one(a: f32) {
    assert!(agrees(s(a).round(), a.round()), "round {a:e}");
    assert!(agrees(s(a).negate(), -a), "- {a:e}");
}

fn special() -> Vec<f32> {
    let mut out = vec![
        0.0,
        f32::from_bits(1),
        f32::from_bits(2),
        f32::from_bits(0x7f_ffff),
        f32::MIN_POSITIVE,
        f32::from_bits(0x80_0001),
        0.1,
        0.3,
        0.49999997,
        0.5,
        0.50000006,
        1.0,
        1.5,
        2.5,
        3.0,
        72.0,
        150.0,
        1000.0,
        8388607.5,
        8388608.0,
        16777215.0,
        16777216.0,
        1.0e20,
        f32::from_bits(0x7e7f_ffff),
        f32::MAX,
        f32::INFINITY,
        f32::NAN,
    ];
    let negatives: Vec<f32> = out.iter().map(|v| -v).collect();
    out.extend(negatives);
    out
}

/// A linear congruential generator.
struct Patterns(u64);

impl Patterns {
    fn draw(&mut self) -> u32 {
        self.0 = self.0.wrapping_mul(6364136223846793005).wrapping_add(1442695040888963407);
        (self.0 >> 32) as u32
    }
}

#[test]
fn special_numbers_agree_with_the_hardware() {
    for a in special() {
        check_one(a);
        for b in special() {
            check_pair(a, b);
        }
    }
}

#[test]
fn any_patterns_agree_with_the_hardware() {
    let mut patterns = Patterns(1);
    for _ in 0..200_000 {
        let a = f32::from_bits(patterns.draw());
        let b = f32::from_bits(patterns.draw());
        check_one(a);
        check_pair(a, b);
    }
}

#[test]
fn neighbouring_exponents_agree_with_the_hardware() {
    let mut patterns = Patterns(2);
    for _ in 0..200_000 {
        let a = patterns.draw();
        let exponent = (a >> 23) & 0xff;
        let shift = patterns.draw() % 64;
        let other = (exponent + shift).saturating_sub(32).min(254);
        let b = (patterns.draw() & 0x807f_ffff) | (other << 23);
        check_pair(f32::from_bits(a), f32::from_bits(b));
        check_pair(f32::from_bits(b), f32::from_bits(a));
    }
}

#[test]
fn ordinary_sizes_agree_with_the_hardware() {
    let mut patterns = Patterns(3);
    for _ in 0..100_000 {
        let a = (patterns.draw() % 2_000_000) as f32 / 1000.0 - 1000.0;
        let b = (patterns.draw() % 2_000_000) as f32 / 1000.0 - 1000.0;
        check_one(a);
        check_pair(a, b);
    }
}

#[test]
fn small_numbers_agree_with_the_hardware() {
    let mut patterns = Patterns(4);
    for _ in 0..100_000 {
        let a = f32::from_bits(patterns.draw() & 0x81ff_ffff);
        let b = f32::from_bits(patterns.draw() & 0x81ff_ffff);
        let c = f32::from_bits((patterns.draw() & 0x81ff_ffff) + 0x3e00_0000);
        check_pair(a, b);
        check_pair(a, c);
        check_pair(c, b);
    }
}

#[test]
fn exact_values() {
    assert_eq!(s(1.5).sum(s(2.25)), s(3.75));
    assert_eq!(s(1.5).difference(s(2.25)), s(-0.75));
    assert_eq!(s(1.5).product(s(2.25)), s(3.375));
    assert_eq!(s(72.0).quotient(s(150.0)), s(0.48));
    assert_eq!(s(2.5).round(), s(3.0));
    assert_eq!(s(-2.5).round(), s(-3.0));
    assert_eq!(s(-0.25).round(), s(-0.0));
}

#[test]
fn zeros_and_infinities() {
    assert_eq!(s(5.0).difference(s(5.0)), s(0.0));
    assert_eq!(s(-0.0).sum(s(-0.0)), s(-0.0));
    assert_eq!(s(-0.0).sum(s(0.0)), s(0.0));
    assert_eq!(s(1.0).quotient(s(-0.0)), s(f32::NEG_INFINITY));
    assert_eq!(s(1.0).quotient(s(f32::INFINITY)), s(0.0));
    assert_eq!(s(f32::MAX).sum(s(f32::MAX)), s(f32::INFINITY));
    assert!(s(f32::INFINITY).difference(s(f32::INFINITY)).is_nan());
    assert!(s(0.0).product(s(f32::INFINITY)).is_nan());
    assert!(s(0.0).quotient(s(0.0)).is_nan());
}

#[test]
fn sums_cross_no_number() {
    let mut patterns = Patterns(5);
    for _ in 0..20_000 {
        let a = (patterns.draw() % 2_000_000) as f32 / 1000.0 - 1000.0;
        let w = (patterns.draw() % 1_000_000) as f32 / 1000.0;
        assert!(s(a).at_most(s(a).sum(s(w))));
        assert!(s(a).difference(s(w)).at_most(s(a)));
    }
}

#[test]
fn two_is_felt_up_to_the_limit() {
    for a in [0.0, -0.0, 1.0e-30, 0.3, -7.25, 1.0e6, -1.0e6, 16777215.0, -16777215.0] {
        assert!(s(a).less_than(s(a).sum(s(2.0))));
        assert!(s(a).difference(s(2.0)).less_than(s(a)));
    }
    assert!(!s(1.0e9).less_than(s(1.0e9).sum(s(2.0))));
    for w in [0.0, 1.0, 1.0e9, f32::MAX, f32::INFINITY] {
        let end = s(-16777215.0).sum(s(w));
        assert!(s(-16777215.0).less_than(end.sum(s(2.0))));
        assert!(s(-16777215.0).difference(s(2.0)).less_than(end));
    }
}

#[test]
fn signs_are_kept() {
    let zero = s(0.0);
    for (a, b) in [(1.0, 1.0), (-1.0, -1.0e30), (f32::MAX, -f32::MAX), (2.0e-45, 1.0e-45)] {
        let difference = s(a).difference(s(b));
        assert!(zero.at_most(difference));
        for factor in [1.0e-45, 0.48, 1.0, 3.0e38] {
            assert!(zero.at_most(difference.product(s(factor))));
        }
    }
    assert_eq!(s(f32::MAX).difference(s(-f32::MAX)), s(f32::INFINITY));
}

#[test]
fn quotients_do_not_vanish() {
    assert_eq!(s(1.0).quotient(s(f32::MAX)).bits, 0x0020_0000);
    assert!(s(0.0).less_than(s(72.0).quotient(s(f32::MAX))));
    assert_eq!(s(1.0e-30).quotient(s(f32::MAX)).bits, 0);
}
