use facefeature::double::Double;
use facefeature::fixed::{fixed, fixed_single};
use facefeature::single::Single;

fn double(x: f64) -> Double {
    Double::from_bits(x.to_bits())
}

fn single(x: f32) -> Single {
    Single::from_bits(x.to_bits())
}

fn same(ours: Double, theirs: f64) -> bool {
    if theirs.is_nan() {
        ours.is_nan()
    } else {
        ours.to_bits() == theirs.to_bits()
    }
}

fn same_single(ours: Single, theirs: f32) -> bool {
    if theirs.is_nan() {
        ours.is_nan()
    } else {
        ours.to_bits() == theirs.to_bits()
    }
}

/// A generator of bit patterns.
fn next(state: &mut u64) -> u64 {
    *state ^= *state << 13;
    *state ^= *state >> 7;
    *state ^= *state << 17;
    *state
}

fn doubles() -> Vec<f64> {
    let mut values = vec![
        0.0,
        -0.0,
        1.0,
        -1.0,
        0.5,
        0.1,
        1.0 / 3.0,
        2.0,
        3.0,
        1e-300,
        1e300,
        1e308,
        -1e308,
        f64::MAX,
        f64::MIN_POSITIVE,
        f64::MIN_POSITIVE / 2.0,
        5e-324,
        f64::EPSILON,
        f64::INFINITY,
        f64::NEG_INFINITY,
        f64::NAN,
    ];
    let mut state = 0x9E37_79B9_7F4A_7C15;
    for _ in 0..60 {
        let bits = next(&mut state);
        values.push(f64::from_bits(bits));
        let exponent = 1023 - 30 + bits % 60;
        values.push(f64::from_bits((bits & 0x800F_FFFF_FFFF_FFFF) | (exponent << 52)));
    }
    values
}

fn singles() -> Vec<f32> {
    let mut values = vec![
        0.0,
        -0.0,
        1.0,
        -1.0,
        0.1,
        0.363,
        1e38,
        f32::MAX,
        f32::MIN_POSITIVE,
        1e-45,
        f32::EPSILON,
        f32::INFINITY,
        f32::NEG_INFINITY,
        f32::NAN,
    ];
    let mut state = 0x2545_F491_4F6C_DD1D;
    for _ in 0..60 {
        let bits = next(&mut state) as u32;
        values.push(f32::from_bits(bits));
        let exponent = 127 - 20 + bits % 40;
        values.push(f32::from_bits((bits & 0x807F_FFFF) | (exponent << 23)));
    }
    values
}

#[test]
fn double_arithmetic_matches_the_processor() {
    for &a in &doubles() {
        for &b in &doubles() {
            assert!(same(double(a) + double(b), a + b), "{a:e} + {b:e}");
            assert!(same(double(a) - double(b), a - b), "{a:e} - {b:e}");
            assert!(same(double(a) * double(b), a * b), "{a:e} * {b:e}");
            assert!(same(double(a) / double(b), a / b), "{a:e} / {b:e}");
            assert_eq!(double(a).less(double(b)), a < b);
            assert_eq!(double(a).at_most(double(b)), a <= b);
            assert_eq!(double(a).equals(double(b)), a == b);
            assert_eq!(double(a).precedes(double(b)), a.total_cmp(&b).is_lt());
        }
    }
}

#[test]
fn double_functions_match_the_processor() {
    for &a in &doubles() {
        assert!(same(double(a).sqrt(), a.sqrt()), "sqrt {a:e}");
        assert!(same(double(a).abs(), a.abs()));
        assert!(same(double(a).negated(), -a));
        assert!(same(double(a).signum(), a.signum()));
        assert_eq!(double(a).is_finite(), a.is_finite());
        assert_eq!(double(a).floor(), a.max(0.0).floor() as u64, "floor {a:e}");
        assert_eq!(double(a).round_magnitude(), a.abs().round() as u64, "round {a:e}");
        assert!(same(double(a).to_degrees(), a.to_degrees()));
        assert!(same(double(a).to_radians(), a.to_radians()));
        assert!(same_single(double(a).to_single(), a as f32), "single {a:e}");
        for &b in &doubles() {
            let ours = f64::from_bits(double(a).hypot(double(b)).to_bits());
            let theirs = a.hypot(b);
            assert!(
                ours == theirs
                    || (ours.is_nan() && theirs.is_nan())
                    || (ours - theirs).abs() <= theirs.abs() * 4.0 * f64::EPSILON
                    || (ours - theirs).abs() < 1e-320,
                "hypot {a:e} {b:e}: {ours:e} {theirs:e}"
            );
        }
    }
}

#[test]
fn single_arithmetic_matches_the_processor() {
    for &a in &singles() {
        assert!(same_single(single(a).sqrt(), a.sqrt()), "sqrt {a:e}");
        assert!(same(single(a).to_double(), a as f64));
        assert_eq!(single(a).floor(), a.max(0.0).floor() as u64);
        assert_eq!(single(a).round_magnitude(), a.abs().round() as u64);
        for &b in &singles() {
            assert!(same_single(single(a) + single(b), a + b), "{a:e} + {b:e}");
            assert!(same_single(single(a) - single(b), a - b), "{a:e} - {b:e}");
            assert!(same_single(single(a) * single(b), a * b), "{a:e} * {b:e}");
            assert!(same_single(single(a) / single(b), a / b), "{a:e} / {b:e}");
            assert_eq!(single(a).less(single(b)), a < b);
            assert_eq!(single(a).precedes(single(b)), a.total_cmp(&b).is_lt());
        }
    }
}

#[test]
fn ratios_are_the_nearest_numbers() {
    assert!(same(Double::ratio(8, 10), 0.8));
    assert!(same(Double::ratio(25, 1_000_000), 0.000_025));
    assert!(same(Double::ratio(1, 100_000_000), 1e-8));
    assert!(same(Double::ratio(1, 1_000_000_000_000), 1e-12));
    assert!(same(Double::integer(123_456_789_012_345_678), 123_456_789_012_345_678_u64 as f64));
    assert!(same_single(Single::ratio(363, 1000), 0.363));
    assert!(same_single(Single::ratio(382_946, 10_000), 38.2946));
    assert!(same_single(Single::integer(16_777_217), 16_777_217_u32 as f32));
}

#[test]
fn clamping_keeps_to_the_bounds() {
    for &a in &doubles() {
        assert!(same(double(a).clamp(double(-1.0), double(1.0)), a.clamp(-1.0, 1.0)));
    }
    for &a in &singles() {
        assert!(same_single(single(a).clamp(single(-1.0), single(1.0)), a.clamp(-1.0, 1.0)));
    }
}

#[test]
fn fixed_decimals_match_the_formatter() {
    for &a in &doubles() {
        assert_eq!(fixed(double(a), 0), format!("{a:.0}"));
        assert_eq!(fixed(double(a), 1), format!("{a:.1}"));
        assert_eq!(fixed(double(a), 2), format!("{a:.2}"));
        assert_eq!(fixed(double(a), 3), format!("{a:.3}"));
    }
    for &a in &singles() {
        assert_eq!(fixed_single(single(a), 3), format!("{a:.3}"));
    }
    for a in [0.5, 1.5, 2.5, -0.25, -4.25, 0.125, 0.0625, 1e15 + 0.5] {
        assert_eq!(fixed(double(a), 0), format!("{a:.0}"));
        assert_eq!(fixed(double(a), 1), format!("{a:.1}"));
        assert_eq!(fixed(double(a), 3), format!("{a:.3}"));
    }
}

#[test]
fn ratios_are_ordered_as_fractions() {
    let fractions = [(0_u64, 1_u64), (1, 1000), (8, 100), (1, 3), (35, 100), (1, 2), (999, 1000), (1, 1)];
    for pair in fractions.windows(2) {
        let (low, high) = (pair[0], pair[1]);
        assert!(Double::ratio(low.0, low.1).at_most(Double::ratio(high.0, high.1)));
        assert!(Single::ratio(low.0, low.1).at_most(Single::ratio(high.0, high.1)));
        let middle = double(0.3).clamp(
            Double::ratio(low.0, low.1),
            Double::ratio(high.0, high.1),
        );
        assert!(Double::ratio(low.0, low.1).at_most(middle));
        assert!(middle.at_most(Double::ratio(high.0, high.1)));
    }
}
