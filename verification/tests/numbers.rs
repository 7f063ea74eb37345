use loadpeek::counters::{parse_nonnegative, parse_positive};
use loadpeek::double::Double;
use loadpeek::fixed::push_fixed;

fn d(value: f64) -> Double {
    Double::from_bits(value.to_bits())
}

fn f(value: Double) -> f64 {
    f64::from_bits(value.bits)
}

/// Numbers of every kind: zeros, the smallest, the largest, powers of two and ten,
/// neighbours, and what is no number.
fn samples() -> Vec<f64> {
    let mut values: Vec<f64> = vec![
        0.0,
        0.1,
        0.5,
        0.001,
        0.000_001,
        1.0,
        1.05,
        1.1,
        1.5,
        2.0,
        2.5,
        3.0,
        59.999,
        60.0,
        100.0,
        1000.0,
        1023.999,
        1024.0,
        1_000_000.0,
        123_456_789.125,
        9_007_199_254_740_991.0,
        9_007_199_254_740_992.0,
        9_007_199_254_740_994.0,
        18_446_744_073_709_551_615.0,
        1e22,
        1e100,
        1e-100,
        1e300,
        1e-300,
        f64::MIN_POSITIVE,
        f64::MAX,
        f64::EPSILON,
        f64::INFINITY,
        f64::NAN,
    ];
    values.push(f64::from_bits(1));
    values.push(f64::from_bits(2));
    values.push(f64::from_bits(0x000f_ffff_ffff_ffff));
    values.push(f64::from_bits(0x0010_0000_0000_0001));
    values.push(f64::from_bits(0x3ff0_0000_0000_0001));
    values.push(f64::from_bits(0x3fef_ffff_ffff_ffff));
    let mut state: u64 = 0x1234_5678_9abc_def1;
    for _ in 0..60 {
        state ^= state << 13;
        state ^= state >> 7;
        state ^= state << 17;
        let number = f64::from_bits(state);
        if number.is_finite() {
            values.push(number.abs());
        }
        values.push((state >> 11) as f64 / 1024.0);
    }
    let negatives: Vec<f64> = values.iter().map(|value| -value).collect();
    values.extend(negatives);
    values
}

fn same(found: Double, expected: f64, what: &str) {
    if expected.is_nan() {
        assert!(f(found).is_nan(), "{what}: {} is a number", f(found));
    } else {
        assert_eq!(found.bits, expected.to_bits(), "{what}: {} != {expected}", f(found));
    }
}

#[test]
fn arithmetic_agrees_with_the_machine() {
    let values = samples();
    for &a in &values {
        for &b in &values {
            same(d(a).add(d(b)), a + b, "sum");
            same(d(a).sub(d(b)), a - b, "difference");
            same(d(a).mul(d(b)), a * b, "product");
            same(d(a).div(d(b)), a / b, "quotient");
        }
    }
}

#[test]
fn comparisons_agree_with_the_machine() {
    let values = samples();
    for &a in &values {
        for &b in &values {
            assert_eq!(d(a).is_less(d(b)), a < b);
            assert_eq!(d(a).is_at_most(d(b)), a <= b);
            assert_eq!(d(a).same_number(d(b)), a == b);
            assert_eq!(d(a).stands_before(d(b)), a.total_cmp(&b).is_lt());
            if a != 0.0 || b != 0.0 {
                same(d(a).min(d(b)), a.min(b), "minimum");
                same(d(a).max(d(b)), a.max(b), "maximum");
            }
        }
        assert_eq!(d(a).is_finite(), a.is_finite());
        assert_eq!(d(a).is_nan(), a.is_nan());
        assert_eq!(d(a).is_negative(), a.is_sign_negative());
        assert_eq!(d(a).abs().bits, a.abs().to_bits());
        assert_eq!(d(a).neg().bits, (-a).to_bits());
        if !a.is_nan() {
            same(d(a).clamp(d(0.5), d(5.0)), a.clamp(0.5, 5.0), "clamped");
        }
    }
}

#[test]
fn larger_zero_is_the_positive_one() {
    assert_eq!(d(-0.0).max(d(0.0)).bits, 0.0_f64.to_bits());
    assert_eq!(d(0.0).max(d(-0.0)).bits, 0.0_f64.to_bits());
    assert_eq!(d(-0.0).min(d(0.0)).bits, (-0.0_f64).to_bits());
    assert_eq!(d(0.0).min(d(-0.0)).bits, (-0.0_f64).to_bits());
}

#[test]
fn integers_become_the_nearest_number() {
    let mut value: u128 = 1;
    for _ in 0..126 {
        for other in [value - 1, value, value + 1, value + value / 3] {
            assert_eq!(Double::from_integer(other).bits, (other as f64).to_bits());
        }
        value *= 2;
    }
    assert_eq!(Double::from_integer(u128::from(u64::MAX)).bits, (u64::MAX as f64).to_bits());
}

#[test]
fn nanoseconds_become_seconds() {
    for nanoseconds in [0, 1, 999, 123_456_789, 500_000_000, 1_500_000_001, 98_765_432_109_876, u64::MAX] {
        let expected = std::time::Duration::from_nanos(nanoseconds).as_secs_f64();
        assert_eq!(Double::from_nanoseconds(nanoseconds).bits, expected.to_bits());
    }
    assert_eq!(f(Double::from_nanoseconds(500_000_000)), 0.5);
    assert_eq!(f(Double::from_nanoseconds(2_000_000_000)), 2.0);
}

#[test]
fn integers_are_cut_off_and_rounded_like_casts() {
    for value in samples() {
        assert_eq!(d(value).truncate(), value as u64, "{value}");
        assert_eq!(d(value).round_to_integer(), value.round() as u64, "{value}");
    }
    for (value, rounded) in [(0.5, 1), (1.5, 2), (2.5, 3), (2.4, 2), (-2.5, 0)] {
        assert_eq!(d(value).round_to_integer(), rounded);
    }
}

#[test]
fn fixed_places_agree_with_formatting() {
    for value in samples() {
        for places in [0_u32, 1, 2, 3, 9, 18, 19, 40] {
            let mut text = String::from("<");
            push_fixed(&mut text, d(value), places);
            let width = places as usize;
            assert_eq!(text, format!("<{value:.width$}"), "{value} with {places} places");
        }
    }
    for (value, text) in [(0.25, "0.2"), (0.35, "0.3"), (0.05, "0.1"), (2.5, "2.5"), (99.95, "100.0")] {
        let mut shown = String::new();
        push_fixed(&mut shown, d(value), 1);
        assert_eq!(shown, text);
    }
}

#[test]
fn every_place_of_a_number_can_be_asked_for() {
    for value in [5e-324, -2.225_073_858_507_201_4e-308, 0.1, 1e300, f64::MAX, 0.0] {
        for places in [323_u32, 1073, 1074, 1080] {
            let mut text = String::new();
            push_fixed(&mut text, d(value), places);
            let width = places as usize;
            assert_eq!(text, format!("{value:.width$}"), "{value} with {places} places");
        }
    }
}

#[test]
fn texts_are_read_like_the_standard_library_reads_them() {
    let mut texts: Vec<String> = Vec::new();
    for value in samples() {
        texts.push(format!("{value}"));
        texts.push(format!("{value:e}"));
        texts.push(format!("{value:.3}"));
    }
    for text in [
        "", "+", "-", ".", "1.", ".5", "+1.5", "-0", "1e5", "1E5", "1e+5", "1e-5", "1e", "1e+", "e5",
        "1.5e3.2", " 1", "1 ", "1_0", "0x10", "inf", "-inf", "+infinity", "INF", "nan", "NaN", "-nan",
        "infin", "1f", "1e400", "1e-400", "4.9e-324", "2.4703282292062327e-324",
        "2.4703282292062328e-324", "1.7976931348623157e308", "1.7976931348623159e308",
        "9007199254740993", "9007199254740992.9999999999999999999",
        "0.1000000000000000055511151231257827021181583404541015625",
        "123456789012345678901234567890", "00000000000000000000000000001.5",
        "0.000000000000000000000000000000000001", "1e99999999999999999999", "1e-99999999999999999999",
        "0e99999999999999999999", "8.98846567431158e307", "5e-324", "٣", "1\u{a0}",
    ] {
        texts.push(text.to_owned());
    }
    for text in texts {
        let characters: Vec<char> = text.chars().collect();
        match (Double::parse(&characters), text.parse::<f64>()) {
            (Some(found), Ok(expected)) => same(found, expected, &text),
            (None, Err(_)) => {}
            (found, expected) => panic!("{text:?}: {found:?} {expected:?}"),
        }
    }
}

#[test]
fn numbers_that_a_file_may_hold_are_not_negative() {
    let read = |text: &str| {
        let characters: Vec<char> = text.chars().collect();
        (parse_nonnegative(&characters).map(f), parse_positive(&characters).map(f))
    };
    assert_eq!(read("1.5"), (Some(1.5), Some(1.5)));
    assert_eq!(read("0"), (Some(0.0), None));
    assert_eq!(read("-1"), (None, None));
    assert_eq!(read("inf"), (None, None));
    assert_eq!(read("NaN"), (None, None));
    assert_eq!(read("word"), (None, None));
}
