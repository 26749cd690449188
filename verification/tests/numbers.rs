//! Single-precision numbers by their encodings, texts and times.

use pq_meter::binary32::Binary32;
use pq_meter::clock::{parse_time, time_text, Timestamp};
use pq_meter::fixed_point::{explicit, fixed};
use pq_meter::text::{
    chars_of, decimal, hex, is_blank, join, lines, parse_unsigned, same_text, signed_decimal,
    strip_prefix, text_of, trim, wide_decimal,
};

fn b(value: f32) -> Binary32 {
    Binary32 { bits: value.to_bits() }
}

fn f(value: Binary32) -> f32 {
    f32::from_bits(value.bits)
}

/// Encodings at every corner: zeros, subnormals, ordinary values, the largest
/// finite ones, infinities and not-a-numbers, in both signs.
fn corners() -> Vec<f32> {
    let mut values: Vec<f32> = Vec::new();
    for magnitude in [
        0x0000_0000u32,
        0x0000_0001,
        0x0000_0002,
        0x0000_ffff,
        0x007f_ffff,
        0x0080_0000,
        0x0080_0001,
        0x00ff_ffff,
        0x3400_0000,
        0x3dcc_cccd,
        0x3eaa_aaab,
        0x3f7f_ffff,
        0x3f80_0000,
        0x3f80_0001,
        0x3fc0_0000,
        0x4049_0fdb,
        0x42c8_0000,
        0x4366_0000,
        0x4b7f_ffff,
        0x4b80_0000,
        0x4b80_0001,
        0x5f00_0000,
        0x7eff_ffff,
        0x7f7f_fffe,
        0x7f7f_ffff,
        0x7f80_0000,
        0x7fc0_0000,
    ] {
        values.push(f32::from_bits(magnitude));
        values.push(f32::from_bits(magnitude | 0x8000_0000));
    }
    values
}

/// A long run of varied encodings.
fn varied(count: usize) -> Vec<f32> {
    let mut state: u64 = 0x9e37_79b9_7f4a_7c15;
    let mut values = Vec::new();
    for _ in 0..count {
        state ^= state << 13;
        state ^= state >> 7;
        state ^= state << 17;
        values.push(f32::from_bits((state >> 16) as u32));
    }
    values
}

fn same(found: Binary32, expected: f32) -> bool {
    if expected.is_nan() {
        f(found).is_nan()
    } else {
        found.bits == expected.to_bits()
    }
}

fn check_pair(x: f32, y: f32) {
    assert!(same(b(x).plus(b(y)), x + y), "{x:e} + {y:e}");
    assert!(same(b(x).minus(b(y)), x - y), "{x:e} - {y:e}");
    assert_eq!(b(x).lt(b(y)), x < y, "{x:e} < {y:e}");
    assert_eq!(b(x).le(b(y)), x <= y, "{x:e} <= {y:e}");
    assert_eq!(
        b(x).precedes(b(y)),
        x.total_cmp(&y) == std::cmp::Ordering::Less,
        "{x:e} before {y:e}"
    );
    if y.is_finite() && y != 0.0 {
        assert!(same(b(x).divided_by(b(y)), x / y), "{x:e} / {y:e}");
    }
}

#[test]
fn arithmetic_and_order_agree_with_the_machine_at_the_corners() {
    for x in corners() {
        for y in corners() {
            check_pair(x, y);
        }
    }
}

#[test]
fn arithmetic_and_order_agree_with_the_machine_on_varied_values() {
    let values = varied(20_001);
    for pair in values.windows(2) {
        check_pair(pair[0], pair[1]);
    }
    // Values of similar size, where rounding and cancellation happen.
    for value in varied(20_000) {
        let x = (value.to_bits() % 2_000_003) as f32 / 7.0 - 100_000.0;
        let y = (value.to_bits() / 3 % 1_000_003) as f32 / 11.0 - 50_000.0;
        check_pair(x, y);
    }
}

#[test]
fn signs_and_kinds_agree_with_the_machine() {
    for x in corners() {
        assert_eq!(b(x).is_finite(), x.is_finite());
        assert_eq!(b(x).is_nan(), x.is_nan());
        assert_eq!(b(x).abs().bits, x.abs().to_bits());
        assert_eq!(b(x).negated().bits, (-x).to_bits());
        let floored = f(b(x).at_least_zero());
        assert_eq!(floored, x.max(0.0));
    }
    assert_eq!(Binary32::zero(), b(0.0));
}

#[test]
fn integers_become_the_nearest_numbers() {
    for count in [
        0u64,
        1,
        2,
        3,
        16_777_215,
        16_777_216,
        16_777_217,
        16_777_218,
        16_777_219,
        33_554_431,
        33_554_434,
        33_554_435,
        u64::MAX / 3,
        u64::MAX - 1,
        u64::MAX,
    ] {
        assert_eq!(Binary32::from_count(count).bits, (count as f32).to_bits(), "{count}");
        assert_eq!(
            Binary32::from_integer(-(count as i128)).bits,
            if count == 0 { 0 } else { (-(count as f32)).to_bits() },
            "-{count}"
        );
    }
}

#[test]
fn fixed_decimals_agree_with_the_machine() {
    for x in corners().into_iter().chain(varied(3_000)) {
        if !x.is_finite() {
            continue;
        }
        for decimals in 0..=3usize {
            assert_eq!(fixed(b(x), decimals), format!("{x:.decimals$}"), "{x:e} with {decimals}");
            assert_eq!(explicit(b(x), decimals), format!("{x:+.decimals$}"));
        }
    }
    assert_eq!(fixed(b(0.25), 1), "0.2");
    assert_eq!(fixed(b(0.75), 1), "0.8");
    assert_eq!(fixed(b(-0.04), 1), "-0.0");
    assert_eq!(fixed(b(-36.59), 2), "-36.59");
    assert_eq!(explicit(b(30.0), 1), "+30.0");
    assert_eq!(explicit(b(-30.0), 1), "-30.0");
}

#[test]
fn any_number_of_decimals_can_be_asked_for() {
    for x in corners().into_iter().chain(varied(60)) {
        if !x.is_finite() {
            continue;
        }
        for decimals in [4usize, 5, 7, 12, 20, 45, 148, 149, 160] {
            assert_eq!(fixed(b(x), decimals), format!("{x:.decimals$}"), "{x:e} with {decimals}");
            assert_eq!(explicit(b(x), decimals), format!("{x:+.decimals$}"));
        }
    }
    assert_eq!(fixed(b(0.1), 10), "0.1000000015");
    assert_eq!(fixed(b(2.5), 6), "2.500000");
}

#[test]
fn whole_numbers_become_digits_and_back() {
    for value in [0u64, 1, 9, 10, 99, 100, 12345, u64::MAX] {
        assert_eq!(decimal(value), value.to_string());
        assert_eq!(parse_unsigned(&decimal(value), u64::MAX), Some(value));
        assert_eq!(hex(value, 16), format!("{value:016x}"));
    }
    assert_eq!(wide_decimal(u128::MAX), u128::MAX.to_string());
    for value in [0i64, -1, 5, i64::MIN, i64::MAX] {
        assert_eq!(signed_decimal(value), value.to_string());
    }
    assert_eq!(parse_unsigned("+7", 100), Some(7));
    assert_eq!(parse_unsigned("007", 100), Some(7));
    assert_eq!(parse_unsigned("100", 100), Some(100));
    for bad in ["", "+", "-1", "101", "1.5", " 1", "x", "18446744073709551616"] {
        assert_eq!(parse_unsigned(bad, 100), None, "{bad}");
    }
}

#[test]
fn texts_are_cut_and_joined_like_the_standard_ones() {
    for text in ["", "  ", "\t a b \u{3000}\n", "ä\u{2028}x\u{85}", "plain"] {
        assert_eq!(trim(text), text.trim());
        assert_eq!(is_blank(text), text.trim().is_empty());
        assert_eq!(chars_of(text), text.chars().collect::<Vec<char>>());
    }
    for text in ["", "a", "a\nb", "a\r\nb\n", "\n\n", "a\rb\n", "x\n\r\n"] {
        assert_eq!(
            lines(text),
            text.lines().map(str::to_owned).collect::<Vec<String>>(),
            "{text:?}"
        );
    }
    assert_eq!(strip_prefix("mark:rest", "mark:"), Some("rest".to_owned()));
    assert_eq!(strip_prefix("mar", "mark:"), None);
    assert!(same_text("ä", "ä"));
    assert!(!same_text("a", "ab"));
    let parts = vec!["a".to_owned(), "".to_owned(), "c".to_owned()];
    assert_eq!(join(&parts, " | "), "a |  | c");
    assert_eq!(text_of(&vec!['a', 'ö', 'c'], 1, 3), "öc");
}

#[test]
fn times_are_written_and_read_by_rfc_3339() {
    let at = Timestamp { secs: 1_735_787_045, nanos: 0 };
    assert_eq!(time_text(at), "2025-01-02T03:04:05+00:00");
    assert_eq!(parse_time("2025-01-02T03:04:05Z"), Some(at));
    assert_eq!(parse_time("2025-01-02T05:04:05+02:00"), Some(at));
    assert_eq!(parse_time("2025-01-02"), None);
    assert_eq!(parse_time("yesterday"), None);
    let fine = Timestamp { secs: 1_735_787_045, nanos: 120_000_000 };
    assert_eq!(time_text(fine), "2025-01-02T03:04:05.120+00:00");
    assert_eq!(parse_time(&time_text(fine)), Some(fine));
    let old = Timestamp { secs: -62_167_219_200, nanos: 1 };
    assert_eq!(parse_time(&time_text(old)), Some(old));
}

#[test]
fn times_are_compared_and_measured() {
    let at = Timestamp { secs: 100, nanos: 500_000_000 };
    let later = Timestamp { secs: 111, nanos: 499_999_999 };
    assert!(at.is_before(later));
    assert!(!later.is_before(at));
    assert!(!at.is_before(at));
    assert_eq!(later.whole_seconds_since(at), 10);
    assert_eq!(at.whole_seconds_since(later), 0);
    assert_eq!(at.to_millis(), 100_500);
    assert_eq!(Timestamp { secs: -1, nanos: 250_000_000 }.to_millis(), -750);
    assert_eq!(
        later.a_minute_before(),
        Timestamp { secs: 51, nanos: 499_000_000 }
    );
}
