use latency_probe::digits::{decimal_string, parse_decimal};
use latency_probe::duration::{
    format_duration, is_admitted, parse_span, DurationRange, ParseFault,
};
use latency_probe::fixed::{align_right, precise_string, short_string};
use std::time::Duration;

#[test]
fn duration_formatter() {
    let d = Duration::from_nanos(123);
    let f = format_duration(d.as_nanos()).to_string();
    assert_eq!("123ns", f);

    let d = Duration::from_nanos(123_456);
    let f = format_duration(d.as_nanos()).to_string();
    assert_eq!("123.456µs", f);

    let d = Duration::from_nanos(123_456_789);
    let f = format_duration(d.as_nanos()).to_string();
    assert_eq!("123.456789ms", f);

    let d = Duration::from_nanos(23_456_789_012);
    let f = format_duration(d.as_nanos()).to_string();
    assert_eq!("23.456789012s", f);

    let d = Duration::from_secs(90);
    let f = format_duration(d.as_nanos()).to_string();
    assert_eq!("1.5m", f);

    let d = Duration::from_secs(1515);
    let f = format_duration(d.as_nanos()).to_string();
    assert_eq!("25.25m", f);

    let d = Duration::from_secs(7200);
    let f = format_duration(d.as_nanos()).to_string();
    assert_eq!("2h", f);

    let d = Duration::from_nanos(23_456_789_012);
    let f = format_duration(d.as_nanos()).to_padded_string(8, Some(2));
    assert_eq!("   23.46s", f);
}

#[test]
fn unit_boundaries() {
    assert_eq!("0ns", format_duration(0).to_string());
    assert_eq!("999ns", format_duration(999).to_string());
    assert_eq!("1µs", format_duration(1_000).to_string());
    assert_eq!("999.999µs", format_duration(999_999).to_string());
    assert_eq!("1ms", format_duration(1_000_000).to_string());
    assert_eq!("1s", format_duration(1_000_000_000).to_string());
    assert_eq!("59.999999999s", format_duration(59_999_999_999).to_string());
    assert_eq!("1m", format_duration(60_000_000_000).to_string());
    assert_eq!("1h", format_duration(3_600_000_000_000).to_string());
    assert_eq!("1.666666667m", format_duration(100_000_000_000).to_string());
}

#[test]
fn precision_rounds_half_up_and_carries() {
    assert_eq!("1000.00µs", format_duration(999_995).to_padded_string(0, Some(2)));
    assert_eq!("123.00ns", format_duration(123).to_padded_string(0, Some(2)));
    assert_eq!("24s", format_duration(23_500_000_000).to_padded_string(0, Some(0)));
    assert_eq!("  1.5000s", format_duration(1_500_000_000).to_padded_string(8, Some(4)));
    assert_eq!(
        "1.66666666666666666700m",
        format_duration(100_000_000_000).to_padded_string(0, Some(20))
    );
}

#[test]
fn unitify_gives_unit_and_size() {
    assert_eq!(("ns", 1), format_duration(5).unitify());
    assert_eq!(("µs", 1_000), format_duration(5_000).unitify());
    assert_eq!(("ms", 1_000_000), format_duration(5_000_000).unitify());
    assert_eq!(("s", 1_000_000_000), format_duration(5_000_000_000).unitify());
    assert_eq!(("m", 60_000_000_000), format_duration(300_000_000_000).unitify());
    assert_eq!(("h", 3_600_000_000_000), format_duration(18_000_000_000_000).unitify());
}

#[test]
fn range_from_one_span_is_flat() {
    let range = DurationRange::parse("150ms").unwrap();
    assert!(range.is_flat());
    assert_eq!(150_000_000, range.low());
    assert_eq!(150_000_000, range.high());
    for _ in 0..20 {
        assert_eq!(150_000_000, range.get_random());
    }
}

#[test]
fn range_from_two_spans() {
    let range: DurationRange = "10ms..20ms".parse().unwrap();
    assert!(!range.is_flat());
    assert_eq!(10_000_000, range.low());
    assert_eq!(20_000_000, range.high());
}

#[test]
fn samples_stay_in_range() {
    let range = DurationRange::parse("10ms..20ms").unwrap();
    for _ in 0..1000 {
        let nanos = range.get_random();
        assert!(10_000_000 <= nanos && nanos < 20_000_000);
    }
    let narrow = DurationRange::parse("5ns..6ns").unwrap();
    for _ in 0..50 {
        assert_eq!(5, narrow.get_random());
    }
}

#[test]
fn range_with_equal_bounds_is_flat() {
    let range = DurationRange::parse("1s..1000ms").unwrap();
    assert!(range.is_flat());
    assert_eq!(1_000_000_000, range.get_random());
}

#[test]
fn range_faults_name_the_part() {
    let e = DurationRange::parse("10ms..abc").unwrap_err();
    assert_eq!("abc", e.text);
    assert_eq!(ParseFault::NumberExpected { offset: 0 }, e.fault);

    let e = DurationRange::parse("10xs..20ms").unwrap_err();
    assert_eq!("10xs", e.text);
    assert_eq!(ParseFault::UnknownUnit { start: 2, end: 4 }, e.fault);

    let e = DurationRange::parse("").unwrap_err();
    assert_eq!("", e.text);
    assert_eq!(ParseFault::Empty, e.fault);

    let e = DurationRange::parse("10ms..").unwrap_err();
    assert_eq!("", e.text);
    assert_eq!(ParseFault::Empty, e.fault);

    let e = DurationRange::parse("1_0ms").unwrap_err();
    assert_eq!("1_0ms", e.text);
    assert_eq!(ParseFault::InvalidCharacter { offset: 1 }, e.fault);

    let e = DurationRange::parse("0.5ns").unwrap_err();
    assert_eq!(ParseFault::NumberOverflow, e.fault);
}

#[test]
fn reversed_range_is_refused() {
    let e = DurationRange::parse("20ms..10ms").unwrap_err();
    assert_eq!("20ms..10ms", e.text);
    assert_eq!(ParseFault::Reversed, e.fault);
}

#[test]
fn long_texts_with_short_numbers_are_read() {
    let range = DurationRange::parse("100.123456789s").unwrap();
    assert!(range.is_flat());
    assert_eq!(100_123_456_789, range.low());
    let range = DurationRange::parse("1h 30m 15s 500ms 250us 125ns").unwrap();
    assert_eq!(5_415_500_250_125, range.low());
    let range = DurationRange::parse("1234567890ms..1234567890s").unwrap();
    assert_eq!(1_234_567_890_000_000, range.low());
    assert_eq!(1_234_567_890_000_000_000, range.high());
    let fifty = "1s ".repeat(50);
    assert_eq!(Ok(50_000_000_000), parse_span(&fifty));
    assert_eq!(Ok(12_345_678_901), parse_span("12345678901ns"));
    assert_eq!(Ok(10_000_000_001), parse_span("1 0s 1ns"));
}

#[test]
fn numbers_too_long_or_too_many_are_refused() {
    let e = DurationRange::parse("123456789012ns").unwrap_err();
    assert_eq!("123456789012ns", e.text);
    assert_eq!(ParseFault::NumberOverflow, e.fault);
    assert_eq!(Err(ParseFault::NumberOverflow), parse_span("12345678901s 1s"));
    assert_eq!(Err(ParseFault::NumberOverflow), parse_span("123456 789012ns"));
    assert_eq!(
        Err(ParseFault::NumberOverflow),
        parse_span("1844674407 3709551615s 1000000000ns")
    );
    assert_eq!(Err(ParseFault::NumberOverflow), parse_span("18446744073709551615s 1000000000ns"));
    let fifty_one = "1s ".repeat(51);
    assert_eq!(Err(ParseFault::NumberOverflow), parse_span(&fifty_one));
}

#[test]
fn admitted_texts() {
    assert!(is_admitted(""));
    assert!(is_admitted("no digits at all"));
    assert!(is_admitted("12345678901"));
    assert!(!is_admitted("123456789012"));
    assert!(is_admitted("1234567890.1234567890"));
    assert!(is_admitted("1234567890s1234567890\u{b5}s1234567890"));
    assert!(!is_admitted("1234567890 1s 1s"));
    assert!(!is_admitted("1234567890_1s 1s"));
    assert!(is_admitted(&"9m".repeat(50)));
    assert!(!is_admitted(&"9m".repeat(51)));
}

#[test]
fn range_from_the_readings_of_its_parts() {
    let flat = DurationRange::range_from_spans("5s", "5s", None, Ok(5), Err(ParseFault::Empty));
    let flat = flat.unwrap();
    assert_eq!((5, 5), (flat.low(), flat.high()));
    let range =
        DurationRange::range_from_spans("a..b", "a", Some("b"), Ok(3), Ok(9)).unwrap();
    assert_eq!((3, 9), (range.low(), range.high()));
    let same = DurationRange::range_from_spans("a..b", "a", Some("b"), Ok(9), Ok(9)).unwrap();
    assert!(same.is_flat());
    let e = DurationRange::range_from_spans("a..b", "a", Some("b"), Ok(9), Ok(3)).unwrap_err();
    assert_eq!(("a..b", ParseFault::Reversed), (e.text.as_str(), e.fault));
    let e = DurationRange::range_from_spans(
        "a..b",
        "a",
        Some("b"),
        Err(ParseFault::Empty),
        Err(ParseFault::NumberOverflow),
    )
    .unwrap_err();
    assert_eq!(("a", ParseFault::Empty), (e.text.as_str(), e.fault));
    let e = DurationRange::range_from_spans(
        "a..b",
        "a",
        Some("b"),
        Ok(1),
        Err(ParseFault::NumberExpected { offset: 0 }),
    )
    .unwrap_err();
    assert_eq!(("b", ParseFault::NumberExpected { offset: 0 }), (e.text.as_str(), e.fault));
    let e = DurationRange::range_from_spans("x", "x", None, Err(ParseFault::Empty), Ok(1))
        .unwrap_err();
    assert_eq!(("x", ParseFault::Empty), (e.text.as_str(), e.fault));
}

#[test]
fn range_splits_at_first_dots() {
    let e = DurationRange::parse("1s..2s..3s").unwrap_err();
    assert_eq!("2s..3s", e.text);
}

#[test]
fn text_pieces() {
    assert_eq!("0", decimal_string(0));
    assert_eq!("340282366920938463463374607431768211455", decimal_string(u128::MAX));
    assert_eq!(Some(0), parse_decimal("000"));
    assert_eq!(Some(u64::MAX), parse_decimal("18446744073709551615"));
    assert_eq!(None, parse_decimal("18446744073709551616"));
    assert_eq!(None, parse_decimal(""));
    assert_eq!(None, parse_decimal("12a"));
    assert_eq!(None, parse_decimal("+1"));
    assert_eq!("0.33", precise_string(1, 3, 2));
    assert_eq!("0.67", precise_string(2, 3, 2));
    assert_eq!("1", precise_string(2, 3, 0));
    assert_eq!("0.5", precise_string(1, 2, 1));
    assert_eq!("1", precise_string(1, 2, 0));
    assert_eq!("1.000", precise_string(9_999, 10_000, 3));
    assert_eq!("340282366920938463463374607431768211455.0", precise_string(u128::MAX, 1, 1));
    assert_eq!("0.333333333", short_string(1, 3));
    assert_eq!("0.25", short_string(1, 4));
    assert_eq!("7", short_string(7, 1));
    assert_eq!("1", short_string(9_999_999_999, 10_000_000_000));
    assert_eq!("   ab", align_right("ab", 5));
    assert_eq!("abcdef", align_right("abcdef", 5));
    assert_eq!(" µs", align_right("µs", 3));
}
