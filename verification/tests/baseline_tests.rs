use taskflowrs::baseline_json::{field_text, json_field, parse_uint, parse_uint_field, uint_field, unquoted, IntParseError};

const SAMPLE: &str = "{\n  \"version\": 1,\n  \"label\": \"roundtrip-test\",\n  \"recorded_at_ms\": 1700000000123,\n  \"total_duration_us\": 300,\n  \"avg_task_us\": 150,\n  \"p50_us\": 100,\n  \"p95_us\": \"200\",\n  \"p99_us\": 200,\n  \"parallelism_efficiency\": 50.000000,\n  \"steal_rate\": 0.000000,\n  \"task_count\": 2\n}";

#[test]
fn field_text_is_cut_at_the_comma_and_trimmed() {
    assert_eq!(json_field(SAMPLE, "label").as_deref(), Some("\"roundtrip-test\""));
    assert_eq!(json_field(SAMPLE, "task_count").as_deref(), Some("2"));
    assert_eq!(json_field(SAMPLE, "steal_rate").as_deref(), Some("0.000000"));
    assert_eq!(json_field(SAMPLE, "missing"), None);
    assert_eq!(json_field("{\"a\":   7 }", "a").as_deref(), Some("7"));
    assert_eq!(json_field("{\"a\":}", "a").as_deref(), Some(""));
}

#[test]
fn first_occurrence_of_the_key_wins() {
    assert_eq!(json_field("{\"k\": 1, \"k\": 2}", "k").as_deref(), Some("1"));
}

#[test]
fn quotes_are_stripped_at_both_ends() {
    assert_eq!(unquoted("\"abc\""), "abc");
    assert_eq!(unquoted("\"\"x\""), "x");
    assert_eq!(unquoted("\"\"\""), "");
    assert_eq!(unquoted("a\"b"), "a\"b");
}

#[test]
fn integers_parse_as_rust_parses_them() {
    let max64 = u64::MAX as u128;
    assert_eq!(parse_uint("42", max64), Ok(42));
    assert_eq!(parse_uint("+42", max64), Ok(42));
    assert_eq!(parse_uint("", max64), Err(IntParseError::Empty));
    assert_eq!(parse_uint("+", max64), Err(IntParseError::InvalidDigit));
    assert_eq!(parse_uint("-5", max64), Err(IntParseError::InvalidDigit));
    assert_eq!(parse_uint("12a", max64), Err(IntParseError::InvalidDigit));
    assert_eq!(parse_uint("18446744073709551615", max64), Ok(18446744073709551615));
    assert_eq!(parse_uint("18446744073709551616", max64), Err(IntParseError::PosOverflow));
    assert_eq!(parse_uint("99999999999999999999x", max64), Err(IntParseError::PosOverflow));
    assert_eq!(parse_uint("340282366920938463463374607431768211455", u128::MAX), Ok(u128::MAX));
    for text in ["", "+", "-5", "12a", "18446744073709551616", "007"] {
        let ours = parse_uint(text, max64).map(|v| v as u64).map_err(|e| e.message().to_string());
        let std = text.parse::<u64>().map_err(|e| e.to_string());
        assert_eq!(ours, std, "text {:?}", text);
    }
}

#[test]
fn field_errors_name_the_key() {
    assert_eq!(field_text(SAMPLE, "nope"), Err("missing key: nope".to_string()));
    assert_eq!(
        parse_uint_field("p50_us", "abc", u64::MAX as u128),
        Err("parse error for p50_us: invalid digit found in string".to_string())
    );
    assert_eq!(uint_field(SAMPLE, "p95_us", u64::MAX as u128), Ok(200));
    assert_eq!(uint_field(SAMPLE, "recorded_at_ms", u128::MAX), Ok(1700000000123));
    assert_eq!(uint_field(SAMPLE, "absent", 10), Err("missing key: absent".to_string()));
    assert_eq!(
        uint_field(SAMPLE, "total_duration_us", 255),
        Err("parse error for total_duration_us: number too large to fit in target type".to_string())
    );
}
