use rowstats::fixed::{format_fixed, parse_fixed};

fn parse(s: &str) -> Option<i32> {
    parse_fixed(&s.as_bytes().to_vec())
}

fn fmt(v: i64) -> String {
    String::from_utf8(format_fixed(v)).unwrap()
}

#[test]
fn parse_negative_round_trip_value() {
    assert_eq!(parse("-3.7"), Some(-37));
}

#[test]
fn format_negative_round_trip_value() {
    assert_eq!(fmt(-37), "-3.7");
}

#[test]
fn parse_simple_values() {
    assert_eq!(parse("0.0"), Some(0));
    assert_eq!(parse("10.0"), Some(100));
    assert_eq!(parse("15.0"), Some(150));
    assert_eq!(parse("-5.5"), Some(-55));
    assert_eq!(parse("99.9"), Some(999));
    assert_eq!(parse("-0.1"), Some(-1));
}

#[test]
fn parse_extremes() {
    assert_eq!(parse("214748364.7"), Some(i32::MAX));
    assert_eq!(parse("-214748364.8"), Some(i32::MIN));
    assert_eq!(parse("214748364.8"), None);
    assert_eq!(parse("-214748364.9"), None);
    assert_eq!(parse("9999999999999999999.9"), None);
}

#[test]
fn parse_rejects_malformed_text() {
    assert_eq!(parse(""), None);
    assert_eq!(parse("-"), None);
    assert_eq!(parse("12"), None);
    assert_eq!(parse("3.77"), None);
    assert_eq!(parse(".5"), None);
    assert_eq!(parse("-.5"), None);
    assert_eq!(parse("a.5"), None);
    assert_eq!(parse("1x.5"), None);
    assert_eq!(parse("1.x"), None);
    assert_eq!(parse("1..5"), None);
    assert_eq!(parse("--1.5"), None);
}

#[test]
fn format_simple_values() {
    assert_eq!(fmt(0), "0.0");
    assert_eq!(fmt(5), "0.5");
    assert_eq!(fmt(-5), "-0.5");
    assert_eq!(fmt(100), "10.0");
    assert_eq!(fmt(150), "15.0");
    assert_eq!(fmt(-55), "-5.5");
    assert_eq!(fmt(999), "99.9");
}

#[test]
fn format_extremes() {
    assert_eq!(fmt(i32::MAX as i64), "214748364.7");
    assert_eq!(fmt(i32::MIN as i64), "-214748364.8");
}

#[test]
fn format_then_parse_restores_value() {
    for v in [
        -2147483648i64,
        -1000,
        -37,
        -1,
        0,
        1,
        9,
        10,
        37,
        12345,
        2147483647,
    ] {
        assert_eq!(parse(&fmt(v)), Some(v as i32));
    }
}
