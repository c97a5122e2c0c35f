use steam_tables::number::{format_decimal, parse_decimal, parse_field};
use steam_tables::math::SCALE;

fn chars(s: &str) -> Vec<char> {
    s.chars().collect()
}

fn parse(s: &str) -> Option<i64> {
    parse_field(&chars(s))
}

#[test]
fn numerals_read_as_units() {
    assert_eq!(parse("0"), Some(0));
    assert_eq!(parse("1960"), Some(1960 * SCALE));
    assert_eq!(parse(" 0.5 "), Some(SCALE / 2));
    assert_eq!(parse("-0.0006117"), Some(-611_700));
    assert_eq!(parse("+7."), Some(7 * SCALE));
    assert_eq!(parse(".25"), Some(SCALE / 4));
    assert_eq!(parse("0.000000001"), Some(1));
    assert_eq!(parse("0.5000000000"), Some(SCALE / 2));
    assert_eq!(parse("\u{a0}\u{3000}2\u{b}"), Some(2 * SCALE));
}

#[test]
fn numerals_with_an_exponent() {
    assert_eq!(parse("1e3"), Some(1000 * SCALE));
    assert_eq!(parse("1E3"), Some(1000 * SCALE));
    assert_eq!(parse("2.5e-3"), Some(2_500_000));
    assert_eq!(parse("-1.5E+2"), Some(-150 * SCALE));
    assert_eq!(parse("1e-9"), Some(1));
    assert_eq!(parse("0e99999999999999999999999999999999999"), Some(0));
    assert_eq!(parse("12345e-13"), None);
    assert_eq!(parse("1e9"), None);
    assert_eq!(parse("1e"), None);
    assert_eq!(parse("e5"), None);
    assert_eq!(parse("1e2e3"), None);
    assert_eq!(parse("1e-99999999999999999999999999999999999"), None);
}

#[test]
fn malformed_numerals_are_refused() {
    assert_eq!(parse(""), None);
    assert_eq!(parse("."), None);
    assert_eq!(parse("-"), None);
    assert_eq!(parse("1.2.3"), None);
    assert_eq!(parse("0.0000000019"), None);
    assert_eq!(parse("inf"), None);
    assert_eq!(parse("liquid"), None);
    assert_eq!(parse("1000000000"), None);
    assert_eq!(parse_decimal(&chars(" 1")), None);
}

#[test]
fn quantities_write_as_numerals() {
    assert_eq!(format_decimal(0), "0");
    assert_eq!(format_decimal(1960 * SCALE), "1960");
    assert_eq!(format_decimal(SCALE / 2), "0.5");
    assert_eq!(format_decimal(-611_700), "-0.0006117");
    assert_eq!(format_decimal(1), "0.000000001");
}

#[test]
fn numerals_read_back_as_written() {
    for v in [0, 1, -1, SCALE, -SCALE / 3, 123_456_789_012, 999_999_999_999_999_999, -999_999_999_999_999_999] {
        assert_eq!(parse(&format_decimal(v)), Some(v));
    }
}
