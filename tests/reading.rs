use thermo_logger::reading::{parse_decimal, reading_chars, Reading};
use thermo_logger::text::chars_of;

fn parse(s: &str) -> Option<Reading> {
    let cs = chars_of(s);
    parse_decimal(&cs, 0, cs.len())
}

fn text(r: Reading) -> String {
    reading_chars(r).into_iter().collect()
}

#[test]
fn decimal_forms() {
    assert_eq!(parse("21.5"), Some(Reading::new(215, 1)));
    assert_eq!(parse("-0.050"), Some(Reading::new(-50, 3)));
    assert_eq!(parse("-9223372036854775808"), Some(Reading::new(i64::MIN, 0)));
    assert_eq!(parse("9223372036854775808"), None);
    assert_eq!(parse("007"), Some(Reading::new(7, 0)));
    assert_eq!(parse(""), None);
    assert_eq!(parse("-"), None);
    assert_eq!(parse("."), None);
    assert_eq!(parse("5e"), None);
    assert_eq!(parse("e5"), None);
    assert_eq!(parse("5e-+1"), None);
    assert_eq!(parse("5e1.5"), None);
    assert_eq!(parse("--1"), None);
    assert_eq!(parse("nan"), None);
}

#[test]
fn exponent_forms() {
    assert_eq!(parse("1e5"), Some(Reading::new(100_000, 0)));
    assert_eq!(parse("2.15e1"), Some(Reading::new(215, 1)));
    assert_eq!(parse("2.15E+2"), Some(Reading::new(215, 0)));
    assert_eq!(parse("2.15e3"), Some(Reading::new(2150, 0)));
    assert_eq!(parse("1E-3"), Some(Reading::new(1, 3)));
    assert_eq!(parse("-2.5e-1"), Some(Reading::new(-25, 2)));
    assert_eq!(parse("0e99999999999999999999"), None);
    assert_eq!(parse("0e9999999999"), Some(Reading::new(0, 0)));
    assert_eq!(parse("9e18"), Some(Reading::new(9_000_000_000_000_000_000, 0)));
    assert_eq!(parse("1e19"), None);
    assert_eq!(parse("-9.223372036854775808e18"), Some(Reading::new(i64::MIN, 0)));
}

#[test]
fn decimal_text() {
    assert_eq!(text(Reading::new(215, 1)), "21.5");
    assert_eq!(text(Reading::new(-50, 3)), "-0.050");
    assert_eq!(text(Reading::new(5, 4)), "0.0005");
    assert_eq!(text(Reading::new(0, 2)), "0.00");
    assert_eq!(text(Reading::new(123, 0)), "123");
}

#[test]
fn decimal_text_reads_back() {
    for units in [0i64, 1, -1, 9, 10, -99, 215, 1_000_000, i64::MAX, -i64::MAX, i64::MIN] {
        for scale in [0usize, 1, 2, 5, 25] {
            let r = Reading::new(units, scale);
            assert_eq!(parse(&text(r)), Some(r));
        }
    }
}
