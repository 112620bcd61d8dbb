use std::str::FromStr;

use volume_control::{new_volume, Change, Decimal, ParseError};

fn as_f64(d: Decimal) -> f64 {
    d.mantissa as f64 / 10f64.powi(d.scale as i32)
}

fn static_value(c: Change) -> Option<f64> {
    match c {
        Change::Static(d) => Some(as_f64(d)),
        Change::Percent(_) => None,
    }
}

fn percent_value(c: Change) -> Option<f64> {
    match c {
        Change::Percent(d) => Some(as_f64(d)),
        Change::Static(_) => None,
    }
}

fn dec(mantissa: i128, scale: u32) -> Decimal {
    Decimal::new(mantissa, scale)
}

fn volume_after(current: Decimal, change: &str) -> f64 {
    as_f64(new_volume(current, Change::parse(change).unwrap()))
}

#[test]
fn test_change_parse() {
    assert_eq!(static_value(Change::from_str("+5").unwrap()), Some(5.));
    assert_eq!(percent_value(Change::from_str("+5%").unwrap()), Some(5.));
    assert_eq!(percent_value(Change::from_str("+0.001%").unwrap()), Some(0.001));
    assert_eq!(static_value(Change::from_str("-5").unwrap()), Some(-5.));
    assert_eq!(percent_value(Change::from_str("-5%").unwrap()), Some(-5.));
    assert_eq!(
        percent_value(Change::from_str("-0.001%").unwrap()),
        Some(-0.001)
    );
    assert!(Change::from_str("0.001").is_err());
    assert!(Change::from_str("0.001%").is_err());
    assert!(Change::from_str("x001%").is_err());
}

#[test]
fn parse_keeps_exact_digits() {
    assert_eq!(Change::parse("+5").unwrap(), Change::Static(dec(5, 0)));
    assert_eq!(Change::parse("-0.001%").unwrap(), Change::Percent(dec(-1, 3)));
    assert_eq!(Change::parse("+5.").unwrap(), Change::Static(dec(5, 0)));
    assert_eq!(Change::parse("+.5").unwrap(), Change::Static(dec(5, 1)));
    assert_eq!(Change::parse("+12.50%").unwrap(), Change::Percent(dec(125, 1)));
}

#[test]
fn parse_refuses_unsigned_input() {
    for s in ["5", "5%", "0.001", "0.001%", "", "%", "+", "-%", "+5 ", " +5", "+5%%", "+5x"] {
        assert!(matches!(Change::parse(s), Err(ParseError::Malformed { .. })), "{s}");
    }
}

#[test]
fn parse_refuses_non_numeric_body() {
    assert!(matches!(Change::parse("x001%"), Err(ParseError::Malformed { .. })));
    assert!(matches!(Change::parse("+x001%"), Err(ParseError::Malformed { .. })));
}

#[test]
fn parse_refuses_invalid_numbers() {
    for (s, number) in [
        ("+...", "+..."),
        ("+5.5.5", "+5.5.5"),
        ("+5.5.5%", "+5.5.5"),
        ("+.", "+."),
        ("-.%", "-."),
        ("+1.2.3%", "+1.2.3"),
    ] {
        match Change::parse(s) {
            Err(ParseError::InvalidNumber { substring }) => assert_eq!(substring, number),
            other => panic!("{s}: {other:?}"),
        }
    }
}

#[test]
fn parse_drops_zeros_that_end_the_fraction() {
    assert_eq!(
        Change::parse("+1.0000000000000000000").unwrap(),
        Change::Static(dec(1, 0))
    );
    assert_eq!(
        Change::parse("-0.50000000000000000000000%").unwrap(),
        Change::Percent(dec(-5, 1))
    );
    assert_eq!(Change::parse("+100").unwrap(), Change::Static(dec(100, 0)));
}

#[test]
fn parse_refuses_numbers_too_long() {
    assert!(matches!(
        Change::parse("+1000000000000000000"),
        Err(ParseError::TooLong { .. })
    ));
    match Change::parse("+0.0000000000000000001%") {
        Err(ParseError::TooLong { substring }) => assert_eq!(substring, "+0.0000000000000000001"),
        other => panic!("{other:?}"),
    }
    assert_eq!(
        Change::parse("+999999999999999999").unwrap(),
        Change::Static(dec(999_999_999_999_999_999, 0))
    );
}

#[test]
fn static_change_adds() {
    let r = Change::Static(dec(1, 1)).apply(dec(50, 2));
    assert_eq!(as_f64(r), 0.6);
    let r = Change::Static(dec(-25, 2)).apply(dec(1, 0));
    assert_eq!(r, dec(75, 2));
}

#[test]
fn percent_change_rescales() {
    let r = Change::Percent(dec(10, 0)).apply(dec(50, 2));
    assert_eq!(r, dec(500, 4));
    assert_eq!(as_f64(r), 0.05);
    let r = Change::Percent(dec(50, 0)).apply(dec(190, 2));
    assert_eq!(as_f64(r), 0.95);
}

#[test]
fn result_is_clamped() {
    assert_eq!(volume_after(dec(5, 1), "-3"), 0.0);
    assert_eq!(volume_after(dec(5, 1), "+300%"), 1.5);
    assert_eq!(volume_after(dec(5, 1), "+1000%"), 2.0);
    assert_eq!(volume_after(dec(5, 1), "-10%"), 0.0);
    assert_eq!(volume_after(dec(2, 0), "+0"), 2.0);
    assert_eq!(volume_after(dec(0, 0), "+999999999999999999"), 2.0);
}

#[test]
fn result_is_rounded_to_hundredths() {
    assert_eq!(volume_after(dec(40, 2), "+0.001"), 0.4);
    assert_eq!(volume_after(dec(40, 2), "+0.009"), 0.41);
    assert_eq!(volume_after(dec(40, 2), "+0.005"), 0.41);
    assert_eq!(volume_after(dec(1, 0), "+0.333333"), 1.33);
}

#[test]
fn percent_is_a_rescale_not_an_increment() {
    assert_eq!(volume_after(dec(50, 2), "+10%"), 0.05);
}

#[test]
fn static_increment_scenario() {
    assert_eq!(volume_after(dec(50, 2), "+0.1"), 0.6);
}

#[test]
fn percent_shrinks_without_clamping() {
    assert_eq!(volume_after(dec(190, 2), "+50%"), 0.95);
}

#[test]
fn large_increment_clamps_to_maximum() {
    assert_eq!(volume_after(dec(10, 1), "+5"), 2.0);
}
