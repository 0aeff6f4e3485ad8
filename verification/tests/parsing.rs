use price_gauge::Price;

#[test]
fn parses_plain_decimals() {
    assert_eq!(Price::parse("13.8").unwrap().units, 13_800_000_000);
    assert_eq!(Price::parse("13.98").unwrap().units, 13_980_000_000);
    assert_eq!(Price::parse("0").unwrap().units, 0);
    assert_eq!(Price::parse("042").unwrap().units, 42_000_000_000);
}

#[test]
fn parses_signs() {
    assert_eq!(Price::parse("+3").unwrap().units, 3_000_000_000);
    assert_eq!(Price::parse("-2.5").unwrap().units, -2_500_000_000);
    assert_eq!(Price::parse("-0").unwrap().units, 0);
}

#[test]
fn parses_bare_dot_forms() {
    assert_eq!(Price::parse(".5").unwrap().units, 500_000_000);
    assert_eq!(Price::parse("5.").unwrap().units, 5_000_000_000);
}

#[test]
fn parses_full_fractional_precision() {
    assert_eq!(Price::parse("0.000000001").unwrap().units, 1);
    assert_eq!(Price::parse("1.234567891").unwrap().units, 1_234_567_891);
}

#[test]
fn parses_widest_integer_part() {
    // Twenty integer digits are accepted, twenty-one are not.
    assert_eq!(
        Price::parse("99999999999999999999").unwrap().units,
        99_999_999_999_999_999_999_000_000_000
    );
    assert!(Price::parse("999999999999999999999").is_none());
}

#[test]
fn rejects_malformed_text() {
    assert!(Price::parse("").is_none());
    assert!(Price::parse(".").is_none());
    assert!(Price::parse("-").is_none());
    assert!(Price::parse("+.").is_none());
    assert!(Price::parse("1e5").is_none());
    assert!(Price::parse("1.2.3").is_none());
    assert!(Price::parse("12a").is_none());
    assert!(Price::parse(" 12").is_none());
    assert!(Price::parse("na\u{ef}ve").is_none());
}

#[test]
fn rejects_too_many_fractional_digits() {
    assert!(Price::parse("1.0000000001").is_none());
}

#[test]
fn parsed_prices_stay_inside_the_sentinels() {
    let p = Price::parse("99999999999999999999.999999999").unwrap();
    assert!(p.units < Price::positive_sentinel().units);
    assert!(p.units > Price::negative_sentinel().units);
}

#[test]
fn from_integer_scales_whole_units() {
    assert_eq!(Price::from_integer(50).units, 50_000_000_000);
    assert_eq!(Price::from_integer(-3).units, -3_000_000_000);
    assert_eq!(Price::from_integer(0), Price::parse("0").unwrap());
}
