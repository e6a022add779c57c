
use std::str::FromStr;

use price_parser::price::{parse_price, Price};
use rust_decimal::Decimal;

#[test]
fn decimal_arithmetic_is_exact() {
    let a = Decimal::from_str("0.10").unwrap();
    let b = Decimal::from_str("0.20").unwrap();
    assert_eq!(a + b, Decimal::from_str("0.30").unwrap());
}

#[test]
fn trailing_zeros_are_preserved() {
    let d = Decimal::from_str("140.000").unwrap();
    assert_eq!(d.to_string(), "140.000");
}

fn parse(price: &str) -> Price {
    Price::fromstring(Some(price), None, None, None)
}

#[test]
fn parses_all_three_fields() {
    let p = parse("$12.99");
    assert_eq!(p.amount, Decimal::from_str("12.99").ok());
    assert_eq!(p.currency.as_deref(), Some("$"));
    assert_eq!(p.amount_text.as_deref(), Some("12.99"));
}

#[test]
fn missing_pieces_are_none_not_errors() {
    let p = parse("no price here");
    assert_eq!(p.amount, None);
    assert_eq!(p.currency, None);
    assert_eq!(p.amount_text, None);

    assert_eq!(parse("12.99").currency, None);
    assert_eq!(parse("$").amount, None);

    let p = Price::fromstring(None, Some("$"), None, None);
    assert_eq!(p.currency.as_deref(), Some("$"));
    assert_eq!(p.amount, None);
    assert_eq!(p.amount_text, None);
}

#[test]
fn currency_is_trimmed() {
    let p = parse("100 تومان");
    assert_eq!(p.currency.as_deref(), Some("تومان"));
}

#[test]
fn hint_supplies_the_currency_when_the_price_does_not() {
    let p = Price::fromstring(Some("12.99"), Some("EUR"), None, None);
    assert_eq!(p.currency.as_deref(), Some("EUR"));
    assert_eq!(p.amount, Decimal::from_str("12.99").ok());
}

#[test]
fn separators_can_be_forced() {
    let cases: &[(&str, Option<char>, &str)] = &[
        ("140.000", None, "140000"),
        ("140.000", Some(','), "140000"),
        ("140.000", Some('.'), "140.000"),
        ("140€33", Some('€'), "140.33"),
        ("140,000€33", Some('€'), "140000.33"),
        ("140.000€33", Some('€'), "140000.33"),
    ];
    for (text, separator, expected) in cases {
        let p = Price::fromstring(Some(text), None, *separator, None);
        assert_eq!(
            p.amount,
            Decimal::from_str(expected).ok(),
            "for {text:?} sep={separator:?}"
        );
    }
}

#[test]
fn digit_group_separator_is_removed_before_the_amount_is_read() {
    let p = Price::fromstring(Some("1,234.56"), None, None, Some(","));
    assert_eq!(p.amount, Decimal::from_str("1234.56").ok());
}

#[test]
fn currency_is_read_before_the_group_separator_is_stripped() {
    let p = Price::fromstring(Some("$1,234"), None, None, Some("$"));
    assert_eq!(p.currency.as_deref(), Some("$"));
}

#[test]
fn parse_price_alias_matches_fromstring() {
    assert_eq!(
        parse_price(Some("$12.99"), None, None, None),
        Price::fromstring(Some("$12.99"), None, None, None)
    );
}

#[test]
fn amount_text_keeps_the_digits_as_written() {
    let price = Price::fromstring(Some("١٢.٩٩ €"), None, None, None);
    assert_eq!(price.amount_text.as_deref(), Some("١٢.٩٩"));
    assert_eq!(price.amount, Some(Decimal::from_str("12.99").unwrap()));
    assert_eq!(price.currency.as_deref(), Some("€"));
}

#[test]
fn currency_comes_trimmed_from_the_input() {
    let price = Price::fromstring(Some("100 تومان"), None, None, None);
    assert_eq!(price.currency.as_deref(), Some("تومان"));
    let price = Price::fromstring(Some("12"), Some(" hint: CHF "), None, None);
    assert_eq!(price.currency.as_deref(), Some("CHF"));
}

#[test]
fn currency_ignores_the_separators() {
    let a = Price::fromstring(Some("US$1,234.50"), None, None, None);
    let b = Price::fromstring(Some("US$1,234.50"), None, Some(','), Some("$"));
    assert_eq!(a.currency, b.currency);
    assert_eq!(a.currency.as_deref(), Some("US$"));
    assert_eq!(b.amount_text.as_deref(), Some("1,234.50"));
}

#[test]
fn nothing_given_yields_nothing() {
    let price = Price::fromstring(None, None, None, None);
    assert_eq!(price, Price::default());
    let price = Price::new(None, Some("€".to_string()), None);
    assert_eq!(price.currency.as_deref(), Some("€"));
}
