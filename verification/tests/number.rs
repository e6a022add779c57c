
use std::str::FromStr;

use price_parser::number::{get_decimal_separator, parse_number};
use rust_decimal::Decimal;

#[test]
fn number_matches_upstream() {
    let cases: &[(&str, Option<char>)] = &[
        ("1000", None),
        ("12.99", Some('.')),
        ("12,99", Some(',')),
        ("12.999", None),
        ("3,0000", Some(',')),
        ("1,235€99", Some('€')),
        (".75", Some('.')),
        ("", None),
        ("abc", None),
        ("123", None),
        ("1 234", None),
        ("12.", None),
        ("12,", None),
        ("12€", None),
        (",75", Some(',')),
        ("€75", Some('€')),
        ("12.99 ", None),
        (" 12.99", Some('.')),
    ];
    for (input, expected) in cases {
        assert_eq!(get_decimal_separator(input), *expected, "for {input:?}");
    }
}

#[test]
fn three_trailing_digits_reads_as_thousands() {
    for sep in ['.', ',', '€'] {
        assert_eq!(get_decimal_separator(&format!("1{sep}1")), Some(sep));
        assert_eq!(get_decimal_separator(&format!("1{sep}12")), Some(sep));
        assert_eq!(get_decimal_separator(&format!("1{sep}123")), None);
        assert_eq!(get_decimal_separator(&format!("1{sep}1234")), Some(sep));
        assert_eq!(get_decimal_separator(&format!("1{sep}12345")), Some(sep));
    }
}

#[test]
fn last_separator_wins_when_several_are_present() {
    assert_eq!(get_decimal_separator("1.234,56"), Some(','));
    assert_eq!(get_decimal_separator("1,234.56"), Some('.'));
    assert_eq!(get_decimal_separator("1.234,5"), Some(','));
    assert_eq!(get_decimal_separator("1,234.5"), Some('.'));
    assert_eq!(get_decimal_separator("1.234.567"), None);
    assert_eq!(get_decimal_separator("1,234,567"), None);
}

#[test]
fn euro_acts_as_a_separator_alongside_the_others() {
    assert_eq!(get_decimal_separator("1.235€99"), Some('€'));
    assert_eq!(get_decimal_separator("1,235€9"), Some('€'));
    assert_eq!(get_decimal_separator("1 235€99"), Some('€'));
}

#[test]
fn single_trailing_newline_is_tolerated() {
    assert_eq!(get_decimal_separator("12.99\n"), Some('.'));
    assert_eq!(get_decimal_separator("12,99\n"), Some(','));
    assert_eq!(get_decimal_separator("1000\n"), None);
}

fn dec(s: &str) -> Option<Decimal> {
    Some(Decimal::from_str(s).unwrap())
}

#[test]
fn parse_number_matches_upstream_doctests() {
    let cases: &[(&str, Option<char>, Option<Decimal>)] = &[
        ("1,234", None, dec("1234")),
        ("12,34", None, dec("12.34")),
        ("12,345", None, dec("12345")),
        ("1,1", None, dec("1.1")),
        ("1.1", None, dec("1.1")),
        ("1234", None, dec("1234")),
        ("12€34", None, dec("12.34")),
        ("12€ 34", None, dec("12.34")),
        ("1 234.99", None, dec("1234.99")),
        ("1,235€99", None, dec("1235.99")),
        ("1 235€99", None, dec("1235.99")),
        ("1.235€99", None, dec("1235.99")),
        ("140.000", Some(','), dec("140000")),
        ("140.000", Some('.'), dec("140.000")),
        ("", None, None),
        ("foo", None, None),
    ];
    for (num, sep, expected) in cases {
        assert_eq!(
            parse_number(num, *sep),
            *expected,
            "for {num:?} sep={sep:?}"
        );
    }
}

#[test]
fn explicit_separator_overrides_inference() {
    assert_eq!(parse_number("1.234", Some(',')), dec("1234"));
    assert_eq!(parse_number("1.234", Some('.')), dec("1.234"));
    assert_eq!(parse_number("1,234", Some(',')), dec("1.234"));
    assert_eq!(parse_number("1,234", Some('.')), dec("1234"));
}

#[test]
fn euro_separator_cases() {
    assert_eq!(parse_number("140€33", Some('€')), dec("140.33"));
    assert_eq!(parse_number("140,000€33", Some('€')), dec("140000.33"));
    assert_eq!(parse_number("140.000€33", Some('€')), dec("140000.33"));
}

#[test]
fn scale_is_preserved() {
    assert_eq!(
        parse_number("140.000", Some('.')).unwrap().to_string(),
        "140.000"
    );
    assert_eq!(parse_number("0.00", None).unwrap().to_string(), "0.00");
}

#[test]
fn python_whitespace_is_stripped() {
    assert_eq!(parse_number("\u{1c}1.5", None), dec("1.5"));
    assert_eq!(parse_number(" 1.5 ", None), dec("1.5"));
    assert_eq!(parse_number("\t1.5\n", None), dec("1.5"));
    assert_eq!(parse_number("\u{a0}1.5", None), dec("1.5"));
    assert_eq!(parse_number("1 000 000,50", None), dec("1000000.50"));
}

#[test]
fn junk_yields_none() {
    for junk in ["1'234", "1..2", ".", ",", "€", "-", "--1", "foo", ""] {
        assert_eq!(parse_number(junk, None), None, "for {junk:?}");
    }
}

#[test]
fn signs_are_accepted() {
    assert_eq!(parse_number("+1.5", None), dec("1.5"));
    assert_eq!(parse_number("-1.5", None), dec("-1.5"));
}

#[test]
fn documented_divergences_from_python_decimal() {
    assert_eq!(parse_number("Infinity", None), None);
    assert_eq!(parse_number("NaN", None), None);
    assert_eq!(parse_number("inf", None), None);
    assert_eq!(
        parse_number("1234567890123456789012345678901234567890", None),
        None
    );

    assert_eq!(
        parse_number("0.00000000000000000000000000001", None),
        dec("0")
    );
}

#[test]
fn underscores_are_accepted_like_python() {
    assert_eq!(parse_number("1_000", None), dec("1000"));
}

#[test]
fn widest_corpus_values_are_representable() {
    assert_eq!(parse_number("123456.789", None), dec("123456789"));
    assert_eq!(parse_number("123456.789", Some('.')), dec("123456.789"));
    assert_eq!(
        parse_number("1.11000000000000009770", Some('.')),
        dec("1.11000000000000009770")
    );
}

#[test]
fn unicode_digits_are_folded_before_conversion() {
    // Arabic-Indic, Extended Arabic-Indic, Devanagari, Bengali, fullwidth.
    assert_eq!(parse_number("١٢.٩٩", None), dec("12.99"));
    assert_eq!(parse_number("۱۲۳", None), dec("123"));
    assert_eq!(parse_number("१,२३४.५", None), dec("1234.5"));
    assert_eq!(parse_number("৫", None), dec("5"));
    assert_eq!(parse_number("１２３", None), dec("123"));
    // Mathematical monospace digits follow four other runs of ten.
    assert_eq!(parse_number("\u{1d7fd}\u{1d7f6}", None), dec("70"));
    assert_eq!(get_decimal_separator("١٢.٩٩"), Some('.'));
    assert_eq!(get_decimal_separator("١.٢٣٤"), None);
}

#[test]
fn one_final_line_feed_is_ignored_but_not_two() {
    assert_eq!(get_decimal_separator("12,99\n"), Some(','));
    assert_eq!(get_decimal_separator("12,99\n\n"), None);
    assert_eq!(get_decimal_separator("12,99\r\n"), None);
}
