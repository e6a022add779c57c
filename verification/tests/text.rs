
use price_parser::text::extract_price_text;

fn extract(text: &str) -> Option<String> {
    extract_price_text(text)
}

#[test]
fn text_matches_upstream() {
    let cases: &[(&str, Option<&str>)] = &[
        ("price: $12.99", Some("12.99")),
        ("Free", Some("0")),
        ("Foo", None),
        ("1,235 USD", Some("1,235")),
        ("99 €, 79 €", Some("99")),
        ("99 € 79 €", Some("99")),
        ("50% OFF", None),
        ("50%", None),
        ("50", Some("50")),
        ("$1\u{a0}298,00", Some("1 298,00")),
        ("$.75", Some(".75")),
        ("50 %", Some("50")),
        ("50%off", None),
        ("1.5%", Some("1")),
        ("%50", Some("50")),
        ("50%50", Some("50")),
        ("", None),
        (" ", None),
        ("abc", None),
        ("---", None),
        ("$", None),
        ("$$$", None),
        ("1,235", Some("1,235")),
        ("1.235", Some("1.235")),
        ("1 235", Some("1 235")),
        ("1'235", Some("1235")),
        ("1,234.56", Some("1,234.56")),
        ("1.234,56", Some("1.234,56")),
        ("12.99", Some("12.99")),
        ("12,99", Some("12,99")),
        (".75", Some(".75")),
        (",75", Some("75")),
        ("0.5", Some("0.5")),
        ("00.50", Some("00.50")),
        ("12.99 and 15.99", Some("12.99")),
        ("from 5 to 10", Some("5")),
        ("1 2 3", Some("1 2 3")),
        ("USD 1,235", Some("1,235")),
        ("$12.99", Some("12.99")),
        ("12.99$", Some("12.99")),
        ("R$ 50", Some("50")),
        ("€€ 12.99", Some("12.99")),
        ("12.99 €€", Some("12.99")),
        ("€12€34€", Some("12")),
        ("abc123", Some("123")),
        ("123abc", Some("123")),
        ("a1b2c3", Some("1")),
        ("1234567890", Some("1234567890")),
        ("1,234,567.89", Some("1,234,567.89")),
    ];
    for (input, expected) in cases {
        assert_eq!(extract(input).as_deref(), *expected, "for {input:?}");
    }
}

#[test]
fn trailing_separators_are_dropped() {
    assert_eq!(extract("12.99.").as_deref(), Some("12.99"));
    assert_eq!(extract("12.99,").as_deref(), Some("12.99"));
    assert_eq!(extract("12,").as_deref(), Some("12"));
    assert_eq!(extract("12.").as_deref(), Some("12"));
    assert_eq!(extract("1.2.3.").as_deref(), Some("1.2.3"));
}

#[test]
fn a_leading_dot_survives_only_when_it_is_the_only_one() {
    assert_eq!(extract(".5").as_deref(), Some(".5"));
    assert_eq!(extract("..5").as_deref(), Some(".5"));
    assert_eq!(extract("..5..").as_deref(), Some(".5"));
    assert_eq!(extract(".5.5").as_deref(), Some("5.5"));
    assert_eq!(extract(",5").as_deref(), Some("5"));
    assert_eq!(extract(",,5").as_deref(), Some("5"));
}

#[test]
fn apostrophes_are_removed() {
    assert_eq!(extract("1'000").as_deref(), Some("1000"));
    assert_eq!(extract("1'000'000").as_deref(), Some("1000000"));
    assert_eq!(extract("1'2'3").as_deref(), Some("123"));
}

#[test]
fn free_is_a_substring_test_not_a_word_test() {
    for text in [
        "free",
        "FREE",
        "FrEe",
        "Free shipping",
        "freedom",
        "not free",
    ] {
        assert_eq!(extract(text).as_deref(), Some("0"), "for {text:?}");
    }
    assert_eq!(extract("free 12.99").as_deref(), Some("12.99"));
}

#[test]
fn python_whitespace_is_normalised() {
    assert_eq!(extract("  12.99  ").as_deref(), Some("12.99"));
    assert_eq!(extract("\t12.99\n").as_deref(), Some("12.99"));
    assert_eq!(extract("12\u{a0}99").as_deref(), Some("12 99"));
    assert_eq!(
        extract("1\u{2009}12\u{2009}345").as_deref(),
        Some("1 12 345")
    );
    assert_eq!(extract("\u{1c}12.99").as_deref(), Some("12.99"));
    assert_eq!(extract("12.99\u{1c}").as_deref(), Some("12.99"));
    assert_eq!(extract("1\u{1c}234").as_deref(), Some("1 234"));
}

#[test]
fn euro_sign_acts_as_decimal_mark() {
    let cases: &[(&str, Option<&str>)] = &[
        ("35€ 99", Some("35€99")),
        ("35€ 999", Some("35")),
        ("1,235€ 99", Some("1,235€99")),
        ("12€345", Some("12€345")),
        ("12€ 345", Some("12")),
        ("12€34", Some("12€34")),
        ("price 12 € 34 only", Some("12€34")),
        ("€99", Some("99")),
    ];
    for (input, expected) in cases {
        assert_eq!(extract_price_text(input).as_deref(), *expected, "for {input:?}");
    }
}

fn is_amount_char(c: char) -> bool {
    c.is_numeric() || c == ' ' || c == '.' || c == ',' || c == '€'
}

#[test]
fn price_text_holds_only_digits_spaces_and_separators() {
    for input in [
        "price: $12.99",
        "1'234'567.00 USD",
        "  1\u{a0}298,00 € ",
        "from 5 to 10",
        "..5..",
        "free delivery",
        "१२.५०",
    ] {
        let text = extract(input).unwrap();
        assert!(text.chars().all(is_amount_char), "for {input:?}: {text:?}");
    }
}

#[test]
fn euro_price_keeps_the_character_after_its_digits() {
    assert_eq!(extract("35€99x").as_deref(), Some("35€99x"));
    assert_eq!(extract("35€ 99 EUR").as_deref(), Some("35€99"));
    assert_eq!(extract("12€345!").as_deref(), Some("12€345!"));
}

#[test]
fn the_first_number_wins() {
    assert_eq!(extract("was 12.99 now 9.99").as_deref(), Some("12.99"));
    assert_eq!(extract("50% off, 20.00").as_deref(), Some("20.00"));
    assert_eq!(extract(".5 or 7").as_deref(), Some(".5"));
}

#[test]
fn free_counts_only_without_a_number() {
    assert_eq!(extract("FREE").as_deref(), Some("0"));
    assert_eq!(extract("Free, was 10").as_deref(), Some("10"));
    assert_eq!(extract("fr ee").as_deref(), None);
}

#[test]
fn text_without_digits_only_knows_free() {
    assert_eq!(extract("Free!").as_deref(), Some("0"));
    assert_eq!(extract("call us, free of charge").as_deref(), Some("0"));
    assert_eq!(extract("price on request").as_deref(), None);
    assert_eq!(extract("., ' €").as_deref(), None);
}

#[test]
fn plain_price_text_is_trimmed_and_starts_with_a_digit() {
    for input in ["  $ 1 234,50  ", "x .75 y", "1'000.", ",,5 ", "12 , 34"] {
        let text = extract(input).unwrap();
        assert!(!text.is_empty(), "for {input:?}");
        let first = text.chars().next().unwrap();
        let second = text.chars().nth(1);
        assert!(
            first.is_ascii_digit() || (first == '.' && second.map_or(false, |c| c.is_ascii_digit())),
            "for {input:?}: {text:?}"
        );
        assert!(!text.starts_with(' ') && !text.ends_with(' '), "for {input:?}: {text:?}");
        assert!(!text.contains('\''), "for {input:?}: {text:?}");
    }
}

#[test]
fn collapsing_whitespace_first_changes_nothing() {
    for input in ["1\u{a0}\u{a0}234,50", "35 \t€\n 99", "  free\u{1c}shipping ", "12\u{2009}345"] {
        let collapsed: String = {
            let mut out = String::new();
            let mut in_run = false;
            for c in input.chars() {
                let space = c.is_whitespace() || ('\u{1c}'..='\u{1f}').contains(&c);
                if space {
                    if !in_run {
                        out.push(' ');
                    }
                } else {
                    out.push(c);
                }
                in_run = space;
            }
            out
        };
        assert_eq!(extract(&collapsed), extract(input), "for {input:?}");
    }
}

#[test]
fn free_is_read_on_the_text_as_written() {
    assert_eq!(extract("FREE\tshipping").as_deref(), Some("0"));
    assert_eq!(extract("F R E E").as_deref(), None);
    assert_eq!(extract("Fr\nee").as_deref(), None);
}
