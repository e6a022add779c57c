
use std::collections::HashSet;

use price_parser::currencies::SAFE_CURRENCY_SYMBOLS;
use price_parser::symbols::{
    dollar_codes, extract_currency_symbol, find_dollar_code, is_bare_ascii_uppercase, or_regex,
    other_currency_symbols, safe_currency_regex,
};

#[test]
fn leftmost_position_beats_listed_order() {
    assert_eq!(
        or_regex(&["US$", "$"]).find("US$100").unwrap().as_str(),
        "US$"
    );
    assert_eq!(
        or_regex(&["$", "US$"]).find("US$100").unwrap().as_str(),
        "US$"
    );
}

#[test]
fn listed_order_decides_at_equal_positions() {
    assert_eq!(or_regex(&["$", "$U"]).find("$U").unwrap().as_str(), "$");
    assert_eq!(or_regex(&["$U", "$"]).find("$U").unwrap().as_str(), "$U");
}

#[test]
fn symbols_are_escaped_not_interpreted() {
    let re = or_regex(&["Nu."]);
    assert!(re.is_match("Nu."));
    assert!(!re.is_match("Nux"), "the dot must be literal");
}

#[test]
fn other_symbols_sorted_by_character_count_not_bytes() {
    let symbols = other_currency_symbols();
    let counts: Vec<usize> = symbols.iter().map(|s| s.chars().count()).collect();
    assert!(
        counts.windows(2).all(|w| w[0] >= w[1]),
        "must be descending by character count"
    );

    let pos = |needle: &str| symbols.iter().position(|s| *s == needle);
    if let (Some(euro), Some(code)) = (pos("€"), pos("CHF")) {
        assert!(euro > code, "€ is 1 char and must follow 3-char entries");
    }
}

#[test]
fn safe_tier_is_excluded_from_other_tier() {
    let symbols = other_currency_symbols();
    for safe in SAFE_CURRENCY_SYMBOLS.iter() {
        assert!(
            !symbols.contains(safe),
            "{safe} appears in both tiers"
        );
    }
}

#[test]
fn placeholders_and_bare_letters_are_dropped() {
    let symbols = other_currency_symbols();
    assert!(!symbols.contains(&"-"));
    assert!(!symbols.contains(&"XXX"));
    for letter in 'A'..='Z' {
        let s = letter.to_string();
        assert!(
            !symbols.iter().any(|c| *c == s),
            "bare {s} must be excluded"
        );
    }
}

#[test]
fn rouble_abbreviations_are_included() {
    let symbols = other_currency_symbols();
    assert!(symbols.contains(&"р"));
    assert!(symbols.contains(&"Р"));
}

#[test]
fn multi_character_dollar_variants_beat_bare_dollar() {
    let re = safe_currency_regex();
    for (text, expected) in [
        ("CA$20", "CA$"),
        ("AU$20", "AU$"),
        ("US$20", "US$"),
        ("$20", "$"),
    ] {
        assert_eq!(re.find(text).unwrap().as_str(), expected, "for {text}");
    }
}

#[test]
fn dollar_code_matches_upstream_behaviour() {
    let cases: &[(&str, Option<&str>)] = &[
        ("NZD $123", Some("NZD")),
        ("SGD$123", Some("SGD")),
        ("NZD", Some("NZD")),
        ("NZD100", Some("NZD")),
        ("NZD-5", Some("NZD")),
        ("NZD$", Some("NZD")),
        ("AED", Some("AED")),
        ("CAD\n", Some("CAD")),
        ("price: 100 CAD", Some("CAD")),
        ("USD USD", Some("USD")),
        ("NZDX", None),
        ("NZD_", None),
        ("NZDa", None),
        ("xNZD $1", None),
        ("usd 5", None),
        ("$100", None),
    ];
    for (input, expected) in cases {
        assert_eq!(find_dollar_code(input), *expected, "for input {input:?}");
    }
}

#[test]
fn rejected_candidate_does_not_stop_the_search() {
    assert_eq!(find_dollar_code("NZDX AUD"), Some("AUD"));
}

#[test]
fn word_boundary_blocks_a_code_inside_a_letter_run() {
    assert_eq!(find_dollar_code("USDUSD "), None);
}

#[test]
fn extraction_matches_upstream() {
    let cases: &[(Option<&str>, Option<&str>, Option<&str>)] = &[
        (Some("$100"), None, Some("$")),
        (Some("100"), Some("$"), Some("$")),
        (Some("USD 100"), None, Some("USD")),
        (Some("NZD $100"), None, Some("NZD")),
        (Some("100"), Some("NZD $"), Some("NZD")),
        (Some("SGD$99"), None, Some("SGD")),
        (Some(""), Some("$"), Some("$")),
        (None, None, None),
        (Some("100 руб."), None, Some("руб.")),
        (Some("100"), Some("EUR"), Some("EUR")),
        (Some("100"), Some("€"), Some("€")),
        (Some("no currency here"), None, None),
        (Some("тумен"), None, None),
        (Some("1000 lei"), None, Some("lei")),
        (Some("R$ 50"), None, Some("R$")),
        (Some("50 zł"), None, Some("zł")),
        (Some("XXX 5"), None, None),
        (Some("Q 5"), None, None),
    ];
    for (price, hint, expected) in cases {
        assert_eq!(
            extract_currency_symbol(*price, *hint),
            *expected,
            "for price={price:?} hint={hint:?}"
        );
    }
}

#[test]
fn price_outranks_hint_within_a_tier() {
    assert_eq!(extract_currency_symbol(Some("€100"), Some("$")), Some("€"));
    assert_eq!(
        extract_currency_symbol(Some("100 CHF"), Some("$")),
        Some("CHF")
    );
    assert_eq!(
        extract_currency_symbol(Some("A$ 5"), Some("US$")),
        Some("A$")
    );
}

#[test]
fn empty_is_skipped_but_blank_is_searched() {
    assert_eq!(extract_currency_symbol(Some(""), Some("$")), Some("$"));
    assert_eq!(extract_currency_symbol(Some("5"), Some("  ")), None);
}

#[test]
fn result_is_not_trimmed() {
    assert_eq!(
        extract_currency_symbol(Some("100 تومان"), None),
        Some(" تومان")
    );
}

#[test]
fn no_duplicates_in_derived_tier() {
    let symbols = other_currency_symbols();
    let unique: HashSet<&&str> = symbols.iter().collect();
    assert_eq!(unique.len(), symbols.len());
}

#[test]
fn found_symbol_occurs_in_the_price_or_the_hint() {
    let cases: &[(Option<&str>, Option<&str>)] = &[
        (Some("NZD $100"), None),
        (Some("100"), Some("prices in EUR")),
        (Some("R$ 50"), Some("BRL")),
        (Some("  ₹ 1,000"), None),
        (None, Some("zł")),
        (Some("1000 lei"), Some("$")),
    ];
    for (price, hint) in cases {
        let symbol = extract_currency_symbol(*price, *hint).unwrap();
        assert!(
            price.map_or(false, |p| p.contains(symbol)) || hint.map_or(false, |h| h.contains(symbol)),
            "{symbol:?} for {price:?} / {hint:?}"
        );
    }
}

#[test]
fn order_among_equal_lengths_does_not_change_the_match() {
    let one = or_regex(&["AB", "AC", "A"]);
    let other = or_regex(&["AC", "AB", "A"]);
    for text in ["xACy", "xABy", "xAy"] {
        let a = one.find(text).map(|m| m.as_str());
        let b = other.find(text).map(|m| m.as_str());
        assert_eq!(a, b, "for {text:?}");
    }
}

#[test]
fn listed_order_wins_over_length_at_one_position() {
    let re = or_regex(&["A", "AB"]);
    assert_eq!(re.find("xABy").map(|m| m.as_str()), Some("A"));
    assert!(!re.is_match("xyz"));
}

#[test]
fn a_word_character_next_to_a_code_blocks_it() {
    assert_eq!(find_dollar_code("NZDé 5"), None);
    assert_eq!(find_dollar_code("éNZD 5"), None);
    assert_eq!(find_dollar_code("NZD٣"), Some("NZD"));
    assert_eq!(find_dollar_code("(NZD)"), Some("NZD"));
}

#[test]
fn derived_tier_matches_upstream_size() {
    assert_eq!(other_currency_symbols().len(), 300);
}

#[test]
fn dollar_code_table_matches_upstream() {
    assert_eq!(dollar_codes().len(), 43);
    for code in ["USD", "NZD", "SGD", "CAD", "AUD", "AED"] {
        assert!(dollar_codes().contains(&code), "{code} missing");
    }
    assert!(
        dollar_codes().iter().all(|c| c.ends_with('D')),
        "every dollar code must end in D"
    );
}

#[test]
fn bare_capital_letters_are_recognised() {
    assert!(is_bare_ascii_uppercase("Q"));
    assert!(is_bare_ascii_uppercase("R"));
    assert!(!is_bare_ascii_uppercase("q"));
    assert!(!is_bare_ascii_uppercase("QQ"));
    assert!(!is_bare_ascii_uppercase("Ä"));
    assert!(!is_bare_ascii_uppercase(""));
}

#[test]
fn the_least_valid_position_wins() {
    assert_eq!(find_dollar_code("AUD NZD $5"), Some("AUD"));
    assert_eq!(find_dollar_code("NZDX USD$5"), Some("USD"));
    assert_eq!(find_dollar_code("xUSD AUDy CAD"), Some("CAD"));
    assert_eq!(find_dollar_code("nothing here"), None);
}

#[test]
fn a_match_reports_its_character_span() {
    let re = or_regex(&["€", "EUR"]);
    let m = re.find("prix: 12 €").unwrap();
    assert_eq!((m.start(), m.end()), (9, 10));
    assert_eq!(m.as_str(), "€");
}
