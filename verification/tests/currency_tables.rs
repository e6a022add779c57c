use std::collections::HashSet;

use price_parser::currencies::{
    currency_codes, currency_national_symbols, currency_symbols, CURRENCIES, SAFE_CURRENCY_SYMBOLS,
};

fn tables() -> Vec<(&'static str, Vec<&'static str>)> {
    vec![
        ("CURRENCY_CODES", currency_codes()),
        ("CURRENCY_SYMBOLS", currency_symbols()),
        ("CURRENCY_NATIONAL_SYMBOLS", currency_national_symbols()),
    ]
}

#[test]
fn table_sizes_match_upstream() {
    assert_eq!(currency_codes().len(), 208, "currency code count drifted");
    assert_eq!(currency_symbols().len(), 172, "currency symbol count drifted");
    assert_eq!(
        currency_national_symbols().len(),
        165,
        "national symbol count drifted"
    );
}

#[test]
fn no_entry_is_empty() {
    for (name, table) in tables() {
        assert!(
            table.iter().all(|s| !s.is_empty()),
            "{name} contains an empty entry"
        );
    }
}

#[test]
fn no_table_has_duplicates() {
    for (name, table) in tables() {
        let unique: HashSet<&&str> = table.iter().collect();
        assert_eq!(unique.len(), table.len(), "{name} contains duplicates");
    }
}

#[test]
fn codes_preserve_upstream_declaration_order() {
    let codes = currency_codes();
    assert_eq!(codes[0], "AED");
    assert_eq!(codes[1], "AFN");
    assert!(codes.contains(&"USD"));
    assert!(codes.contains(&"NZD"));
}

#[test]
fn set_derived_tables_are_sorted() {
    let symbols = currency_symbols();
    let mut expected = symbols.clone();
    expected.sort_unstable();
    assert_eq!(symbols, expected);

    let natives = currency_national_symbols();
    let mut expected = natives.clone();
    expected.sort_unstable();
    assert_eq!(natives, expected);
}

#[test]
fn right_to_left_marks_survived_generation() {
    let natives = currency_national_symbols();
    let with_rtl: Vec<&&str> = natives.iter().filter(|s| s.contains('\u{200f}')).collect();
    assert_eq!(
        with_rtl.len(),
        16,
        "expected 16 national symbols carrying U+200F, found {}",
        with_rtl.len()
    );
    assert!(natives.contains(&"د.إ.\u{200f}"));
}

#[test]
fn known_symbols_are_present() {
    let symbols = currency_symbols();
    let natives = currency_national_symbols();
    for sym in ["$", "€", "£", "¥", "₹"] {
        assert!(
            symbols.contains(&sym) || natives.contains(&sym),
            "expected {sym} somewhere in the symbol tables"
        );
    }
}

#[test]
fn ruble_sign_is_absent_from_the_data_tables() {
    let symbols = currency_symbols();
    let natives = currency_national_symbols();
    assert!(!symbols.contains(&"₽"));
    assert!(!natives.contains(&"₽"));
    assert!(natives.contains(&"руб."));
}

#[test]
fn every_row_reaches_each_derived_table() {
    let codes = currency_codes();
    let symbols = currency_symbols();
    let natives = currency_national_symbols();
    assert_eq!(codes.len(), CURRENCIES.len());
    for (code, symbol, native) in CURRENCIES {
        assert!(codes.contains(&code));
        assert!(symbols.contains(&symbol));
        assert!(natives.contains(&native));
    }
}

#[test]
fn safe_list_keeps_its_declared_order() {
    let safe = &SAFE_CURRENCY_SYMBOLS;
    assert_eq!(safe.len(), 126);
    assert_eq!(safe.iter().filter(|s| !s.is_ascii()).count(), 89);
    assert_eq!(safe.iter().filter(|s| s.contains('\u{200f}')).count(), 16);
    assert_eq!(safe.iter().position(|s| *s == "$U"), Some(19));
    assert_eq!(safe.iter().position(|s| *s == "$"), Some(32));
    for variant in ["US$", "CA$", "AU$"] {
        assert!(safe.iter().position(|s| *s == variant) < Some(32));
    }
    assert!(safe.contains(&"₽"));
}
