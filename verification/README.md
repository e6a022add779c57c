# price_parser

Extract a price amount and a currency symbol from raw text such as
`"$12.99"`, `"1 298,00 €"` or `"Free shipping"`, verified with Verus.

```rust
use price_parser::Price;

let price = Price::fromstring(Some("$12.99"), None, None, None);
assert_eq!(price.currency.as_deref(), Some("$"));
assert_eq!(price.amount_text.as_deref(), Some("12.99"));
```

Every public function carries a contract over a mathematical model of its
inputs, and Verus proves the code meets it.

## Layout

| Path | What is in it |
|---|---|
| `src/text.rs` | `extract_price_text`: collapsing whitespace, the euro-as-decimal-mark form, the first number in the text, the `free` rule |
| `src/number.rs` | `get_decimal_separator` and `parse_number`: separator inference, normalisation, folding of Unicode digits |
| `src/symbols.rs` | currency matching: the safe and looser tiers, dollar codes such as `NZD` |
| `src/alternation.rs` | leftmost-first matching of a list of literal symbols |
| `src/currencies.rs` | the currency table and the lists derived from it |
| `src/order.rs` | the orders the symbol lists are kept in |
| `src/price.rs` | the `Price` value and `Price::fromstring` |
| `src/classes.rs`, `src/strip.rs` | character classes, trimming and counting |
| `app/lib.rs` | CPython bindings, and the lossy float view of an amount |

## What is trusted

Which characters are decimal digits, word characters and whitespace is asked
of the `regex` crate (`\d`, `\w`, `\s`); whitespace for trimming comes from
`char::is_whitespace`, lowercasing from `str::to_lowercase`, and the final
conversion of a number to a `rust_decimal::Decimal` from `Decimal::from_str`.
Each such call sits in a small wrapper in `src/` whose contract states what
the call's documentation promises: the `White_Space` property in full, and the
ASCII part of `\d`, `\w` and of lowercasing; only what the Unicode tables
decide beyond ASCII is left as a name. Everything around those calls is verified. The matching
itself reads the character classes from masks, so its contracts can be
checked on concrete values without the Unicode tables.

## The currency data

`src/currencies.rs` holds the currency table (208 codes, 172 distinct
international symbols, 165 distinct native symbols, 16 of them carrying a
right-to-left mark) and the safe symbol list (126 entries, 89 of them
non-ASCII, in their declared order with the `$` variants before `$`).

## Laws

Beyond each function's contract, `src/` proves properties that span the
library, among them: a currency symbol found is one of the known symbols and
occurs verbatim in the price or the hint; the dollar code found is the one at
the least valid position; the currency of a price is trimmed; the first
number in a text wins; matching is leftmost-first; a text without digits
yields only the `free` rule (read on the lowercased text itself when the text
is ASCII, on its collapsed form otherwise); a price text read without the euro form is
trimmed, starts with a digit (or `.` and a digit) and holds only digits,
spaces and separators; collapsing whitespace twice changes nothing; one final
line feed never changes the decimal separator.
