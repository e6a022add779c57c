//! Reading a numeric amount out of price text.

use vstd::prelude::*;

use rust_decimal::Decimal;

use crate::strip::{drop_char, drop_char_in, lemma_trim_end_while, lemma_trim_start_while, trim_end_while, trim_start_while};
use crate::classes::{
    char_from_u32, chars_of, digit_class, digit_flags, digit_mask, is_decimal_digit,
    is_scalar_value, is_white_space, string_of, white_space,
};

verus! {

/// `rust_decimal::Decimal`, an exact decimal number, carried through as an
/// opaque value.
#[verifier::external_type_specification]
#[verifier::external_body]
pub struct ExDecimal(rust_decimal::Decimal);

/// The value `Decimal::from_str` produces from `text`, `None` where it reports an error.
pub uninterp spec fn decimal_from_text(text: Seq<char>) -> Option<Decimal>;

/// Calls `<Decimal as FromStr>::from_str` and keeps the value, dropping the error.
#[verifier::external_body]
fn parse_decimal(text: &str) -> (r: Option<Decimal>)
    ensures
        r == decimal_from_text(text@),
{
    match <Decimal as std::str::FromStr>::from_str(text) {
        Ok(d) => Some(d),
        Err(_) => None,
    }
}

/// Whitespace in the sense of Python's `str.isspace()`: the Unicode
/// `White_Space` property plus the file, group, record and unit separators
/// `U+001C`..=`U+001F`.
pub open spec fn is_py_space(c: char) -> bool {
    is_white_space(c) || ('\u{1c}' <= c && c <= '\u{1f}')
}

/// A character that may act as the decimal mark.
pub open spec fn is_separator(c: char) -> bool {
    c == '.' || c == ',' || c == '€'
}

/// How many `true`s end `flags`.
pub open spec fn trailing_true(flags: Seq<bool>) -> nat
    decreases flags.len(),
{
    if flags.len() > 0 && flags.last() {
        trailing_true(flags.drop_last()) + 1
    } else {
        0
    }
}

/// Length of the run of decimal digits that ends `s`.
pub open spec fn trailing_digits(s: Seq<char>) -> nat {
    trailing_true(digit_flags(s))
}

/// `s` without one final line feed, if it ends with one.
pub open spec fn strip_final_newline(s: Seq<char>) -> Seq<char> {
    if s.len() > 0 && s.last() == '\n' {
        s.drop_last()
    } else {
        s
    }
}

/// The decimal separator of `t`, whose decimal digits are the characters
/// marked in `digits`: the separator standing just before the digits that end
/// the text (after one final line feed is set aside), provided there are one,
/// two, or four or more of those digits. Exactly three read as a thousands
/// group, so they give no separator.
pub open spec fn separator_with(t: Seq<char>, digits: Seq<bool>) -> Option<char> {
    let n = strip_final_newline(t).len() as int;
    let k = trailing_true(digits.take(n));
    if k != 0 && k != 3 && k < n && is_separator(t[n - k - 1]) {
        Some(t[n - k - 1])
    } else {
        None
    }
}

/// The decimal separator of `s`, as `separator_with` describes it for the
/// decimal digits of `s`.
pub open spec fn separator_of(s: Seq<char>) -> Option<char> {
    separator_with(s, digit_flags(s))
}

proof fn lemma_trailing_true(f: Seq<bool>, k: nat)
    requires
        k <= f.len(),
        forall|j: int| f.len() - k <= j < f.len() ==> #[trigger] f[j],
        k == f.len() || !f[f.len() - k - 1],
    ensures
        trailing_true(f) == k,
    decreases k,
{
    if k > 0 {
        let d = f.drop_last();
        assert forall|j: int| d.len() - (k - 1) <= j < d.len() implies #[trigger] d[j] by {
            assert(d[j] == f[j]);
        }
        if (k - 1) as nat != d.len() {
            assert(d[d.len() - (k - 1) - 1] == f[f.len() - k - 1]);
        }
        lemma_trailing_true(d, (k - 1) as nat);
    }
}

/// The decimal separator of the characters `t`, whose decimal digits are
/// marked in `digits`.
pub fn separator_in(t: &Vec<char>, digits: &Vec<bool>) -> (r: Option<char>)
    requires
        digits@.len() == t@.len(),
    ensures
        r == separator_with(t@, digits@),
{
    let mut n = t.len();
    if n > 0 && t[n - 1] == '\n' {
        n = n - 1;
    }
    assert(n == strip_final_newline(t@).len());
    let ghost f = digits@.take(n as int);
    let mut k: usize = 0;
    while k < n && digits[n - 1 - k]
        invariant
            k <= n <= t@.len(),
            digits@.len() == t@.len(),
            f == digits@.take(n as int),
            forall|j: int| n - k <= j < n ==> #[trigger] digits@[j],
        decreases n - k,
    {
        k = k + 1;
    }
    proof {
        assert forall|j: int| f.len() - k <= j < f.len() implies #[trigger] f[j] by {
            assert(f[j] == digits@[j]);
        }
        if k < n {
            assert(f[f.len() - k - 1] == digits@[n - k - 1]);
        }
        lemma_trailing_true(f, k as nat);
    }
    if k != 0 && k != 3 && k < n {
        let c = t[n - k - 1];
        if c == '.' || c == ',' || c == '€' {
            return Some(c);
        }
    }
    None
}

/// Identify the decimal separator in `price`, if it has one.
///
/// The separator is the `.`, `,` or `€` standing just before the digits that
/// end the text. One, two, or four or more such digits mark it as a decimal
/// separator; exactly three do not, because `1.234` is far more likely to be a
/// thousands group than a number with three decimal places. One final line
/// feed is ignored; any other trailing character, a space included, gives
/// `None`.
pub fn get_decimal_separator(price: &str) -> (r: Option<char>)
    ensures
        r == separator_of(price@),
        r matches Some(c) ==> is_separator(c),
        trailing_digits(strip_final_newline(price@)) == 3 ==> r is None,
{
    let t = chars_of(price);
    let digits = digit_mask(&t);
    proof {
        let n = strip_final_newline(price@).len() as int;
        assert(digit_flags(price@).take(n) =~= digit_flags(strip_final_newline(price@)));
    }
    separator_in(&t, &digits)
}

/// True for characters Python's `str.strip()` treats as whitespace: the
/// Unicode `White_Space` property plus `U+001C`..=`U+001F`.
pub fn is_python_whitespace(c: char) -> (r: bool)
    ensures
        r == is_py_space(c),
{
    white_space(c) || ('\u{1c}' <= c && c <= '\u{1f}')
}

/// `is_py_space` as a predicate value.
pub open spec fn py_space_pred() -> spec_fn(char) -> bool {
    |c: char| is_py_space(c)
}

/// `s` without leading or trailing whitespace, as Python's `str.strip()`.
pub open spec fn trim_py(s: Seq<char>) -> Seq<char> {
    trim_end_while(trim_start_while(s, py_space_pred()), py_space_pred())
}

/// What one character of a number becomes once the decimal separator is
/// known: grouping marks vanish and the decimal mark turns into `.`.
pub open spec fn separator_piece(c: char, sep: Option<char>) -> Seq<char> {
    match sep {
        None => if c == '.' || c == ',' { seq![] } else { seq![c] },
        Some(d) => if d == '.' {
            if c == ',' { seq![] } else { seq![c] }
        } else if d == ',' {
            if c == '.' { seq![] } else if c == ',' { seq!['.'] } else { seq![c] }
        } else {
            if c == '.' || c == ',' { seq![] } else if c == '€' { seq!['.'] } else { seq![c] }
        },
    }
}

/// `s` with every character rewritten by `separator_piece`.
pub open spec fn normalise_separators(s: Seq<char>, sep: Option<char>) -> Seq<char>
    decreases s.len(),
{
    if s.len() == 0 {
        s
    } else {
        normalise_separators(s.drop_last(), sep) + separator_piece(s.last(), sep)
    }
}

/// The text handed to the decimal parser: `num` stripped of surrounding
/// whitespace and of spaces, with its separators resolved by
/// `decimal_separator` or, when that is `None`, by `separator_of`.
pub open spec fn number_text(num: Seq<char>, decimal_separator: Option<char>) -> Seq<char> {
    let prepared = drop_char(trim_py(num), ' ');
    let sep = match decimal_separator {
        Some(c) => Some(c),
        None => separator_of(prepared),
    };
    normalise_separators(prepared, sep)
}

/// Whether the code point `cp` is a decimal digit.
pub open spec fn digit_code_point(cp: int) -> bool {
    is_scalar_value(cp) && is_decimal_digit(cp as char)
}

/// How many code points directly below `cp` are decimal digits, counting
/// down until one is not.
pub open spec fn digits_below(cp: int) -> nat
    decreases cp,
{
    if cp > 0 && digit_code_point(cp - 1) {
        digits_below(cp - 1) + 1
    } else {
        0
    }
}

/// A decimal digit of any script as the ASCII digit of the same value; any
/// other character unchanged. Unicode places every decimal digit in a run of
/// ten that starts at its script's zero, and adjacent runs (the mathematical
/// digits) follow one another whole, so a digit's value is the number of
/// digits directly below it, modulo ten.
pub open spec fn fold_digit(c: char) -> char {
    if is_decimal_digit(c) {
        (('0' as int) + digits_below(c as int) % 10) as char
    } else {
        c
    }
}

/// `s` with every decimal digit folded to ASCII by `fold_digit`.
pub open spec fn fold_digits(s: Seq<char>) -> Seq<char> {
    s.map_values(|c: char| fold_digit(c))
}

/// The number read from `num`: nothing for empty text, otherwise the decimal
/// that `number_text` spells once its digits are folded to ASCII.
pub open spec fn number_of(num: Seq<char>, decimal_separator: Option<char>) -> Option<Decimal> {
    if num.len() == 0 {
        None
    } else {
        decimal_from_text(fold_digits(number_text(num, decimal_separator)))
    }
}

/// One final line feed is ignored when looking for the decimal separator.
pub proof fn lemma_final_newline_ignored(s: Seq<char>)
    requires
        !(s.len() > 0 && s.last() == '\n'),
    ensures
        separator_of(s.push('\n')) == separator_of(s),
{
    assert(s.push('\n').drop_last() =~= s);
    assert(digit_flags(s.push('\n')).take(s.len() as int) =~= digit_flags(s));
    assert(digit_flags(s).take(s.len() as int) =~= digit_flags(s));
}

/// Folding turns each decimal digit into an ASCII digit and leaves every
/// other character as it is.
pub proof fn lemma_fold_digit(c: char)
    ensures
        is_decimal_digit(c) ==> '0' <= fold_digit(c) && fold_digit(c) <= '9',
        !is_decimal_digit(c) ==> fold_digit(c) == c,
{
}

/// Whether the code point `cp` is a decimal digit.
fn digit_at(cp: u32) -> (r: bool)
    ensures
        r == digit_code_point(cp as int),
{
    match char_from_u32(cp) {
        Some(d) => digit_class(d),
        None => false,
    }
}

/// `fold_digit(c)`.
fn fold_digit_in(c: char) -> (r: char)
    ensures
        r == fold_digit(c),
{
    if !digit_class(c) {
        return c;
    }
    let cp = c as u32;
    let mut k: u32 = 0;
    while k < cp && digit_at(cp - k - 1)
        invariant
            k <= cp,
            cp as int == c as int,
            digits_below(cp as int) == k + digits_below(cp - k),
        decreases cp - k,
    {
        k = k + 1;
    }
    let v: u32 = 48 + k % 10;
    match char_from_u32(v) {
        Some(d) => d,
        None => c,
    }
}

/// The characters of `t` with their digits folded to ASCII.
fn fold_in(t: &Vec<char>) -> (r: Vec<char>)
    ensures
        r@ == fold_digits(t@),
{
    let mut out: Vec<char> = Vec::new();
    let mut i: usize = 0;
    while i < t.len()
        invariant
            i <= t@.len(),
            out@.len() == i,
            forall|j: int| 0 <= j < i ==> out@[j] == fold_digit(#[trigger] t@[j]),
        decreases t@.len() - i,
    {
        out.push(fold_digit_in(t[i]));
        i = i + 1;
    }
    assert(out@ =~= fold_digits(t@));
    out
}

/// The characters of `t` rewritten by `separator_piece`.
pub fn normalise_in(t: &Vec<char>, sep: Option<char>) -> (r: Vec<char>)
    ensures
        r@ == normalise_separators(t@, sep),
{
    let mut out: Vec<char> = Vec::new();
    let mut i: usize = 0;
    while i < t.len()
        invariant
            i <= t@.len(),
            out@ == normalise_separators(t@.take(i as int), sep),
        decreases t@.len() - i,
    {
        let ghost before = t@.take(i as int);
        let c = t[i];
        let (drop, dot) = match sep {
            None => (c == '.' || c == ',', false),
            Some(d) => if d == '.' {
                (c == ',', false)
            } else if d == ',' {
                (c == '.', c == ',')
            } else {
                (c == '.' || c == ',', c == '€')
            },
        };
        if dot {
            out.push('.');
        } else if !drop {
            out.push(c);
        }
        i = i + 1;
        proof {
            let now = t@.take(i as int);
            assert(now.drop_last() =~= before);
            assert(now.last() == c);
            assert(out@ =~= normalise_separators(before, sep) + separator_piece(c, sep));
        }
    }
    assert(t@.take(t@.len() as int) =~= t@);
    out
}

/// Parse a number out of price text, resolving its separators.
///
/// `decimal_separator` forces the interpretation; passing `None` infers it via
/// [`get_decimal_separator`]. Surrounding whitespace and inner spaces are
/// dropped first. Decimal digits of any script are folded to their ASCII
/// values before the conversion, so `١٢.٥` reads as 12.5. Returns `None` when
/// the text holds no number that `Decimal::from_str` accepts, and always for
/// empty text.
///
/// A separator other than `.` or `,` is treated as the euro sign acting as the
/// decimal mark.
pub fn parse_number(num: &str, decimal_separator: Option<char>) -> (r: Option<Decimal>)
    ensures
        r == number_of(num@, decimal_separator),
        num@.len() == 0 ==> r is None,
{
    let t = chars_of(num);
    let n = t.len();
    if n == 0 {
        return None;
    }
    let mut lo: usize = 0;
    while lo < n && is_python_whitespace(t[lo])
        invariant
            lo <= n == t@.len(),
            forall|j: int| 0 <= j < lo ==> is_py_space(#[trigger] t@[j]),
        decreases n - lo,
    {
        lo = lo + 1;
    }
    let mut hi: usize = n;
    while hi > lo && is_python_whitespace(t[hi - 1])
        invariant
            lo <= hi <= n == t@.len(),
            forall|j: int| hi <= j < n ==> is_py_space(#[trigger] t@[j]),
        decreases hi - lo,
    {
        hi = hi - 1;
    }
    proof {
        lemma_trim_start_while(t@, lo as int, py_space_pred());
        let s = t@.skip(lo as int);
        assert forall|j: int| hi - lo <= j < s.len() implies is_py_space(#[trigger] s[j]) by {
            assert(s[j] == t@[j + lo]);
        }
        if hi > lo {
            assert(s[hi - lo - 1] == t@[hi - 1]);
        } else if lo < n {
            assert(s[0] == t@[lo as int]);
        }
        lemma_trim_end_while(s, hi - lo, py_space_pred());
        assert(s.take(hi - lo) =~= t@.subrange(lo as int, hi as int));
    }
    let prepared = drop_char_in(&t, lo, hi, ' ');
    let sep = match decimal_separator {
        Some(c) => Some(c),
        None => separator_in(&prepared, &digit_mask(&prepared)),
    };
    let normalised = normalise_in(&prepared, sep);
    let folded = fold_in(&normalised);
    let text = string_of(&folded, 0, folded.len());
    assert(folded@.subrange(0, folded@.len() as int) =~= folded@);
    parse_decimal(text.as_str())
}

} // verus!
