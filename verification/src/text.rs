//! Locating the price substring inside arbitrary text.
//!
//! The text is first collapsed, every run of whitespace becoming one space,
//! so the matching below meets whitespace only as the plain space `' '`.
//! It reads which characters are decimal digits from a mask, so that what it
//! does can be stated and checked independently of the Unicode tables.

use vstd::prelude::*;

use crate::classes::{
    all_ascii, ascii_lower, chars_of, digit_flags, digit_mask, is_decimal_digit, lowercase,
    lowercase_of, push_char, space_class, string_of,
};
use crate::number::is_py_space;
use crate::strip::{
    count_char, count_char_in, drop_char, drop_char_in, lemma_count_char_absent,
    lemma_count_char_concat, lemma_drop_char_absent, lemma_drop_char_concat,
    lemma_trim_end_shape, lemma_trim_end_while, lemma_trim_start_shape, lemma_trim_start_while,
    trim_end_while, trim_start_while,
};

verus! {

/// For each character of `s`, whether it is whitespace in the sense of
/// `is_py_space`.
pub open spec fn py_flags(s: Seq<char>) -> Seq<bool> {
    s.map_values(|c: char| is_py_space(c))
}

/// What the character at `i` becomes when the runs of characters marked in
/// `spaces` are collapsed: the first of a run turns into one space, the rest
/// of the run vanishes, anything else stays.
pub open spec fn space_piece(s: Seq<char>, spaces: Seq<bool>, i: int) -> Seq<char> {
    if spaces[i] {
        if i > 0 && spaces[i - 1] {
            seq![]
        } else {
            seq![' ']
        }
    } else {
        seq![s[i]]
    }
}

/// `s` with every run of characters marked in `spaces` replaced by a single
/// space.
pub open spec fn collapse_with(s: Seq<char>, spaces: Seq<bool>) -> Seq<char>
    decreases s.len(),
{
    if s.len() == 0 {
        s
    } else {
        collapse_with(s.drop_last(), spaces) + space_piece(s, spaces, s.len() - 1)
    }
}

/// `s` with every run of whitespace (the `White_Space` property and
/// `U+001C`..=`U+001F`) replaced by a single space.
pub open spec fn collapse_spaces(s: Seq<char>) -> Seq<char> {
    collapse_with(s, py_flags(s))
}

/// Whether the character at `p` may follow the first digit of a number:
/// a digit (as `digits` marks them), a space, `.`, `,` or `'`.
pub open spec fn in_number_run(t: Seq<char>, digits: Seq<bool>, p: int) -> bool {
    digits[p] || t[p] == ' ' || t[p] == '.' || t[p] == ',' || t[p] == '\''
}

/// Where the run of `in_number_run` characters starting at `p` ends.
pub open spec fn run_end(t: Seq<char>, digits: Seq<bool>, p: int) -> int
    decreases t.len() - p,
{
    if 0 <= p < t.len() && in_number_run(t, digits, p) {
        run_end(t, digits, p + 1)
    } else {
        p
    }
}

/// Whether a number may end at `p`: there the text ends, or a character
/// follows that is neither `%` nor a digit.
pub open spec fn number_may_end(t: Seq<char>, digits: Seq<bool>, p: int) -> bool {
    p >= t.len() || (t[p] != '%' && !digits[p])
}

/// The largest end in `lo..=g` at which a number may end.
pub open spec fn group_end(t: Seq<char>, digits: Seq<bool>, lo: int, g: int) -> Option<int>
    decreases g - lo + 1,
{
    if g < lo {
        None
    } else if number_may_end(t, digits, g) {
        Some(g)
    } else {
        group_end(t, digits, lo, g - 1)
    }
}

/// The end of the number whose first digit is at `d`: the run after the digit
/// is taken whole and given back one character at a time until the number
/// may end there.
pub open spec fn group_from_digit(t: Seq<char>, digits: Seq<bool>, d: int) -> Option<int> {
    group_end(t, digits, d + 1, run_end(t, digits, d + 1))
}

/// The end of a number starting at `i`, if one does: a digit there, or a `.`
/// followed by a digit.
pub open spec fn match_end_at(t: Seq<char>, digits: Seq<bool>, i: int) -> Option<int> {
    let dotted = if t[i] == '.' && i + 1 < t.len() && digits[i + 1] {
        group_from_digit(t, digits, i + 1)
    } else {
        None
    };
    if dotted is Some {
        dotted
    } else if digits[i] {
        group_from_digit(t, digits, i)
    } else {
        None
    }
}

/// The first number in `t` at or after `i`, as its start and end.
pub open spec fn first_price_match(t: Seq<char>, digits: Seq<bool>, i: int) -> Option<(int, int)>
    decreases t.len() - i,
{
    if i < 0 || i >= t.len() {
        None
    } else {
        match match_end_at(t, digits, i) {
            Some(g) => Some((i, g)),
            None => first_price_match(t, digits, i + 1),
        }
    }
}

/// `.` and `,` as a predicate value.
pub open spec fn separator_pred() -> spec_fn(char) -> bool {
    |c: char| c == '.' || c == ','
}

/// The space as a predicate value.
pub open spec fn space_pred() -> spec_fn(char) -> bool {
    |c: char| c == ' '
}

/// `s` without surrounding spaces. On collapsed text, where every whitespace
/// character has become a space, this is what `str::trim` leaves.
pub open spec fn trim_spaces(s: Seq<char>) -> Seq<char> {
    trim_end_while(trim_start_while(s, space_pred()), space_pred())
}

/// The matched number made presentable: trailing `.` and `,` dropped,
/// apostrophes removed, leading `.` and `,` dropped unless the text holds
/// exactly one `.`, and surrounding spaces trimmed.
pub open spec fn clean_number(m: Seq<char>) -> Seq<char> {
    let trimmed = drop_char(trim_end_while(m, separator_pred()), '\'');
    if count_char(trimmed, '.') == 1 {
        trim_spaces(trimmed)
    } else {
        trim_spaces(trim_start_while(trimmed, separator_pred()))
    }
}

/// The word `free`.
pub open spec fn free_word() -> Seq<char> {
    seq!['f', 'r', 'e', 'e']
}

/// Whether `free` occurs in `l`.
pub open spec fn contains_free(l: Seq<char>) -> bool {
    exists|j: int| 0 <= j && j + 4 <= l.len() && #[trigger] l.subrange(j, j + 4) == free_word()
}

/// The first position at or after `i` holding `c`, or the length of `t`.
pub open spec fn index_of_char(t: Seq<char>, c: char, i: int) -> int
    decreases t.len() - i,
{
    if i < 0 || i >= t.len() {
        t.len() as int
    } else if t[i] == c {
        i
    } else {
        index_of_char(t, c, i + 1)
    }
}

/// The last position at or before `j` that does not hold a space, or `-1`.
pub open spec fn skip_back_spaces(t: Seq<char>, j: int) -> int
    decreases j + 1,
{
    if 0 <= j < t.len() && t[j] == ' ' {
        skip_back_spaces(t, j - 1)
    } else {
        j
    }
}

/// Whether the character at `k` may lead up to the digits before a euro
/// sign: a digit, a space, `.` or `,`.
pub open spec fn in_euro_prefix(t: Seq<char>, digits: Seq<bool>, k: int) -> bool {
    digits[k] || t[k] == ' ' || t[k] == '.' || t[k] == ','
}

/// Where the run of `in_euro_prefix` characters that ends just before `j`
/// starts.
pub open spec fn prefix_start(t: Seq<char>, digits: Seq<bool>, j: int) -> int
    decreases j,
{
    if 0 < j <= t.len() && in_euro_prefix(t, digits, j - 1) {
        prefix_start(t, digits, j - 1)
    } else {
        j
    }
}

/// Where the run of digits starting at `p` ends.
pub open spec fn digit_run_end(t: Seq<char>, digits: Seq<bool>, p: int) -> int
    decreases t.len() - p,
{
    if 0 <= p < t.len() && digits[p] {
        digit_run_end(t, digits, p + 1)
    } else {
        p
    }
}

/// After the euro sign, from `p`: some spaces, exactly two digits, then the
/// end of the text or one non-digit character, taken into the match. Gives
/// the end of the match.
pub open spec fn euro_pair_end(t: Seq<char>, digits: Seq<bool>, p: int) -> Option<int>
    decreases t.len() - p,
{
    if 0 <= p && p + 1 < t.len() && digits[p] && digits[p + 1] && (p + 2 == t.len() || !digits[p
        + 2]) {
        Some(
            if p + 2 == t.len() {
                p + 2
            } else {
                p + 3
            },
        )
    } else if 0 <= p < t.len() && t[p] == ' ' {
        euro_pair_end(t, digits, p + 1)
    } else {
        None
    }
}

/// After the euro sign, from `p`: digits with no space before them, then the
/// end of the text or one non-digit character, taken into the match. Gives
/// the end of the match.
pub open spec fn euro_run_end(t: Seq<char>, digits: Seq<bool>, p: int) -> Option<int> {
    if 0 <= p < t.len() && digits[p] {
        let e = digit_run_end(t, digits, p + 1);
        Some(
            if e == t.len() {
                e
            } else {
                e + 1
            },
        )
    } else {
        None
    }
}

/// The price around the only euro sign of `t`, where the sign acts as the
/// decimal mark (`35€ 99` means 35.99): digits, spaces, `.` and `,` ending in
/// a digit, spaces, the sign, then either spaces and exactly two digits or,
/// failing that, one or more digits right after the sign. The span runs from
/// the start of the leading run to just after the first character that
/// follows the digits.
pub open spec fn euro_match(t: Seq<char>, digits: Seq<bool>) -> Option<(int, int)> {
    if count_char(t, '€') != 1 {
        None
    } else {
        let q = index_of_char(t, '€', 0);
        let d = skip_back_spaces(t, q - 1);
        if d < 0 || !digits[d] {
            None
        } else {
            let i = prefix_start(t, digits, d);
            match euro_pair_end(t, digits, q + 1) {
                Some(e) => Some((i, e)),
                None => match euro_run_end(t, digits, q + 1) {
                    Some(e) => Some((i, e)),
                    None => None,
                },
            }
        }
    }
}

/// The number text read from collapsed text `t` whose decimal digits are
/// marked in `digits`: the euro-separated price with its spaces removed,
/// when the text holds exactly one euro sign and one is found there;
/// otherwise the first number, cleaned by `clean_number`.
pub open spec fn number_text_from(t: Seq<char>, digits: Seq<bool>) -> Option<Seq<char>> {
    match euro_match(t, digits) {
        Some((i, e)) => Some(drop_char(t.subrange(i, e), ' ')),
        None => match first_price_match(t, digits, 0) {
            Some((i, g)) => Some(clean_number(t.subrange(i, g))),
            None => None,
        },
    }
}

/// The price text in `s`: after whitespace is collapsed, the number text of
/// `number_text_from`; failing that, `0` when the lowercased text contains
/// `free`.
pub open spec fn price_text_of(s: Seq<char>) -> Option<Seq<char>> {
    let t = collapse_spaces(s);
    match number_text_from(t, digit_flags(t)) {
        Some(x) => Some(x),
        None => if contains_free(lowercase(t)) {
            Some(seq!['0'])
        } else {
            None
        },
    }
}

/// A character that may appear in a price text: a decimal digit, a space,
/// `.`, `,` or `€`.
pub open spec fn is_amount_char(c: char) -> bool {
    is_decimal_digit(c) || ('0' <= c && c <= '9') || c == ' ' || c == '.' || c == ',' || c == '€'
}

/// Every character of `s` satisfies `f`.
pub open spec fn chars_all(s: Seq<char>, f: spec_fn(char) -> bool) -> bool {
    forall|j: int| 0 <= j < s.len() ==> f(#[trigger] s[j])
}

proof fn lemma_chars_all_subrange(s: Seq<char>, f: spec_fn(char) -> bool, a: int, b: int)
    requires
        chars_all(s, f),
        0 <= a <= b <= s.len(),
    ensures
        chars_all(s.subrange(a, b), f),
{
    assert forall|j: int| 0 <= j < b - a implies f(#[trigger] s.subrange(a, b)[j]) by {
        assert(s.subrange(a, b)[j] == s[a + j]);
    }
}

/// Removing `x` from a text whose characters are `x` or satisfy `f` leaves
/// only characters that satisfy `f`.
proof fn lemma_drop_char_all(s: Seq<char>, x: char, f: spec_fn(char) -> bool)
    requires
        forall|j: int| 0 <= j < s.len() ==> f(#[trigger] s[j]) || s[j] == x,
    ensures
        chars_all(drop_char(s, x), f),
    decreases s.len(),
{
    if s.len() > 0 {
        let d = s.drop_last();
        assert forall|j: int| 0 <= j < d.len() implies f(#[trigger] d[j]) || d[j] == x by {
            assert(d[j] == s[j]);
        }
        lemma_drop_char_all(d, x, f);
        assert(s.last() == s[s.len() - 1]);
    }
}

/// The run from `p` is made of `in_number_run` characters.
proof fn lemma_run_end(t: Seq<char>, digits: Seq<bool>, p: int)
    requires
        0 <= p <= t.len(),
    ensures
        p <= run_end(t, digits, p) <= t.len(),
        forall|j: int| p <= j < run_end(t, digits, p) ==> #[trigger] in_number_run(t, digits, j),
    decreases t.len() - p,
{
    if p < t.len() && in_number_run(t, digits, p) {
        lemma_run_end(t, digits, p + 1);
    }
}

proof fn lemma_group_end(t: Seq<char>, digits: Seq<bool>, lo: int, g: int)
    ensures
        group_end(t, digits, lo, g) matches Some(x) ==> lo <= x <= g,
    decreases g - lo + 1,
{
    if g >= lo && !number_may_end(t, digits, g) {
        lemma_group_end(t, digits, lo, g - 1);
    }
}

/// A number found at `i` spans only `in_number_run` characters.
proof fn lemma_match_end_at(t: Seq<char>, digits: Seq<bool>, i: int)
    requires
        0 <= i < t.len(),
    ensures
        match_end_at(t, digits, i) matches Some(g) ==> i < g <= t.len() && (forall|j: int|
            i <= j < g ==> #[trigger] in_number_run(t, digits, j)) && (digits[i] || (t[i] == '.'
            && i + 1 < g && digits[i + 1])),
{
    if t[i] == '.' && i + 1 < t.len() && digits[i + 1] {
        lemma_run_end(t, digits, i + 2);
        lemma_group_end(t, digits, i + 2, run_end(t, digits, i + 2));
    }
    if digits[i] {
        lemma_run_end(t, digits, i + 1);
        lemma_group_end(t, digits, i + 1, run_end(t, digits, i + 1));
    }
}

/// Searching from `i`, the number found is the first position where one
/// starts.
proof fn lemma_first_match_from(t: Seq<char>, digits: Seq<bool>, i: int)
    requires
        0 <= i,
    ensures
        first_price_match(t, digits, i) matches Some((a, g)) ==> i <= a < t.len() && match_end_at(
            t,
            digits,
            a,
        ) == Some(g) && forall|j: int|
            i <= j < a ==> (#[trigger] match_end_at(t, digits, j)) is None,
        first_price_match(t, digits, i) is None ==> forall|j: int|
            i <= j < t.len() ==> (#[trigger] match_end_at(t, digits, j)) is None,
    decreases t.len() - i,
{
    if i < t.len() && match_end_at(t, digits, i) is None {
        lemma_first_match_from(t, digits, i + 1);
    }
}

/// Where several numbers are present the first wins: the price text is read
/// from the earliest position at which a number starts, and when none is
/// found no number starts anywhere.
pub proof fn lemma_first_number_wins(t: Seq<char>, digits: Seq<bool>)
    ensures
        first_price_match(t, digits, 0) matches Some((a, g)) ==> match_end_at(t, digits, a) == Some(
            g,
        ) && forall|j: int| 0 <= j < a ==> (#[trigger] match_end_at(t, digits, j)) is None,
        first_price_match(t, digits, 0) is None ==> forall|j: int|
            0 <= j < t.len() ==> (#[trigger] match_end_at(t, digits, j)) is None,
{
    lemma_first_match_from(t, digits, 0);
}

proof fn lemma_index_of_char_found(t: Seq<char>, c: char, i: int)
    requires
        0 <= i <= t.len(),
    ensures
        i <= index_of_char(t, c, i) <= t.len(),
        index_of_char(t, c, i) < t.len() ==> t[index_of_char(t, c, i)] == c,
    decreases t.len() - i,
{
    if i < t.len() && t[i] != c {
        lemma_index_of_char_found(t, c, i + 1);
    }
}

proof fn lemma_index_of_char(t: Seq<char>, c: char, i: int)
    requires
        0 <= i,
    ensures
        index_of_char(t, c, i) == t.len() ==> forall|j: int| i <= j < t.len() ==> t[j] != c,
    decreases t.len() - i,
{
    if i < t.len() && t[i] != c {
        lemma_index_of_char(t, c, i + 1);
    }
}

proof fn lemma_skip_back_spaces(t: Seq<char>, j: int)
    requires
        j < t.len(),
    ensures
        skip_back_spaces(t, j) <= j,
        forall|k: int| skip_back_spaces(t, j) < k <= j ==> #[trigger] t[k] == ' ',
    decreases j + 1,
{
    if 0 <= j && t[j] == ' ' {
        lemma_skip_back_spaces(t, j - 1);
    }
}

proof fn lemma_prefix_start(t: Seq<char>, digits: Seq<bool>, j: int)
    requires
        0 <= j <= t.len(),
    ensures
        0 <= prefix_start(t, digits, j) <= j,
        forall|k: int|
            prefix_start(t, digits, j) <= k < j ==> #[trigger] in_euro_prefix(t, digits, k),
        prefix_start(t, digits, j) == 0 || !in_euro_prefix(
            t,
            digits,
            prefix_start(t, digits, j) - 1,
        ),
    decreases j,
{
    if 0 < j && in_euro_prefix(t, digits, j - 1) {
        lemma_prefix_start(t, digits, j - 1);
    }
}

proof fn lemma_digit_run_end(t: Seq<char>, digits: Seq<bool>, p: int)
    requires
        0 <= p <= t.len(),
    ensures
        p <= digit_run_end(t, digits, p) <= t.len(),
        forall|k: int| p <= k < digit_run_end(t, digits, p) ==> #[trigger] digits[k],
    decreases t.len() - p,
{
    if p < t.len() && digits[p] {
        lemma_digit_run_end(t, digits, p + 1);
    }
}

/// After the sign, the two-digit form runs through spaces and digits up to
/// its last character.
proof fn lemma_euro_pair_end(t: Seq<char>, digits: Seq<bool>, p: int)
    requires
        0 <= p,
    ensures
        euro_pair_end(t, digits, p) matches Some(e) ==> p < e <= t.len() && forall|k: int|
            p <= k < e - 1 ==> #[trigger] t[k] == ' ' || digits[k],
    decreases t.len() - p,
{
    if !(p + 1 < t.len() && digits[p] && digits[p + 1] && (p + 2 == t.len() || !digits[p + 2]))
        && p < t.len() && t[p] == ' ' {
        lemma_euro_pair_end(t, digits, p + 1);
    }
}

/// The span of a euro-separated price is made of price characters, all but
/// possibly its last.
proof fn lemma_euro_match_chars(t: Seq<char>, digits: Seq<bool>)
    ensures
        euro_match(t, digits) matches Some((i, e)) ==> 0 <= i < e <= t.len() && forall|k: int|
            #![trigger t[k]]
            i <= k < e - 1 ==> in_euro_prefix(t, digits, k) || t[k] == '€',
{
    if count_char(t, '€') == 1 {
        let q = index_of_char(t, '€', 0);
        lemma_index_of_char_found(t, '€', 0);
        let d = skip_back_spaces(t, q - 1);
        if q <= t.len() {
            lemma_skip_back_spaces(t, q - 1);
        }
        if q < t.len() && 0 <= d && digits[d] {
            lemma_prefix_start(t, digits, d);
            lemma_euro_pair_end(t, digits, q + 1);
            if q + 2 <= t.len() {
                lemma_digit_run_end(t, digits, q + 2);
            }
            assert forall|k: int| #![trigger t[k]] prefix_start(t, digits, d) <= k < d implies
                in_euro_prefix(t, digits, k) by {}
        }
    }
}

/// Whether the character at `k` of `t` is a decimal digit (as `digits`
/// marks them), a space, `.` or `,`.
pub open spec fn is_lead_char(t: Seq<char>, digits: Seq<bool>, k: int) -> bool {
    digits[k] || t[k] == ' ' || t[k] == '.' || t[k] == ','
}

/// When the euro sign acts as the decimal mark, the price text is a span of
/// the collapsed text, with its spaces removed, that holds the sign and
/// starts at the beginning of the whole run of digits, spaces, `.` and `,`
/// standing before the sign: no digit of the amount before the sign is left
/// out, wherever spaces group it.
pub proof fn lemma_euro_form_takes_whole_run(s: Seq<char>)
    ensures
        ({
            let t = collapse_spaces(s);
            let dg = digit_flags(t);
            euro_match(t, dg) is Some ==> exists|i: int, q: int, e: int|
                #![trigger t.subrange(i, e), t[q]]
                0 <= i <= q < e <= t.len() && t[q] == '€' && (forall|m: int|
                    i <= m < q ==> #[trigger] is_lead_char(t, dg, m)) && (i == 0
                    || !is_lead_char(t, dg, i - 1)) && price_text_of(s) == Some(
                    drop_char(t.subrange(i, e), ' '),
                )
        }),
{
    let t = collapse_spaces(s);
    let dg = digit_flags(t);
    if euro_match(t, dg) is Some {
        let q = index_of_char(t, '€', 0);
        lemma_index_of_char_found(t, '€', 0);
        let d = skip_back_spaces(t, q - 1);
        if q <= t.len() {
            lemma_skip_back_spaces(t, q - 1);
        }
        let i = prefix_start(t, dg, d);
        lemma_prefix_start(t, dg, d);
        lemma_euro_pair_end(t, dg, q + 1);
        if q + 2 <= t.len() {
            lemma_digit_run_end(t, dg, q + 2);
        }
        let e = match euro_match(t, dg) {
            Some((_, e)) => e,
            None => 0,
        };
        assert(q < t.len());
        assert forall|m: int| i <= m < q implies #[trigger] is_lead_char(t, dg, m) by {
            if m < d {
                assert(in_euro_prefix(t, dg, m));
            } else if m > d {
                assert(t[m] == ' ');
            }
        }
        if i > 0 {
            assert(!in_euro_prefix(t, dg, i - 1));
        }
        assert(0 <= i <= q < e <= t.len() && t[q] == '€' && (forall|m: int|
            i <= m < q ==> #[trigger] is_lead_char(t, dg, m)) && (i == 0 || !is_lead_char(
            t,
            dg,
            i - 1,
        )) && price_text_of(s) == Some(drop_char(t.subrange(i, e), ' ')));
    }
}

/// Every character of `x` is an ASCII digit.
pub open spec fn ascii_digits(x: Seq<char>) -> bool {
    forall|j: int| 0 <= j < x.len() ==> '0' <= #[trigger] x[j] && x[j] <= '9'
}

proof fn lemma_run_end_to_end(t: Seq<char>, digits: Seq<bool>, p: int)
    requires
        0 <= p <= t.len(),
        forall|j: int| p <= j < t.len() ==> #[trigger] digits[j],
    ensures
        run_end(t, digits, p) == t.len(),
    decreases t.len() - p,
{
    if p < t.len() {
        lemma_run_end_to_end(t, digits, p + 1);
    }
}

/// A run of ASCII digits is its own price text.
pub proof fn lemma_digits_are_their_own_price_text(x: Seq<char>)
    requires
        x.len() > 0,
        ascii_digits(x),
    ensures
        price_text_of(x) == Some(x),
{
    let n = x.len() as int;
    assert(is_collapsed(x));
    lemma_collapsed_fixed(x, py_flags(x));
    let t = collapse_spaces(x);
    assert(t == x);
    let dg = digit_flags(x);
    assert forall|j: int| 0 <= j < n implies #[trigger] dg[j] by {
        assert('0' <= x[j] && x[j] <= '9');
    }
    assert forall|j: int| 0 <= j < n implies #[trigger] x[j] != '€' by {
        assert('0' <= x[j] && x[j] <= '9');
    }
    lemma_count_char_absent(x, '€');
    assert(euro_match(x, dg) is None);
    lemma_run_end_to_end(x, dg, 1);
    assert(group_end(x, dg, 1, n) == Some(n));
    assert(x[0] != '.');
    assert(match_end_at(x, dg, 0) == Some(n));
    assert(first_price_match(x, dg, 0) == Some((0int, n)));
    let m = x.subrange(0, n);
    assert(m =~= x);
    let h = lemma_trim_end_shape(x, separator_pred());
    assert(h == n) by {
        if h < n {
            assert(separator_pred()(x[n - 1]));
        }
    }
    assert(x.take(n) =~= x);
    assert forall|j: int| 0 <= j < n implies #[trigger] x[j] != '\'' by {
        assert('0' <= x[j] && x[j] <= '9');
    }
    lemma_drop_char_absent(x, '\'');
    assert forall|j: int| 0 <= j < n implies #[trigger] x[j] != '.' by {
        assert('0' <= x[j] && x[j] <= '9');
    }
    lemma_count_char_absent(x, '.');
    let k = lemma_trim_start_shape(x, separator_pred());
    assert(k == 0) by {
        if k > 0 {
            assert(separator_pred()(x[0]));
        }
    }
    assert(x.skip(0) =~= x);
    let k2 = lemma_trim_start_shape(x, space_pred());
    assert(k2 == 0) by {
        if k2 > 0 {
            assert(space_pred()(x[0]));
        }
    }
    let h2 = lemma_trim_end_shape(x, space_pred());
    assert(h2 == n) by {
        if h2 < n {
            assert(space_pred()(x[n - 1]));
        }
    }
    assert(clean_number(m) == x);
}

/// Every character of a price text is a decimal digit, a space, `.`, `,` or
/// `€`, with one exception: a price read around a euro sign acting as the
/// decimal mark keeps, as its last character, whatever character follows its
/// digits.
pub proof fn lemma_price_text_chars(s: Seq<char>)
    ensures
        price_text_of(s) matches Some(r) ==> forall|j: int|
            0 <= j < r.len() ==> is_amount_char(#[trigger] r[j]) || (j == r.len() - 1
                && euro_match(collapse_spaces(s), digit_flags(collapse_spaces(s))) is Some),
{
    let t = collapse_spaces(s);
    let d = digit_flags(t);
    let f = |c: char| is_amount_char(c);
    match euro_match(t, d) {
        Some((i, e)) => {
            lemma_euro_match_chars(t, d);
            let m = t.subrange(i, e);
            let dd = m.drop_last();
            assert forall|j: int| 0 <= j < dd.len() implies f(#[trigger] dd[j]) || dd[j] == ' ' by {
                assert(dd[j] == t[i + j]);
                assert(d[i + j] == is_decimal_digit(t[i + j]));
            }
            lemma_drop_char_all(dd, ' ', f);
            let r = drop_char(m, ' ');
            if m.last() != ' ' {
                assert(r == drop_char(dd, ' ').push(m.last()));
                assert forall|j: int| 0 <= j < r.len() - 1 implies is_amount_char(
                    #[trigger] r[j],
                ) by {
                    assert(r[j] == drop_char(dd, ' ')[j]);
                }
            }
        },
        None => {
            match first_price_match(t, d, 0) {
                Some((i, g)) => {
                    lemma_first_match_from(t, d, 0);
                    lemma_match_end_at(t, d, i);
                    let m = t.subrange(i, g);
                    let h = lemma_trim_end_shape(m, separator_pred());
                    let x = m.take(h);
                    assert forall|j: int| 0 <= j < x.len() implies f(#[trigger] x[j]) || x[j]
                        == '\'' by {
                        assert(x[j] == t[i + j]);
                        assert(in_number_run(t, d, i + j));
                        assert(d[i + j] == is_decimal_digit(t[i + j]));
                    }
                    lemma_drop_char_all(x, '\'', f);
                    let y = drop_char(x, '\'');
                    let k = lemma_trim_start_shape(y, separator_pred());
                    lemma_chars_all_subrange(y, f, k, y.len() as int);
                    assert(y.skip(k) =~= y.subrange(k, y.len() as int));
                    let z = if count_char(y, '.') == 1 {
                        y
                    } else {
                        y.skip(k)
                    };
                    let k2 = lemma_trim_start_shape(z, space_pred());
                    lemma_chars_all_subrange(z, f, k2, z.len() as int);
                    assert(z.skip(k2) =~= z.subrange(k2, z.len() as int));
                    let w = z.skip(k2);
                    let h2 = lemma_trim_end_shape(w, space_pred());
                    lemma_chars_all_subrange(w, f, 0, h2);
                    assert(w.take(h2) =~= w.subrange(0, h2));
                },
                None => {},
            }
        },
    }
}

/// A character of a plain price text: a decimal digit, a space, `.` or `,`.
pub open spec fn is_number_char(c: char) -> bool {
    is_decimal_digit(c) || c == ' ' || c == '.' || c == ','
}

/// Every character of collapsed text is a space or an unmarked character of
/// the original.
proof fn lemma_collapse_chars(s: Seq<char>, spaces: Seq<bool>, f: spec_fn(char) -> bool)
    requires
        f(' '),
        forall|i: int| 0 <= i < s.len() && !spaces[i] ==> f(#[trigger] s[i]),
    ensures
        chars_all(collapse_with(s, spaces), f),
    decreases s.len(),
{
    if s.len() > 0 {
        let d = s.drop_last();
        assert forall|i: int| 0 <= i < d.len() && !spaces[i] implies f(#[trigger] d[i]) by {
            assert(d[i] == s[i]);
        }
        lemma_collapse_chars(d, spaces, f);
        let cd = collapse_with(d, spaces);
        let piece = space_piece(s, spaces, s.len() - 1);
        let c = collapse_with(s, spaces);
        assert(c == cd + piece);
        assert forall|j: int| 0 <= j < c.len() implies f(#[trigger] c[j]) by {
            if j < cd.len() {
                assert(c[j] == cd[j]);
            } else {
                assert(c[j] == piece[j - cd.len()]);
            }
        }
    }
}

/// Collapsing keeps every euro sign when no euro sign is marked as space.
proof fn lemma_collapse_keeps_euros(s: Seq<char>, spaces: Seq<bool>)
    requires
        forall|i: int| 0 <= i < s.len() && spaces[i] ==> #[trigger] s[i] != '€',
    ensures
        count_char(collapse_with(s, spaces), '€') == count_char(s, '€'),
    decreases s.len(),
{
    if s.len() > 0 {
        let d = s.drop_last();
        assert forall|i: int| 0 <= i < d.len() && spaces[i] implies #[trigger] d[i] != '€' by {
            assert(d[i] == s[i]);
        }
        lemma_collapse_keeps_euros(d, spaces);
        let cd = collapse_with(d, spaces);
        let piece = space_piece(s, spaces, s.len() - 1);
        lemma_count_char_concat(cd, piece, '€');
        let n = s.len() - 1;
        assert(s.last() == s[n]);
        if spaces[n] {
            assert(s[n] != '€');
            if piece.len() == 1 {
                assert(piece.drop_last() =~= Seq::<char>::empty());
                assert(count_char(piece.drop_last(), '€') == 0);
                assert(piece.last() == ' ');
                assert(count_char(piece, '€') == 0);
            } else {
                assert(count_char(piece, '€') == 0);
            }
        } else {
            assert(piece == seq![s[n]]);
            assert(piece.drop_last() =~= Seq::<char>::empty());
            assert(count_char(piece.drop_last(), '€') == 0);
            assert(piece.last() == s[n]);
            assert(count_char(piece, '€') == (if s[n] == '€' {
                1nat
            } else {
                0nat
            }));
        }
        assert(collapse_with(s, spaces) == cd + piece);
    }
}

/// Text holding no decimal digit holds no number: its price text is `0`
/// when the lowercased, collapsed text contains `free`, and nothing
/// otherwise.
pub proof fn lemma_no_digit_price_text(s: Seq<char>)
    requires
        forall|j: int| 0 <= j < s.len() ==> !is_decimal_digit(#[trigger] s[j]),
    ensures
        price_text_of(s) == (if contains_free(lowercase(collapse_spaces(s))) {
            Some(seq!['0'])
        } else {
            None::<Seq<char>>
        }),
{
    let t = collapse_spaces(s);
    let d = digit_flags(t);
    let f = |c: char| !is_decimal_digit(c);
    lemma_collapse_chars(s, py_flags(s), f);
    assert forall|j: int| 0 <= j < t.len() implies !d[j] by {
        assert(f(t[j]));
    }
    if count_char(t, '€') == 1 {
        let q = index_of_char(t, '€', 0);
        lemma_index_of_char_found(t, '€', 0);
        if q <= t.len() {
            lemma_skip_back_spaces(t, q - 1);
        }
    }
    assert(euro_match(t, d) is None);
    lemma_first_match_from(t, d, 0);
    assert(first_price_match(t, d, 0) is None) by {
        match first_price_match(t, d, 0) {
            Some((a, g)) => {
                assert(!d[a]);
                assert(match_end_at(t, d, a) is None);
            },
            None => {},
        }
    }
}

/// Whether `x` ends with `w`.
pub open spec fn ends_with(x: Seq<char>, w: Seq<char>) -> bool {
    w.len() <= x.len() && x.subrange(x.len() - w.len(), x.len() as int) == w
}

/// `s` with every character lowered by `ascii_lower`.
pub open spec fn lower_each(s: Seq<char>) -> Seq<char> {
    s.map_values(|c: char| ascii_lower(c))
}

proof fn lemma_ends_with_push(x: Seq<char>, y: char, w: Seq<char>)
    requires
        w.len() > 0,
    ensures
        ends_with(x.push(y), w) == (y == w.last() && ends_with(x, w.drop_last())),
{
    let z = x.push(y);
    if ends_with(z, w) {
        assert(z[z.len() - 1] == w[w.len() - 1]);
        assert(x.subrange(x.len() - (w.len() - 1), x.len() as int) =~= w.drop_last()) by {
            assert forall|j: int| 0 <= j < w.len() - 1 implies x.subrange(
                x.len() - (w.len() - 1),
                x.len() as int,
            )[j] == w.drop_last()[j] by {
                assert(z.subrange(z.len() - w.len(), z.len() as int)[j] == w[j]);
            }
        }
    }
    if y == w.last() && ends_with(x, w.drop_last()) {
        assert(z.subrange(z.len() - w.len(), z.len() as int) =~= w) by {
            assert forall|j: int| 0 <= j < w.len() implies z.subrange(
                z.len() - w.len(),
                z.len() as int,
            )[j] == w[j] by {
                if j < w.len() - 1 {
                    assert(x.subrange(x.len() - (w.len() - 1), x.len() as int)[j]
                        == w.drop_last()[j]);
                }
            }
        }
    }
}

proof fn lemma_contains_free_last(x: Seq<char>)
    requires
        x.len() > 0,
    ensures
        contains_free(x) == (contains_free(x.drop_last()) || ends_with(x, free_word())),
{
    let d = x.drop_last();
    if contains_free(x) {
        let j = choose|j: int|
            0 <= j && j + 4 <= x.len() && #[trigger] x.subrange(j, j + 4) == free_word();
        if j + 4 < x.len() {
            assert(d.subrange(j, j + 4) =~= x.subrange(j, j + 4));
        }
    }
    if contains_free(d) {
        let j = choose|j: int|
            0 <= j && j + 4 <= d.len() && #[trigger] d.subrange(j, j + 4) == free_word();
        assert(x.subrange(j, j + 4) =~= d.subrange(j, j + 4));
    }
    if ends_with(x, free_word()) {
        assert(x.subrange(x.len() - 4, x.len() - 4 + 4) == free_word());
    }
}

/// A suffix of `free` ends the lowered text exactly when it ends the lowered,
/// collapsed text.
proof fn lemma_collapse_keeps_endings(s: Seq<char>, spaces: Seq<bool>, w: Seq<char>)
    requires
        forall|i: int| 0 <= i < s.len() ==> spaces[i] == is_py_space(#[trigger] s[i]),
        forall|j: int| 0 <= j < w.len() ==> (#[trigger] w[j] == 'f' || w[j] == 'r' || w[j] == 'e'),
    ensures
        ends_with(lower_each(collapse_with(s, spaces)), w) == ends_with(lower_each(s), w),
    decreases s.len(),
{
    let c = collapse_with(s, spaces);
    if w.len() == 0 {
        assert(lower_each(c).subrange(lower_each(c).len() as int, lower_each(c).len() as int)
            =~= w);
        assert(lower_each(s).subrange(lower_each(s).len() as int, lower_each(s).len() as int)
            =~= w);
    } else if s.len() == 0 {
        assert(c.len() == 0);
    } else {
        let n = s.len() - 1;
        let d = s.drop_last();
        assert forall|i: int| 0 <= i < d.len() implies spaces[i] == is_py_space(#[trigger] d[i]) by {
            assert(d[i] == s[i]);
        }
        lemma_collapse_shape(s, spaces);
        assert(s.last() == s[n]);
        assert(lower_each(s) == lower_each(d).push(ascii_lower(s[n])));
        lemma_ends_with_push(lower_each(d), ascii_lower(s[n]), w);
        assert(w.last() == w[w.len() - 1]);
        if is_py_space(s[n]) {
            assert(c.last() == ' ');
            assert(lower_each(c) == lower_each(c.drop_last()).push(' '));
            lemma_ends_with_push(lower_each(c.drop_last()), ' ', w);
        } else {
            let cd = collapse_with(d, spaces);
            assert(space_piece(s, spaces, n) == seq![s[n]]);
            assert(c == cd.push(s[n]));
            assert(lower_each(c) == lower_each(cd).push(ascii_lower(s[n])));
            lemma_ends_with_push(lower_each(cd), ascii_lower(s[n]), w);
            let wd = w.drop_last();
            assert forall|j: int| 0 <= j < wd.len() implies (#[trigger] wd[j] == 'f' || wd[j]
                == 'r' || wd[j] == 'e') by {
                assert(wd[j] == w[j]);
            }
            lemma_collapse_keeps_endings(d, spaces, wd);
        }
    }
}

/// `free` occurs in the lowered text exactly when it occurs in the lowered,
/// collapsed text.
proof fn lemma_collapse_keeps_free(s: Seq<char>, spaces: Seq<bool>)
    requires
        forall|i: int| 0 <= i < s.len() ==> spaces[i] == is_py_space(#[trigger] s[i]),
    ensures
        contains_free(lower_each(collapse_with(s, spaces))) == contains_free(lower_each(s)),
    decreases s.len(),
{
    if s.len() > 0 {
        let n = s.len() - 1;
        let d = s.drop_last();
        assert forall|i: int| 0 <= i < d.len() implies spaces[i] == is_py_space(#[trigger] d[i]) by {
            assert(d[i] == s[i]);
        }
        lemma_collapse_keeps_free(d, spaces);
        let c = collapse_with(s, spaces);
        let cd = collapse_with(d, spaces);
        let piece = space_piece(s, spaces, n);
        assert(c == cd + piece);
        assert(lower_each(s).drop_last() =~= lower_each(d));
        lemma_contains_free_last(lower_each(s));
        let fw = free_word();
        assert forall|j: int| 0 <= j < fw.len() implies (#[trigger] fw[j] == 'f' || fw[j] == 'r'
            || fw[j] == 'e') by {}
        lemma_collapse_keeps_endings(s, spaces, fw);
        if piece.len() == 0 {
            assert(c =~= cd);
        } else {
            assert(c.drop_last() =~= cd);
            assert(lower_each(c).drop_last() =~= lower_each(cd));
            lemma_contains_free_last(lower_each(c));
        }
    } else {
        assert(collapse_with(s, spaces) == s);
    }
}

/// Text holding no decimal digit and nothing beyond ASCII holds no number:
/// its price text is `0` when the lowercased text contains `free`, and
/// nothing otherwise.
pub proof fn lemma_no_digit_ascii_price_text(s: Seq<char>)
    requires
        all_ascii(s),
        forall|j: int| 0 <= j < s.len() ==> !is_decimal_digit(#[trigger] s[j]),
    ensures
        price_text_of(s) == (if contains_free(lowercase(s)) {
            Some(seq!['0'])
        } else {
            None::<Seq<char>>
        }),
{
    lemma_no_digit_price_text(s);
    let t = collapse_spaces(s);
    let f = |c: char| (c as int) < 128;
    lemma_collapse_chars(s, py_flags(s), f);
    assert(all_ascii(t)) by {
        assert forall|j: int| 0 <= j < t.len() implies (#[trigger] t[j] as int) < 128 by {
            assert(f(t[j]));
        }
    }
    lemma_collapse_keeps_free(s, py_flags(s));
}

/// A price text read without the euro form (the text does not hold exactly
/// one euro sign) is not empty, starts with a decimal digit or with `.` and a
/// decimal digit, neither starts nor ends with a space, and is made of
/// decimal digits, spaces, `.` and `,` only, so it holds no apostrophe.
pub proof fn lemma_plain_price_text(s: Seq<char>)
    requires
        count_char(s, '€') != 1,
    ensures
        price_text_of(s) matches Some(r) ==> r.len() > 0 && r[0] != ' ' && r.last() != ' ' && (
        is_decimal_digit(r[0]) || (r[0] == '.' && r.len() > 1 && is_decimal_digit(r[1])))
            && forall|j: int| 0 <= j < r.len() ==> is_number_char(#[trigger] r[j]),
{
    let t = collapse_spaces(s);
    let d = digit_flags(t);
    lemma_collapse_keeps_euros(s, py_flags(s));
    assert(euro_match(t, d) is None);
    match first_price_match(t, d, 0) {
        Some((i, g)) => {
            lemma_first_match_from(t, d, 0);
            lemma_match_end_at(t, d, i);
            let num = |c: char| is_number_char(c);
            let sep = separator_pred();
            let sp = space_pred();
            let m = t.subrange(i, g);
            let p: int = if d[i] {
                1
            } else {
                2
            };
            assert(m[0] == t[i]);
            if !d[i] {
                assert(m[1] == t[i + 1]);
            }
            let h = lemma_trim_end_shape(m, sep);
            assert(h >= p) by {
                if h < p {
                    assert(sep(m[p - 1]));
                }
            }
            let x = m.take(h);
            assert forall|j: int| 0 <= j < x.len() implies num(#[trigger] x[j]) || x[j] == '\'' by {
                assert(x[j] == t[i + j]);
                assert(in_number_run(t, d, i + j));
            }
            lemma_drop_char_all(x, '\'', num);
            let y = drop_char(x, '\'');
            assert(x =~= x.take(p) + x.skip(p));
            lemma_drop_char_concat(x.take(p), x.skip(p), '\'');
            assert forall|j: int| 0 <= j < p implies #[trigger] x.take(p)[j] != '\'' by {
                assert(x.take(p)[j] == m[j]);
            }
            lemma_drop_char_absent(x.take(p), '\'');
            assert(y.len() >= p);
            assert(y[0] == m[0]);
            if p == 2 {
                assert(y[1] == m[1]);
            }
            let k = lemma_trim_start_shape(y, sep);
            let z = if count_char(y, '.') == 1 {
                y
            } else {
                y.skip(k)
            };
            if p == 1 {
                assert(k == 0) by {
                    if k > 0 {
                        assert(sep(y[0]));
                    }
                }
                assert(y.skip(0) =~= y);
            } else if count_char(y, '.') != 1 {
                assert(k == 1) by {
                    if k == 0 {
                        assert(!sep(y[0]));
                    }
                    if k > 1 {
                        assert(sep(y[1]));
                    }
                }
                assert(z[0] == y[1]);
            }
            assert(chars_all(z, num)) by {
                lemma_chars_all_subrange(y, num, k, y.len() as int);
                assert(y.skip(k) =~= y.subrange(k, y.len() as int));
            }
            assert(z.len() > 0);
            assert(is_decimal_digit(z[0]) || (z[0] == '.' && z.len() > 1 && is_decimal_digit(z[1])));
            let k2 = lemma_trim_start_shape(z, sp);
            assert(k2 == 0) by {
                if k2 > 0 {
                    assert(sp(z[0]));
                }
            }
            let w = z.skip(k2);
            assert(w =~= z);
            let h2 = lemma_trim_end_shape(w, sp);
            assert(h2 >= 1) by {
                if h2 == 0 {
                    assert(sp(w[0]));
                }
            }
            if z[0] == '.' {
                assert(h2 >= 2) by {
                    if h2 < 2 {
                        assert(sp(w[1]));
                    }
                }
            }
            let r = w.take(h2);
            lemma_chars_all_subrange(w, num, 0, h2);
            assert(w.take(h2) =~= w.subrange(0, h2));
            assert(r.last() == w[h2 - 1]);
            assert(clean_number(m) == r);
        },
        None => {},
    }
}

/// Collapsed text: every whitespace character is a single space, with no
/// whitespace just before it.
pub open spec fn is_collapsed(t: Seq<char>) -> bool {
    forall|i: int|
        0 <= i < t.len() && is_py_space(#[trigger] t[i]) ==> t[i] == ' ' && (i > 0 ==> !is_py_space(
            t[i - 1],
        ))
}

proof fn lemma_collapse_shape(s: Seq<char>, spaces: Seq<bool>)
    requires
        forall|i: int| 0 <= i < s.len() ==> spaces[i] == is_py_space(#[trigger] s[i]),
    ensures
        is_collapsed(collapse_with(s, spaces)),
        s.len() > 0 ==> collapse_with(s, spaces).len() > 0 && (is_py_space(s.last())
            ==> collapse_with(s, spaces).last() == ' ') && (!is_py_space(s.last()) ==> collapse_with(
            s,
            spaces,
        ).last() == s.last()),
    decreases s.len(),
{
    if s.len() > 0 {
        let n = s.len() as int;
        let d = s.drop_last();
        assert forall|i: int| 0 <= i < d.len() implies spaces[i] == is_py_space(#[trigger] d[i]) by {
            assert(d[i] == s[i]);
        }
        lemma_collapse_shape(d, spaces);
        let cd = collapse_with(d, spaces);
        let piece = space_piece(s, spaces, n - 1);
        let c = collapse_with(s, spaces);
        assert(c == cd + piece);
        assert(s.last() == s[n - 1]);
        if n > 1 {
            assert(d.last() == s[n - 2]);
        }
        assert forall|i: int| 0 <= i < c.len() && is_py_space(#[trigger] c[i]) implies c[i] == ' '
            && (i > 0 ==> !is_py_space(c[i - 1])) by {
            if i < cd.len() {
                assert(c[i] == cd[i]);
                if i > 0 {
                    assert(c[i - 1] == cd[i - 1]);
                }
            } else {
                assert(c[i] == piece[i - cd.len()]);
                if i > 0 {
                    assert(c[i - 1] == cd[i - 1]);
                }
            }
        }
    }
}

proof fn lemma_collapsed_fixed(t: Seq<char>, spaces: Seq<bool>)
    requires
        is_collapsed(t),
        forall|i: int| 0 <= i < t.len() ==> spaces[i] == is_py_space(#[trigger] t[i]),
    ensures
        collapse_with(t, spaces) == t,
    decreases t.len(),
{
    if t.len() > 0 {
        let n = t.len() as int;
        let d = t.drop_last();
        assert forall|i: int| 0 <= i < d.len() implies spaces[i] == is_py_space(#[trigger] d[i]) by {
            assert(d[i] == t[i]);
        }
        assert forall|i: int| 0 <= i < d.len() && is_py_space(#[trigger] d[i]) implies d[i] == ' '
            && (i > 0 ==> !is_py_space(d[i - 1])) by {
            assert(d[i] == t[i]);
            if i > 0 {
                assert(d[i - 1] == t[i - 1]);
            }
        }
        lemma_collapsed_fixed(d, spaces);
        assert(is_py_space(t[n - 1]) ==> t[n - 1] == ' ');
        assert(d.push(t[n - 1]) =~= t);
    }
}

/// Collapsing whitespace twice gives what collapsing once gives, so the price
/// text depends on the whitespace of the text only through its collapsed
/// form.
pub proof fn lemma_collapse_idempotent(s: Seq<char>)
    ensures
        collapse_spaces(collapse_spaces(s)) == collapse_spaces(s),
        price_text_of(collapse_spaces(s)) == price_text_of(s),
{
    let c = collapse_spaces(s);
    lemma_collapse_shape(s, py_flags(s));
    lemma_collapsed_fixed(c, py_flags(c));
}

/// For each character of `s`, whether it is whitespace as `is_py_space` has
/// it: the regular expression class `\s` or `U+001C`..=`U+001F`.
fn py_mask(s: &Vec<char>) -> (r: Vec<bool>)
    ensures
        r@ == py_flags(s@),
{
    let mut out: Vec<bool> = Vec::new();
    let mut i: usize = 0;
    while i < s.len()
        invariant
            i <= s@.len(),
            out@.len() == i,
            forall|k: int| 0 <= k < i ==> out@[k] == is_py_space(#[trigger] s@[k]),
        decreases s@.len() - i,
    {
        let c = s[i];
        out.push(space_class(c) || ('\u{1c}' <= c && c <= '\u{1f}'));
        i = i + 1;
    }
    assert(out@ =~= py_flags(s@));
    out
}

/// `s` with the runs of characters marked in `spaces` collapsed to single
/// spaces.
pub fn collapse_in(s: &Vec<char>, spaces: &Vec<bool>) -> (r: Vec<char>)
    requires
        spaces@.len() == s@.len(),
    ensures
        r@ == collapse_with(s@, spaces@),
{
    let mut out: Vec<char> = Vec::new();
    let mut i: usize = 0;
    while i < s.len()
        invariant
            i <= s@.len(),
            spaces@.len() == s@.len(),
            out@ == collapse_with(s@.take(i as int), spaces@),
        decreases s@.len() - i,
    {
        let ghost before = s@.take(i as int);
        if spaces[i] {
            if !(i > 0 && spaces[i - 1]) {
                out.push(' ');
            }
        } else {
            out.push(s[i]);
        }
        i = i + 1;
        proof {
            let now = s@.take(i as int);
            assert(now.drop_last() =~= before);
            assert(space_piece(now, spaces@, i - 1) == space_piece(s@, spaces@, i - 1));
            assert(out@ =~= collapse_with(before, spaces@) + space_piece(s@, spaces@, i - 1));
        }
    }
    assert(s@.take(s@.len() as int) =~= s@);
    out
}

/// `euro_match(t, digits)`.
fn euro_match_in(t: &Vec<char>, digits: &Vec<bool>) -> (r: Option<(usize, usize)>)
    requires
        digits@.len() == t@.len(),
    ensures
        r matches Some((i, e)) ==> euro_match(t@, digits@) == Some((i as int, e as int)) && i <= e
            <= t@.len(),
        r is None ==> euro_match(t@, digits@) is None,
{
    let n = t.len();
    if count_char_in(t, '€') != 1 {
        return None;
    }
    let mut q: usize = 0;
    while q < n && t[q] != '€'
        invariant
            q <= n == t@.len(),
            index_of_char(t@, '€', 0) == index_of_char(t@, '€', q as int),
        decreases n - q,
    {
        q = q + 1;
    }
    if q == n {
        proof {
            lemma_index_of_char(t@, '€', 0);
            lemma_count_char_absent(t@, '€');
        }
        return None;
    }
    let mut d: usize = q;
    while d > 0 && t[d - 1] == ' '
        invariant
            d <= q <= n == t@.len(),
            skip_back_spaces(t@, q - 1) == skip_back_spaces(t@, d - 1),
        decreases d,
    {
        d = d - 1;
    }
    if d == 0 || !digits[d - 1] {
        return None;
    }
    let d = d - 1;
    let mut i: usize = d;
    while i > 0 && (digits[i - 1] || t[i - 1] == ' ' || t[i - 1] == '.' || t[i - 1] == ',')
        invariant
            i <= d < n == t@.len(),
            digits@.len() == t@.len(),
            prefix_start(t@, digits@, d as int) == prefix_start(t@, digits@, i as int),
        decreases i,
    {
        i = i - 1;
    }
    let mut p: usize = q + 1;
    while p < n && !(n - p >= 2 && digits[p] && digits[p + 1] && (n - p == 2 || !digits[p + 2]))
        && t[p] == ' '
        invariant
            q < p <= n == t@.len(),
            digits@.len() == t@.len(),
            euro_pair_end(t@, digits@, q + 1) == euro_pair_end(t@, digits@, p as int),
        decreases n - p,
    {
        p = p + 1;
    }
    if p < n && n - p >= 2 && digits[p] && digits[p + 1] && (n - p == 2 || !digits[p + 2]) {
        let e = if n - p == 2 {
            p + 2
        } else {
            p + 3
        };
        return Some((i, e));
    }
    let b = q + 1;
    if b < n && digits[b] {
        let mut e = b + 1;
        while e < n && digits[e]
            invariant
                b < e <= n == t@.len(),
                digits@.len() == t@.len(),
                digit_run_end(t@, digits@, b + 1) == digit_run_end(t@, digits@, e as int),
            decreases n - e,
        {
            e = e + 1;
        }
        let end = if e == n {
            e
        } else {
            e + 1
        };
        return Some((i, end));
    }
    None
}

/// `run_end(t, digits, p)`.
fn run_end_in(t: &Vec<char>, digits: &Vec<bool>, p: usize) -> (r: usize)
    requires
        p <= t@.len(),
        digits@.len() == t@.len(),
    ensures
        r == run_end(t@, digits@, p as int),
        p <= r <= t@.len(),
{
    let mut q = p;
    while q < t.len() && (digits[q] || t[q] == ' ' || t[q] == '.' || t[q] == ',' || t[q] == '\'')
        invariant
            p <= q <= t@.len(),
            digits@.len() == t@.len(),
            run_end(t@, digits@, p as int) == run_end(t@, digits@, q as int),
        decreases t@.len() - q,
    {
        q = q + 1;
    }
    q
}

/// `group_from_digit(t, digits, d)`.
fn group_from_digit_in(t: &Vec<char>, digits: &Vec<bool>, d: usize) -> (r: Option<usize>)
    requires
        d < t@.len(),
        digits@.len() == t@.len(),
    ensures
        r matches Some(g) ==> group_from_digit(t@, digits@, d as int) == Some(g as int) && d < g
            <= t@.len(),
        r is None ==> group_from_digit(t@, digits@, d as int) is None,
{
    let n = t.len();
    let lo = d + 1;
    let e = run_end_in(t, digits, lo);
    let mut g = e;
    while g >= lo
        invariant
            lo == d + 1,
            lo <= e <= t@.len() == n,
            e == run_end(t@, digits@, lo as int),
            lo - 1 <= g <= e,
            digits@.len() == t@.len(),
            group_end(t@, digits@, lo as int, e as int) == group_end(
                t@,
                digits@,
                lo as int,
                g as int,
            ),
        decreases g,
    {
        if g >= n || (t[g] != '%' && !digits[g]) {
            return Some(g);
        }
        g = g - 1;
    }
    None
}

/// `match_end_at(t, digits, i)`.
fn match_end_in(t: &Vec<char>, digits: &Vec<bool>, i: usize) -> (r: Option<usize>)
    requires
        i < t@.len(),
        digits@.len() == t@.len(),
    ensures
        r matches Some(g) ==> match_end_at(t@, digits@, i as int) == Some(g as int) && i < g
            <= t@.len(),
        r is None ==> match_end_at(t@, digits@, i as int) is None,
{
    let n = t.len();
    if t[i] == '.' && i + 1 < n && digits[i + 1] {
        let dotted = group_from_digit_in(t, digits, i + 1);
        if dotted.is_some() {
            return dotted;
        }
    }
    if digits[i] {
        group_from_digit_in(t, digits, i)
    } else {
        None
    }
}

/// `first_price_match(t, digits, 0)`.
fn first_match_in(t: &Vec<char>, digits: &Vec<bool>) -> (r: Option<(usize, usize)>)
    requires
        digits@.len() == t@.len(),
    ensures
        r matches Some((i, g)) ==> first_price_match(t@, digits@, 0) == Some((i as int, g as int))
            && i < g <= t@.len(),
        r is None ==> first_price_match(t@, digits@, 0) is None,
{
    let mut i: usize = 0;
    while i < t.len()
        invariant
            i <= t@.len(),
            digits@.len() == t@.len(),
            first_price_match(t@, digits@, 0) == first_price_match(t@, digits@, i as int),
        decreases t@.len() - i,
    {
        match match_end_in(t, digits, i) {
            Some(g) => {
                return Some((i, g));
            },
            None => {},
        }
        i = i + 1;
    }
    None
}

/// Bounds `(a, b)` such that trimming spaces from `v[from..to]` leaves
/// `v[a..b]`.
fn space_bounds(v: &Vec<char>, from: usize, to: usize) -> (r: (usize, usize))
    requires
        from <= to <= v@.len(),
    ensures
        from <= r.0 <= r.1 <= to,
        trim_spaces(v@.subrange(from as int, to as int)) == v@.subrange(r.0 as int, r.1 as int),
{
    let mut a = from;
    while a < to && v[a] == ' '
        invariant
            from <= a <= to <= v@.len(),
            forall|j: int| from <= j < a ==> #[trigger] v@[j] == ' ',
        decreases to - a,
    {
        a = a + 1;
    }
    let mut b = to;
    while b > a && v[b - 1] == ' '
        invariant
            from <= a <= b <= to <= v@.len(),
            forall|j: int| b <= j < to ==> #[trigger] v@[j] == ' ',
        decreases b - a,
    {
        b = b - 1;
    }
    proof {
        let m = v@.subrange(from as int, to as int);
        assert forall|j: int| 0 <= j < a - from implies space_pred()(#[trigger] m[j]) by {
            assert(m[j] == v@[j + from]);
        }
        if a < to {
            assert(m[a - from] == v@[a as int]);
        }
        lemma_trim_start_while(m, a - from, space_pred());
        let s = m.skip(a - from);
        assert forall|j: int| b - a <= j < s.len() implies space_pred()(#[trigger] s[j]) by {
            assert(s[j] == v@[j + a]);
        }
        if b > a {
            assert(s[b - a - 1] == v@[b - 1]);
        }
        lemma_trim_end_while(s, b - a, space_pred());
        assert(s.take(b - a) =~= v@.subrange(a as int, b as int));
    }
    (a, b)
}

/// The text `clean_number(t[i..g])`.
fn clean_in(t: &Vec<char>, i: usize, g: usize) -> (r: String)
    requires
        i <= g <= t@.len(),
    ensures
        r@ == clean_number(t@.subrange(i as int, g as int)),
{
    let ghost m = t@.subrange(i as int, g as int);
    let mut hi = g;
    while hi > i && (t[hi - 1] == '.' || t[hi - 1] == ',')
        invariant
            i <= hi <= g <= t@.len(),
            forall|j: int| hi <= j < g ==> separator_pred()(#[trigger] t@[j]),
        decreases hi - i,
    {
        hi = hi - 1;
    }
    proof {
        assert forall|j: int| hi - i <= j < m.len() implies separator_pred()(#[trigger] m[j]) by {
            assert(m[j] == t@[j + i]);
        }
        if hi > i {
            assert(m[hi - i - 1] == t@[hi - 1]);
        }
        lemma_trim_end_while(m, hi - i, separator_pred());
        assert(m.take(hi - i) =~= t@.subrange(i as int, hi as int));
    }
    let trimmed = drop_char_in(t, i, hi, '\'');
    let n = trimmed.len();
    let dots = count_char_in(&trimmed, '.');
    let mut from: usize = 0;
    if dots != 1 {
        while from < n && (trimmed[from] == '.' || trimmed[from] == ',')
            invariant
                from <= n == trimmed@.len(),
                forall|j: int| 0 <= j < from ==> separator_pred()(#[trigger] trimmed@[j]),
            decreases n - from,
        {
            from = from + 1;
        }
        proof {
            lemma_trim_start_while(trimmed@, from as int, separator_pred());
            assert(trimmed@.skip(from as int) =~= trimmed@.subrange(from as int, n as int));
        }
    } else {
        assert(trimmed@.subrange(0, n as int) =~= trimmed@);
    }
    let (a, b) = space_bounds(&trimmed, from, n);
    string_of(&trimmed, a, b)
}

/// Whether the word `free` occurs in `lowered`, text already lowercased.
pub fn mentions_free(lowered: &str) -> (r: bool)
    ensures
        r == contains_free(lowered@),
{
    let l = chars_of(lowered);
    let mut j: usize = 0;
    while j < l.len() && l.len() - j >= 4
        invariant
            l@ == lowered@,
            forall|k: int|
                0 <= k < j && k + 4 <= l@.len() ==> #[trigger] l@.subrange(k, k + 4) != free_word(),
        decreases l@.len() - j,
    {
        if l[j] == 'f' && l[j + 1] == 'r' && l[j + 2] == 'e' && l[j + 3] == 'e' {
            assert(l@.subrange(j as int, j + 4) =~= free_word());
            return true;
        }
        assert(l@.subrange(j as int, j + 4)[0] == l@[j as int]);
        assert(l@.subrange(j as int, j + 4)[1] == l@[j + 1]);
        assert(l@.subrange(j as int, j + 4)[2] == l@[j + 2]);
        assert(l@.subrange(j as int, j + 4)[3] == l@[j + 3]);
        j = j + 1;
    }
    false
}

/// The number text of the collapsed text `t`, whose decimal digits are
/// marked in `digits`, as `number_text_from` describes it.
pub fn number_text_in(t: &Vec<char>, digits: &Vec<bool>) -> (r: Option<String>)
    requires
        digits@.len() == t@.len(),
    ensures
        r.deep_view() == number_text_from(t@, digits@),
{
    match euro_match_in(t, digits) {
        Some((i, e)) => {
            let kept = drop_char_in(t, i, e, ' ');
            assert(kept@.subrange(0, kept@.len() as int) =~= kept@);
            return Some(string_of(&kept, 0, kept.len()));
        },
        None => {},
    }
    match first_match_in(t, digits) {
        Some((i, g)) => Some(clean_in(t, i, g)),
        None => None,
    }
}

/// Extract the substring holding the price from text that may contain other
/// things.
///
/// Whitespace runs are first collapsed to single spaces. When the text holds
/// exactly one `€`, the sign may act as the decimal mark, as in `35€ 99`:
/// digits (with spaces, `.` and `,`) before it, then either spaces and
/// exactly two digits or one or more digits right after it. Such a match is
/// returned with its spaces removed, so `35€ 99` gives `35€99`, while
/// `12€ 345` matches neither form.
///
/// Otherwise the first number is taken: a digit, or a `.` before a digit,
/// followed by digits, spaces, `.`, `,` and `'`, and not followed by `%`
/// (a percentage is not a price). Trailing `.` and `,` and every `'` are
/// removed from it, leading `.` and `,` too unless exactly one `.` remains,
/// and it is trimmed. Where several price-looking substrings are present, the
/// first wins.
///
/// Only when no number is found does the word `free`, in any case and
/// anywhere in the text, count as the price `0`.
pub fn extract_price_text(price: &str) -> (r: Option<String>)
    ensures
        r.deep_view() == price_text_of(price@),
{
    let s = chars_of(price);
    let spaces = py_mask(&s);
    let t = collapse_in(&s, &spaces);
    let digits = digit_mask(&t);
    match number_text_in(&t, &digits) {
        Some(x) => Some(x),
        None => {
            let text = string_of(&t, 0, t.len());
            assert(t@.subrange(0, t@.len() as int) =~= t@);
            let lower = lowercase_of(text.as_str());
            if mentions_free(lower.as_str()) {
                let mut zero = String::new();
                push_char(&mut zero, '0');
                assert(zero@ =~= seq!['0']);
                Some(zero)
            } else {
                None
            }
        },
    }
}

} // verus!
