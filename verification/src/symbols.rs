//! Currency symbol matching.
//!
//! Two tiers:
//!
//! * the safe tier, `SAFE_CURRENCY_SYMBOLS`: unambiguous indicators, accepted
//!   wherever they appear in the text;
//! * the looser tier, [`other_currency_symbols`]: three-letter codes and
//!   looser abbreviations, only consulted once the safe tier has found nothing.

use vstd::prelude::*;

pub use crate::alternation::or_regex;

use crate::alternation::{
    char_vectors, matches_at_in,
    lemma_leftmost_symbol_from, leftmost_symbol, matches_at, str_views, vec_views,
    SymbolAlternation,
};
use crate::classes::{chars_of, digit_flags, digit_mask, word_flags, word_mask};
use crate::currencies::{
    code_column, column, currency_codes, national_column, symbol_column, SAFE_CURRENCY_SYMBOLS,
};
use crate::order::{insert_sorted, lemma_sorted_unique, same_chars, sorted_strict};

verus! {

/// A single character `A`..=`Z`: far too weak a signal to name a currency.
pub open spec fn is_bare_upper(s: Seq<char>) -> bool {
    s.len() == 1 && 'A' <= s[0] && s[0] <= 'Z'
}

/// The placeholder entries `-` and `XXX`.
pub open spec fn is_placeholder(s: Seq<char>) -> bool {
    s == seq!['-'] || s == seq!['X', 'X', 'X']
}

/// The safe tier, as character sequences.
pub open spec fn safe_tier() -> Seq<Seq<char>> {
    str_views(SAFE_CURRENCY_SYMBOLS@)
}

/// Whether `s` is kept in the looser tier once it is a candidate.
pub open spec fn kept_in_other_tier(s: Seq<char>) -> bool {
    !safe_tier().contains(s) && !is_placeholder(s) && !is_bare_upper(s)
}

/// Whether `s` belongs to the looser tier: a code, symbol or native symbol
/// from the tables, or one of the rouble abbreviations `р` and `Р`, that is
/// neither in the safe tier, nor a placeholder, nor a bare capital letter.
pub open spec fn other_candidate(s: Seq<char>) -> bool {
    &&& (code_column().contains(s) || symbol_column().contains(s) || national_column().contains(s)
        || s == seq!['р'] || s == seq!['Р'])
    &&& kept_in_other_tier(s)
}

/// Whether `s` lists exactly the looser tier, in its order.
pub open spec fn is_other_tier(s: Seq<Seq<char>>) -> bool {
    sorted_strict(s) && forall|x: Seq<char>| s.contains(x) <==> other_candidate(x)
}

/// The looser tier, longest symbols first, equal lengths in code-point order.
pub open spec fn other_tier() -> Seq<Seq<char>> {
    choose|s: Seq<Seq<char>>| is_other_tier(s)
}

/// Whether `s` ends with `D`, as the dollar codes do.
pub open spec fn ends_in_d(s: Seq<char>) -> bool {
    s.len() > 0 && s.last() == 'D'
}

/// The elements of `t` that end in `D`, in order.
pub open spec fn filter_ends_in_d(t: Seq<Seq<char>>) -> Seq<Seq<char>>
    decreases t.len(),
{
    if t.len() == 0 {
        t
    } else if ends_in_d(t.last()) {
        filter_ends_in_d(t.drop_last()).push(t.last())
    } else {
        filter_ends_in_d(t.drop_last())
    }
}

/// The currency codes that end in `D`, in table order.
pub open spec fn dollar_code_table() -> Seq<Seq<char>> {
    filter_ends_in_d(code_column())
}

/// Whether position `i` holds a word character, `words` marking them.
pub open spec fn word_at(words: Seq<bool>, i: int) -> bool {
    0 <= i < words.len() && words[i]
}

/// A word boundary at `i`: a word character on exactly one side.
pub open spec fn is_boundary(words: Seq<bool>, i: int) -> bool {
    word_at(words, i - 1) != word_at(words, i)
}

/// Position `p` is the end of the text, or holds a non-word character or a
/// digit (`words` and `digits` marking those).
pub open spec fn tail_ok(words: Seq<bool>, digits: Seq<bool>, p: int) -> bool {
    p >= words.len() || !words[p] || digits[p]
}

/// What may follow a dollar code ending at `e`: an optional `$`, then the end
/// of the text, a non-word character or a digit.
pub open spec fn follower_ok(t: Seq<char>, words: Seq<bool>, digits: Seq<bool>, e: int) -> bool {
    (e < t.len() && t[e] == '$' && tail_ok(words, digits, e + 1)) || tail_ok(words, digits, e)
}

/// Whether the code `c` is valid at `j` in `t`: it occurs there, at a word
/// boundary, followed by what a dollar code may be followed by (`words` and
/// `digits` marking the word characters and the digits of `t`).
pub open spec fn code_valid_at(
    c: Seq<char>,
    t: Seq<char>,
    words: Seq<bool>,
    digits: Seq<bool>,
    j: int,
) -> bool {
    matches_at(c, t, j) && is_boundary(words, j) && follower_ok(t, words, digits, j + c.len())
}

/// The first of `codes`, from index `k` on, that is valid at `j`.
pub open spec fn first_valid_code_from(
    codes: Seq<Seq<char>>,
    t: Seq<char>,
    words: Seq<bool>,
    digits: Seq<bool>,
    j: int,
    k: int,
) -> Option<int>
    decreases codes.len() - k,
{
    if k < 0 || k >= codes.len() {
        None
    } else if code_valid_at(codes[k], t, words, digits, j) {
        Some(k)
    } else {
        first_valid_code_from(codes, t, words, digits, j, k + 1)
    }
}

/// Scanning `t` from `i`: the first position holding a valid code of `codes`,
/// and the span there of the first listed code valid at it.
pub open spec fn dollar_scan(
    codes: Seq<Seq<char>>,
    t: Seq<char>,
    words: Seq<bool>,
    digits: Seq<bool>,
    i: int,
) -> Option<(int, int)>
    decreases t.len() + 1 - i,
{
    if i < 0 || i > t.len() {
        None
    } else {
        match first_valid_code_from(codes, t, words, digits, i, 0) {
            Some(k) => Some((i, i + codes[k].len())),
            None => dollar_scan(codes, t, words, digits, i + 1),
        }
    }
}

/// The dollar code in `s`, as `find_dollar_code` reports it.
pub open spec fn dollar_code_of(s: Seq<char>) -> Option<Seq<char>> {
    match dollar_scan(dollar_code_table(), s, word_flags(s), digit_flags(s), 0) {
        Some((a, b)) => Some(s.subrange(a, b)),
        None => None,
    }
}

/// Whether `x` is one of the first `n` elements of `t` (`t` being a table
/// of symbols).
pub open spec fn kept_prefix(t: Seq<Seq<char>>, n: int, x: Seq<char>) -> bool {
    t.take(n).contains(x) && kept_in_other_tier(x)
}

/// Every element of `filter_ends_in_d(t)` is an element of `t` ending in `D`.
proof fn lemma_filter_ends_in_d(t: Seq<Seq<char>>, x: Seq<char>)
    ensures
        filter_ends_in_d(t).contains(x) ==> t.contains(x) && ends_in_d(x),
    decreases t.len(),
{
    if t.len() > 0 {
        let d = t.drop_last();
        lemma_filter_ends_in_d(d, x);
        if filter_ends_in_d(t).contains(x) {
            if ends_in_d(t.last()) && x == t.last() {
                assert(t[t.len() - 1] == x);
            } else {
                if ends_in_d(t.last()) {
                    let j = choose|j: int|
                        0 <= j < filter_ends_in_d(t).len() && filter_ends_in_d(t)[j] == x;
                    assert(filter_ends_in_d(d)[j] == x);
                }
                let j = choose|j: int| 0 <= j < d.len() && d[j] == x;
                assert(t[j] == x);
            }
        }
    }
}

/// A valid dollar code at `j`: one of `codes` is valid there.
pub open spec fn valid_dollar_at(
    codes: Seq<Seq<char>>,
    t: Seq<char>,
    words: Seq<bool>,
    digits: Seq<bool>,
    j: int,
) -> bool {
    exists|k: int|
        0 <= k < codes.len() && #[trigger] code_valid_at(codes[k], t, words, digits, j)
}

/// The code found at `j` is valid there, and none listed before it from `k`
/// on is; when none is found, none from `k` on is valid there.
proof fn lemma_first_valid_code(
    codes: Seq<Seq<char>>,
    t: Seq<char>,
    words: Seq<bool>,
    digits: Seq<bool>,
    j: int,
    k: int,
)
    requires
        0 <= k,
    ensures
        first_valid_code_from(codes, t, words, digits, j, k) matches Some(m) ==> k <= m
            < codes.len() && code_valid_at(codes[m], t, words, digits, j),
        first_valid_code_from(codes, t, words, digits, j, k) is None ==> forall|m: int|
            k <= m < codes.len() ==> !#[trigger] code_valid_at(codes[m], t, words, digits, j),
    decreases codes.len() - k,
{
    if k < codes.len() && !code_valid_at(codes[k], t, words, digits, j) {
        lemma_first_valid_code(codes, t, words, digits, j, k + 1);
    }
}

/// Scanning from `i` finds a valid code at the least position from `i` on
/// where one is valid, and nothing when none is.
proof fn lemma_dollar_scan(
    codes: Seq<Seq<char>>,
    t: Seq<char>,
    words: Seq<bool>,
    digits: Seq<bool>,
    i: int,
)
    requires
        0 <= i,
    ensures
        dollar_scan(codes, t, words, digits, i) matches Some((a, b)) ==> i <= a <= b <= t.len()
            && (exists|k: int|
            0 <= k < codes.len() && b == a + codes[k].len() && #[trigger] code_valid_at(
                codes[k],
                t,
                words,
                digits,
                a,
            )) && (forall|j: int|
            i <= j < a ==> !#[trigger] valid_dollar_at(codes, t, words, digits, j)),
        dollar_scan(codes, t, words, digits, i) is None ==> forall|j: int|
            i <= j ==> !#[trigger] valid_dollar_at(codes, t, words, digits, j),
    decreases t.len() + 1 - i,
{
    if i > t.len() {
        assert forall|j: int| i <= j implies !#[trigger] valid_dollar_at(codes, t, words, digits, j) by {
            if valid_dollar_at(codes, t, words, digits, j) {
                let k = choose|k: int|
                    0 <= k < codes.len() && #[trigger] code_valid_at(codes[k], t, words, digits, j);
                assert(matches_at(codes[k], t, j));
            }
        }
    } else {
        lemma_first_valid_code(codes, t, words, digits, i, 0);
        match first_valid_code_from(codes, t, words, digits, i, 0) {
            Some(k) => {
                assert(matches_at(codes[k], t, i));
            },
            None => {
                lemma_dollar_scan(codes, t, words, digits, i + 1);
                assert(!valid_dollar_at(codes, t, words, digits, i));
            },
        }
    }
}

/// A dollar code found in `s` is one of the dollar codes, ends in `D`, and
/// occurs in `s` at a word boundary, followed by an optional `$` and then the
/// end of the text, a non-word character or a digit.
pub proof fn lemma_dollar_code_found(s: Seq<char>)
    ensures
        dollar_code_of(s) matches Some(c) ==> dollar_code_table().contains(c) && ends_in_d(c)
            && exists|i: int|
            #![trigger matches_at(c, s, i)]
            matches_at(c, s, i) && is_boundary(word_flags(s), i) && follower_ok(
                s,
                word_flags(s),
                digit_flags(s),
                i + c.len(),
            ),
{
    let codes = dollar_code_table();
    lemma_dollar_scan(codes, s, word_flags(s), digit_flags(s), 0);
    match dollar_scan(codes, s, word_flags(s), digit_flags(s), 0) {
        Some((a, b)) => {
            let k = choose|k: int|
                0 <= k < codes.len() && b == a + codes[k].len() && #[trigger] code_valid_at(
                    codes[k],
                    s,
                    word_flags(s),
                    digit_flags(s),
                    a,
                );
            let c = s.subrange(a, b);
            assert(c == codes[k]);
            assert(codes.contains(c));
            lemma_filter_ends_in_d(code_column(), c);
            assert(matches_at(c, s, a));
        },
        None => {},
    }
}

/// The dollar code found in `s` is the one at the least position where a
/// dollar code occurs at a word boundary with an acceptable follower, and
/// none is found exactly when there is no such position.
pub proof fn lemma_dollar_code_least(s: Seq<char>)
    ensures
        dollar_code_of(s) matches Some(c) ==> exists|i: int|
            #![trigger valid_dollar_at(dollar_code_table(), s, word_flags(s), digit_flags(s), i)]
            c == s.subrange(i, i + c.len()) && valid_dollar_at(
                dollar_code_table(),
                s,
                word_flags(s),
                digit_flags(s),
                i,
            ) && forall|j: int|
                0 <= j < i ==> !#[trigger] valid_dollar_at(
                    dollar_code_table(),
                    s,
                    word_flags(s),
                    digit_flags(s),
                    j,
                ),
        dollar_code_of(s) is None <==> forall|j: int|
            0 <= j ==> !#[trigger] valid_dollar_at(
                dollar_code_table(),
                s,
                word_flags(s),
                digit_flags(s),
                j,
            ),
{
    let codes = dollar_code_table();
    let words = word_flags(s);
    let digits = digit_flags(s);
    lemma_dollar_scan(codes, s, words, digits, 0);
    match dollar_scan(codes, s, words, digits, 0) {
        Some((a, b)) => {
            let k = choose|k: int|
                0 <= k < codes.len() && b == a + codes[k].len() && #[trigger] code_valid_at(
                    codes[k],
                    s,
                    words,
                    digits,
                    a,
                );
            let c = s.subrange(a, b);
            assert(c == codes[k]);
            assert(c == s.subrange(a, a + c.len()));
            assert(valid_dollar_at(codes, s, words, digits, a));
        },
        None => {},
    }
}

/// What `dollar_pass` finds is a dollar code occurring in the text.
proof fn lemma_dollar_pass(o: Option<Seq<char>>)
    ensures
        dollar_pass(o) matches Some(c) ==> dollar_code_table().contains(c) && (o matches Some(
            s,
        ) && exists|i: int| matches_at(c, s, i)),
{
    match o {
        Some(s) => {
            lemma_dollar_code_found(s);
        },
        None => {},
    }
}

/// What `tier_pass` finds is one of the symbols, occurring in the text.
proof fn lemma_tier_pass(syms: Seq<Seq<char>>, o: Option<Seq<char>>)
    ensures
        tier_pass(syms, o) matches Some(c) ==> syms.contains(c) && (o matches Some(s)
            && exists|i: int| matches_at(c, s, i)),
{
    match o {
        Some(s) => {
            lemma_leftmost_symbol_from(syms, s, 0);
            match leftmost_symbol(syms, s) {
                Some((a, b)) => {
                    assert(matches_at(s.subrange(a, b), s, a));
                },
                None => {},
            }
        },
        None => {},
    }
}

/// The currency symbol guessed from a price and a hint is a dollar code, a
/// safe-tier symbol or a looser-tier symbol, and it occurs verbatim in the
/// price text or in the hint.
pub proof fn lemma_currency_symbol_occurs(price: Option<Seq<char>>, hint: Option<Seq<char>>)
    ensures
        currency_symbol_of(price, hint) matches Some(c) ==> (dollar_code_table().contains(c)
            || safe_tier().contains(c) || other_tier().contains(c)) && ((price matches Some(p)
            && exists|i: int| matches_at(c, p, i)) || (hint matches Some(h) && exists|i: int|
            matches_at(c, h, i))),
{
    let p = non_empty(price);
    let h = non_empty(hint);
    lemma_dollar_pass(p);
    lemma_dollar_pass(h);
    lemma_tier_pass(safe_tier(), p);
    lemma_tier_pass(safe_tier(), h);
    lemma_tier_pass(other_tier(), p);
    lemma_tier_pass(other_tier(), h);
}

/// A price text holding a `$` is read for a dollar code before anything
/// else: when one is found in it, that code is the currency, wherever the
/// `$` stands and whatever the hint holds.
pub proof fn lemma_dollar_code_in_price_wins(price: Seq<char>, hint: Option<Seq<char>>)
    requires
        price.contains('$'),
        dollar_code_of(price) is Some,
    ensures
        currency_symbol_of(Some(price), hint) == dollar_code_of(price),
{
    let j = choose|j: int| 0 <= j < price.len() && price[j] == '$';
    assert(price.len() > 0);
}

/// When the price yields no dollar code, a hint holding a `$` is read for
/// one next: when one is found in it, that code is the currency.
pub proof fn lemma_dollar_code_in_hint_next(price: Option<Seq<char>>, hint: Seq<char>)
    requires
        price matches Some(p) ==> !p.contains('$') || dollar_code_of(p) is None,
        hint.contains('$'),
        dollar_code_of(hint) is Some,
    ensures
        currency_symbol_of(price, Some(hint)) == dollar_code_of(hint),
{
    let j = choose|j: int| 0 <= j < hint.len() && hint[j] == '$';
    assert(hint.len() > 0);
}

/// Returns true for a bare `A`..=`Z`, which the looser tier excludes.
pub fn is_bare_ascii_uppercase(s: &str) -> (r: bool)
    ensures
        r == is_bare_upper(s@),
{
    let c = chars_of(s);
    c.len() == 1 && 'A' <= c[0] && c[0] <= 'Z'
}

/// Whether `c` is one of `table`.
fn contains_chars(table: &Vec<Vec<char>>, c: &Vec<char>) -> (r: bool)
    ensures
        r == vec_views(table@).contains(c@),
{
    let mut k: usize = 0;
    while k < table.len()
        invariant
            k <= table@.len(),
            forall|j: int| 0 <= j < k ==> table@[j]@ != c@,
        decreases table@.len() - k,
    {
        if same_chars(&table[k], c) {
            assert(vec_views(table@)[k as int] == c@);
            return true;
        }
        k = k + 1;
    }
    assert forall|j: int| 0 <= j < vec_views(table@).len() implies vec_views(table@)[j] != c@ by {
        assert(vec_views(table@)[j] == table@[j]@);
    }
    false
}

/// Whether a candidate is neither in the safe tier nor a placeholder.
fn kept_in(safe: &Vec<Vec<char>>, c: &Vec<char>) -> (r: bool)
    requires
        vec_views(safe@) == safe_tier(),
    ensures
        r == (!safe_tier().contains(c@) && !is_placeholder(c@)),
{
    let n = c.len();
    let placeholder = (n == 1 && c[0] == '-') || (n == 3 && c[0] == 'X' && c[1] == 'X' && c[2]
        == 'X');
    proof {
        if n == 1 && c[0] == '-' {
            assert(c@ =~= seq!['-']);
        }
        if n == 3 && c[0] == 'X' && c[1] == 'X' && c[2] == 'X' {
            assert(c@ =~= seq!['X', 'X', 'X']);
        }
        if c@ == seq!['-'] || c@ == seq!['X', 'X', 'X'] {
            assert(c@[0] == c[0]);
        }
    }
    !contains_chars(safe, c) && !placeholder
}

/// Adds the entries of `table` that the looser tier keeps.
fn add_table(
    out_strs: &mut Vec<&'static str>,
    out_chars: &mut Vec<Vec<char>>,
    table: &[&'static str],
    safe: &Vec<Vec<char>>,
)
    requires
        vec_views(safe@) == safe_tier(),
        str_views(old(out_strs)@) == vec_views(old(out_chars)@),
        sorted_strict(vec_views(old(out_chars)@)),
    ensures
        str_views(final(out_strs)@) == vec_views(final(out_chars)@),
        sorted_strict(vec_views(final(out_chars)@)),
        forall|x: Seq<char>| #[trigger]
            vec_views(final(out_chars)@).contains(x) <==> (vec_views(old(out_chars)@).contains(x)
                || (str_views(table@).contains(x) && kept_in_other_tier(x))),
{
    let ghost start = vec_views(out_chars@);
    let ghost tv = str_views(table@);
    let mut k: usize = 0;
    while k < table.len()
        invariant
            k <= table@.len(),
            tv == str_views(table@),
            vec_views(safe@) == safe_tier(),
            str_views(out_strs@) == vec_views(out_chars@),
            sorted_strict(vec_views(out_chars@)),
            forall|x: Seq<char>| #[trigger]
                vec_views(out_chars@).contains(x) <==> (start.contains(x) || kept_prefix(
                    tv,
                    k as int,
                    x,
                )),
        decreases table@.len() - k,
    {
        let s = table[k];
        let c = chars_of(s);
        let ghost before = vec_views(out_chars@);
        if kept_in(safe, &c) && !is_bare_ascii_uppercase(s) {
            insert_sorted(out_strs, out_chars, s, true);
        }
        k = k + 1;
        proof {
            assert(tv.take(k as int) =~= tv.take(k - 1).push(s@));
            assert forall|x: Seq<char>| #[trigger]
                vec_views(out_chars@).contains(x) <==> (start.contains(x) || kept_prefix(
                    tv,
                    k as int,
                    x,
                )) by {
                if x == s@ {
                    assert(tv.take(k as int)[k - 1] == x);
                }
                if tv.take(k as int).contains(x) && x != s@ {
                    let j = choose|j: int| 0 <= j < k && #[trigger] tv.take(k as int)[j] == x;
                    assert(j < k - 1);
                    assert(tv.take(k - 1)[j] == x);
                }
                if tv.take(k - 1).contains(x) {
                    let j = choose|j: int| 0 <= j < k - 1 && #[trigger] tv.take(k - 1)[j] == x;
                    assert(tv.take(k as int)[j] == x);
                }
            }
        }
    }
    assert(tv.take(table@.len() as int) =~= tv);
}

/// The looser second tier of currency symbols, longest first.
///
/// The union of the code, symbol and native-symbol tables plus the two bare
/// Cyrillic rouble abbreviations `р` and `Р`, minus the safe tier, minus the
/// placeholders `-` and `XXX`, minus single uppercase ASCII letters.
///
/// Sorted by character count descending (not by UTF-8 byte length), and
/// equal lengths by code point, which cannot change what is matched: two
/// distinct strings of equal length never both match at one position.
pub fn other_currency_symbols() -> (r: Vec<&'static str>)
    ensures
        forall|x: Seq<char>| #[trigger] str_views(r@).contains(x) <==> other_candidate(x),
        sorted_strict(str_views(r@)),
        str_views(r@) == other_tier(),
{
    let safe = char_vectors(&SAFE_CURRENCY_SYMBOLS);
    let mut out_strs: Vec<&'static str> = Vec::new();
    let mut out_chars: Vec<Vec<char>> = Vec::new();
    assert(str_views(out_strs@) =~= vec_views(out_chars@));
    let codes = column(0);
    let symbols = column(1);
    let natives = column(2);
    add_table(&mut out_strs, &mut out_chars, codes.as_slice(), &safe);
    add_table(&mut out_strs, &mut out_chars, symbols.as_slice(), &safe);
    add_table(&mut out_strs, &mut out_chars, natives.as_slice(), &safe);
    let roubles: [&'static str; 2] = ["р", "Р"];
    add_table(&mut out_strs, &mut out_chars, &roubles, &safe);
    proof {
        reveal_strlit("р");
        reveal_strlit("Р");
        let rv = str_views(roubles@);
        assert(rv[0] == seq!['р']);
        assert(rv[1] == seq!['Р']);
        assert forall|x: Seq<char>| rv.contains(x) <==> (x == seq!['р'] || x == seq!['Р']) by {
            if rv.contains(x) {
                let j = choose|j: int| 0 <= j < rv.len() && rv[j] == x;
            }
        }
        let w = vec_views(out_chars@);
        assert forall|x: Seq<char>| #[trigger] w.contains(x) <==> other_candidate(x) by {
            assert(!Seq::<Seq<char>>::empty().contains(x));
        }
        assert(is_other_tier(w));
        lemma_sorted_unique(w, other_tier(), true);
    }
    out_strs
}

/// Currency codes ending in `D`, such as `NZD`, `SGD` and `USD`, in table
/// order.
///
/// The trailing `D` stands for "dollar", so a code like `SGD$123` names the
/// currency more precisely than the bare `$` beside it and should win.
pub fn dollar_codes() -> (r: Vec<&'static str>)
    ensures
        str_views(r@) == dollar_code_table(),
        forall|i: int| 0 <= i < r@.len() ==> ends_in_d(#[trigger] str_views(r@)[i]),
{
    let codes = currency_codes();
    let table: &[&'static str] = codes.as_slice();
    let ghost tv = str_views(table@);
    let mut out: Vec<&'static str> = Vec::new();
    let mut k: usize = 0;
    while k < table.len()
        invariant
            k <= table@.len(),
            tv == str_views(table@),
            tv == code_column(),
            str_views(out@) == filter_ends_in_d(tv.take(k as int)),
            forall|i: int| 0 <= i < out@.len() ==> ends_in_d(#[trigger] str_views(out@)[i]),
        decreases table@.len() - k,
    {
        let ghost before = out@;
        let code = table[k];
        let c = chars_of(code);
        let n = c.len();
        if n > 0 && c[n - 1] == 'D' {
            out.push(code);
            assert(str_views(out@) =~= str_views(before).push(code@));
        }
        k = k + 1;
        proof {
            let now = tv.take(k as int);
            assert(now.drop_last() =~= tv.take(k - 1));
            assert(now.last() == code@);
            assert forall|i: int| 0 <= i < out@.len() implies ends_in_d(
                #[trigger] str_views(out@)[i],
            ) by {
                if i < before.len() {
                    assert(str_views(out@)[i] == str_views(before)[i]);
                }
            }
        }
    }
    assert(tv.take(table@.len() as int) =~= tv);
    out
}

/// Whether the code `c` is valid at `j` in `t`, as `code_valid_at`
/// describes it.
fn code_valid_in(c: &Vec<char>, t: &Vec<char>, words: &Vec<bool>, digits: &Vec<bool>, j: usize) -> (r:
    bool)
    requires
        j <= t@.len(),
        words@.len() == t@.len(),
        digits@.len() == t@.len(),
    ensures
        r == code_valid_at(c@, t@, words@, digits@, j as int),
{
    let n = t.len();
    if !matches_at_in(c, t, j) {
        return false;
    }
    let before = j > 0 && words[j - 1];
    let after = j < n && words[j];
    if before == after {
        return false;
    }
    let e = j + c.len();
    let tail_at_e = e >= n || !words[e] || digits[e];
    let dollar_then_tail = e < n && t[e] == '$' && (e + 1 >= n || !words[e + 1] || digits[e + 1]);
    tail_at_e || dollar_then_tail
}

/// The span of the dollar code of `codes` in `t` that `dollar_scan`
/// describes, `words` and `digits` marking the word characters and the
/// digits of `t`.
pub fn dollar_code_in(codes: &Vec<Vec<char>>, t: &Vec<char>, words: &Vec<bool>, digits: &Vec<bool>) -> (r:
    Option<(usize, usize)>)
    requires
        words@.len() == t@.len(),
        digits@.len() == t@.len(),
    ensures
        r matches Some((a, b)) ==> dollar_scan(vec_views(codes@), t@, words@, digits@, 0) == Some(
            (a as int, b as int),
        ) && a <= b <= t@.len(),
        r is None ==> dollar_scan(vec_views(codes@), t@, words@, digits@, 0) is None,
{
    let ghost v = vec_views(codes@);
    let n = t.len();
    let mut i: usize = 0;
    while i <= n
        invariant
            i <= n + 1,
            n == t@.len(),
            v == vec_views(codes@),
            words@.len() == t@.len(),
            digits@.len() == t@.len(),
            dollar_scan(v, t@, words@, digits@, 0) == dollar_scan(v, t@, words@, digits@, i as int),
        decreases n + 1 - i,
    {
        let mut k: usize = 0;
        while k < codes.len()
            invariant
                i <= n,
                n == t@.len(),
                k <= codes@.len(),
                dollar_scan(v, t@, words@, digits@, 0) == dollar_scan(
                    v,
                    t@,
                    words@,
                    digits@,
                    i as int,
                ),
                v == vec_views(codes@),
                words@.len() == t@.len(),
                digits@.len() == t@.len(),
                first_valid_code_from(v, t@, words@, digits@, i as int, 0) == first_valid_code_from(
                    v,
                    t@,
                    words@,
                    digits@,
                    i as int,
                    k as int,
                ),
            decreases codes@.len() - k,
        {
            assert(v[k as int] == codes@[k as int]@);
            if code_valid_in(&codes[k], t, words, digits, i) {
                let e = i + codes[k].len();
                assert(first_valid_code_from(v, t@, words@, digits@, i as int, k as int) == Some(
                    k as int,
                ));
                assert(matches_at(v[k as int], t@, i as int));
                return Some((i, e));
            }
            k = k + 1;
        }
        if i == n {
            assert(dollar_scan(v, t@, words@, digits@, n + 1) is None);
            return None;
        }
        i = i + 1;
    }
    None
}

/// Find a dollar-style currency code, e.g. the `NZD` in `"NZD $123"`.
///
/// A code counts only at a word boundary, and only when what follows it is an
/// optional `$` and then the end of the text, a non-word character or a digit.
/// The code found is the one at the first position where such a code stands;
/// a rejected candidate does not end the search, so `"NZDX AUD"` yields `AUD`.
/// In `"USDUSD "` the first `USD` is rejected (a letter follows) and the
/// second sits inside a letter run with no boundary before it, so nothing is
/// found.
pub fn find_dollar_code(text: &str) -> (r: Option<&str>)
    ensures
        r.deep_view() == dollar_code_of(text@),
{
    let codes_strs = dollar_codes();
    let codes = char_vectors(codes_strs.as_slice());
    let t = chars_of(text);
    let words = word_mask(&t);
    let digits = digit_mask(&t);
    match dollar_code_in(&codes, &t, &words, &digits) {
        Some((a, b)) => Some(text.substring_char(a, b)),
        None => None,
    }
}

/// Matcher for the safe tier, in its declared order.
pub fn safe_currency_regex() -> (r: SymbolAlternation)
    ensures
        r@ == safe_tier(),
{
    or_regex(&SAFE_CURRENCY_SYMBOLS)
}

/// Matcher for the looser tier, longest candidates first.
pub fn other_currency_regex() -> (r: SymbolAlternation)
    ensures
        r@ == other_tier(),
{
    let symbols = other_currency_symbols();
    or_regex(symbols.as_slice())
}

/// `o`, unless it is the empty text.
pub open spec fn non_empty(o: Option<Seq<char>>) -> Option<Seq<char>> {
    match o {
        Some(s) => if s.len() > 0 {
            Some(s)
        } else {
            None
        },
        None => None,
    }
}

/// The dollar code in `o`, looked for only when `o` holds a `$`.
pub open spec fn dollar_pass(o: Option<Seq<char>>) -> Option<Seq<char>> {
    match o {
        Some(s) => if s.contains('$') {
            dollar_code_of(s)
        } else {
            None
        },
        None => None,
    }
}

/// The leftmost-first match of `syms` in `o`, as the matched text.
pub open spec fn tier_pass(syms: Seq<Seq<char>>, o: Option<Seq<char>>) -> Option<Seq<char>> {
    match o {
        Some(s) => match leftmost_symbol(syms, s) {
            Some((a, b)) => Some(s.subrange(a, b)),
            None => None,
        },
        None => None,
    }
}

/// `a` if it holds a value, otherwise `b`.
pub open spec fn or_else(a: Option<Seq<char>>, b: Option<Seq<char>>) -> Option<Seq<char>> {
    if a is Some {
        a
    } else {
        b
    }
}

/// The currency symbol guessed from `price` and `hint`: the first hit of the
/// dollar-code pass on the price, then on the hint, the safe tier on the
/// price, then on the hint, the looser tier on the price, then on the hint.
/// Empty texts are skipped; dollar codes are only looked for in a text that
/// holds a `$`.
pub open spec fn currency_symbol_of(price: Option<Seq<char>>, hint: Option<Seq<char>>) -> Option<
    Seq<char>,
> {
    let p = non_empty(price);
    let h = non_empty(hint);
    or_else(
        dollar_pass(p),
        or_else(
            dollar_pass(h),
            or_else(
                tier_pass(safe_tier(), p),
                or_else(
                    tier_pass(safe_tier(), h),
                    or_else(tier_pass(other_tier(), p), tier_pass(other_tier(), h)),
                ),
            ),
        ),
    )
}

/// `o`, unless it is the empty text.
fn non_empty_in<'a>(o: Option<&'a str>) -> (r: Option<&'a str>)
    ensures
        r.deep_view() == non_empty(o.deep_view()),
        r matches Some(s) ==> o == Some(s),
{
    match o {
        Some(s) => if s.is_empty() {
            None
        } else {
            Some(s)
        },
        None => None,
    }
}

/// Whether `s` holds a `$`.
fn has_dollar(s: &str) -> (r: bool)
    ensures
        r == s@.contains('$'),
{
    let t = chars_of(s);
    let mut k: usize = 0;
    while k < t.len()
        invariant
            t@ == s@,
            k <= t@.len(),
            forall|j: int| 0 <= j < k ==> t@[j] != '$',
        decreases t@.len() - k,
    {
        if t[k] == '$' {
            return true;
        }
        k = k + 1;
    }
    false
}

/// `dollar_pass(o)`.
fn dollar_pass_in<'a>(o: Option<&'a str>) -> (r: Option<&'a str>)
    ensures
        r.deep_view() == dollar_pass(o.deep_view()),
{
    match o {
        Some(s) => if has_dollar(s) {
            find_dollar_code(s)
        } else {
            None
        },
        None => None,
    }
}

/// `tier_pass(tier@, o)`.
fn tier_pass_in<'a>(tier: &SymbolAlternation, o: Option<&'a str>) -> (r: Option<&'a str>)
    ensures
        r.deep_view() == tier_pass(tier@, o.deep_view()),
{
    match o {
        Some(s) => match tier.find(s) {
            Some(m) => Some(m.as_str()),
            None => None,
        },
        None => None,
    }
}

/// Guess the currency symbol from a price string and an optional hint.
///
/// `currency_hint` is any nearby text that might name the currency, such as a
/// neighbouring element scraped from a page. A symbol found in `price` is
/// preferred over one found in the hint.
///
/// Candidates are tried in this order, stopping at the first hit:
///
/// 1. dollar code in `price`, if `price` contains a `$`
/// 2. dollar code in `currency_hint`, if the hint contains a `$`
/// 3. safe symbol in `price`
/// 4. safe symbol in `currency_hint`
/// 5. loose symbol in `price`
/// 6. loose symbol in `currency_hint`
///
/// An empty string is skipped, but a blank one is searched (and finds
/// nothing). The returned slice is not trimmed: at least one safe symbol is
/// stored with a leading space.
pub fn extract_currency_symbol<'a>(price: Option<&'a str>, currency_hint: Option<&'a str>) -> (r:
    Option<&'a str>)
    ensures
        r.deep_view() == currency_symbol_of(price.deep_view(), currency_hint.deep_view()),
{
    let p = non_empty_in(price);
    let h = non_empty_in(currency_hint);
    let found = dollar_pass_in(p);
    if found.is_some() {
        return found;
    }
    let found = dollar_pass_in(h);
    if found.is_some() {
        return found;
    }
    let safe = safe_currency_regex();
    let found = tier_pass_in(&safe, p);
    if found.is_some() {
        return found;
    }
    let found = tier_pass_in(&safe, h);
    if found.is_some() {
        return found;
    }
    let other = other_currency_regex();
    let found = tier_pass_in(&other, p);
    if found.is_some() {
        return found;
    }
    tier_pass_in(&other, h)
}

} // verus!
