//! The parsed price value.

use vstd::prelude::*;

use rust_decimal::Decimal;

use crate::alternation::{matches_at, matches_at_in};
use crate::classes::{chars_of, string_of};
use crate::number::{
    is_py_space, is_python_whitespace, number_of, parse_number, py_space_pred, trim_py,
};
use crate::strip::{
    lemma_trim_end_shape, lemma_trim_end_while, lemma_trim_start_shape, lemma_trim_start_while,
};
use crate::symbols::{currency_symbol_of, extract_currency_symbol, lemma_currency_symbol_occurs};
use crate::text::{
    ascii_digits, extract_price_text, lemma_digits_are_their_own_price_text, price_text_of,
};

verus! {

/// A price extracted from text: an amount, a currency, and the raw text the
/// amount was read from.
///
/// Every field is optional, because a string may carry a number with no
/// currency, a currency with no number, or neither.
#[derive(Debug, Clone, PartialEq, Eq)]
pub struct Price {
    /// The numeric value, exact. [`Decimal`] rather than a float, so money
    /// does not drift.
    pub amount: Option<Decimal>,
    /// The currency symbol exactly as it appeared in the text, without
    /// surrounding whitespace. Not normalised to an ISO code.
    pub currency: Option<String>,
    /// The substring the amount was parsed from, before separators were
    /// interpreted.
    pub amount_text: Option<String>,
}

/// `s` with every occurrence of `p` removed, scanning left to right without
/// overlap, as `str::replace(p, "")` does. An empty `p` removes nothing.
pub open spec fn remove_all(s: Seq<char>, p: Seq<char>) -> Seq<char>
    decreases s.len(),
{
    if p.len() == 0 || s.len() < p.len() {
        s
    } else if s.take(p.len() as int) == p {
        remove_all(s.skip(p.len() as int), p)
    } else {
        seq![s[0]] + remove_all(s.drop_first(), p)
    }
}

/// The currency of a price: the symbol `currency_symbol_of` finds, trimmed.
pub open spec fn currency_of(price: Option<Seq<char>>, hint: Option<Seq<char>>) -> Option<Seq<char>> {
    match currency_symbol_of(price, hint) {
        Some(s) => Some(trim_py(s)),
        None => None,
    }
}

/// The amount text of a price: the price text of `price` once every
/// `digit_group_separator` has been removed from it.
pub open spec fn amount_text_of(price: Option<Seq<char>>, digit_group_separator: Option<Seq<char>>) -> Option<Seq<char>> {
    match price {
        None => None,
        Some(t) => price_text_of(
            match digit_group_separator {
                Some(g) => remove_all(t, g),
                None => t,
            },
        ),
    }
}

/// The amount read from an amount text.
pub open spec fn amount_of(amount_text: Option<Seq<char>>, decimal_separator: Option<char>) -> Option<Decimal> {
    match amount_text {
        None => None,
        Some(t) => number_of(t, decimal_separator),
    }
}

/// `trim_py(s)` is a span of `s` that neither starts nor ends with
/// whitespace.
proof fn lemma_trim_py_span(s: Seq<char>) -> (span: (int, int))
    ensures
        0 <= span.0 <= span.1 <= s.len(),
        trim_py(s) == s.subrange(span.0, span.1),
        trim_py(s).len() > 0 ==> !is_py_space(trim_py(s)[0]) && !is_py_space(trim_py(s).last()),
{
    let k = lemma_trim_start_shape(s, py_space_pred());
    let u = s.skip(k);
    let h = lemma_trim_end_shape(u, py_space_pred());
    assert(u.take(h) =~= s.subrange(k, k + h));
    if h > 0 {
        assert(u.take(h)[0] == u[0]);
        assert(u[0] == s[k]);
        assert(u.take(h).last() == u[h - 1]);
    }
    (k, k + h)
}

/// The currency of a parsed price is text taken from the price or from the
/// hint, and carries no surrounding whitespace: when it is not empty, neither
/// its first nor its last character is whitespace.
pub proof fn lemma_currency_is_trimmed(price: Option<Seq<char>>, hint: Option<Seq<char>>)
    ensures
        currency_of(price, hint) matches Some(c) ==> (c.len() == 0 || (!is_py_space(c[0])
            && !is_py_space(c.last()))) && ((price matches Some(p) && exists|i: int|
            matches_at(c, p, i)) || (hint matches Some(h) && exists|i: int| matches_at(c, h, i))),
{
    lemma_currency_symbol_occurs(price, hint);
    match currency_symbol_of(price, hint) {
        Some(sym) => {
            let (a, b) = lemma_trim_py_span(sym);
            let c = trim_py(sym);
            assert(c.len() == 0 || (!is_py_space(c[0]) && !is_py_space(c.last())));
            if price matches Some(p) && exists|i: int| matches_at(sym, p, i) {
                let p = price->0;
                let i = choose|i: int| matches_at(sym, p, i);
                assert(p.subrange(i + a, i + a + c.len()) =~= c);
                assert(matches_at(c, p, i + a));
                assert(currency_of(price, hint) == Some(c));
            } else {
                let h = hint->0;
                let i = choose|i: int| matches_at(sym, h, i);
                assert(h.subrange(i + a, i + a + c.len()) =~= c);
                assert(matches_at(c, h, i + a));
                assert(currency_of(price, hint) == Some(c));
            }
        },
        None => {},
    }
}

/// The digit group separator is taken out of the whole price text before the
/// amount text is read from it: giving the separator yields what giving no
/// separator yields on the text with every occurrence of it already removed,
/// so a separator standing between digits never splits the number read.
pub proof fn lemma_group_separator_removed_first(t: Seq<char>, g: Seq<char>)
    ensures
        amount_text_of(Some(t), Some(g)) == amount_text_of(Some(remove_all(t, g)), None),
{
}

/// A digit group separator standing between two runs of digits never
/// splits the number: with the separator given, the amount text of `a`, the
/// separator, then `b` is `a` followed by `b`.
pub proof fn lemma_group_separator_joins_digits(a: Seq<char>, b: Seq<char>, g: Seq<char>)
    requires
        a.len() > 0,
        b.len() > 0,
        ascii_digits(a),
        ascii_digits(b),
        g.len() > 0,
        !('0' <= g[0] && g[0] <= '9'),
    ensures
        amount_text_of(Some(a + g + b), Some(g)) == Some(a + b),
{
    lemma_remove_between_digits(a, b, g);
    let x = a + b;
    assert(ascii_digits(x)) by {
        assert forall|j: int| 0 <= j < x.len() implies '0' <= #[trigger] x[j] && x[j] <= '9' by {
            if j < a.len() {
                assert(x[j] == a[j]);
            } else {
                assert(x[j] == b[j - a.len()]);
            }
        }
    }
    lemma_digits_are_their_own_price_text(x);
}

/// Removing `g` from digits, `g`, digits takes out just that occurrence.
proof fn lemma_remove_between_digits(a: Seq<char>, b: Seq<char>, g: Seq<char>)
    requires
        ascii_digits(a),
        ascii_digits(b),
        g.len() > 0,
        !('0' <= g[0] && g[0] <= '9'),
    ensures
        remove_all(a + g + b, g) == a + b,
    decreases a.len(),
{
    let s = a + g + b;
    assert forall|i: int| !#[trigger] matches_at(g, b, i) by {
        if matches_at(g, b, i) {
            assert(b.subrange(i, i + g.len())[0] == b[i]);
        }
    }
    lemma_remove_absent(b, g);
    if a.len() == 0 {
        assert(s =~= g + b);
        assert(s.take(g.len() as int) =~= g);
        assert(s.skip(g.len() as int) =~= b);
        assert(a + b =~= b);
    } else {
        assert(s.take(g.len() as int) != g) by {
            assert(s[0] == a[0]);
            assert(s.take(g.len() as int)[0] == s[0]);
        }
        let a2 = a.drop_first();
        assert(ascii_digits(a2)) by {
            assert forall|j: int| 0 <= j < a2.len() implies '0' <= #[trigger] a2[j] && a2[j] <= '9' by {
                assert(a2[j] == a[j + 1]);
            }
        }
        lemma_remove_between_digits(a2, b, g);
        assert(s.drop_first() =~= a2 + g + b);
        assert(seq![s[0]] + (a2 + b) =~= a + b);
    }
}

/// A digit group separator that does not occur in the text changes nothing.
pub proof fn lemma_absent_group_separator(t: Seq<char>, g: Seq<char>)
    requires
        forall|i: int| !#[trigger] matches_at(g, t, i),
    ensures
        amount_text_of(Some(t), Some(g)) == amount_text_of(Some(t), None),
{
    lemma_remove_absent(t, g);
}

/// Removing a pattern that does not occur leaves the text as it is.
proof fn lemma_remove_absent(t: Seq<char>, g: Seq<char>)
    requires
        forall|i: int| !#[trigger] matches_at(g, t, i),
    ensures
        remove_all(t, g) == t,
    decreases t.len(),
{
    if g.len() > 0 && t.len() >= g.len() {
        assert(t.take(g.len() as int) != g) by {
            assert(!matches_at(g, t, 0));
            assert(t.subrange(0, g.len() as int) =~= t.take(g.len() as int));
        }
        let d = t.drop_first();
        assert forall|i: int| !#[trigger] matches_at(g, d, i) by {
            if matches_at(g, d, i) {
                assert(t.subrange(i + 1, i + 1 + g.len()) =~= d.subrange(i, i + g.len()));
                assert(matches_at(g, t, i + 1));
            }
        }
        lemma_remove_absent(d, g);
        assert(seq![t[0]] + d =~= t);
    }
}

/// `s` with every occurrence of `p` removed.
fn remove_all_in(s: &str, p: &str) -> (r: String)
    ensures
        r@ == remove_all(s@, p@),
{
    let t = chars_of(s);
    let pc = chars_of(p);
    let n = t.len();
    let m = pc.len();
    if m == 0 {
        let out = string_of(&t, 0, n);
        assert(t@.subrange(0, n as int) =~= t@);
        return out;
    }
    let mut out: Vec<char> = Vec::new();
    let mut i: usize = 0;
    assert(t@.skip(0) =~= t@);
    assert(out@ + t@ =~= t@);
    while i < n
        invariant
            i <= n == t@.len(),
            m == pc@.len() > 0,
            out@ + remove_all(t@.skip(i as int), pc@) == remove_all(t@, pc@),
        decreases n - i,
    {
        let ghost rest = t@.skip(i as int);
        if matches_at_in(&pc, &t, i) {
            assert(rest.take(m as int) =~= t@.subrange(i as int, i + m));
            assert(rest.skip(m as int) =~= t@.skip(i + m));
            i = i + m;
        } else {
            proof {
                if rest.len() >= m {
                    assert(rest.take(m as int) =~= t@.subrange(i as int, i + m));
                    assert(rest.drop_first() =~= t@.skip(i + 1));
                    assert(out@ + remove_all(rest, pc@) =~= out@.push(t@[i as int]) + remove_all(
                        t@.skip(i + 1),
                        pc@,
                    ));
                } else {
                    assert(rest =~= seq![t@[i as int]] + t@.skip(i + 1));
                    assert(remove_all(t@.skip(i + 1), pc@) == t@.skip(i + 1));
                    assert(out@ + remove_all(rest, pc@) =~= out@.push(t@[i as int]) + t@.skip(
                        i + 1,
                    ));
                }
            }
            out.push(t[i]);
            i = i + 1;
        }
    }
    assert(out@ + remove_all(t@.skip(n as int), pc@) =~= out@);
    string_of(&out, 0, out.len())
}

/// `s` without surrounding whitespace, as `trim_py`.
fn trim_python_whitespace(s: &str) -> (r: String)
    ensures
        r@ == trim_py(s@),
{
    let t = chars_of(s);
    let n = t.len();
    let mut lo: usize = 0;
    while lo < n && is_python_whitespace(t[lo])
        invariant
            lo <= n == t@.len(),
            forall|j: int| 0 <= j < lo ==> is_py_space(#[trigger] t@[j]),
        decreases n - lo,
    {
        lo = lo + 1;
    }
    let mut hi: usize = n;
    while hi > lo && is_python_whitespace(t[hi - 1])
        invariant
            lo <= hi <= n == t@.len(),
            forall|j: int| hi <= j < n ==> is_py_space(#[trigger] t@[j]),
        decreases hi - lo,
    {
        hi = hi - 1;
    }
    proof {
        lemma_trim_start_while(t@, lo as int, py_space_pred());
        let rest = t@.skip(lo as int);
        assert forall|j: int| hi - lo <= j < rest.len() implies py_space_pred()(
            #[trigger] rest[j],
        ) by {
            assert(rest[j] == t@[j + lo]);
        }
        if hi > lo {
            assert(rest[hi - lo - 1] == t@[hi - 1]);
        }
        lemma_trim_end_while(rest, hi - lo, py_space_pred());
        assert(rest.take(hi - lo) =~= t@.subrange(lo as int, hi as int));
    }
    string_of(&t, lo, hi)
}

impl Default for Price {
    /// A price with no amount, no currency and no amount text.
    fn default() -> (r: Price)
        ensures
            r.amount is None,
            r.currency is None,
            r.amount_text is None,
    {
        Price { amount: None, currency: None, amount_text: None }
    }
}

impl Price {
    /// Construct a price from its parts.
    pub fn new(amount: Option<Decimal>, currency: Option<String>, amount_text: Option<String>) -> (r: Price)
        ensures
            r.amount == amount,
            r.currency == currency,
            r.amount_text == amount_text,
    {
        Price { amount, currency, amount_text }
    }

    /// Parse a price out of text.
    ///
    /// `price` is the text believed to hold the price. `currency_hint` is any
    /// nearby text that might name the currency, consulted only when `price`
    /// itself does not resolve one. `decimal_separator` and
    /// `digit_group_separator` override the inference when the format is
    /// already known.
    ///
    /// The currency is read from the text **before** `digit_group_separator`
    /// is removed, and the amount from the text **after**: stripping the
    /// separator first could delete characters the currency matcher needed.
    pub fn fromstring(
        price: Option<&str>,
        currency_hint: Option<&str>,
        decimal_separator: Option<char>,
        digit_group_separator: Option<&str>,
    ) -> (r: Price)
        ensures
            r.currency.deep_view() == currency_of(price.deep_view(), currency_hint.deep_view()),
            r.amount_text.deep_view() == amount_text_of(price.deep_view(), digit_group_separator.deep_view()),
            r.amount == amount_of(r.amount_text.deep_view(), decimal_separator),
    {
        let currency = match extract_currency_symbol(price, currency_hint) {
            Some(symbol) => Some(trim_python_whitespace(symbol)),
            None => None,
        };
        let amount_text = match price {
            Some(text) => {
                let without_groups = match digit_group_separator {
                    Some(separator) => remove_all_in(text, separator),
                    None => {
                        let t = chars_of(text);
                        assert(t@.subrange(0, t@.len() as int) =~= t@);
                        string_of(&t, 0, t.len())
                    },
                };
                extract_price_text(without_groups.as_str())
            },
            None => None,
        };
        let amount = match &amount_text {
            Some(text) => parse_number(text.as_str(), decimal_separator),
            None => None,
        };
        Price { amount, currency, amount_text }
    }
}

/// Parse a price out of text: the same as [`Price::fromstring`].
pub fn parse_price(
    price: Option<&str>,
    currency_hint: Option<&str>,
    decimal_separator: Option<char>,
    digit_group_separator: Option<&str>,
) -> (r: Price)
    ensures
        r.currency.deep_view() == currency_of(price.deep_view(), currency_hint.deep_view()),
        r.amount_text.deep_view() == amount_text_of(price.deep_view(), digit_group_separator.deep_view()),
        r.amount == amount_of(r.amount_text.deep_view(), decimal_separator),
{
    Price::fromstring(price, currency_hint, decimal_separator, digit_group_separator)
}

} // verus!
