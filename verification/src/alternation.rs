//! Finding the first of several literal symbols in a text.
//!
//! Matching follows leftmost-first alternation: the earliest start position
//! wins, whatever order the symbols are listed in, and among symbols matching
//! at that same position the earliest listed one wins, even where a later one
//! is longer.

use vstd::prelude::*;

use crate::classes::chars_of;
pub use crate::order::{str_views, vec_views};

verus! {

/// Whether `p` occurs in `t` starting at position `i`.
pub open spec fn matches_at(p: Seq<char>, t: Seq<char>, i: int) -> bool {
    0 <= i && i + p.len() <= t.len() && t.subrange(i, i + p.len()) == p
}

/// The first symbol, from index `k` on, that occurs in `t` at `i`.
pub open spec fn first_symbol_from(syms: Seq<Seq<char>>, t: Seq<char>, i: int, k: int) -> Option<int>
    decreases syms.len() - k,
{
    if k < 0 || k >= syms.len() {
        None
    } else if matches_at(syms[k], t, i) {
        Some(k)
    } else {
        first_symbol_from(syms, t, i, k + 1)
    }
}

/// The first listed symbol that occurs in `t` at `i`.
pub open spec fn first_symbol_at(syms: Seq<Seq<char>>, t: Seq<char>, i: int) -> Option<int> {
    first_symbol_from(syms, t, i, 0)
}

/// The leftmost-first match at or after position `i`, as start and end.
pub open spec fn leftmost_symbol_from(syms: Seq<Seq<char>>, t: Seq<char>, i: int) -> Option<(int, int)>
    decreases t.len() + 1 - i,
{
    if i < 0 || i > t.len() {
        None
    } else {
        match first_symbol_at(syms, t, i) {
            Some(k) => Some((i, i + syms[k].len())),
            None => leftmost_symbol_from(syms, t, i + 1),
        }
    }
}

/// The leftmost-first match of any of `syms` in `t`, as start and end.
pub open spec fn leftmost_symbol(syms: Seq<Seq<char>>, t: Seq<char>) -> Option<(int, int)> {
    leftmost_symbol_from(syms, t, 0)
}

/// A found symbol always matches where it is reported.
pub proof fn lemma_first_symbol_from(syms: Seq<Seq<char>>, t: Seq<char>, i: int, k: int)
    ensures
        first_symbol_from(syms, t, i, k) matches Some(j) ==> k <= j < syms.len() && matches_at(
            syms[j],
            t,
            i,
        ),
    decreases syms.len() - k,
{
    if 0 <= k < syms.len() && !matches_at(syms[k], t, i) {
        lemma_first_symbol_from(syms, t, i, k + 1);
    }
}

/// A leftmost match is a span of `t` that spells one of the symbols.
pub proof fn lemma_leftmost_symbol_from(syms: Seq<Seq<char>>, t: Seq<char>, i: int)
    ensures
        leftmost_symbol_from(syms, t, i) matches Some((a, b)) ==> i <= a <= b <= t.len()
            && syms.contains(t.subrange(a, b)),
    decreases t.len() + 1 - i,
{
    if 0 <= i <= t.len() {
        lemma_first_symbol_from(syms, t, i, 0);
        match first_symbol_at(syms, t, i) {
            Some(k) => {
                assert(syms[k] == t.subrange(i, i + syms[k].len()));
            },
            None => {
                lemma_leftmost_symbol_from(syms, t, i + 1);
            },
        }
    }
}

/// Searching from index `k`, the symbol found at `i` is the earliest-listed
/// one from `k` on that occurs there; when none is found, none occurs there.
pub proof fn lemma_first_symbol_is_earliest(syms: Seq<Seq<char>>, t: Seq<char>, i: int, k: int)
    requires
        0 <= k,
    ensures
        first_symbol_from(syms, t, i, k) matches Some(j) ==> forall|m: int|
            k <= m < j ==> !matches_at(#[trigger] syms[m], t, i),
        first_symbol_from(syms, t, i, k) is None ==> forall|m: int|
            k <= m < syms.len() ==> !matches_at(#[trigger] syms[m], t, i),
    decreases syms.len() - k,
{
    if k < syms.len() && !matches_at(syms[k], t, i) {
        lemma_first_symbol_is_earliest(syms, t, i, k + 1);
    }
}

/// Searching from position `i`, a match starts where the first symbol occurs
/// and nothing occurs between `i` and it; no match means nothing occurs from
/// `i` on.
proof fn lemma_leftmost_from_is_earliest(syms: Seq<Seq<char>>, t: Seq<char>, i: int)
    requires
        0 <= i,
    ensures
        leftmost_symbol_from(syms, t, i) matches Some((a, b)) ==> i <= a && (exists|k: int|
            0 <= k < syms.len() && matches_at(syms[k], t, a) && b == a + syms[k].len() && (
            forall|m: int| 0 <= m < k ==> !matches_at(#[trigger] syms[m], t, a))) && (forall|
            j: int,
            m: int,
        | i <= j < a && 0 <= m < syms.len() ==> !(#[trigger] matches_at(syms[m], t, j))),
        leftmost_symbol_from(syms, t, i) is None ==> forall|j: int, m: int|
            i <= j && 0 <= m < syms.len() ==> !(#[trigger] matches_at(syms[m], t, j)),
    decreases t.len() + 1 - i,
{
    if i <= t.len() {
        lemma_first_symbol_from(syms, t, i, 0);
        lemma_first_symbol_is_earliest(syms, t, i, 0);
        match first_symbol_at(syms, t, i) {
            Some(k) => {},
            None => {
                lemma_leftmost_from_is_earliest(syms, t, i + 1);
            },
        }
    }
}

/// Leftmost-first matching. A match starts at the earliest position where
/// any of the symbols occurs, whatever order they are listed in; at that
/// position the earliest-listed symbol occurring there is taken, even where a
/// later one is longer. When there is no match, no symbol occurs anywhere in
/// the text.
pub proof fn lemma_leftmost_first(syms: Seq<Seq<char>>, t: Seq<char>)
    ensures
        leftmost_symbol(syms, t) matches Some((a, b)) ==> exists|k: int|
            0 <= k < syms.len() && matches_at(syms[k], t, a) && b == a + syms[k].len() && (
            forall|m: int| 0 <= m < k ==> !matches_at(#[trigger] syms[m], t, a)),
        leftmost_symbol(syms, t) matches Some((a, b)) ==> forall|j: int, m: int|
            0 <= j < a && 0 <= m < syms.len() ==> !(#[trigger] matches_at(syms[m], t, j)),
        leftmost_symbol(syms, t) is None ==> forall|j: int, m: int|
            0 <= m < syms.len() ==> !(#[trigger] matches_at(syms[m], t, j)),
{
    lemma_leftmost_from_is_earliest(syms, t, 0);
}

/// Two symbols of the same length that occur at the same position are the
/// same symbol, so the order among symbols of equal length never changes
/// what is matched.
pub proof fn lemma_equal_length_matches_agree(p: Seq<char>, q: Seq<char>, t: Seq<char>, i: int)
    requires
        p.len() == q.len(),
        matches_at(p, t, i),
        matches_at(q, t, i),
    ensures
        p == q,
{
}

/// A set of literal symbols matched leftmost-first.
pub struct SymbolAlternation {
    symbols: Vec<Vec<char>>,
}

impl View for SymbolAlternation {
    type V = Seq<Seq<char>>;

    closed spec fn view(&self) -> Seq<Seq<char>> {
        vec_views(self.symbols@)
    }
}

/// A symbol found in a text: the text and the character span it occupies.
pub struct SymbolMatch<'a> {
    text: &'a str,
    start: usize,
    end: usize,
}

impl<'a> SymbolMatch<'a> {
    /// The text that was searched.
    pub closed spec fn haystack(&self) -> Seq<char> {
        self.text@
    }

    /// Character position where the match starts.
    pub closed spec fn start_spec(&self) -> int {
        self.start as int
    }

    /// Character position just after the match.
    pub closed spec fn end_spec(&self) -> int {
        self.end as int
    }

    #[verifier::type_invariant]
    spec fn well_formed(&self) -> bool {
        self.start <= self.end <= self.text@.len()
    }

    /// Character position where the match starts.
    pub fn start(&self) -> (r: usize)
        ensures
            r == self.start_spec(),
    {
        self.start
    }

    /// Character position just after the match.
    pub fn end(&self) -> (r: usize)
        ensures
            r == self.end_spec(),
            self.start_spec() <= r <= self.haystack().len(),
    {
        proof {
            use_type_invariant(self);
        }
        self.end
    }

    /// The matched symbol as it appears in the text.
    pub fn as_str(&self) -> (r: &'a str)
        ensures
            r@ == self.haystack().subrange(self.start_spec(), self.end_spec()),
    {
        proof {
            use_type_invariant(self);
        }
        self.text.substring_char(self.start, self.end)
    }
}

/// Whether `p` occurs in `t` at `i`.
pub fn matches_at_in(p: &Vec<char>, t: &Vec<char>, i: usize) -> (r: bool)
    ensures
        r == matches_at(p@, t@, i as int),
{
    let n = t.len();
    let m = p.len();
    if m > n || i > n - m {
        return false;
    }
    let mut k: usize = 0;
    while k < m
        invariant
            m == p@.len(),
            n == t@.len(),
            i + m <= n,
            k <= m,
            t@.subrange(i as int, i + k) == p@.take(k as int),
        decreases m - k,
    {
        if t[i + k] != p[k] {
            assert(t@.subrange(i as int, i + m)[k as int] == t@[i + k]);
            return false;
        }
        k = k + 1;
        assert(t@.subrange(i as int, i + k) =~= p@.take(k as int));
    }
    assert(p@.take(m as int) =~= p@);
    true
}

/// `first_symbol_at(syms, t, i)`.
pub fn first_symbol_in(syms: &Vec<Vec<char>>, t: &Vec<char>, i: usize) -> (r: Option<usize>)
    ensures
        r matches Some(k) ==> first_symbol_at(vec_views(syms@), t@, i as int) == Some(k as int),
        r is None ==> first_symbol_at(vec_views(syms@), t@, i as int) is None,
{
    let ghost v = vec_views(syms@);
    let mut k: usize = 0;
    while k < syms.len()
        invariant
            k <= syms@.len(),
            v == vec_views(syms@),
            first_symbol_at(v, t@, i as int) == first_symbol_from(v, t@, i as int, k as int),
        decreases syms@.len() - k,
    {
        if matches_at_in(&syms[k], t, i) {
            return Some(k);
        }
        k = k + 1;
    }
    None
}

impl SymbolAlternation {
    /// The leftmost-first match of the symbols in `text`.
    pub fn find<'a>(&self, text: &'a str) -> (r: Option<SymbolMatch<'a>>)
        ensures
            r matches Some(m) ==> m.haystack() == text@ && leftmost_symbol(self@, text@) == Some(
                (m.start_spec(), m.end_spec()),
            ),
            r is None ==> leftmost_symbol(self@, text@) is None,
    {
        let t = chars_of(text);
        let n = t.len();
        let ghost v = self@;
        let mut i: usize = 0;
        while i < n
            invariant
                i <= n == t@.len(),
                t@ == text@,
                v == self@,
                v == vec_views(self.symbols@),
                leftmost_symbol(v, t@) == leftmost_symbol_from(v, t@, i as int),
            decreases n - i,
        {
            match first_symbol_in(&self.symbols, &t, i) {
                Some(k) => {
                    proof {
                        lemma_first_symbol_from(v, t@, i as int, 0);
                        assert(v[k as int] == self.symbols@[k as int]@);
                    }
                    let end = i + self.symbols[k].len();
                    return Some(SymbolMatch { text, start: i, end });
                },
                None => {},
            }
            i = i + 1;
        }
        match first_symbol_in(&self.symbols, &t, n) {
            Some(k) => {
                proof {
                    lemma_first_symbol_from(v, t@, n as int, 0);
                    assert(v[k as int] == self.symbols@[k as int]@);
                }
                let end = n + self.symbols[k].len();
                Some(SymbolMatch { text, start: n, end })
            },
            None => {
                assert(leftmost_symbol_from(v, t@, n + 1) is None);
                None
            },
        }
    }

    /// Whether any of the symbols occurs in `text`.
    pub fn is_match(&self, text: &str) -> (r: bool)
        ensures
            r == leftmost_symbol(self@, text@) is Some,
    {
        self.find(text).is_some()
    }
}

/// The characters of each of `symbols`, in order.
pub fn char_vectors(symbols: &[&str]) -> (r: Vec<Vec<char>>)
    ensures
        vec_views(r@) == str_views(symbols@),
{
    let mut out: Vec<Vec<char>> = Vec::new();
    let mut k: usize = 0;
    while k < symbols.len()
        invariant
            k <= symbols@.len(),
            vec_views(out@) == str_views(symbols@.take(k as int)),
        decreases symbols@.len() - k,
    {
        let ghost before = out@;
        let c = chars_of(symbols[k]);
        out.push(c);
        k = k + 1;
        assert(vec_views(out@) =~= vec_views(before).push(c@));
        assert(symbols@.take(k as int) =~= symbols@.take(k - 1).push(symbols@[k - 1]));
        assert(str_views(symbols@.take(k as int)) =~= str_views(symbols@.take(k - 1)).push(
            symbols@[k - 1]@,
        ));
        assert(vec_views(out@) =~= str_views(symbols@.take(k as int)));
    }
    assert(symbols@.take(symbols@.len() as int) =~= symbols@);
    out
}

/// Build a matcher for any of `symbols`, each taken literally.
///
/// Characters such as the `.` in `"Nu."` match only themselves. Callers list
/// longer candidates before the shorter ones they begin with, or the shorter
/// one wins at a shared position and truncates the match.
pub fn or_regex(symbols: &[&str]) -> (r: SymbolAlternation)
    ensures
        r@ == str_views(symbols@),
{
    SymbolAlternation { symbols: char_vectors(symbols) }
}

} // verus!
