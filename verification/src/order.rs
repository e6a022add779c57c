//! Ordering symbols longest first, equal lengths by code point.

use vstd::prelude::*;

verus! {

/// Lexicographic order on character sequences by code point, which for
/// UTF-8 text is also the byte order `str` comparison uses.
pub open spec fn lex_less(a: Seq<char>, b: Seq<char>) -> bool
    decreases a.len(),
{
    if a.len() == 0 {
        b.len() > 0
    } else if b.len() == 0 {
        false
    } else if a[0] != b[0] {
        (a[0] as int) < (b[0] as int)
    } else {
        lex_less(a.drop_first(), b.drop_first())
    }
}

/// `a` comes before `b`: it has more characters, or as many and is
/// lexicographically smaller.
pub open spec fn precedes(a: Seq<char>, b: Seq<char>) -> bool {
    a.len() > b.len() || (a.len() == b.len() && lex_less(a, b))
}

/// `a` comes before `b` in the chosen order: `precedes` when `by_length`,
/// plain `lex_less` otherwise.
pub open spec fn before(a: Seq<char>, b: Seq<char>, by_length: bool) -> bool {
    if by_length {
        precedes(a, b)
    } else {
        lex_less(a, b)
    }
}

/// Every element comes before every later one in the chosen order; in
/// particular no element appears twice.
pub open spec fn sorted_by(s: Seq<Seq<char>>, by_length: bool) -> bool {
    forall|i: int, j: int| 0 <= i < j < s.len() ==> before(#[trigger] s[i], #[trigger] s[j], by_length)
}

/// Sorted longest first, equal lengths by code point, with no repetition.
pub open spec fn sorted_strict(s: Seq<Seq<char>>) -> bool {
    sorted_by(s, true)
}

/// No sequence is lexicographically smaller than itself.
pub proof fn lemma_lex_irreflexive(a: Seq<char>)
    ensures
        !lex_less(a, a),
    decreases a.len(),
{
    if a.len() > 0 {
        lemma_lex_irreflexive(a.drop_first());
    }
}

/// The lexicographic order is transitive.
pub proof fn lemma_lex_transitive(a: Seq<char>, b: Seq<char>, c: Seq<char>)
    requires
        lex_less(a, b),
        lex_less(b, c),
    ensures
        lex_less(a, c),
    decreases a.len(),
{
    if a.len() > 0 && b.len() > 0 && c.len() > 0 && a[0] == b[0] && b[0] == c[0] {
        lemma_lex_transitive(a.drop_first(), b.drop_first(), c.drop_first());
    }
}

/// Of two distinct sequences, one is lexicographically smaller.
pub proof fn lemma_lex_total(a: Seq<char>, b: Seq<char>)
    requires
        a != b,
    ensures
        lex_less(a, b) || lex_less(b, a),
    decreases a.len(),
{
    if a.len() > 0 && b.len() > 0 && a[0] == b[0] {
        if a.drop_first() == b.drop_first() {
            assert(a =~= seq![a[0]] + a.drop_first());
            assert(b =~= seq![b[0]] + b.drop_first());
        }
        lemma_lex_total(a.drop_first(), b.drop_first());
    } else if a.len() > 0 && b.len() > 0 {
        assert((a[0] as int) != (b[0] as int));
    } else if a.len() == 0 && b.len() == 0 {
        assert(a =~= b);
    }
}

/// `precedes` is transitive.
pub proof fn lemma_precedes_transitive(a: Seq<char>, b: Seq<char>, c: Seq<char>)
    requires
        precedes(a, b),
        precedes(b, c),
    ensures
        precedes(a, c),
{
    if a.len() == b.len() && b.len() == c.len() {
        lemma_lex_transitive(a, b, c);
    }
}

/// Of two distinct sequences, one precedes the other.
pub proof fn lemma_precedes_total(a: Seq<char>, b: Seq<char>)
    requires
        a != b,
    ensures
        precedes(a, b) || precedes(b, a),
{
    if a.len() == b.len() {
        lemma_lex_total(a, b);
    }
}

/// No sequence comes before itself.
pub proof fn lemma_before_irreflexive(a: Seq<char>, by_length: bool)
    ensures
        !before(a, a, by_length),
{
    lemma_lex_irreflexive(a);
}

/// `before` is transitive.
pub proof fn lemma_before_transitive(a: Seq<char>, b: Seq<char>, c: Seq<char>, by_length: bool)
    requires
        before(a, b, by_length),
        before(b, c, by_length),
    ensures
        before(a, c, by_length),
{
    if by_length {
        lemma_precedes_transitive(a, b, c);
    } else {
        lemma_lex_transitive(a, b, c);
    }
}

/// Of two distinct sequences, one comes before the other.
pub proof fn lemma_before_total(a: Seq<char>, b: Seq<char>, by_length: bool)
    requires
        a != b,
    ensures
        before(a, b, by_length) || before(b, a, by_length),
{
    if by_length {
        lemma_precedes_total(a, b);
    } else {
        lemma_lex_total(a, b);
    }
}

/// Two strictly sorted sequences holding the same elements are equal.
pub proof fn lemma_sorted_unique(a: Seq<Seq<char>>, b: Seq<Seq<char>>, by_length: bool)
    requires
        sorted_by(a, by_length),
        sorted_by(b, by_length),
        forall|x: Seq<char>| a.contains(x) <==> b.contains(x),
    ensures
        a == b,
    decreases a.len(),
{
    if a.len() == 0 {
        if b.len() > 0 {
            assert(b.contains(b[0]));
        }
        assert(a =~= b);
    } else if b.len() == 0 {
        assert(a.contains(a[0]));
    } else {
        let a0 = a[0];
        let b0 = b[0];
        if a0 != b0 {
            assert(a.contains(a0));
            let k = choose|k: int| 0 <= k < b.len() && b[k] == a0;
            assert(b.contains(b0));
            let m = choose|m: int| 0 <= m < a.len() && a[m] == b0;
            assert(before(b[0], b[k], by_length));
            assert(before(a[0], a[m], by_length));
            lemma_before_transitive(a0, b0, a0, by_length);
            lemma_before_irreflexive(a0, by_length);
        }
        let ta = a.drop_first();
        let tb = b.drop_first();
        assert forall|x: Seq<char>| ta.contains(x) implies tb.contains(x) by {
            let m = choose|m: int| 0 <= m < ta.len() && ta[m] == x;
            assert(a[m + 1] == x);
            assert(a.contains(x));
            let k = choose|k: int| 0 <= k < b.len() && b[k] == x;
            assert(before(a[0], a[m + 1], by_length));
            lemma_before_irreflexive(x, by_length);
            assert(k != 0);
            assert(tb[k - 1] == x);
        }
        assert forall|x: Seq<char>| tb.contains(x) implies ta.contains(x) by {
            let m = choose|m: int| 0 <= m < tb.len() && tb[m] == x;
            assert(b[m + 1] == x);
            assert(b.contains(x));
            let k = choose|k: int| 0 <= k < a.len() && a[k] == x;
            assert(before(b[0], b[m + 1], by_length));
            lemma_before_irreflexive(x, by_length);
            assert(k != 0);
            assert(ta[k - 1] == x);
        }
        assert forall|i: int, j: int| 0 <= i < j < ta.len() implies before(
            #[trigger] ta[i],
            #[trigger] ta[j],
            by_length,
        ) by {
            assert(ta[i] == a[i + 1] && ta[j] == a[j + 1]);
        }
        assert forall|i: int, j: int| 0 <= i < j < tb.len() implies before(
            #[trigger] tb[i],
            #[trigger] tb[j],
            by_length,
        ) by {
            assert(tb[i] == b[i + 1] && tb[j] == b[j + 1]);
        }
        lemma_sorted_unique(ta, tb, by_length);
        assert(a =~= seq![a0] + ta);
        assert(b =~= seq![b0] + tb);
    }
}

/// Whether `a` and `b` hold the same characters.
pub fn same_chars(a: &Vec<char>, b: &Vec<char>) -> (r: bool)
    ensures
        r == (a@ == b@),
{
    if a.len() != b.len() {
        return false;
    }
    let mut k: usize = 0;
    while k < a.len()
        invariant
            a@.len() == b@.len(),
            k <= a@.len(),
            forall|j: int| 0 <= j < k ==> a@[j] == b@[j],
        decreases a@.len() - k,
    {
        if a[k] != b[k] {
            return false;
        }
        k = k + 1;
    }
    assert(a@ =~= b@);
    true
}

proof fn lemma_lex_skip(a: Seq<char>, b: Seq<char>, k: int)
    requires
        0 <= k <= a.len(),
        k <= b.len(),
        forall|j: int| 0 <= j < k ==> a[j] == b[j],
    ensures
        lex_less(a, b) == lex_less(a.skip(k), b.skip(k)),
    decreases k,
{
    if k > 0 {
        lemma_lex_skip(a.drop_first(), b.drop_first(), k - 1);
        assert(a.drop_first().skip(k - 1) =~= a.skip(k));
        assert(b.drop_first().skip(k - 1) =~= b.skip(k));
    } else {
        assert(a.skip(0) =~= a);
        assert(b.skip(0) =~= b);
    }
}

/// Whether `a` comes before `b`.
pub fn precedes_in(a: &Vec<char>, b: &Vec<char>) -> (r: bool)
    ensures
        r == precedes(a@, b@),
{
    if a.len() != b.len() {
        return a.len() > b.len();
    }
    let n = a.len();
    let mut k: usize = 0;
    while k < n && a[k] == b[k]
        invariant
            n == a@.len() == b@.len(),
            k <= n,
            forall|j: int| 0 <= j < k ==> a@[j] == b@[j],
        decreases n - k,
    {
        k = k + 1;
    }
    proof {
        lemma_lex_skip(a@, b@, k as int);
    }
    if k == n {
        false
    } else {
        assert(a@.skip(k as int)[0] == a@[k as int]);
        assert(b@.skip(k as int)[0] == b@[k as int]);
        a[k] < b[k]
    }
}

/// Whether `a` is lexicographically smaller than `b`.
pub fn lex_less_in(a: &Vec<char>, b: &Vec<char>) -> (r: bool)
    ensures
        r == lex_less(a@, b@),
{
    let na = a.len();
    let nb = b.len();
    let mut k: usize = 0;
    while k < na && k < nb && a[k] == b[k]
        invariant
            na == a@.len(),
            nb == b@.len(),
            k <= na,
            k <= nb,
            forall|j: int| 0 <= j < k ==> a@[j] == b@[j],
        decreases na - k,
    {
        k = k + 1;
    }
    proof {
        lemma_lex_skip(a@, b@, k as int);
    }
    if k == na || k == nb {
        k == na && k < nb
    } else {
        assert(a@.skip(k as int)[0] == a@[k as int]);
        assert(b@.skip(k as int)[0] == b@[k as int]);
        a[k] < b[k]
    }
}

/// Whether `a` comes before `b` in the chosen order.
pub fn before_in(a: &Vec<char>, b: &Vec<char>, by_length: bool) -> (r: bool)
    ensures
        r == before(a@, b@, by_length),
{
    if by_length {
        precedes_in(a, b)
    } else {
        lex_less_in(a, b)
    }
}

/// The character sequences of a sequence of string slices.
pub open spec fn str_views(v: Seq<&str>) -> Seq<Seq<char>> {
    v.map_values(|x: &str| x@)
}

/// The character sequences held by a vector of character vectors.
pub open spec fn vec_views(v: Seq<Vec<char>>) -> Seq<Seq<char>> {
    v.map_values(|x: Vec<char>| x@)
}

/// Inserts `s` into a sorted list held both as strings and as characters,
/// unless it is already there.
pub fn insert_sorted(
    out_strs: &mut Vec<&'static str>,
    out_chars: &mut Vec<Vec<char>>,
    s: &'static str,
    by_length: bool,
)
    requires
        str_views(old(out_strs)@) == vec_views(old(out_chars)@),
        sorted_by(vec_views(old(out_chars)@), by_length),
    ensures
        str_views(final(out_strs)@) == vec_views(final(out_chars)@),
        sorted_by(vec_views(final(out_chars)@), by_length),
        forall|x: Seq<char>| #[trigger]
            vec_views(final(out_chars)@).contains(x) <==> (vec_views(old(out_chars)@).contains(x)
                || x == s@),
{
    let c = crate::classes::chars_of(s);
    let ghost v = vec_views(out_chars@);
    let n = out_chars.len();
    let mut p: usize = 0;
    while p < n && before_in(&out_chars[p], &c, by_length)
        invariant
            n == out_chars@.len(),
            v == vec_views(out_chars@),
            p <= n,
            forall|j: int| 0 <= j < p ==> before(#[trigger] v[j], c@, by_length),
        decreases n - p,
    {
        p = p + 1;
    }
    if p < n && same_chars(&out_chars[p], &c) {
        assert(v[p as int] == c@);
        assert forall|x: Seq<char>| #[trigger] v.contains(x) <==> (v.contains(x) || x == s@) by {
            if x == s@ {
                assert(v[p as int] == x);
            }
        }
        return;
    }
    proof {
        if p < n {
            assert(v[p as int] == out_chars@[p as int]@);
            assert(!before(v[p as int], c@, by_length));
            assert(v[p as int] != c@);
            lemma_before_total(v[p as int], c@, by_length);
        }
    }
    out_chars.insert(p, c);
    out_strs.insert(p, s);
    proof {
        let w = vec_views(out_chars@);
        assert(w =~= v.insert(p as int, c@));
        assert(str_views(out_strs@) =~= w);
        assert forall|i: int, j: int| 0 <= i < j < w.len() implies before(
            #[trigger] w[i],
            #[trigger] w[j],
            by_length,
        ) by {
            if j < p {
                assert(w[i] == v[i] && w[j] == v[j]);
            } else if j == p {
                assert(w[i] == v[i]);
            } else if i == p {
                assert(w[j] == v[j - 1]);
                if j - 1 > p {
                    assert(before(v[p as int], v[j - 1], by_length));
                    lemma_before_transitive(c@, v[p as int], v[j - 1], by_length);
                }
            } else if i < p {
                assert(w[i] == v[i] && w[j] == v[j - 1]);
            } else {
                assert(w[i] == v[i - 1] && w[j] == v[j - 1]);
            }
        }
        assert forall|x: Seq<char>| #[trigger] w.contains(x) <==> (v.contains(x) || x == s@) by {
            if w.contains(x) {
                let k = choose|k: int| 0 <= k < w.len() && w[k] == x;
                if k < p {
                    assert(v[k] == x);
                } else if k > p {
                    assert(v[k - 1] == x);
                }
            }
            if v.contains(x) {
                let k = choose|k: int| 0 <= k < v.len() && v[k] == x;
                if k < p {
                    assert(w[k] == x);
                } else {
                    assert(w[k + 1] == x);
                }
            }
            if x == s@ {
                assert(w[p as int] == x);
            }
        }
    }
}

} // verus!
