//! Sequence operations on text: trimming by a character predicate, removing
//! and counting a character.

use vstd::prelude::*;

verus! {

/// `s` without the longest prefix whose characters all satisfy `f`.
pub open spec fn trim_start_while(s: Seq<char>, f: spec_fn(char) -> bool) -> Seq<char>
    decreases s.len(),
{
    if s.len() > 0 && f(s[0]) {
        trim_start_while(s.drop_first(), f)
    } else {
        s
    }
}

/// `s` without the longest suffix whose characters all satisfy `f`.
pub open spec fn trim_end_while(s: Seq<char>, f: spec_fn(char) -> bool) -> Seq<char>
    decreases s.len(),
{
    if s.len() > 0 && f(s.last()) {
        trim_end_while(s.drop_last(), f)
    } else {
        s
    }
}

/// `s` with every occurrence of `x` removed.
pub open spec fn drop_char(s: Seq<char>, x: char) -> Seq<char>
    decreases s.len(),
{
    if s.len() == 0 {
        s
    } else if s.last() == x {
        drop_char(s.drop_last(), x)
    } else {
        drop_char(s.drop_last(), x).push(s.last())
    }
}

/// How many times `x` occurs in `s`.
pub open spec fn count_char(s: Seq<char>, x: char) -> nat
    decreases s.len(),
{
    if s.len() == 0 {
        0
    } else if s.last() == x {
        count_char(s.drop_last(), x) + 1
    } else {
        count_char(s.drop_last(), x)
    }
}

/// A character that does not occur is counted zero times.
pub proof fn lemma_count_char_absent(s: Seq<char>, x: char)
    requires
        forall|j: int| 0 <= j < s.len() ==> s[j] != x,
    ensures
        count_char(s, x) == 0,
    decreases s.len(),
{
    if s.len() > 0 {
        let d = s.drop_last();
        assert forall|j: int| 0 <= j < d.len() implies d[j] != x by {
            assert(d[j] == s[j]);
        }
        lemma_count_char_absent(d, x);
    }
}

/// Trimming the prefix that satisfies `f` leaves `s` from the first
/// character that does not.
pub proof fn lemma_trim_start_while(s: Seq<char>, lo: int, f: spec_fn(char) -> bool)
    requires
        0 <= lo <= s.len(),
        forall|j: int| 0 <= j < lo ==> f(#[trigger] s[j]),
        lo == s.len() || !f(s[lo]),
    ensures
        trim_start_while(s, f) == s.skip(lo),
    decreases lo,
{
    if lo == 0 {
        assert(s.skip(0) =~= s);
    } else {
        let d = s.drop_first();
        assert forall|j: int| 0 <= j < lo - 1 implies f(#[trigger] d[j]) by {
            assert(d[j] == s[j + 1]);
        }
        if lo - 1 != d.len() {
            assert(d[lo - 1] == s[lo]);
        }
        lemma_trim_start_while(d, lo - 1, f);
        assert(d.skip(lo - 1) =~= s.skip(lo));
    }
}

/// Trimming the suffix that satisfies `f` leaves `s` up to just after the
/// last character that does not.
pub proof fn lemma_trim_end_while(s: Seq<char>, hi: int, f: spec_fn(char) -> bool)
    requires
        0 <= hi <= s.len(),
        forall|j: int| hi <= j < s.len() ==> f(#[trigger] s[j]),
        hi == 0 || !f(s[hi - 1]),
    ensures
        trim_end_while(s, f) == s.take(hi),
    decreases s.len() - hi,
{
    if hi == s.len() {
        assert(s.take(hi) =~= s);
    } else {
        let d = s.drop_last();
        assert forall|j: int| hi <= j < d.len() implies f(#[trigger] d[j]) by {
            assert(d[j] == s[j]);
        }
        if hi > 0 {
            assert(d[hi - 1] == s[hi - 1]);
        }
        lemma_trim_end_while(d, hi, f);
        assert(d.take(hi) =~= s.take(hi));
    }
}

/// `trim_start_while(s, f)` is `s` from some position `k` on, where `k` is
/// the end of `s` or holds a character that `f` rejects.
pub proof fn lemma_trim_start_shape(s: Seq<char>, f: spec_fn(char) -> bool) -> (k: int)
    ensures
        0 <= k <= s.len(),
        trim_start_while(s, f) == s.skip(k),
        k == s.len() || !f(s[k]),
        forall|j: int| 0 <= j < k ==> f(#[trigger] s[j]),
    decreases s.len(),
{
    if s.len() > 0 && f(s[0]) {
        let d = s.drop_first();
        let k1 = lemma_trim_start_shape(d, f);
        assert(d.skip(k1) =~= s.skip(k1 + 1));
        if k1 < d.len() {
            assert(d[k1] == s[k1 + 1]);
        }
        assert forall|j: int| 0 <= j < k1 + 1 implies f(#[trigger] s[j]) by {
            if j > 0 {
                assert(s[j] == d[j - 1]);
            }
        }
        k1 + 1
    } else {
        assert(s.skip(0) =~= s);
        0
    }
}

/// `trim_end_while(s, f)` is `s` up to some position `h`, where `h` is `0`
/// or follows a character that `f` rejects.
pub proof fn lemma_trim_end_shape(s: Seq<char>, f: spec_fn(char) -> bool) -> (h: int)
    ensures
        0 <= h <= s.len(),
        trim_end_while(s, f) == s.take(h),
        h == 0 || !f(s[h - 1]),
        forall|j: int| h <= j < s.len() ==> f(#[trigger] s[j]),
    decreases s.len(),
{
    if s.len() > 0 && f(s.last()) {
        let d = s.drop_last();
        let h1 = lemma_trim_end_shape(d, f);
        assert(d.take(h1) =~= s.take(h1));
        if h1 > 0 {
            assert(d[h1 - 1] == s[h1 - 1]);
        }
        assert forall|j: int| h1 <= j < s.len() implies f(#[trigger] s[j]) by {
            if j < d.len() {
                assert(s[j] == d[j]);
            }
        }
        h1
    } else {
        assert(s.take(s.len() as int) =~= s);
        s.len() as int
    }
}

/// Removing `x` from a concatenation removes it from each part.
pub proof fn lemma_drop_char_concat(a: Seq<char>, b: Seq<char>, x: char)
    ensures
        drop_char(a + b, x) == drop_char(a, x) + drop_char(b, x),
    decreases b.len(),
{
    if b.len() == 0 {
        assert(a + b =~= a);
        assert(drop_char(a, x) + drop_char(b, x) =~= drop_char(a, x));
    } else {
        let d = b.drop_last();
        lemma_drop_char_concat(a, d, x);
        assert((a + b).drop_last() =~= a + d);
        assert((a + b).last() == b.last());
        if b.last() != x {
            assert(drop_char(a, x) + drop_char(d, x).push(b.last()) =~= (drop_char(a, x)
                + drop_char(d, x)).push(b.last()));
        }
    }
}

/// Removing a character that does not occur changes nothing.
pub proof fn lemma_drop_char_absent(s: Seq<char>, x: char)
    requires
        forall|j: int| 0 <= j < s.len() ==> #[trigger] s[j] != x,
    ensures
        drop_char(s, x) == s,
    decreases s.len(),
{
    if s.len() > 0 {
        let d = s.drop_last();
        assert forall|j: int| 0 <= j < d.len() implies #[trigger] d[j] != x by {
            assert(d[j] == s[j]);
        }
        lemma_drop_char_absent(d, x);
        assert(s.last() == s[s.len() - 1]);
        assert(d.push(s.last()) =~= s);
    }
}

/// Counting in a concatenation adds the counts of the parts.
pub proof fn lemma_count_char_concat(a: Seq<char>, b: Seq<char>, x: char)
    ensures
        count_char(a + b, x) == count_char(a, x) + count_char(b, x),
    decreases b.len(),
{
    if b.len() == 0 {
        assert(a + b =~= a);
    } else {
        let d = b.drop_last();
        lemma_count_char_concat(a, d, x);
        assert((a + b).drop_last() =~= a + d);
        assert((a + b).last() == b.last());
    }
}

/// The characters `t[lo..hi]` without the character `x`.
pub fn drop_char_in(t: &Vec<char>, lo: usize, hi: usize, x: char) -> (r: Vec<char>)
    requires
        lo <= hi <= t@.len(),
    ensures
        r@ == drop_char(t@.subrange(lo as int, hi as int), x),
{
    let mut out: Vec<char> = Vec::new();
    let mut i = lo;
    while i < hi
        invariant
            lo <= i <= hi <= t@.len(),
            out@ == drop_char(t@.subrange(lo as int, i as int), x),
        decreases hi - i,
    {
        let ghost before = t@.subrange(lo as int, i as int);
        let c = t[i];
        if c != x {
            out.push(c);
        }
        i = i + 1;
        assert(t@.subrange(lo as int, i as int).drop_last() =~= before);
    }
    out
}

/// How many times `x` occurs in `t`.
pub fn count_char_in(t: &Vec<char>, x: char) -> (r: usize)
    ensures
        r == count_char(t@, x),
{
    let mut n: usize = 0;
    let mut i: usize = 0;
    while i < t.len()
        invariant
            i <= t@.len(),
            n == count_char(t@.take(i as int), x),
            n <= i,
        decreases t@.len() - i,
    {
        let ghost before = t@.take(i as int);
        if t[i] == x {
            n = n + 1;
        }
        i = i + 1;
        assert(t@.take(i as int).drop_last() =~= before);
    }
    assert(t@.take(t@.len() as int) =~= t@);
    n
}

} // verus!
