//! Character classes and conversions between strings and character vectors.

use vstd::prelude::*;

verus! {

/// Decimal digits outside ASCII: the characters from `U+0080` on that the
/// regular expression class `\d` (general category `Nd`) accepts.
pub uninterp spec fn is_other_decimal_digit(c: char) -> bool;

/// Unicode decimal digits: what the regular expression class `\d` (general
/// category `Nd`) accepts. Among ASCII characters, exactly `0`..=`9`.
pub open spec fn is_decimal_digit(c: char) -> bool {
    if (c as int) < 128 {
        '0' <= c && c <= '9'
    } else {
        is_other_decimal_digit(c)
    }
}

/// Word characters outside ASCII other than decimal digits: the rest of what
/// the regular expression class `\w` accepts from `U+0080` on.
pub uninterp spec fn is_other_word_char(c: char) -> bool;

/// Unicode word characters: what the regular expression class `\w` accepts.
/// Among ASCII characters, exactly `[0-9A-Za-z_]`; every decimal digit is
/// one.
pub open spec fn is_word_char(c: char) -> bool {
    if (c as int) < 128 {
        ('0' <= c && c <= '9') || ('A' <= c && c <= 'Z') || ('a' <= c && c <= 'z') || c == '_'
    } else {
        is_decimal_digit(c) || is_other_word_char(c)
    }
}

/// The Unicode `White_Space` property: tab, line feed, vertical tab, form
/// feed, carriage return, space, `U+0085`, `U+00A0`, `U+1680`,
/// `U+2000`..=`U+200A`, `U+2028`, `U+2029`, `U+202F`, `U+205F` and `U+3000`.
pub open spec fn is_white_space(c: char) -> bool {
    c == ' ' || ('\t' <= c && c <= '\r') || c == '\u{85}' || c == '\u{a0}' || c == '\u{1680}' || (
    '\u{2000}' <= c && c <= '\u{200a}') || c == '\u{2028}' || c == '\u{2029}' || c == '\u{202f}'
        || c == '\u{205f}' || c == '\u{3000}'
}

/// Tests `c` against the regular expression class `\d` of the `regex` crate.
///
/// The crate documents `\d` as `\p{Nd}`; among ASCII characters exactly
/// `0`..=`9` have that category. Beyond ASCII the answer is named, not
/// stated: it is the Unicode tables the crate carries.
#[verifier::external_body]
pub(crate) fn digit_class(c: char) -> (r: bool)
    ensures
        r == is_decimal_digit(c),
        (c as int) >= 128 ==> r == is_other_decimal_digit(c),
{
    let mut buf = [0u8; 4];
    match regex::Regex::new(r"\A\d\z") {
        Ok(re) => re.is_match(c.encode_utf8(&mut buf)),
        Err(_) => false,
    }
}

/// Tests `c` against the regular expression class `\w` of the `regex` crate.
///
/// The crate documents `\w` as `\p{Alphabetic} + \p{M} + \d + \p{Pc} +
/// \p{Join_Control}`: every `\d` character is a word character, and among
/// ASCII characters the class is exactly `[0-9A-Za-z_]`. Beyond ASCII the
/// rest of the class is named, not stated.
#[verifier::external_body]
pub(crate) fn word_class(c: char) -> (r: bool)
    ensures
        r == is_word_char(c),
        (c as int) >= 128 ==> r == (is_decimal_digit(c) || is_other_word_char(c)),
{
    let mut buf = [0u8; 4];
    match regex::Regex::new(r"\A\w\z") {
        Ok(re) => re.is_match(c.encode_utf8(&mut buf)),
        Err(_) => false,
    }
}

/// Tests `c` against the regular expression class `\s` of the `regex` crate,
/// which the crate documents as `\p{White_Space}`, stated in full by
/// `is_white_space`.
#[verifier::external_body]
pub(crate) fn space_class(c: char) -> (r: bool)
    ensures
        r == is_white_space(c),
{
    let mut buf = [0u8; 4];
    match regex::Regex::new(r"\A\s\z") {
        Ok(re) => re.is_match(c.encode_utf8(&mut buf)),
        Err(_) => false,
    }
}

/// Calls `char::is_whitespace`, which reports the Unicode `White_Space`
/// property, stated in full by `is_white_space`.
#[verifier::external_body]
pub(crate) fn white_space(c: char) -> (r: bool)
    ensures
        r == is_white_space(c),
{
    c.is_whitespace()
}

/// Whether `i` is a Unicode scalar value: a code point outside the surrogate
/// range `U+D800`..=`U+DFFF` and no greater than `U+10FFFF`.
pub open spec fn is_scalar_value(i: int) -> bool {
    (0 <= i < 0xD800) || (0xE000 <= i <= 0x10FFFF)
}

/// Calls `char::from_u32`, which returns the character with code point `i`,
/// or `None` when `i` is not a Unicode scalar value.
#[verifier::external_body]
pub(crate) fn char_from_u32(i: u32) -> (r: Option<char>)
    ensures
        r == (if is_scalar_value(i as int) {
            Some(i as char)
        } else {
            None
        }),
{
    char::from_u32(i)
}

/// Builds a vector holding the characters of `s`, in order.
pub fn chars_of(s: &str) -> (r: Vec<char>)
    ensures
        r@ == s@,
{
    let mut out: Vec<char> = Vec::new();
    for c in it: s.chars()
        invariant
            out@ == it.seq().take(it.index() as int),
            it.seq() == s@,
    {
        out.push(c);
    }
    out
}

/// Whether every character of `s` is ASCII.
pub open spec fn all_ascii(s: Seq<char>) -> bool {
    forall|j: int| 0 <= j < s.len() ==> (#[trigger] s[j] as int) < 128
}

/// The ASCII lowercase of `c`: `A`..=`Z` become `a`..=`z`, anything else
/// stays.
pub open spec fn ascii_lower(c: char) -> char {
    if 'A' <= c && c <= 'Z' {
        ((c as int) + 32) as char
    } else {
        c
    }
}

/// What `str::to_lowercase` returns for text holding some character beyond
/// ASCII: the Unicode lowercase mapping, which may change the length of the
/// text and, for `Σ`, depends on the neighbouring characters.
pub uninterp spec fn other_lowercase(s: Seq<char>) -> Seq<char>;

/// What `str::to_lowercase` returns for `s`. For ASCII text, each character
/// lowercased one by one (the Unicode lowercase mapping of an ASCII
/// character is its ASCII lowercase); beyond ASCII, named rather than
/// stated.
pub open spec fn lowercase(s: Seq<char>) -> Seq<char> {
    if all_ascii(s) {
        s.map_values(|c: char| ascii_lower(c))
    } else {
        other_lowercase(s)
    }
}

/// Calls `str::to_lowercase`.
#[verifier::external_body]
pub(crate) fn lowercase_of(s: &str) -> (r: String)
    ensures
        r@ == lowercase(s@),
        !all_ascii(s@) ==> r@ == other_lowercase(s@),
{
    s.to_lowercase()
}

/// Calls `String::push`, which appends one character.
#[verifier::external_body]
pub(crate) fn push_char(s: &mut String, c: char)
    ensures
        final(s)@ == old(s)@.push(c),
{
    s.push(c);
}

/// Builds a string holding the characters `v[from..to]`.
pub fn string_of(v: &Vec<char>, from: usize, to: usize) -> (r: String)
    requires
        from <= to <= v@.len(),
    ensures
        r@ == v@.subrange(from as int, to as int),
{
    let mut out = String::new();
    let mut i = from;
    while i < to
        invariant
            from <= i <= to <= v@.len(),
            out@ == v@.subrange(from as int, i as int),
        decreases to - i,
    {
        push_char(&mut out, v[i]);
        i = i + 1;
        assert(out@ =~= v@.subrange(from as int, i as int));
    }
    out
}

/// For each character of `t`, whether it is a decimal digit.
pub open spec fn digit_flags(t: Seq<char>) -> Seq<bool> {
    t.map_values(|c: char| is_decimal_digit(c))
}

/// For each character of `t`, whether it is a word character.
pub open spec fn word_flags(t: Seq<char>) -> Seq<bool> {
    t.map_values(|c: char| is_word_char(c))
}

/// For each character of `t`, whether it is a decimal digit.
pub fn digit_mask(t: &Vec<char>) -> (r: Vec<bool>)
    ensures
        r@ == digit_flags(t@),
{
    let mut out: Vec<bool> = Vec::new();
    let mut i: usize = 0;
    while i < t.len()
        invariant
            i <= t@.len(),
            out@.len() == i,
            forall|k: int| 0 <= k < i ==> out@[k] == is_decimal_digit(#[trigger] t@[k]),
        decreases t@.len() - i,
    {
        out.push(digit_class(t[i]));
        i = i + 1;
    }
    assert(out@ =~= digit_flags(t@));
    out
}

/// For each character of `t`, whether it is a word character.
pub fn word_mask(t: &Vec<char>) -> (r: Vec<bool>)
    ensures
        r@ == word_flags(t@),
{
    let mut out: Vec<bool> = Vec::new();
    let mut i: usize = 0;
    while i < t.len()
        invariant
            i <= t@.len(),
            out@.len() == i,
            forall|k: int| 0 <= k < i ==> out@[k] == is_word_char(#[trigger] t@[k]),
        decreases t@.len() - i,
    {
        out.push(word_class(t[i]));
        i = i + 1;
    }
    assert(out@ =~= word_flags(t@));
    out
}

} // verus!
