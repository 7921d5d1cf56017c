//! Characters and strings.
//!
//! A string is viewed as the sequence of its characters. Most of the crate
//! works on `Vec<char>` and turns to `String` only where a value is stored or
//! handed out.

use vstd::prelude::*;

verus! {

/// `String::push` appends one character.
pub assume_specification[ String::push ](s: &mut String, c: char)
    ensures
        final(s)@ == old(s)@.push(c),
;

/// Whether Unicode gives the character the property Alphabetic.
pub uninterp spec fn unicode_alphabetic(c: char) -> bool;

/// Whether Unicode gives the character the property Alphabetic or one of the
/// categories Nd, Nl and No.
pub uninterp spec fn unicode_alphanumeric(c: char) -> bool;

/// The ASCII letters.
pub open spec fn ascii_letter(c: char) -> bool {
    ('a' <= c && c <= 'z') || ('A' <= c && c <= 'Z')
}

/// Letters: the ASCII ones, and whatever Unicode calls alphabetic beyond.
pub open spec fn alphabetic(c: char) -> bool {
    if c <= '\x7f' {
        ascii_letter(c)
    } else {
        unicode_alphabetic(c)
    }
}

/// Letters and digits: the ASCII ones, and whatever Unicode calls alphabetic or
/// numeric beyond.
pub open spec fn alphanumeric(c: char) -> bool {
    if c <= '\x7f' {
        ascii_letter(c) || digit(c)
    } else {
        unicode_alphanumeric(c)
    }
}

/// `char::is_alphabetic`: the Unicode property Alphabetic, which among the ASCII
/// characters holds of the letters alone.
pub assume_specification[ char::is_alphabetic ](c: char) -> (r: bool)
    ensures
        c <= '\x7f' ==> r == ascii_letter(c),
        c > '\x7f' ==> r == unicode_alphabetic(c),
;

/// `char::is_alphanumeric`: the Unicode property Alphabetic or one of the
/// numeric categories; among the ASCII characters, the letters and the digits.
pub assume_specification[ char::is_alphanumeric ](c: char) -> (r: bool)
    ensures
        c <= '\x7f' ==> r == (ascii_letter(c) || digit(c)),
        c > '\x7f' ==> r == unicode_alphanumeric(c),
;

/// What `str::to_lowercase` makes of a text.
pub uninterp spec fn lowercase_of(s: Seq<char>) -> Seq<char>;

/// What `str::to_uppercase` makes of a text.
pub uninterp spec fn uppercase_of(s: Seq<char>) -> Seq<char>;

/// `str::to_lowercase`: the Unicode lowercase mapping, a function of the text
/// alone.
pub assume_specification[ str::to_lowercase ](s: &str) -> (r: String)
    ensures
        r@ == lowercase_of(s@),
;

/// `str::to_uppercase`: the Unicode uppercase mapping, a function of the text
/// alone.
pub assume_specification[ str::to_uppercase ](s: &str) -> (r: String)
    ensures
        r@ == uppercase_of(s@),
;

/// The ASCII digits.
pub open spec fn digit(c: char) -> bool {
    '0' <= c && c <= '9'
}

pub fn is_digit(c: char) -> (r: bool)
    ensures
        r == digit(c),
{
    '0' <= c && c <= '9'
}

/// The digits of base sixteen.
pub open spec fn hex_digit(c: char) -> bool {
    digit(c) || ('a' <= c && c <= 'f') || ('A' <= c && c <= 'F')
}

pub fn is_hex_digit(c: char) -> (r: bool)
    ensures
        r == hex_digit(c),
{
    is_digit(c) || ('a' <= c && c <= 'f') || ('A' <= c && c <= 'F')
}

/// The characters with the Unicode property White_Space.
pub open spec fn space(c: char) -> bool {
    ||| '\t' <= c && c <= '\r'
    ||| c == ' ' || c == '\u{85}' || c == '\u{a0}' || c == '\u{1680}'
    ||| '\u{2000}' <= c && c <= '\u{200a}'
    ||| c == '\u{2028}' || c == '\u{2029}' || c == '\u{202f}' || c == '\u{205f}' || c == '\u{3000}'
}

pub fn is_space(c: char) -> (r: bool)
    ensures
        r == space(c),
{
    ('\t' <= c && c <= '\r') || c == ' ' || c == '\u{85}' || c == '\u{a0}' || c == '\u{1680}'
        || ('\u{2000}' <= c && c <= '\u{200a}') || c == '\u{2028}' || c == '\u{2029}'
        || c == '\u{202f}' || c == '\u{205f}' || c == '\u{3000}'
}

/// The characters of a string.
pub fn chars_of(s: &str) -> (r: Vec<char>)
    ensures
        r@ == s@,
{
    let mut out: Vec<char> = Vec::new();
    for c in it: s.chars()
        invariant
            out@ == it.seq().take(it.index() as int),
            it.seq() == s@,
    {
        out.push(c);
        assert(it.seq().take(it.index() + 1) =~= it.seq().take(it.index() as int).push(c));
    }
    assert(s@.take(s@.len() as int) =~= s@);
    out
}

/// The string of the characters from `from` up to `to`.
pub fn string_between(v: &[char], from: usize, to: usize) -> (r: String)
    requires
        from <= to <= v@.len(),
    ensures
        r@ == v@.subrange(from as int, to as int),
{
    let mut out: String = String::new();
    let mut i: usize = from;
    while i < to
        invariant
            from <= i <= to <= v@.len(),
            out@ == v@.subrange(from as int, i as int),
        decreases to - i,
    {
        out.push(v[i]);
        i += 1;
        assert(v@.subrange(from as int, i as int) =~= v@.subrange(from as int, i - 1).push(
            v@[i - 1],
        ));
    }
    out
}

/// The string of all the characters.
pub fn string_of(v: &[char]) -> (r: String)
    ensures
        r@ == v@,
{
    let r = string_between(v, 0, v.len());
    assert(v@.subrange(0, v@.len() as int) =~= v@);
    r
}

/// The characters from `from` up to `to`.
pub fn chars_between(v: &[char], from: usize, to: usize) -> (r: Vec<char>)
    requires
        from <= to <= v@.len(),
    ensures
        r@ == v@.subrange(from as int, to as int),
{
    let mut out: Vec<char> = Vec::new();
    let mut i: usize = from;
    while i < to
        invariant
            from <= i <= to <= v@.len(),
            out@ == v@.subrange(from as int, i as int),
        decreases to - i,
    {
        out.push(v[i]);
        i += 1;
        assert(v@.subrange(from as int, i as int) =~= v@.subrange(from as int, i - 1).push(
            v@[i - 1],
        ));
    }
    out
}

/// Whether two texts are the same.
pub fn same_chars(a: &[char], b: &[char]) -> (r: bool)
    ensures
        r == (a@ == b@),
{
    if a.len() != b.len() {
        return false;
    }
    let mut i: usize = 0;
    while i < a.len()
        invariant
            i <= a@.len() == b@.len(),
            a@.take(i as int) == b@.take(i as int),
        decreases a.len() - i,
    {
        if a[i] != b[i] {
            return false;
        }
        assert(a@.take(i + 1) =~= a@.take(i as int).push(a@[i as int]));
        assert(b@.take(i + 1) =~= b@.take(i as int).push(b@[i as int]));
        i += 1;
    }
    assert(a@.take(i as int) =~= a@);
    assert(b@.take(i as int) =~= b@);
    true
}

/// Whether two strings hold the same characters.
pub fn same_text(a: &str, b: &str) -> (r: bool)
    ensures
        r == (a@ == b@),
{
    same_chars(&chars_of(a), &chars_of(b))
}

/// An ASCII capital letter as its small letter; any other character as it is.
pub open spec fn ascii_lower(c: char) -> char {
    if 'A' <= c && c <= 'Z' {
        ((c as u8) + 32) as u8 as char
    } else {
        c
    }
}

pub fn to_ascii_lower(c: char) -> (r: char)
    ensures
        r == ascii_lower(c),
{
    if 'A' <= c && c <= 'Z' {
        (c as u8 + 32) as char
    } else {
        c
    }
}

/// A text with its ASCII capital letters made small.
pub open spec fn lower_text(s: Seq<char>) -> Seq<char> {
    Seq::new(s.len(), |i: int| ascii_lower(s[i]))
}

pub fn lower_chars(v: &[char]) -> (r: Vec<char>)
    ensures
        r@ == lower_text(v@),
{
    let mut out: Vec<char> = Vec::new();
    let mut i: usize = 0;
    while i < v.len()
        invariant
            i <= v@.len(),
            out@.len() == i,
            forall|j: int| 0 <= j < i ==> out@[j] == ascii_lower(v@[j]),
        decreases v.len() - i,
    {
        out.push(to_ascii_lower(v[i]));
        i += 1;
    }
    assert(out@ =~= lower_text(v@));
    out
}

/// Where the first character from `i` on stands that is no white space.
pub open spec fn skip_space(s: Seq<char>, i: int) -> int
    decreases s.len() - i,
{
    if 0 <= i < s.len() && space(s[i]) {
        skip_space(s, i + 1)
    } else {
        i
    }
}

/// Where the white space begins that ends right before `i`.
pub open spec fn back_space(s: Seq<char>, i: int) -> int
    decreases i,
{
    if 0 < i <= s.len() && space(s[i - 1]) {
        back_space(s, i - 1)
    } else {
        i
    }
}

/// A text without its leading and trailing white space.
pub open spec fn trimmed(s: Seq<char>) -> Seq<char> {
    let from = skip_space(s, 0);
    if from >= s.len() {
        Seq::empty()
    } else {
        s.subrange(from, back_space(s, s.len() as int))
    }
}

/// White space is skipped forward, and ends at something else.
pub proof fn lemma_skip_space(s: Seq<char>, i: int)
    requires
        0 <= i,
    ensures
        i <= skip_space(s, i),
        skip_space(s, i) < s.len() ==> !space(s[skip_space(s, i)]),
    decreases s.len() - i,
{
    if i < s.len() && space(s[i]) {
        lemma_skip_space(s, i + 1);
    }
}

/// White space is skipped backward no further than to something else.
pub proof fn lemma_back_space(s: Seq<char>, from: int, i: int)
    requires
        0 <= from < i <= s.len(),
        !space(s[from]),
    ensures
        from < back_space(s, i),
        back_space(s, i) <= s.len(),
    decreases i,
{
    if space(s[i - 1]) {
        lemma_back_space(s, from, i - 1);
    }
}

/// A text with no white space at its ends is as it is when trimmed.
pub proof fn lemma_trimmed_as_is(b: Seq<char>)
    requires
        b.len() > 0,
        !space(b[0]),
        !space(b[b.len() - 1]),
    ensures
        trimmed(b) == b,
{
    assert(skip_space(b, 0) == 0);
    assert(back_space(b, b.len() as int) == b.len());
    assert(b.subrange(0, b.len() as int) =~= b);
}

/// A trimmed text is a part of the text; gives where it stands there.
pub proof fn lemma_trimmed_part(s: Seq<char>) -> (from: int)
    ensures
        0 <= from,
        from + trimmed(s).len() <= s.len(),
        trimmed(s) == s.subrange(from, from + trimmed(s).len()),
{
    let from = skip_space(s, 0);
    lemma_skip_space(s, 0);
    if from < s.len() {
        lemma_back_space(s, from, s.len() as int);
        from
    } else {
        assert(s.subrange(0, 0) =~= Seq::<char>::empty());
        0
    }
}

pub fn skip_spaces(v: &[char], i: usize) -> (r: usize)
    requires
        i <= v@.len(),
    ensures
        r == skip_space(v@, i as int),
        i <= r <= v@.len(),
        r < v@.len() ==> !space(v@[r as int]),
{
    let mut j: usize = i;
    while j < v.len() && is_space(v[j])
        invariant
            i <= j <= v@.len(),
            skip_space(v@, i as int) == skip_space(v@, j as int),
        decreases v.len() - j,
    {
        j += 1;
    }
    j
}

pub fn trim_chars(v: &[char]) -> (r: Vec<char>)
    ensures
        r@ == trimmed(v@),
{
    let from: usize = skip_spaces(v, 0);
    if from == v.len() {
        let out: Vec<char> = Vec::new();
        assert(out@ =~= Seq::<char>::empty());
        return out;
    }
    let mut to: usize = v.len();
    while from < to && is_space(v[to - 1])
        invariant
            from < v@.len(),
            !space(v@[from as int]),
            from < to <= v@.len(),
            back_space(v@, v@.len() as int) == back_space(v@, to as int),
        decreases to,
    {
        to -= 1;
    }
    chars_between(v, from, to)
}

/// The string without its leading and trailing white space.
pub fn trim_string(s: &str) -> (r: String)
    ensures
        r@ == trimmed(s@),
{
    string_of(&trim_chars(&chars_of(s)))
}

} // verus!
