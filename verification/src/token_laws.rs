//! What holds of the tokens of a query: words, strings, numbers and signs read as
//! what they write.

use crate::decimal::{digits_end, digits_value, exponent_in, nat_text, number_in, scaled, sign_at};
use crate::json::bool_text;
use crate::lexer::{
    caret_diagram, ident_continue, ident_start, ignorable_end, kind_text, number_end, spaces,
    string_from, token_at, tokens_from, untabbed, word_end, word_kind, Fault, Kind, Tok,
};
use crate::num::{product, ratio, whole_int};
use crate::pattern_text_laws::{lemma_written_both, written_at};
use crate::text::{digit, lower_text, space};
use crate::timeutil::{amount_end, duration_in, unit, unit_seconds};
use vstd::prelude::*;

verus! {

/// A word in whatever capitals is the keyword that it writes, and any other word is
/// a field with its letters as they are.
pub proof fn law_words_are_keywords_or_fields(word: Seq<char>)
    ensures
        ({
            let w = lower_text(word);
            let k = word_kind(word);
            &&& w == "select"@ <==> k is Select
            &&& w == "where"@ <==> k is Where
            &&& w == "group"@ <==> k is Group
            &&& w == "having"@ <==> k is Having
            &&& w == "order"@ <==> k is Order
            &&& w == "by"@ <==> k is By
            &&& w == "asc"@ <==> k is Asc
            &&& w == "desc"@ <==> k is Desc
            &&& w == "limit"@ <==> k is Limit
            &&& w == "and"@ <==> k is And
            &&& w == "or"@ <==> k is Or
            &&& w == "not"@ <==> k is Not
            &&& w == "like"@ <==> k is Like
            &&& w == "as"@ <==> k is As
            &&& w == "true"@ <==> k == Kind::Bool(true)
            &&& w == "false"@ <==> k == Kind::Bool(false)
            &&& w == "null"@ <==> k is Null
            &&& k is Select || k is Where || k is Group || k is Having || k is Order || k is By
                || k is Asc || k is Desc || k is Limit || k is And || k is Or || k is Not
                || k is Like || k is As || k is Bool || k is Null || k == Kind::Ident(word)
        }),
{
    reveal_strlit("select");
    reveal_strlit("where");
    reveal_strlit("group");
    reveal_strlit("having");
    reveal_strlit("order");
    reveal_strlit("by");
    reveal_strlit("asc");
    reveal_strlit("desc");
    reveal_strlit("limit");
    reveal_strlit("and");
    reveal_strlit("or");
    reveal_strlit("not");
    reveal_strlit("like");
    reveal_strlit("as");
    reveal_strlit("true");
    reveal_strlit("false");
    reveal_strlit("null");
    assert("select"@.len() == 6 && "select"@[0] == 's');
    assert("having"@.len() == 6 && "having"@[0] == 'h');
    assert("where"@.len() == 5 && "where"@[0] == 'w');
    assert("group"@.len() == 5 && "group"@[0] == 'g');
    assert("order"@.len() == 5 && "order"@[0] == 'o');
    assert("limit"@.len() == 5 && "limit"@[0] == 'l');
    assert("false"@.len() == 5 && "false"@[0] == 'f');
    assert("desc"@.len() == 4 && "desc"@[0] == 'd');
    assert("like"@.len() == 4 && "like"@[0] == 'l');
    assert("true"@.len() == 4 && "true"@[0] == 't');
    assert("null"@.len() == 4 && "null"@[0] == 'n');
    assert("asc"@.len() == 3 && "asc"@[0] == 'a' && "asc"@[1] == 's');
    assert("and"@.len() == 3 && "and"@[0] == 'a' && "and"@[1] == 'n');
    assert("not"@.len() == 3 && "not"@[0] == 'n');
    assert("by"@.len() == 2 && "by"@[0] == 'b');
    assert("or"@.len() == 2 && "or"@[0] == 'o');
    assert("as"@.len() == 2 && "as"@[0] == 'a');
}

/// A word starts with a letter, an underscore, an at sign or a dollar sign, and goes on
/// with those, digits, dots, dashes and slashes.
pub proof fn law_what_words_are_made_of(c: char)
    ensures
        c <= '\x7f' ==> ident_start(c) == (('a' <= c && c <= 'z') || ('A' <= c && c <= 'Z') || c == '_'
            || c == '@' || c == '$'),
        ident_continue(c) == (ident_start(c) || ('0' <= c && c <= '9') || c == '.' || c == '-' || c
            == '/'),
{
}

/// Small letters differ from a text in its capitals alone, and those by the distance
/// from capitals to small letters.
pub proof fn law_small_letters_stand_for_capitals(s: Seq<char>, i: int)
    requires
        0 <= i < s.len(),
    ensures
        lower_text(s).len() == s.len(),
        'A' <= s[i] && s[i] <= 'Z' ==> lower_text(s)[i] as int == s[i] as int + 'a' as int
            - 'A' as int,
        !('A' <= s[i] && s[i] <= 'Z') ==> lower_text(s)[i] == s[i],
{
}

proof fn lemma_word_run(s: Seq<char>, i: int, e: int)
    requires
        0 <= i <= e <= s.len(),
        forall|j: int| i <= j < e ==> ident_continue(#[trigger] s[j]),
        e >= s.len() || !ident_continue(s[e]),
    ensures
        word_end(s, i) == e,
    decreases e - i,
{
    if i < e {
        lemma_word_run(s, i + 1, e);
    }
}

/// A row of characters that can make a word, the first of them one that can start
/// it, is one token as far as it goes.
pub proof fn law_a_word_is_one_token(s: Seq<char>, i: int, e: int)
    requires
        0 <= i < e <= s.len(),
        ident_start(s[i]),
        forall|j: int| i <= j < e ==> ident_continue(#[trigger] s[j]),
        e >= s.len() || !ident_continue(s[e]),
    ensures
        token_at(s, i) == Ok::<(Kind, int), Fault>((word_kind(s.subrange(i, e)), e)),
{
    reveal(token_at);
    lemma_word_run(s, i, e);
    lemma_start(s[i]);
}

/// What can start a word is none of the signs.
proof fn lemma_start(c: char)
    ensures
        ident_start(c) ==> c != '*' && c != ',' && c != '(' && c != ')' && c != '=' && c != '!' && c
            != '<' && c != '>' && c != '\'' && c != '"' && c != '-' && c != '+' && c != '.'
            && !digit(c),
{
}

/// The signs of a query are what they look like, and a sign of two characters is
/// taken whole.
pub proof fn law_signs_are_tokens(s: Seq<char>, i: int)
    requires
        0 <= i < s.len(),
    ensures
        s[i] == '*' ==> token_at(s, i) == Ok::<(Kind, int), Fault>((Kind::Star, i + 1)),
        s[i] == ',' ==> token_at(s, i) == Ok::<(Kind, int), Fault>((Kind::Comma, i + 1)),
        s[i] == '(' ==> token_at(s, i) == Ok::<(Kind, int), Fault>((Kind::LParen, i + 1)),
        s[i] == ')' ==> token_at(s, i) == Ok::<(Kind, int), Fault>((Kind::RParen, i + 1)),
        s[i] == '=' ==> token_at(s, i) == Ok::<(Kind, int), Fault>(
            (
                Kind::Eq,
                if i + 1 < s.len() && s[i + 1] == '=' {
                    i + 2
                } else {
                    i + 1
                },
            ),
        ),
        s[i] == '!' && i + 1 < s.len() && s[i + 1] == '=' ==> token_at(s, i) == Ok::<
            (Kind, int),
            Fault,
        >((Kind::Ne, i + 2)),
        s[i] == '!' && !(i + 1 < s.len() && s[i + 1] == '=') ==> token_at(s, i) is Err,
        s[i] == '<' && i + 1 < s.len() && s[i + 1] == '=' ==> token_at(s, i) == Ok::<
            (Kind, int),
            Fault,
        >((Kind::Le, i + 2)),
        s[i] == '<' && i + 1 < s.len() && s[i + 1] == '>' ==> token_at(s, i) == Ok::<
            (Kind, int),
            Fault,
        >((Kind::Ne, i + 2)),
        s[i] == '<' && !(i + 1 < s.len() && (s[i + 1] == '=' || s[i + 1] == '>')) ==> token_at(s, i)
            == Ok::<(Kind, int), Fault>((Kind::Lt, i + 1)),
        s[i] == '>' && i + 1 < s.len() && s[i + 1] == '=' ==> token_at(s, i) == Ok::<
            (Kind, int),
            Fault,
        >((Kind::Ge, i + 2)),
        s[i] == '>' && !(i + 1 < s.len() && s[i + 1] == '=') ==> token_at(s, i) == Ok::<
            (Kind, int),
            Fault,
        >((Kind::Gt, i + 1)),
        s[i] == '+' && !(i + 1 < s.len() && (digit(s[i + 1]) || s[i + 1] == '.')) ==> token_at(s, i)
            == Ok::<(Kind, int), Fault>((Kind::Plus, i + 1)),
        s[i] == '-' && !(i + 1 < s.len() && (digit(s[i + 1]) || s[i + 1] == '.')) ==> token_at(s, i)
            == Ok::<(Kind, int), Fault>((Kind::Minus, i + 1)),
{
    reveal(token_at);
}

/// A character as a string literal writes it.
pub open spec fn quoted_char(c: char, quote: char) -> Seq<char> {
    if c == '\n' {
        seq!['\\', 'n']
    } else if c == '\t' {
        seq!['\\', 't']
    } else if c == '\r' {
        seq!['\\', 'r']
    } else if c == '\0' {
        seq!['\\', '0']
    } else if c == '\\' || c == quote {
        seq!['\\', c]
    } else {
        seq![c]
    }
}

/// A text from `i` on as a string literal writes it.
pub open spec fn quoted_text(text: Seq<char>, i: int, quote: char) -> Seq<char>
    decreases text.len() - i,
{
    if i < 0 || i >= text.len() {
        Seq::empty()
    } else {
        quoted_char(text[i], quote) + quoted_text(text, i + 1, quote)
    }
}

proof fn lemma_quoted_reads(
    s: Seq<char>,
    p: int,
    text: Seq<char>,
    i: nat,
    quote: char,
    open: int,
    before: Seq<char>,
)
    requires
        quote == '"' || quote == '\'',
        i <= text.len(),
        written_at(s, p, quoted_text(text, i as int, quote)),
    ensures
        string_from(s, p, quote, open, before) == string_from(
            s,
            p + quoted_text(text, i as int, quote).len(),
            quote,
            open,
            before + text.skip(i as int),
        ),
    decreases text.len() - i,
{
    if i == text.len() {
        assert(before + text.skip(i as int) =~= before);
    } else {
        let c = text[i as int];
        let a = quoted_char(c, quote);
        let b = quoted_text(text, i as int + 1, quote);
        lemma_written_both(s, p, a, b);
        assert(s[p + 0] == a[0]);
        if a.len() == 2 {
            assert(s[p + 1] == a[1]);
        }
        lemma_quoted_reads(s, p + a.len(), text, i + 1, quote, open, before.push(c));
        assert(before.push(c) + text.skip(i as int + 1) =~= before + text.skip(i as int));
        assert(before + seq![c] =~= before.push(c));
    }
}

/// A string literal reads as the text that it writes, whatever characters that has
/// and whichever quotes it stands in.
pub proof fn law_a_string_reads_back(s: Seq<char>, p: int, text: Seq<char>, quote: char)
    requires
        quote == '"' || quote == '\'',
        written_at(s, p, seq![quote] + quoted_text(text, 0, quote) + seq![quote]),
    ensures
        token_at(s, p) == Ok::<(Kind, int), Fault>(
            (Kind::Str(text), p + quoted_text(text, 0, quote).len() + 2),
        ),
{
    reveal(token_at);
    let body = quoted_text(text, 0, quote);
    lemma_written_both(s, p, seq![quote] + body, seq![quote]);
    lemma_written_both(s, p, seq![quote], body);
    assert(seq![quote][0] == quote);
    assert(s[p + 0] == quote);
    assert(s[p + 1 + body.len() + 0] == quote);
    lemma_quoted_reads(s, p + 1, text, 0, quote, p + 1, Seq::empty());
    assert(Seq::<char>::empty() + text.skip(0) =~= text);
}

/// An escaped percent sign in a string literal keeps its backslash, so that `like`
/// takes it for itself.
pub proof fn law_an_escaped_percent_sign_keeps_its_backslash(
    s: Seq<char>,
    p: int,
    a: Seq<char>,
    b: Seq<char>,
    quote: char,
)
    requires
        quote == '"' || quote == '\'',
        written_at(
            s,
            p,
            seq![quote] + (quoted_text(a, 0, quote) + (seq!['\\', '%'] + (quoted_text(b, 0, quote)
                + seq![quote]))),
        ),
    ensures
        token_at(s, p) == Ok::<(Kind, int), Fault>(
            (
                Kind::Str(a + seq!['\\', '%'] + b),
                p + quoted_text(a, 0, quote).len() + quoted_text(b, 0, quote).len() + 4,
            ),
        ),
{
    reveal(token_at);
    let x = quoted_text(a, 0, quote);
    let y = quoted_text(b, 0, quote);
    let mid = seq!['\\', '%'];
    lemma_written_both(s, p, seq![quote], x + (mid + (y + seq![quote])));
    lemma_written_both(s, p + 1, x, mid + (y + seq![quote]));
    lemma_written_both(s, p + 1 + x.len(), mid, y + seq![quote]);
    lemma_written_both(s, p + 3 + x.len(), y, seq![quote]);
    assert(seq![quote][0] == quote);
    assert(s[p + 0] == quote);
    let q = p + 1 + x.len();
    assert(s[q + 0] == mid[0] && s[q + 1] == mid[1]);
    assert(s[q + 2 + y.len() + 0] == quote);
    lemma_quoted_reads(s, p + 1, a, 0, quote, p + 1, Seq::empty());
    assert(Seq::<char>::empty() + a.skip(0) =~= a);
    lemma_quoted_reads(s, q + 2, b, 0, quote, p + 1, a + mid);
    assert(b.skip(0) =~= b);
}

/// Whether a text is digits alone.
pub open spec fn all_digits(d: Seq<char>) -> bool {
    forall|i: int| 0 <= i < d.len() ==> digit(#[trigger] d[i])
}

/// An exponent as it is written.
pub open spec fn exponent_text(sign: Seq<char>, d: Seq<char>) -> Seq<char> {
    if d.len() == 0 {
        Seq::empty()
    } else {
        seq!['e'] + sign + d
    }
}

/// A fraction as it is written.
pub open spec fn fraction_text(d: Seq<char>) -> Seq<char> {
    if d.len() == 0 {
        Seq::empty()
    } else {
        seq!['.'] + d
    }
}

/// Whether a text is a sign or nothing.
pub open spec fn sign_or_none(sign: Seq<char>) -> bool {
    sign.len() == 0 || sign == seq!['-'] || sign == seq!['+']
}

proof fn lemma_run_of_digits(s: Seq<char>, i: int, e: int)
    requires
        0 <= i <= e <= s.len(),
        forall|j: int| i <= j < e ==> digit(#[trigger] s[j]),
        e >= s.len() || !digit(s[e]),
    ensures
        digits_end(s, i) == e,
    decreases e - i,
{
    if i < e {
        lemma_run_of_digits(s, i + 1, e);
    }
}

pub proof fn lemma_digits_at(s: Seq<char>, p: int, d: Seq<char>)
    requires
        written_at(s, p, d),
        all_digits(d),
        p + d.len() >= s.len() || !digit(s[p + d.len()]),
    ensures
        digits_end(s, p) == p + d.len(),
        s.subrange(p, p + d.len()) == d,
{
    assert forall|j: int| p <= j < p + d.len() implies digit(#[trigger] s[j]) by {
        assert(s[p + (j - p)] == d[j - p]);
    }
    lemma_run_of_digits(s, p, p + d.len());
    assert(s.subrange(p, p + d.len()) =~= d);
}

/// What an exponent of these digits comes to.
pub open spec fn exponent_of(down: Seq<char>, d: Seq<char>) -> int {
    if d.len() == 0 {
        0
    } else if down == seq!['-'] {
        -(digits_value(d) as int)
    } else {
        digits_value(d) as int
    }
}

proof fn lemma_exponent_reads(s: Seq<char>, q: int, down: Seq<char>, d: Seq<char>)
    requires
        sign_or_none(down),
        all_digits(d),
        written_at(s, q, exponent_text(down, d)),
        s.len() == q + exponent_text(down, d).len(),
    ensures
        exponent_in(s, q) == Some(exponent_of(down, d)),
{
    if d.len() > 0 {
        let e = seq!['e'];
        lemma_written_both(s, q, e + down, d);
        lemma_written_both(s, q, e, down);
        let r = q + 1 + down.len();
        assert(s[q + 0] == e[0]);
        assert(s[r + 0] == d[0]);
        assert(digit(d[0]));
        assert(seq!['-'][0] == '-' && seq!['+'][0] == '+');
        if down.len() > 0 {
            assert(s[q + 1 + 0] == down[0]);
        }
        lemma_digits_at(s, r, d);
        assert(sign_at(s, q + 1) == (down.len() == 1));
        assert((s[q + 1] == '-') == (down == seq!['-']));
    }
}

proof fn lemma_sign_reads(s: Seq<char>, sign: Seq<char>, rest: Seq<char>)
    requires
        sign_or_none(sign),
        rest.len() > 0,
        rest[0] != '-' && rest[0] != '+',
        s == sign + rest,
    ensures
        sign_at(s, 0) == (sign.len() == 1),
        (s[0] == '-') == (sign == seq!['-']),
        sign.len() <= 1,
{
    assert(seq!['-'][0] == '-' && seq!['+'][0] == '+');
    if sign.len() > 0 {
        assert(s[0] == sign[0]);
    } else {
        assert(s[0] == rest[0]);
    }
}

/// A number reads as the nearest to what its digits write: those before and behind
/// the point as one row, times ten to the exponent less one for each digit behind the
/// point.
pub proof fn law_a_number_is_what_its_digits_write(
    sign: Seq<char>,
    a: Seq<char>,
    b: Seq<char>,
    down: Seq<char>,
    d: Seq<char>,
)
    requires
        sign_or_none(sign),
        sign_or_none(down),
        all_digits(a),
        all_digits(b),
        all_digits(d),
        a.len() > 0 || b.len() > 0,
    ensures
        number_in(sign + (a + (fraction_text(b) + exponent_text(down, d)))) == Some(
            scaled(sign == seq!['-'], digits_value(a + b), exponent_of(down, d) - b.len()),
        ),
{
    let frac = fraction_text(b);
    let expo = exponent_text(down, d);
    let rest = a + (frac + expo);
    let s = sign + rest;
    let n0 = sign.len() as int;
    let p = n0 + a.len();
    let q = p + frac.len();
    assert(written_at(s, 0, s));
    lemma_written_both(s, 0, sign, rest);
    lemma_written_both(s, n0, a, frac + expo);
    lemma_written_both(s, p, frac, expo);
    assert(!digit('e') && !digit('.'));
    if a.len() > 0 {
        assert(rest[0] == a[0]);
        assert(digit(a[0]));
    } else {
        assert(rest[0] == frac[0]);
        assert(frac[0] == '.');
    }
    lemma_sign_reads(s, sign, rest);
    lemma_exponent_reads(s, q, down, d);
    if d.len() > 0 {
        assert(expo[0] == 'e');
        assert(s[q + 0] == 'e');
    }
    if b.len() > 0 {
        assert(frac[0] == '.');
        assert(s[p + 0] == '.');
        lemma_written_both(s, p, seq!['.'], b);
        lemma_digits_at(s, p + 1, b);
    }
    lemma_digits_at(s, n0, a);
    if b.len() == 0 {
        assert(a + Seq::<char>::empty() =~= a + b);
    }
}

/// The units of a duration and how many seconds each is: a duration is its number
/// times that.
pub proof fn law_durations_are_counted_in_seconds(a: Seq<char>, b: Seq<char>, u: Seq<char>)
    requires
        all_digits(a),
        all_digits(b),
        a.len() > 0,
        unit_seconds(u) is Some,
        number_in(a + fraction_text(b)) matches Some(n) && n.finite(),
    ensures
        duration_in(a + fraction_text(b) + u) == Some(
            product(number_in(a + fraction_text(b))->0, unit_seconds(u)->0),
        ),
        u == "s"@ || u == "m"@ || u == "h"@ || u == "d"@ || u == "ms"@,
        unit_seconds("s"@) == Some(whole_int(1)),
        unit_seconds("m"@) == Some(whole_int(60)),
        unit_seconds("h"@) == Some(whole_int(3600)),
        unit_seconds("d"@) == Some(whole_int(86400)),
        unit_seconds("ms"@) == Some(
            ratio(whole_int(1), whole_int(1000)),
        ),
{
    reveal_strlit("ms");
    reveal_strlit("s");
    reveal_strlit("m");
    reveal_strlit("h");
    reveal_strlit("d");
    assert("ms"@.len() == 2 && "ms"@[0] == 'm');
    assert("s"@.len() == 1 && "s"@[0] == 's');
    assert("m"@.len() == 1 && "m"@[0] == 'm');
    assert("h"@.len() == 1 && "h"@[0] == 'h');
    assert("d"@.len() == 1 && "d"@[0] == 'd');
    let w = a + fraction_text(b);
    let s = w + u;
    assert(s[w.len() as int] == u[0]);
    assert(!digit(u[0]) && u[0] != '.');
    assert forall|j: int| 0 <= j < w.len() implies digit(#[trigger] s[j]) || s[j] == '.' by {
        if j < a.len() {
            assert(s[j] == a[j]);
        } else if j > a.len() {
            assert(s[j] == b[j - a.len() - 1]);
        } else {
            assert(s[j] == '.');
        }
    }
    lemma_amount_run(s, 0, w.len() as int);
    assert(s.subrange(0, w.len() as int) =~= w);
    assert(s.subrange(w.len() as int, s.len() as int) =~= u);
}

proof fn lemma_amount_run(s: Seq<char>, i: int, e: int)
    requires
        0 <= i <= e <= s.len(),
        forall|j: int| i <= j < e ==> digit(#[trigger] s[j]) || s[j] == '.',
        e >= s.len() || (!digit(s[e]) && s[e] != '.'),
    ensures
        amount_end(s, i) == e,
    decreases e - i,
{
    if i < e {
        lemma_amount_run(s, i + 1, e);
    }
}

/// Whether no word and no digit goes on at a place.
pub open spec fn word_stops(s: Seq<char>, e: int) -> bool {
    e >= s.len() || !ident_continue(s[e])
}

/// A number without a unit behind it is a number as a token, and one with a unit is a
/// duration.
#[verifier::rlimit(30)]
pub proof fn law_numbers_and_durations_are_tokens(
    s: Seq<char>,
    p: int,
    a: Seq<char>,
    b: Seq<char>,
    u: Seq<char>,
)
    requires
        all_digits(a),
        all_digits(b),
        a.len() > 0,
        u.len() == 0 || unit(u),
        written_at(s, p, a + fraction_text(b) + u),
        word_stops(s, p + (a + fraction_text(b) + u).len()),
        number_in(a + fraction_text(b)) matches Some(n) && n.finite(),
    ensures
        u.len() == 0 ==> token_at(s, p) == Ok::<(Kind, int), Fault>(
            (Kind::Num(number_in(a + fraction_text(b))->0), p + (a + fraction_text(b)).len()),
        ),
        unit(u) ==> token_at(s, p) == Ok::<(Kind, int), Fault>(
            (
                Kind::Duration(duration_in(a + fraction_text(b) + u)->0),
                p + (a + fraction_text(b) + u).len(),
            ),
        ),
{
    reveal(token_at);
    reveal_strlit("ms");
    reveal_strlit("s");
    reveal_strlit("m");
    reveal_strlit("h");
    reveal_strlit("d");
    let w = a + fraction_text(b);
    let e = p + w.len();
    let f = e + u.len();
    lemma_written_both(s, p, w, u);
    lemma_written_both(s, p, a, fraction_text(b));
    assert(s[p + 0] == a[0]);
    assert(digit(a[0]));
    let q = p + a.len();
    if u.len() > 0 {
        assert(s[e + 0] == u[0]);
        assert(u[0] == 'm' || u[0] == 's' || u[0] == 'h' || u[0] == 'd');
    }
    assert(e >= s.len() || (!digit(s[e]) && s[e] != '.' && s[e] != 'e' && s[e] != 'E')) by {
        if u.len() == 0 && e < s.len() {
            assert(!ident_continue(s[e]));
        }
    }
    if b.len() > 0 {
        assert(fraction_text(b)[0] == '.');
        assert(s[q + 0] == '.');
        lemma_written_both(s, q, seq!['.'], b);
        lemma_digits_at(s, q + 1, b);
    }
    assert(!digit('.'));
    lemma_digits_at(s, p, a);
    assert(number_end(s, p) == e);
    assert forall|j: int| e <= j < f implies ident_continue(#[trigger] s[j]) by {
        assert(s[e + (j - e)] == u[j - e]);
        assert(u[j - e] == 'm' || u[j - e] == 's' || u[j - e] == 'h' || u[j - e] == 'd');
    }
    lemma_word_run(s, e, f);
    assert(s.subrange(p, e) =~= w);
    assert(s.subrange(e, f) =~= u);
    assert(s.subrange(p, f) =~= w + u);
    if u.len() > 0 {
        law_durations_are_counted_in_seconds(a, b, u);
    } else {
        assert(!unit(s.subrange(e, f)));
    }
}

proof fn lemma_exponent_end(s: Seq<char>, q: int, down: Seq<char>, d: Seq<char>)
    requires
        d.len() > 0,
        sign_or_none(down),
        all_digits(d),
        written_at(s, q, exponent_text(down, d)),
        word_stops(s, q + exponent_text(down, d).len()),
    ensures
        s[q] == 'e',
        ({
            let c = if sign_at(s, q + 1) {
                q + 2
            } else {
                q + 1
            };
            c < s.len() && digit(s[c]) && digits_end(s, c) == q + exponent_text(down, d).len()
        }),
{
    let e = seq!['e'];
    lemma_written_both(s, q, e + down, d);
    lemma_written_both(s, q, e, down);
    let r = q + 1 + down.len();
    assert(s[q + 0] == e[0]);
    assert(s[r + 0] == d[0]);
    assert(digit(d[0]));
    assert(seq!['-'][0] == '-' && seq!['+'][0] == '+');
    if down.len() > 0 {
        assert(s[q + 1 + 0] == down[0]);
    }
    lemma_digits_at(s, r, d);
}

proof fn lemma_number_ends(
    s: Seq<char>,
    p: int,
    sign: Seq<char>,
    a: Seq<char>,
    b: Seq<char>,
    down: Seq<char>,
    d: Seq<char>,
)
    requires
        sign_or_none(sign),
        sign_or_none(down),
        all_digits(a),
        all_digits(b),
        all_digits(d),
        a.len() > 0 || b.len() > 0,
        written_at(s, p, sign + (a + (fraction_text(b) + exponent_text(down, d)))),
        word_stops(s, p + (sign + (a + (fraction_text(b) + exponent_text(down, d)))).len()),
    ensures
        number_end(s, p) == p + (sign + (a + (fraction_text(b) + exponent_text(down, d)))).len(),
        sign.len() > 0 ==> s[p] == sign[0] && p + 1 < s.len() && (digit(s[p + 1]) || s[p + 1] == '.'),
        sign.len() == 0 && a.len() > 0 ==> digit(s[p]),
        sign.len() == 0 && a.len() == 0 ==> s[p] == '.' && p + 1 < s.len() && digit(s[p + 1]),
        sign.len() <= 1,
{
    let frac = fraction_text(b);
    let expo = exponent_text(down, d);
    let n = p + sign.len();
    let m = n + a.len();
    let q = m + frac.len();
    lemma_written_both(s, p, sign, a + (frac + expo));
    lemma_written_both(s, n, a, frac + expo);
    lemma_written_both(s, m, frac, expo);
    assert(seq!['-'][0] == '-' && seq!['+'][0] == '+');
    assert(!digit('.') && !digit('e'));
    if sign.len() > 0 {
        assert(s[p + 0] == sign[0]);
    }
    if a.len() > 0 {
        assert(s[n + 0] == a[0]);
        assert(digit(a[0]));
    }
    if d.len() > 0 {
        lemma_exponent_end(s, q, down, d);
    }
    if b.len() > 0 {
        let dot = seq!['.'];
        assert(frac[0] == '.');
        assert(s[m + 0] == frac[0]);
        lemma_written_both(s, m, dot, b);
        assert(s[m + 1 + 0] == b[0]);
        assert(digit(b[0]));
        lemma_digits_at(s, m + 1, b);
    }
    lemma_digits_at(s, n, a);
}

/// A number is one token with its sign, its digits before and behind the point, and its
/// exponent.
pub proof fn law_a_number_is_one_token(
    s: Seq<char>,
    p: int,
    sign: Seq<char>,
    a: Seq<char>,
    b: Seq<char>,
    down: Seq<char>,
    d: Seq<char>,
)
    requires
        sign_or_none(sign),
        sign_or_none(down),
        all_digits(a),
        all_digits(b),
        all_digits(d),
        a.len() > 0 || b.len() > 0,
        written_at(s, p, sign + (a + (fraction_text(b) + exponent_text(down, d)))),
        word_stops(s, p + (sign + (a + (fraction_text(b) + exponent_text(down, d)))).len()),
    ensures
        ({
            let w = sign + (a + (fraction_text(b) + exponent_text(down, d)));
            token_at(s, p) == Ok::<(Kind, int), Fault>((Kind::Num(number_in(w)->0), p + w.len()))
        }),
{
    reveal(token_at);
    let w = sign + (a + (fraction_text(b) + exponent_text(down, d)));
    let e = p + w.len();
    lemma_number_ends(s, p, sign, a, b, down, d);
    law_a_number_is_what_its_digits_write(sign, a, b, down, d);
    assert(s.subrange(p, e) =~= w);
    lemma_word_run(s, e, e);
    reveal_strlit("ms");
    reveal_strlit("s");
    reveal_strlit("m");
    reveal_strlit("h");
    reveal_strlit("d");
    assert(s.subrange(e, e).len() == 0);
    assert(!unit(s.subrange(e, e)));
}

/// An escape in a string that stands for nothing is refused, and so is a string that no
/// quote closes.
pub proof fn law_strings_are_closed_and_known(s: Seq<char>, p: int, text: Seq<char>, quote: char)
    requires
        quote == '"' || quote == '\'',
        written_at(s, p, seq![quote] + quoted_text(text, 0, quote)),
    ensures
        ({
            let e = p + 1 + quoted_text(text, 0, quote).len();
            &&& e == s.len() ==> token_at(s, p) is Err
            &&& e + 1 < s.len() && s[e] == '\\' && s[e + 1] != 'n' && s[e + 1] != 't' && s[e + 1]
                != 'r' && s[e + 1] != '0' && s[e + 1] != '\\' && s[e + 1] != '\'' && s[e + 1] != '"'
                && s[e + 1] != '%' ==> token_at(s, p) is Err
        }),
{
    reveal(token_at);
    let body = quoted_text(text, 0, quote);
    lemma_written_both(s, p, seq![quote], body);
    assert(seq![quote][0] == quote);
    assert(s[p + 0] == quote);
    lemma_quoted_reads(s, p + 1, text, 0, quote, p + 1, Seq::empty());
}

/// White space and comments stand between tokens and are none: a comment goes from
/// `--` to the end of its line.
pub proof fn law_space_and_comments_are_passed_over(
    s: Seq<char>,
    i: int,
    e: int,
    before: Seq<Tok>,
)
    requires
        0 <= i < e <= s.len(),
        (forall|j: int| i <= j < e ==> space(#[trigger] s[j])) || (e >= i + 3 && s[i] == '-' && s[i
            + 1] == '-' && s[e - 1] == '\n' && forall|j: int| i <= j < e - 1 ==> #[trigger] s[j]
            != '\n'),
    ensures
        tokens_from(s, i, before) == tokens_from(s, e, before),
{
    if forall|j: int| i <= j < e ==> space(#[trigger] s[j]) {
        lemma_spaces_passed(s, i, e);
    } else {
        assert(ignorable_end(s, i, false) == ignorable_end(s, i + 1, true));
        lemma_comment_passed(s, i + 1, e);
    }
}

proof fn lemma_spaces_passed(s: Seq<char>, i: int, e: int)
    requires
        0 <= i <= e <= s.len(),
        forall|j: int| i <= j < e ==> space(#[trigger] s[j]),
    ensures
        ignorable_end(s, i, false) == ignorable_end(s, e, false),
    decreases e - i,
{
    if i < e {
        lemma_spaces_passed(s, i + 1, e);
    }
}

proof fn lemma_comment_passed(s: Seq<char>, i: int, e: int)
    requires
        0 <= i < e <= s.len(),
        s[e - 1] == '\n',
        forall|j: int| i <= j < e - 1 ==> #[trigger] s[j] != '\n',
    ensures
        ignorable_end(s, i, true) == ignorable_end(s, e, false),
    decreases e - i,
{
    if i < e - 1 {
        lemma_comment_passed(s, i + 1, e);
    }
}

/// Below an error stand the query, tabs shown as spaces, and a caret under the column
/// that it points at.
pub proof fn law_the_caret_stands_under_its_column(
    kind: Seq<char>,
    fault: Fault,
    query: Seq<char>,
    shown: Seq<char>,
    line: Seq<char>,
)
    requires
        fault.col >= 1,
        shown.len() == query.len(),
        forall|i: int|
            0 <= i < query.len() ==> #[trigger] shown[i] == (if query[i] == '\t' {
                ' '
            } else {
                query[i]
            }),
        line.len() == fault.col,
        line.last() == '^',
        forall|i: int| 0 <= i < line.len() - 1 ==> #[trigger] line[i] == ' ',
    ensures
        caret_diagram(kind, fault, query) == kind + " error at column "@ + nat_text(
            fault.col as nat,
        ) + ": "@ + fault.message + seq!['\n', ' ', ' '] + shown + seq!['\n', ' ', ' '] + line,
{
    reveal_strlit("\n  ");
    reveal_strlit("^");
    assert(untabbed(query) =~= shown);
    assert(spaces(fault.col - 1) + "^"@ =~= line);
    assert("\n  "@ =~= seq!['\n', ' ', ' ']);
    let head = kind + " error at column "@ + nat_text(fault.col as nat) + ": "@ + fault.message
        + "\n  "@ + shown + "\n  "@;
    assert(caret_diagram(kind, fault, query) =~= head + (spaces(fault.col - 1) + "^"@));
}

/// An error names a keyword by its word in small letters, whatever capitals it was
/// written in, and a field by its own.
pub proof fn law_words_are_named_as_they_are_written(word: Seq<char>)
    ensures
        word_kind(word) is Ident ==> kind_text(word_kind(word)) == "field `"@ + word + seq!['`'],
        !(word_kind(word) is Ident) ==> kind_text(word_kind(word)) == seq!['`'] + lower_text(word)
            + seq!['`'],
{
    law_words_are_keywords_or_fields(word);
    lemma_keyword_names();
    let w = lower_text(word);
    let k = word_kind(word);
    if k is Ident {
        reveal_strlit("`");
        assert("`"@ =~= seq!['`']);
    } else {
        assert(kind_text(k) == seq!['`'] + w + seq!['`']);
    }
}

proof fn lemma_keyword_names()
    ensures
        "`select`"@ == seq!['`'] + "select"@ + seq!['`'],
        "`where`"@ == seq!['`'] + "where"@ + seq!['`'],
        "`group`"@ == seq!['`'] + "group"@ + seq!['`'],
        "`having`"@ == seq!['`'] + "having"@ + seq!['`'],
        "`order`"@ == seq!['`'] + "order"@ + seq!['`'],
        "`by`"@ == seq!['`'] + "by"@ + seq!['`'],
        "`asc`"@ == seq!['`'] + "asc"@ + seq!['`'],
        "`desc`"@ == seq!['`'] + "desc"@ + seq!['`'],
        "`limit`"@ == seq!['`'] + "limit"@ + seq!['`'],
        "`and`"@ == seq!['`'] + "and"@ + seq!['`'],
        "`or`"@ == seq!['`'] + "or"@ + seq!['`'],
        "`not`"@ == seq!['`'] + "not"@ + seq!['`'],
        "`like`"@ == seq!['`'] + "like"@ + seq!['`'],
        "`as`"@ == seq!['`'] + "as"@ + seq!['`'],
        "`null`"@ == seq!['`'] + "null"@ + seq!['`'],
        "`"@ + bool_text(true) + "`"@ == seq!['`'] + "true"@ + seq!['`'],
        "`"@ + bool_text(false) + "`"@ == seq!['`'] + "false"@ + seq!['`'],
{
    reveal_strlit("`select`");
    reveal_strlit("`where`");
    reveal_strlit("`group`");
    reveal_strlit("`having`");
    reveal_strlit("`order`");
    reveal_strlit("`by`");
    reveal_strlit("`asc`");
    reveal_strlit("`desc`");
    reveal_strlit("`limit`");
    reveal_strlit("`and`");
    reveal_strlit("`or`");
    reveal_strlit("`not`");
    reveal_strlit("`like`");
    reveal_strlit("`as`");
    reveal_strlit("`null`");
    reveal_strlit("`");
    reveal_strlit("select");
    reveal_strlit("where");
    reveal_strlit("group");
    reveal_strlit("having");
    reveal_strlit("order");
    reveal_strlit("by");
    reveal_strlit("asc");
    reveal_strlit("desc");
    reveal_strlit("limit");
    reveal_strlit("and");
    reveal_strlit("or");
    reveal_strlit("not");
    reveal_strlit("like");
    reveal_strlit("as");
    reveal_strlit("null");
    reveal_strlit("true");
    reveal_strlit("false");
}

} // verus!
