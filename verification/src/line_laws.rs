//! What holds of the lines of a log: a line of logfmt reads back as the pairs that it
//! writes, and values read as what they look like.

use crate::decimal::{
    digits_end, exponent_in, int_text, lemma_nat_text_reads, nat_text, number_in, sign_at,
};
use crate::json::json_document;
use crate::pattern_text_laws::{lemma_written_both, written_at};
use crate::record::{
    bare_end, bare_value, int_in, key_end, key_form, line_fields, logfmt_fields, logfmt_from,
    quoted_from, unescaped_value, Format,
};
use crate::text::{digit, skip_space, space, trimmed};
use crate::value::{with_field, Fields, Number, Tree};
use vstd::prelude::*;

verus! {

/// A part of a line of logfmt: a key on its own, a key with a bare value, or a key
/// with a value in quotes.
pub enum Entry {
    Flag(Seq<char>),
    Bare(Seq<char>, Seq<char>),
    Quoted(Seq<char>, Seq<char>),
}

/// The key of a part.
pub open spec fn entry_key(e: Entry) -> Seq<char> {
    match e {
        Entry::Flag(key) => key,
        Entry::Bare(key, _) => key,
        Entry::Quoted(key, _) => key,
    }
}

/// What a part says of its key: `true`, what the value looks like, or the text in
/// quotes.
pub open spec fn entry_value(e: Entry) -> Tree {
    match e {
        Entry::Flag(_) => Tree::Bool(true),
        Entry::Bare(_, v) => bare_value(v),
        Entry::Quoted(_, v) => Tree::Str(v),
    }
}

/// Whether a part can stand in a line.
pub open spec fn entry_stands(e: Entry) -> bool {
    key_form(entry_key(e)) && (match e {
        Entry::Bare(_, v) => (v.len() > 0 ==> v[0] != '"') && forall|i: int|
            0 <= i < v.len() ==> !space(#[trigger] v[i]),
        _ => true,
    })
}

/// A character as it stands between quotes.
pub open spec fn escaped_char(c: char) -> Seq<char> {
    if c == '\n' {
        seq!['\\', 'n']
    } else if c == '\t' {
        seq!['\\', 't']
    } else if c == '\r' {
        seq!['\\', 'r']
    } else if c == '"' || c == '\\' {
        seq!['\\', c]
    } else {
        seq![c]
    }
}

/// A text from `i` on as it stands between quotes.
pub open spec fn escaped_text(v: Seq<char>, i: int) -> Seq<char>
    decreases v.len() - i,
{
    if i < 0 || i >= v.len() {
        Seq::empty()
    } else {
        escaped_char(v[i]) + escaped_text(v, i + 1)
    }
}

/// A part as it is written.
pub open spec fn entry_text(e: Entry) -> Seq<char> {
    match e {
        Entry::Flag(key) => key,
        Entry::Bare(key, v) => key + (seq!['='] + v),
        Entry::Quoted(key, v) => key + (seq!['=', '"'] + (escaped_text(v, 0) + seq!['"'])),
    }
}

/// The parts from `i` on as a line, a space between each two.
pub open spec fn entries_text(entries: Seq<Entry>, i: int) -> Seq<char>
    decreases entries.len() - i,
{
    if i < 0 || i >= entries.len() {
        Seq::empty()
    } else if i + 1 == entries.len() {
        entry_text(entries[i])
    } else {
        entry_text(entries[i]) + (seq![' '] + entries_text(entries, i + 1))
    }
}

/// What the parts from `i` on say, added to fields from before: of two with one key the
/// later one counts.
pub open spec fn entries_fields(entries: Seq<Entry>, i: int, before: Fields) -> Fields
    decreases entries.len() - i,
{
    if i < 0 || i >= entries.len() {
        before
    } else {
        entries_fields(
            entries,
            i + 1,
            with_field(before, entry_key(entries[i]), entry_value(entries[i])),
        )
    }
}

/// Whether some part from `i` on has a value of its own.
pub open spec fn has_pair(entries: Seq<Entry>, i: int) -> bool {
    exists|k: int| i <= k < entries.len() && !(#[trigger] entries[k] is Flag)
}

proof fn lemma_key(s: Seq<char>, p: int, key: Seq<char>, i: nat)
    requires
        key_form(key),
        written_at(s, p, key),
        i <= key.len(),
        p + key.len() >= s.len() || s[p + key.len()] == '=' || space(s[p + key.len()]),
    ensures
        key_end(s, p + i) == p + key.len(),
        skip_space(s, p) == p,
        s.subrange(p, p + key.len()) == key,
    decreases key.len() - i,
{
    assert(s.subrange(p, p + key.len()) =~= key);
    assert(s[p + 0] == key[0]);
    if i < key.len() {
        assert(s[p + i] == key[i as int]);
        lemma_key(s, p, key, i + 1);
    }
}

proof fn lemma_bare(s: Seq<char>, i: int, e: int)
    requires
        0 <= i <= e <= s.len(),
        forall|j: int| i <= j < e ==> !space(#[trigger] s[j]),
        e == s.len() || space(s[e]),
    ensures
        bare_end(s, i) == e,
    decreases e - i,
{
    if i < e {
        lemma_bare(s, i + 1, e);
    }
}

proof fn lemma_escaped(s: Seq<char>, p: int, v: Seq<char>, i: nat, before: Seq<char>)
    requires
        i <= v.len(),
        written_at(s, p, escaped_text(v, i as int)),
    ensures
        quoted_from(s, p, before) == quoted_from(
            s,
            p + escaped_text(v, i as int).len(),
            before + v.skip(i as int),
        ),
    decreases v.len() - i,
{
    if i == v.len() {
        assert(before + v.skip(i as int) =~= before);
    } else {
        let c = v[i as int];
        let a = escaped_char(c);
        let b = escaped_text(v, i as int + 1);
        lemma_written_both(s, p, a, b);
        assert(s[p + 0] == a[0]);
        if a.len() == 2 {
            assert(s[p + 1] == a[1]);
            assert(before + unescaped_value(a[1]) =~= before.push(c));
        }
        lemma_escaped(s, p + a.len(), v, i + 1, before.push(c));
        assert(before.push(c) + v.skip(i as int + 1) =~= before + v.skip(i as int));
    }
}

proof fn lemma_entry_reads(s: Seq<char>, p: int, entry: Entry, before: Fields, pair: bool)
    requires
        entry_stands(entry),
        written_at(s, p, entry_text(entry)),
        p + entry_text(entry).len() == s.len() || space(s[p + entry_text(entry).len()]),
    ensures
        logfmt_from(s, p, before, pair) == logfmt_from(
            s,
            p + entry_text(entry).len(),
            with_field(before, entry_key(entry), entry_value(entry)),
            pair || !(entry is Flag),
        ),
{
    let key = entry_key(entry);
    let k = p + key.len();
    match entry {
        Entry::Flag(_) => {
            lemma_key(s, p, key, 0);
        },
        Entry::Bare(_, v) => {
            lemma_written_both(s, p, key, seq!['='] + v);
            lemma_written_both(s, k, seq!['='], v);
            assert(s[k + 0] == seq!['='][0]);
            lemma_key(s, p, key, 0);
            let e = k + 1 + v.len();
            assert forall|j: int| k + 1 <= j < e implies !space(#[trigger] s[j]) by {
                assert(s[k + 1 + (j - k - 1)] == v[j - k - 1]);
            }
            lemma_bare(s, k + 1, e);
            assert(s.subrange(k + 1, e) =~= v);
            if v.len() > 0 {
                assert(s[k + 1 + 0] == v[0]);
            } else if k + 1 < s.len() {
                assert(space(s[k + 1]));
            }
        },
        Entry::Quoted(_, v) => {
            let open = seq!['=', '"'];
            let text = escaped_text(v, 0);
            lemma_written_both(s, p, key, open + (text + seq!['"']));
            lemma_written_both(s, k, open, text + seq!['"']);
            lemma_written_both(s, k + 2, text, seq!['"']);
            assert(s[k + 0] == open[0] && s[k + 1] == open[1]);
            lemma_key(s, p, key, 0);
            lemma_escaped(s, k + 2, v, 0, Seq::empty());
            assert(Seq::<char>::empty() + v.skip(0) =~= v);
            assert(s[k + 2 + text.len() + 0] == seq!['"'][0]);
        },
    }
}

proof fn lemma_entries_read(
    s: Seq<char>,
    p: int,
    entries: Seq<Entry>,
    i: nat,
    before: Fields,
    pair: bool,
)
    requires
        i <= entries.len(),
        forall|k: int| 0 <= k < entries.len() ==> entry_stands(#[trigger] entries[k]),
        written_at(s, p, entries_text(entries, i as int)),
        p + entries_text(entries, i as int).len() == s.len(),
    ensures
        logfmt_from(s, p, before, pair) == (if pair || has_pair(entries, i as int) {
            Some(entries_fields(entries, i as int, before))
        } else {
            None
        }),
    decreases entries.len() - i,
{
    if i < entries.len() {
        let entry = entries[i as int];
        let now = with_field(before, entry_key(entry), entry_value(entry));
        let next = pair || !(entry is Flag);
        let a = entry_text(entry);
        if i + 1 < entries.len() {
            let b = entries_text(entries, i as int + 1);
            lemma_written_both(s, p, a, seq![' '] + b);
            lemma_written_both(s, p + a.len(), seq![' '], b);
            assert(s[p + a.len() + 0] == seq![' '][0]);
            lemma_entry_reads(s, p, entry, before, pair);
            let e = p + a.len();
            assert(skip_space(s, e) == skip_space(s, e + 1));
            assert(logfmt_from(s, e, now, next) == logfmt_from(s, e + 1, now, next));
            lemma_entries_read(s, e + 1, entries, i + 1, now, next);
        } else {
            lemma_entry_reads(s, p, entry, before, pair);
            assert(entries_text(entries, i as int + 1) =~= Seq::<char>::empty());
            lemma_entries_read(s, p + a.len(), entries, i + 1, now, next);
        }
        if !(entry is Flag) {
            assert(has_pair(entries, i as int));
        }
        if has_pair(entries, i as int + 1) {
            let k = choose|k: int| i + 1 <= k < entries.len() && !(#[trigger] entries[k] is Flag);
            assert(has_pair(entries, i as int));
        }
        if has_pair(entries, i as int) && entry is Flag {
            let k = choose|k: int| i <= k < entries.len() && !(#[trigger] entries[k] is Flag);
            assert(has_pair(entries, i as int + 1));
        }
    } else {
        assert(!has_pair(entries, i as int));
    }
}

/// A line of logfmt reads back as the pairs that it writes, in their order, keys on
/// their own being `true` and of two pairs with one key the later one counting. A line
/// of keys alone is no record.
pub proof fn law_a_line_of_pairs_reads_back(entries: Seq<Entry>)
    requires
        forall|k: int| 0 <= k < entries.len() ==> entry_stands(#[trigger] entries[k]),
    ensures
        logfmt_fields(entries_text(entries, 0)) == (if has_pair(entries, 0) {
            Some(entries_fields(entries, 0, Seq::empty()))
        } else {
            None
        }),
{
    let s = entries_text(entries, 0);
    assert(written_at(s, 0, s));
    lemma_entries_read(s, 0, entries, 0, Seq::empty(), false);
}

/// A backslash in a quoted value before a character that it does not change stays.
pub proof fn law_an_unknown_escape_keeps_its_backslash(
    key: Seq<char>,
    a: Seq<char>,
    c: char,
    b: Seq<char>,
)
    requires
        key_form(key),
        c != 'n' && c != 't' && c != 'r' && c != '"' && c != '\\',
    ensures
        logfmt_fields(
            key + (seq!['=', '"'] + (escaped_text(a, 0) + (seq!['\\', c] + (escaped_text(b, 0) + seq![
                '"',
            ])))),
        ) == Some(seq![(key, Tree::Str(a + seq!['\\', c] + b))]),
{
    let open = seq!['=', '"'];
    let x = escaped_text(a, 0);
    let y = escaped_text(b, 0);
    let mid = seq!['\\', c];
    let last = seq!['"'];
    let s = key + (open + (x + (mid + (y + last))));
    assert(written_at(s, 0, s));
    let k = key.len() as int;
    lemma_written_both(s, 0, key, open + (x + (mid + (y + last))));
    lemma_written_both(s, k, open, x + (mid + (y + last)));
    lemma_written_both(s, k + 2, x, mid + (y + last));
    let q = k + 2 + x.len();
    lemma_written_both(s, q, mid, y + last);
    lemma_written_both(s, q + 2, y, last);
    assert(s[k + 0] == open[0] && s[k + 1] == open[1]);
    assert(s[q + 0] == mid[0] && s[q + 1] == mid[1]);
    lemma_key(s, 0, key, 0);
    lemma_escaped(s, k + 2, a, 0, Seq::empty());
    assert(Seq::<char>::empty() + a.skip(0) =~= a);
    assert(unescaped_value(c) == mid);
    lemma_escaped(s, q + 2, b, 0, a + mid);
    assert(b.skip(0) =~= b);
    let e = q + 2 + y.len();
    assert(s[e + 0] == last[0]);
    let text = a + mid + b;
    assert(quoted_from(s, k + 2, Seq::empty()) == Some((text, e + 1)));
    assert(e + 1 == s.len());
    let fields = with_field(Seq::empty(), key, Tree::Str(text));
    assert(fields =~= seq![(key, Tree::Str(text))]);
    assert(logfmt_from(s, s.len() as int, fields, true) == Some(fields));
}

proof fn lemma_digits_to_end(s: Seq<char>, i: int)
    requires
        0 <= i <= s.len(),
        forall|j: int| i <= j < s.len() ==> digit(#[trigger] s[j]),
    ensures
        digits_end(s, i) == s.len(),
    decreases s.len() - i,
{
    if i < s.len() {
        lemma_digits_to_end(s, i + 1);
    }
}

/// A whole number in a line is that number, with or without a plus sign.
pub proof fn law_whole_numbers_read_as_such(n: i64)
    ensures
        bare_value(int_text(n as int)) == Tree::Number(Number::of_int(n)),
        n >= 0 ==> bare_value(seq!['+'] + nat_text(n as nat)) == Tree::Number(Number::of_int(n)),
{
    reveal_strlit("true");
    reveal_strlit("false");
    reveal_strlit("null");
    assert("true"@[0] == 't' && "false"@[0] == 'f' && "null"@[0] == 'n');
    let size: nat = if n < 0 {
        (-n) as nat
    } else {
        n as nat
    };
    let d = nat_text(size);
    lemma_nat_text_reads(size);
    assert(digit(d[0]));
    lemma_digits_to_end(d, 0);
    assert(d.subrange(0, d.len() as int) =~= d);
    let m = seq!['-'] + d;
    let p = seq!['+'] + d;
    assert(m[0] == '-' && p[0] == '+');
    assert forall|j: int| 1 <= j < m.len() implies digit(#[trigger] m[j]) by {
        assert(m[j] == d[j - 1]);
    }
    assert forall|j: int| 1 <= j < p.len() implies digit(#[trigger] p[j]) by {
        assert(p[j] == d[j - 1]);
    }
    lemma_digits_to_end(m, 1);
    lemma_digits_to_end(p, 1);
    assert(m.subrange(1, m.len() as int) =~= d);
    assert(p.subrange(1, p.len() as int) =~= d);
}

/// Words for truth and nothing, and numbers, are taken for what they are; any other
/// text stands for itself.
pub proof fn law_values_read_as_what_they_look_like(v: Seq<char>)
    ensures
        v == "true"@ ==> bare_value(v) == Tree::Bool(true),
        v == "false"@ ==> bare_value(v) == Tree::Bool(false),
        v == "null"@ || v.len() == 0 ==> bare_value(v) == Tree::Null,
        v != "true"@ && v != "false"@ && v != "null"@ && v.len() > 0 ==> (match number_in(v) {
            Some(x) => if x.finite() {
                bare_value(v) == (match int_in(v) {
                    Some(n) => Tree::Number(Number::of_int(n)),
                    None => Tree::Number(Number::Float(x)),
                })
            } else {
                int_in(v) is None ==> bare_value(v) == Tree::Str(v)
            },
            None => bare_value(v) == Tree::Str(v),
        }),
{
    reveal_strlit("true");
    reveal_strlit("false");
    reveal_strlit("null");
    assert("true"@.len() == 4 && "false"@.len() == 5 && "null"@.len() == 4);
    assert("true"@[0] == 't' && "null"@[0] == 'n');
    if int_in(v) is Some {
        let start: int = if sign_at(v, 0) {
            1
        } else {
            0
        };
        assert(digits_end(v, start) == v.len());
        assert(exponent_in(v, v.len() as int) == Some(0int));
        let digits = v.subrange(start, v.len() as int) + Seq::<char>::empty();
        assert(digits.len() > 0);
    }
}

/// A line that starts with a brace is read as JSON and any other as logfmt, white space
/// around it left aside; an empty line is no record.
pub proof fn law_a_brace_tells_json_from_logfmt(line: Seq<char>)
    ensures
        ({
            let s = trimmed(line);
            &&& s.len() == 0 ==> line_fields(line) is None
            &&& s.len() > 0 && s[0] == '{' ==> (match json_document(s) {
                Some(Tree::Object(fields)) => line_fields(line) == Some((fields, Format::Json)),
                _ => line_fields(line) is None,
            })
            &&& s.len() > 0 && s[0] != '{' ==> (match logfmt_fields(s) {
                Some(fields) => line_fields(line) == Some((fields, Format::Logfmt)),
                None => line_fields(line) is None,
            })
        }),
{
}

} // verus!
