//! Log lines: JSON Lines and logfmt, told apart line by line, and the paths into
//! what they hold.

use crate::ast::texts;
use crate::decimal::{digits_end, digits_value, number_in, read_number, skip_digits};
use crate::json::{json_document, json_text, parse_json, plain};
use crate::pattern::{captured, captures_of, first_match, pairs_view, Marks, Pattern, PatternView};
use crate::pattern_syntax::distinct_captures;
use crate::text::{
    chars_between, chars_of, digit, is_space, lemma_trimmed_as_is, skip_space, skip_spaces, space,
    string_between, string_of, trim_chars, trimmed,
};
use crate::timeutil::is_word;
use crate::value::{
    field, law_read_gives_back_write, sound_fields, sound_opt, trees_of, with_field, Fields, Number,
    Record, Tree, Value,
};
use vstd::prelude::*;

verus! {

/// Which parser produced a record.
#[derive(Clone, Copy, Debug, PartialEq, Eq, Structural)]
pub enum Format {
    Json,
    Logfmt,
}

/// The index that a segment of a path writes: digits, with or without a plus
/// sign.
pub open spec fn index_in(s: Seq<char>) -> Option<nat> {
    let start: int = if s.len() > 0 && s[0] == '+' { 1 } else { 0 };
    if start < s.len() && digits_end(s, start) == s.len() {
        Some(digits_value(s.subrange(start, s.len() as int)))
    } else {
        None
    }
}

/// What a path finds in a value, from its segment `i` on.
pub open spec fn follow(t: Tree, path: Seq<Seq<char>>, i: int) -> Option<Tree>
    decreases path.len() - i,
{
    if i < 0 || i >= path.len() {
        Some(t)
    } else {
        match t {
            Tree::Object(fields) => match field(fields, path[i]) {
                Some(x) => follow(x, path, i + 1),
                None => None,
            },
            Tree::Array(items) => match index_in(path[i]) {
                Some(n) => if n < items.len() {
                    follow(items[n as int], path, i + 1)
                } else {
                    None
                },
                None => None,
            },
            _ => None,
        }
    }
}

/// What a path finds in a record.
pub open spec fn found_at(record: Fields, path: Seq<Seq<char>>) -> Option<Tree> {
    if path.len() == 0 {
        None
    } else {
        match field(record, path[0]) {
            Some(x) => follow(x, path, 1),
            None => None,
        }
    }
}

/// Reads an index. One too large for any array reads as none.
fn read_index(s: &[char]) -> (r: Option<usize>)
    ensures
        match r {
            Some(n) => index_in(s@) == Some(n as nat),
            None => index_in(s@) matches Some(n) ==> n > usize::MAX,
        },
{
    let start: usize = if s.len() > 0 && s[0] == '+' {
        1
    } else {
        0
    };
    if start >= s.len() || skip_digits(s, start) != s.len() {
        return None;
    }
    let mut n: usize = 0;
    let mut i: usize = start;
    let ghost goal = digits_value(s@.subrange(start as int, s@.len() as int));
    assert(s@.subrange(start as int, start as int) =~= Seq::<char>::empty());
    while i < s.len()
        invariant
            start <= i <= s@.len(),
            start < s@.len(),
            digits_end(s@, start as int) == s@.len(),
            index_in(s@) == Some(digits_value(s@.subrange(start as int, s@.len() as int))),
            forall|j: int| start <= j < s@.len() ==> digit(s@[j]),
            n == digits_value(s@.subrange(start as int, i as int)),
        decreases s.len() - i,
    {
        let d: usize = (s[i] as u32 - '0' as u32) as usize;
        proof {
            assert(s@.subrange(start as int, i + 1).drop_last() =~= s@.subrange(
                start as int,
                i as int,
            ));
            lemma_digits_grow(s@, start as int, i + 1, s@.len() as int);
        }
        if n > usize::MAX / 10 {
            return None;
        }
        let tens: usize = n * 10;
        if d > usize::MAX - tens {
            return None;
        }
        n = tens + d;
        i += 1;
    }
    Some(n)
}

/// More digits write no smaller number.
proof fn lemma_digits_grow(s: Seq<char>, from: int, i: int, to: int)
    requires
        0 <= from <= i <= to <= s.len(),
    ensures
        digits_value(s.subrange(from, i)) <= digits_value(s.subrange(from, to)),
    decreases to - i,
{
    if i < to {
        lemma_digits_grow(s, from, i, to - 1);
        assert(s.subrange(from, to).drop_last() =~= s.subrange(from, to - 1));
    }
}

/// Follows a dotted path into a record. A segment that is not there is `None`,
/// which is not the same as a `null` that is there.
pub fn lookup<'a>(record: &'a Record, segments: &[String]) -> (r: Option<&'a Value>)
    ensures
        match r {
            Some(v) => found_at(record@, texts(segments@)) == Some(v@),
            None => found_at(record@, texts(segments@)) is None,
        },
{
    let ghost path = texts(segments@);
    if segments.len() == 0 {
        return None;
    }
    let mut current: &'a Value = match record.get(segments[0].as_str()) {
        Some(v) => v,
        None => {
            return None;
        },
    };
    let mut i: usize = 1;
    while i < segments.len()
        invariant
            1 <= i <= segments@.len(),
            path == texts(segments@),
            found_at(record@, path) == follow(current@, path, i as int),
        decreases segments.len() - i,
    {
        match current {
            Value::Object(inner) => {
                assert(current@->Object_0 =~= inner@);
                current =
                match inner.get(segments[i].as_str()) {
                    Some(v) => v,
                    None => {
                        return None;
                    },
                };
            },
            Value::Array(items) => {
                assert(current@->Array_0 =~= trees_of(items@));
                let index = match read_index(&chars_of(segments[i].as_str())) {
                    Some(n) => n,
                    None => {
                        assert(items@.len() == items.len());
                        return None;
                    },
                };
                if index >= items.len() {
                    return None;
                }
                current = &items[index];
            },
            _ => {
                return None;
            },
        }
        i += 1;
    }
    Some(current)
}

/// The whole number that a text writes, where it fits.
pub open spec fn int_in(s: Seq<char>) -> Option<i64> {
    let start: int = if s.len() > 0 && (s[0] == '+' || s[0] == '-') { 1 } else { 0 };
    if start < s.len() && digits_end(s, start) == s.len() {
        let size = digits_value(s.subrange(start, s.len() as int)) as int;
        let n = if s[0] == '-' { -size } else { size };
        if i64::MIN <= n <= i64::MAX {
            Some(n as i64)
        } else {
            None
        }
    } else {
        None
    }
}

/// What a bare value stands for: a boolean, nothing, a number, or its text.
pub open spec fn bare_value(s: Seq<char>) -> Tree {
    if s == "true"@ {
        Tree::Bool(true)
    } else if s == "false"@ {
        Tree::Bool(false)
    } else if s == "null"@ || s.len() == 0 {
        Tree::Null
    } else {
        match int_in(s) {
            Some(n) => Tree::Number(Number::of_int(n)),
            None => match number_in(s) {
                Some(x) => if x.finite() {
                    Tree::Number(Number::Float(x))
                } else {
                    Tree::Str(s)
                },
                None => Tree::Str(s),
            },
        }
    }
}

fn read_int(s: &[char]) -> (r: Option<i64>)
    ensures
        r == int_in(s@),
{
    let start: usize = if s.len() > 0 && (s[0] == '+' || s[0] == '-') {
        1
    } else {
        0
    };
    if start >= s.len() || skip_digits(s, start) != s.len() {
        return None;
    }
    let mut n: u64 = 0;
    let mut i: usize = start;
    assert(s@.subrange(start as int, start as int) =~= Seq::<char>::empty());
    while i < s.len()
        invariant
            start <= i <= s@.len(),
            start == (if s@.len() > 0 && (s@[0] == '+' || s@[0] == '-') { 1int } else { 0int }),
            start < s@.len(),
            digits_end(s@, start as int) == s@.len(),
            forall|j: int| start <= j < s@.len() ==> digit(s@[j]),
            n == digits_value(s@.subrange(start as int, i as int)),
            n <= 0x8000_0000_0000_0000,
        decreases s.len() - i,
    {
        let d: u64 = (s[i] as u32 - '0' as u32) as u64;
        proof {
            assert(s@.subrange(start as int, i + 1).drop_last() =~= s@.subrange(
                start as int,
                i as int,
            ));
            lemma_digits_grow(s@, start as int, i + 1, s@.len() as int);
        }
        let wide: u128 = n as u128 * 10 + d as u128;
        if wide > 0x8000_0000_0000_0000 {
            return None;
        }
        n = wide as u64;
        i += 1;
    }
    if s[0] == '-' {
        if n == 0x8000_0000_0000_0000 {
            Some(i64::MIN)
        } else {
            Some(-(n as i64))
        }
    } else if n == 0x8000_0000_0000_0000 {
        None
    } else {
        Some(n as i64)
    }
}

/// Gives a bare value its most specific type.
pub fn type_bare_value(raw: &[char]) -> (r: Value)
    ensures
        r@ == bare_value(raw@),
{
    if is_word(raw, "true") {
        return Value::Bool(true);
    }
    if is_word(raw, "false") {
        return Value::Bool(false);
    }
    if is_word(raw, "null") || raw.len() == 0 {
        return Value::Null;
    }
    match read_int(raw) {
        Some(n) => {
            return Value::Number(Number::from_i64(n));
        },
        None => {},
    }
    match read_number(raw) {
        Some(x) => {
            if x.is_finite() {
                return Value::Number(Number::Float(x));
            }
        },
        None => {},
    }
    Value::Str(string_of(raw))
}

/// Where a key ends that starts at `i`: at an equals sign or white space.
pub open spec fn key_end(s: Seq<char>, i: int) -> int
    decreases s.len() - i,
{
    if 0 <= i < s.len() && s[i] != '=' && !space(s[i]) {
        key_end(s, i + 1)
    } else {
        i
    }
}

/// Where a bare value ends that starts at `i`.
pub open spec fn bare_end(s: Seq<char>, i: int) -> int
    decreases s.len() - i,
{
    if 0 <= i < s.len() && !space(s[i]) {
        bare_end(s, i + 1)
    } else {
        i
    }
}

/// What an escaped character of a quoted value stands for. Of an escape that
/// means nothing the backslash stays.
pub open spec fn unescaped_value(c: char) -> Seq<char> {
    if c == 'n' {
        seq!['\n']
    } else if c == 't' {
        seq!['\t']
    } else if c == 'r' {
        seq!['\r']
    } else if c == '"' || c == '\\' {
        seq![c]
    } else {
        seq!['\\', c]
    }
}

/// The rest of a quoted value from `i` on, `text` of it having been read: the
/// whole text and where the value ends, or nothing where no quote closes it.
pub open spec fn quoted_from(s: Seq<char>, i: int, text: Seq<char>) -> Option<(Seq<char>, int)>
    decreases s.len() - i,
{
    if i < 0 || i >= s.len() {
        None
    } else if s[i] == '"' {
        Some((text, i + 1))
    } else if s[i] == '\\' && i + 1 < s.len() {
        quoted_from(s, i + 2, text + unescaped_value(s[i + 1]))
    } else {
        quoted_from(s, i + 1, text.push(s[i]))
    }
}

pub proof fn lemma_line_ends(s: Seq<char>, i: int)
    requires
        0 <= i <= s.len(),
    ensures
        i <= key_end(s, i) <= s.len(),
        i <= bare_end(s, i) <= s.len(),
        i <= skip_space(s, i) <= s.len(),
    decreases s.len() - i,
{
    if i < s.len() {
        lemma_line_ends(s, i + 1);
    }
}

pub proof fn lemma_quoted_end(s: Seq<char>, i: int, text: Seq<char>)
    requires
        0 <= i,
    ensures
        quoted_from(s, i, text) matches Some((_, e)) ==> i < e <= s.len(),
    decreases s.len() - i,
{
    if i < s.len() && s[i] != '"' {
        if s[i] == '\\' && i + 1 < s.len() {
            lemma_quoted_end(s, i + 2, text + unescaped_value(s[i + 1]));
        } else {
            lemma_quoted_end(s, i + 1, text.push(s[i]));
        }
    }
}

/// The fields of a logfmt line from `i` on, written behind those before. A key
/// without a value is `true`; a line without any value is none.
pub open spec fn logfmt_from(s: Seq<char>, i: int, before: Fields, pair: bool) -> Option<Fields>
    decreases s.len() - i,
        when 0 <= i <= s.len()
{
    let j = skip_space(s, i);
    let k = key_end(s, j);
    proof {
        lemma_line_ends(s, i);
        lemma_line_ends(s, j);
        if k < s.len() {
            lemma_line_ends(s, k + 1);
        }
        lemma_quoted_end(s, k + 2, Seq::empty());
    }
    if j >= s.len() {
        if pair {
            Some(before)
        } else {
            None
        }
    } else if k == j {
        logfmt_from(s, j + 1, before, pair)
    } else if k >= s.len() || s[k] != '=' {
        logfmt_from(s, k, with_field(before, s.subrange(j, k), Tree::Bool(true)), pair)
    } else if k + 1 < s.len() && s[k + 1] == '"' {
        match quoted_from(s, k + 2, Seq::empty()) {
            None => None,
            Some((text, e)) => logfmt_from(
                s,
                e,
                with_field(before, s.subrange(j, k), Tree::Str(text)),
                true,
            ),
        }
    } else {
        let e = bare_end(s, k + 1);
        logfmt_from(
            s,
            e,
            with_field(before, s.subrange(j, k), bare_value(s.subrange(k + 1, e))),
            true,
        )
    }
}

/// The fields of a logfmt line.
pub open spec fn logfmt_fields(s: Seq<char>) -> Option<Fields> {
    logfmt_from(s, 0, Seq::empty(), false)
}

/// A line without an equals sign is prose, no record of logfmt, however many
/// words it has.
pub proof fn law_prose_is_no_record(s: Seq<char>)
    requires
        forall|i: int| 0 <= i < s.len() ==> (#[trigger] s[i]) != '=',
    ensures
        logfmt_fields(s) is None,
{
    lemma_prose(s, 0, Seq::empty());
}

proof fn lemma_prose(s: Seq<char>, i: int, before: Fields)
    requires
        0 <= i <= s.len(),
        forall|i: int| 0 <= i < s.len() ==> (#[trigger] s[i]) != '=',
    ensures
        logfmt_from(s, i, before, false) is None,
    decreases s.len() - i,
{
    let j = skip_space(s, i);
    let k = key_end(s, j);
    lemma_line_ends(s, i);
    lemma_line_ends(s, j);
    if j < s.len() {
        if k == j {
            lemma_prose(s, j + 1, before);
        } else {
            lemma_prose(s, k, with_field(before, s.subrange(j, k), Tree::Bool(true)));
        }
    }
}

/// A text as it stands between the quotes of a logfmt value.
pub open spec fn quoted_form(v: Seq<char>) -> Seq<char>
    decreases v.len(),
{
    if v.len() == 0 {
        Seq::empty()
    } else if v[0] == '"' || v[0] == '\\' {
        seq!['\\', v[0]] + quoted_form(v.skip(1))
    } else {
        seq![v[0]] + quoted_form(v.skip(1))
    }
}

/// Whether a text can be a key of logfmt.
pub open spec fn key_form(key: Seq<char>) -> bool {
    key.len() > 0 && forall|i: int| 0 <= i < key.len() ==> (#[trigger] key[i]) != '=' && !space(key[i])
}

/// A quoted value is the text between the quotes and stays a string, whatever
/// that looks like.
pub proof fn law_a_quoted_value_stays_a_string(key: Seq<char>, v: Seq<char>)
    requires
        key_form(key),
    ensures
        logfmt_fields(key + seq!['=', '"'] + quoted_form(v) + seq!['"']) == Some(
            seq![(key, Tree::Str(v))],
        ),
{
    let s = key + seq!['=', '"'] + quoted_form(v) + seq!['"'];
    let k = key.len() as int;
    assert(s.take(k) =~= key);
    lemma_key_read(s, key);
    assert(s.subrange(k + 2, s.len() as int) =~= quoted_form(v) + seq!['"']);
    lemma_quoted_reads(s, k + 2, Seq::empty(), v);
    assert(Seq::<char>::empty() + v =~= v);
    let fields = with_field(Seq::empty(), key, Tree::Str(v));
    assert(fields =~= seq![(key, Tree::Str(v))]);
    assert(logfmt_from(s, s.len() as int, fields, true) == Some(fields));
}

/// A bare value is typed by what it looks like.
pub proof fn law_a_bare_value_is_typed(key: Seq<char>, v: Seq<char>)
    requires
        key_form(key),
        forall|i: int| 0 <= i < v.len() ==> !space(#[trigger] v[i]),
        v.len() > 0 ==> v[0] != '"',
    ensures
        logfmt_fields(key + seq!['='] + v) == Some(seq![(key, bare_value(v))]),
{
    let s = key + seq!['='] + v;
    let k = key.len() as int;
    assert(s.take(k) =~= key);
    lemma_key_read(s, key);
    assert forall|i: int| k < i < s.len() implies !space(#[trigger] s[i]) by {
        assert(s[i] == v[i - k - 1]);
    }
    lemma_bare_read(s, k + 1);
    assert(s.subrange(k + 1, s.len() as int) =~= v);
    let fields = with_field(Seq::empty(), key, bare_value(v));
    assert(fields =~= seq![(key, bare_value(v))]);
    assert(logfmt_from(s, s.len() as int, fields, true) == Some(fields));
}

proof fn lemma_key_read(s: Seq<char>, key: Seq<char>)
    requires
        key_form(key),
        key.len() < s.len(),
        s.take(key.len() as int) == key,
        s[key.len() as int] == '=',
    ensures
        skip_space(s, 0) == 0,
        key_end(s, 0) == key.len(),
        s.subrange(0, key.len() as int) == key,
{
    assert forall|i: int| 0 <= i < key.len() implies s[i] != '=' && !space(#[trigger] s[i]) by {
        assert(s.take(key.len() as int)[i] == key[i]);
    }
    lemma_key_runs(s, 0, key.len() as int);
    assert(s.subrange(0, key.len() as int) =~= s.take(key.len() as int));
}

proof fn lemma_key_runs(s: Seq<char>, i: int, k: int)
    requires
        0 <= i <= k < s.len(),
        forall|j: int| 0 <= j < k ==> s[j] != '=' && !space(#[trigger] s[j]),
        s[k] == '=',
    ensures
        key_end(s, i) == k,
    decreases k - i,
{
    if i < k {
        lemma_key_runs(s, i + 1, k);
    }
}

proof fn lemma_bare_read(s: Seq<char>, i: int)
    requires
        0 <= i <= s.len(),
        forall|j: int| i <= j < s.len() ==> !space(#[trigger] s[j]),
    ensures
        bare_end(s, i) == s.len(),
    decreases s.len() - i,
{
    if i < s.len() {
        lemma_bare_read(s, i + 1);
    }
}

proof fn lemma_quoted_reads(s: Seq<char>, i: int, text: Seq<char>, v: Seq<char>)
    requires
        0 <= i <= s.len(),
        s.subrange(i, s.len() as int) == quoted_form(v) + seq!['"'],
    ensures
        quoted_from(s, i, text) == Some((text + v, s.len() as int)),
    decreases v.len(),
{
    let part = s.subrange(i, s.len() as int);
    assert(part.len() == quoted_form(v).len() + 1);
    assert(part.len() > 0 && part[0] == s[i]);
    if v.len() == 0 {
        assert(quoted_form(v) + seq!['"'] =~= seq!['"']);
        assert(text + v =~= text);
    } else {
        let step: int = if v[0] == '"' || v[0] == '\\' {
            2
        } else {
            1
        };
        assert(part.skip(step) =~= quoted_form(v.skip(1)) + seq!['"']);
        assert(s.subrange(i + step, s.len() as int) =~= part.skip(step));
        if step == 2 {
            assert(s[i + 1] == part[1]);
            assert(text + unescaped_value(v[0]) =~= text.push(v[0]));
        }
        lemma_quoted_reads(s, i + step, text.push(v[0]), v.skip(1));
        assert(text.push(v[0]) + v.skip(1) =~= text + v);
    }
}

fn find_key_end(s: &[char], i: usize) -> (r: usize)
    requires
        i <= s@.len(),
    ensures
        r == key_end(s@, i as int),
        i <= r <= s@.len(),
{
    let mut j: usize = i;
    while j < s.len() && s[j] != '=' && !is_space(s[j])
        invariant
            i <= j <= s@.len(),
            key_end(s@, i as int) == key_end(s@, j as int),
        decreases s.len() - j,
    {
        j += 1;
    }
    j
}

fn find_bare_end(s: &[char], i: usize) -> (r: usize)
    requires
        i <= s@.len(),
    ensures
        r == bare_end(s@, i as int),
        i <= r <= s@.len(),
{
    let mut j: usize = i;
    while j < s.len() && !is_space(s[j])
        invariant
            i <= j <= s@.len(),
            bare_end(s@, i as int) == bare_end(s@, j as int),
        decreases s.len() - j,
    {
        j += 1;
    }
    j
}

fn read_quoted(s: &[char], i: usize) -> (r: Option<(Vec<char>, usize)>)
    requires
        i <= s@.len(),
    ensures
        match r {
            Some((text, e)) => quoted_from(s@, i as int, Seq::empty()) == Some((text@, e as int)) && i
                < e <= s@.len(),
            None => quoted_from(s@, i as int, Seq::empty()) is None,
        },
{
    let mut text: Vec<char> = Vec::new();
    let mut j: usize = i;
    let ghost goal = quoted_from(s@, i as int, Seq::empty());
    assert(text@ =~= Seq::<char>::empty());
    while j < s.len()
        invariant
            i <= j <= s@.len(),
            goal == quoted_from(s@, i as int, Seq::empty()),
            goal == quoted_from(s@, j as int, text@),
        decreases s.len() - j,
    {
        let c = s[j];
        if c == '"' {
            return Some((text, j + 1));
        }
        if c == '\\' && j + 1 < s.len() {
            let x = s[j + 1];
            let ghost before = text@;
            if x == 'n' {
                text.push('\n');
            } else if x == 't' {
                text.push('\t');
            } else if x == 'r' {
                text.push('\r');
            } else if x == '"' || x == '\\' {
                text.push(x);
            } else {
                text.push('\\');
                text.push(x);
            }
            assert(text@ =~= before + unescaped_value(x));
            j += 2;
        } else {
            text.push(c);
            j += 1;
        }
    }
    None
}

/// Reads a logfmt line: `key=value` pairs between white space. A later value of
/// a key replaces an earlier one.
pub fn parse_logfmt(line: &str) -> (r: Option<Record>)
    ensures
        match r {
            Some(record) => logfmt_fields(line@) == Some(record@),
            None => logfmt_fields(line@) is None,
        },
        r matches Some(record) ==> sound_fields(record@),
{
    let s = chars_of(line);
    let mut i: usize = 0;
    let mut out = Record::new();
    let mut pair = false;
    let ghost goal = logfmt_fields(s@);
    loop
        invariant
            i <= s@.len(),
            s@ == line@,
            goal == logfmt_fields(s@),
            goal == logfmt_from(s@, i as int, out@, pair),
            sound_fields(out@),
        decreases s@.len() - i,
    {
        proof {
            lemma_line_ends(s@, i as int);
        }
        let j: usize = skip_spaces(&s, i);
        if j >= s.len() {
            return if pair {
                Some(out)
            } else {
                None
            };
        }
        let k: usize = find_key_end(&s, j);
        if k == j {
            i = j + 1;
        } else {
            let key = string_between(&s, j, k);
            if k >= s.len() || s[k] != '=' {
                out.insert(key, Value::Bool(true));
                i = k;
            } else if k + 1 < s.len() && s[k + 1] == '"' {
                match read_quoted(&s, k + 2) {
                    None => {
                        return None;
                    },
                    Some((text, e)) => {
                        let value = Value::Str(string_of(&text));
                        out.insert(key, value);
                        pair = true;
                        i = e;
                    },
                }
            } else {
                let e: usize = find_bare_end(&s, k + 1);
                let value = type_bare_value(&chars_between(&s, k + 1, e));
                out.insert(key, value);
                pair = true;
                i = e;
            }
        }
    }
}

/// What a line holds and how it was read. A line that starts with a brace is a
/// JSON object or nothing; any other is logfmt or nothing.
pub open spec fn line_fields(line: Seq<char>) -> Option<(Fields, Format)> {
    let s = trimmed(line);
    if s.len() == 0 {
        None
    } else if s[0] == '{' {
        match object_fields(json_document(s)) {
            Some(fields) => Some((fields, Format::Json)),
            None => None,
        }
    } else {
        match logfmt_fields(s) {
            Some(fields) => Some((fields, Format::Logfmt)),
            None => None,
        }
    }
}

/// The fields of a document that is an object.
pub open spec fn object_fields(document: Option<Tree>) -> Option<Fields> {
    match document {
        Some(Tree::Object(fields)) => Some(fields),
        _ => None,
    }
}

/// The record of a document that is an object.
pub fn object_record(document: Option<Value>) -> (r: Option<Record>)
    ensures
        match r {
            Some(record) => object_fields(crate::value::tree_opt(document)) == Some(record@),
            None => object_fields(crate::value::tree_opt(document)) is None,
        },
        sound_opt(crate::value::tree_opt(document)) ==> (r matches Some(record) ==> sound_fields(
            record@,
        )),
{
    match document {
        Some(Value::Object(record)) => {
            assert(Value::Object(record)@->Object_0 =~= record@);
            Some(record)
        },
        _ => None,
    }
}

/// Reads one log line, telling JSON from logfmt by its first character.
pub fn parse_line(line: &str) -> (r: Option<(Record, Format)>)
    ensures
        match r {
            Some((record, format)) => line_fields(line@) == Some((record@, format)),
            None => line_fields(line@) is None,
        },
        r matches Some((record, _)) ==> sound_fields(record@),
        // A row that was written as JSON reads back as the row.
        forall|row: Fields|
            plain(Tree::Object(row), 127) && line@ == #[trigger] json_text(Tree::Object(row)) ==> (
            r matches Some((record, format)) && record@ == row && format == Format::Json),
{
    proof {
        assert forall|row: Fields| line@ == #[trigger] json_text(Tree::Object(row)) implies trimmed(
            line@,
        ) == line@ && line@[0] == '{' by {
            lemma_trimmed_as_is(line@);
        }
    }
    let chars = trim_chars(&chars_of(line));
    if chars.len() == 0 {
        return None;
    }
    let text = string_of(&chars);
    if chars[0] == '{' {
        let document = parse_json(text.as_str());
        match object_record(document) {
            Some(record) => Some((record, Format::Json)),
            None => None,
        }
    } else {
        match parse_logfmt(text.as_str()) {
            Some(record) => Some((record, Format::Logfmt)),
            None => None,
        }
    }
}

/// The fields of the first `n` captures, each value typed as a bare logfmt value
/// is.
pub open spec fn capture_fields(pairs: Seq<(Seq<char>, Seq<char>)>, n: nat) -> Fields
    decreases n,
{
    if n == 0 || n > pairs.len() {
        Fields::empty()
    } else {
        with_field(
            capture_fields(pairs, (n - 1) as nat),
            pairs[n - 1].0,
            bare_value(pairs[n - 1].1),
        )
    }
}

/// What a pattern reads out of a line: nothing where it does not match.
pub open spec fn pattern_fields(p: PatternView, line: Seq<char>) -> Option<Fields> {
    match captures_of(p, line) {
        Some(pairs) => Some(capture_fields(pairs, pairs.len())),
        None => None,
    }
}

/// Each named group of a pattern becomes a field under its name, typed as a bare
/// value of logfmt is; one that took no part in the match is no field.
pub proof fn law_captures_become_fields(p: PatternView, line: Seq<char>, g: int)
    requires
        distinct_captures(p.names),
        0 <= g < p.names.len(),
        p.names[g] is Some,
        pattern_fields(p, line) is Some,
    ensures
        field(pattern_fields(p, line)->0, p.names[g]->0) == (match first_match(
            p.root,
            p.names.len(),
            line,
            0,
        )->0[g] {
            Some((from, to)) => Some(bare_value(line.subrange(from, to))),
            None => None,
        }),
{
    let marks = first_match(p.root, p.names.len(), line, 0)->0;
    lemma_capture_field(p.names, marks, line, p.names.len(), g);
}

proof fn lemma_capture_field(
    names: Seq<Option<Seq<char>>>,
    marks: Marks,
    line: Seq<char>,
    n: nat,
    g: int,
)
    requires
        distinct_captures(names),
        0 <= g < names.len(),
        names[g] is Some,
        n <= names.len(),
    ensures
        ({
            let pairs = captured(names, marks, line, n);
            field(capture_fields(pairs, pairs.len()), names[g]->0) == (match marks[g] {
                Some((from, to)) => if g < n {
                    Some(bare_value(line.subrange(from, to)))
                } else {
                    None
                },
                None => None,
            })
        }),
    decreases n,
{
    if n > 0 {
        let before = captured(names, marks, line, (n - 1) as nat);
        lemma_capture_field(names, marks, line, (n - 1) as nat, g);
        assert(g < n - 1 ==> names[g] != names[n - 1]);
        assert(n - 1 < g ==> names[n - 1] is Some ==> names[n - 1] != names[g]);
        match (names[n - 1], marks[n - 1]) {
            (Some(name), Some((from, to))) => {
                let pair = (name, line.subrange(from, to));
                lemma_capture_prefix(before, before.push(pair), before.len());
                law_read_gives_back_write(
                    capture_fields(before, before.len()),
                    name,
                    bare_value(pair.1),
                    names[g]->0,
                );
            },
            _ => {},
        }
    }
}

proof fn lemma_capture_prefix(
    a: Seq<(Seq<char>, Seq<char>)>,
    b: Seq<(Seq<char>, Seq<char>)>,
    n: nat,
)
    requires
        n <= a.len() <= b.len(),
        forall|i: int| 0 <= i < n ==> a[i] == b[i],
    ensures
        capture_fields(a, n) == capture_fields(b, n),
    decreases n,
{
    if n > 0 {
        lemma_capture_prefix(a, b, (n - 1) as nat);
    }
}

/// Reads a line of plain text with a pattern: each named capture becomes a
/// field. A line that the pattern does not match is no record.
pub fn parse_with_pattern(line: &str, pattern: &Pattern) -> (r: Option<Record>)
    ensures
        match r {
            Some(record) => pattern_fields(pattern@, line@) == Some(record@),
            None => pattern_fields(pattern@, line@) is None,
        },
        r matches Some(record) ==> sound_fields(record@),
{
    let caps = match pattern.captures(line) {
        Some(caps) => caps,
        None => {
            return None;
        },
    };
    let mut out = Record::new();
    let mut i: usize = 0;
    while i < caps.len()
        invariant
            i <= caps@.len(),
            out@ == capture_fields(pairs_view(caps@), i as nat),
            sound_fields(out@),
        decreases caps.len() - i,
    {
        let value = type_bare_value(&chars_of(caps[i].1.as_str()));
        out.insert(caps[i].0.clone(), value);
        i += 1;
    }
    Some(out)
}

} // verus!
