//! JSON text, read and written.

use crate::decimal::{
    int_text, json_number_text, lemma_nat_text_reads, nat_text, pointed, push_int, push_json_number,
    push_nat, push_part, shortest, zeros,
};
use crate::num::Num;
use crate::text::{chars_of, digit, string_of};
use crate::value::{
    distinct_names, fields_of, sound, sound_number, sound_opt, tree_opt, trees_of, Number, Record,
    Tree, Value,
};
use serde_json::Value as Document;
use vstd::prelude::*;

verus! {

/// A JSON document as `serde_json` holds it.
#[verifier::external_type_specification]
#[verifier::external_body]
pub struct ExJsonValue(Document);

/// What a document holds.
pub uninterp spec fn document_tree(document: Document) -> Tree;

/// What `serde_json::from_str` reads from a text, where it reads a document.
pub uninterp spec fn json_document(text: Seq<char>) -> Option<Tree>;

/// Whether the first `n` values of an array can be written and read back.
pub open spec fn plain_items(items: Seq<Tree>, n: nat, depth: nat) -> bool
    decreases items, n,
{
    if n == 0 || n > items.len() {
        true
    } else {
        plain_items(items, (n - 1) as nat, depth) && plain(items[n - 1], depth)
    }
}

/// Whether the first `n` values of an object can be written and read back.
pub open spec fn plain_fields(fields: Seq<(Seq<char>, Tree)>, n: nat, depth: nat) -> bool
    decreases fields, n,
{
    if n == 0 || n > fields.len() {
        true
    } else {
        plain_fields(fields, (n - 1) as nat, depth) && plain(fields[n - 1].1, depth)
    }
}

/// Whether a value can be written as JSON and read back as it was: it holds no
/// floating number, no name twice in an object, and arrays and objects at most
/// `depth` deep.
pub open spec fn plain(t: Tree, depth: nat) -> bool
    decreases t, 0nat,
{
    match t {
        Tree::Number(Number::Float(_)) => false,
        Tree::Number(Number::NegInt(i)) => i < 0,
        Tree::Array(items) => depth > 0 && plain_items(items, items.len(), (depth - 1) as nat),
        Tree::Object(fields) => depth > 0 && distinct_names(fields) && plain_fields(
            fields,
            fields.len(),
            (depth - 1) as nat,
        ),
        _ => true,
    }
}

/// Whether a text that was written of a plain value is read as that value.
pub open spec fn gives_back(text: Seq<char>, read: Option<Tree>) -> bool {
    forall|t: Tree| plain(t, 127) && text == #[trigger] json_text(t) ==> read == Some(t)
}

/// `serde_json::from_str`: reads the whole text as one document, a function of
/// the text alone. What it refuses, it refuses with an error, here `None`. The
/// JSON text of a value without floating numbers, at most 127 arrays and objects
/// deep, is read as that value. What floating numbers are read as is not stated:
/// of a long row of digits the reader gives a number near by.
#[verifier::external_body]
fn read_document(text: &str) -> (r: Option<Document>)
    ensures
        r is Some == json_document(text@) is Some,
        r matches Some(v) ==> Some(document_tree(v)) == json_document(text@),
        gives_back(text@, match r {
            Some(v) => Some(document_tree(v)),
            None => None,
        }),
{
    serde_json::from_str::<Document>(text).ok()
}

/// A document with its outermost variant told apart.
pub enum Opened<'a> {
    Null,
    Bool(bool),
    Number(Number),
    Text(&'a String),
    Items(&'a Vec<Document>),
    Members(Vec<(&'a String, &'a Document)>),
}

/// What an opened document holds, by what the documents within it hold.
pub open spec fn opened_tree(o: Opened) -> Tree {
    match o {
        Opened::Null => Tree::Null,
        Opened::Bool(b) => Tree::Bool(b),
        Opened::Number(n) => Tree::Number(n),
        Opened::Text(s) => Tree::Str(s@),
        Opened::Items(items) => Tree::Array(
            Seq::new(items@.len(), |i: int| document_tree(items@[i])),
        ),
        Opened::Members(members) => Tree::Object(
            Seq::new(members@.len(), |i: int| (members@[i].0@, document_tree(*members@[i].1))),
        ),
    }
}

/// Takes a `serde_json::Value` apart, one level deep: a number by
/// `Number::as_u64`, `as_i64` and `as_f64` into the kind it is, the members of an
/// object in their order. A `Number` that is no `u64` but an `i64` is below zero,
/// one that is neither is finite, and an object's `Map` holds no name twice.
#[verifier::external_body]
fn open_document<'a>(v: &'a Document) -> (r: Opened<'a>)
    ensures
        document_tree(*v) == opened_tree(r),
        opened_tree(r) matches Tree::Object(fields) ==> distinct_names(fields),
        opened_tree(r) matches Tree::Number(n) ==> sound_number(n),
{
    match v {
        Document::Null => Opened::Null,
        Document::Bool(b) => Opened::Bool(*b),
        Document::Number(n) => Opened::Number(match (n.as_u64(), n.as_i64()) {
            (Some(u), _) => Number::PosInt(u),
            (None, Some(i)) => Number::NegInt(i),
            _ => Number::Float(Num { bits: n.as_f64().map_or(0, |x| x.to_bits()) }),
        }),
        Document::String(s) => Opened::Text(s),
        Document::Array(items) => Opened::Items(items),
        Document::Object(m) => Opened::Members(m.iter().collect()),
    }
}

/// The value of a document.
fn lift(v: &Document) -> (r: Value)
    ensures
        r@ == document_tree(*v),
        sound(r@),
    decreases document_tree(*v),
{
    let opened = open_document(v);
    let ghost whole = opened_tree(opened);
    match opened {
        Opened::Null => Value::Null,
        Opened::Bool(b) => Value::Bool(b),
        Opened::Number(n) => Value::Number(n),
        Opened::Text(s) => Value::Str(s.clone()),
        Opened::Items(items) => {
            let mut out: Vec<Value> = Vec::new();
            let mut i: usize = 0;
            while i < items.len()
                invariant
                    i <= items@.len(),
                    whole == document_tree(*v),
                    whole == Tree::Array(
                        Seq::new(items@.len(), |i: int| document_tree(items@[i])),
                    ),
                    out@.len() == i,
                    forall|j: int|
                        0 <= j < i ==> (#[trigger] out@[j])@ == document_tree(items@[j]) && sound(
                            out@[j]@,
                        ),
                decreases items.len() - i,
            {
                assert(whole->Array_0[i as int] == document_tree(items@[i as int]));
                assert(decreases_to!(whole => whole->Array_0[i as int]));
                out.push(lift(&items[i]));
                i += 1;
            }
            assert(trees_of(out@) =~= whole->Array_0);
            let r = Value::Array(out);
            assert(r@->Array_0 =~= trees_of(out@));
            assert forall|j: int| 0 <= j < r@->Array_0.len() implies sound(
                #[trigger] r@->Array_0[j],
            ) by {
                assert(sound(out@[j]@));
            }
            r
        },
        Opened::Members(members) => {
            let mut entries: Vec<(String, Value)> = Vec::new();
            let mut i: usize = 0;
            while i < members.len()
                invariant
                    i <= members@.len(),
                    whole == document_tree(*v),
                    whole == Tree::Object(
                        Seq::new(
                            members@.len(),
                            |i: int| (members@[i].0@, document_tree(*members@[i].1)),
                        ),
                    ),
                    entries@.len() == i,
                    forall|j: int|
                        0 <= j < i ==> (#[trigger] entries@[j]).0@ == members@[j].0@
                            && entries@[j].1@ == document_tree(*members@[j].1) && sound(
                            entries@[j].1@,
                        ),
                decreases members.len() - i,
            {
                assert(whole->Object_0[i as int].1 == document_tree(*members@[i as int].1));
                assert(decreases_to!(whole => whole->Object_0[i as int].1));
                entries.push((members[i].0.clone(), lift(members[i].1)));
                i += 1;
            }
            assert(fields_of(entries@) =~= whole->Object_0);
            let r = Value::Object(Record { entries });
            assert(r@->Object_0 =~= fields_of(entries@));
            assert forall|j: int| 0 <= j < r@->Object_0.len() implies sound(
                (#[trigger] r@->Object_0[j]).1,
            ) by {
                assert(sound(entries@[j].1@));
            }
            r
        },
    }
}

/// The value that a JSON text writes.
pub fn parse_json(text: &str) -> (r: Option<Value>)
    ensures
        match r {
            Some(v) => json_document(text@) == Some(v@),
            None => json_document(text@) is None,
        },
        sound_opt(tree_opt(r)),
        gives_back(text@, tree_opt(r)),
{
    match read_document(text) {
        Some(document) => Some(lift(&document)),
        None => None,
    }
}

/// A digit of base sixteen.
pub open spec fn hex_char(d: int) -> char {
    if d < 10 {
        (('0' as int + d) as u8) as char
    } else {
        (('a' as int + d - 10) as u8) as char
    }
}

/// A character as it stands in a JSON string.
pub open spec fn escaped_char(c: char) -> Seq<char> {
    if c == '"' {
        seq!['\\', '"']
    } else if c == '\\' {
        seq!['\\', '\\']
    } else if c == '\u{8}' {
        seq!['\\', 'b']
    } else if c == '\u{c}' {
        seq!['\\', 'f']
    } else if c == '\n' {
        seq!['\\', 'n']
    } else if c == '\r' {
        seq!['\\', 'r']
    } else if c == '\t' {
        seq!['\\', 't']
    } else if ' ' > c {
        seq!['\\', 'u', '0', '0', hex_char(c as int / 16), hex_char(c as int % 16)]
    } else {
        seq![c]
    }
}

/// A text as it stands between the quotes of a JSON string.
pub open spec fn escaped(s: Seq<char>) -> Seq<char>
    decreases s.len(),
{
    if s.len() == 0 {
        Seq::empty()
    } else {
        escaped(s.drop_last()) + escaped_char(s.last())
    }
}

/// A text as a JSON string.
pub open spec fn quoted(s: Seq<char>) -> Seq<char> {
    seq!['"'] + escaped(s) + seq!['"']
}

/// `serde_json::to_string` on a string: the text in double quotes, with the
/// quote, the backslash and the control characters below U+0020 escaped and
/// everything else as it is. On a string it does not fail.
#[verifier::external_body]
fn quote(s: &str) -> (r: String)
    ensures
        r@ == quoted(s@),
{
    serde_json::to_string(s).unwrap_or_default()
}

/// The first `n` values, as they stand in a JSON array.
pub open spec fn items_json(items: Seq<Tree>, n: nat) -> Seq<char>
    decreases items, n,
{
    if n == 0 || n > items.len() {
        Seq::empty()
    } else {
        items_json(items, (n - 1) as nat) + (if n > 1 {
            seq![',']
        } else {
            Seq::empty()
        }) + json_text(items[n - 1])
    }
}

/// The first `n` fields, as they stand in a JSON object.
pub open spec fn fields_json(fields: Seq<(Seq<char>, Tree)>, n: nat) -> Seq<char>
    decreases fields, n,
{
    if n == 0 || n > fields.len() {
        Seq::empty()
    } else {
        fields_json(fields, (n - 1) as nat) + (if n > 1 {
            seq![',']
        } else {
            Seq::empty()
        }) + quoted(fields[n - 1].0) + seq![':'] + json_text(fields[n - 1].1)
    }
}

/// The text of a number in JSON.
pub open spec fn number_text(n: Number) -> Seq<char> {
    match n {
        Number::PosInt(u) => nat_text(u as nat),
        Number::NegInt(i) => int_text(i as int),
        Number::Float(x) => json_number_text(x),
    }
}

/// The text of a boolean.
pub open spec fn bool_text(b: bool) -> Seq<char> {
    if b {
        seq!['t', 'r', 'u', 'e']
    } else {
        seq!['f', 'a', 'l', 's', 'e']
    }
}

/// A value as compact JSON.
pub open spec fn json_text(t: Tree) -> Seq<char>
    decreases t, 0nat,
{
    match t {
        Tree::Null => seq!['n', 'u', 'l', 'l'],
        Tree::Bool(b) => bool_text(b),
        Tree::Number(n) => number_text(n),
        Tree::Str(s) => quoted(s),
        Tree::Array(items) => seq!['['] + items_json(items, items.len()) + seq![']'],
        Tree::Object(fields) => seq!['{'] + fields_json(fields, fields.len()) + seq!['}'],
    }
}

/// Puts a string behind what a text holds.
pub fn push_text(out: &mut Vec<char>, s: &str)
    ensures
        final(out)@ == old(out)@ + s@,
{
    let chars = chars_of(s);
    push_part(out, &chars, 0, chars.len());
    assert(s@.subrange(0, s@.len() as int) =~= s@);
}

/// Puts a number behind what a text holds.
pub fn push_number(out: &mut Vec<char>, n: Number)
    ensures
        final(out)@ == old(out)@ + number_text(n),
{
    match n {
        Number::PosInt(u) => push_nat(out, u),
        Number::NegInt(i) => push_int(out, i),
        Number::Float(x) => push_json_number(out, x),
    }
}

/// Puts `true` or `false` behind what a text holds.
pub fn push_bool(out: &mut Vec<char>, b: bool)
    ensures
        final(out)@ == old(out)@ + bool_text(b),
{
    if b {
        push_text(out, "true");
    } else {
        push_text(out, "false");
    }
    proof {
        reveal_strlit("true");
        reveal_strlit("false");
        assert("true"@ =~= bool_text(true));
        assert("false"@ =~= bool_text(false));
    }
}

fn push_items(out: &mut Vec<char>, items: &Vec<Value>)
    ensures
        final(out)@ == old(out)@ + items_json(trees_of(items@), items@.len()),
    decreases items, 0nat,
{
    let mut i: usize = 0;
    let ghost trees = trees_of(items@);
    assert(out@ =~= old(out)@ + items_json(trees, 0));
    while i < items.len()
        invariant
            i <= items@.len(),
            trees == trees_of(items@),
            out@ == old(out)@ + items_json(trees, i as nat),
        decreases items.len() - i,
    {
        if i > 0 {
            out.push(',');
        }
        assert(decreases_to!(items => items@[i as int]));
        push_json(out, &items[i]);
        i += 1;
        assert(out@ =~= old(out)@ + items_json(trees, i as nat));
    }
}

fn push_fields(out: &mut Vec<char>, entries: &Vec<(String, Value)>)
    ensures
        final(out)@ == old(out)@ + fields_json(fields_of(entries@), entries@.len()),
    decreases entries, 0nat,
{
    let mut i: usize = 0;
    let ghost fields = fields_of(entries@);
    assert(out@ =~= old(out)@ + fields_json(fields, 0));
    while i < entries.len()
        invariant
            i <= entries@.len(),
            fields == fields_of(entries@),
            out@ == old(out)@ + fields_json(fields, i as nat),
        decreases entries.len() - i,
    {
        if i > 0 {
            out.push(',');
        }
        push_text(out, quote(entries[i].0.as_str()).as_str());
        out.push(':');
        assert(decreases_to!(entries => entries@[i as int]));
        assert(decreases_to!(entries => entries@[i as int].1));
        push_json(out, &entries[i].1);
        i += 1;
        assert(out@ =~= old(out)@ + fields_json(fields, i as nat));
    }
}

/// Puts a value as compact JSON behind what a text holds.
pub fn push_json(out: &mut Vec<char>, v: &Value)
    ensures
        final(out)@ == old(out)@ + json_text(v@),
    decreases v, 0nat,
{
    match v {
        Value::Null => {
            push_text(out, "null");
            proof {
                reveal_strlit("null");
            }
        },
        Value::Bool(b) => push_bool(out, *b),
        Value::Number(n) => push_number(out, *n),
        Value::Str(s) => push_text(out, quote(s.as_str()).as_str()),
        Value::Array(items) => {
            out.push('[');
            push_items(out, items);
            out.push(']');
            assert(v@->Array_0 =~= trees_of(items@));
        },
        Value::Object(record) => {
            out.push('{');
            push_fields(out, &record.entries);
            out.push('}');
            assert(v@->Object_0 =~= fields_of(record.entries@));
        },
    }
    assert(out@ =~= old(out)@ + json_text(v@));
}

/// A value as compact JSON.
pub fn to_json(v: &Value) -> (r: String)
    ensures
        r@ == json_text(v@),
{
    let mut out: Vec<char> = Vec::new();
    push_json(&mut out, v);
    assert(out@ =~= json_text(v@));
    string_of(&out)
}

/// A record as compact JSON.
pub fn record_to_json(record: &Record) -> (r: String)
    ensures
        r@ == json_text(Tree::Object(record@)),
{
    let mut out: Vec<char> = Vec::new();
    out.push('{');
    push_fields(&mut out, &record.entries);
    out.push('}');
    assert(out@ =~= json_text(Tree::Object(record@)));
    string_of(&out)
}

/// Whether a text holds no control character below U+0020.
pub open spec fn printable(s: Seq<char>) -> bool {
    forall|i: int| 0 <= i < s.len() ==> ' ' <= #[trigger] s[i]
}

proof fn lemma_escape_printable(c: char)
    ensures
        printable(escaped_char(c)),
{
}

proof fn lemma_escaped_printable(s: Seq<char>)
    ensures
        printable(escaped(s)),
    decreases s.len(),
{
    if s.len() > 0 {
        lemma_escaped_printable(s.drop_last());
        lemma_escape_printable(s.last());
    }
}

proof fn lemma_pointed_printable(d: Seq<char>, k: int)
    requires
        printable(d),
    ensures
        printable(pointed(d, k)),
{
    if k <= 0 {
        assert(printable(seq!['0', '.'] + zeros(-k)));
    } else if k >= d.len() {
        assert(printable(zeros(k - d.len())));
    }
}

proof fn lemma_nat_printable(n: nat)
    ensures
        printable(nat_text(n)),
        nat_text(n).len() > 0,
        nat_text(n)[0] != '"',
{
    lemma_nat_text_reads(n);
    assert forall|i: int| 0 <= i < nat_text(n).len() implies ' ' <= #[trigger] nat_text(n)[i]
        && nat_text(n)[i] != '"' by {
        assert(digit(nat_text(n)[i]));
    }
}

#[verifier::rlimit(30)]
proof fn lemma_float_printable(x: Num)
    ensures
        printable(json_number_text(x)),
{
    if x.finite() && x.magnitude() != 0 {
        let (c, p) = shortest(x);
        let d = nat_text(c);
        let k = d.len() + p;
        lemma_nat_printable(c);
        lemma_pointed_printable(d, k);
        lemma_nat_printable((k - 1) as nat);
        lemma_nat_printable((1 - k) as nat);
    }
}

proof fn lemma_number_printable(n: Number)
    ensures
        printable(number_text(n)),
{
    match n {
        Number::PosInt(u) => {
            lemma_nat_printable(u as nat);
        },
        Number::NegInt(i) => {
            lemma_nat_printable(i as nat);
            lemma_nat_printable((-i) as nat);
        },
        Number::Float(x) => {
            lemma_float_printable(x);
        },
    }
}

proof fn lemma_items_printable(items: Seq<Tree>, n: nat)
    ensures
        printable(items_json(items, n)),
    decreases items, n,
{
    if 0 < n <= items.len() {
        lemma_items_printable(items, (n - 1) as nat);
        law_json_stays_on_one_line(items[n - 1]);
    }
}

proof fn lemma_fields_printable(fields: Seq<(Seq<char>, Tree)>, n: nat)
    ensures
        printable(fields_json(fields, n)),
    decreases fields, n,
{
    if 0 < n <= fields.len() {
        lemma_fields_printable(fields, (n - 1) as nat);
        lemma_escaped_printable(fields[n - 1].0);
        law_json_stays_on_one_line(fields[n - 1].1);
    }
}

/// The JSON text of a value holds no line break and no other control character,
/// so a row of JSON Lines is one line.
pub proof fn law_json_stays_on_one_line(t: Tree)
    ensures
        printable(json_text(t)),
    decreases t, 0nat,
{
    match t {
        Tree::Number(n) => lemma_number_printable(n),
        Tree::Str(s) => lemma_escaped_printable(s),
        Tree::Array(items) => lemma_items_printable(items, items.len()),
        Tree::Object(fields) => lemma_fields_printable(fields, fields.len()),
        _ => {},
    }
}

/// The JSON text of a value starts with a quote where it is a string, and only
/// there.
pub proof fn law_quotes_mark_strings(t: Tree)
    ensures
        json_text(t).len() > 0,
        (json_text(t)[0] == '"') == (t is Str),
{
    match t {
        Tree::Number(n) => lemma_number_starts(n),
        _ => {},
    }
}

proof fn lemma_number_starts(n: Number)
    ensures
        number_text(n).len() > 0,
        number_text(n)[0] != '"',
{
    match n {
        Number::PosInt(u) => {
            lemma_nat_printable(u as nat);
        },
        Number::NegInt(i) => {
            lemma_nat_printable(i as nat);
        },
        Number::Float(x) => {
            if x.finite() && x.magnitude() != 0 {
                let (c, p) = shortest(x);
                let d = nat_text(c);
                lemma_nat_printable(c);
            }
        },
    }
}

} // verus!
