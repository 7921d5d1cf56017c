//! What holds of every value as JSON: values are told apart by their text.

use crate::decimal::{
    int_text, json_number_text, lemma_nat_text_reads, nat_text, pointed, shortest, sign_text, zeros,
};
use crate::decimal_laws::law_a_number_reads_back;
use crate::json::{
    escaped, escaped_char, fields_json, hex_char, items_json, json_text, number_text, quoted,
};
use crate::num::Num;
use crate::text::digit;
use crate::value::{sound, sound_number, Fields, Number, Tree};
use vstd::prelude::*;

verus! {

proof fn lemma_escaped_front(s: Seq<char>)
    requires
        s.len() > 0,
    ensures
        escaped(s) == escaped_char(s[0]) + escaped(s.skip(1)),
    decreases s.len(),
{
    let rest = s.skip(1);
    if s.len() == 1 {
        assert(s.drop_last() =~= Seq::<char>::empty());
        assert(rest =~= Seq::<char>::empty());
        assert(Seq::<char>::empty() + escaped_char(s[0]) =~= escaped_char(s[0]) + Seq::<char>::empty());
    } else {
        lemma_escaped_front(s.drop_last());
        assert(s.drop_last().skip(1) =~= rest.drop_last());
        assert(rest.last() == s.last());
        assert((escaped_char(s[0]) + escaped(rest.drop_last())) + escaped_char(s.last())
            =~= escaped_char(s[0]) + (escaped(rest.drop_last()) + escaped_char(s.last())));
    }
}

proof fn lemma_hex_differs(a: int, b: int)
    requires
        0 <= a < 16,
        0 <= b < 16,
        hex_char(a) == hex_char(b),
    ensures
        a == b,
{
}

/// The escapes of two characters do not start the same text.
proof fn lemma_escape_front(c: char, a: Seq<char>, d: char, b: Seq<char>)
    requires
        escaped_char(c) + a == escaped_char(d) + b,
    ensures
        c == d,
        a == b,
{
    let s = escaped_char(c) + a;
    let t = escaped_char(d) + b;
    assert(s[0] == escaped_char(c)[0] && t[0] == escaped_char(d)[0]);
    if s[0] == '\\' {
        assert(s[1] == escaped_char(c)[1] && t[1] == escaped_char(d)[1]);
        if s[1] == 'u' {
            assert(s[4] == escaped_char(c)[4] && t[4] == escaped_char(d)[4]);
            assert(s[5] == escaped_char(c)[5] && t[5] == escaped_char(d)[5]);
            lemma_hex_differs(c as int / 16, d as int / 16);
            lemma_hex_differs(c as int % 16, d as int % 16);
        }
    }
    assert(c == d);
    assert(a =~= s.skip(escaped_char(c).len() as int));
    assert(b =~= t.skip(escaped_char(d).len() as int));
}

/// Where two texts start with parts of the same length, the parts are the same,
/// and so is what follows them.
proof fn lemma_cut(a: Seq<char>, x: Seq<char>, b: Seq<char>, y: Seq<char>)
    requires
        a + x == b + y,
        a.len() == b.len(),
    ensures
        a == b,
        x == y,
{
    let n = a.len() as int;
    assert(a =~= (a + x).take(n));
    assert(b =~= (b + y).take(n));
    assert(x =~= (a + x).skip(n));
    assert(y =~= (b + y).skip(n));
}

/// The closing quote of a JSON string shows where the string ends.
proof fn lemma_escaped_ends(s: Seq<char>, x: Seq<char>, t: Seq<char>, y: Seq<char>)
    requires
        escaped(s) + (seq!['"'] + x) == escaped(t) + (seq!['"'] + y),
    ensures
        s == t,
        x == y,
    decreases s.len(),
{
    let left = escaped(s) + (seq!['"'] + x);
    let right = escaped(t) + (seq!['"'] + y);
    if s.len() > 0 {
        lemma_escaped_front(s);
        assert(left[0] == escaped_char(s[0])[0]);
    } else {
        assert(left =~= seq!['"'] + x);
    }
    if t.len() > 0 {
        lemma_escaped_front(t);
        assert(right[0] == escaped_char(t[0])[0]);
    } else {
        assert(right =~= seq!['"'] + y);
    }
    if s.len() > 0 && t.len() > 0 {
        let a = escaped(s.skip(1)) + (seq!['"'] + x);
        let b = escaped(t.skip(1)) + (seq!['"'] + y);
        assert(left =~= escaped_char(s[0]) + a);
        assert(right =~= escaped_char(t[0]) + b);
        lemma_escape_front(s[0], a, t[0], b);
        lemma_escaped_ends(s.skip(1), x, t.skip(1), y);
        assert(s =~= seq![s[0]] + s.skip(1));
        assert(t =~= seq![t[0]] + t.skip(1));
    } else if s.len() == 0 && t.len() == 0 {
        lemma_cut(seq!['"'], x, seq!['"'], y);
        assert(s =~= t);
    }
}

proof fn lemma_quoted_ends(s: Seq<char>, x: Seq<char>, t: Seq<char>, y: Seq<char>)
    requires
        quoted(s) + x == quoted(t) + y,
    ensures
        s == t,
        x == y,
{
    let a = escaped(s) + (seq!['"'] + x);
    let b = escaped(t) + (seq!['"'] + y);
    assert(quoted(s) + x =~= seq!['"'] + a);
    assert(quoted(t) + y =~= seq!['"'] + b);
    lemma_cut(seq!['"'], a, seq!['"'], b);
    lemma_escaped_ends(s, x, t, y);
}

/// Whether a text holds something other than digits and a minus sign.
spec fn marked_float(s: Seq<char>) -> bool {
    exists|i: int| 0 <= i < s.len() && ((#[trigger] s[i]) == '.' || s[i] == 'e')
}

proof fn lemma_float_marked(x: Num)
    requires
        x.finite(),
    ensures
        marked_float(json_number_text(x)),
{
    let s = json_number_text(x);
    let from = sign_text(x.neg()).len() as int;
    if x.magnitude() == 0 {
        assert(s[from + 1] == '.');
    } else {
        let (c, p) = shortest(x);
        let d = nat_text(c);
        let k = d.len() + p;
        lemma_nat_text_reads(c);
        if k < -4 || k > 16 {
            let head = if d.len() == 1 {
                d
            } else {
                d.subrange(0, 1) + seq!['.'] + d.subrange(1, d.len() as int)
            };
            assert(s[from + head.len()] == 'e');
        } else if k <= 0 {
            assert(s[from + 1] == '.');
        } else if k >= d.len() {
            assert(s[from + pointed(d, k).len()] == '.');
        } else {
            assert(s[from + k] == '.');
        }
    }
}

proof fn lemma_int_unmarked(n: int)
    ensures
        !marked_float(int_text(n)),
        int_text(n).len() > 0,
        int_text(n)[0] == '-' <==> n < 0,
        n >= 0 ==> digit(int_text(n)[0]),
{
    let size = if n < 0 {
        (-n) as nat
    } else {
        n as nat
    };
    let s = int_text(n);
    let from: int = if n < 0 {
        1
    } else {
        0
    };
    lemma_nat_text_reads(size);
    assert forall|i: int| 0 <= i < s.len() implies (#[trigger] s[i]) != '.' && s[i] != 'e' by {
        if i >= from {
            assert(s[i] == nat_text(size)[i - from]);
            assert(digit(nat_text(size)[i - from]));
        }
    }
    assert(digit(nat_text(size)[0]));
}

proof fn lemma_int_differs(m: int, n: int)
    requires
        int_text(m) == int_text(n),
    ensures
        m == n,
{
    lemma_int_unmarked(m);
    lemma_int_unmarked(n);
    if m < 0 {
        let a = nat_text((-m) as nat);
        let b = nat_text((-n) as nat);
        lemma_nat_text_reads((-m) as nat);
        lemma_nat_text_reads((-n) as nat);
        assert(a =~= int_text(m).skip(1));
        assert(b =~= int_text(n).skip(1));
    } else {
        lemma_nat_text_reads(m as nat);
        lemma_nat_text_reads(n as nat);
    }
}

/// The whole amount of a number that is not floating.
spec fn whole_amount(n: Number) -> int {
    match n {
        Number::PosInt(u) => u as int,
        Number::NegInt(i) => i as int,
        Number::Float(_) => 0,
    }
}

proof fn lemma_number_differs(a: Number, b: Number)
    requires
        sound_number(a),
        sound_number(b),
        number_text(a) == number_text(b),
    ensures
        a == b,
{
    match (a, b) {
        (Number::Float(x), Number::Float(y)) => {
            law_a_number_reads_back(x);
            law_a_number_reads_back(y);
        },
        (Number::Float(x), _) => {
            lemma_float_marked(x);
            lemma_int_unmarked(whole_amount(b));
            assert(number_text(b) == int_text(whole_amount(b)));
        },
        (_, Number::Float(y)) => {
            lemma_float_marked(y);
            lemma_int_unmarked(whole_amount(a));
            assert(number_text(a) == int_text(whole_amount(a)));
        },
        _ => {
            assert(number_text(a) == int_text(whole_amount(a)));
            assert(number_text(b) == int_text(whole_amount(b)));
            lemma_int_differs(whole_amount(a), whole_amount(b));
        },
    }
}

/// The text of a number starts with a digit or a minus sign.
#[verifier::rlimit(30)]
proof fn lemma_number_starts(n: Number)
    requires
        sound_number(n),
    ensures
        number_text(n).len() > 0,
        digit(number_text(n)[0]) || number_text(n)[0] == '-',
{
    match n {
        Number::Float(x) => {
            if x.magnitude() != 0 {
                let (c, p) = shortest(x);
                let d = nat_text(c);
                lemma_nat_text_reads(c);
                assert(digit(d[0]));
            }
        },
        _ => {
            lemma_int_unmarked(whole_amount(n));
            assert(number_text(n) == int_text(whole_amount(n)));
        },
    }
}

/// Whether a text is made of digits, signs, points and the mark of an exponent.
spec fn numeric(s: Seq<char>) -> bool {
    forall|i: int| 0 <= i < s.len() ==> numeric_char(#[trigger] s[i])
}

spec fn numeric_char(c: char) -> bool {
    digit(c) || c == '-' || c == '+' || c == '.' || c == 'e'
}

proof fn lemma_numeric_join(a: Seq<char>, b: Seq<char>)
    requires
        numeric(a),
        numeric(b),
    ensures
        numeric(a + b),
{
    assert forall|i: int| 0 <= i < (a + b).len() implies numeric_char(#[trigger] (a + b)[i]) by {
        if i < a.len() {
            assert(numeric_char(a[i]));
        } else {
            assert(numeric_char(b[i - a.len()]));
        }
    }
}

proof fn lemma_numeric_nat(n: nat)
    ensures
        numeric(nat_text(n)),
{
    lemma_nat_text_reads(n);
}

proof fn lemma_numeric_part(s: Seq<char>, i: int, j: int)
    requires
        numeric(s),
        0 <= i <= j <= s.len(),
    ensures
        numeric(s.subrange(i, j)),
{
    assert forall|k: int| 0 <= k < j - i implies numeric_char(#[trigger] s.subrange(i, j)[k]) by {
        assert(numeric_char(s[i + k]));
    }
}

proof fn lemma_numeric_pointed(d: Seq<char>, k: int)
    requires
        numeric(d),
    ensures
        numeric(pointed(d, k)),
{
    if k <= 0 {
        lemma_numeric_join(seq!['0', '.'], zeros(-k));
        lemma_numeric_join(seq!['0', '.'] + zeros(-k), d);
    } else if k >= d.len() {
        lemma_numeric_join(d, zeros(k - d.len()));
    } else {
        lemma_numeric_part(d, 0, k);
        lemma_numeric_part(d, k, d.len() as int);
        lemma_numeric_join(d.subrange(0, k), seq!['.']);
        lemma_numeric_join(d.subrange(0, k) + seq!['.'], d.subrange(k, d.len() as int));
    }
}

/// What follows the sign in the text of a floating number.
proof fn lemma_numeric_float(x: Num)
    requires
        x.finite(),
        x.magnitude() != 0,
    ensures
        json_number_text(x).len() >= sign_text(x.neg()).len(),
        numeric(json_number_text(x)),
{
    let (c, p) = shortest(x);
    let d = nat_text(c);
    let k = d.len() + p;
    lemma_nat_text_reads(c);
    lemma_numeric_nat(c);
    lemma_numeric_pointed(d, k);
    lemma_numeric_join(pointed(d, k), seq!['.', '0']);
    lemma_numeric_join(sign_text(x.neg()), pointed(d, k) + seq!['.', '0']);
    lemma_numeric_join(sign_text(x.neg()), pointed(d, k));
    lemma_numeric_part(d, 0, 1);
    lemma_numeric_part(d, 1, d.len() as int);
    lemma_numeric_join(d.subrange(0, 1), seq!['.']);
    lemma_numeric_join(d.subrange(0, 1) + seq!['.'], d.subrange(1, d.len() as int));
    let head = if d.len() == 1 {
        d
    } else {
        d.subrange(0, 1) + seq!['.'] + d.subrange(1, d.len() as int)
    };
    let exponent = if k >= 1 {
        seq!['e', '+'] + nat_text((k - 1) as nat)
    } else {
        seq!['e', '-'] + nat_text((1 - k) as nat)
    };
    if k >= 1 {
        lemma_numeric_nat((k - 1) as nat);
        lemma_numeric_join(seq!['e', '+'], nat_text((k - 1) as nat));
    } else {
        lemma_numeric_nat((1 - k) as nat);
        lemma_numeric_join(seq!['e', '-'], nat_text((1 - k) as nat));
    }
    lemma_numeric_join(head, exponent);
    lemma_numeric_join(sign_text(x.neg()), head + exponent);
}

proof fn lemma_numeric_number(n: Number)
    requires
        sound_number(n),
    ensures
        numeric(number_text(n)),
{
    match n {
        Number::Float(x) => {
            if x.magnitude() == 0 {
                lemma_numeric_join(sign_text(x.neg()), seq!['0', '.', '0']);
            } else {
                lemma_numeric_float(x);
            }
        },
        _ => {
            let i = whole_amount(n);
            let size = if i < 0 {
                (-i) as nat
            } else {
                i as nat
            };
            lemma_numeric_nat(size);
            lemma_numeric_join(seq!['-'], nat_text(size));
            assert(number_text(n) == int_text(i));
        },
    }
}

/// Whether nothing follows, or what can stand behind a value in an array or an
/// object.
spec fn closes(x: Seq<char>) -> bool {
    x.len() == 0 || x[0] == ',' || x[0] == ']' || x[0] == '}'
}

proof fn lemma_number_not_longer(m: Number, x: Seq<char>, n: Number, y: Seq<char>)
    requires
        sound_number(m),
        sound_number(n),
        closes(x),
        number_text(m) + x == number_text(n) + y,
    ensures
        number_text(n).len() <= number_text(m).len(),
{
    let a = number_text(m);
    let b = number_text(n);
    if a.len() < b.len() {
        lemma_numeric_number(n);
        assert(numeric_char(b[a.len() as int]));
        assert((b + y)[a.len() as int] == b[a.len() as int]);
        assert((a + x).len() == (b + y).len());
        assert((a + x)[a.len() as int] == x[0]);
    }
}

/// The first character of the JSON text of a value, by what the value is.
proof fn lemma_starts(t: Tree)
    requires
        sound(t),
    ensures
        json_text(t).len() > 0,
        ({
            let c = json_text(t)[0];
            match t {
                Tree::Null => c == 'n',
                Tree::Bool(b) => c == (if b {
                    't'
                } else {
                    'f'
                }),
                Tree::Str(_) => c == '"',
                Tree::Number(_) => digit(c) || c == '-',
                Tree::Array(_) => c == '[',
                Tree::Object(_) => c == '{',
            }
        }),
{
    match t {
        Tree::Number(n) => lemma_number_starts(n),
        _ => {},
    }
}

/// What stands in a JSON array from its value `i` on.
spec fn rest_of_items(items: Seq<Tree>, i: int) -> Seq<char>
    decreases items.len() - i,
{
    if i < 0 || i >= items.len() {
        seq![']']
    } else {
        (if i > 0 {
            seq![',']
        } else {
            Seq::empty()
        }) + (json_text(items[i]) + rest_of_items(items, i + 1))
    }
}

/// What stands in a JSON object from its field `i` on.
spec fn rest_of_fields(fields: Fields, i: int) -> Seq<char>
    decreases fields.len() - i,
{
    if i < 0 || i >= fields.len() {
        seq!['}']
    } else {
        (if i > 0 {
            seq![',']
        } else {
            Seq::empty()
        }) + (quoted(fields[i].0) + (seq![':'] + (json_text(fields[i].1) + rest_of_fields(
            fields,
            i + 1,
        ))))
    }
}

proof fn lemma_items_split(items: Seq<Tree>, i: nat)
    requires
        i <= items.len(),
    ensures
        items_json(items, items.len()) + seq![']'] == items_json(items, i) + rest_of_items(
            items,
            i as int,
        ),
    decreases items.len() - i,
{
    if i < items.len() {
        lemma_items_split(items, i + 1);
        assert(items_json(items, i + 1) + rest_of_items(items, i as int + 1) =~= items_json(items, i)
            + rest_of_items(items, i as int));
    }
}

proof fn lemma_fields_split(fields: Fields, i: nat)
    requires
        i <= fields.len(),
    ensures
        fields_json(fields, fields.len()) + seq!['}'] == fields_json(fields, i) + rest_of_fields(
            fields,
            i as int,
        ),
    decreases fields.len() - i,
{
    if i < fields.len() {
        lemma_fields_split(fields, i + 1);
        assert(fields_json(fields, i + 1) + rest_of_fields(fields, i as int + 1) =~= fields_json(fields, i)
            + rest_of_fields(fields, i as int));
    }
}

/// What stands before a value or a field in an array or an object.
spec fn separator(i: int) -> Seq<char> {
    if i > 0 {
        seq![',']
    } else {
        Seq::empty()
    }
}

proof fn lemma_items_open(items: Seq<Tree>, i: int, x: Seq<char>)
    requires
        0 <= i <= items.len(),
    ensures
        i < items.len() ==> rest_of_items(items, i) + x == separator(i) + (json_text(items[i]) + (
        rest_of_items(items, i + 1) + x)),
        i == items.len() ==> rest_of_items(items, i) + x == seq![']'] + x,
        i > 0 ==> closes(rest_of_items(items, i) + x),
{
    if i < items.len() {
        assert(rest_of_items(items, i) + x =~= separator(i) + (json_text(items[i]) + (rest_of_items(
            items,
            i + 1,
        ) + x)));
    }
}

proof fn lemma_fields_open(fields: Fields, i: int, x: Seq<char>)
    requires
        0 <= i <= fields.len(),
    ensures
        i < fields.len() ==> rest_of_fields(fields, i) + x == separator(i) + (quoted(fields[i].0) + (
        seq![':'] + (json_text(fields[i].1) + (rest_of_fields(fields, i + 1) + x)))),
        i == fields.len() ==> rest_of_fields(fields, i) + x == seq!['}'] + x,
        i > 0 ==> closes(rest_of_fields(fields, i) + x),
{
    if i < fields.len() {
        assert(rest_of_fields(fields, i) + x =~= separator(i) + (quoted(fields[i].0) + (seq![':'] + (
        json_text(fields[i].1) + (rest_of_fields(fields, i + 1) + x)))));
    }
}

/// A value or a field does not read as the end of the array or the object.
proof fn lemma_no_end(i: int, text: Seq<char>, u: Seq<char>, end: char, x: Seq<char>)
    requires
        text.len() > 0,
        text[0] != end,
        end != ',',
    ensures
        separator(i) + (text + u) != seq![end] + x,
{
    let left = separator(i) + (text + u);
    let right = seq![end] + x;
    assert(right[0] == end);
    if i > 0 {
        assert(left[0] == ',');
    } else {
        assert(left[0] == text[0]);
    }
}

#[verifier::rlimit(20)]
proof fn lemma_items_front(a: Seq<Tree>, x: Seq<char>, b: Seq<Tree>, y: Seq<char>, i: nat)
    requires
        forall|k: int| 0 <= k < a.len() ==> sound(#[trigger] a[k]),
        forall|k: int| 0 <= k < b.len() ==> sound(#[trigger] b[k]),
        i <= a.len(),
        i <= b.len(),
        rest_of_items(a, i as int) + x == rest_of_items(b, i as int) + y,
    ensures
        a.len() == b.len(),
        forall|k: int| i <= k < a.len() ==> a[k] == b[k],
        x == y,
    decreases a, a.len() - i,
{
    let at = i as int;
    let u = rest_of_items(a, at + 1) + x;
    let v = rest_of_items(b, at + 1) + y;
    lemma_items_open(a, at, x);
    lemma_items_open(b, at, y);
    if i < a.len() && i < b.len() {
        lemma_cut(separator(at), json_text(a[at]) + u, separator(at), json_text(b[at]) + v);
        lemma_items_open(a, at + 1, x);
        lemma_items_open(b, at + 1, y);
        lemma_value_front(a[at], u, b[at], v);
        lemma_items_front(a, x, b, y, i + 1);
    } else if i < a.len() {
        lemma_starts(a[at]);
        lemma_no_end(at, json_text(a[at]), u, ']', y);
    } else if i < b.len() {
        lemma_starts(b[at]);
        lemma_no_end(at, json_text(b[at]), v, ']', x);
    } else {
        lemma_cut(seq![']'], x, seq![']'], y);
    }
}

/// A field shows where its name ends and its value starts.
proof fn lemma_field_front(
    sep: Seq<char>,
    name: Seq<char>,
    text: Seq<char>,
    other: Seq<char>,
    held: Seq<char>,
)
    requires
        sep + (quoted(name) + (seq![':'] + text)) == sep + (quoted(other) + (seq![':'] + held)),
    ensures
        name == other,
        text == held,
{
    let p = seq![':'] + text;
    let q = seq![':'] + held;
    lemma_cut(sep, quoted(name) + p, sep, quoted(other) + q);
    lemma_quoted_ends(name, p, other, q);
    lemma_cut(seq![':'], text, seq![':'], held);
}

#[verifier::rlimit(20)]
proof fn lemma_fields_front(a: Fields, x: Seq<char>, b: Fields, y: Seq<char>, i: nat)
    requires
        forall|k: int| 0 <= k < a.len() ==> sound((#[trigger] a[k]).1),
        forall|k: int| 0 <= k < b.len() ==> sound((#[trigger] b[k]).1),
        i <= a.len(),
        i <= b.len(),
        rest_of_fields(a, i as int) + x == rest_of_fields(b, i as int) + y,
    ensures
        a.len() == b.len(),
        forall|k: int| i <= k < a.len() ==> a[k] == b[k],
        x == y,
    decreases a, a.len() - i,
{
    let at = i as int;
    let u = rest_of_fields(a, at + 1) + x;
    let v = rest_of_fields(b, at + 1) + y;
    lemma_fields_open(a, at, x);
    lemma_fields_open(b, at, y);
    if i < a.len() && i < b.len() {
        lemma_field_front(
            separator(at),
            a[at].0,
            json_text(a[at].1) + u,
            b[at].0,
            json_text(b[at].1) + v,
        );
        lemma_fields_open(a, at + 1, x);
        lemma_fields_open(b, at + 1, y);
        assert(sound(a[at].1) && sound(b[at].1));
        lemma_value_front(a[at].1, u, b[at].1, v);
        lemma_fields_front(a, x, b, y, i + 1);
    } else if i < a.len() {
        lemma_no_end(at, quoted(a[at].0), seq![':'] + (json_text(a[at].1) + u), '}', y);
    } else if i < b.len() {
        lemma_no_end(at, quoted(b[at].0), seq![':'] + (json_text(b[at].1) + v), '}', x);
    } else {
        lemma_cut(seq!['}'], x, seq!['}'], y);
    }
}

/// The text of a value shows where it ends: where two texts start with values and
/// go on as an array or an object can, the values are the same.
proof fn lemma_value_front(a: Tree, x: Seq<char>, b: Tree, y: Seq<char>)
    requires
        sound(a),
        sound(b),
        closes(x),
        closes(y),
        json_text(a) + x == json_text(b) + y,
    ensures
        a == b,
        x == y,
    decreases a, 0nat,
{
    lemma_starts(a);
    lemma_starts(b);
    assert((json_text(a) + x)[0] == json_text(a)[0]);
    assert((json_text(b) + y)[0] == json_text(b)[0]);
    match (a, b) {
        (Tree::Number(m), Tree::Number(n)) => {
            lemma_number_not_longer(m, x, n, y);
            lemma_number_not_longer(n, y, m, x);
            lemma_cut(number_text(m), x, number_text(n), y);
            lemma_number_differs(m, n);
        },
        (Tree::Str(s), Tree::Str(t)) => {
            lemma_quoted_ends(s, x, t, y);
        },
        (Tree::Array(p), Tree::Array(q)) => {
            lemma_items_split(p, 0);
            lemma_items_split(q, 0);
            let u = rest_of_items(p, 0) + x;
            let v = rest_of_items(q, 0) + y;
            assert(json_text(a) + x =~= seq!['['] + u);
            assert(json_text(b) + y =~= seq!['['] + v);
            lemma_cut(seq!['['], u, seq!['['], v);
            lemma_items_front(p, x, q, y, 0);
            assert(p =~= q);
        },
        (Tree::Object(p), Tree::Object(q)) => {
            lemma_fields_split(p, 0);
            lemma_fields_split(q, 0);
            let u = rest_of_fields(p, 0) + x;
            let v = rest_of_fields(q, 0) + y;
            assert(json_text(a) + x =~= seq!['{'] + u);
            assert(json_text(b) + y =~= seq!['{'] + v);
            lemma_cut(seq!['{'], u, seq!['{'], v);
            lemma_fields_front(p, x, q, y, 0);
            assert(p =~= q);
        },
        _ => {
            lemma_cut(json_text(a), x, json_text(b), y);
        },
    }
}

/// Two values have the same JSON text only where they are the same value: `1`,
/// `1.0`, `"1"` and `true` all differ, and so do arrays and objects that differ
/// anywhere within.
pub proof fn law_values_are_told_apart(a: Tree, b: Tree)
    requires
        sound(a),
        sound(b),
    ensures
        json_text(a) == json_text(b) <==> a == b,
{
    if json_text(a) == json_text(b) {
        lemma_value_front(a, Seq::empty(), b, Seq::empty());
    }
}

/// A string of JSON writes quotes, backslashes and control characters as escapes, and
/// anything else as it is, character by character.
pub proof fn law_json_strings_are_escaped(a: Seq<char>, b: Seq<char>, c: char)
    ensures
        quoted(a) == seq!['"'] + escaped(a) + seq!['"'],
        escaped(a + b) == escaped(a) + escaped(b),
        c == '"' || c == '\\' ==> escaped(seq![c]) == seq!['\\', c],
        escaped(seq!['\n']) == seq!['\\', 'n'],
        escaped(seq!['\r']) == seq!['\\', 'r'],
        escaped(seq!['\t']) == seq!['\\', 't'],
        escaped(seq!['\u{8}']) == seq!['\\', 'b'],
        escaped(seq!['\u{c}']) == seq!['\\', 'f'],
        ' ' <= c && c != '"' && c != '\\' ==> escaped(seq![c]) == seq![c],
        c < ' ' && c != '\n' && c != '\r' && c != '\t' && c != '\u{8}' && c != '\u{c}' ==> escaped(
            seq![c],
        ) == seq!['\\', 'u', '0', '0', hex_char(c as int / 16), hex_char(c as int % 16)],
    decreases b.len(),
{
    lemma_escaped_one(c);
    lemma_escaped_one('\n');
    lemma_escaped_one('\r');
    lemma_escaped_one('\t');
    lemma_escaped_one('\u{8}');
    lemma_escaped_one('\u{c}');
    if b.len() == 0 {
        assert(a + b =~= a);
        assert(escaped(a) + escaped(b) =~= escaped(a));
    } else {
        law_json_strings_are_escaped(a, b.drop_last(), c);
        assert((a + b).drop_last() =~= a + b.drop_last());
        assert((a + b).last() == b.last());
        assert(escaped(a + b) =~= escaped(a) + escaped(b));
    }
}

/// The figures of a control character are those of base sixteen, small letters behind
/// the digits.
pub proof fn law_figures_of_sixteen(d: int)
    requires
        0 <= d < 16,
    ensures
        d < 10 ==> hex_char(d) as int == '0' as int + d,
        d >= 10 ==> hex_char(d) as int == 'a' as int + (d - 10),
{
}

proof fn lemma_escaped_one(c: char)
    ensures
        escaped(seq![c]) == escaped_char(c),
{
    assert(seq![c].drop_last() =~= Seq::<char>::empty());
    assert(escaped(Seq::<char>::empty()) =~= Seq::<char>::empty());
    assert(seq![c].last() == c);
    assert(escaped(seq![c]) =~= escaped_char(c));
}

/// The members of an array stand between brackets with a comma between each two, and
/// the fields of an object between braces, each behind its name and a colon.
pub proof fn law_json_lists_members_and_fields(
    items: Seq<Tree>,
    x: Tree,
    fields: Seq<(Seq<char>, Tree)>,
    name: Seq<char>,
)
    ensures
        json_text(Tree::Array(Seq::empty())) == seq!['[', ']'],
        json_text(Tree::Array(seq![x])) == seq!['['] + json_text(x) + seq![']'],
        items.len() > 0 ==> json_text(Tree::Array(items.push(x))) == json_text(
            Tree::Array(items),
        ).drop_last() + seq![','] + json_text(x) + seq![']'],
        json_text(Tree::Object(Seq::empty())) == seq!['{', '}'],
        json_text(Tree::Object(seq![(name, x)])) == seq!['{'] + quoted(name) + seq![':'] + json_text(
            x,
        ) + seq!['}'],
        fields.len() > 0 ==> json_text(Tree::Object(fields.push((name, x)))) == json_text(
            Tree::Object(fields),
        ).drop_last() + seq![','] + quoted(name) + seq![':'] + json_text(x) + seq!['}'],
{
    let a = items.push(x);
    let f = fields.push((name, x));
    let no_items = Seq::<Tree>::empty();
    let no_fields = Seq::<(Seq<char>, Tree)>::empty();
    assert(items_json(no_items, 0) =~= Seq::<char>::empty());
    assert(fields_json(no_fields, 0) =~= Seq::<char>::empty());
    assert(json_text(Tree::Array(no_items)) =~= seq!['[', ']']);
    assert(json_text(Tree::Object(no_fields)) =~= seq!['{', '}']);
    let i = seq![x];
    assert(items_json(i, 0) =~= Seq::<char>::empty());
    assert(items_json(i, 1) =~= json_text(x));
    assert(json_text(Tree::Array(i)) =~= seq!['['] + json_text(x) + seq![']']);
    let g = seq![(name, x)];
    assert(fields_json(g, 0) =~= Seq::<char>::empty());
    assert(fields_json(g, 1) =~= quoted(name) + seq![':'] + json_text(x));
    assert(json_text(Tree::Object(g)) =~= seq!['{'] + quoted(name) + seq![':'] + json_text(x) + seq![
        '}',
    ]);
    lemma_items_before(items, a, items.len());
    lemma_fields_before(fields, f, fields.len());
    if items.len() > 0 {
        assert(items_json(a, a.len()) == items_json(a, items.len()) + seq![','] + json_text(x));
        assert(json_text(Tree::Array(a)) =~= json_text(Tree::Array(items)).drop_last() + seq![',']
            + json_text(x) + seq![']']);
    }
    if fields.len() > 0 {
        assert(fields_json(f, f.len()) == fields_json(f, fields.len()) + seq![','] + quoted(name)
            + seq![':'] + json_text(x));
        assert(json_text(Tree::Object(f)) =~= json_text(Tree::Object(fields)).drop_last() + seq![
            ',',
        ] + quoted(name) + seq![':'] + json_text(x) + seq!['}']);
    }
}

proof fn lemma_items_before(a: Seq<Tree>, b: Seq<Tree>, n: nat)
    requires
        n <= a.len(),
        n <= b.len(),
        forall|i: int| 0 <= i < n ==> #[trigger] a[i] == b[i],
    ensures
        items_json(a, n) == items_json(b, n),
    decreases n,
{
    if n > 0 {
        assert(a[n - 1] == b[n - 1]);
        lemma_items_before(a, b, (n - 1) as nat);
    }
}

proof fn lemma_fields_before(a: Seq<(Seq<char>, Tree)>, b: Seq<(Seq<char>, Tree)>, n: nat)
    requires
        n <= a.len(),
        n <= b.len(),
        forall|i: int| 0 <= i < n ==> #[trigger] a[i] == b[i],
    ensures
        fields_json(a, n) == fields_json(b, n),
    decreases n,
{
    if n > 0 {
        assert(a[n - 1] == b[n - 1]);
        lemma_fields_before(a, b, (n - 1) as nat);
    }
}

} // verus!
