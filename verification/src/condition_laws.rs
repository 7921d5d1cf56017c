//! What holds of conditions and of the values they read: patterns match piece by
//! piece, conditions combine as logic has it, paths go step by step, and texts read as
//! the numbers that they write.

use crate::ast::{ArithOp, ExprView, Func, LiteralView, ValueExprView};
use crate::decimal::{digits_end, lemma_nat_text_reads, nat_text, number_in};
use crate::eval::{
    arith_value, call_value, duration_ms_of, epoch_of, holds, match_holds, number_of, number_tree,
    numeric_end, text_bool, text_number, text_of, truth, value_of, Env,
};
use crate::like::{escapes, like, like_behind, like_from, literal_pattern};
use crate::num::{
    difference, lemma_negated, lemma_whole_parts, one, product, ratio, sum, whole_int, Num,
};
use crate::record::{follow, found_at, index_in};
use crate::text::{back_space, digit, lower_text, skip_space, space, trimmed};
use crate::text_laws::{law_trimming_takes_white_space_from_the_ends, two};
use crate::timeutil::{epoch_text, rfc3339_in, tz_in, unit_seconds};
use crate::token_laws::{all_digits, fraction_text, law_durations_are_counted_in_seconds};
use crate::value::{field, Fields, Tree};
use vstd::arithmetic::power2::lemma_pow2_pos;
use vstd::prelude::*;

verus! {

proof fn lemma_like_shifts(s: Seq<char>, i: int, a: int, p: Seq<char>, j: int, b: int)
    requires
        0 <= i <= s.len(),
        0 <= j <= p.len(),
        0 <= a <= s.len() - i,
        0 <= b,
    ensures
        like_from(s, i + a, p, j + b) == like_from(s.skip(i), a, p.skip(j), b),
    decreases p.len() - j - b, s.len() - i - a, 0int,
{
    let t = s.skip(i);
    let q = p.skip(j);
    if j + b < p.len() {
        assert(escapes(p, j + b) == escapes(q, b));
        assert(p[j + b] == q[b]);
        if escapes(p, j + b) {
            assert(p[j + b + 1] == q[b + 1]);
            if i + a < s.len() {
                lemma_like_shifts(s, i, a + 1, p, j, b + 2);
            }
        } else if p[j + b] == '%' {
            lemma_behind_shifts(s, i, a, p, j, b + 1);
        } else if i + a < s.len() {
            lemma_like_shifts(s, i, a + 1, p, j, b + 1);
        }
    }
}

proof fn lemma_behind_shifts(s: Seq<char>, i: int, a: int, p: Seq<char>, j: int, b: int)
    requires
        0 <= i <= s.len(),
        0 <= j <= p.len(),
        0 <= a <= s.len() - i,
        0 <= b,
    ensures
        like_behind(s, i + a, p, j + b) == like_behind(s.skip(i), a, p.skip(j), b),
    decreases p.len() - j - b, s.len() - i - a, 1int,
{
    lemma_like_shifts(s, i, a, p, j, b);
    if i + a < s.len() {
        lemma_behind_shifts(s, i, a + 1, p, j, b);
    }
    assert(like_behind(s, i + a, p, j + b) == (like_from(s, i + a, p, j + b) || (i + a < s.len()
        && like_behind(s, i + a + 1, p, j + b))));
    assert(like_behind(s.skip(i), a, p.skip(j), b) == (like_from(s.skip(i), a, p.skip(j), b) || (a
        < s.skip(i).len() && like_behind(s.skip(i), a + 1, p.skip(j), b))));
}

/// Nothing but the empty text matches the empty pattern.
pub proof fn law_nothing_matches_nothing(s: Seq<char>)
    ensures
        like(s, Seq::empty()) == (s.len() == 0),
{
}

/// A pattern that starts with characters for themselves asks a text to start with
/// them, and the rest of the text to match the rest.
pub proof fn law_like_goes_piece_by_piece(s: Seq<char>, t: Seq<char>, p: Seq<char>)
    ensures
        like(s, literal_pattern(t) + p) == (t.len() <= s.len() && s.take(t.len() as int) == t
            && like(s.skip(t.len() as int), p)),
    decreases t.len(),
{
    let whole = literal_pattern(t) + p;
    if t.len() == 0 {
        assert(whole =~= p);
        assert(s.take(0) =~= t);
        assert(s.skip(0) =~= s);
    } else {
        let c = t[0];
        let rest = t.skip(1);
        let n: int = if c == '%' || c == '\\' {
            2
        } else {
            1
        };
        assert(whole.skip(n) =~= literal_pattern(rest) + p);
        assert(escapes(whole, 0) == (n == 2));
        assert(n == 2 ==> whole[1] == c);
        assert(n == 1 ==> whole[0] == c);
        assert(like(s, whole) == (s.len() > 0 && s[0] == c && like_from(s, 1, whole, n)));
        if s.len() > 0 {
            lemma_like_shifts(s, 1, 0, whole, n, 0);
            law_like_goes_piece_by_piece(s.skip(1), rest, p);
            if t.len() <= s.len() {
                assert(s.skip(1).skip(rest.len() as int) =~= s.skip(t.len() as int));
                assert(s.take(t.len() as int) =~= seq![s[0]] + s.skip(1).take(rest.len() as int));
                assert(t =~= seq![c] + rest);
                if s.take(t.len() as int) == t {
                    assert(s.take(t.len() as int)[0] == t[0]);
                    assert(s.skip(1).take(rest.len() as int) =~= s.take(t.len() as int).skip(1));
                }
            }
        }
    }
}

/// A wildcard takes any part of a text, of whatever length.
pub proof fn law_a_wildcard_takes_any_text(s: Seq<char>, p: Seq<char>)
    ensures
        like(s, seq!['%'] + p) == exists|k: int| 0 <= k <= s.len() && like(#[trigger] s.skip(k), p),
{
    let whole = seq!['%'] + p;
    assert(whole.skip(1) =~= p);
    assert(!escapes(whole, 0) && whole[0] == '%');
    assert(like(s, whole) == like_behind(s, 0, whole, 1));
    lemma_behind_anywhere(s, 0, whole, 1);
    if like_behind(s, 0, whole, 1) {
        let k = choose|k: int| 0 <= k <= s.len() && #[trigger] like_from(s, k, whole, 1);
        lemma_like_shifts(s, k, 0, whole, 1, 0);
        assert(like(s.skip(k), p));
    }
    if exists|k: int| 0 <= k <= s.len() && like(#[trigger] s.skip(k), p) {
        let k = choose|k: int| 0 <= k <= s.len() && like(#[trigger] s.skip(k), p);
        lemma_like_shifts(s, k, 0, whole, 1, 0);
        assert(like_from(s, k, whole, 1));
    }
}

proof fn lemma_behind_anywhere(s: Seq<char>, i: int, p: Seq<char>, j: int)
    requires
        0 <= i <= s.len(),
    ensures
        like_behind(s, i, p, j) == exists|k: int| i <= k <= s.len() && #[trigger] like_from(s, k, p, j),
    decreases s.len() - i,
{
    assert(like_behind(s, i, p, j) == (like_from(s, i, p, j) || (i < s.len() && like_behind(
        s,
        i + 1,
        p,
        j,
    ))));
    if i < s.len() {
        lemma_behind_anywhere(s, i + 1, p, j);
    }
}

/// A backslash before any other character than a percent sign and a backslash, or at
/// the end of a pattern, stands for itself.
pub proof fn law_a_lone_backslash_stands_for_itself(s: Seq<char>, p: Seq<char>)
    requires
        p.len() > 0 ==> p[0] != '%' && p[0] != '\\',
    ensures
        like(s, seq!['\\'] + p) == (s.len() > 0 && s[0] == '\\' && like(s.skip(1), p)),
{
    let whole = seq!['\\'] + p;
    assert(whole.skip(1) =~= p);
    assert(p.len() > 0 ==> whole[1] == p[0]);
    assert(!escapes(whole, 0) && whole[0] == '\\');
    if s.len() > 0 {
        lemma_like_shifts(s, 1, 0, whole, 1, 0);
    }
}

/// `like` matches the text of a value against the text of a pattern, and `not like`
/// holds where both have a text and `like` does not hold.
pub proof fn law_like_matches_texts(
    l: Tree,
    p: Tree,
    s: Seq<char>,
    q: Seq<char>,
)
    requires
        text_of(l) == Some(s),
        text_of(p) == Some(q),
    ensures
        match_holds(Some(l), Some(p), false) == like(s, q),
        match_holds(Some(l), Some(p), true) == !like(s, q),
{
}

/// Conditions combine as logic has it.
pub proof fn law_conditions_combine(a: ExprView, b: ExprView, record: Fields, env: Env)
    ensures
        ({
            let (x, y) = (holds(a, record, env), holds(b, record, env));
            let and = holds(ExprView::And(Box::new(a), Box::new(b)), record, env);
            let or = holds(ExprView::Or(Box::new(a), Box::new(b)), record, env);
            &&& and == (x && y)
            &&& or == (x || y)
            &&& holds(ExprView::Not(Box::new(a)), record, env) == !x
        }),
{
    reveal_with_fuel(holds, 2);
}

/// What counts as true on its own: `true`, numbers other than zero, and texts, arrays
/// and objects that hold something.
pub proof fn law_what_counts_as_true(b: bool, n: Num, s: Seq<char>, items: Seq<Tree>, f: Fields)
    requires
        n.finite(),
    ensures
        !truth(None) && !truth(Some(Tree::Null)),
        truth(Some(Tree::Bool(b))) == b,
        truth(Some(number_tree(n))) == (n.magnitude() > 0),
        truth(Some(Tree::Str(s))) == (s != Seq::<char>::empty()),
        truth(Some(Tree::Array(items))) == (items != Seq::<Tree>::empty()),
        truth(Some(Tree::Object(f))) == (f != Fields::empty()),
{
    if s.len() == 0 {
        assert(s =~= Seq::<char>::empty());
    }
    if items.len() == 0 {
        assert(items =~= Seq::<Tree>::empty());
    }
    if f.len() == 0 {
        assert(f =~= Fields::empty());
    }
}

/// Values that read as numbers are added and subtracted as those numbers.
pub proof fn law_sums_go_over_the_numbers(l: Tree, r: Tree, a: Num, b: Num)
    requires
        number_of(l) == Some(a),
        number_of(r) == Some(b),
    ensures
        arith_value(ArithOp::Add, Some(l), Some(r)) == Some(number_tree(sum(a, b))),
        arith_value(ArithOp::Sub, Some(l), Some(r)) == Some(number_tree(difference(a, b))),
{
}

/// A literal is the value that it writes; a duration is its seconds.
pub proof fn law_literals_are_their_values(record: Fields, env: Env, s: Seq<char>, n: Num, b: bool)
    ensures
        value_of(ValueExprView::Lit(LiteralView::Str(s)), record, env) == Some(Tree::Str(s)),
        value_of(ValueExprView::Lit(LiteralView::Num(n)), record, env) == Some(number_tree(n)),
        value_of(ValueExprView::Lit(LiteralView::Duration(n)), record, env) == Some(number_tree(n)),
        value_of(ValueExprView::Lit(LiteralView::Bool(b)), record, env) == Some(Tree::Bool(b)),
        value_of(ValueExprView::Lit(LiteralView::Null), record, env) == Some(Tree::Null),
{
}

proof fn lemma_follow_further(t: Tree, path: Seq<Seq<char>>, name: Seq<char>, i: nat)
    requires
        i <= path.len(),
    ensures
        follow(t, path.push(name), i as int) == (match follow(t, path, i as int) {
            Some(x) => follow(x, seq![name], 0),
            None => None,
        }),
    decreases path.len() - i,
{
    let longer = path.push(name);
    if i == path.len() {
        assert(longer[i as int] == name);
        assert(follow(t, path, i as int) == Some(t));
        assert(seq![name][0] == name);
        match t {
            Tree::Object(fields) => {
                if let Some(x) = field(fields, name) {
                    assert(follow(x, longer, i as int + 1) == Some(x));
                    assert(follow(x, seq![name], 1) == Some(x));
                }
            },
            Tree::Array(items) => {
                if let Some(n) = index_in(name) {
                    if n < items.len() {
                        let x = items[n as int];
                        assert(follow(x, longer, i as int + 1) == Some(x));
                        assert(follow(x, seq![name], 1) == Some(x));
                    }
                }
            },
            _ => {},
        }
    } else {
        assert(longer[i as int] == path[i as int]);
        match t {
            Tree::Object(fields) => {
                if let Some(x) = field(fields, path[i as int]) {
                    lemma_follow_further(x, path, name, i + 1);
                }
            },
            Tree::Array(items) => {
                if let Some(n) = index_in(path[i as int]) {
                    if n < items.len() {
                        lemma_follow_further(items[n as int], path, name, i + 1);
                    }
                }
            },
            _ => {},
        }
    }
}

/// A path of one name finds the field of that name, and a longer one goes on from
/// what the path before its last name finds: to a field of an object, to nothing in
/// what holds no fields.
pub proof fn law_paths_go_step_by_step(record: Fields, path: Seq<Seq<char>>, name: Seq<char>)
    ensures
        found_at(record, seq![name]) == field(record, name),
        path.len() > 0 ==> (match found_at(record, path) {
            Some(Tree::Object(f)) => found_at(record, path.push(name)) == field(f, name),
            Some(Tree::Array(_)) => true,
            _ => found_at(record, path.push(name)) is None,
        }),
{
    if let Some(x) = field(record, name) {
        assert(follow(x, seq![name], 1) == Some(x));
    }
    if path.len() > 0 {
        assert(path.push(name)[0] == path[0]);
        if let Some(x) = field(record, path[0]) {
            lemma_follow_further(x, path, name, 1);
            if let Some(Tree::Object(f)) = follow(x, path, 1) {
                if let Some(y) = field(f, name) {
                    assert(follow(y, seq![name], 1) == Some(y));
                }
            }
        }
    }
}

/// A number in a path picks the member of an array at that place, counted from zero.
pub proof fn law_paths_count_into_arrays(
    record: Fields,
    path: Seq<Seq<char>>,
    items: Seq<Tree>,
    n: nat,
)
    requires
        path.len() > 0,
        found_at(record, path) == Some(Tree::Array(items)),
    ensures
        found_at(record, path.push(nat_text(n))) == (if n < items.len() {
            Some(items[n as int])
        } else {
            None
        }),
{
    let name = nat_text(n);
    lemma_nat_text_reads(n);
    lemma_all_digits_end(name, 0);
    assert(digit(name[0]));
    assert(name.subrange(0, name.len() as int) =~= name);
    assert(index_in(name) == Some(n));
    assert(path.push(name)[0] == path[0]);
    let x = field(record, path[0])->0;
    lemma_follow_further(x, path, name, 1);
    if n < items.len() {
        assert(follow(items[n as int], seq![name], 1) == Some(items[n as int]));
    }
}

proof fn lemma_all_digits_end(s: Seq<char>, i: int)
    requires
        0 <= i <= s.len(),
        forall|j: int| i <= j < s.len() ==> digit(#[trigger] s[j]),
    ensures
        digits_end(s, i) == s.len(),
    decreases s.len() - i,
{
    if i < s.len() {
        lemma_all_digits_end(s, i + 1);
    }
}

pub proof fn lemma_tight(s: Seq<char>)
    requires
        s.len() > 0,
        !space(s[0]),
        !space(s.last()),
    ensures
        trimmed(s) == s,
{
    assert(skip_space(s, 0) == 0);
    assert(back_space(s, s.len() as int) == s.len());
    assert(s.subrange(0, s.len() as int) =~= s);
}

/// A text reads as a number where it writes a finite one, white space around it left
/// aside, and as a boolean where it writes one in whatever capitals.
pub proof fn law_texts_read_as_what_they_write(s: Seq<char>)
    ensures
        text_number(s) == (if number_in(trimmed(s)) matches Some(n) && n.finite() {
            number_in(trimmed(s))
        } else {
            None
        }),
        text_bool(s) == Some(true) <==> lower_text(trimmed(s)) == "true"@,
        text_bool(s) == Some(false) <==> lower_text(trimmed(s)) == "false"@,
{
    reveal_strlit("true");
    reveal_strlit("false");
    assert("true"@.len() == 4 && "false"@.len() == 5);
}

/// A boolean counts as one or zero, and a text with a unit behind its number as the
/// number.
pub proof fn law_values_read_as_numbers(b: bool, n: Num, a: Seq<char>, d: Seq<char>, u: Seq<char>)
    requires
        n.finite(),
        all_digits(a),
        all_digits(d),
        a.len() > 0,
        u.len() == 0 || (!digit(u[0]) && u[0] != '.' && u[0] != '-' && u[0] != '+' && u[0] != 'e' && u[0]
            != 'E' && !space(u[0]) && !space(u.last())),
        number_in(a + fraction_text(d)) == Some(n),
    ensures
        number_of(Tree::Bool(b)) == Some(whole_int(if b { 1 } else { 0 })),
        number_of(number_tree(n)) == Some(n),
        number_of(Tree::Str(a + fraction_text(d) + u)) == Some(n),
        number_of(Tree::Null) is None,
{
    let w = a + fraction_text(d);
    let s = w + u;
    lemma_plain_ends(a, d);
    assert(s[0] == w[0]);
    assert(s.last() == if u.len() > 0 {
        u.last()
    } else {
        w.last()
    });
    lemma_tight(s);
    lemma_tight(w);
    if u.len() == 0 {
        assert(s =~= w);
    } else {
        lemma_no_number(a, d, u);
        assert(s[w.len() as int] == u[0]);
        assert forall|j: int| 0 <= j < w.len() implies digit(#[trigger] s[j]) || s[j] == '.' by {
            assert(s[j] == w[j]);
        }
        lemma_numeric_run(s, 0, w.len() as int);
        assert(s.subrange(0, w.len() as int) =~= w);
    }
}

proof fn lemma_plain_ends(a: Seq<char>, d: Seq<char>)
    requires
        all_digits(a),
        all_digits(d),
        a.len() > 0,
    ensures
        ({
            let w = a + fraction_text(d);
            &&& w.len() > 0
            &&& !space(w[0]) && !space(w.last())
            &&& digit(w[0])
            &&& forall|j: int| 0 <= j < w.len() ==> digit(#[trigger] w[j]) || w[j] == '.'
        }),
{
    let w = a + fraction_text(d);
    assert(w[0] == a[0]);
    assert(digit(a[0]));
    if d.len() > 0 {
        assert(w.last() == d.last());
        assert(digit(d[d.len() - 1]));
    } else {
        assert(w.last() == a.last());
        assert(digit(a[a.len() - 1]));
    }
    assert forall|j: int| 0 <= j < w.len() implies digit(#[trigger] w[j]) || w[j] == '.' by {
        if j < a.len() {
            assert(w[j] == a[j]);
        } else if j > a.len() {
            assert(w[j] == d[j - a.len() - 1]);
        }
    }
}

proof fn lemma_numeric_run(s: Seq<char>, i: int, e: int)
    requires
        0 <= i <= e < s.len(),
        forall|j: int| i <= j < e ==> digit(#[trigger] s[j]) || s[j] == '.',
        !digit(s[e]) && s[e] != '.' && s[e] != '-' && s[e] != '+',
    ensures
        numeric_end(s, i) == e,
    decreases e - i,
{
    if i < e {
        lemma_numeric_run(s, i + 1, e);
    }
}

proof fn lemma_digit_run(s: Seq<char>, i: int, e: int)
    requires
        0 <= i <= e < s.len(),
        forall|j: int| i <= j < e ==> digit(#[trigger] s[j]),
        !digit(s[e]),
    ensures
        digits_end(s, i) == e,
    decreases e - i,
{
    if i < e {
        lemma_digit_run(s, i + 1, e);
    }
}

/// A number with something behind it that is no part of a number is none.
proof fn lemma_no_number(a: Seq<char>, d: Seq<char>, u: Seq<char>)
    requires
        all_digits(a),
        all_digits(d),
        a.len() > 0,
        u.len() > 0,
        !digit(u[0]) && u[0] != '.' && u[0] != 'e' && u[0] != 'E',
    ensures
        number_in(a + fraction_text(d) + u) is None,
{
    let w = a + fraction_text(d);
    let s = w + u;
    let n = a.len() as int;
    assert(digit(a[0]));
    assert(s[0] == a[0]);
    assert forall|j: int| 0 <= j < n implies digit(#[trigger] s[j]) by {
        assert(s[j] == a[j]);
    }
    assert(s[w.len() as int] == u[0]);
    if d.len() == 0 {
        lemma_digit_run(s, 0, n);
    } else {
        assert(s[n] == '.');
        lemma_digit_run(s, 0, n);
        assert forall|j: int| n + 1 <= j < w.len() implies digit(#[trigger] s[j]) by {
            assert(s[j] == d[j - n - 1]);
        }
        lemma_digit_run(s, n + 1, w.len() as int);
    }
}

/// A text such as `1.5h` is that many milliseconds, and a number is in milliseconds
/// already.
pub proof fn law_durations_are_counted_in_milliseconds(
    n: Num,
    a: Seq<char>,
    d: Seq<char>,
    u: Seq<char>,
)
    requires
        all_digits(a),
        all_digits(d),
        a.len() > 0,
        n.finite(),
        number_in(a + fraction_text(d)) == Some(n),
        unit_seconds(u) is Some,
    ensures
        duration_ms_of(number_tree(n)) == Some(n),
        duration_ms_of(Tree::Str(a + fraction_text(d))) == Some(n),
        duration_ms_of(Tree::Str(a + fraction_text(d) + u)) == Some(
            product(product(n, unit_seconds(u)->0), whole_int(1000)),
        ),
{
    let w = a + fraction_text(d);
    let s = w + u;
    law_durations_are_counted_in_seconds(a, d, u);
    reveal_strlit("ms");
    reveal_strlit("s");
    reveal_strlit("m");
    reveal_strlit("h");
    reveal_strlit("d");
    assert("ms"@.len() == 2 && "ms"@[0] == 'm' && "ms"@[1] == 's');
    assert("s"@.len() == 1 && "s"@[0] == 's');
    assert("m"@.len() == 1 && "m"@[0] == 'm');
    assert("h"@.len() == 1 && "h"@[0] == 'h');
    assert("d"@.len() == 1 && "d"@[0] == 'd');
    lemma_plain_ends(a, d);
    assert(s[0] == w[0]);
    assert(s.last() == u.last());
    lemma_tight(s);
    lemma_tight(w);
    lemma_no_number(a, d, u);
}

/// A number read as a time is in seconds, or in milliseconds where it is a hundred
/// thousand million or more away from zero. A timestamp that a text writes comes
/// before a number.
pub proof fn law_large_times_are_in_milliseconds(n: Num, s: Seq<char>, t: Num)
    requires
        n.finite(),
    ensures
        n.magnitude() < 100_000_000_000 * one() ==> epoch_of(number_tree(n)) == Some(n),
        n.magnitude() >= 100_000_000_000 * one() ==> epoch_of(number_tree(n)) == Some(
            ratio(n, whole_int(1000)),
        ),
        rfc3339_in(trimmed(s)) == Some(t) ==> epoch_of(Tree::Str(s)) == Some(t),
        rfc3339_in(trimmed(s)) is None ==> epoch_of(Tree::Str(s)) == (match text_number(s) {
            Some(x) => epoch_of(number_tree(x)),
            None => None,
        }),
{
    lemma_whole_parts(100_000_000_000);
    lemma_negated(n);
    lemma_trimmed_twice(s);
}

proof fn lemma_trimmed_twice(s: Seq<char>)
    ensures
        trimmed(trimmed(s)) == trimmed(s),
{
    law_trimming_takes_white_space_from_the_ends(s);
    let t = trimmed(s);
    if t.len() > 0 {
        lemma_tight(t);
    } else {
        assert(trimmed(t) =~= t);
    }
}

/// `ts` and `duration_ms` give what a value reads as, `now` the time that the query runs
/// at, and `format_time` the time in a zone, which is UTC where none is named.
pub proof fn law_time_functions_go_by_the_readings(
    v: Tree,
    zone: Tree,
    s: Seq<char>,
    t: Num,
    env: Env,
)
    requires
        epoch_of(v) == Some(t),
        text_of(zone) == Some(s),
    ensures
        call_value(Func::Ts, seq![Some(v)], env) == Some(number_tree(t)),
        duration_ms_of(v) matches Some(n) ==> call_value(Func::DurationMs, seq![Some(v)], env)
            == Some(number_tree(n)),
        call_value(Func::Now, Seq::empty(), env) == Some(number_tree(env.now)),
        call_value(Func::FormatTime, seq![Some(v)], env) == Some(Tree::Str(epoch_text(t, 0))),
        call_value(Func::FormatTime, two(v, zone), env) == (match tz_in(s, env.local_offset as int) {
            Some(offset) => Some(Tree::Str(epoch_text(t, offset))),
            None => None,
        }),
{
    let one = seq![Some(v)];
    let both = two(v, zone);
    assert(one.len() == 1 && one[0] == Some(v));
    assert(both.len() == 2 && both[0] == Some(v) && both[1] == Some(zone));
}

} // verus!
