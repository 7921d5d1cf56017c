//! What holds of the functions on texts: what they cut, join, find and replace.

use crate::ast::Func;
use crate::eval::{
    arg, arg_number, arg_text, call_value, first_present, joined, number_of, number_tree, occurs,
    part_end, part_start, replaced_from, text_of, Env,
};
use crate::like::holds_at;
use crate::num::{lemma_whole_parts, one, whole_int, whole_part, Num};
use crate::text::{back_space, lowercase_of, skip_space, space, trimmed, uppercase_of};
use crate::value::{Fields, Tree};
use vstd::prelude::*;

verus! {

/// Pieces with a text between each two.
pub open spec fn joined_by(pieces: Seq<Seq<char>>, between: Seq<char>) -> Seq<char>
    decreases pieces.len(),
{
    if pieces.len() == 0 {
        Seq::empty()
    } else if pieces.len() == 1 {
        pieces[0]
    } else {
        pieces[0] + (between + joined_by(pieces.skip(1), between))
    }
}

/// Whether pieces are what a text falls into where another is sought in it from the
/// left: no piece holds it, nor does it occur before the end of a piece that it
/// follows.
pub open spec fn cut_by(pieces: Seq<Seq<char>>, sought: Seq<char>) -> bool {
    &&& pieces.len() > 0
    &&& forall|i: int, j: int|
        0 <= i < pieces.len() ==> !#[trigger] holds_at(pieces[i], j, sought)
    &&& forall|i: int, j: int|
        0 <= i < pieces.len() - 1 && j < pieces[i].len() ==> !#[trigger] holds_at(
            pieces[i] + sought,
            j,
            sought,
        )
}

proof fn lemma_holds_shift(a: Seq<char>, b: Seq<char>, j: int, lit: Seq<char>)
    requires
        holds_at(a + b, j, lit),
        j >= a.len(),
    ensures
        holds_at(b, j - a.len(), lit),
{
    assert(b.subrange(j - a.len(), j - a.len() + lit.len()) =~= (a + b).subrange(
        j,
        j + lit.len(),
    ));
}

proof fn lemma_joined_starts(pieces: Seq<Seq<char>>, between: Seq<char>, c: Seq<char>)
    requires
        pieces.len() > 0,
    ensures
        joined_by(seq![c + pieces[0]] + pieces.skip(1), between) == c + joined_by(pieces, between),
        joined_by(seq![c] + pieces, between) == c + (between + joined_by(pieces, between)),
{
    let now = seq![c + pieces[0]] + pieces.skip(1);
    assert(now.skip(1) =~= pieces.skip(1));
    assert(now[0] == c + pieces[0]);
    assert(joined_by(now, between) =~= c + joined_by(pieces, between));
    let more = seq![c] + pieces;
    assert(more.skip(1) =~= pieces);
    assert(more[0] == c);
}

proof fn lemma_replaced(s: Seq<char>, i: int, from: Seq<char>, to: Seq<char>) -> (pieces: Seq<
    Seq<char>,
>)
    requires
        0 <= i <= s.len(),
        from.len() > 0,
    ensures
        cut_by(pieces, from),
        joined_by(pieces, from) == s.skip(i),
        joined_by(pieces, to) == replaced_from(s, i, from, to),
    decreases s.len() - i,
{
    if i == s.len() {
        let pieces = seq![Seq::<char>::empty()];
        assert(s.skip(i) =~= Seq::<char>::empty());
        pieces
    } else if holds_at(s, i, from) {
        let rest = lemma_replaced(s, i + from.len(), from, to);
        let none = Seq::<char>::empty();
        let pieces = seq![none] + rest;
        lemma_joined_starts(rest, from, none);
        lemma_joined_starts(rest, to, none);
        assert(s.skip(i) =~= from + s.skip(i + from.len()));
        assert(joined_by(pieces, from) =~= from + joined_by(rest, from));
        assert(joined_by(pieces, to) =~= to + joined_by(rest, to));
        assert forall|k: int, j: int| 0 <= k < pieces.len() implies !#[trigger] holds_at(
            pieces[k],
            j,
            from,
        ) by {
            if k > 0 {
                assert(pieces[k] == rest[k - 1]);
            }
        }
        assert forall|k: int, j: int|
            0 <= k < pieces.len() - 1 && j < pieces[k].len() implies !#[trigger] holds_at(
            pieces[k] + from,
            j,
            from,
        ) by {
            if k > 0 {
                assert(pieces[k] == rest[k - 1]);
            }
        }
        pieces
    } else {
        let rest = lemma_replaced(s, i + 1, from, to);
        let c = seq![s[i]];
        let head = c + rest[0];
        let pieces = seq![head] + rest.skip(1);
        lemma_joined_starts(rest, from, c);
        lemma_joined_starts(rest, to, c);
        assert(s.skip(i) =~= c + s.skip(i + 1));
        assert(pieces[0] == head);
        let tail = joined_by(pieces, from);
        assert(tail == s.skip(i));
        assert forall|j: int| !#[trigger] holds_at(head, j, from) by {
            if holds_at(head, j, from) {
                if j >= 1 {
                    lemma_holds_shift(c, rest[0], j, from);
                } else {
                    lemma_first_holds(s, i, pieces, from, head);
                }
            }
        }
        assert forall|k: int, j: int| 0 <= k < pieces.len() implies !#[trigger] holds_at(
            pieces[k],
            j,
            from,
        ) by {
            if k > 0 {
                assert(pieces[k] == rest[k]);
            }
        }
        assert forall|k: int, j: int|
            0 <= k < pieces.len() - 1 && j < pieces[k].len() implies !#[trigger] holds_at(
            pieces[k] + from,
            j,
            from,
        ) by {
            if k > 0 {
                assert(pieces[k] == rest[k]);
            } else if holds_at(head + from, j, from) {
                assert(head + from =~= c + (rest[0] + from));
                if j >= 1 {
                    lemma_holds_shift(c, rest[0] + from, j, from);
                } else {
                    lemma_first_holds(s, i, pieces, from, head + from);
                }
            }
        }
        pieces
    }
}

/// A text that starts the rest of another, and holds a third at its start, makes
/// that other hold it.
proof fn lemma_first_holds(
    s: Seq<char>,
    i: int,
    pieces: Seq<Seq<char>>,
    from: Seq<char>,
    start: Seq<char>,
)
    requires
        0 <= i <= s.len(),
        pieces.len() > 0,
        joined_by(pieces, from) == s.skip(i),
        start == pieces[0] || (pieces.len() > 1 && start == pieces[0] + from),
        holds_at(start, 0, from),
    ensures
        holds_at(s, i, from),
{
    let all = s.skip(i);
    let n = start.len() as int;
    if pieces.len() > 1 {
        assert(all =~= (pieces[0] + from) + joined_by(pieces.skip(1), from));
    }
    assert(n <= all.len());
    assert(all.take(n) =~= start);
    assert(s.subrange(i, i + from.len()) =~= all.take(n).subrange(0, from.len() as int));
}

/// Three values as arguments.
pub open spec fn three(a: Tree, b: Tree, c: Tree) -> Seq<Option<Tree>> {
    seq![Some(a), Some(b), Some(c)]
}

/// Two values as arguments.
pub open spec fn two(a: Tree, b: Tree) -> Seq<Option<Tree>> {
    seq![Some(a), Some(b)]
}

/// `replace` puts a text in place of each occurrence of another, found from the
/// left: what lies between the occurrences stays as it is, and nothing of them does.
/// Where nothing is sought, nothing is replaced.
pub proof fn law_replace_keeps_what_lies_between(
    v: Tree,
    a: Tree,
    b: Tree,
    s: Seq<char>,
    from: Seq<char>,
    to: Seq<char>,
    env: Env,
)
    requires
        text_of(v) == Some(s),
        text_of(a) == Some(from),
        text_of(b) == Some(to),
    ensures
        from.len() > 0 ==> exists|pieces: Seq<Seq<char>>| #[trigger]
            cut_by(pieces, from) && joined_by(pieces, from) == s && call_value(
                Func::Replace,
                three(v, a, b),
                env,
            ) == Some(Tree::Str(joined_by(pieces, to))),
        from.len() == 0 ==> call_value(Func::Replace, three(v, a, b), env) == Some(Tree::Str(s)),
{
    let args = three(v, a, b);
    assert(arg(args, 0) == Some(v));
    assert(arg_text(args, 1) == Some(from));
    assert(arg_text(args, 2) == Some(to));
    if from.len() > 0 {
        let pieces = lemma_replaced(s, 0, from, to);
        assert(s.skip(0) =~= s);
    }
}

/// Replacing a text by itself changes nothing.
pub proof fn law_replacing_by_the_same_changes_nothing(
    v: Tree,
    a: Tree,
    s: Seq<char>,
    from: Seq<char>,
    env: Env,
)
    requires
        text_of(v) == Some(s),
        text_of(a) == Some(from),
    ensures
        call_value(Func::Replace, three(v, a, a), env) == Some(Tree::Str(s)),
{
    law_replace_keeps_what_lies_between(v, a, a, s, from, from, env);
}

/// `contains` holds where the text has the sought one somewhere within,
/// `starts_with` where it begins with it, and `ends_with` where it ends with it.
pub proof fn law_texts_are_found(
    v: Tree,
    a: Tree,
    s: Seq<char>,
    sought: Seq<char>,
    env: Env,
)
    requires
        text_of(v) == Some(s),
        text_of(a) == Some(sought),
    ensures
        call_value(Func::Contains, two(v, a), env) == Some(
            Tree::Bool(
                exists|x: Seq<char>, y: Seq<char>| #[trigger] (x + sought + y) == s,
            ),
        ),
        call_value(Func::StartsWith, two(v, a), env) == Some(
            Tree::Bool(exists|y: Seq<char>| #[trigger] (sought + y) == s),
        ),
        call_value(Func::EndsWith, two(v, a), env) == Some(
            Tree::Bool(exists|x: Seq<char>| #[trigger] (x + sought) == s),
        ),
{
    let args = two(v, a);
    assert(arg(args, 0) == Some(v));
    assert(arg_text(args, 1) == Some(sought));
    let n = sought.len() as int;
    if occurs(s, sought) {
        let i = choose|i: int| #[trigger] holds_at(s, i, sought);
        let x = s.take(i);
        let y = s.skip(i + n);
        assert((x + sought + y) =~= s);
    }
    if exists|x: Seq<char>, y: Seq<char>| #[trigger] (x + sought + y) == s {
        let (x, y) = choose|x: Seq<char>, y: Seq<char>| #[trigger] (x + sought + y) == s;
        assert(s.subrange(x.len() as int, x.len() + n) =~= sought);
        assert(holds_at(s, x.len() as int, sought));
    }
    if holds_at(s, 0, sought) {
        assert((sought + s.skip(n)) =~= s);
    }
    if exists|y: Seq<char>| #[trigger] (sought + y) == s {
        let y = choose|y: Seq<char>| #[trigger] (sought + y) == s;
        assert(s.subrange(0, n) =~= sought);
    }
    if holds_at(s, s.len() - n, sought) {
        assert((s.take(s.len() - n) + sought) =~= s);
    }
    if exists|x: Seq<char>| #[trigger] (x + sought) == s {
        let x = choose|x: Seq<char>| #[trigger] (x + sought) == s;
        assert(s.subrange(x.len() as int, x.len() + n) =~= sought);
    }
}

/// Whether a text is white space alone.
pub open spec fn blank(s: Seq<char>) -> bool {
    forall|i: int| 0 <= i < s.len() ==> space(#[trigger] s[i])
}

proof fn lemma_blank_ahead(s: Seq<char>, i: int)
    requires
        0 <= i <= s.len(),
    ensures
        i <= skip_space(s, i) <= s.len(),
        forall|j: int| i <= j < skip_space(s, i) ==> space(#[trigger] s[j]),
        skip_space(s, i) < s.len() ==> !space(s[skip_space(s, i)]),
    decreases s.len() - i,
{
    if i < s.len() && space(s[i]) {
        lemma_blank_ahead(s, i + 1);
    }
}

proof fn lemma_blank_behind(s: Seq<char>, i: int)
    requires
        0 <= i <= s.len(),
    ensures
        0 <= back_space(s, i) <= i,
        forall|j: int| back_space(s, i) <= j < i ==> space(#[trigger] s[j]),
        back_space(s, i) > 0 ==> !space(s[back_space(s, i) - 1]),
    decreases i,
{
    if i > 0 && space(s[i - 1]) {
        lemma_blank_behind(s, i - 1);
    }
}

/// Trimming takes white space from both ends and nothing else, and leaves none
/// there.
pub proof fn law_trimming_takes_white_space_from_the_ends(s: Seq<char>)
    ensures
        exists|x: Seq<char>, y: Seq<char>|
            #[trigger] (x + trimmed(s) + y) == s && blank(x) && blank(y),
        trimmed(s).len() > 0 ==> !space(trimmed(s)[0]) && !space(trimmed(s).last()),
{
    let n = s.len() as int;
    let t = trimmed(s);
    lemma_blank_ahead(s, 0);
    lemma_blank_behind(s, n);
    let a = skip_space(s, 0);
    let b = back_space(s, n);
    if a >= n {
        assert((s + t + Seq::<char>::empty()) =~= s);
        assert(blank(s) && blank(Seq::<char>::empty()));
    } else {
        assert(a < b);
        let x = s.take(a);
        let y = s.skip(b);
        assert((x + t + y) =~= s);
        assert(blank(x) && blank(y));
    }
}

/// `trim` gives the text without the white space at its ends, `lower` and `upper`
/// the text in small letters and in capitals, of whatever reads as text.
pub proof fn law_texts_are_trimmed_and_recased(v: Tree, s: Seq<char>, env: Env)
    requires
        text_of(v) == Some(s),
    ensures
        call_value(Func::Trim, seq![Some(v)], env) == Some(Tree::Str(trimmed(s))),
        call_value(Func::Lower, seq![Some(v)], env) == Some(Tree::Str(lowercase_of(s))),
        call_value(Func::Upper, seq![Some(v)], env) == Some(Tree::Str(uppercase_of(s))),
{
    assert(arg(seq![Some(v)], 0) == Some(v));
}

/// What a joining of texts gives, as a text.
pub open spec fn text_given(v: Option<Tree>) -> Seq<char> {
    match v {
        Some(Tree::Str(s)) => s,
        _ => Seq::empty(),
    }
}

/// `concat` of nothing is missing; one more argument adds its text at the end, and
/// one that is missing or reads as no text adds nothing.
pub proof fn law_concat_adds_texts_up(args: Seq<Option<Tree>>, more: Tree, env: Env)
    ensures
        call_value(Func::Concat, Seq::empty(), env) is None,
        call_value(Func::Concat, args.push(None), env) == call_value(Func::Concat, args, env),
        text_of(more) is None ==> call_value(Func::Concat, args.push(Some(more)), env)
            == call_value(Func::Concat, args, env),
        text_of(more) matches Some(s) ==> call_value(Func::Concat, args.push(Some(more)), env)
            == Some(Tree::Str(text_given(call_value(Func::Concat, args, env)) + s)),
{
    let n = args.len();
    lemma_joined_prefix(args.push(None), args, n);
    lemma_joined_prefix(args.push(Some(more)), args, n);
    lemma_joined_nothing(args, n);
}

proof fn lemma_joined_prefix(a: Seq<Option<Tree>>, b: Seq<Option<Tree>>, n: nat)
    requires
        n <= a.len(),
        n <= b.len(),
        forall|i: int| 0 <= i < n ==> a[i] == b[i],
    ensures
        joined(a, n) == joined(b, n),
    decreases n,
{
    if n > 0 {
        lemma_joined_prefix(a, b, (n - 1) as nat);
    }
}

proof fn lemma_joined_nothing(args: Seq<Option<Tree>>, n: nat)
    ensures
        !joined(args, n).1 ==> joined(args, n).0 == Seq::<char>::empty(),
    decreases n,
{
    if 0 < n <= args.len() {
        lemma_joined_nothing(args, (n - 1) as nat);
    }
}

/// Whether an argument is there and not null.
pub open spec fn given(v: Option<Tree>) -> bool {
    v matches Some(t) && !(t is Null)
}

/// `coalesce` gives the first of its arguments that is there and not null, as it is,
/// and is missing where there is none.
pub proof fn law_coalesce_gives_the_first(args: Seq<Option<Tree>>, env: Env)
    ensures
        (forall|i: int| 0 <= i < args.len() ==> !given(#[trigger] args[i])) ==> call_value(
            Func::Coalesce,
            args,
            env,
        ) is None,
        forall|i: int|
            0 <= i < args.len() && given(#[trigger] args[i]) && (forall|j: int|
                0 <= j < i ==> !given(#[trigger] args[j])) ==> call_value(Func::Coalesce, args, env)
                == args[i],
{
    if forall|i: int| 0 <= i < args.len() ==> !given(#[trigger] args[i]) {
        lemma_first_given(args, 0, args.len() as int);
    }
    assert forall|i: int|
        0 <= i < args.len() && given(#[trigger] args[i]) && (forall|j: int|
            0 <= j < i ==> !given(#[trigger] args[j])) implies call_value(Func::Coalesce, args, env)
        == args[i] by {
        lemma_first_given(args, 0, i);
    }
}

proof fn lemma_first_given(args: Seq<Option<Tree>>, from: int, i: int)
    requires
        0 <= from <= i <= args.len(),
        forall|j: int| from <= j < i ==> !given(#[trigger] args[j]),
        i < args.len() ==> given(args[i]),
    ensures
        first_present(args, from) == (if i < args.len() {
            args[i]
        } else {
            None
        }),
    decreases i - from,
{
    if from < i {
        assert(!given(args[from]));
        lemma_first_given(args, from + 1, i);
    }
}

/// `len` gives how many characters a text has, how many values an array, and how
/// many fields an object; of anything else it is missing.
pub proof fn law_lengths_are_counted(
    s: Seq<char>,
    items: Seq<Tree>,
    fields: Fields,
    other: Tree,
    env: Env,
)
    requires
        !(other is Str),
        !(other is Array),
        !(other is Object),
    ensures
        call_value(Func::Len, seq![Some(Tree::Str(s))], env) == Some(
            number_tree(whole_int(s.len() as int)),
        ),
        call_value(Func::Len, seq![Some(Tree::Array(items))], env) == Some(
            number_tree(whole_int(items.len() as int)),
        ),
        call_value(Func::Len, seq![Some(Tree::Object(fields))], env) == Some(
            number_tree(whole_int(fields.len() as int)),
        ),
        call_value(Func::Len, seq![Some(other)], env) is None,
{
    assert(arg(seq![Some(Tree::Str(s))], 0) == Some(Tree::Str(s)));
    assert(arg(seq![Some(Tree::Array(items))], 0) == Some(Tree::Array(items)));
    assert(arg(seq![Some(Tree::Object(fields))], 0) == Some(Tree::Object(fields)));
    assert(arg(seq![Some(other)], 0) == Some(other));
}

/// A number without what stands behind its point.
pub open spec fn cut_off(x: Num) -> int {
    if x.neg() {
        -(whole_part(x) as int)
    } else {
        whole_part(x) as int
    }
}

/// A place kept within a text of some length.
pub open spec fn within(i: int, len: int) -> int {
    if i < 0 {
        0
    } else if i > len {
        len
    } else {
        i
    }
}

/// `substr` gives the part of a text from a place on, a negative place counted from
/// the end, and no more characters than it is asked for; what lies outside the text
/// is left out. A fraction is cut off.
pub proof fn law_substr_gives_a_part(
    v: Tree,
    start: Tree,
    count: Tree,
    s: Seq<char>,
    x: Num,
    y: Num,
    env: Env,
)
    requires
        text_of(v) == Some(s),
        number_of(start) == Some(x),
        number_of(count) == Some(y),
    ensures
        ({
            let n = s.len() as int;
            let i = cut_off(x);
            let begin = within(if i < 0 { n + i } else { i }, n);
            let end = within(begin + (if cut_off(y) < 0 { 0 } else { cut_off(y) }), n);
            &&& call_value(Func::Substr, two(v, start), env) == Some(Tree::Str(s.skip(begin)))
            &&& call_value(Func::Substr, three(v, start, count), env) == Some(
                Tree::Str(s.subrange(begin, end)),
            )
        }),
{
    let n = s.len() as int;
    let a = two(v, start);
    let b = three(v, start, count);
    assert(arg(a, 0) == Some(v));
    assert(arg(b, 0) == Some(v));
    assert(arg_number(a, 1) == Some(x));
    assert(arg_number(b, 1) == Some(x));
    assert(arg_number(b, 2) == Some(y));
    let i = cut_off(x);
    let begin = within(if i < 0 { n + i } else { i }, n);
    assert(part_start(s.len(), x) == begin);
    assert(s.skip(begin) =~= s.subrange(begin, n));
    vstd::arithmetic::power2::lemma_pow2_pos(1074);
    if y.magnitude() == 0 {
        vstd::arithmetic::div_mod::lemma_basic_div(0, one() as int);
    }
    let end = within(begin + (if cut_off(y) < 0 { 0 } else { cut_off(y) }), n);
    assert(part_end(s.len(), begin, y) == end);
}

/// Of whole numbers nothing is cut off.
pub proof fn law_whole_numbers_are_not_cut(n: int)
    requires
        -0x20_0000_0000_0000 < n < 0x20_0000_0000_0000,
    ensures
        cut_off(whole_int(n)) == n,
{
    lemma_whole_parts(n);
}

} // verus!
