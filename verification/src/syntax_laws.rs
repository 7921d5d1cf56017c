//! What holds of queries as they are written: paths are cut at their dots, functions
//! take the arguments that they are made for, and a grouping determines its rows.

use crate::ast::{
    aggregate_in, any_aggregate, dotted, grouped, same_expr, same_exprs, Agg, ArithOp, Func,
    OrderByView, QueryView, SelectItemView, SelectionView, ValueExprView,
};
use crate::lexer::{Fault, Kind, Tok};
use crate::num::{lemma_whole_parts, one, rest_part, whole_int, HIDDEN, Num};
use crate::parser::{
    agg_at, aggregate_in_expr, all_grounded, anchored, any_anchored, arity_fault, determined,
    grounded, grouping_fault, is_key, item_at, limit_at, order_at, undetermined_from, value_at,
    where_at,
};
use vstd::prelude::*;

verus! {

/// Names with a dot between each two.
pub open spec fn with_dots(parts: Seq<Seq<char>>) -> Seq<char>
    decreases parts.len(),
{
    if parts.len() == 0 {
        Seq::empty()
    } else if parts.len() == 1 {
        parts[0]
    } else {
        with_dots(parts.drop_last()) + seq!['.'] + parts.last()
    }
}

/// Whether no dot stands in a name.
pub open spec fn dotless(s: Seq<char>) -> bool {
    forall|i: int| 0 <= i < s.len() ==> #[trigger] s[i] != '.'
}

proof fn lemma_dotted(s: Seq<char>, w: Seq<char>)
    requires
        dotless(w),
    ensures
        dotted(s).len() > 0,
        dotted(s + w) == dotted(s).drop_last().push(dotted(s).last() + w),
    decreases s.len() + w.len(), w.len(),
{
    if w.len() == 0 {
        if s.len() > 0 {
            let e = Seq::<char>::empty();
            lemma_dotted(s.drop_last(), e);
        }
        assert(s + w =~= s);
        assert(dotted(s).last() + w =~= dotted(s).last());
        assert(dotted(s).drop_last().push(dotted(s).last()) =~= dotted(s));
    } else {
        let v = w.drop_last();
        let c = w.last();
        assert(w[w.len() - 1] != '.');
        assert forall|i: int| 0 <= i < v.len() implies #[trigger] v[i] != '.' by {
            assert(v[i] == w[i]);
        }
        lemma_dotted(s, v);
        let t = s + w;
        assert(t.drop_last() =~= s + v);
        assert(t.last() == c);
        let parts = dotted(s).drop_last().push(dotted(s).last() + v);
        assert(dotted(t) == parts.drop_last().push(parts.last().push(c)));
        assert((dotted(s).last() + v).push(c) =~= dotted(s).last() + w);
        assert(parts.drop_last() =~= dotted(s).drop_last());
    }
}

/// A path reads back as the names that it writes: it is cut at its dots and nowhere
/// else.
pub proof fn law_paths_are_cut_at_their_dots(parts: Seq<Seq<char>>)
    requires
        parts.len() > 0,
        forall|i: int| 0 <= i < parts.len() ==> dotless(#[trigger] parts[i]),
    ensures
        dotted(with_dots(parts)) == parts,
    decreases parts.len(),
{
    let none = Seq::<char>::empty();
    if parts.len() == 1 {
        assert(dotless(parts[0]));
        lemma_dotted(none, parts[0]);
        assert(none + parts[0] =~= parts[0]);
        assert(dotted(none) =~= seq![none]);
        assert(dotted(parts[0]) =~= parts);
    } else {
        let rest = parts.drop_last();
        assert forall|i: int| 0 <= i < rest.len() implies dotless(#[trigger] rest[i]) by {
            assert(rest[i] == parts[i]);
        }
        law_paths_are_cut_at_their_dots(rest);
        let head = with_dots(rest) + seq!['.'];
        assert(head.drop_last() =~= with_dots(rest));
        assert(head.last() == '.');
        assert(dotted(head) == rest.push(none));
        assert(dotless(parts[parts.len() - 1]));
        lemma_dotted(head, parts.last());
        assert(none + parts.last() =~= parts.last());
        assert(dotted(head).drop_last() =~= rest);
        assert(dotted(with_dots(parts)) =~= parts);
    }
}

/// How many arguments each function takes: any other number is a fault.
pub proof fn law_functions_take_their_arguments(n: nat, col: int)
    ensures
        arity_fault(Func::Now, n, col) is None <==> n == 0,
        arity_fault(Func::Lower, n, col) is None <==> n == 1,
        arity_fault(Func::Upper, n, col) is None <==> n == 1,
        arity_fault(Func::Trim, n, col) is None <==> n == 1,
        arity_fault(Func::Len, n, col) is None <==> n == 1,
        arity_fault(Func::Num, n, col) is None <==> n == 1,
        arity_fault(Func::DurationMs, n, col) is None <==> n == 1,
        arity_fault(Func::Ts, n, col) is None <==> n == 1,
        arity_fault(Func::Abs, n, col) is None <==> n == 1,
        arity_fault(Func::Floor, n, col) is None <==> n == 1,
        arity_fault(Func::Ceil, n, col) is None <==> n == 1,
        arity_fault(Func::Round, n, col) is None <==> 1 <= n <= 2,
        arity_fault(Func::FormatTime, n, col) is None <==> 1 <= n <= 2,
        arity_fault(Func::Contains, n, col) is None <==> n == 2,
        arity_fault(Func::StartsWith, n, col) is None <==> n == 2,
        arity_fault(Func::EndsWith, n, col) is None <==> n == 2,
        arity_fault(Func::Bucket, n, col) is None <==> n == 2,
        arity_fault(Func::Substr, n, col) is None <==> 2 <= n <= 3,
        arity_fault(Func::Replace, n, col) is None <==> n == 3,
        arity_fault(Func::Coalesce, n, col) is None <==> n >= 1,
        arity_fault(Func::Concat, n, col) is None <==> n >= 1,
{
}

/// Whether a value stands in another: it is that, or stands in one of its parts.
pub open spec fn stands_within(x: ValueExprView, e: ValueExprView) -> bool
    decreases e,
{
    x == e || match e {
        ValueExprView::Call { func, args } => exists|i: int|
            0 <= i < args.len() && stands_within(x, #[trigger] args[i]),
        ValueExprView::Arith { op, left, right } => stands_within(x, *left) || stands_within(
            x,
            *right,
        ),
        ValueExprView::Agg { agg, arg } => match arg {
            Some(a) => stands_within(x, *a),
            None => false,
        },
        _ => false,
    }
}

/// A value takes a whole group where an aggregate stands in it.
pub proof fn law_aggregates_are_found_wherever_they_stand(e: ValueExprView)
    ensures
        aggregate_in(e) <==> exists|x: ValueExprView| x is Agg && #[trigger] stands_within(x, e),
    decreases e, 0nat,
{
    match e {
        ValueExprView::Agg { agg, arg } => {
            assert(stands_within(e, e));
        },
        ValueExprView::Call { func, args } => {
            lemma_any_aggregate(args, args.len());
            if aggregate_in(e) {
                let i = choose|i: int| 0 <= i < args.len() && aggregate_in(#[trigger] args[i]);
                assert(decreases_to!(args => args[i]));
                law_aggregates_are_found_wherever_they_stand(args[i]);
                let x = choose|x: ValueExprView| x is Agg && #[trigger] stands_within(x, args[i]);
                assert(stands_within(x, e));
            }
            if exists|x: ValueExprView| x is Agg && #[trigger] stands_within(x, e) {
                let x = choose|x: ValueExprView| x is Agg && #[trigger] stands_within(x, e);
                let i = choose|i: int| 0 <= i < args.len() && stands_within(x, #[trigger] args[i]);
                assert(decreases_to!(args => args[i]));
                law_aggregates_are_found_wherever_they_stand(args[i]);
                assert(aggregate_in(args[i]));
            }
        },
        ValueExprView::Arith { op, left, right } => {
            law_aggregates_are_found_wherever_they_stand(*left);
            law_aggregates_are_found_wherever_they_stand(*right);
            if aggregate_in(*left) {
                let x = choose|x: ValueExprView| x is Agg && #[trigger] stands_within(x, *left);
                assert(stands_within(x, e));
            }
            if aggregate_in(*right) {
                let x = choose|x: ValueExprView| x is Agg && #[trigger] stands_within(x, *right);
                assert(stands_within(x, e));
            }
            if exists|x: ValueExprView| x is Agg && #[trigger] stands_within(x, e) {
                let x = choose|x: ValueExprView| x is Agg && #[trigger] stands_within(x, e);
                assert(stands_within(x, *left) || stands_within(x, *right));
            }
        },
        _ => {
            assert forall|x: ValueExprView| x is Agg implies !#[trigger] stands_within(x, e) by {}
        },
    }
}

proof fn lemma_any_aggregate(args: Seq<ValueExprView>, n: nat)
    requires
        n <= args.len(),
    ensures
        any_aggregate(args, n) <==> exists|i: int| 0 <= i < n && aggregate_in(#[trigger] args[i]),
    decreases n,
{
    if n > 0 {
        lemma_any_aggregate(args, (n - 1) as nat);
        assert(args[n - 1] == args[n - 1]);
    }
}

/// A query gives one row per group exactly where it groups, sets a condition on groups,
/// or names an aggregate in what it selects or sorts by.
pub proof fn law_aggregates_make_groups(q: QueryView)
    ensures
        grouped(q) <==> q.group_by.len() > 0 || q.having is Some || (q.select matches
            SelectionView::Items(items) && exists|i: int|
            0 <= i < items.len() && aggregate_in((#[trigger] items[i]).value)) || (
        q.order_by matches Some(o) && aggregate_in(o.value)),
{
}

proof fn lemma_same(e: ValueExprView)
    ensures
        same_expr(e, e),
    decreases e, 1nat,
{
    match e {
        ValueExprView::Call { func, args } => {
            lemma_all_same(args, args.len());
        },
        ValueExprView::Arith { op, left, right } => {
            lemma_same(*left);
            lemma_same(*right);
        },
        ValueExprView::Agg { agg, arg } => {
            if let Some(a) = arg {
                lemma_same(*a);
            }
        },
        _ => {},
    }
}

proof fn lemma_all_same(args: Seq<ValueExprView>, n: nat)
    requires
        n <= args.len(),
    ensures
        same_exprs(args, args, n),
    decreases args, n,
{
    if n > 0 {
        assert(decreases_to!(args => args[n - 1]));
        lemma_same(args[n - 1]);
        lemma_all_same(args, (n - 1) as nat);
    }
}

/// What a grouping determines: its keys, aggregates, and what is made of those and of
/// literals, with one of them in it at least. A field that is no key is not determined.
pub proof fn law_groupings_determine_keys_and_aggregates(
    keys: Seq<SelectItemView>,
    k: int,
    agg: Agg,
    arg: Option<Box<ValueExprView>>,
    op: ArithOp,
    a: ValueExprView,
    b: ValueExprView,
    v: ValueExprView,
)
    requires
        0 <= k < keys.len(),
    ensures
        determined(keys[k].value, keys),
        determined(ValueExprView::Agg { agg, arg }, keys),
        v is Field && !is_key(v, keys) ==> !determined(v, keys),
        v is Lit && !is_key(v, keys) ==> !determined(v, keys),
        ({
            let both = ValueExprView::Arith { op, left: Box::new(a), right: Box::new(b) };
            &&& determined(a, keys) && determined(b, keys) ==> determined(both, keys)
            &&& determined(a, keys) && b is Lit ==> determined(both, keys)
            &&& a is Lit && determined(b, keys) ==> determined(both, keys)
            &&& !is_key(both, keys) && (!grounded(a, keys) || !grounded(b, keys)) ==> !determined(
                both,
                keys,
            )
        }),
{
    lemma_same(keys[k].value);
    assert(is_key(keys[k].value, keys));
    reveal_with_fuel(grounded, 2);
    reveal_with_fuel(anchored, 2);
}

proof fn lemma_all_grounded(args: Seq<ValueExprView>, n: nat, keys: Seq<SelectItemView>)
    requires
        n <= args.len(),
    ensures
        all_grounded(args, n, keys) <==> forall|i: int| 0 <= i < n ==> grounded(#[trigger] args[i], keys),
        any_anchored(args, n, keys) <==> exists|i: int| 0 <= i < n && anchored(#[trigger] args[i], keys),
    decreases n,
{
    if n > 0 {
        lemma_all_grounded(args, (n - 1) as nat, keys);
        assert(args[n - 1] == args[n - 1]);
    }
}

/// A call is determined where each of its arguments is a literal or determined, and one
/// is determined.
pub proof fn law_calls_of_what_is_determined_are_determined(
    func: Func,
    args: Seq<ValueExprView>,
    keys: Seq<SelectItemView>,
)
    ensures
        (forall|i: int|
            0 <= i < args.len() ==> (#[trigger] args[i]) is Lit || determined(args[i], keys)) && (
        exists|i: int| 0 <= i < args.len() && determined(#[trigger] args[i], keys)) ==> determined(
            ValueExprView::Call { func, args },
            keys,
        ),
        !is_key(ValueExprView::Call { func, args }, keys) && (exists|i: int|
            0 <= i < args.len() && !grounded(#[trigger] args[i], keys)) ==> !determined(
            ValueExprView::Call { func, args },
            keys,
        ),
{
    let v = ValueExprView::Call { func, args };
    lemma_all_grounded(args, args.len(), keys);
    assert(grounded(v, keys) == (is_key(v, keys) || all_grounded(args, args.len(), keys)));
    assert(anchored(v, keys) == (is_key(v, keys) || any_anchored(args, args.len(), keys)));
    if (forall|i: int|
        0 <= i < args.len() ==> (#[trigger] args[i]) is Lit || determined(args[i], keys)) && (exists|
        i: int,
    |
        0 <= i < args.len() && determined(#[trigger] args[i], keys)) {
        assert forall|i: int| 0 <= i < args.len() implies grounded(#[trigger] args[i], keys) by {}
    }
}

proof fn lemma_undetermined(
    items: Seq<SelectItemView>,
    keys: Seq<SelectItemView>,
    cols: Seq<int>,
    i: nat,
)
    requires
        i <= items.len(),
    ensures
        undetermined_from(items, keys, cols, i as int) is None <==> forall|j: int|
            i <= j < items.len() ==> determined((#[trigger] items[j]).value, keys),
    decreases items.len() - i,
{
    if i < items.len() {
        lemma_undetermined(items, keys, cols, i + 1);
        assert(items[i as int] == items[i as int]);
    }
}

/// A query can be grouped where it names what it selects and the grouping determines
/// all of it. One that does not group has nothing to answer for.
pub proof fn law_a_grouped_query_selects_what_is_determined(q: QueryView, col: int, cols: Seq<int>)
    ensures
        !grouped(q) ==> grouping_fault(q, col, cols) is None,
        grouped(q) ==> (grouping_fault(q, col, cols) is None <==> (q.select matches
            SelectionView::Items(items) && forall|i: int|
            0 <= i < items.len() ==> determined((#[trigger] items[i]).value, q.group_by))),
{
    if let SelectionView::Items(items) = q.select {
        lemma_undetermined(items, q.group_by, cols, 0);
    }
}

/// A limit is a whole number that is not negative.
pub proof fn law_limits_are_whole_numbers(t: Seq<Tok>, p: int, n: int, x: Num)
    requires
        0 <= p,
        p + 1 < t.len(),
        t[p].kind == Kind::Limit,
        -(2 * HIDDEN) < n < 2 * HIDDEN,
        n <= usize::MAX,
    ensures
        t[p + 1].kind == Kind::Num(whole_int(n)) && n >= 0 ==> limit_at(t, p) == Ok::<
            (Option<usize>, int),
            Fault,
        >((Some(n as usize), p + 2)),
        t[p + 1].kind == Kind::Num(whole_int(n)) && n < 0 ==> limit_at(t, p) is Err,
        t[p + 1].kind == Kind::Num(x) && rest_part(x) > 0 ==> limit_at(t, p) is Err,
        !(t[p + 1].kind is Num) ==> limit_at(t, p) is Err,
{
    lemma_whole_parts(n);
    vstd::arithmetic::power2::lemma_pow2_pos(1074);
    let u = one() as int;
    if n < 0 {
        assert(n * u < 0) by (nonlinear_arith)
            requires
                n < 0,
                u > 0,
        ;
    } else {
        assert(n * u >= 0) by (nonlinear_arith)
            requires
                n >= 0,
                u > 0,
        ;
    }
}

/// Aggregates do not nest, only `count` takes a star, and a condition on records holds
/// none.
pub proof fn law_aggregates_stand_where_they_can(t: Seq<Tok>, p: int, agg: Agg)
    requires
        0 <= p,
        p + 2 < t.len(),
    ensures
        t[p + 2].kind == Kind::Star && agg != Agg::Count ==> agg_at(t, p, agg) is Err,
        t[p + 2].kind != Kind::Star && (value_at(
            t,
            p + 2,
            "a value or `*` inside the aggregate"@,
        ) matches Ok((v, q)) && aggregate_in(v)) ==> agg_at(t, p, agg) is Err,
        t[p].kind == Kind::Where && (where_at(t, p) matches Ok((Some(e), q))) ==> !aggregate_in_expr(
            where_at(t, p)->Ok_0.0->0,
        ),
{
}

/// Rows are sorted upward unless `desc` asks for downward; `asc` can be said or left
/// out.
pub proof fn law_sorting_goes_up_unless_told(t: Seq<Tok>, p: int, value: ValueExprView, q: int)
    requires
        0 <= p,
        p + 1 < t.len(),
        t[p].kind == Kind::Order,
        t[p + 1].kind == Kind::By,
        value_at(t, p + 2, "a field name or a function after `order by`"@) == Ok::<
            (ValueExprView, int),
            Fault,
        >((value, q)),
        0 <= q < t.len(),
    ensures
        ({
            let up = OrderByView { value, descending: false };
            let down = OrderByView { value, descending: true };
            order_at(t, p) == Ok::<(Option<OrderByView>, int), Fault>(
                if t[q].kind == Kind::Desc {
                    (Some(down), q + 1)
                } else if t[q].kind == Kind::Asc {
                    (Some(up), q + 1)
                } else {
                    (Some(up), q)
                },
            )
        }),
{
}

/// A column is labelled with the word or the string behind `as`, and with nothing else.
pub proof fn law_labels_are_words_or_strings(
    s: Seq<char>,
    t: Seq<Tok>,
    p: int,
    expected: Seq<char>,
    value: ValueExprView,
    q: int,
    label: Seq<char>,
)
    requires
        value_at(t, p, expected) == Ok::<(ValueExprView, int), Fault>((value, q)),
        0 <= q,
        q + 1 < t.len(),
        t[q].kind == Kind::As,
    ensures
        t[q + 1].kind == Kind::Ident(label) || t[q + 1].kind == Kind::Str(label) ==> item_at(
            s,
            t,
            p,
            expected,
        ) == Ok::<(SelectItemView, int), Fault>((SelectItemView { value, label }, q + 2)),
        !(t[q + 1].kind is Ident) && !(t[q + 1].kind is Str) ==> item_at(s, t, p, expected) is Err,
{
}

} // verus!
