//! What holds of every comparison: when one value is below another, what the
//! operators say of them, which of many values is the least, and in which order
//! rows end up.

use crate::arrange::{
    arranged, key_order, law_arranging_keeps_every_row, law_rows_end_up_in_order, of_rank, ranked,
    KeyedView,
};
use crate::ast::{Agg, CmpOp};
use crate::big::{order_of, Order};
use crate::eval::{
    comparison_holds, lemma_fields_same, lemma_item_same, lemma_items_same, same_tree, text_bool,
    text_number, text_order, tree_order,
};
use crate::group::StateView;
use crate::group_laws::{aggregate_of, state_after};
use crate::num::{lemma_whole_parts, one};
use crate::value::{field, Fields, Number, Tree};
use vstd::prelude::*;

verus! {

/// Whether two texts part at a place: they are alike before it, and there the
/// first ends or has the lesser character.
pub open spec fn parts_at(a: Seq<char>, b: Seq<char>, i: int) -> bool {
    &&& 0 <= i <= a.len()
    &&& i < b.len()
    &&& a.take(i) == b.take(i)
    &&& i < a.len() ==> (a[i] as int) < (b[i] as int)
}

/// Whether a text comes before another by code point.
pub open spec fn text_before(a: Seq<char>, b: Seq<char>) -> bool {
    exists|i: int| #[trigger] parts_at(a, b, i)
}

/// What a boolean counts for.
pub open spec fn truth_count(b: bool) -> int {
    if b {
        1
    } else {
        0
    }
}

/// Whether a value is below another: numbers by their amounts, texts by code
/// point, `false` below `true`; a text beside a number or a boolean counts for
/// what it writes, and a boolean beside a number for 1 or 0.
pub open spec fn value_below(l: Tree, r: Tree) -> bool {
    match (l, r) {
        (Tree::Number(a), Tree::Number(b)) => a.num().amount() < b.num().amount(),
        (Tree::Str(a), Tree::Str(b)) => text_before(a, b),
        (Tree::Bool(a), Tree::Bool(b)) => !a && b,
        (Tree::Str(s), Tree::Number(n)) => text_number(s) matches Some(m) && m.amount()
            < n.num().amount(),
        (Tree::Number(n), Tree::Str(s)) => text_number(s) matches Some(m) && n.num().amount()
            < m.amount(),
        (Tree::Bool(b), Tree::Number(n)) => truth_count(b) * one() < n.num().amount(),
        (Tree::Number(n), Tree::Bool(b)) => n.num().amount() < truth_count(b) * one(),
        (Tree::Bool(b), Tree::Str(s)) => text_bool(s) matches Some(c) && !b && c,
        (Tree::Str(s), Tree::Bool(b)) => text_bool(s) matches Some(c) && !c && b,
        _ => false,
    }
}

/// Whether a value equals another, under the same rules; null equals null, and
/// arrays and objects are equal in structure.
pub open spec fn value_equal(l: Tree, r: Tree) -> bool {
    match (l, r) {
        (Tree::Null, Tree::Null) => true,
        (Tree::Number(a), Tree::Number(b)) => a.num().amount() == b.num().amount(),
        (Tree::Str(a), Tree::Str(b)) => a == b,
        (Tree::Bool(a), Tree::Bool(b)) => a == b,
        (Tree::Str(s), Tree::Number(n)) => text_number(s) matches Some(m) && m.amount()
            == n.num().amount(),
        (Tree::Number(n), Tree::Str(s)) => text_number(s) matches Some(m) && n.num().amount()
            == m.amount(),
        (Tree::Bool(b), Tree::Number(n)) => truth_count(b) * one() == n.num().amount(),
        (Tree::Number(n), Tree::Bool(b)) => n.num().amount() == truth_count(b) * one(),
        (Tree::Bool(b), Tree::Str(s)) => text_bool(s) == Some(b),
        (Tree::Str(s), Tree::Bool(b)) => text_bool(s) == Some(b),
        (Tree::Array(_), Tree::Array(_)) => same_tree(l, r),
        (Tree::Object(_), Tree::Object(_)) => same_tree(l, r),
        _ => false,
    }
}

proof fn lemma_takes(a: Seq<char>, b: Seq<char>, i: int, j: int)
    requires
        0 <= j <= i <= a.len(),
        i <= b.len(),
        a.take(i) == b.take(i),
    ensures
        a.take(j) == b.take(j),
        forall|k: int| 0 <= k < i ==> a[k] == b[k],
{
    assert(a.take(j) =~= a.take(i).take(j));
    assert(b.take(j) =~= b.take(i).take(j));
    assert forall|k: int| 0 <= k < i implies a[k] == b[k] by {
        assert(a[k] == a.take(i)[k]);
        assert(b[k] == b.take(i)[k]);
    }
}

/// A text comes before another at most one way round, and never before itself.
proof fn lemma_before_once(a: Seq<char>, b: Seq<char>, i: int)
    requires
        parts_at(a, b, i),
    ensures
        !text_before(b, a),
        a != b,
{
    lemma_takes(a, b, i, i);
    if text_before(b, a) {
        let j = choose|j: int| #[trigger] parts_at(b, a, j);
        lemma_takes(b, a, j, j);
    }
}

proof fn lemma_text_order(a: Seq<char>, b: Seq<char>, i: int)
    requires
        0 <= i <= a.len(),
        i <= b.len(),
        a.take(i) == b.take(i),
    ensures
        text_order(a, b, i) == Order::Less <==> text_before(a, b),
        text_order(a, b, i) == Order::Greater <==> text_before(b, a),
        text_order(a, b, i) == Order::Equal <==> a == b,
    decreases a.len() - i,
{
    if i < a.len() && i < b.len() && a[i] == b[i] {
        assert(a.take(i + 1) =~= a.take(i).push(a[i]));
        assert(b.take(i + 1) =~= b.take(i).push(b[i]));
        lemma_text_order(a, b, i + 1);
    } else if i == a.len() && i == b.len() {
        assert(a.take(i) =~= a);
        assert(b.take(i) =~= b);
        if text_before(a, b) {
            let j = choose|j: int| #[trigger] parts_at(a, b, j);
            lemma_before_once(a, b, j);
        }
    } else if i == a.len() || (i < b.len() && (a[i] as int) < (b[i] as int)) {
        assert(parts_at(a, b, i));
        lemma_before_once(a, b, i);
    } else {
        assert(parts_at(b, a, i));
        lemma_before_once(b, a, i);
    }
}

proof fn lemma_text_order_whole(a: Seq<char>, b: Seq<char>)
    ensures
        text_order(a, b, 0) == Order::Less <==> text_before(a, b),
        text_order(a, b, 0) == Order::Greater <==> text_before(b, a),
        text_order(a, b, 0) == Order::Equal <==> a == b,
{
    assert(a.take(0) =~= b.take(0));
    lemma_text_order(a, b, 0);
}

/// The order of two values is that one is below the other, or that they are
/// equal; where neither holds they cannot be compared.
pub proof fn law_the_order_of_values(l: Tree, r: Tree)
    ensures
        tree_order(l, r) == Some(Order::Less) <==> value_below(l, r),
        tree_order(l, r) == Some(Order::Greater) <==> value_below(r, l),
        tree_order(l, r) == Some(Order::Equal) <==> value_equal(l, r),
{
    lemma_whole_parts(0);
    lemma_whole_parts(1);
    match (l, r) {
        (Tree::Str(a), Tree::Str(b)) => {
            lemma_text_order_whole(a, b);
        },
        _ => {},
    }
}

/// What each operator says of two values that are there: `<` that the left one is
/// below the right, `>` that it is above, `=` that they are equal, `<=` and `>=`
/// that one of the two holds and the values have an order, and `!=` that they are
/// not equal.
pub proof fn law_operators_go_by_the_order(l: Tree, r: Tree)
    ensures
        comparison_holds(CmpOp::Lt, Some(l), Some(r)) <==> value_below(l, r),
        comparison_holds(CmpOp::Gt, Some(l), Some(r)) <==> value_below(r, l),
        comparison_holds(CmpOp::Eq, Some(l), Some(r)) <==> value_equal(l, r),
        comparison_holds(CmpOp::Ne, Some(l), Some(r)) <==> !value_equal(l, r),
        comparison_holds(CmpOp::Le, Some(l), Some(r)) <==> value_below(l, r) || (value_equal(l, r)
            && (l is Number || l is Str || l is Bool)),
        comparison_holds(CmpOp::Ge, Some(l), Some(r)) <==> value_below(r, l) || (value_equal(l, r)
            && (l is Number || l is Str || l is Bool)),
{
    law_the_order_of_values(l, r);
}

/// Two numbers compare as their amounts do.
pub proof fn law_numbers_compare_by_their_amounts(a: Number, b: Number)
    ensures
        ({
            let l = Some(Tree::Number(a));
            let r = Some(Tree::Number(b));
            let x = a.num().amount();
            let y = b.num().amount();
            &&& comparison_holds(CmpOp::Eq, l, r) <==> x == y
            &&& comparison_holds(CmpOp::Ne, l, r) <==> x != y
            &&& comparison_holds(CmpOp::Lt, l, r) <==> x < y
            &&& comparison_holds(CmpOp::Le, l, r) <==> x <= y
            &&& comparison_holds(CmpOp::Gt, l, r) <==> x > y
            &&& comparison_holds(CmpOp::Ge, l, r) <==> x >= y
        }),
{
    law_operators_go_by_the_order(Tree::Number(a), Tree::Number(b));
}

/// Two whole numbers that the format holds exactly compare as whole numbers do,
/// whether they are written as such or floating.
pub proof fn law_whole_numbers_compare_as_such(a: Number, b: Number, m: int, n: int)
    requires
        a.num() == crate::num::whole_int(m),
        b.num() == crate::num::whole_int(n),
        -0x20_0000_0000_0000 < m < 0x20_0000_0000_0000,
        -0x20_0000_0000_0000 < n < 0x20_0000_0000_0000,
    ensures
        comparison_holds(CmpOp::Lt, Some(Tree::Number(a)), Some(Tree::Number(b))) <==> m < n,
        comparison_holds(CmpOp::Le, Some(Tree::Number(a)), Some(Tree::Number(b))) <==> m <= n,
        comparison_holds(CmpOp::Eq, Some(Tree::Number(a)), Some(Tree::Number(b))) <==> m == n,
{
    lemma_whole_parts(m);
    lemma_whole_parts(n);
    vstd::arithmetic::power2::lemma_pow2_pos(1074);
    law_numbers_compare_by_their_amounts(a, b);
    let u = one();
    assert((m * u < n * u <==> m < n) && (m * u == n * u <==> m == n)) by (nonlinear_arith)
        requires
            u > 0,
    ;
}

/// `<=` and `>=` hold where `<` or `>` does, or `=`, of values that have an order;
/// and `>` is `<` from the other side.
pub proof fn law_operators_agree_with_one_another(l: Tree, r: Tree)
    requires
        l is Number || l is Str || l is Bool,
    ensures
        comparison_holds(CmpOp::Le, Some(l), Some(r)) <==> comparison_holds(
            CmpOp::Lt,
            Some(l),
            Some(r),
        ) || comparison_holds(CmpOp::Eq, Some(l), Some(r)),
        comparison_holds(CmpOp::Ge, Some(l), Some(r)) <==> comparison_holds(
            CmpOp::Gt,
            Some(l),
            Some(r),
        ) || comparison_holds(CmpOp::Eq, Some(l), Some(r)),
        comparison_holds(CmpOp::Gt, Some(l), Some(r)) <==> comparison_holds(
            CmpOp::Lt,
            Some(r),
            Some(l),
        ),
        !(comparison_holds(CmpOp::Lt, Some(l), Some(r)) && comparison_holds(
            CmpOp::Ge,
            Some(l),
            Some(r),
        )),
{
    law_operators_go_by_the_order(l, r);
    law_operators_go_by_the_order(r, l);
    law_the_order_of_values(l, r);
}

/// Arrays are equal where they are as long and hold equal values place by place;
/// objects where they have as many fields and each field of the one stands in the
/// other with an equal value; and nothing else equals an array or an object.
pub proof fn law_structures_are_equal_part_by_part(
    x: Seq<Tree>,
    y: Seq<Tree>,
    f: Fields,
    g: Fields,
    other: Tree,
)
    requires
        !(other is Array),
        !(other is Object),
    ensures
        same_tree(Tree::Array(x), Tree::Array(y)) <==> x.len() == y.len() && forall|i: int|
            0 <= i < x.len() ==> same_tree(#[trigger] x[i], y[i]),
        same_tree(Tree::Object(f), Tree::Object(g)) <==> f.len() == g.len() && forall|i: int|
            0 <= i < f.len() ==> (field(g, (#[trigger] f[i]).0) matches Some(v) && same_tree(
                f[i].1,
                v,
            )),
        !same_tree(Tree::Array(x), Tree::Object(f)),
        !same_tree(Tree::Object(f), Tree::Array(x)),
        !same_tree(Tree::Array(x), other),
        !same_tree(other, Tree::Array(x)),
        !same_tree(Tree::Object(f), other),
        !same_tree(other, Tree::Object(f)),
{
    if same_tree(Tree::Array(x), Tree::Array(y)) {
        assert forall|i: int| 0 <= i < x.len() implies same_tree(#[trigger] x[i], y[i]) by {
            lemma_item_same(x, y, x.len(), i);
        }
    }
    if x.len() == y.len() && forall|i: int|
        0 <= i < x.len() ==> same_tree(#[trigger] x[i], y[i]) {
        lemma_items_same(x, y, x.len());
    }
    if same_tree(Tree::Object(f), Tree::Object(g)) {
        assert forall|i: int| 0 <= i < f.len() implies (field(g, (#[trigger] f[i]).0) matches Some(v)
            && same_tree(f[i].1, v)) by {
            crate::eval::lemma_field_same(f, g, f.len(), i);
        }
    }
    if f.len() == g.len() && forall|i: int|
        0 <= i < f.len() ==> (field(g, (#[trigger] f[i]).0) matches Some(v) && same_tree(
            f[i].1,
            v,
        )) {
        assert forall|i: int| 0 <= i < f.len() implies crate::eval::has_same(
            g,
            #[trigger] f[i],
        ) by {}
        lemma_fields_same(f, g, f.len());
    }
}

/// Whether comparisons of values agree with one another: what is below a value
/// that is below a third is below that, and what is not below a value that is not
/// below a third is not below that.
pub open spec fn agreeing(values: Seq<Option<Tree>>) -> bool {
    forall|i: int, j: int, k: int|
        #![trigger values[i], values[j], values[k]]
        0 <= i < values.len() && 0 <= j < values.len() && 0 <= k < values.len() ==> (
        values[i] matches Some(a) ==> values[j] matches Some(b) ==> values[k] matches Some(c) ==> (
        value_below(a, b) && value_below(b, c) ==> value_below(a, c)) && (!value_below(a, b)
            && !value_below(b, c) ==> !value_below(a, c)))
}

/// Whether one value is ahead of another: below it where the least is sought, above
/// it where the greatest is.
pub open spec fn ahead(agg: Agg, a: Tree, b: Tree) -> bool {
    if agg == Agg::Min {
        value_below(a, b)
    } else {
        value_below(b, a)
    }
}

proof fn lemma_never_both(a: Tree, b: Tree)
    ensures
        !(value_below(a, b) && value_below(b, a)),
        !value_below(a, a),
{
    law_the_order_of_values(a, b);
    law_the_order_of_values(a, a);
}

/// Whether the value at a place is the first of those that none is ahead of.
pub open spec fn foremost(agg: Agg, values: Seq<Option<Tree>>, i: int) -> bool {
    &&& 0 <= i < values.len()
    &&& values[i] is Some
    &&& forall|j: int|
        0 <= j < values.len() ==> ((#[trigger] values[j]) matches Some(v) ==> !ahead(
            agg,
            v,
            values[i]->0,
        ))
    &&& forall|j: int|
        0 <= j < i ==> ((#[trigger] values[j]) matches Some(v) ==> ahead(agg, values[i]->0, v))
}

proof fn lemma_agreeing_part(values: Seq<Option<Tree>>)
    requires
        values.len() > 0,
        agreeing(values),
    ensures
        agreeing(values.drop_last()),
{
    let rest = values.drop_last();
    assert forall|i: int, j: int, k: int|
        #![trigger rest[i], rest[j], rest[k]]
        0 <= i < rest.len() && 0 <= j < rest.len() && 0 <= k < rest.len() implies (
    rest[i] matches Some(a) ==> rest[j] matches Some(b) ==> rest[k] matches Some(c) ==> (
    value_below(a, b) && value_below(b, c) ==> value_below(a, c)) && (!value_below(a, b)
        && !value_below(b, c) ==> !value_below(a, c))) by {
        assert(rest[i] == values[i] && rest[j] == values[j] && rest[k] == values[k]);
    }
}

#[verifier::rlimit(30)]
proof fn lemma_foremost(agg: Agg, values: Seq<Option<Tree>>)
    requires
        agg == Agg::Min || agg == Agg::Max,
        agreeing(values),
    ensures
        match state_after(agg, values) {
            StateView::Extreme(None) => forall|i: int|
                0 <= i < values.len() ==> (#[trigger] values[i]) is None,
            StateView::Extreme(Some(h)) => exists|i: int| #[trigger]
                foremost(agg, values, i) && values[i] == Some(h),
            _ => false,
        },
    decreases values.len(),
{
    if values.len() > 0 {
        let rest = values.drop_last();
        let n = values.len() - 1;
        lemma_agreeing_part(values);
        lemma_foremost(agg, rest);
        assert(values[n] == values.last());
        match state_after(agg, rest) {
            StateView::Extreme(Some(h)) => {
                let i = choose|i: int| #[trigger] foremost(agg, rest, i) && rest[i] == Some(h);
                assert(values[i] == rest[i]);
                match values.last() {
                    Some(v) => {
                        law_the_order_of_values(v, h);
                        lemma_never_both(v, h);
                        if ahead(agg, v, h) {
                            assert forall|j: int| 0 <= j < n implies ((#[trigger] values[j]) matches Some(
                                u,
                            ) ==> ahead(agg, v, u) && !ahead(agg, u, v)) by {
                                assert(rest[j] == values[j]);
                                assert(values[j] == values[j] && values[i] == values[i] && values[n]
                                    == values[n]);
                                match values[j] {
                                    Some(u) => {
                                        assert(!ahead(agg, u, h));
                                        lemma_never_both(v, u);
                                    },
                                    None => {},
                                }
                            }
                            lemma_never_both(v, v);
                            assert(foremost(agg, values, n as int));
                        } else {
                            assert forall|j: int| 0 <= j < values.len() implies ((#[trigger] values[j]) matches Some(
                                u,
                            ) ==> !ahead(agg, u, h)) by {
                                if j < n {
                                    assert(rest[j] == values[j]);
                                }
                            }
                            assert forall|j: int| 0 <= j < i implies ((#[trigger] values[j]) matches Some(
                                u,
                            ) ==> ahead(agg, h, u)) by {
                                assert(rest[j] == values[j]);
                            }
                            assert(foremost(agg, values, i));
                        }
                    },
                    None => {
                        assert forall|j: int| 0 <= j < values.len() implies ((#[trigger] values[j]) matches Some(
                            u,
                        ) ==> !ahead(agg, u, h)) by {
                            if j < n {
                                assert(rest[j] == values[j]);
                            }
                        }
                        assert forall|j: int| 0 <= j < i implies ((#[trigger] values[j]) matches Some(
                            u,
                        ) ==> ahead(agg, h, u)) by {
                            assert(rest[j] == values[j]);
                        }
                        assert(foremost(agg, values, i));
                    },
                }
            },
            _ => {
                assert forall|j: int| 0 <= j < n implies (#[trigger] values[j]) is None by {
                    assert(rest[j] == values[j]);
                }
                match values.last() {
                    Some(v) => {
                        lemma_never_both(v, v);
                        assert(foremost(agg, values, n as int));
                    },
                    None => {},
                }
            },
        }
    }
}

/// Of values whose comparisons agree with one another, `min` gives the first that
/// none is below, and `max` the first that none is above; they are missing only
/// where no value is there.
pub proof fn law_min_and_max_go_by_the_comparison(agg: Agg, values: Seq<Option<Tree>>)
    requires
        agg == Agg::Min || agg == Agg::Max,
        agreeing(values),
    ensures
        match aggregate_of(agg, values) {
            None => forall|i: int| 0 <= i < values.len() ==> (#[trigger] values[i]) is None,
            Some(h) => exists|i: int| #[trigger] foremost(agg, values, i) && values[i] == Some(h),
        },
{
    lemma_foremost(agg, values);
}

proof fn lemma_before_passes_on(a: Seq<char>, b: Seq<char>, c: Seq<char>)
    requires
        text_before(a, b),
        text_before(b, c),
    ensures
        text_before(a, c),
{
    let i = choose|i: int| #[trigger] parts_at(a, b, i);
    let j = choose|j: int| #[trigger] parts_at(b, c, j);
    if i <= j {
        lemma_takes(b, c, j, i);
        assert(parts_at(a, c, i));
    } else {
        lemma_takes(a, b, i, j);
        assert(parts_at(a, c, j));
    }
}

proof fn lemma_before_or_not(a: Seq<char>, b: Seq<char>, c: Seq<char>)
    requires
        !text_before(a, b),
        !text_before(b, c),
    ensures
        !text_before(a, c),
{
    lemma_text_order_whole(a, b);
    lemma_text_order_whole(b, c);
    if text_before(a, c) {
        if a != b {
            assert(text_before(b, a));
            lemma_before_passes_on(b, a, c);
        }
    }
}

/// Whether values are all of one kind that has an order: all texts, all numbers, or
/// all booleans.
pub open spec fn of_one_kind(values: Seq<Option<Tree>>) -> bool {
    ||| forall|i: int| 0 <= i < values.len() ==> ((#[trigger] values[i]) matches Some(t) ==> t is Str)
    ||| forall|i: int|
        0 <= i < values.len() ==> ((#[trigger] values[i]) matches Some(t) ==> t is Number)
    ||| forall|i: int|
        0 <= i < values.len() ==> ((#[trigger] values[i]) matches Some(t) ==> t is Bool)
}

/// Comparisons of texts agree with one another, and so do those of numbers and
/// those of booleans.
pub proof fn law_values_of_one_kind_agree(values: Seq<Option<Tree>>)
    requires
        of_one_kind(values),
    ensures
        agreeing(values),
{
    assert forall|i: int, j: int, k: int|
        #![trigger values[i], values[j], values[k]]
        0 <= i < values.len() && 0 <= j < values.len() && 0 <= k < values.len() implies (
    values[i] matches Some(a) ==> values[j] matches Some(b) ==> values[k] matches Some(c) ==> (
    value_below(a, b) && value_below(b, c) ==> value_below(a, c)) && (!value_below(a, b)
        && !value_below(b, c) ==> !value_below(a, c))) by {
        match (values[i], values[j], values[k]) {
            (Some(Tree::Str(a)), Some(Tree::Str(b)), Some(Tree::Str(c))) => {
                if text_before(a, b) && text_before(b, c) {
                    lemma_before_passes_on(a, b, c);
                }
                if !text_before(a, b) && !text_before(b, c) {
                    lemma_before_or_not(a, b, c);
                }
            },
            _ => {},
        }
    }
}

/// Of texts, of numbers and of booleans, `min` gives the first that none is below,
/// and `max` the first that none is above.
pub proof fn law_min_and_max_of_one_kind(agg: Agg, values: Seq<Option<Tree>>)
    requires
        agg == Agg::Min || agg == Agg::Max,
        of_one_kind(values),
    ensures
        match aggregate_of(agg, values) {
            None => forall|i: int| 0 <= i < values.len() ==> (#[trigger] values[i]) is None,
            Some(h) => exists|i: int| #[trigger] foremost(agg, values, i) && values[i] == Some(h),
        },
{
    law_values_of_one_kind_agree(values);
    law_min_and_max_go_by_the_comparison(agg, values);
}

/// The sort values of rows.
pub open spec fn keys_of(rows: Seq<KeyedView>) -> Seq<Option<Tree>> {
    Seq::new(rows.len(), |i: int| rows[i].0)
}

/// Whether a sort value comes before another: below it in a rising order, above it
/// in a falling one.
pub open spec fn sorts_before(a: Tree, b: Tree, descending: bool) -> bool {
    if descending {
        value_below(b, a)
    } else {
        value_below(a, b)
    }
}

/// How many rows have a sort value before this one.
spec fn how_many_before(rows: Seq<KeyedView>, t: Tree, descending: bool) -> nat
    decreases rows.len(),
{
    if rows.len() == 0 {
        0
    } else {
        how_many_before(rows.drop_last(), t, descending) + (match rows.last().0 {
            Some(u) => if sorts_before(u, t, descending) {
                1nat
            } else {
                0
            },
            None => 0,
        })
    }
}

proof fn lemma_fewer_before(rows: Seq<KeyedView>, a: Tree, b: Tree, descending: bool)
    requires
        forall|i: int|
            0 <= i < rows.len() ==> ((#[trigger] rows[i]).0 matches Some(u) ==> sorts_before(
                u,
                a,
                descending,
            ) ==> sorts_before(u, b, descending)),
    ensures
        how_many_before(rows, a, descending) <= how_many_before(rows, b, descending) <= rows.len(),
        (exists|i: int|
            0 <= i < rows.len() && ((#[trigger] rows[i]).0 matches Some(u) && !sorts_before(
                u,
                a,
                descending,
            ) && sorts_before(u, b, descending))) ==> how_many_before(rows, a, descending)
            < how_many_before(rows, b, descending),
    decreases rows.len(),
{
    if rows.len() > 0 {
        let rest = rows.drop_last();
        assert forall|i: int| 0 <= i < rest.len() implies ((#[trigger] rest[i]).0 matches Some(u)
            ==> sorts_before(u, a, descending) ==> sorts_before(u, b, descending)) by {
            assert(rest[i] == rows[i]);
        }
        lemma_fewer_before(rest, a, b, descending);
        assert(rows.last() == rows[rows.len() - 1]);
        if exists|i: int|
            0 <= i < rows.len() && ((#[trigger] rows[i]).0 matches Some(u) && !sorts_before(
                u,
                a,
                descending,
            ) && sorts_before(u, b, descending)) {
            let i = choose|i: int|
                0 <= i < rows.len() && ((#[trigger] rows[i]).0 matches Some(u) && !sorts_before(
                    u,
                    a,
                    descending,
                ) && sorts_before(u, b, descending));
            if i < rest.len() {
                assert(rest[i] == rows[i]);
            }
        }
    }
}

/// The place of a sort value among those of rows, a missing one behind all.
spec fn place(rows: Seq<KeyedView>, key: Option<Tree>, descending: bool) -> int {
    match key {
        Some(t) => how_many_before(rows, t, descending) as int,
        None => rows.len() as int + 1,
    }
}

proof fn lemma_place(rows: Seq<KeyedView>, i: int, j: int, descending: bool)
    requires
        agreeing(keys_of(rows)),
        0 <= i < rows.len(),
        0 <= j < rows.len(),
    ensures
        key_order(rows[i].0, rows[j].0, descending) == order_of(
            place(rows, rows[i].0, descending),
            place(rows, rows[j].0, descending),
        ),
{
    let keys = keys_of(rows);
    assert(keys[i] == rows[i].0 && keys[j] == rows[j].0);
    match (rows[i].0, rows[j].0) {
        (Some(a), Some(b)) => {
            law_the_order_of_values(a, b);
            lemma_never_both(a, b);
            lemma_never_both(a, a);
            lemma_never_both(b, b);
            assert forall|k: int| 0 <= k < rows.len() implies ((#[trigger] rows[k]).0 matches Some(u)
                ==> (!sorts_before(b, a, descending) ==> sorts_before(u, a, descending)
                ==> sorts_before(u, b, descending)) && (!sorts_before(a, b, descending)
                ==> sorts_before(u, b, descending) ==> sorts_before(u, a, descending))) by {
                assert(keys[k] == rows[k].0);
                assert(keys[i] == keys[i] && keys[j] == keys[j]);
            }
            if !sorts_before(b, a, descending) {
                lemma_fewer_before(rows, a, b, descending);
            }
            if !sorts_before(a, b, descending) {
                lemma_fewer_before(rows, b, a, descending);
            }
            if sorts_before(a, b, descending) {
                assert(rows[i].0 == Some(a));
            }
            if sorts_before(b, a, descending) {
                assert(rows[j].0 == Some(b));
            }
        },
        (Some(a), None) => {
            lemma_fewer_before(rows, a, a, descending);
        },
        (None, Some(b)) => {
            lemma_fewer_before(rows, b, b, descending);
        },
        _ => {},
    }
}

/// Whether rows stand in order: none has a sort value that has to come before that
/// of an earlier one, and none that lacks its sort value stands before one that has
/// it.
pub open spec fn rows_in_order(rows: Seq<KeyedView>, descending: bool) -> bool {
    forall|i: int, j: int|
        #![trigger rows[i], rows[j]]
        0 <= i < j < rows.len() ==> (rows[j].0 matches Some(b) ==> rows[i].0 matches Some(a)
            && !sorts_before(b, a, descending))
}

/// Those of the rows whose sort values come neither before nor behind this one, or
/// lack it as this one does, in their order.
pub open spec fn ties_with(rows: Seq<KeyedView>, key: Option<Tree>, descending: bool) -> Seq<
    KeyedView,
>
    decreases rows.len(),
{
    if rows.len() == 0 {
        Seq::empty()
    } else {
        let before = ties_with(rows.drop_last(), key, descending);
        let same = match (rows.last().0, key) {
            (Some(a), Some(b)) => !sorts_before(a, b, descending) && !sorts_before(
                b,
                a,
                descending,
            ),
            (None, None) => true,
            _ => false,
        };
        if same {
            before.push(rows.last())
        } else {
            before
        }
    }
}

proof fn lemma_ties(
    rows: Seq<KeyedView>,
    all: Seq<KeyedView>,
    i: int,
    descending: bool,
    rank: spec_fn(Option<Tree>) -> int,
)
    requires
        agreeing(keys_of(all)),
        0 <= i < all.len(),
        rank == (|k: Option<Tree>| place(all, k, descending)),
        forall|k: int| 0 <= k < rows.len() ==> keys_of(all).contains((#[trigger] rows[k]).0),
    ensures
        of_rank(rows, rank, rank(all[i].0)) == ties_with(rows, all[i].0, descending),
    decreases rows.len(),
{
    if rows.len() > 0 {
        let rest = rows.drop_last();
        assert forall|k: int| 0 <= k < rest.len() implies keys_of(all).contains(
            (#[trigger] rest[k]).0,
        ) by {
            assert(rest[k] == rows[k]);
        }
        lemma_ties(rest, all, i, descending, rank);
        assert(keys_of(all).contains(rows[rows.len() - 1].0));
        let j = choose|j: int| 0 <= j < all.len() && keys_of(all)[j] == rows.last().0;
        lemma_place(all, j, i, descending);
        match (all[j].0, all[i].0) {
            (Some(a), Some(b)) => {
                law_the_order_of_values(a, b);
                lemma_never_both(a, b);
            },
            _ => {},
        }
    }
}

/// Rows whose sort values agree with one another end up in order, rising or
/// falling, with those that lack a sort value behind the others; those that tie
/// keep the order they came in; and none is lost or added.
pub proof fn law_rows_are_sorted(rows: Seq<KeyedView>, descending: bool)
    requires
        agreeing(keys_of(rows)),
    ensures
        rows_in_order(arranged(rows, descending), descending),
        arranged(rows, descending).to_multiset() == rows.to_multiset(),
        forall|i: int|
            0 <= i < rows.len() ==> ties_with(
                arranged(rows, descending),
                (#[trigger] rows[i]).0,
                descending,
            ) == ties_with(rows, rows[i].0, descending),
{
    let now = arranged(rows, descending);
    let keys = keys_of(rows).to_set();
    let rank = |k: Option<Tree>| place(rows, k, descending);
    assert forall|a: Option<Tree>, b: Option<Tree>|
        keys.contains(a) && keys.contains(b) implies #[trigger] key_order(a, b, descending)
        == order_of(rank(a), rank(b)) by {
        let i = choose|i: int| 0 <= i < rows.len() && keys_of(rows)[i] == a;
        let j = choose|j: int| 0 <= j < rows.len() && keys_of(rows)[j] == b;
        lemma_place(rows, i, j, descending);
    }
    assert(ranked(keys, rank, descending));
    assert forall|i: int| 0 <= i < rows.len() implies keys.contains((#[trigger] rows[i]).0) by {
        assert(keys_of(rows)[i] == rows[i].0);
    }
    law_rows_end_up_in_order(rows, keys, rank, descending);
    law_arranging_keeps_every_row(rows, descending);
    assert forall|k: int| 0 <= k < now.len() implies keys_of(rows).contains((#[trigger] now[k]).0) by {
        vstd::seq_lib::to_multiset_contains(now, now[k]);
        vstd::seq_lib::to_multiset_contains(rows, now[k]);
        let i = choose|i: int| 0 <= i < rows.len() && rows[i] == now[k];
        assert(keys_of(rows)[i] == now[k].0);
    }
    assert forall|i: int, j: int|
        #![trigger now[i], now[j]]
        0 <= i < j < now.len() implies (now[j].0 matches Some(b) ==> now[i].0 matches Some(a)
        && !sorts_before(b, a, descending)) by {
        let p = choose|p: int| 0 <= p < rows.len() && keys_of(rows)[p] == now[i].0;
        let q = choose|q: int| 0 <= q < rows.len() && keys_of(rows)[q] == now[j].0;
        lemma_place(rows, p, q, descending);
        assert(rank(now[i].0) <= rank(now[j].0));
        match (now[i].0, now[j].0) {
            (Some(a), Some(b)) => {
                law_the_order_of_values(a, b);
                lemma_never_both(a, b);
            },
            _ => {},
        }
    }
    assert forall|k: int| 0 <= k < rows.len() implies keys_of(rows).contains(
        (#[trigger] rows[k]).0,
    ) by {
        assert(keys_of(rows)[k] == rows[k].0);
    }
    assert forall|i: int| 0 <= i < rows.len() implies ties_with(
        now,
        (#[trigger] rows[i]).0,
        descending,
    ) == ties_with(rows, rows[i].0, descending) by {
        lemma_ties(now, rows, i, descending, rank);
        lemma_ties(rows, rows, i, descending, rank);
        assert(of_rank(now, rank, rank(rows[i].0)) == of_rank(rows, rank, rank(rows[i].0)));
    }
}

/// Rows sorted on texts end up in the order of the texts by code point, those sorted
/// on numbers in that of the numbers, and those on booleans with `false` first,
/// rising or falling.
pub proof fn law_rows_of_one_kind_are_sorted(rows: Seq<KeyedView>, descending: bool)
    requires
        of_one_kind(keys_of(rows)),
    ensures
        rows_in_order(arranged(rows, descending), descending),
        forall|i: int|
            0 <= i < rows.len() ==> ties_with(
                arranged(rows, descending),
                (#[trigger] rows[i]).0,
                descending,
            ) == ties_with(rows, rows[i].0, descending),
{
    law_values_of_one_kind_agree(keys_of(rows));
    law_rows_are_sorted(rows, descending);
}

} // verus!
