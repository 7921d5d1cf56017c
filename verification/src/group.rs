//! Grouping and aggregation.
//!
//! A grouped query folds many records into one row per group. Records arrive one
//! at a time, and what is held is one accumulator per group and aggregate, so
//! memory follows the number of groups rather than that of the lines.
//!
//! Groups are kept in the order in which their first record arrived.

use crate::ast::{
    expr_opt, expr_text, exprs_view, items_view, lemma_call_view, order_opt, same_expr, Agg, Expr,
    ExprView, OrderBy, OrderByView, Path, PathView, Query, QueryView, SelectItem, SelectItemView,
    Selection, SelectionView, ValueExpr, ValueExprView,
};
use crate::big::Order;
use crate::eval::{
    args_view, eval_value, number, number_of, number_tree, order_values, to_number, tree_order,
    value_of, Env,
};
use crate::json::{json_text, push_json, to_json};
use crate::num::{
    clamped, lemma_count_positive, ratio, rest_part, sum, whole_int, whole_part, HIDDEN, Num,
};
use crate::text::{same_text, string_of};
use crate::value::{tree_opt, with_field, Fields, Number, Record, Tree, Value};
use vstd::hash_map::StringHashMap;
use vstd::hash_set::StringHashSet;
use vstd::prelude::*;

verus! {

/// One aggregate of a query, by the text of its expression. Two mentions of an
/// aggregate share one accumulator.
#[derive(Debug)]
pub struct AggSpec {
    pub key: String,
    pub agg: Agg,
    /// `None` for an aggregate over every record.
    pub arg: Option<ValueExpr>,
}

/// What an aggregate of a query holds.
#[verifier::ext_equal]
pub struct AggSpecView {
    pub key: Seq<char>,
    pub agg: Agg,
    pub arg: Option<ValueExprView>,
}

impl View for AggSpec {
    type V = AggSpecView;

    open spec fn view(&self) -> AggSpecView {
        AggSpecView {
            key: self.key@,
            agg: self.agg,
            arg: match self.arg {
                Some(a) => Some(a@),
                None => None,
            },
        }
    }
}

/// What a list of aggregates holds.
pub open spec fn specs_view(specs: Seq<AggSpec>) -> Seq<AggSpecView> {
    Seq::new(specs.len(), |i: int| specs[i]@)
}

/// Whether an aggregate written this way is in the list.
pub open spec fn listed(specs: Seq<AggSpecView>, key: Seq<char>) -> bool {
    exists|i: int| 0 <= i < specs.len() && (#[trigger] specs[i]).key == key
}

/// A list of aggregates with those of the first `n` values behind it.
pub open spec fn with_args(
    args: Seq<ValueExprView>,
    n: nat,
    before: Seq<AggSpecView>,
) -> Seq<AggSpecView>
    decreases args, n,
{
    if n == 0 || n > args.len() {
        before
    } else {
        with_value(args[n - 1], with_args(args, (n - 1) as nat, before))
    }
}

/// A list of aggregates with those of a value behind it, none listed twice. The
/// argument of an aggregate holds none.
pub open spec fn with_value(v: ValueExprView, before: Seq<AggSpecView>) -> Seq<AggSpecView>
    decreases v, 0nat,
{
    match v {
        ValueExprView::Field(_) => before,
        ValueExprView::Lit(_) => before,
        ValueExprView::Call { func, args } => with_args(args, args.len(), before),
        ValueExprView::Arith { op, left, right } => with_value(*right, with_value(*left, before)),
        ValueExprView::Agg { agg, arg } => if listed(before, expr_text(v)) {
            before
        } else {
            before.push(
                AggSpecView {
                    key: expr_text(v),
                    agg,
                    arg: match arg {
                        Some(a) => Some(*a),
                        None => None,
                    },
                },
            )
        },
    }
}

/// A list of aggregates with those of a condition behind it.
pub open spec fn with_condition(e: ExprView, before: Seq<AggSpecView>) -> Seq<AggSpecView>
    decreases e,
{
    match e {
        ExprView::Or(a, b) => with_condition(*b, with_condition(*a, before)),
        ExprView::And(a, b) => with_condition(*b, with_condition(*a, before)),
        ExprView::Not(a) => with_condition(*a, before),
        ExprView::Compare { op, left, right } => with_value(right, with_value(left, before)),
        ExprView::Like { left, pattern, negated } => with_value(pattern, with_value(left, before)),
        ExprView::Truthy(v) => with_value(v, before),
    }
}

/// The aggregates of the first `n` entries of a select list.
pub open spec fn select_aggregates(items: Seq<SelectItemView>, n: nat) -> Seq<AggSpecView>
    decreases n,
{
    if n == 0 || n > items.len() {
        Seq::empty()
    } else {
        with_value(items[n - 1].value, select_aggregates(items, (n - 1) as nat))
    }
}

/// The aggregates of a query: those of `select`, of `having` and of `order by`.
pub open spec fn aggregates_of(q: QueryView) -> Seq<AggSpecView> {
    let selected = match q.select {
        SelectionView::All => Seq::empty(),
        SelectionView::Items(items) => select_aggregates(items, items.len()),
    };
    let tested = match q.having {
        Some(e) => with_condition(e, selected),
        None => selected,
    };
    match q.order_by {
        Some(o) => with_value(o.value, tested),
        None => tested,
    }
}

fn is_listed(specs: &Vec<AggSpec>, key: &str) -> (r: bool)
    ensures
        r == listed(specs_view(specs@), key@),
{
    let mut i: usize = 0;
    while i < specs.len()
        invariant
            i <= specs@.len(),
            forall|j: int| 0 <= j < i ==> (#[trigger] specs_view(specs@)[j]).key != key@,
        decreases specs.len() - i,
    {
        if same_text(specs[i].key.as_str(), key) {
            assert(specs_view(specs@)[i as int].key == key@);
            return true;
        }
        i += 1;
    }
    false
}

fn walk_args(args: &Vec<ValueExpr>, out: &mut Vec<AggSpec>)
    ensures
        specs_view(final(out)@) == with_args(
            exprs_view(args@),
            args@.len(),
            specs_view(old(out)@),
        ),
    decreases args, 0nat,
{
    let mut i: usize = 0;
    while i < args.len()
        invariant
            i <= args@.len(),
            specs_view(out@) == with_args(exprs_view(args@), i as nat, specs_view(old(out)@)),
        decreases args.len() - i,
    {
        assert(decreases_to!(args => args@[i as int]));
        walk_value(&args[i], out);
        i += 1;
    }
}

fn walk_value(v: &ValueExpr, out: &mut Vec<AggSpec>)
    ensures
        specs_view(final(out)@) == with_value(v@, specs_view(old(out)@)),
    decreases v, 0nat,
{
    match v {
        ValueExpr::Field(_) => {},
        ValueExpr::Lit(_) => {},
        ValueExpr::Call { func, args } => {
            proof {
                lemma_call_view(*func, *args);
            }
            walk_args(args, out);
        },
        ValueExpr::Arith { op, left, right } => {
            walk_value(left, out);
            walk_value(right, out);
        },
        ValueExpr::Agg { agg, arg } => {
            let key = v.to_string();
            if !is_listed(out, key.as_str()) {
                let spec_arg = match arg {
                    Some(a) => Some(a.copy()),
                    None => None,
                };
                let one = AggSpec { key, agg: *agg, arg: spec_arg };
                let ghost before = specs_view(out@);
                out.push(one);
                assert(specs_view(out@) =~= before.push(one@));
            }
        },
    }
}

fn walk_expr(e: &Expr, out: &mut Vec<AggSpec>)
    ensures
        specs_view(final(out)@) == with_condition(e@, specs_view(old(out)@)),
    decreases e,
{
    match e {
        Expr::Or(a, b) => {
            walk_expr(a, out);
            walk_expr(b, out);
        },
        Expr::And(a, b) => {
            walk_expr(a, out);
            walk_expr(b, out);
        },
        Expr::Not(a) => walk_expr(a, out),
        Expr::Compare { op, left, right } => {
            walk_value(left, out);
            walk_value(right, out);
        },
        Expr::Like { left, pattern, negated } => {
            walk_value(left, out);
            walk_value(pattern, out);
        },
        Expr::Truthy(v) => walk_value(v, out),
    }
}

/// The aggregates of a query, each once, in the order in which they are first
/// mentioned.
pub fn collect_aggregates(query: &Query) -> (r: Vec<AggSpec>)
    ensures
        specs_view(r@) == aggregates_of(query@),
{
    let mut out: Vec<AggSpec> = Vec::new();
    assert(specs_view(out@) =~= Seq::empty());
    match &query.select {
        Selection::All => {},
        Selection::Items(items) => {
            let mut i: usize = 0;
            while i < items.len()
                invariant
                    i <= items@.len(),
                    specs_view(out@) == select_aggregates(items_view(items@), i as nat),
                decreases items.len() - i,
            {
                walk_value(&items[i].value, &mut out);
                i += 1;
            }
        },
    }
    match &query.having {
        Some(e) => walk_expr(e, &mut out),
        None => {},
    }
    match &query.order_by {
        Some(o) => walk_value(&o.value, &mut out),
        None => {},
    }
    out
}

/// The clauses of a grouped query, rewritten to read the folded rows.
///
/// A key is stored under the text of its expression, so every mention of it,
/// also one inside a larger value as in `format_time(bucket(ts, 5m))`, becomes
/// the look-up of that column. This happens once per query.
#[derive(Debug)]
pub struct Plan {
    pub select: Selection,
    pub having: Option<Expr>,
    pub order_by: Option<OrderBy>,
}

/// What a plan holds.
#[verifier::ext_equal]
pub struct PlanView {
    pub select: SelectionView,
    pub having: Option<ExprView>,
    pub order_by: Option<OrderByView>,
}

impl View for Plan {
    type V = PlanView;

    open spec fn view(&self) -> PlanView {
        PlanView {
            select: self.select@,
            having: expr_opt(self.having),
            order_by: order_opt(self.order_by),
        }
    }
}

/// The first key, from `i` on, that a value mentions.
pub open spec fn key_from(v: ValueExprView, keys: Seq<SelectItemView>, i: int) -> Option<int>
    decreases keys.len() - i,
{
    if !(0 <= i < keys.len()) {
        None
    } else if same_expr(keys[i].value, v) {
        Some(i)
    } else {
        key_from(v, keys, i + 1)
    }
}

/// The look-up of a column by its whole name, dots and all.
pub open spec fn column(name: Seq<char>) -> ValueExprView {
    ValueExprView::Field(PathView { raw: name, segments: seq![name] })
}

/// The first `n` values with the keys in them made look-ups.
pub open spec fn rewritten_args(
    args: Seq<ValueExprView>,
    n: nat,
    keys: Seq<SelectItemView>,
) -> Seq<ValueExprView>
    decreases args, n,
{
    if n == 0 || n > args.len() {
        Seq::empty()
    } else {
        rewritten_args(args, (n - 1) as nat, keys).push(rewritten(args[n - 1], keys))
    }
}

/// A value with the keys in it made look-ups of the columns they are folded
/// into.
pub open spec fn rewritten(v: ValueExprView, keys: Seq<SelectItemView>) -> ValueExprView
    decreases v, 0nat,
{
    match key_from(v, keys, 0) {
        Some(i) => column(expr_text(keys[i].value)),
        None => match v {
            ValueExprView::Field(_) => v,
            ValueExprView::Lit(_) => v,
            ValueExprView::Agg { agg, arg } => v,
            ValueExprView::Call { func, args } => ValueExprView::Call {
                func,
                args: rewritten_args(args, args.len(), keys),
            },
            ValueExprView::Arith { op, left, right } => ValueExprView::Arith {
                op,
                left: Box::new(rewritten(*left, keys)),
                right: Box::new(rewritten(*right, keys)),
            },
        },
    }
}

/// A condition with the keys in it made look-ups.
pub open spec fn rewritten_condition(e: ExprView, keys: Seq<SelectItemView>) -> ExprView
    decreases e,
{
    match e {
        ExprView::Or(a, b) => ExprView::Or(
            Box::new(rewritten_condition(*a, keys)),
            Box::new(rewritten_condition(*b, keys)),
        ),
        ExprView::And(a, b) => ExprView::And(
            Box::new(rewritten_condition(*a, keys)),
            Box::new(rewritten_condition(*b, keys)),
        ),
        ExprView::Not(a) => ExprView::Not(Box::new(rewritten_condition(*a, keys))),
        ExprView::Compare { op, left, right } => ExprView::Compare {
            op,
            left: rewritten(left, keys),
            right: rewritten(right, keys),
        },
        ExprView::Like { left, pattern, negated } => ExprView::Like {
            left: rewritten(left, keys),
            pattern: rewritten(pattern, keys),
            negated,
        },
        ExprView::Truthy(v) => ExprView::Truthy(rewritten(v, keys)),
    }
}

/// A select list with the keys in it made look-ups, under the same labels.
pub open spec fn rewritten_items(
    items: Seq<SelectItemView>,
    keys: Seq<SelectItemView>,
) -> Seq<SelectItemView> {
    Seq::new(
        items.len(),
        |i: int| SelectItemView { value: rewritten(items[i].value, keys), label: items[i].label },
    )
}

/// The plan of a query.
pub open spec fn plan_of(q: QueryView) -> PlanView {
    PlanView {
        select: match q.select {
            SelectionView::All => SelectionView::All,
            SelectionView::Items(items) => SelectionView::Items(
                rewritten_items(items, q.group_by),
            ),
        },
        having: match q.having {
            Some(e) => Some(rewritten_condition(e, q.group_by)),
            None => None,
        },
        order_by: match q.order_by {
            Some(o) => Some(
                OrderByView {
                    value: rewritten(o.value, q.group_by),
                    descending: o.descending,
                },
            ),
            None => None,
        },
    }
}

fn find_key(v: &ValueExpr, keys: &Vec<SelectItem>) -> (r: Option<usize>)
    ensures
        match r {
            Some(i) => key_from(v@, items_view(keys@), 0) == Some(i as int) && i < keys@.len(),
            None => key_from(v@, items_view(keys@), 0) is None,
        },
{
    let mut i: usize = 0;
    while i < keys.len()
        invariant
            i <= keys@.len(),
            key_from(v@, items_view(keys@), 0) == key_from(v@, items_view(keys@), i as int),
        decreases keys.len() - i,
    {
        if keys[i].value.same(v) {
            return Some(i);
        }
        i += 1;
    }
    None
}

fn column_named(name: String) -> (r: ValueExpr)
    ensures
        r@ == column(name@),
{
    let mut segments: Vec<String> = Vec::new();
    segments.push(name.clone());
    let path = Path { raw: name, segments };
    assert(path@.segments =~= seq![name@]);
    ValueExpr::Field(path)
}

fn substitute_args(args: &Vec<ValueExpr>, keys: &Vec<SelectItem>) -> (r: Vec<ValueExpr>)
    ensures
        exprs_view(r@) == rewritten_args(exprs_view(args@), args@.len(), items_view(keys@)),
    decreases args, 0nat,
{
    let mut out: Vec<ValueExpr> = Vec::new();
    let mut i: usize = 0;
    assert(exprs_view(out@) =~= Seq::empty());
    while i < args.len()
        invariant
            i <= args@.len(),
            exprs_view(out@) == rewritten_args(exprs_view(args@), i as nat, items_view(keys@)),
        decreases args.len() - i,
    {
        assert(decreases_to!(args => args@[i as int]));
        let one = substitute(&args[i], keys);
        let ghost before = exprs_view(out@);
        out.push(one);
        assert(exprs_view(out@) =~= before.push(one@));
        i += 1;
    }
    out
}

/// Makes every mention of a key the look-up of its column.
fn substitute(value: &ValueExpr, keys: &Vec<SelectItem>) -> (r: ValueExpr)
    ensures
        r@ == rewritten(value@, items_view(keys@)),
    decreases value, 0nat,
{
    match find_key(value, keys) {
        Some(i) => column_named(keys[i].value.to_string()),
        None => match value {
            ValueExpr::Field(_) => value.copy(),
            ValueExpr::Lit(_) => value.copy(),
            ValueExpr::Agg { .. } => value.copy(),
            ValueExpr::Call { func, args } => {
                let new_args = substitute_args(args, keys);
                proof {
                    lemma_call_view(*func, *args);
                    lemma_call_view(*func, new_args);
                }
                ValueExpr::Call { func: *func, args: new_args }
            },
            ValueExpr::Arith { op, left, right } => ValueExpr::Arith {
                op: *op,
                left: Box::new(substitute(left, keys)),
                right: Box::new(substitute(right, keys)),
            },
        },
    }
}

fn substitute_expr(e: &Expr, keys: &Vec<SelectItem>) -> (r: Expr)
    ensures
        r@ == rewritten_condition(e@, items_view(keys@)),
    decreases e,
{
    match e {
        Expr::Or(a, b) => Expr::Or(
            Box::new(substitute_expr(a, keys)),
            Box::new(substitute_expr(b, keys)),
        ),
        Expr::And(a, b) => Expr::And(
            Box::new(substitute_expr(a, keys)),
            Box::new(substitute_expr(b, keys)),
        ),
        Expr::Not(a) => Expr::Not(Box::new(substitute_expr(a, keys))),
        Expr::Compare { op, left, right } => Expr::Compare {
            op: *op,
            left: substitute(left, keys),
            right: substitute(right, keys),
        },
        Expr::Like { left, pattern, negated } => Expr::Like {
            left: substitute(left, keys),
            pattern: substitute(pattern, keys),
            negated: *negated,
        },
        Expr::Truthy(v) => Expr::Truthy(substitute(v, keys)),
    }
}

fn substitute_items(items: &Vec<SelectItem>, keys: &Vec<SelectItem>) -> (r: Vec<SelectItem>)
    ensures
        items_view(r@) == rewritten_items(items_view(items@), items_view(keys@)),
{
    let mut out: Vec<SelectItem> = Vec::new();
    let mut i: usize = 0;
    while i < items.len()
        invariant
            i <= items@.len(),
            out@.len() == i,
            forall|j: int|
                0 <= j < i ==> (#[trigger] out@[j])@ == rewritten_items(
                    items_view(items@),
                    items_view(keys@),
                )[j],
        decreases items.len() - i,
    {
        out.push(
            SelectItem { value: substitute(&items[i].value, keys), label: items[i].label.clone() },
        );
        i += 1;
    }
    assert(items_view(out@) =~= rewritten_items(items_view(items@), items_view(keys@)));
    out
}

impl Plan {
    pub fn new(query: &Query) -> (r: Plan)
        ensures
            r@ == plan_of(query@),
    {
        let keys = &query.group_by;
        let select = match &query.select {
            Selection::All => Selection::All,
            Selection::Items(items) => Selection::Items(substitute_items(items, keys)),
        };
        let having = match &query.having {
            Some(e) => Some(substitute_expr(e, keys)),
            None => None,
        };
        let order_by = match &query.order_by {
            Some(o) => Some(
                OrderBy { value: substitute(&o.value, keys), descending: o.descending },
            ),
            None => None,
        };
        Plan { select, having, order_by }
    }
}

/// A number that an aggregate gives: a whole one as such where it is exact.
pub open spec fn narrowed(x: Num) -> Tree {
    if x.finite() && rest_part(x) == 0 && whole_part(x) < 2 * HIDDEN {
        Tree::Number(Number::of_int(clamped(x) as i64))
    } else {
        number_tree(x)
    }
}

fn narrow(x: Num) -> (r: Value)
    ensures
        r@ == narrowed(x),
{
    if x.is_finite() && x.is_whole() && x.whole_magnitude() < 2 * HIDDEN {
        Value::Number(Number::from_i64(x.to_i64()))
    } else {
        number(x)
    }
}

/// One more, as far as a counter goes.
pub open spec fn counted(n: u64) -> u64 {
    if n == u64::MAX {
        n
    } else {
        (n + 1) as u64
    }
}

/// One more, as far as a counter goes.
pub(crate) fn count_one(n: u64) -> (r: u64)
    ensures
        r == counted(n),
{
    if n == u64::MAX {
        n
    } else {
        n + 1
    }
}

/// The running state of one aggregate within one group.
pub enum State {
    Count(u64),
    Distinct(StringHashSet),
    /// The total, and how many values are in it.
    Total { sum: Num, n: u64 },
    Extreme(Option<Value>),
    Pick(Option<Value>),
}

/// What a state holds.
#[verifier::ext_equal]
pub enum StateView {
    Count(u64),
    Distinct(Set<Seq<char>>),
    Total { sum: Num, n: u64 },
    Extreme(Option<Tree>),
    Pick(Option<Tree>),
}

impl View for State {
    type V = StateView;

    open spec fn view(&self) -> StateView {
        match self {
            State::Count(n) => StateView::Count(*n),
            State::Distinct(seen) => StateView::Distinct(seen@),
            State::Total { sum, n } => StateView::Total { sum: *sum, n: *n },
            State::Extreme(v) => StateView::Extreme(tree_opt(*v)),
            State::Pick(v) => StateView::Pick(tree_opt(*v)),
        }
    }
}

/// The state before the first record.
pub open spec fn fresh(agg: Agg) -> StateView {
    match agg {
        Agg::Count => StateView::Count(0),
        Agg::CountDistinct => StateView::Distinct(Set::empty()),
        Agg::Sum => StateView::Total { sum: whole_int(0), n: 0 },
        Agg::Avg => StateView::Total { sum: whole_int(0), n: 0 },
        Agg::Min => StateView::Extreme(None),
        Agg::Max => StateView::Extreme(None),
        Agg::First => StateView::Pick(None),
        Agg::Last => StateView::Pick(None),
    }
}

/// Whether a value takes the place of the least, or the greatest, so far. A
/// value that cannot be compared with it never does.
pub open spec fn displaces(agg: Agg, v: Tree, held: Tree) -> bool {
    tree_order(v, held) == Some(if agg == Agg::Min { Order::Less } else { Order::Greater })
}

/// The state behind one more record. A missing value leaves it as it is.
pub open spec fn pushed(state: StateView, agg: Agg, value: Option<Tree>) -> StateView {
    match value {
        None => state,
        Some(v) => match state {
            StateView::Count(n) => StateView::Count(counted(n)),
            StateView::Distinct(seen) => StateView::Distinct(seen.insert(json_text(v))),
            StateView::Total { sum: total, n } => match number_of(v) {
                Some(x) => StateView::Total { sum: sum(total, x), n: counted(n) },
                None => state,
            },
            StateView::Extreme(held) => match held {
                Some(h) => if displaces(agg, v, h) {
                    StateView::Extreme(Some(v))
                } else {
                    state
                },
                None => StateView::Extreme(Some(v)),
            },
            StateView::Pick(held) => if agg == Agg::Last || held is None {
                StateView::Pick(Some(v))
            } else {
                state
            },
        },
    }
}

/// What an aggregate gives in the end. A total of no values is missing, not
/// zero.
pub open spec fn outcome(state: StateView, agg: Agg) -> Option<Tree> {
    match state {
        StateView::Count(n) => Some(Tree::Number(Number::PosInt(n))),
        StateView::Distinct(seen) => Some(Tree::Number(Number::PosInt(seen.len() as u64))),
        StateView::Total { sum: total, n } => if n == 0 {
            None
        } else if agg == Agg::Avg {
            Some(narrowed(ratio(total, whole_int(n as int))))
        } else {
            Some(narrowed(total))
        },
        StateView::Extreme(v) => v,
        StateView::Pick(v) => v,
    }
}

impl State {
    /// The state before the first record.
    pub fn new(agg: Agg) -> (r: State)
        ensures
            r@ == fresh(agg),
    {
        match agg {
            Agg::Count => State::Count(0),
            Agg::CountDistinct => State::Distinct(StringHashSet::new()),
            Agg::Sum => State::Total { sum: Num::from_u64(0), n: 0 },
            Agg::Avg => State::Total { sum: Num::from_u64(0), n: 0 },
            Agg::Min => State::Extreme(None),
            Agg::Max => State::Extreme(None),
            Agg::First => State::Pick(None),
            Agg::Last => State::Pick(None),
        }
    }

    /// Folds in the value that one record has for the aggregate. A record that has
    /// none changes nothing.
    pub fn push(&mut self, agg: Agg, value: Option<Value>)
        ensures
            final(self)@ == pushed(old(self)@, agg, tree_opt(value)),
            value is None ==> *final(self) == *old(self),
    {
        if let Some(v) = value {
            match self {
                State::Count(n) => {
                    *n = count_one(*n);
                },
                State::Distinct(seen) => {
                    seen.insert(to_json(&v));
                },
                State::Total { sum, n } => {
                    if let Some(x) = to_number(&v) {
                        *sum = sum.plus(x);
                        *n = count_one(*n);
                    }
                },
                State::Extreme(held) => {
                    let replace = match held {
                        None => true,
                        Some(h) => match order_values(&v, h) {
                            Some(Order::Less) => agg == Agg::Min,
                            Some(Order::Greater) => agg != Agg::Min,
                            _ => false,
                        },
                    };
                    if replace {
                        *held = Some(v);
                    }
                },
                State::Pick(held) => {
                    if agg == Agg::Last || held.is_none() {
                        *held = Some(v);
                    }
                },
            }
        }
    }

    /// What the aggregate gives in the end.
    pub fn finish(&self, agg: Agg) -> (r: Option<Value>)
        ensures
            tree_opt(r) == outcome(self@, agg),
    {
        match self {
            State::Count(n) => Some(Value::Number(Number::PosInt(*n))),
            State::Distinct(seen) => Some(Value::Number(Number::PosInt(seen.len() as u64))),
            State::Total { sum, n } => {
                if *n == 0 {
                    None
                } else if agg == Agg::Avg {
                    proof {
                        lemma_count_positive(*n as nat);
                    }
                    Some(narrow(sum.over(Num::from_u64(*n))))
                } else {
                    Some(narrow(*sum))
                }
            },
            State::Extreme(v) => copy_opt(v),
            State::Pick(v) => copy_opt(v),
        }
    }
}

fn copy_opt(v: &Option<Value>) -> (r: Option<Value>)
    ensures
        tree_opt(r) == tree_opt(*v),
{
    match v {
        Some(x) => Some(x.copy()),
        None => None,
    }
}

/// One group: the values of its keys and one state per aggregate.
pub struct Group {
    pub keys: Vec<Option<Value>>,
    pub states: Vec<State>,
}

/// What a group holds.
#[verifier::ext_equal]
pub struct GroupView {
    pub keys: Seq<Option<Tree>>,
    pub states: Seq<StateView>,
}

/// What a list of states holds.
pub open spec fn states_view(states: Seq<State>) -> Seq<StateView> {
    Seq::new(states.len(), |i: int| states[i]@)
}

impl View for Group {
    type V = GroupView;

    open spec fn view(&self) -> GroupView {
        GroupView { keys: args_view(self.keys@), states: states_view(self.states@) }
    }
}

/// What a list of groups holds.
pub open spec fn groups_view(groups: Seq<Group>) -> Seq<GroupView> {
    Seq::new(groups.len(), |i: int| groups[i]@)
}

/// One key in the text that tells groups apart. A key that is missing and one
/// that is null are different.
pub open spec fn key_mark(key: Option<Tree>) -> Seq<char> {
    match key {
        None => seq!['\u{0}', '\u{2}'],
        Some(t) => seq!['\u{1}'] + json_text(t) + seq!['\u{2}'],
    }
}

/// The text that tells groups apart, for the first `n` keys.
pub open spec fn identity(keys: Seq<Option<Tree>>, n: nat) -> Seq<char>
    decreases n,
{
    if n == 0 || n > keys.len() {
        Seq::empty()
    } else {
        identity(keys, (n - 1) as nat) + key_mark(keys[n - 1])
    }
}

/// The values that the keys of a grouping have on a record.
pub open spec fn keys_on(keys: Seq<SelectItemView>, record: Fields, env: Env) -> Seq<Option<Tree>> {
    Seq::new(keys.len(), |i: int| value_of(keys[i].value, record, env))
}

/// The value that an aggregate takes of a record. One over every record always
/// finds something.
pub open spec fn taken(spec_: AggSpecView, record: Fields, env: Env) -> Option<Tree> {
    match spec_.arg {
        None => Some(Tree::Bool(true)),
        Some(a) => value_of(a, record, env),
    }
}

/// The group, from `i` on, that has this identity.
pub open spec fn group_from(groups: Seq<GroupView>, ident: Seq<char>, i: int) -> Option<int>
    decreases groups.len() - i,
{
    if !(0 <= i < groups.len()) {
        None
    } else if identity(groups[i].keys, groups[i].keys.len()) == ident {
        Some(i)
    } else {
        group_from(groups, ident, i + 1)
    }
}

/// The states before the first record of a group.
pub open spec fn fresh_states(specs: Seq<AggSpecView>) -> Seq<StateView> {
    Seq::new(specs.len(), |i: int| fresh(specs[i].agg))
}

/// The states of a group behind one more record.
pub open spec fn advanced(
    states: Seq<StateView>,
    specs: Seq<AggSpecView>,
    record: Fields,
    env: Env,
) -> Seq<StateView> {
    Seq::new(
        specs.len(),
        |i: int| pushed(states[i], specs[i].agg, taken(specs[i], record, env)),
    )
}

/// The groups behind one more record: it goes to the group that has its keys, or
/// opens one behind the others.
pub open spec fn folded_in(
    groups: Seq<GroupView>,
    keys: Seq<SelectItemView>,
    specs: Seq<AggSpecView>,
    record: Fields,
    env: Env,
) -> Seq<GroupView> {
    let found = keys_on(keys, record, env);
    match group_from(groups, identity(found, found.len()), 0) {
        Some(i) => groups.update(
            i,
            GroupView {
                keys: groups[i].keys,
                states: advanced(groups[i].states, specs, record, env),
            },
        ),
        None => groups.push(
            GroupView {
                keys: found,
                states: advanced(fresh_states(specs), specs, record, env),
            },
        ),
    }
}

/// The groups that give rows: without keys the whole input is one group, also
/// where no record came.
pub open spec fn covered(
    keys: Seq<SelectItemView>,
    specs: Seq<AggSpecView>,
    groups: Seq<GroupView>,
) -> Seq<GroupView> {
    if keys.len() == 0 && groups.len() == 0 {
        seq![GroupView { keys: Seq::empty(), states: fresh_states(specs) }]
    } else {
        groups
    }
}

/// The row of a group so far: its first `n` keys, each under the text of its
/// expression and under its label. A missing key is left out.
pub open spec fn key_fields(keys: Seq<SelectItemView>, values: Seq<Option<Tree>>, n: nat) -> Fields
    decreases n,
{
    if n == 0 || n > keys.len() {
        Fields::empty()
    } else {
        let before = key_fields(keys, values, (n - 1) as nat);
        let text = expr_text(keys[n - 1].value);
        match values[n - 1] {
            None => before,
            Some(v) => if keys[n - 1].label == text {
                with_field(before, text, v)
            } else {
                with_field(with_field(before, text, v), keys[n - 1].label, v)
            },
        }
    }
}

/// The row of a group so far, with the outcomes of the first `n` aggregates
/// behind its keys. A missing outcome is left out.
pub open spec fn outcome_fields(
    before: Fields,
    specs: Seq<AggSpecView>,
    states: Seq<StateView>,
    n: nat,
) -> Fields
    decreases n,
{
    if n == 0 || n > specs.len() {
        before
    } else {
        let rest = outcome_fields(before, specs, states, (n - 1) as nat);
        match outcome(states[n - 1], specs[n - 1].agg) {
            None => rest,
            Some(v) => with_field(rest, specs[n - 1].key, v),
        }
    }
}

/// The row of a group.
pub open spec fn group_row(
    keys: Seq<SelectItemView>,
    specs: Seq<AggSpecView>,
    group: GroupView,
) -> Fields {
    outcome_fields(key_fields(keys, group.keys, keys.len()), specs, group.states, specs.len())
}

/// The rows of the groups, one each, in their order.
pub open spec fn group_rows(
    keys: Seq<SelectItemView>,
    specs: Seq<AggSpecView>,
    groups: Seq<GroupView>,
) -> Seq<Fields> {
    Seq::new(groups.len(), |i: int| group_row(keys, specs, groups[i]))
}

/// What a list of records holds.
pub open spec fn records_view(records: Seq<Record>) -> Seq<Fields> {
    Seq::new(records.len(), |i: int| records[i]@)
}

/// Text that tells groups apart.
pub fn key_identity(keys: &Vec<Option<Value>>) -> (r: String)
    ensures
        r@ == identity(args_view(keys@), keys@.len()),
{
    let mut out: Vec<char> = Vec::new();
    let mut i: usize = 0;
    while i < keys.len()
        invariant
            i <= keys@.len(),
            out@ == identity(args_view(keys@), i as nat),
        decreases keys.len() - i,
    {
        let ghost before = out@;
        match &keys[i] {
            None => out.push('\u{0}'),
            Some(v) => {
                out.push('\u{1}');
                push_json(&mut out, v);
            },
        }
        out.push('\u{2}');
        assert(out@ =~= before + key_mark(args_view(keys@)[i as int]));
        i += 1;
    }
    string_of(&out)
}

/// Folds records into groups and gives the rows.
pub struct Grouper<'q> {
    query: &'q Query,
    specs: Vec<AggSpec>,
    order: Vec<Group>,
    /// Where the group of an identity stands.
    index: StringHashMap<usize>,
}

impl<'q> View for Grouper<'q> {
    type V = Seq<GroupView>;

    closed spec fn view(&self) -> Seq<GroupView> {
        groups_view(self.order@)
    }
}

impl<'q> Grouper<'q> {
    /// The keys of the grouping.
    pub closed spec fn keys(&self) -> Seq<SelectItemView> {
        items_view(self.query.group_by@)
    }

    /// The aggregates of the query.
    pub closed spec fn aggregates(&self) -> Seq<AggSpecView> {
        specs_view(self.specs@)
    }

    /// Every group has a state for every aggregate, and the index finds each.
    pub closed spec fn wf(&self) -> bool {
        &&& forall|i: int|
            0 <= i < self@.len() ==> (#[trigger] self@[i]).states.len() == self.aggregates().len()
                && self@[i].keys.len() == self.keys().len()
        &&& forall|k: Seq<char>| #[trigger]
            self.index@.contains_key(k) ==> self.index@[k] < self@.len() && identity(
                self@[self.index@[k] as int].keys,
                self@[self.index@[k] as int].keys.len(),
            ) == k
        &&& forall|i: int|
            0 <= i < self@.len() ==> self.index@.contains_key(
                identity((#[trigger] self@[i]).keys, self@[i].keys.len()),
            ) && self.index@[identity(self@[i].keys, self@[i].keys.len())] == i
    }

    pub fn new(query: &'q Query) -> (r: Self)
        ensures
            r.wf(),
            r@ == Seq::<GroupView>::empty(),
            r.keys() == query@.group_by,
            r.aggregates() == aggregates_of(query@),
    {
        let r = Grouper {
            query,
            specs: collect_aggregates(query),
            order: Vec::new(),
            index: StringHashMap::new(),
        };
        assert(r@ =~= Seq::<GroupView>::empty());
        r
    }

    fn keys_of(&self, record: &Record, env: Env) -> (r: Vec<Option<Value>>)
        ensures
            args_view(r@) == keys_on(self.keys(), record@, env),
    {
        let mut out: Vec<Option<Value>> = Vec::new();
        let mut i: usize = 0;
        while i < self.query.group_by.len()
            invariant
                i <= self.query.group_by@.len(),
                out@.len() == i,
                forall|j: int|
                    0 <= j < i ==> tree_opt(#[trigger] out@[j]) == keys_on(
                        self.keys(),
                        record@,
                        env,
                    )[j],
            decreases self.query.group_by.len() - i,
        {
            out.push(eval_value(&self.query.group_by[i].value, record, env));
            i += 1;
        }
        assert(args_view(out@) =~= keys_on(self.keys(), record@, env));
        out
    }

    fn fresh_group(&self, keys: Vec<Option<Value>>) -> (r: Group)
        ensures
            r@ == (GroupView { keys: args_view(keys@), states: fresh_states(self.aggregates()) }),
    {
        let mut states: Vec<State> = Vec::new();
        let mut i: usize = 0;
        while i < self.specs.len()
            invariant
                i <= self.specs@.len(),
                states@.len() == i,
                forall|j: int|
                    0 <= j < i ==> (#[trigger] states@[j])@ == fresh_states(self.aggregates())[j],
            decreases self.specs.len() - i,
        {
            states.push(State::new(self.specs[i].agg));
            i += 1;
        }
        assert(states_view(states@) =~= fresh_states(self.aggregates()));
        Group { keys, states }
    }

    /// Folds one record into its group, which is opened where it is new.
    pub fn accept(&mut self, record: &Record, env: Env)
        requires
            old(self).wf(),
        ensures
            final(self).wf(),
            final(self).keys() == old(self).keys(),
            final(self).aggregates() == old(self).aggregates(),
            final(self)@ == folded_in(
                old(self)@,
                old(self).keys(),
                old(self).aggregates(),
                record@,
                env,
            ),
    {
        let keys = self.keys_of(record, env);
        let ident = key_identity(&keys);
        let ghost before = self@;
        let ghost found = args_view(keys@);
        let found_at: Option<usize> = match self.index.get(ident.as_str()) {
            Some(i) => Some(*i),
            None => None,
        };
        let at: usize = match found_at {
            Some(i) => {
                proof {
                    self.lemma_index_finds(ident@, i as int);
                }
                i
            },
            None => {
                proof {
                    self.lemma_index_misses(ident@);
                }
                let i: usize = self.order.len();
                let group = self.fresh_group(keys);
                self.order.push(group);
                self.index.insert(ident, i);
                assert(self@ =~= before.push(group@));
                i
            },
        };
        let ghost opened = self@;
        let ghost index = self.index@;
        assert(opened[at as int].states.len() == self.specs@.len());
        self.advance(at, record, env);
        proof {
            let now = self@;
            assert(now =~= folded_in(
                before,
                old(self).keys(),
                old(self).aggregates(),
                record@,
                env,
            ));
            assert forall|i: int| 0 <= i < now.len() implies (#[trigger] now[i]).keys
                == opened[i].keys by {}
        }
    }

    /// Folds one record into the group at `at`.
    fn advance(&mut self, at: usize, record: &Record, env: Env)
        requires
            at < old(self)@.len(),
            old(self)@[at as int].states.len() == old(self).aggregates().len(),
        ensures
            final(self).query == old(self).query,
            final(self).specs == old(self).specs,
            final(self).index == old(self).index,
            final(self)@ == old(self)@.update(
                at as int,
                GroupView {
                    keys: old(self)@[at as int].keys,
                    states: advanced(
                        old(self)@[at as int].states,
                        old(self).aggregates(),
                        record@,
                        env,
                    ),
                },
            ),
    {
        let mut i: usize = 0;
        let ghost goal = advanced(self@[at as int].states, self.aggregates(), record@, env);
        while i < self.specs.len()
            invariant
                self.query == old(self).query,
                self.specs == old(self).specs,
                self.index == old(self).index,
                i <= self.specs@.len(),
                at < self.order@.len(),
                self.order@.len() == old(self).order@.len(),
                forall|j: int|
                    0 <= j < self.order@.len() && j != at ==> self.order@[j] == old(
                        self,
                    ).order@[j],
                self.order@[at as int].keys == old(self).order@[at as int].keys,
                self.order@[at as int].states@.len() == self.specs@.len(),
                old(self).order@[at as int].states@.len() == self.specs@.len(),
                goal == advanced(
                    old(self)@[at as int].states,
                    self.aggregates(),
                    record@,
                    env,
                ),
                forall|j: int|
                    0 <= j < i ==> (#[trigger] self.order@[at as int].states@[j])@ == goal[j],
                forall|j: int|
                    i <= j < self.specs@.len() ==> (#[trigger] self.order@[at as int].states@[j])
                        == old(self).order@[at as int].states@[j],
            decreases self.specs.len() - i,
        {
            let value = match &self.specs[i].arg {
                None => Some(Value::Bool(true)),
                Some(a) => eval_value(a, record, env),
            };
            let agg = self.specs[i].agg;
            let ghost was = self.order@[at as int].states@[i as int]@;
            assert(tree_opt(value) == taken(self.aggregates()[i as int], record@, env));
            self.order[at].states[i].push(agg, value);
            assert(was == old(self)@[at as int].states[i as int]);
            assert(self.order@[at as int].states@[i as int]@ == goal[i as int]);
            i += 1;
        }
        assert(states_view(self.order@[at as int].states@) =~= goal);
        assert(self@ =~= old(self)@.update(
            at as int,
            GroupView { keys: old(self)@[at as int].keys, states: goal },
        ));
    }

    fn row_of(&self, group: &Group) -> (r: Record)
        requires
            group@.states.len() == self.aggregates().len(),
            group@.keys.len() == self.keys().len(),
        ensures
            r@ == group_row(self.keys(), self.aggregates(), group@),
    {
        let mut out = Record::new();
        let mut i: usize = 0;
        while i < self.query.group_by.len()
            invariant
                i <= self.query.group_by@.len() == group.keys@.len(),
                out@ == key_fields(self.keys(), group@.keys, i as nat),
            decreases self.query.group_by.len() - i,
        {
            let item = &self.query.group_by[i];
            assert(item@ == self.keys()[i as int]);
            assert(group@.keys[i as int] == tree_opt(group.keys@[i as int]));
            if let Some(v) = &group.keys[i] {
                let text = item.value.to_string();
                let same = same_text(item.label.as_str(), text.as_str());
                out.insert(text, v.copy());
                if !same {
                    out.insert(item.label.clone(), v.copy());
                }
            }
            i += 1;
        }
        let ghost head = out@;
        let mut j: usize = 0;
        while j < self.specs.len()
            invariant
                j <= self.specs@.len() == group.states@.len(),
                out@ == outcome_fields(head, self.aggregates(), group@.states, j as nat),
            decreases self.specs.len() - j,
        {
            let v = group.states[j].finish(self.specs[j].agg);
            assert(group@.states[j as int] == group.states@[j as int]@);
            if let Some(v) = v {
                out.insert(self.specs[j].key.clone(), v);
            }
            j += 1;
        }
        out
    }

    /// Opens the group of the whole input where there are no keys and no record
    /// has done so.
    pub fn cover(&mut self)
        requires
            old(self).wf(),
        ensures
            final(self).wf(),
            final(self).keys() == old(self).keys(),
            final(self).aggregates() == old(self).aggregates(),
            final(self)@ == covered(old(self).keys(), old(self).aggregates(), old(self)@),
    {
        if self.query.group_by.len() == 0 && self.order.len() == 0 {
            let keys: Vec<Option<Value>> = Vec::new();
            let ident = key_identity(&keys);
            let group = self.fresh_group(keys);
            assert(group@.keys =~= Seq::<Option<Tree>>::empty());
            self.order.push(group);
            self.index.insert(ident, 0);
            assert(self@ =~= seq![group@]);
        }
    }

    /// The rows of the groups: each carries its keys, under the texts of their
    /// expressions and under their labels, and each aggregate under its text.
    pub fn finish(self) -> (r: Vec<Record>)
        requires
            self.wf(),
        ensures
            records_view(r@) == group_rows(self.keys(), self.aggregates(), self@),
    {
        let mut out: Vec<Record> = Vec::new();
        let mut i: usize = 0;
        while i < self.order.len()
            invariant
                self.wf(),
                i <= self.order@.len(),
                out@.len() == i,
                forall|j: int|
                    0 <= j < i ==> (#[trigger] out@[j])@ == group_rows(
                        self.keys(),
                        self.aggregates(),
                        self@,
                    )[j],
            decreases self.order.len() - i,
        {
            assert(self@[i as int] == self.order@[i as int]@);
            out.push(self.row_of(&self.order[i]));
            i += 1;
        }
        assert(records_view(out@) =~= group_rows(self.keys(), self.aggregates(), self@));
        out
    }

    proof fn lemma_index_finds(&self, ident: Seq<char>, at: int)
        requires
            self.wf(),
            self.index@.contains_key(ident),
            self.index@[ident] == at,
        ensures
            0 <= at < self@.len(),
            group_from(self@, ident, 0) == Some(at),
    {
        assert forall|j: int| 0 <= j < at implies identity(
            (#[trigger] self@[j]).keys,
            self@[j].keys.len(),
        ) != ident by {}
        lemma_group_at(self@, ident, 0, at);
    }

    proof fn lemma_index_misses(&self, ident: Seq<char>)
        requires
            self.wf(),
            !self.index@.contains_key(ident),
        ensures
            group_from(self@, ident, 0) is None,
    {
        lemma_no_group(self@, ident, 0);
    }
}

proof fn lemma_group_at(groups: Seq<GroupView>, ident: Seq<char>, from: int, at: int)
    requires
        0 <= from <= at < groups.len(),
        identity(groups[at].keys, groups[at].keys.len()) == ident,
        forall|j: int|
            from <= j < at ==> identity((#[trigger] groups[j]).keys, groups[j].keys.len()) != ident,
    ensures
        group_from(groups, ident, from) == Some(at),
    decreases at - from,
{
    if from < at {
        assert(identity(groups[from].keys, groups[from].keys.len()) != ident);
        lemma_group_at(groups, ident, from + 1, at);
    }
}

proof fn lemma_no_group(groups: Seq<GroupView>, ident: Seq<char>, from: int)
    requires
        0 <= from,
        forall|j: int|
            from <= j < groups.len() ==> identity((#[trigger] groups[j]).keys, groups[j].keys.len())
                != ident,
    ensures
        group_from(groups, ident, from) is None,
    decreases groups.len() - from,
{
    if from < groups.len() {
        assert(identity(groups[from].keys, groups[from].keys.len()) != ident);
        lemma_no_group(groups, ident, from + 1);
    }
}

} // verus!
