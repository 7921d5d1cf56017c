//! Expression evaluation and the rules of type coercion.
//!
//! **Missing fields.** A path that does not resolve is *missing*, which is not
//! the same as a `null`. Any comparison with a missing operand is false, `!=`
//! too. A function of a missing value is missing.
//!
//! **Comparison.** Numbers compare by amount, strings by code point, booleans
//! with `false` first. A string and a number compare by the number that the
//! string writes, a boolean and a number by 1 and 0, a boolean and a string by
//! the boolean that the string writes. A `null` equals a `null`, and arrays and
//! objects may be equal, but neither is ordered. Every other pair is
//! incomparable, which makes `!=` true and every other operator false.
//!
//! **Truthiness.** Missing and `null` are false, a number is true unless zero,
//! and a string, an array or an object unless empty.

use crate::ast::{
    expr_text, exprs_view, func_arity, lemma_call_view, ArithOp, CmpOp, Expr, ExprView, Func,
    Literal, LiteralView, ValueExpr, ValueExprView,
};
use crate::big::{order_of, Order};
use crate::decimal::{number_in, pow10, push_part, read_number};
use crate::json::{bool_text, number_text, push_bool, push_number};
use crate::like::{holds_at, like, like_match, stands_at};
use crate::num::{
    absolute, ceil_of, clamped, difference, floor_of, lemma_negative_zero, lemma_rounded_down,
    lemma_whole_exact, lemma_whole_parts, negated, one, product, ratio, rest_part, round_of, sum,
    whole, whole_int, whole_part, HIDDEN, Num,
};
use crate::record::{found_at, lookup};
use crate::text::{
    chars_between, chars_of, digit, is_digit, lemma_trimmed_part, lower_chars, lower_text,
    lowercase_of, string_between, string_of, trim_chars, trim_string, trimmed, uppercase_of,
};
use crate::timeutil::{
    duration_in, epoch_text, format_epoch, is_word, parse_duration_chars, parse_rfc3339, parse_tz,
    rfc3339_in, tz_in,
};
use crate::value::{
    distinct_names, field, fields_of, lemma_field_found, lemma_field_stands, sound, tree_opt,
    trees_of, Fields, Number, Record, Tree, Value,
};
use std::cmp::Ordering;
use vstd::prelude::*;

verus! {

/// What an evaluation takes from its surroundings: the time, in epoch seconds,
/// and the offset of the local zone, in minutes.
#[derive(Clone, Copy, Debug, PartialEq, Eq, Structural)]
pub struct Env {
    pub now: Num,
    pub local_offset: i32,
}

/// A number as a value; what is not finite is `null`.
pub open spec fn number_tree(n: Num) -> Tree {
    if n.finite() {
        Tree::Number(Number::Float(n))
    } else {
        Tree::Null
    }
}

/// A number as a value; what is not finite is `null`.
pub fn number(n: Num) -> (r: Value)
    ensures
        r@ == number_tree(n),
{
    if n.is_finite() {
        Value::Number(Number::Float(n))
    } else {
        Value::Null
    }
}

/// The number that a text writes, white space around it left aside. The words
/// for infinities and NaN write none.
pub open spec fn text_number(s: Seq<char>) -> Option<Num> {
    match number_in(trimmed(s)) {
        Some(n) => if n.finite() {
            Some(n)
        } else {
            None
        },
        None => None,
    }
}

/// Reads the number that a text writes.
pub fn parse_number(s: &[char]) -> (r: Option<Num>)
    ensures
        r == text_number(s@),
{
    match read_number(&trim_chars(s)) {
        Some(n) => if n.is_finite() {
            Some(n)
        } else {
            None
        },
        None => None,
    }
}

/// The boolean that a text writes, in capitals or not.
pub open spec fn text_bool(s: Seq<char>) -> Option<bool> {
    let t = lower_text(trimmed(s));
    if t == "true"@ {
        Some(true)
    } else if t == "false"@ {
        Some(false)
    } else {
        None
    }
}

/// Reads the boolean that a text writes.
pub fn parse_bool(s: &[char]) -> (r: Option<bool>)
    ensures
        r == text_bool(s@),
{
    let t = lower_chars(&trim_chars(s));
    if is_word(&t, "true") {
        Some(true)
    } else if is_word(&t, "false") {
        Some(false)
    } else {
        None
    }
}

/// A value read as text. Null, arrays and objects have none.
pub open spec fn text_of(t: Tree) -> Option<Seq<char>> {
    match t {
        Tree::Str(s) => Some(s),
        Tree::Number(n) => Some(number_text(n)),
        Tree::Bool(b) => Some(bool_text(b)),
        _ => None,
    }
}

/// A value read as text.
pub fn as_text(v: &Value) -> (r: Option<Vec<char>>)
    ensures
        match r {
            Some(s) => text_of(v@) == Some(s@),
            None => text_of(v@) is None,
        },
{
    let mut out: Vec<char> = Vec::new();
    match v {
        Value::Str(s) => Some(chars_of(s.as_str())),
        Value::Number(n) => {
            push_number(&mut out, *n);
            assert(out@ =~= number_text(*n));
            Some(out)
        },
        Value::Bool(b) => {
            push_bool(&mut out, *b);
            assert(out@ =~= bool_text(*b));
            Some(out)
        },
        _ => None,
    }
}

/// Where the digits, points and signs end that start at `i`.
pub open spec fn numeric_end(s: Seq<char>, i: int) -> int
    decreases s.len() - i,
{
    if 0 <= i < s.len() && (digit(s[i]) || s[i] == '.' || s[i] == '-' || s[i] == '+') {
        numeric_end(s, i + 1)
    } else {
        i
    }
}

/// A value read as a number: a boolean is 1 or 0, and a text is the number it
/// writes, with or without a unit behind it.
pub open spec fn number_of(t: Tree) -> Option<Num> {
    match t {
        Tree::Number(n) => Some(n.num()),
        Tree::Bool(b) => Some(if b { whole_int(1) } else { whole_int(0) }),
        Tree::Str(s) => {
            let u = trimmed(s);
            match text_number(u) {
                Some(n) => Some(n),
                None => text_number(u.subrange(0, numeric_end(u, 0))),
            }
        },
        _ => None,
    }
}

/// A value read as a number.
pub fn to_number(v: &Value) -> (r: Option<Num>)
    ensures
        r == number_of(v@),
{
    match v {
        Value::Number(n) => Some(n.to_num()),
        Value::Bool(b) => Some(if *b { Num::from_u64(1) } else { Num::from_u64(0) }),
        Value::Str(s) => {
            let u = trim_chars(&chars_of(s.as_str()));
            match parse_number(&u) {
                Some(n) => Some(n),
                None => {
                    let mut i: usize = 0;
                    while i < u.len() && (is_digit(u[i]) || u[i] == '.' || u[i] == '-' || u[i] == '+')
                        invariant
                            i <= u@.len(),
                            numeric_end(u@, 0) == numeric_end(u@, i as int),
                        decreases u.len() - i,
                    {
                        i += 1;
                    }
                    parse_number(&chars_between(&u, 0, i))
                },
            }
        },
        _ => None,
    }
}

/// A value read as a duration in milliseconds: a bare number is one, and a text
/// with a unit is converted.
pub open spec fn duration_ms_of(t: Tree) -> Option<Num> {
    match t {
        Tree::Number(n) => Some(n.num()),
        Tree::Str(s) => match text_number(trimmed(s)) {
            Some(n) => Some(n),
            None => match duration_in(trimmed(s)) {
                Some(secs) => Some(product(secs, whole_int(1000))),
                None => None,
            },
        },
        _ => None,
    }
}

fn to_duration_ms(v: &Value) -> (r: Option<Num>)
    ensures
        r == duration_ms_of(v@),
{
    match v {
        Value::Number(n) => Some(n.to_num()),
        Value::Str(s) => {
            let u = trim_chars(&chars_of(s.as_str()));
            match parse_number(&u) {
                Some(n) => Some(n),
                None => match parse_duration_chars(&u) {
                    Some(secs) => Some(secs.times(Num::from_u64(1000))),
                    None => None,
                },
            }
        },
        _ => None,
    }
}

/// Epoch milliseconds from this many on are told from epoch seconds.
pub const EPOCH_MS_THRESHOLD: u64 = 100_000_000_000;

/// A time on the scale of seconds: one too large for seconds is in milliseconds.
pub open spec fn rescaled(n: Num) -> Num {
    if absolute(n).amount() >= whole_int(EPOCH_MS_THRESHOLD as int).amount() {
        ratio(n, whole_int(1000))
    } else {
        n
    }
}

fn rescale_epoch(n: Num) -> (r: Num)
    ensures
        r == rescaled(n),
{
    match n.abs().order(Num::from_u64(EPOCH_MS_THRESHOLD)) {
        Order::Less => n,
        _ => {
            proof {
                lemma_whole_exact(false, 1000);
            }
            n.over(Num::from_u64(1000))
        },
    }
}

/// A value read as epoch seconds: a timestamp as text, or a number of seconds or
/// milliseconds.
pub open spec fn epoch_of(t: Tree) -> Option<Num> {
    match t {
        Tree::Number(n) => Some(rescaled(n.num())),
        Tree::Str(s) => match rfc3339_in(trimmed(s)) {
            Some(n) => Some(n),
            None => match text_number(trimmed(s)) {
                Some(n) => Some(rescaled(n)),
                None => None,
            },
        },
        _ => None,
    }
}

fn to_epoch(v: &Value) -> (r: Option<Num>)
    ensures
        r == epoch_of(v@),
{
    match v {
        Value::Number(n) => Some(rescale_epoch(n.to_num())),
        Value::Str(s) => {
            let u = trim_string(s.as_str());
            match parse_rfc3339(u.as_str()) {
                Some(n) => Some(n),
                None => match parse_number(&chars_of(u.as_str())) {
                    Some(n) => Some(rescale_epoch(n)),
                    None => None,
                },
            }
        },
        _ => None,
    }
}

/// The order of two texts by code point, from place `i` on.
pub open spec fn text_order(a: Seq<char>, b: Seq<char>, i: int) -> Order
    decreases a.len() - i,
{
    if i < 0 || i >= a.len() || i >= b.len() {
        order_of(a.len() as int, b.len() as int)
    } else if a[i] == b[i] {
        text_order(a, b, i + 1)
    } else if b[i] > a[i] {
        Order::Less
    } else {
        Order::Greater
    }
}

fn order_texts(a: &[char], b: &[char]) -> (r: Order)
    ensures
        r == text_order(a@, b@, 0),
{
    let mut i: usize = 0;
    while i < a.len() && i < b.len()
        invariant
            i <= a@.len(),
            i <= b@.len(),
            text_order(a@, b@, 0) == text_order(a@, b@, i as int),
        decreases a.len() - i,
    {
        if a[i] != b[i] {
            return if b[i] > a[i] {
                Order::Less
            } else {
                Order::Greater
            };
        }
        i += 1;
    }
    if a.len() < b.len() {
        Order::Less
    } else if a.len() == b.len() {
        Order::Equal
    } else {
        Order::Greater
    }
}

/// Whether two numbers are the same kind and the same amount.
pub open spec fn same_number(a: Number, b: Number) -> bool {
    match (a, b) {
        (Number::PosInt(x), Number::PosInt(y)) => x == y,
        (Number::NegInt(x), Number::NegInt(y)) => x == y,
        (Number::Float(x), Number::Float(y)) => x.amount() == y.amount(),
        _ => false,
    }
}

/// Whether the first `n` values of two arrays are equal.
pub open spec fn same_items(a: Seq<Tree>, b: Seq<Tree>, n: nat) -> bool
    decreases a, n,
{
    if n == 0 || n > a.len() || n > b.len() {
        true
    } else {
        same_items(a, b, (n - 1) as nat) && same_tree(a[n - 1], b[n - 1])
    }
}

/// Whether the first `n` fields of one object stand in another with equal
/// values.
pub open spec fn same_fields(a: Fields, b: Fields, n: nat) -> bool
    decreases a, n,
{
    if n == 0 || n > a.len() {
        true
    } else {
        same_fields(a, b, (n - 1) as nat) && match field(b, a[n - 1].0) {
            Some(x) => same_tree(a[n - 1].1, x),
            None => false,
        }
    }
}

/// Whether two values are equal in structure. The order of the fields of an
/// object does not count.
pub open spec fn same_tree(a: Tree, b: Tree) -> bool
    decreases a, 0nat,
{
    match (a, b) {
        (Tree::Null, Tree::Null) => true,
        (Tree::Bool(x), Tree::Bool(y)) => x == y,
        (Tree::Number(x), Tree::Number(y)) => same_number(x, y),
        (Tree::Str(x), Tree::Str(y)) => x == y,
        (Tree::Array(x), Tree::Array(y)) => x.len() == y.len() && same_items(x, y, x.len()),
        (Tree::Object(x), Tree::Object(y)) => x.len() == y.len() && same_fields(x, y, x.len()),
        _ => false,
    }
}

fn items_equal(a: &Vec<Value>, b: &Vec<Value>) -> (r: bool)
    requires
        a@.len() == b@.len(),
    ensures
        r == same_items(trees_of(a@), trees_of(b@), a@.len()),
    decreases a, 0nat,
{
    let mut i: usize = 0;
    let mut same = true;
    while i < a.len()
        invariant
            i <= a@.len() == b@.len(),
            same == same_items(trees_of(a@), trees_of(b@), i as nat),
        decreases a.len() - i,
    {
        assert(decreases_to!(a => a@[i as int]));
        same = values_equal(&a[i], &b[i]) && same;
        i += 1;
    }
    same
}

fn entries_equal(a: &Vec<(String, Value)>, b: &Record) -> (r: bool)
    ensures
        r == same_fields(fields_of(a@), b@, a@.len()),
    decreases a, 0nat,
{
    let mut i: usize = 0;
    let mut same = true;
    while i < a.len()
        invariant
            i <= a@.len(),
            same == same_fields(fields_of(a@), b@, i as nat),
        decreases a.len() - i,
    {
        assert(decreases_to!(a => a@[i as int]));
        assert(decreases_to!(a => a@[i as int].1));
        let one = match b.get(a[i].0.as_str()) {
            Some(v) => values_equal(&a[i].1, v),
            None => false,
        };
        same = one && same;
        i += 1;
    }
    same
}

/// Whether two values are equal in structure.
pub fn values_equal(a: &Value, b: &Value) -> (r: bool)
    ensures
        r == same_tree(a@, b@),
    decreases a, 0nat,
{
    match (a, b) {
        (Value::Null, Value::Null) => true,
        (Value::Bool(x), Value::Bool(y)) => *x == *y,
        (Value::Number(x), Value::Number(y)) => match (*x, *y) {
            (Number::PosInt(m), Number::PosInt(n)) => m == n,
            (Number::NegInt(m), Number::NegInt(n)) => m == n,
            (Number::Float(m), Number::Float(n)) => match m.order(n) {
                Order::Equal => true,
                _ => false,
            },
            _ => false,
        },
        (Value::Str(x), Value::Str(y)) => crate::text::same_text(x.as_str(), y.as_str()),
        (Value::Array(x), Value::Array(y)) => {
            assert(a@->Array_0 =~= trees_of(x@));
            assert(b@->Array_0 =~= trees_of(y@));
            x.len() == y.len() && items_equal(x, y)
        },
        (Value::Object(x), Value::Object(y)) => {
            assert(a@->Object_0 =~= fields_of(x.entries@));
            assert(b@->Object_0 =~= y@);
            x.len() == y.len() && entries_equal(&x.entries, y)
        },
        _ => false,
    }
}

/// A boolean as a number.
pub open spec fn bool_num(b: bool) -> Num {
    if b {
        whole_int(1)
    } else {
        whole_int(0)
    }
}

fn num_of_bool(b: bool) -> (r: Num)
    ensures
        r == bool_num(b),
{
    if b {
        Num::from_u64(1)
    } else {
        Num::from_u64(0)
    }
}

/// A boolean as an integer, `false` first.
pub open spec fn bool_rank(b: bool) -> int {
    if b {
        1
    } else {
        0
    }
}

/// The order of two values, where they are comparable.
pub open spec fn tree_order(l: Tree, r: Tree) -> Option<Order> {
    match (l, r) {
        (Tree::Null, Tree::Null) => Some(Order::Equal),
        (Tree::Number(a), Tree::Number(b)) => Some(order_of(a.num().amount(), b.num().amount())),
        (Tree::Str(a), Tree::Str(b)) => Some(text_order(a, b, 0)),
        (Tree::Bool(a), Tree::Bool(b)) => Some(order_of(bool_rank(a), bool_rank(b))),
        (Tree::Str(s), Tree::Number(n)) => match text_number(s) {
            Some(m) => Some(order_of(m.amount(), n.num().amount())),
            None => None,
        },
        (Tree::Number(n), Tree::Str(s)) => match text_number(s) {
            Some(m) => Some(order_of(n.num().amount(), m.amount())),
            None => None,
        },
        (Tree::Bool(b), Tree::Number(n)) => Some(
            order_of(bool_num(b).amount(), n.num().amount()),
        ),
        (Tree::Number(n), Tree::Bool(b)) => Some(
            order_of(n.num().amount(), bool_num(b).amount()),
        ),
        (Tree::Bool(b), Tree::Str(s)) => match text_bool(s) {
            Some(c) => Some(order_of(bool_rank(b), bool_rank(c))),
            None => None,
        },
        (Tree::Str(s), Tree::Bool(b)) => match text_bool(s) {
            Some(c) => Some(order_of(bool_rank(c), bool_rank(b))),
            None => None,
        },
        (Tree::Array(_), Tree::Array(_)) => if same_tree(l, r) {
            Some(Order::Equal)
        } else {
            None
        },
        (Tree::Object(_), Tree::Object(_)) => if same_tree(l, r) {
            Some(Order::Equal)
        } else {
            None
        },
        _ => None,
    }
}

fn order_bools(a: bool, b: bool) -> (r: Order)
    ensures
        r == order_of(bool_rank(a), bool_rank(b)),
{
    if a == b {
        Order::Equal
    } else if b {
        Order::Less
    } else {
        Order::Greater
    }
}

/// Orders two values, where they are comparable.
pub fn order_values(l: &Value, r: &Value) -> (o: Option<Order>)
    ensures
        o == tree_order(l@, r@),
{
    match (l, r) {
        (Value::Null, Value::Null) => Some(Order::Equal),
        (Value::Number(a), Value::Number(b)) => Some(a.to_num().order(b.to_num())),
        (Value::Str(a), Value::Str(b)) => Some(
            order_texts(&chars_of(a.as_str()), &chars_of(b.as_str())),
        ),
        (Value::Bool(a), Value::Bool(b)) => Some(order_bools(*a, *b)),
        (Value::Str(s), Value::Number(n)) => match parse_number(&chars_of(s.as_str())) {
            Some(m) => Some(m.order(n.to_num())),
            None => None,
        },
        (Value::Number(n), Value::Str(s)) => match parse_number(&chars_of(s.as_str())) {
            Some(m) => Some(n.to_num().order(m)),
            None => None,
        },
        (Value::Bool(b), Value::Number(n)) => Some(num_of_bool(*b).order(n.to_num())),
        (Value::Number(n), Value::Bool(b)) => Some(n.to_num().order(num_of_bool(*b))),
        (Value::Bool(b), Value::Str(s)) => match parse_bool(&chars_of(s.as_str())) {
            Some(c) => Some(order_bools(*b, c)),
            None => None,
        },
        (Value::Str(s), Value::Bool(b)) => match parse_bool(&chars_of(s.as_str())) {
            Some(c) => Some(order_bools(c, *b)),
            None => None,
        },
        (Value::Array(_), Value::Array(_)) => if values_equal(l, r) {
            Some(Order::Equal)
        } else {
            None
        },
        (Value::Object(_), Value::Object(_)) => if values_equal(l, r) {
            Some(Order::Equal)
        } else {
            None
        },
        _ => None,
    }
}

/// An order as the standard library has it.
pub open spec fn std_order(o: Option<Order>) -> Option<Ordering> {
    match o {
        Some(Order::Less) => Some(Ordering::Less),
        Some(Order::Equal) => Some(Ordering::Equal),
        Some(Order::Greater) => Some(Ordering::Greater),
        None => None,
    }
}

/// Orders two values under the rules of coercion, or gives `None` where they
/// are incomparable.
pub fn compare_values(l: &Value, r: &Value) -> (o: Option<Ordering>)
    ensures
        o == std_order(tree_order(l@, r@)),
{
    match order_values(l, r) {
        Some(Order::Less) => Some(Ordering::Less),
        Some(Order::Equal) => Some(Ordering::Equal),
        Some(Order::Greater) => Some(Ordering::Greater),
        None => None,
    }
}

/// Whether two values of a kind have an order, beyond being equal.
pub open spec fn ordered_kind(t: Tree) -> bool {
    t is Bool || t is Number || t is Str
}

/// Whether a comparison holds.
pub open spec fn comparison_holds(op: CmpOp, left: Option<Tree>, right: Option<Tree>) -> bool {
    match (left, right) {
        (Some(l), Some(r)) => match tree_order(l, r) {
            Some(o) => match op {
                CmpOp::Eq => o == Order::Equal,
                CmpOp::Ne => o != Order::Equal,
                CmpOp::Lt => ordered_kind(l) && o == Order::Less,
                CmpOp::Le => ordered_kind(l) && o != Order::Greater,
                CmpOp::Gt => ordered_kind(l) && o == Order::Greater,
                CmpOp::Ge => ordered_kind(l) && o != Order::Less,
            },
            None => op == CmpOp::Ne,
        },
        _ => false,
    }
}

fn has_order(v: &Value) -> (r: bool)
    ensures
        r == ordered_kind(v@),
{
    match v {
        Value::Bool(_) => true,
        Value::Number(_) => true,
        Value::Str(_) => true,
        _ => false,
    }
}

/// Whether a comparison holds. With a missing operand none does.
pub fn compare(op: CmpOp, left: &Option<Value>, right: &Option<Value>) -> (r: bool)
    ensures
        r == comparison_holds(op, tree_opt(*left), tree_opt(*right)),
{
    match (left, right) {
        (Some(l), Some(r)) => match order_values(l, r) {
            Some(o) => match op {
                CmpOp::Eq => o == Order::Equal,
                CmpOp::Ne => o != Order::Equal,
                CmpOp::Lt => has_order(l) && o == Order::Less,
                CmpOp::Le => has_order(l) && o != Order::Greater,
                CmpOp::Gt => has_order(l) && o == Order::Greater,
                CmpOp::Ge => has_order(l) && o != Order::Less,
            },
            None => op == CmpOp::Ne,
        },
        _ => false,
    }
}

/// Whether a value counts as true.
pub open spec fn truth(v: Option<Tree>) -> bool {
    match v {
        None => false,
        Some(Tree::Null) => false,
        Some(Tree::Bool(b)) => b,
        Some(Tree::Number(n)) => n.num().amount() != 0,
        Some(Tree::Str(s)) => s.len() > 0,
        Some(Tree::Array(items)) => items.len() > 0,
        Some(Tree::Object(fields)) => fields.len() > 0,
    }
}

/// Whether a value counts as true.
pub fn truthy(v: &Option<Value>) -> (r: bool)
    ensures
        r == truth(tree_opt(*v)),
{
    match v {
        None => false,
        Some(Value::Null) => false,
        Some(Value::Bool(b)) => *b,
        Some(Value::Number(n)) => !n.to_num().is_zero(),
        Some(Value::Str(s)) => chars_of(s.as_str()).len() > 0,
        Some(Value::Array(items)) => items.len() > 0,
        Some(Value::Object(record)) => record.len() > 0,
    }
}

/// The argument at a place, where there is one that is not missing.
pub open spec fn arg(args: Seq<Option<Tree>>, i: int) -> Option<Tree> {
    if 0 <= i < args.len() {
        args[i]
    } else {
        None
    }
}

/// The first argument from `i` on that is there and not `null`.
pub open spec fn first_present(args: Seq<Option<Tree>>, i: int) -> Option<Tree>
    decreases args.len() - i,
{
    if i < 0 || i >= args.len() {
        None
    } else if args[i] is Some && args[i]->0 !is Null {
        args[i]
    } else {
        first_present(args, i + 1)
    }
}

/// The texts of the first `n` arguments joined, and whether there was any.
pub open spec fn joined(args: Seq<Option<Tree>>, n: nat) -> (Seq<char>, bool)
    decreases n,
{
    if n == 0 || n > args.len() {
        (Seq::empty(), false)
    } else {
        let (head, any) = joined(args, (n - 1) as nat);
        match args[n - 1] {
            Some(t) => match text_of(t) {
                Some(s) => (head + s, true),
                None => (head, any),
            },
            None => (head, any),
        }
    }
}

/// An argument read as text.
pub open spec fn arg_text(args: Seq<Option<Tree>>, i: int) -> Option<Seq<char>> {
    match arg(args, i) {
        Some(t) => text_of(t),
        None => None,
    }
}

/// An argument read as a number.
pub open spec fn arg_number(args: Seq<Option<Tree>>, i: int) -> Option<Num> {
    match arg(args, i) {
        Some(t) => number_of(t),
        None => None,
    }
}

/// Whether a text occurs in another.
pub open spec fn occurs(hay: Seq<char>, needle: Seq<char>) -> bool {
    exists|i: int| #[trigger] holds_at(hay, i, needle)
}

/// A text from `i` on, every occurrence of another, from the left, replaced.
pub open spec fn replaced_from(s: Seq<char>, i: int, from: Seq<char>, to: Seq<char>) -> Seq<char>
    decreases s.len() - i,
{
    if i < 0 || i >= s.len() || from.len() == 0 {
        Seq::empty()
    } else if holds_at(s, i, from) {
        to + replaced_from(s, i + from.len(), from, to)
    } else {
        seq![s[i]] + replaced_from(s, i + 1, from, to)
    }
}

/// Where a part of a text of `len` characters starts: counted from the end where
/// it is negative, and kept inside the text.
pub open spec fn part_start(len: nat, start: Num) -> int {
    let w = whole_part(start) as int;
    if start.neg() {
        if w > len {
            0
        } else if w == 0 {
            0
        } else {
            len - w
        }
    } else if w > len {
        len as int
    } else {
        w
    }
}

/// Where a part of a text ends that starts at `begin`.
pub open spec fn part_end(len: nat, begin: int, count: Num) -> int {
    let w = whole_part(count) as int;
    if count.amount() <= 0 {
        begin
    } else if begin + w > len {
        len as int
    } else {
        begin + w
    }
}

/// How many places a number is rounded to: a whole number from 0 to 15.
pub open spec fn places_of(n: Num) -> nat {
    let w = clamped(n);
    if w < 0 {
        0
    } else if w > 15 {
        15
    } else {
        w as nat
    }
}

/// The offset of the zone that an optional second argument names; none is UTC.
pub open spec fn zone_of(args: Seq<Option<Tree>>, local: int) -> Option<int> {
    if args.len() < 2 {
        Some(0)
    } else {
        match arg_text(args, 1) {
            Some(s) => tz_in(s, local),
            None => None,
        }
    }
}

/// How many members a value has.
pub open spec fn size_of(t: Tree) -> Option<nat> {
    match t {
        Tree::Str(s) => Some(s.len()),
        Tree::Array(items) => Some(items.len()),
        Tree::Object(fields) => Some(fields.len()),
        _ => None,
    }
}

/// A value made of a number, where there is one.
pub open spec fn number_opt(n: Option<Num>) -> Option<Tree> {
    match n {
        Some(x) => Some(number_tree(x)),
        None => None,
    }
}

/// What a function gives on a first argument that is there.
pub open spec fn applied(
    func: Func,
    first: Tree,
    args: Seq<Option<Tree>>,
    env: Env,
) -> Option<Tree> {
    match func {
        Func::Lower => match text_of(first) {
            Some(s) => Some(Tree::Str(lowercase_of(s))),
            None => None,
        },
        Func::Upper => match text_of(first) {
            Some(s) => Some(Tree::Str(uppercase_of(s))),
            None => None,
        },
        Func::Trim => match text_of(first) {
            Some(s) => Some(Tree::Str(trimmed(s))),
            None => None,
        },
        Func::Len => match size_of(first) {
            Some(n) => Some(number_tree(whole_int(n as int))),
            None => None,
        },
        Func::Num => number_opt(number_of(first)),
        Func::DurationMs => number_opt(duration_ms_of(first)),
        Func::Ts => number_opt(epoch_of(first)),
        Func::Abs => match number_of(first) {
            Some(n) => Some(number_tree(absolute(n))),
            None => None,
        },
        Func::Floor => match number_of(first) {
            Some(n) => Some(number_tree(floor_of(n))),
            None => None,
        },
        Func::Ceil => match number_of(first) {
            Some(n) => Some(number_tree(ceil_of(n))),
            None => None,
        },
        Func::Round => {
            let places = if args.len() < 2 {
                Some(0nat)
            } else {
                match arg_number(args, 1) {
                    Some(p) => Some(places_of(p)),
                    None => None,
                }
            };
            match (number_of(first), places) {
                (Some(n), Some(p)) => {
                    let scale = whole_int(pow10(p) as int);
                    Some(number_tree(ratio(round_of(product(n, scale)), scale)))
                },
                _ => None,
            }
        },
        Func::FormatTime => match (epoch_of(first), zone_of(args, env.local_offset as int)) {
            (Some(secs), Some(offset)) => Some(Tree::Str(epoch_text(secs, offset))),
            _ => None,
        },
        Func::Bucket => match (epoch_of(first), arg_number(args, 1)) {
            (Some(secs), Some(width)) => if width.amount() > 0 {
                Some(number_tree(product(floor_of(ratio(secs, width)), width)))
            } else {
                None
            },
            _ => None,
        },
        Func::Contains => match (text_of(first), arg_text(args, 1)) {
            (Some(hay), Some(needle)) => Some(Tree::Bool(occurs(hay, needle))),
            _ => None,
        },
        Func::StartsWith => match (text_of(first), arg_text(args, 1)) {
            (Some(hay), Some(needle)) => Some(Tree::Bool(holds_at(hay, 0, needle))),
            _ => None,
        },
        Func::EndsWith => match (text_of(first), arg_text(args, 1)) {
            (Some(hay), Some(needle)) => Some(
                Tree::Bool(holds_at(hay, hay.len() - needle.len(), needle)),
            ),
            _ => None,
        },
        Func::Replace => match (text_of(first), arg_text(args, 1), arg_text(args, 2)) {
            (Some(s), Some(from), Some(to)) => Some(
                Tree::Str(
                    if from.len() == 0 {
                        s
                    } else {
                        replaced_from(s, 0, from, to)
                    },
                ),
            ),
            _ => None,
        },
        Func::Substr => match (text_of(first), arg_number(args, 1)) {
            (Some(s), Some(start)) => {
                let begin = part_start(s.len(), start);
                if args.len() < 3 {
                    Some(Tree::Str(s.subrange(begin, s.len() as int)))
                } else {
                    match arg_number(args, 2) {
                        Some(count) => Some(
                            Tree::Str(s.subrange(begin, part_end(s.len(), begin, count))),
                        ),
                        None => None,
                    }
                }
            },
            _ => None,
        },
        _ => None,
    }
}

/// What a function gives on its arguments, where that is not missing.
pub open spec fn call_value(func: Func, args: Seq<Option<Tree>>, env: Env) -> Option<Tree> {
    match func {
        Func::Now => Some(number_tree(env.now)),
        Func::Coalesce => first_present(args, 0),
        Func::Concat => {
            let (text, any) = joined(args, args.len());
            if any {
                Some(Tree::Str(text))
            } else {
                None
            }
        },
        _ => match arg(args, 0) {
            Some(first) => applied(func, first, args, env),
            None => None,
        },
    }
}

/// What evaluated arguments hold.
pub open spec fn args_view(args: Seq<Option<Value>>) -> Seq<Option<Tree>> {
    Seq::new(args.len(), |i: int| tree_opt(args[i]))
}

fn text_arg(args: &Vec<Option<Value>>, i: usize) -> (r: Option<Vec<char>>)
    ensures
        match r {
            Some(s) => arg_text(args_view(args@), i as int) == Some(s@),
            None => arg_text(args_view(args@), i as int) is None,
        },
{
    if i < args.len() {
        match &args[i] {
            Some(v) => as_text(v),
            None => None,
        }
    } else {
        None
    }
}

fn number_arg(args: &Vec<Option<Value>>, i: usize) -> (r: Option<Num>)
    ensures
        r == arg_number(args_view(args@), i as int),
{
    if i < args.len() {
        match &args[i] {
            Some(v) => to_number(v),
            None => None,
        }
    } else {
        None
    }
}

/// A text as a value.
fn text_value(s: &[char]) -> (r: Value)
    ensures
        r@ == Tree::Str(s@),
{
    Value::Str(string_of(s))
}

fn text_occurs(hay: &[char], needle: &[char]) -> (r: bool)
    ensures
        r == occurs(hay@, needle@),
{
    let mut i: usize = 0;
    while i < hay.len()
        invariant
            i <= hay@.len(),
            forall|k: int| k < i ==> !#[trigger] holds_at(hay@, k, needle@),
        decreases hay.len() - i,
    {
        if stands_at(hay, i, needle) {
            return true;
        }
        i += 1;
    }
    if stands_at(hay, i, needle) {
        return true;
    }
    assert forall|k: int| !#[trigger] holds_at(hay@, k, needle@) by {}
    false
}

fn replace_all(s: &[char], from: &[char], to: &[char]) -> (r: Vec<char>)
    requires
        from@.len() > 0,
    ensures
        r@ == replaced_from(s@, 0, from@, to@),
{
    let mut out: Vec<char> = Vec::new();
    let mut i: usize = 0;
    let ghost goal = replaced_from(s@, 0, from@, to@);
    assert(out@ + goal =~= goal);
    while i < s.len()
        invariant
            i <= s@.len(),
            from@.len() > 0,
            goal == replaced_from(s@, 0, from@, to@),
            goal == out@ + replaced_from(s@, i as int, from@, to@),
        decreases s.len() - i,
    {
        let ghost before = out@;
        let ghost rest = replaced_from(s@, i as int, from@, to@);
        if stands_at(s, i, from) {
            push_part(&mut out, to, 0, to.len());
            assert(to@.subrange(0, to@.len() as int) =~= to@);
            i += from.len();
            assert(rest == to@ + replaced_from(s@, i as int, from@, to@));
        } else {
            out.push(s[i]);
            i += 1;
            assert(rest == seq![s@[i - 1]] + replaced_from(s@, i as int, from@, to@));
        }
        assert(before + rest =~= out@ + replaced_from(s@, i as int, from@, to@));
    }
    assert(out@ + replaced_from(s@, i as int, from@, to@) =~= out@);
    out
}

fn start_of_part(len: usize, start: Num) -> (r: usize)
    ensures
        r == part_start(len as nat, start),
        r <= len,
{
    let w: u64 = start.whole_magnitude();
    if start.is_neg() {
        if w > len as u64 || w == 0 {
            0
        } else {
            len - w as usize
        }
    } else if w > len as u64 {
        len
    } else {
        w as usize
    }
}

fn end_of_part(len: usize, begin: usize, count: Num) -> (r: usize)
    requires
        begin <= len,
    ensures
        r == part_end(len as nat, begin as int, count),
        begin <= r <= len,
{
    if count.is_neg() || count.is_zero() {
        return begin;
    }
    proof {
        let p = vstd::arithmetic::power2::pow2(count.shift());
        assert(count.magnitude() > 0);
    }
    let w: u64 = count.whole_magnitude();
    if w > (len - begin) as u64 {
        len
    } else {
        begin + w as usize
    }
}

fn places(n: Num) -> (r: u32)
    ensures
        r == places_of(n),
        r <= 15,
{
    let w: i64 = n.to_i64();
    if w < 0 {
        0
    } else if w > 15 {
        15
    } else {
        w as u32
    }
}

fn ten_to(p: u32) -> (r: u64)
    requires
        p <= 15,
    ensures
        r == pow10(p as nat),
        0 < r <= 1_000_000_000_000_000,
{
    let mut r: u64 = 1;
    let mut i: u32 = 0;
    proof {
        reveal_with_fuel(pow10, 16);
    }
    while i < p
        invariant
            i <= p <= 15,
            r == pow10(i as nat),
            0 < r,
            i <= 15 && r <= 1_000_000_000_000_000,
            r * pow10((15 - i) as nat) == 1_000_000_000_000_000,
        decreases p - i,
    {
        proof {
            let rest = pow10((14 - i) as nat);
            crate::decimal::lemma_pow10_bound((14 - i) as nat);
            assert(pow10((15 - i) as nat) == 10 * rest);
            assert(r * (10 * rest) == (r * 10) * rest) by (nonlinear_arith);
            assert(r * 10 <= 1_000_000_000_000_000) by (nonlinear_arith)
                requires
                    (r * 10) * rest == 1_000_000_000_000_000,
                    rest >= 1,
                    r > 0,
            ;
        }
        r = r * 10;
        i += 1;
    }
    r
}

fn round_to(first: &Value, args: &Vec<Option<Value>>) -> (r: Option<Value>)
    ensures
        forall|env: Env|
            tree_opt(r) == #[trigger] applied(Func::Round, first@, args_view(args@), env),
{
    let p: u32 = if args.len() < 2 {
        0
    } else {
        match number_arg(args, 1) {
            Some(n) => places(n),
            None => {
                return None;
            },
        }
    };
    match to_number(first) {
        Some(n) => {
            let ten: u64 = ten_to(p);
            proof {
                lemma_whole_exact(false, ten as nat);
            }
            let scale = Num::from_u64(ten);
            Some(number(n.times(scale).round().over(scale)))
        },
        None => None,
    }
}

fn format_time(first: &Value, args: &Vec<Option<Value>>, env: Env) -> (r: Option<Value>)
    ensures
        tree_opt(r) == applied(Func::FormatTime, first@, args_view(args@), env),
{
    let offset: i32 = if args.len() < 2 {
        0
    } else {
        match text_arg(args, 1) {
            Some(s) => match parse_tz(string_of(&s).as_str(), env.local_offset) {
                Some(n) => n,
                None => {
                    return None;
                },
            },
            None => {
                return None;
            },
        }
    };
    match to_epoch(first) {
        Some(secs) => Some(Value::Str(format_epoch(secs, offset))),
        None => None,
    }
}

fn bucket(first: &Value, args: &Vec<Option<Value>>) -> (r: Option<Value>)
    ensures
        forall|env: Env|
            tree_opt(r) == #[trigger] applied(Func::Bucket, first@, args_view(args@), env),
{
    match (to_epoch(first), number_arg(args, 1)) {
        (Some(secs), Some(width)) => {
            if width.is_neg() || width.is_zero() {
                return None;
            }
            Some(number(secs.over(width).floor().times(width)))
        },
        _ => None,
    }
}

fn search(func: Func, first: &Value, args: &Vec<Option<Value>>) -> (r: Option<Value>)
    requires
        func == Func::Contains || func == Func::StartsWith || func == Func::EndsWith,
    ensures
        forall|env: Env| tree_opt(r) == #[trigger] applied(func, first@, args_view(args@), env),
{
    match (as_text(first), text_arg(args, 1)) {
        (Some(hay), Some(needle)) => Some(
            Value::Bool(
                match func {
                    Func::Contains => text_occurs(&hay, &needle),
                    Func::StartsWith => stands_at(&hay, 0, &needle),
                    _ => hay.len() >= needle.len() && stands_at(
                        &hay,
                        hay.len() - needle.len(),
                        &needle,
                    ),
                },
            ),
        ),
        _ => None,
    }
}

fn replace(first: &Value, args: &Vec<Option<Value>>) -> (r: Option<Value>)
    ensures
        forall|env: Env|
            tree_opt(r) == #[trigger] applied(Func::Replace, first@, args_view(args@), env),
{
    match (as_text(first), text_arg(args, 1), text_arg(args, 2)) {
        (Some(s), Some(from), Some(to)) => if from.len() == 0 {
            Some(text_value(&s))
        } else {
            Some(text_value(&replace_all(&s, &from, &to)))
        },
        _ => None,
    }
}

fn substr(first: &Value, args: &Vec<Option<Value>>) -> (r: Option<Value>)
    ensures
        forall|env: Env|
            tree_opt(r) == #[trigger] applied(Func::Substr, first@, args_view(args@), env),
{
    match (as_text(first), number_arg(args, 1)) {
        (Some(s), Some(start)) => {
            let begin: usize = start_of_part(s.len(), start);
            if args.len() < 3 {
                return Some(Value::Str(string_between(&s, begin, s.len())));
            }
            match number_arg(args, 2) {
                Some(count) => {
                    let end: usize = end_of_part(s.len(), begin, count);
                    Some(Value::Str(string_between(&s, begin, end)))
                },
                None => None,
            }
        },
        _ => None,
    }
}

fn number_result(n: Option<Num>) -> (r: Option<Value>)
    ensures
        tree_opt(r) == number_opt(n),
{
    match n {
        Some(x) => Some(number(x)),
        None => None,
    }
}

fn length(v: &Value) -> (r: Option<Value>)
    ensures
        tree_opt(r) == (match size_of(v@) {
            Some(n) => Some(number_tree(whole_int(n as int))),
            None => None,
        }),
{
    let n: usize = match v {
        Value::Str(s) => chars_of(s.as_str()).len(),
        Value::Array(items) => items.len(),
        Value::Object(record) => record.len(),
        _ => {
            return None;
        },
    };
    Some(number(Num::from_u64(n as u64)))
}

fn first_not_null(args: Vec<Option<Value>>) -> (r: Option<Value>)
    ensures
        tree_opt(r) == first_present(args_view(args@), 0),
{
    let mut i: usize = 0;
    while i < args.len()
        invariant
            i <= args@.len(),
            first_present(args_view(args@), 0) == first_present(args_view(args@), i as int),
        decreases args.len() - i,
    {
        match &args[i] {
            Some(Value::Null) => {},
            Some(v) => {
                return Some(v.copy());
            },
            None => {},
        }
        i += 1;
    }
    None
}

fn concat(args: &Vec<Option<Value>>) -> (r: Option<Value>)
    ensures
        tree_opt(r) == (if joined(args_view(args@), args@.len()).1 {
            Some(Tree::Str(joined(args_view(args@), args@.len()).0))
        } else {
            None
        }),
{
    let mut out: Vec<char> = Vec::new();
    let mut any = false;
    let mut i: usize = 0;
    assert(out@ =~= Seq::<char>::empty());
    while i < args.len()
        invariant
            i <= args@.len(),
            (out@, any) == joined(args_view(args@), i as nat),
        decreases args.len() - i,
    {
        match &args[i] {
            Some(v) => match as_text(v) {
                Some(s) => {
                    push_part(&mut out, &s, 0, s.len());
                    assert(s@.subrange(0, s@.len() as int) =~= s@);
                    any = true;
                },
                None => {},
            },
            None => {},
        }
        i += 1;
    }
    if any {
        Some(text_value(&out))
    } else {
        None
    }
}

/// Applies a function to its evaluated arguments. A missing first argument is a
/// missing result, but for `now`, `coalesce` and `concat`.
pub fn call(func: Func, args: Vec<Option<Value>>, env: Env) -> (r: Option<Value>)
    ensures
        tree_opt(r) == call_value(func, args_view(args@), env),
{
    match func {
        Func::Now => {
            return Some(number(env.now));
        },
        Func::Coalesce => {
            return first_not_null(args);
        },
        Func::Concat => {
            return concat(&args);
        },
        _ => {},
    }
    if args.len() == 0 {
        return None;
    }
    let first = match &args[0] {
        Some(v) => v,
        None => {
            return None;
        },
    };
    match func {
        Func::Lower => match as_text(first) {
            Some(s) => Some(Value::Str(string_of(&s).to_lowercase())),
            None => None,
        },
        Func::Upper => match as_text(first) {
            Some(s) => Some(Value::Str(string_of(&s).to_uppercase())),
            None => None,
        },
        Func::Trim => match as_text(first) {
            Some(s) => Some(text_value(&trim_chars(&s))),
            None => None,
        },
        Func::Len => length(first),
        Func::Num => number_result(to_number(first)),
        Func::DurationMs => number_result(to_duration_ms(first)),
        Func::Ts => number_result(to_epoch(first)),
        Func::Abs => match to_number(first) {
            Some(n) => Some(number(n.abs())),
            None => None,
        },
        Func::Floor => match to_number(first) {
            Some(n) => Some(number(n.floor())),
            None => None,
        },
        Func::Ceil => match to_number(first) {
            Some(n) => Some(number(n.ceil())),
            None => None,
        },
        Func::Round => round_to(first, &args),
        Func::FormatTime => format_time(first, &args, env),
        Func::Bucket => bucket(first, &args),
        Func::Contains | Func::StartsWith | Func::EndsWith => search(func, first, &args),
        Func::Replace => replace(first, &args),
        Func::Substr => substr(first, &args),
        Func::Now | Func::Coalesce | Func::Concat => None,
    }
}

/// The value of a literal.
pub open spec fn literal_tree(l: LiteralView) -> Tree {
    match l {
        LiteralView::Str(s) => Tree::Str(s),
        LiteralView::Num(n) => number_tree(n),
        LiteralView::Duration(n) => number_tree(n),
        LiteralView::Bool(b) => Tree::Bool(b),
        LiteralView::Null => Tree::Null,
    }
}

fn literal_value(l: &Literal) -> (r: Value)
    ensures
        r@ == literal_tree(l@),
{
    match l {
        Literal::Str(s) => Value::Str(s.clone()),
        Literal::Num(n) => number(*n),
        Literal::Duration(n) => number(*n),
        Literal::Bool(b) => Value::Bool(*b),
        Literal::Null => Value::Null,
    }
}

/// The sum or difference of two values read as numbers.
pub open spec fn arith_value(op: ArithOp, left: Option<Tree>, right: Option<Tree>) -> Option<Tree> {
    match (left, right) {
        (Some(l), Some(r)) => match (number_of(l), number_of(r)) {
            (Some(a), Some(b)) => Some(
                number_tree(
                    match op {
                        ArithOp::Add => sum(a, b),
                        ArithOp::Sub => difference(a, b),
                    },
                ),
            ),
            _ => None,
        },
        _ => None,
    }
}

/// Adds or subtracts two values read as numbers.
pub fn arith(op: ArithOp, left: &Option<Value>, right: &Option<Value>) -> (r: Option<Value>)
    ensures
        tree_opt(r) == arith_value(op, tree_opt(*left), tree_opt(*right)),
{
    match (left, right) {
        (Some(l), Some(r)) => match (to_number(l), to_number(r)) {
            (Some(a), Some(b)) => Some(
                number(
                    match op {
                        ArithOp::Add => a.plus(b),
                        ArithOp::Sub => a.minus(b),
                    },
                ),
            ),
            _ => None,
        },
        _ => None,
    }
}

/// The values of the first `n` arguments.
pub open spec fn values_of(
    args: Seq<ValueExprView>,
    n: nat,
    record: Fields,
    env: Env,
) -> Seq<Option<Tree>>
    decreases args, n,
{
    if n == 0 || n > args.len() {
        Seq::empty()
    } else {
        values_of(args, (n - 1) as nat, record, env).push(value_of(args[n - 1], record, env))
    }
}

/// The value of an expression on a record, where it is not missing. An aggregate
/// is the field of a folded record under the aggregate's own text.
pub open spec fn value_of(e: ValueExprView, record: Fields, env: Env) -> Option<Tree>
    decreases e, 0nat,
{
    match e {
        ValueExprView::Field(path) => found_at(record, path.segments),
        ValueExprView::Lit(l) => Some(literal_tree(l)),
        ValueExprView::Call { func, args } => call_value(
            func,
            values_of(args, args.len(), record, env),
            env,
        ),
        ValueExprView::Arith { op, left, right } => arith_value(
            op,
            value_of(*left, record, env),
            value_of(*right, record, env),
        ),
        ValueExprView::Agg { agg, arg } => field(record, expr_text(e)),
    }
}

fn eval_args(args: &Vec<ValueExpr>, record: &Record, env: Env) -> (r: Vec<Option<Value>>)
    ensures
        args_view(r@) == values_of(exprs_view(args@), args@.len(), record@, env),
    decreases args, 0nat,
{
    let mut out: Vec<Option<Value>> = Vec::new();
    let mut i: usize = 0;
    let ghost all = exprs_view(args@);
    assert(args_view(out@) =~= values_of(all, 0, record@, env));
    while i < args.len()
        invariant
            i <= args@.len(),
            all == exprs_view(args@),
            args_view(out@) == values_of(all, i as nat, record@, env),
        decreases args.len() - i,
    {
        assert(decreases_to!(args => args@[i as int]));
        let v = eval_value(&args[i], record, env);
        let ghost before = args_view(out@);
        out.push(v);
        i += 1;
        assert(args_view(out@) =~= before.push(tree_opt(v)));
    }
    out
}

/// Evaluates a value expression against a record. `None` is a missing value.
pub fn eval_value(expr: &ValueExpr, record: &Record, env: Env) -> (r: Option<Value>)
    ensures
        tree_opt(r) == value_of(expr@, record@, env),
    decreases expr, 0nat,
{
    match expr {
        ValueExpr::Field(path) => match lookup(record, &path.segments) {
            Some(v) => Some(v.copy()),
            None => None,
        },
        ValueExpr::Lit(l) => Some(literal_value(l)),
        ValueExpr::Call { func, args } => {
            proof {
                lemma_call_view(*func, *args);
            }
            let values = eval_args(args, record, env);
            call(*func, values, env)
        },
        ValueExpr::Arith { op, left, right } => {
            let l = eval_value(left, record, env);
            let r = eval_value(right, record, env);
            arith(*op, &l, &r)
        },
        ValueExpr::Agg { .. } => match record.get(expr.to_string().as_str()) {
            Some(v) => Some(v.copy()),
            None => None,
        },
    }
}

/// Whether a text matches a pattern, both read as text. A side that is missing
/// or has no text makes the condition false, negated or not.
pub open spec fn match_holds(left: Option<Tree>, pattern: Option<Tree>, negated: bool) -> bool {
    match (left, pattern) {
        (Some(l), Some(p)) => match (text_of(l), text_of(p)) {
            (Some(s), Some(q)) => like(s, q) != negated,
            _ => false,
        },
        _ => false,
    }
}

fn matches_pattern(left: &Option<Value>, pattern: &Option<Value>, negated: bool) -> (r: bool)
    ensures
        r == match_holds(tree_opt(*left), tree_opt(*pattern), negated),
{
    match (left, pattern) {
        (Some(l), Some(p)) => match (as_text(l), as_text(p)) {
            (Some(s), Some(q)) => like_match(string_of(&s).as_str(), string_of(&q).as_str())
                != negated,
            _ => false,
        },
        _ => false,
    }
}

/// Whether a condition holds of a record.
pub open spec fn holds(e: ExprView, record: Fields, env: Env) -> bool
    decreases e,
{
    match e {
        ExprView::Or(a, b) => holds(*a, record, env) || holds(*b, record, env),
        ExprView::And(a, b) => holds(*a, record, env) && holds(*b, record, env),
        ExprView::Not(a) => !holds(*a, record, env),
        ExprView::Compare { op, left, right } => comparison_holds(
            op,
            value_of(left, record, env),
            value_of(right, record, env),
        ),
        ExprView::Like { left, pattern, negated } => match_holds(
            value_of(left, record, env),
            value_of(pattern, record, env),
            negated,
        ),
        ExprView::Truthy(v) => truth(value_of(v, record, env)),
    }
}

/// Evaluates a condition against a record.
pub fn eval(expr: &Expr, record: &Record, env: Env) -> (r: bool)
    ensures
        r == holds(expr@, record@, env),
    decreases expr,
{
    match expr {
        Expr::Or(a, b) => eval(a, record, env) || eval(b, record, env),
        Expr::And(a, b) => eval(a, record, env) && eval(b, record, env),
        Expr::Not(a) => !eval(a, record, env),
        Expr::Compare { op, left, right } => {
            let l = eval_value(left, record, env);
            let r = eval_value(right, record, env);
            compare(*op, &l, &r)
        },
        Expr::Like { left, pattern, negated } => {
            let l = eval_value(left, record, env);
            let p = eval_value(pattern, record, env);
            matches_pattern(&l, &p, *negated)
        },
        Expr::Truthy(v) => truthy(&eval_value(v, record, env)),
    }
}

/// A comparison with a missing operand is false, whatever the operator.
pub proof fn law_comparison_with_missing_is_false(op: CmpOp, v: Option<Tree>)
    ensures
        !comparison_holds(op, None, v),
        !comparison_holds(op, v, None),
{
}

/// A match with a missing operand is false, negated or not.
pub proof fn law_match_with_missing_is_false(v: Option<Tree>, negated: bool)
    ensures
        !match_holds(None, v, negated),
        !match_holds(v, None, negated),
{
}

/// Of an incomparable pair only `!=` holds.
pub proof fn law_incomparable_is_only_unequal(op: CmpOp, l: Tree, r: Tree)
    requires
        tree_order(l, r) is None,
    ensures
        comparison_holds(op, Some(l), Some(r)) == (op == CmpOp::Ne),
{
}

/// Of values that are there, `!=` holds exactly where `=` does not.
pub proof fn law_unequal_is_not_equal(l: Tree, r: Tree)
    ensures
        comparison_holds(CmpOp::Ne, Some(l), Some(r)) == !comparison_holds(
            CmpOp::Eq,
            Some(l),
            Some(r),
        ),
{
}

/// Null, arrays and objects have no order: no ordering operator holds of them.
pub proof fn law_composites_have_no_order(op: CmpOp, l: Tree, r: Tree)
    requires
        !ordered_kind(l) || !ordered_kind(r),
        op != CmpOp::Eq,
        op != CmpOp::Ne,
    ensures
        !comparison_holds(op, Some(l), Some(r)),
{
}

/// A function of a missing value is missing, whichever of its arguments that is,
/// but for the functions that pick from their arguments.
pub proof fn law_function_of_missing_is_missing(
    func: Func,
    args: Seq<Option<Tree>>,
    i: int,
    env: Env,
)
    requires
        func != Func::Coalesce,
        func != Func::Concat,
        func_arity(func).1 matches Some(most) ==> args.len() <= most,
        0 <= i < args.len(),
        args[i] is None,
    ensures
        call_value(func, args, env) is None,
{
}

/// Picking from missing values alone gives a missing value.
pub proof fn law_picking_from_nothing_is_missing(args: Seq<Option<Tree>>, env: Env)
    requires
        forall|i: int| 0 <= i < args.len() ==> (#[trigger] args[i]) is None,
    ensures
        call_value(Func::Coalesce, args, env) is None,
        call_value(Func::Concat, args, env) is None,
{
    lemma_none_present(args, 0);
    lemma_none_joined(args, args.len());
}

proof fn lemma_none_present(args: Seq<Option<Tree>>, i: int)
    requires
        forall|j: int| 0 <= j < args.len() ==> (#[trigger] args[j]) is None,
    ensures
        first_present(args, i) is None,
    decreases args.len() - i,
{
    if 0 <= i < args.len() {
        lemma_none_present(args, i + 1);
    }
}

proof fn lemma_none_joined(args: Seq<Option<Tree>>, n: nat)
    requires
        forall|j: int| 0 <= j < args.len() ==> (#[trigger] args[j]) is None,
    ensures
        !joined(args, n).1,
    decreases n,
{
    if 0 < n <= args.len() {
        lemma_none_joined(args, (n - 1) as nat);
    }
}

/// Two strings compare as texts, whatever they look like: neither is read as a
/// number.
pub proof fn law_strings_compare_as_texts(a: Seq<char>, b: Seq<char>)
    ensures
        tree_order(Tree::Str(a), Tree::Str(b)) == Some(text_order(a, b, 0)),
        comparison_holds(CmpOp::Eq, Some(Tree::Str(a)), Some(Tree::Str(b))) == (a == b),
{
    lemma_text_order_equal(a, b, 0);
}

proof fn lemma_text_order_equal(a: Seq<char>, b: Seq<char>, i: int)
    requires
        0 <= i <= a.len(),
        i <= b.len(),
        forall|j: int| 0 <= j < i ==> a[j] == b[j],
    ensures
        text_order(a, b, i) == Order::Equal <==> a == b,
    decreases a.len() - i,
{
    if i < a.len() && i < b.len() {
        if a[i] == b[i] {
            lemma_text_order_equal(a, b, i + 1);
        }
    } else if a.len() == b.len() {
        assert(a =~= b);
    }
}

/// What a text reads as is a finite number, and a text without a digit, such as
/// the words for infinities and NaN, reads as none.
pub proof fn law_words_are_no_numbers(s: Seq<char>)
    ensures
        text_number(s) matches Some(n) ==> n.finite(),
        (forall|i: int| 0 <= i < s.len() ==> !digit(#[trigger] s[i])) ==> text_number(s) is None,
{
    let t = trimmed(s);
    if forall|i: int| 0 <= i < s.len() ==> !digit(#[trigger] s[i]) {
        let from = lemma_trimmed_part(s);
        assert forall|i: int| 0 <= i < t.len() implies !digit(#[trigger] t[i]) by {
            assert(t[i] == s[from + i]);
        }
    }
}

/// A zone that is not recognised makes a rendered time missing.
pub proof fn law_an_unknown_zone_is_missing(time: Tree, zone: Seq<char>, env: Env)
    requires
        tz_in(zone, env.local_offset as int) is None,
    ensures
        call_value(Func::FormatTime, seq![Some(time), Some(Tree::Str(zone))], env) is None,
{
    let args = seq![Some(time), Some(Tree::Str(zone))];
    assert(arg_text(args, 1) == Some(zone));
}

/// A sum with a missing side is missing.
pub proof fn law_sum_with_missing_is_missing(op: ArithOp, v: Option<Tree>)
    ensures
        arith_value(op, None, v) is None,
        arith_value(op, v, None) is None,
{
}

/// A presence test is the opposite of its negation.
pub proof fn law_not_negates(e: ExprView, record: Fields, env: Env)
    ensures
        holds(ExprView::Not(Box::new(e)), record, env) == !holds(e, record, env),
{
}

/// An order read from the other side.
pub open spec fn turned(o: Order) -> Order {
    match o {
        Order::Less => Order::Greater,
        Order::Equal => Order::Equal,
        Order::Greater => Order::Less,
    }
}

proof fn lemma_text_order_turns(a: Seq<char>, b: Seq<char>, i: int)
    ensures
        text_order(b, a, i) == turned(text_order(a, b, i)),
    decreases a.len() - i,
{
    if 0 <= i < a.len() && i < b.len() && a[i] == b[i] {
        lemma_text_order_turns(a, b, i + 1);
    }
}

pub proof fn lemma_item_same(a: Seq<Tree>, b: Seq<Tree>, n: nat, i: int)
    requires
        n <= a.len(),
        n <= b.len(),
        0 <= i < n,
        same_items(a, b, n),
    ensures
        same_tree(a[i], b[i]),
    decreases n,
{
    if i < n - 1 {
        lemma_item_same(a, b, (n - 1) as nat, i);
    }
}

pub proof fn lemma_items_same(a: Seq<Tree>, b: Seq<Tree>, n: nat)
    requires
        n <= a.len(),
        n <= b.len(),
        forall|i: int| 0 <= i < n ==> same_tree(#[trigger] a[i], b[i]),
    ensures
        same_items(a, b, n),
    decreases n,
{
    if n > 0 {
        lemma_items_same(a, b, (n - 1) as nat);
        assert(same_tree(a[n - 1], b[n - 1]));
    }
}

/// Whether a field stands in an object with an equal value.
pub open spec fn has_same(b: Fields, one: (Seq<char>, Tree)) -> bool {
    match field(b, one.0) {
        Some(x) => same_tree(one.1, x),
        None => false,
    }
}

pub proof fn lemma_field_same(a: Fields, b: Fields, n: nat, i: int)
    requires
        n <= a.len(),
        0 <= i < n,
        same_fields(a, b, n),
    ensures
        has_same(b, a[i]),
    decreases n,
{
    if i < n - 1 {
        lemma_field_same(a, b, (n - 1) as nat, i);
    }
}

pub proof fn lemma_fields_same(a: Fields, b: Fields, n: nat)
    requires
        n <= a.len(),
        forall|i: int| 0 <= i < n ==> has_same(b, #[trigger] a[i]),
    ensures
        same_fields(a, b, n),
    decreases n,
{
    if n > 0 {
        lemma_fields_same(a, b, (n - 1) as nat);
        assert(has_same(b, a[n - 1]));
    }
}

/// The names of an object.
spec fn names_of(fields: Fields) -> Seq<Seq<char>> {
    Seq::new(fields.len(), |i: int| fields[i].0)
}

/// Of two objects with as many fields, where one has all the names of the other
/// the other has all of its.
proof fn lemma_names_turn(a: Fields, b: Fields, j: int) -> (i: int)
    requires
        distinct_names(a),
        distinct_names(b),
        a.len() == b.len(),
        forall|k: int| 0 <= k < a.len() ==> field(b, (#[trigger] a[k]).0) is Some,
        0 <= j < b.len(),
    ensures
        0 <= i < a.len(),
        a[i].0 == b[j].0,
{
    let x = names_of(a);
    let y = names_of(b);
    assert(x.no_duplicates());
    assert(y.no_duplicates());
    x.unique_seq_to_set();
    y.unique_seq_to_set();
    vstd::seq_lib::seq_to_set_is_finite(x);
    vstd::seq_lib::seq_to_set_is_finite(y);
    assert forall|name: Seq<char>| x.to_set().contains(name) implies y.to_set().contains(name) by {
        let k = choose|k: int| 0 <= k < x.len() && x[k] == name;
        assert(field(b, a[k].0) is Some);
        let at = lemma_field_stands(b, name);
        assert(y[at] == name);
    }
    vstd::set_lib::lemma_subset_equality(x.to_set(), y.to_set());
    assert(y.to_set().contains(y[j]));
    assert(x.to_set().contains(y[j]));
    choose|i: int| 0 <= i < x.len() && x[i] == y[j]
}

/// Equality of values is the same from either side.
proof fn lemma_same_turns(a: Tree, b: Tree)
    requires
        sound(a),
        sound(b),
        same_tree(a, b),
    ensures
        same_tree(b, a),
    decreases a,
{
    match (a, b) {
        (Tree::Array(x), Tree::Array(y)) => {
            assert forall|i: int| 0 <= i < y.len() implies same_tree(#[trigger] y[i], x[i]) by {
                lemma_item_same(x, y, x.len(), i);
                assert(sound(x[i]) && sound(y[i]));
                lemma_same_turns(x[i], y[i]);
            }
            lemma_items_same(y, x, y.len());
        },
        (Tree::Object(x), Tree::Object(y)) => {
            assert forall|k: int| 0 <= k < x.len() implies field(
                y,
                (#[trigger] x[k]).0,
            ) is Some by {
                lemma_field_same(x, y, x.len(), k);
            }
            assert forall|j: int| 0 <= j < y.len() implies has_same(x, #[trigger] y[j]) by {
                let i = lemma_names_turn(x, y, j);
                lemma_field_same(x, y, x.len(), i);
                lemma_field_found(y, j);
                lemma_field_found(x, i);
                assert(sound(x[i].1) && sound(y[j].1));
                lemma_same_turns(x[i].1, y[j].1);
            }
            lemma_fields_same(y, x, y.len());
        },
        _ => {},
    }
}

/// Two values compare from either side alike.
pub proof fn law_comparison_turns(l: Tree, r: Tree)
    requires
        sound(l),
        sound(r),
    ensures
        match tree_order(l, r) {
            Some(o) => tree_order(r, l) == Some(turned(o)),
            None => tree_order(r, l) is None,
        },
{
    match (l, r) {
        (Tree::Str(a), Tree::Str(b)) => {
            lemma_text_order_turns(a, b, 0);
        },
        _ => {
            if same_tree(l, r) {
                lemma_same_turns(l, r);
            }
            if same_tree(r, l) {
                lemma_same_turns(r, l);
            }
        },
    }
}

/// Where `bucket` has the window of a time start.
pub open spec fn window_of(time: Tree, width: Tree, env: Env) -> Option<Tree> {
    call_value(Func::Bucket, seq![Some(time), Some(width)], env)
}

/// A time window starts at a multiple of its width, the last one that is not
/// behind the time, whether or not the time has a fraction of a second: the
/// windows of a width are the same for every record, cut at multiples of the width
/// since the epoch. Only a time so close before the epoch that its quotient by the
/// width is a negative zero has its window start there.
#[verifier::rlimit(30)]
pub proof fn law_windows_start_at_multiples_of_their_width(
    time: Tree,
    width: Tree,
    x: Num,
    w: int,
    env: Env,
)
    requires
        epoch_of(time) == Some(x),
        x.finite(),
        x.magnitude() < 2 * HIDDEN * one(),
        number_of(width) == Some(whole_int(w)),
        0 < w < 2 * HIDDEN,
    ensures
        !(x.neg() && ratio(x, whole_int(w)).amount() == 0) ==> ({
            let k = x.amount() / (w * one());
            &&& window_of(time, width, env) == Some(number_tree(whole_int(k * w)))
            &&& (k * w) * one() <= x.amount() < (k * w + w) * one()
        }),
        x.neg() && ratio(x, whole_int(w)).amount() == 0 ==> window_of(time, width, env) == Some(
            number_tree(negated(whole_int(0))),
        ),
{
    lemma_rounded_down(x, w);
    lemma_whole_parts(w);
    lemma_negative_zero();
    vstd::arithmetic::power2::lemma_pow2_pos(1074);
    let d = w * one();
    assert(d > 0) by (nonlinear_arith)
        requires
            w > 0,
            one() > 0,
            d == w * one(),
    ;
    let k = x.amount() / d;
    vstd::arithmetic::div_mod::lemma_fundamental_div_mod(x.amount(), d);
    assert((k * w) * one() == d * k && (k * w + w) * one() == d * k + d) by (nonlinear_arith)
        requires
            d == w * one(),
    ;
    let args = seq![Some(time), Some(width)];
    assert(arg(args, 0) == Some(time));
    assert(arg(args, 1) == Some(width));
}

/// A time of whole seconds is in the window that the whole numbers give.
pub proof fn law_windows_of_whole_seconds(time: Tree, width: Tree, n: int, w: int, env: Env)
    requires
        epoch_of(time) == Some(whole_int(n)),
        number_of(width) == Some(whole_int(w)),
        -(2 * HIDDEN) < n < 2 * HIDDEN,
        0 < w < 2 * HIDDEN,
    ensures
        window_of(time, width, env) == Some(number_tree(whole_int(n / w * w))),
        n / w * w <= n < n / w * w + w,
{
    let x = whole_int(n);
    let u = one();
    let size: int = if n < 0 {
        -n
    } else {
        n
    };
    lemma_whole_parts(n);
    lemma_whole_exact(n < 0, size as nat);
    vstd::arithmetic::power2::lemma_pow2_pos(1074);
    assert(size * u < 2 * HIDDEN * u) by (nonlinear_arith)
        requires
            size < 2 * HIDDEN,
            u > 0,
    ;
    if n < 0 {
        assert(size * u >= u) by (nonlinear_arith)
            requires
                size >= 1,
                u > 0,
        ;
    }
    lemma_rounded_down(x, w);
    law_windows_start_at_multiples_of_their_width(time, width, x, w, env);
    vstd::arithmetic::div_mod::lemma_fundamental_div_mod(n, w);
    let q = n / w;
    let r = n % w;
    assert(n * u == (w * u) * q + r * u && 0 <= r * u < w * u) by (nonlinear_arith)
        requires
            n == w * q + r,
            0 <= r < w,
            u > 0,
    ;
    vstd::arithmetic::div_mod::lemma_fundamental_div_mod_converse(n * u, w * u, q, r * u);
    assert(q * w == w * q) by (nonlinear_arith);
}

/// The window of any time and any width, also one of a fraction of a second,
/// starts at a whole number of widths from the epoch, as near as numbers come to
/// that.
pub proof fn law_windows_are_counted_in_widths(
    time: Tree,
    width: Tree,
    x: Num,
    y: Num,
    env: Env,
)
    requires
        epoch_of(time) == Some(x),
        number_of(width) == Some(y),
        y.amount() > 0,
        ratio(x, y).finite(),
    ensures
        exists|neg: bool, n: nat|
            window_of(time, width, env) == Some(number_tree(product(#[trigger] whole(neg, n), y))),
{
    let args = seq![Some(time), Some(width)];
    assert(arg(args, 0) == Some(time));
    assert(arg(args, 1) == Some(width));
    let q = ratio(x, y);
    let n: nat = if q.neg() && rest_part(q) > 0 {
        whole_part(q) + 1
    } else {
        whole_part(q)
    };
    assert(floor_of(q) == whole(q.neg(), n));
}

} // verus!
