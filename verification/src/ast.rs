//! Abstract syntax tree of the query language.

use crate::big::Order;
use crate::decimal::{plain_text, push_plain};
use crate::json::{bool_text, push_bool, push_text};
use crate::num::Num;
use crate::text::{chars_of, lower_chars, lower_text, same_text, string_of};
use crate::timeutil::is_word;
use vstd::prelude::*;

verus! {

/// A dotted field path: `user.id` is `user` and then `id`.
#[derive(Debug, PartialEq, Eq)]
pub struct Path {
    /// The path as written, which heads its column.
    pub raw: String,
    pub segments: Vec<String>,
}

/// What a path holds.
#[verifier::ext_equal]
pub struct PathView {
    pub raw: Seq<char>,
    pub segments: Seq<Seq<char>>,
}

/// The characters of each of a row of strings.
pub open spec fn texts(v: Seq<String>) -> Seq<Seq<char>> {
    Seq::new(v.len(), |i: int| v[i]@)
}

impl View for Path {
    type V = PathView;

    open spec fn view(&self) -> PathView {
        PathView { raw: self.raw@, segments: texts(self.segments@) }
    }
}

/// The parts of a text between its dots.
pub open spec fn dotted(s: Seq<char>) -> Seq<Seq<char>>
    decreases s.len(),
{
    if s.len() == 0 {
        seq![Seq::<char>::empty()]
    } else {
        let parts = dotted(s.drop_last());
        if s.last() == '.' {
            parts.push(Seq::empty())
        } else {
            parts.drop_last().push(parts.last().push(s.last()))
        }
    }
}

/// The path that a text writes.
pub open spec fn path_of(raw: Seq<char>) -> PathView {
    PathView { raw, segments: dotted(raw) }
}

impl Path {
    pub fn new(raw: &str) -> (r: Path)
        ensures
            r@ == path_of(raw@),
    {
        let chars = chars_of(raw);
        let mut segments: Vec<String> = Vec::new();
        let mut part: Vec<char> = Vec::new();
        let mut i: usize = 0;
        assert(chars@.take(0) =~= Seq::<char>::empty());
        assert(dotted(chars@.take(0)) =~= texts(segments@).push(part@));
        while i < chars.len()
            invariant
                i <= chars@.len(),
                dotted(chars@.take(i as int)) == texts(segments@).push(part@),
            decreases chars.len() - i,
        {
            let c = chars[i];
            let ghost before = texts(segments@);
            let ghost was = part@;
            proof {
                let now = chars@.take(i + 1);
                assert(now.drop_last() =~= chars@.take(i as int));
                assert(now.last() == c);
                assert(before.push(was).drop_last() =~= before);
            }
            if c == '.' {
                segments.push(string_of(&part));
                part = Vec::new();
                assert(texts(segments@) =~= before.push(was));
                assert(part@ =~= Seq::<char>::empty());
            } else {
                part.push(c);
            }
            i += 1;
        }
        segments.push(string_of(&part));
        assert(chars@.take(i as int) =~= chars@);
        let path = Path { raw: raw.to_string(), segments };
        assert(path@.segments =~= dotted(raw@));
        path
    }

    pub fn copy(&self) -> (r: Path)
        ensures
            r@ == self@,
    {
        let mut segments: Vec<String> = Vec::new();
        let mut i: usize = 0;
        while i < self.segments.len()
            invariant
                i <= self.segments@.len(),
                segments@.len() == i,
                forall|j: int| 0 <= j < i ==> (#[trigger] segments@[j])@ == self.segments@[j]@,
            decreases self.segments.len() - i,
        {
            segments.push(self.segments[i].clone());
            i += 1;
        }
        let r = Path { raw: self.raw.clone(), segments };
        assert(r@ =~= self@);
        r
    }
}

#[derive(Clone, Copy, Debug, PartialEq, Eq, Structural)]
pub enum CmpOp {
    Eq,
    Ne,
    Lt,
    Le,
    Gt,
    Ge,
}

#[derive(Debug, PartialEq)]
pub enum Literal {
    Str(String),
    Num(Num),
    /// A duration such as `15m`, in seconds.
    Duration(Num),
    Bool(bool),
    Null,
}

/// What a literal holds.
#[verifier::ext_equal]
pub enum LiteralView {
    Str(Seq<char>),
    Num(Num),
    Duration(Num),
    Bool(bool),
    Null,
}

impl View for Literal {
    type V = LiteralView;

    open spec fn view(&self) -> LiteralView {
        match self {
            Literal::Str(s) => LiteralView::Str(s@),
            Literal::Num(n) => LiteralView::Num(*n),
            Literal::Duration(n) => LiteralView::Duration(*n),
            Literal::Bool(b) => LiteralView::Bool(*b),
            Literal::Null => LiteralView::Null,
        }
    }
}

/// A literal as a query writes it.
pub open spec fn literal_text(l: LiteralView) -> Seq<char> {
    match l {
        LiteralView::Str(s) => "\""@ + s + "\""@,
        LiteralView::Num(n) => plain_text(n),
        LiteralView::Duration(n) => plain_text(n) + "s"@,
        LiteralView::Bool(b) => bool_text(b),
        LiteralView::Null => "null"@,
    }
}

impl Literal {
    pub fn copy(&self) -> (r: Literal)
        ensures
            r@ == self@,
    {
        match self {
            Literal::Str(s) => Literal::Str(s.clone()),
            Literal::Num(n) => Literal::Num(*n),
            Literal::Duration(n) => Literal::Duration(*n),
            Literal::Bool(b) => Literal::Bool(*b),
            Literal::Null => Literal::Null,
        }
    }

    pub fn push_literal(&self, out: &mut Vec<char>)
        ensures
            final(out)@ == old(out)@ + literal_text(self@),
    {
        match self {
            Literal::Str(s) => {
                push_text(out, "\"");
                push_text(out, s.as_str());
                push_text(out, "\"");
            },
            Literal::Num(n) => push_plain(out, *n),
            Literal::Duration(n) => {
                push_plain(out, *n);
                push_text(out, "s");
            },
            Literal::Bool(b) => push_bool(out, *b),
            Literal::Null => push_text(out, "null"),
        }
        assert(out@ =~= old(out)@ + literal_text(self@));
    }
}

/// The scalar functions.
#[derive(Clone, Copy, Debug, PartialEq, Eq, Structural)]
pub enum Func {
    Lower,
    Upper,
    Len,
    Substr,
    Coalesce,
    Now,
    Num,
    DurationMs,
    Trim,
    Contains,
    StartsWith,
    EndsWith,
    Replace,
    Concat,
    Abs,
    Round,
    Floor,
    Ceil,
    Ts,
    FormatTime,
    Bucket,
}

/// The function that a name, in small letters, calls.
pub open spec fn func_named(name: Seq<char>) -> Option<Func> {
    if name == "lower"@ {
        Some(Func::Lower)
    } else if name == "upper"@ {
        Some(Func::Upper)
    } else if name == "len"@ || name == "length"@ {
        Some(Func::Len)
    } else if name == "substr"@ || name == "substring"@ {
        Some(Func::Substr)
    } else if name == "coalesce"@ {
        Some(Func::Coalesce)
    } else if name == "now"@ {
        Some(Func::Now)
    } else if name == "num"@ {
        Some(Func::Num)
    } else if name == "duration_ms"@ {
        Some(Func::DurationMs)
    } else if name == "trim"@ {
        Some(Func::Trim)
    } else if name == "contains"@ {
        Some(Func::Contains)
    } else if name == "starts_with"@ {
        Some(Func::StartsWith)
    } else if name == "ends_with"@ {
        Some(Func::EndsWith)
    } else if name == "replace"@ {
        Some(Func::Replace)
    } else if name == "concat"@ {
        Some(Func::Concat)
    } else if name == "abs"@ {
        Some(Func::Abs)
    } else if name == "round"@ {
        Some(Func::Round)
    } else if name == "floor"@ {
        Some(Func::Floor)
    } else if name == "ceil"@ {
        Some(Func::Ceil)
    } else if name == "ts"@ {
        Some(Func::Ts)
    } else if name == "format_time"@ {
        Some(Func::FormatTime)
    } else if name == "bucket"@ {
        Some(Func::Bucket)
    } else {
        None
    }
}

/// The name of a function.
pub open spec fn func_name(f: Func) -> Seq<char> {
    match f {
        Func::Lower => "lower"@,
        Func::Upper => "upper"@,
        Func::Len => "len"@,
        Func::Substr => "substr"@,
        Func::Coalesce => "coalesce"@,
        Func::Now => "now"@,
        Func::Num => "num"@,
        Func::DurationMs => "duration_ms"@,
        Func::Trim => "trim"@,
        Func::Contains => "contains"@,
        Func::StartsWith => "starts_with"@,
        Func::EndsWith => "ends_with"@,
        Func::Replace => "replace"@,
        Func::Concat => "concat"@,
        Func::Abs => "abs"@,
        Func::Round => "round"@,
        Func::Floor => "floor"@,
        Func::Ceil => "ceil"@,
        Func::Ts => "ts"@,
        Func::FormatTime => "format_time"@,
        Func::Bucket => "bucket"@,
    }
}

/// How many arguments a function takes: at least, and at most where there is a
/// limit.
pub open spec fn func_arity(f: Func) -> (nat, Option<nat>) {
    match f {
        Func::Now => (0, Some(0)),
        Func::Lower | Func::Upper | Func::Len | Func::Num | Func::DurationMs | Func::Trim | Func::Abs
        | Func::Floor | Func::Ceil | Func::Ts => (1, Some(1)),
        Func::FormatTime | Func::Round => (1, Some(2)),
        Func::Substr => (2, Some(3)),
        Func::Contains | Func::StartsWith | Func::EndsWith | Func::Bucket => (2, Some(2)),
        Func::Replace => (3, Some(3)),
        Func::Coalesce | Func::Concat => (1, None),
    }
}

impl Func {
    /// The function that a name calls, in capitals or not.
    pub fn parse(name: &str) -> (r: Option<Func>)
        ensures
            r == func_named(lower_text(name@)),
    {
        let n = lower_chars(&chars_of(name));
        if is_word(&n, "lower") {
            Some(Func::Lower)
        } else if is_word(&n, "upper") {
            Some(Func::Upper)
        } else if is_word(&n, "len") || is_word(&n, "length") {
            Some(Func::Len)
        } else if is_word(&n, "substr") || is_word(&n, "substring") {
            Some(Func::Substr)
        } else if is_word(&n, "coalesce") {
            Some(Func::Coalesce)
        } else if is_word(&n, "now") {
            Some(Func::Now)
        } else if is_word(&n, "num") {
            Some(Func::Num)
        } else if is_word(&n, "duration_ms") {
            Some(Func::DurationMs)
        } else if is_word(&n, "trim") {
            Some(Func::Trim)
        } else if is_word(&n, "contains") {
            Some(Func::Contains)
        } else if is_word(&n, "starts_with") {
            Some(Func::StartsWith)
        } else if is_word(&n, "ends_with") {
            Some(Func::EndsWith)
        } else if is_word(&n, "replace") {
            Some(Func::Replace)
        } else if is_word(&n, "concat") {
            Some(Func::Concat)
        } else if is_word(&n, "abs") {
            Some(Func::Abs)
        } else if is_word(&n, "round") {
            Some(Func::Round)
        } else if is_word(&n, "floor") {
            Some(Func::Floor)
        } else if is_word(&n, "ceil") {
            Some(Func::Ceil)
        } else if is_word(&n, "ts") {
            Some(Func::Ts)
        } else if is_word(&n, "format_time") {
            Some(Func::FormatTime)
        } else if is_word(&n, "bucket") {
            Some(Func::Bucket)
        } else {
            None
        }
    }

    pub fn name(self) -> (r: &'static str)
        ensures
            r@ == func_name(self),
    {
        match self {
            Func::Lower => "lower",
            Func::Upper => "upper",
            Func::Len => "len",
            Func::Substr => "substr",
            Func::Coalesce => "coalesce",
            Func::Now => "now",
            Func::Num => "num",
            Func::DurationMs => "duration_ms",
            Func::Trim => "trim",
            Func::Contains => "contains",
            Func::StartsWith => "starts_with",
            Func::EndsWith => "ends_with",
            Func::Replace => "replace",
            Func::Concat => "concat",
            Func::Abs => "abs",
            Func::Round => "round",
            Func::Floor => "floor",
            Func::Ceil => "ceil",
            Func::Ts => "ts",
            Func::FormatTime => "format_time",
            Func::Bucket => "bucket",
        }
    }

    /// The accepted counts of arguments: the least, and the greatest where
    /// there is a limit.
    pub fn arity(self) -> (r: (usize, Option<usize>))
        ensures
            r.0 == func_arity(self).0,
            match r.1 {
                Some(n) => func_arity(self).1 == Some(n as nat),
                None => func_arity(self).1 is None,
            },
    {
        match self {
            Func::Now => (0, Some(0)),
            Func::Lower
            | Func::Upper
            | Func::Len
            | Func::Num
            | Func::DurationMs
            | Func::Trim
            | Func::Abs
            | Func::Floor
            | Func::Ceil
            | Func::Ts => (1, Some(1)),
            Func::FormatTime | Func::Round => (1, Some(2)),
            Func::Substr => (2, Some(3)),
            Func::Contains | Func::StartsWith | Func::EndsWith | Func::Bucket => (2, Some(2)),
            Func::Replace => (3, Some(3)),
            Func::Coalesce | Func::Concat => (1, None),
        }
    }
}

#[derive(Clone, Copy, Debug, PartialEq, Eq, Structural)]
pub enum ArithOp {
    Add,
    Sub,
}

impl ArithOp {
    pub fn symbol(self) -> (r: char)
        ensures
            r == op_symbol(self),
    {
        match self {
            ArithOp::Add => '+',
            ArithOp::Sub => '-',
        }
    }
}

/// The sign of an operation.
pub open spec fn op_symbol(op: ArithOp) -> char {
    match op {
        ArithOp::Add => '+',
        ArithOp::Sub => '-',
    }
}

/// The aggregate functions, which fold a group of records into one value.
#[derive(Clone, Copy, Debug, PartialEq, Eq, Structural)]
pub enum Agg {
    Count,
    CountDistinct,
    Sum,
    Avg,
    Min,
    Max,
    First,
    Last,
}

/// The aggregate that a name, in small letters, calls.
pub open spec fn agg_named(name: Seq<char>) -> Option<Agg> {
    if name == "count"@ {
        Some(Agg::Count)
    } else if name == "count_distinct"@ {
        Some(Agg::CountDistinct)
    } else if name == "sum"@ {
        Some(Agg::Sum)
    } else if name == "avg"@ || name == "mean"@ {
        Some(Agg::Avg)
    } else if name == "min"@ {
        Some(Agg::Min)
    } else if name == "max"@ {
        Some(Agg::Max)
    } else if name == "first"@ {
        Some(Agg::First)
    } else if name == "last"@ {
        Some(Agg::Last)
    } else {
        None
    }
}

/// The name of an aggregate.
pub open spec fn agg_name(a: Agg) -> Seq<char> {
    match a {
        Agg::Count => "count"@,
        Agg::CountDistinct => "count_distinct"@,
        Agg::Sum => "sum"@,
        Agg::Avg => "avg"@,
        Agg::Min => "min"@,
        Agg::Max => "max"@,
        Agg::First => "first"@,
        Agg::Last => "last"@,
    }
}

impl Agg {
    /// The aggregate that a name calls, in capitals or not.
    pub fn parse(name: &str) -> (r: Option<Agg>)
        ensures
            r == agg_named(lower_text(name@)),
    {
        let n = lower_chars(&chars_of(name));
        if is_word(&n, "count") {
            Some(Agg::Count)
        } else if is_word(&n, "count_distinct") {
            Some(Agg::CountDistinct)
        } else if is_word(&n, "sum") {
            Some(Agg::Sum)
        } else if is_word(&n, "avg") || is_word(&n, "mean") {
            Some(Agg::Avg)
        } else if is_word(&n, "min") {
            Some(Agg::Min)
        } else if is_word(&n, "max") {
            Some(Agg::Max)
        } else if is_word(&n, "first") {
            Some(Agg::First)
        } else if is_word(&n, "last") {
            Some(Agg::Last)
        } else {
            None
        }
    }

    pub fn name(self) -> (r: &'static str)
        ensures
            r@ == agg_name(self),
    {
        match self {
            Agg::Count => "count",
            Agg::CountDistinct => "count_distinct",
            Agg::Sum => "sum",
            Agg::Avg => "avg",
            Agg::Min => "min",
            Agg::Max => "max",
            Agg::First => "first",
            Agg::Last => "last",
        }
    }

    /// Whether the aggregate can be of every record, as `count(*)` is.
    pub fn accepts_star(self) -> (r: bool)
        ensures
            r == (self == Agg::Count),
    {
        match self {
            Agg::Count => true,
            _ => false,
        }
    }
}

/// Something that has a value: a field, a literal, a call, a sum, an aggregate.
#[derive(Debug, PartialEq)]
pub enum ValueExpr {
    Field(Path),
    Lit(Literal),
    Call { func: Func, args: Vec<ValueExpr> },
    Arith { op: ArithOp, left: Box<ValueExpr>, right: Box<ValueExpr> },
    /// An aggregate over a group, of every record where `arg` is `None`.
    Agg { agg: Agg, arg: Option<Box<ValueExpr>> },
}

/// What a value expression holds.
#[verifier::ext_equal]
pub enum ValueExprView {
    Field(PathView),
    Lit(LiteralView),
    Call { func: Func, args: Seq<ValueExprView> },
    Arith { op: ArithOp, left: Box<ValueExprView>, right: Box<ValueExprView> },
    Agg { agg: Agg, arg: Option<Box<ValueExprView>> },
}

/// What a value expression holds, texts taken as their characters.
pub open spec fn value_expr_view(e: ValueExpr) -> ValueExprView
    decreases e,
{
    match e {
        ValueExpr::Field(p) => ValueExprView::Field(p@),
        ValueExpr::Lit(l) => ValueExprView::Lit(l@),
        ValueExpr::Call { func, args } => ValueExprView::Call {
            func,
            args: Seq::new(
                args@.len(),
                |i: int|
                    if 0 <= i < args@.len() {
                        value_expr_view(args@[i])
                    } else {
                        ValueExprView::Lit(LiteralView::Null)
                    },
            ),
        },
        ValueExpr::Arith { op, left, right } => ValueExprView::Arith {
            op,
            left: Box::new(value_expr_view(*left)),
            right: Box::new(value_expr_view(*right)),
        },
        ValueExpr::Agg { agg, arg } => ValueExprView::Agg {
            agg,
            arg: match arg {
                Some(a) => Some(Box::new(value_expr_view(*a))),
                None => None,
            },
        },
    }
}

impl View for ValueExpr {
    type V = ValueExprView;

    open spec fn view(&self) -> ValueExprView {
        value_expr_view(*self)
    }
}

/// What a row of value expressions holds.
pub open spec fn exprs_view(args: Seq<ValueExpr>) -> Seq<ValueExprView> {
    Seq::new(args.len(), |i: int| value_expr_view(args[i]))
}

/// Whether one of the first `n` expressions has an aggregate.
pub open spec fn any_aggregate(args: Seq<ValueExprView>, n: nat) -> bool
    decreases args, n,
{
    if n == 0 || n > args.len() {
        false
    } else {
        any_aggregate(args, (n - 1) as nat) || aggregate_in(args[n - 1])
    }
}

/// Whether the value of an expression takes a whole group.
pub open spec fn aggregate_in(e: ValueExprView) -> bool
    decreases e, 0nat,
{
    match e {
        ValueExprView::Field(_) => false,
        ValueExprView::Lit(_) => false,
        ValueExprView::Agg { agg, arg } => true,
        ValueExprView::Call { func, args } => any_aggregate(args, args.len()),
        ValueExprView::Arith { op, left, right } => aggregate_in(*left) || aggregate_in(*right),
    }
}

/// The first `n` arguments as a query writes them.
pub open spec fn args_text(args: Seq<ValueExprView>, n: nat) -> Seq<char>
    decreases args, n,
{
    if n == 0 || n > args.len() {
        Seq::empty()
    } else {
        args_text(args, (n - 1) as nat) + (if n > 1 {
            ", "@
        } else {
            Seq::empty()
        }) + expr_text(args[n - 1])
    }
}

/// An expression as text, in one way of writing it: this names the columns that
/// a grouping folds to.
pub open spec fn expr_text(e: ValueExprView) -> Seq<char>
    decreases e, 0nat,
{
    match e {
        ValueExprView::Field(p) => p.raw,
        ValueExprView::Lit(l) => literal_text(l),
        ValueExprView::Call { func, args } => func_name(func) + "("@ + args_text(args, args.len())
            + ")"@,
        ValueExprView::Agg { agg, arg } => match arg {
            None => agg_name(agg) + "(*)"@,
            Some(a) => agg_name(agg) + "("@ + expr_text(*a) + ")"@,
        },
        ValueExprView::Arith { op, left, right } => expr_text(*left) + seq![' ', op_symbol(op), ' ']
            + (if *right is Arith {
            "("@ + expr_text(*right) + ")"@
        } else {
            expr_text(*right)
        }),
    }
}

/// Whether the values of two numbers are the same.
pub open spec fn same_num(a: Num, b: Num) -> bool {
    a.amount() == b.amount()
}

/// Whether two literals are the same, numbers compared by value.
pub open spec fn same_literal(a: LiteralView, b: LiteralView) -> bool {
    match (a, b) {
        (LiteralView::Num(x), LiteralView::Num(y)) => same_num(x, y),
        (LiteralView::Duration(x), LiteralView::Duration(y)) => same_num(x, y),
        _ => a == b,
    }
}

/// Whether the first `n` of two rows of expressions are the same.
pub open spec fn same_exprs(a: Seq<ValueExprView>, b: Seq<ValueExprView>, n: nat) -> bool
    decreases a, n,
{
    if n == 0 || n > a.len() || n > b.len() {
        true
    } else {
        same_exprs(a, b, (n - 1) as nat) && same_expr(a[n - 1], b[n - 1])
    }
}

/// Whether two expressions are the same.
pub open spec fn same_expr(a: ValueExprView, b: ValueExprView) -> bool
    decreases a, 0nat,
{
    match (a, b) {
        (ValueExprView::Field(p), ValueExprView::Field(q)) => p == q,
        (ValueExprView::Lit(x), ValueExprView::Lit(y)) => same_literal(x, y),
        (
            ValueExprView::Call { func: f, args: x },
            ValueExprView::Call { func: g, args: y },
        ) => f == g && x.len() == y.len() && same_exprs(x, y, x.len()),
        (
            ValueExprView::Arith { op: f, left: x, right: y },
            ValueExprView::Arith { op: g, left: z, right: w },
        ) => f == g && same_expr(*x, *z) && same_expr(*y, *w),
        (ValueExprView::Agg { agg: f, arg: x }, ValueExprView::Agg { agg: g, arg: y }) => f == g && (
        match (x, y) {
            (None, None) => true,
            (Some(p), Some(q)) => same_expr(*p, *q),
            _ => false,
        }),
        _ => false,
    }
}

fn same_numbers(a: Num, b: Num) -> (r: bool)
    ensures
        r == same_num(a, b),
{
    match a.order(b) {
        Order::Equal => true,
        _ => false,
    }
}

impl Path {
    /// Whether two paths are the same.
    pub fn same(&self, other: &Path) -> (r: bool)
        ensures
            r == (self@ == other@),
    {
        if !same_text(self.raw.as_str(), other.raw.as_str()) || self.segments.len()
            != other.segments.len() {
            assert(self@.raw != other@.raw || self@.segments.len() != other@.segments.len());
            return false;
        }
        let mut i: usize = 0;
        while i < self.segments.len()
            invariant
                i <= self.segments@.len() == other.segments@.len(),
                forall|j: int| 0 <= j < i ==> self.segments@[j]@ == (#[trigger] other.segments@[j])@,
            decreases self.segments.len() - i,
        {
            if !same_text(self.segments[i].as_str(), other.segments[i].as_str()) {
                proof {
                    assert(self@.segments[i as int] != other@.segments[i as int]);
                }
                return false;
            }
            i += 1;
        }
        assert(self@ =~= other@);
        true
    }
}

impl Literal {
    /// Whether two literals are the same, numbers compared by value.
    pub fn same(&self, other: &Literal) -> (r: bool)
        ensures
            r == same_literal(self@, other@),
    {
        match (self, other) {
            (Literal::Str(a), Literal::Str(b)) => same_text(a.as_str(), b.as_str()),
            (Literal::Num(a), Literal::Num(b)) => same_numbers(*a, *b),
            (Literal::Duration(a), Literal::Duration(b)) => same_numbers(*a, *b),
            (Literal::Bool(a), Literal::Bool(b)) => *a == *b,
            (Literal::Null, Literal::Null) => true,
            _ => false,
        }
    }
}

fn any_has_aggregate(args: &Vec<ValueExpr>) -> (r: bool)
    ensures
        r == any_aggregate(exprs_view(args@), args@.len()),
    decreases args, 0nat,
{
    let mut i: usize = 0;
    let mut found = false;
    while i < args.len()
        invariant
            i <= args@.len(),
            found == any_aggregate(exprs_view(args@), i as nat),
        decreases args.len() - i,
    {
        assert(decreases_to!(args => args@[i as int]));
        found = args[i].has_aggregate() || found;
        i += 1;
    }
    found
}

fn push_args(out: &mut Vec<char>, args: &Vec<ValueExpr>)
    ensures
        final(out)@ == old(out)@ + args_text(exprs_view(args@), args@.len()),
    decreases args, 0nat,
{
    let mut i: usize = 0;
    let ghost all = exprs_view(args@);
    assert(out@ =~= old(out)@ + args_text(all, 0));
    while i < args.len()
        invariant
            i <= args@.len(),
            all == exprs_view(args@),
            out@ == old(out)@ + args_text(all, i as nat),
        decreases args.len() - i,
    {
        if i > 0 {
            push_text(out, ", ");
        }
        assert(decreases_to!(args => args@[i as int]));
        args[i].push_expr(out);
        i += 1;
        assert(out@ =~= old(out)@ + args_text(all, i as nat));
    }
}

fn same_args(a: &Vec<ValueExpr>, b: &Vec<ValueExpr>) -> (r: bool)
    requires
        a@.len() == b@.len(),
    ensures
        r == same_exprs(exprs_view(a@), exprs_view(b@), a@.len()),
    decreases a, 0nat,
{
    let mut i: usize = 0;
    let mut same = true;
    while i < a.len()
        invariant
            i <= a@.len() == b@.len(),
            same == same_exprs(exprs_view(a@), exprs_view(b@), i as nat),
        decreases a.len() - i,
    {
        assert(decreases_to!(a => a@[i as int]));
        same = a[i].same(&b[i]) && same;
        i += 1;
    }
    same
}

fn copy_args(args: &Vec<ValueExpr>) -> (r: Vec<ValueExpr>)
    ensures
        exprs_view(r@) == exprs_view(args@),
    decreases args, 0nat,
{
    let mut out: Vec<ValueExpr> = Vec::new();
    let mut i: usize = 0;
    while i < args.len()
        invariant
            i <= args@.len(),
            out@.len() == i,
            forall|j: int| 0 <= j < i ==> (#[trigger] out@[j])@ == args@[j]@,
        decreases args.len() - i,
    {
        assert(decreases_to!(args => args@[i as int]));
        out.push(args[i].copy());
        i += 1;
    }
    assert(exprs_view(out@) =~= exprs_view(args@));
    out
}

/// A call's view, by that of its arguments.
pub proof fn lemma_call_view(func: Func, args: Vec<ValueExpr>)
    ensures
        (ValueExpr::Call { func, args })@ == (ValueExprView::Call { func, args: exprs_view(args@) }),
{
    let e = ValueExpr::Call { func, args };
    assert(e@->args =~= exprs_view(args@));
}

impl ValueExpr {
    /// Whether the value takes a whole group rather than one record.
    pub fn has_aggregate(&self) -> (r: bool)
        ensures
            r == aggregate_in(self@),
        decreases self, 0nat,
    {
        match self {
            ValueExpr::Field(_) => false,
            ValueExpr::Lit(_) => false,
            ValueExpr::Agg { .. } => true,
            ValueExpr::Call { func, args } => {
                proof {
                    lemma_call_view(*func, *args);
                }
                any_has_aggregate(args)
            },
            ValueExpr::Arith { op, left, right } => left.has_aggregate() || right.has_aggregate(),
        }
    }

    /// Puts the expression, as a query writes it, behind what a text holds.
    pub fn push_expr(&self, out: &mut Vec<char>)
        ensures
            final(out)@ == old(out)@ + expr_text(self@),
        decreases self, 0nat,
    {
        match self {
            ValueExpr::Field(p) => push_text(out, p.raw.as_str()),
            ValueExpr::Lit(l) => l.push_literal(out),
            ValueExpr::Call { func, args } => {
                proof {
                    lemma_call_view(*func, *args);
                }
                push_text(out, func.name());
                push_text(out, "(");
                push_args(out, args);
                push_text(out, ")");
            },
            ValueExpr::Agg { agg, arg } => {
                push_text(out, agg.name());
                match arg {
                    None => push_text(out, "(*)"),
                    Some(a) => {
                        push_text(out, "(");
                        a.push_expr(out);
                        push_text(out, ")");
                    },
                }
            },
            ValueExpr::Arith { op, left, right } => {
                left.push_expr(out);
                out.push(' ');
                out.push(op.symbol());
                out.push(' ');
                match &**right {
                    ValueExpr::Arith { .. } => {
                        push_text(out, "(");
                        right.push_expr(out);
                        push_text(out, ")");
                    },
                    _ => right.push_expr(out),
                }
            },
        }
        assert(out@ =~= old(out)@ + expr_text(self@));
    }

    /// The expression as text.
    pub fn to_string(&self) -> (r: String)
        ensures
            r@ == expr_text(self@),
    {
        let mut out: Vec<char> = Vec::new();
        self.push_expr(&mut out);
        assert(out@ =~= expr_text(self@));
        string_of(&out)
    }

    /// Whether two expressions are the same.
    pub fn same(&self, other: &ValueExpr) -> (r: bool)
        ensures
            r == same_expr(self@, other@),
        decreases self, 0nat,
    {
        match (self, other) {
            (ValueExpr::Field(p), ValueExpr::Field(q)) => p.same(q),
            (ValueExpr::Lit(x), ValueExpr::Lit(y)) => x.same(y),
            (
                ValueExpr::Call { func: f, args: x },
                ValueExpr::Call { func: g, args: y },
            ) => {
                proof {
                    lemma_call_view(*f, *x);
                    lemma_call_view(*g, *y);
                }
                *f == *g && x.len() == y.len() && same_args(x, y)
            },
            (
                ValueExpr::Arith { op: f, left: x, right: y },
                ValueExpr::Arith { op: g, left: z, right: w },
            ) => *f == *g && x.same(z) && y.same(w),
            (ValueExpr::Agg { agg: f, arg: x }, ValueExpr::Agg { agg: g, arg: y }) => *f == *g && (
            match (x, y) {
                (None, None) => true,
                (Some(p), Some(q)) => p.same(q),
                _ => false,
            }),
            _ => false,
        }
    }

    pub fn copy(&self) -> (r: ValueExpr)
        ensures
            r@ == self@,
        decreases self, 0nat,
    {
        match self {
            ValueExpr::Field(p) => ValueExpr::Field(p.copy()),
            ValueExpr::Lit(l) => ValueExpr::Lit(l.copy()),
            ValueExpr::Call { func, args } => {
                let copied = copy_args(args);
                proof {
                    lemma_call_view(*func, *args);
                    lemma_call_view(*func, copied);
                }
                ValueExpr::Call { func: *func, args: copied }
            },
            ValueExpr::Arith { op, left, right } => ValueExpr::Arith {
                op: *op,
                left: Box::new(left.copy()),
                right: Box::new(right.copy()),
            },
            ValueExpr::Agg { agg, arg } => ValueExpr::Agg {
                agg: *agg,
                arg: match arg {
                    Some(a) => Some(Box::new(a.copy())),
                    None => None,
                },
            },
        }
    }
}

/// A condition.
#[derive(Debug, PartialEq)]
pub enum Expr {
    Or(Box<Expr>, Box<Expr>),
    And(Box<Expr>, Box<Expr>),
    Not(Box<Expr>),
    Compare { op: CmpOp, left: ValueExpr, right: ValueExpr },
    /// `field like "pat%"`, or `not like` where `negated`.
    Like { left: ValueExpr, pattern: ValueExpr, negated: bool },
    /// A bare value used as a condition.
    Truthy(ValueExpr),
}

/// What a condition holds.
#[verifier::ext_equal]
pub enum ExprView {
    Or(Box<ExprView>, Box<ExprView>),
    And(Box<ExprView>, Box<ExprView>),
    Not(Box<ExprView>),
    Compare { op: CmpOp, left: ValueExprView, right: ValueExprView },
    Like { left: ValueExprView, pattern: ValueExprView, negated: bool },
    Truthy(ValueExprView),
}

/// What a condition holds, texts taken as their characters.
pub open spec fn expr_view(e: Expr) -> ExprView
    decreases e,
{
    match e {
        Expr::Or(a, b) => ExprView::Or(Box::new(expr_view(*a)), Box::new(expr_view(*b))),
        Expr::And(a, b) => ExprView::And(Box::new(expr_view(*a)), Box::new(expr_view(*b))),
        Expr::Not(a) => ExprView::Not(Box::new(expr_view(*a))),
        Expr::Compare { op, left, right } => ExprView::Compare {
            op,
            left: left@,
            right: right@,
        },
        Expr::Like { left, pattern, negated } => ExprView::Like {
            left: left@,
            pattern: pattern@,
            negated,
        },
        Expr::Truthy(v) => ExprView::Truthy(v@),
    }
}

impl View for Expr {
    type V = ExprView;

    open spec fn view(&self) -> ExprView {
        expr_view(*self)
    }
}

/// One entry of a select list: a value and the name of its column.
#[derive(Debug, PartialEq)]
pub struct SelectItem {
    pub value: ValueExpr,
    /// The alias where one was written, otherwise the value as it was typed.
    pub label: String,
}

#[verifier::ext_equal]
pub struct SelectItemView {
    pub value: ValueExprView,
    pub label: Seq<char>,
}

impl View for SelectItem {
    type V = SelectItemView;

    open spec fn view(&self) -> SelectItemView {
        SelectItemView { value: self.value@, label: self.label@ }
    }
}

/// What a list of entries holds.
pub open spec fn items_view(items: Seq<SelectItem>) -> Seq<SelectItemView> {
    Seq::new(items.len(), |i: int| items[i]@)
}

#[derive(Debug, PartialEq)]
pub enum Selection {
    /// `select *`: every field of the record.
    All,
    /// These values, in this order.
    Items(Vec<SelectItem>),
}

#[verifier::ext_equal]
pub enum SelectionView {
    All,
    Items(Seq<SelectItemView>),
}

impl View for Selection {
    type V = SelectionView;

    open spec fn view(&self) -> SelectionView {
        match self {
            Selection::All => SelectionView::All,
            Selection::Items(items) => SelectionView::Items(items_view(items@)),
        }
    }
}

#[derive(Debug, PartialEq)]
pub struct OrderBy {
    /// The value to sort on, which need not be selected.
    pub value: ValueExpr,
    pub descending: bool,
}

#[verifier::ext_equal]
pub struct OrderByView {
    pub value: ValueExprView,
    pub descending: bool,
}

impl View for OrderBy {
    type V = OrderByView;

    open spec fn view(&self) -> OrderByView {
        OrderByView { value: self.value@, descending: self.descending }
    }
}

/// A query. Every clause but `select` is optional.
#[derive(Debug, PartialEq)]
pub struct Query {
    pub select: Selection,
    pub filter: Option<Expr>,
    /// The values that make a group.
    pub group_by: Vec<SelectItem>,
    /// A condition on the grouped rows.
    pub having: Option<Expr>,
    pub order_by: Option<OrderBy>,
    pub limit: Option<usize>,
}

#[verifier::ext_equal]
pub struct QueryView {
    pub select: SelectionView,
    pub filter: Option<ExprView>,
    pub group_by: Seq<SelectItemView>,
    pub having: Option<ExprView>,
    pub order_by: Option<OrderByView>,
    pub limit: Option<usize>,
}

/// The view of an optional condition.
pub open spec fn expr_opt(e: Option<Expr>) -> Option<ExprView> {
    match e {
        Some(x) => Some(x@),
        None => None,
    }
}

/// The view of an optional order.
pub open spec fn order_opt(o: Option<OrderBy>) -> Option<OrderByView> {
    match o {
        Some(x) => Some(x@),
        None => None,
    }
}

impl View for Query {
    type V = QueryView;

    open spec fn view(&self) -> QueryView {
        QueryView {
            select: self.select@,
            filter: expr_opt(self.filter),
            group_by: items_view(self.group_by@),
            having: expr_opt(self.having),
            order_by: order_opt(self.order_by),
            limit: self.limit,
        }
    }
}

/// Whether one of the entries has an aggregate.
pub open spec fn items_aggregate(items: Seq<SelectItemView>) -> bool {
    exists|i: int| 0 <= i < items.len() && aggregate_in((#[trigger] items[i]).value)
}

/// Whether a query gives one row per group: where it groups, and where it names
/// an aggregate or a condition on groups, which makes one group of all records.
pub open spec fn grouped(q: QueryView) -> bool {
    ||| q.group_by.len() > 0
    ||| (q.select matches SelectionView::Items(items) && items_aggregate(items))
    ||| q.having is Some
    ||| (q.order_by matches Some(o) && aggregate_in(o.value))
}

impl Query {
    /// Whether the query gives one row per group rather than one per record.
    pub fn is_grouped(&self) -> (r: bool)
        ensures
            r == grouped(self@),
    {
        self.group_by.len() > 0 || self.mentions_an_aggregate()
    }

    /// Whether an aggregate, or a condition on groups, stands in the query.
    fn mentions_an_aggregate(&self) -> (r: bool)
        ensures
            r == ((self@.select matches SelectionView::Items(items) && items_aggregate(items))
                || self@.having is Some || (self@.order_by matches Some(o) && aggregate_in(o.value))),
    {
        let selected = match &self.select {
            Selection::All => false,
            Selection::Items(items) => {
                let mut i: usize = 0;
                let mut found = false;
                while i < items.len()
                    invariant
                        i <= items@.len(),
                        found == exists|j: int|
                            0 <= j < i && aggregate_in((#[trigger] items_view(items@)[j]).value),
                    decreases items.len() - i,
                {
                    let one = items[i].value.has_aggregate();
                    assert(one == aggregate_in(items_view(items@)[i as int].value));
                    found = found || one;
                    i += 1;
                }
                found
            },
        };
        let ordered = match &self.order_by {
            Some(o) => o.value.has_aggregate(),
            None => false,
        };
        selected || self.having.is_some() || ordered
    }
}

/// Every function and every aggregate is called by its own name, and no name
/// calls both a function and an aggregate.
pub proof fn law_names_call_what_they_name(f: Func, a: Agg)
    ensures
        func_named(func_name(f)) == Some(f),
        agg_named(agg_name(a)) == Some(a),
        func_named(agg_name(a)) is None,
        agg_named(func_name(f)) is None,
{
    reveal_strlit("lower");
    assert("lower"@.len() == 5 && "lower"@[0] == 'l' && "lower"@[1] == 'o' && "lower"@[2] == 'w');
    reveal_strlit("upper");
    assert("upper"@.len() == 5 && "upper"@[0] == 'u' && "upper"@[1] == 'p' && "upper"@[2] == 'p');
    reveal_strlit("len");
    assert("len"@.len() == 3 && "len"@[0] == 'l' && "len"@[1] == 'e' && "len"@[2] == 'n');
    reveal_strlit("length");
    assert("length"@.len() == 6 && "length"@[0] == 'l' && "length"@[1] == 'e' && "length"@[2] == 'n');
    reveal_strlit("substr");
    assert("substr"@.len() == 6 && "substr"@[0] == 's' && "substr"@[1] == 'u' && "substr"@[2] == 'b');
    reveal_strlit("substring");
    assert("substring"@.len() == 9 && "substring"@[0] == 's' && "substring"@[1] == 'u' && "substring"@[2] == 'b');
    reveal_strlit("coalesce");
    assert("coalesce"@.len() == 8 && "coalesce"@[0] == 'c' && "coalesce"@[1] == 'o' && "coalesce"@[2] == 'a');
    reveal_strlit("now");
    assert("now"@.len() == 3 && "now"@[0] == 'n' && "now"@[1] == 'o' && "now"@[2] == 'w');
    reveal_strlit("num");
    assert("num"@.len() == 3 && "num"@[0] == 'n' && "num"@[1] == 'u' && "num"@[2] == 'm');
    reveal_strlit("duration_ms");
    assert("duration_ms"@.len() == 11 && "duration_ms"@[0] == 'd' && "duration_ms"@[1] == 'u' && "duration_ms"@[2] == 'r');
    reveal_strlit("trim");
    assert("trim"@.len() == 4 && "trim"@[0] == 't' && "trim"@[1] == 'r' && "trim"@[2] == 'i');
    reveal_strlit("contains");
    assert("contains"@.len() == 8 && "contains"@[0] == 'c' && "contains"@[1] == 'o' && "contains"@[2] == 'n');
    reveal_strlit("starts_with");
    assert("starts_with"@.len() == 11 && "starts_with"@[0] == 's' && "starts_with"@[1] == 't' && "starts_with"@[2] == 'a');
    reveal_strlit("ends_with");
    assert("ends_with"@.len() == 9 && "ends_with"@[0] == 'e' && "ends_with"@[1] == 'n' && "ends_with"@[2] == 'd');
    reveal_strlit("replace");
    assert("replace"@.len() == 7 && "replace"@[0] == 'r' && "replace"@[1] == 'e' && "replace"@[2] == 'p');
    reveal_strlit("concat");
    assert("concat"@.len() == 6 && "concat"@[0] == 'c' && "concat"@[1] == 'o' && "concat"@[2] == 'n');
    reveal_strlit("abs");
    assert("abs"@.len() == 3 && "abs"@[0] == 'a' && "abs"@[1] == 'b' && "abs"@[2] == 's');
    reveal_strlit("round");
    assert("round"@.len() == 5 && "round"@[0] == 'r' && "round"@[1] == 'o' && "round"@[2] == 'u');
    reveal_strlit("floor");
    assert("floor"@.len() == 5 && "floor"@[0] == 'f' && "floor"@[1] == 'l' && "floor"@[2] == 'o');
    reveal_strlit("ceil");
    assert("ceil"@.len() == 4 && "ceil"@[0] == 'c' && "ceil"@[1] == 'e' && "ceil"@[2] == 'i');
    reveal_strlit("ts");
    assert("ts"@.len() == 2 && "ts"@[0] == 't' && "ts"@[1] == 's');
    reveal_strlit("format_time");
    assert("format_time"@.len() == 11 && "format_time"@[0] == 'f' && "format_time"@[1] == 'o' && "format_time"@[2] == 'r');
    reveal_strlit("bucket");
    assert("bucket"@.len() == 6 && "bucket"@[0] == 'b' && "bucket"@[1] == 'u' && "bucket"@[2] == 'c');
    reveal_strlit("count");
    assert("count"@.len() == 5 && "count"@[0] == 'c' && "count"@[1] == 'o' && "count"@[2] == 'u');
    reveal_strlit("count_distinct");
    assert("count_distinct"@.len() == 14 && "count_distinct"@[0] == 'c' && "count_distinct"@[1] == 'o' && "count_distinct"@[2] == 'u');
    reveal_strlit("sum");
    assert("sum"@.len() == 3 && "sum"@[0] == 's' && "sum"@[1] == 'u' && "sum"@[2] == 'm');
    reveal_strlit("avg");
    assert("avg"@.len() == 3 && "avg"@[0] == 'a' && "avg"@[1] == 'v' && "avg"@[2] == 'g');
    reveal_strlit("mean");
    assert("mean"@.len() == 4 && "mean"@[0] == 'm' && "mean"@[1] == 'e' && "mean"@[2] == 'a');
    reveal_strlit("min");
    assert("min"@.len() == 3 && "min"@[0] == 'm' && "min"@[1] == 'i' && "min"@[2] == 'n');
    reveal_strlit("max");
    assert("max"@.len() == 3 && "max"@[0] == 'm' && "max"@[1] == 'a' && "max"@[2] == 'x');
    reveal_strlit("first");
    assert("first"@.len() == 5 && "first"@[0] == 'f' && "first"@[1] == 'i' && "first"@[2] == 'r');
    reveal_strlit("last");
    assert("last"@.len() == 4 && "last"@[0] == 'l' && "last"@[1] == 'a' && "last"@[2] == 's');
}

} // verus!
