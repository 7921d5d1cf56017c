//! What holds of how queries are written: every query has a row of tokens that reads
//! as that query, with brackets only where the precedence of its operators asks for
//! them.

use crate::ast::{
    agg_name, aggregate_in, func_arity, func_name, grouped, law_names_call_what_they_name, path_of,
    Agg, ArithOp, CmpOp, ExprView, Func, LiteralView, OrderByView, QueryView, SelectItemView,
    SelectionView, ValueExprView,
};
use crate::lexer::{Fault, Kind, Tok};
use crate::num::{lemma_whole_parts, whole_int};
use crate::parser::{
    aggregate_in_expr, and_at, and_from, args_from, arith_at, atom_at, call_at, compared_at,
    comparison_at, determined, group_at, having_at, item_at, items_at, items_from, limit_at, not_at,
    or_at, or_from, order_at, predicate_at, query_at, stands, sum_from, undetermined_from, value_at,
    where_at,
};
use crate::text::lower_text;
use vstd::prelude::*;

verus! {

/// The token of a literal.
pub open spec fn literal_token(l: LiteralView) -> Kind {
    match l {
        LiteralView::Str(s) => Kind::Str(s),
        LiteralView::Num(n) => Kind::Num(n),
        LiteralView::Duration(n) => Kind::Duration(n),
        LiteralView::Bool(b) => Kind::Bool(b),
        LiteralView::Null => Kind::Null,
    }
}

/// The token of an operation.
pub open spec fn arith_token(op: ArithOp) -> Kind {
    match op {
        ArithOp::Add => Kind::Plus,
        ArithOp::Sub => Kind::Minus,
    }
}

/// The token of a comparison.
pub open spec fn comparison_token(op: CmpOp) -> Kind {
    match op {
        CmpOp::Eq => Kind::Eq,
        CmpOp::Ne => Kind::Ne,
        CmpOp::Lt => Kind::Lt,
        CmpOp::Le => Kind::Le,
        CmpOp::Gt => Kind::Gt,
        CmpOp::Ge => Kind::Ge,
    }
}

/// The arguments of a call from `i` on, with a comma between each two.
pub open spec fn args_tokens(args: Seq<ValueExprView>, i: int) -> Seq<Kind>
    decreases args, args.len() - i,
{
    if i < 0 || i >= args.len() {
        Seq::empty()
    } else {
        value_tokens(args[i], false) + (if i + 1 < args.len() {
            seq![Kind::Comma]
        } else {
            Seq::empty()
        }) + args_tokens(args, i + 1)
    }
}

/// The tokens of a value. A sum is bracketed where it is the right side of another.
pub open spec fn value_tokens(v: ValueExprView, tight: bool) -> Seq<Kind>
    decreases v, (if tight { 1int } else { 0int }),
{
    match v {
        ValueExprView::Field(p) => seq![Kind::Ident(p.raw)],
        ValueExprView::Lit(l) => seq![literal_token(l)],
        ValueExprView::Call { func, args } => seq![Kind::Ident(func_name(func)), Kind::LParen]
            + args_tokens(args, 0) + seq![Kind::RParen],
        ValueExprView::Agg { agg, arg } => seq![Kind::Ident(agg_name(agg)), Kind::LParen] + (
        match arg {
            Some(a) => value_tokens(*a, false),
            None => seq![Kind::Star],
        }) + seq![Kind::RParen],
        ValueExprView::Arith { op, left, right } => if tight {
            seq![Kind::LParen] + value_tokens(v, false) + seq![Kind::RParen]
        } else {
            value_tokens(*left, false) + seq![arith_token(op)] + value_tokens(*right, true)
        },
    }
}

/// Whether the arguments of a call from `i` on can be written.
pub open spec fn args_stand(args: Seq<ValueExprView>, i: int) -> bool
    decreases args, args.len() - i,
{
    if i < 0 || i >= args.len() {
        true
    } else {
        value_stands(args[i]) && args_stand(args, i + 1)
    }
}

/// Whether a value can be written: its fields are what their texts write, its calls
/// have as many arguments as they take, and its aggregates do not nest.
pub open spec fn value_stands(v: ValueExprView) -> bool
    decreases v, 0int,
{
    match v {
        ValueExprView::Field(p) => p == path_of(p.raw),
        ValueExprView::Lit(_) => true,
        ValueExprView::Call { func, args } => args_stand(args, 0) && func_arity(func).0 <= args.len()
            && (func_arity(func).1 matches Some(m) ==> args.len() <= m),
        ValueExprView::Agg { agg, arg } => match arg {
            Some(a) => value_stands(*a) && !aggregate_in(*a),
            None => agg == Agg::Count,
        },
        ValueExprView::Arith { op, left, right } => value_stands(*left) && value_stands(*right),
    }
}

/// Whether tokens of these kinds stand at a place, with one more behind them.
pub open spec fn kinds_at(t: Seq<Tok>, p: int, w: Seq<Kind>) -> bool {
    &&& 0 <= p
    &&& p + w.len() < t.len()
    &&& forall|i: int| 0 <= i < w.len() ==> t[p + i].kind == #[trigger] w[i]
}

proof fn lemma_kinds_both(t: Seq<Tok>, p: int, a: Seq<Kind>, b: Seq<Kind>)
    ensures
        kinds_at(t, p, a + b) ==> kinds_at(t, p, a) && kinds_at(t, p + a.len(), b),
{
    let w = a + b;
    if kinds_at(t, p, w) {
        assert forall|i: int| 0 <= i < a.len() implies t[p + i].kind == #[trigger] a[i] by {
            assert(w[i] == a[i]);
        }
        assert forall|i: int| 0 <= i < b.len() implies t[p + a.len() + i].kind == #[trigger] b[i] by {
            assert(w[a.len() + i] == b[i]);
        }
    }
}

proof fn lemma_kind_first(t: Seq<Tok>, p: int, k: Kind, b: Seq<Kind>)
    requires
        kinds_at(t, p, seq![k] + b),
    ensures
        0 <= p < t.len(),
        t[p].kind == k,
        stands(t, p, k),
        kinds_at(t, p + 1, b),
{
    lemma_kinds_both(t, p, seq![k], b);
    assert(seq![k][0] == k);
    assert(t[p + 0].kind == k);
}

/// The names of functions and aggregates are in small letters.
proof fn lemma_small_names(f: Func, a: Agg)
    ensures
        lower_text(func_name(f)) == func_name(f),
        lower_text(agg_name(a)) == agg_name(a),
{
    reveal_strlit("lower");
    reveal_strlit("upper");
    reveal_strlit("len");
    reveal_strlit("substr");
    reveal_strlit("coalesce");
    reveal_strlit("now");
    reveal_strlit("num");
    reveal_strlit("duration_ms");
    reveal_strlit("trim");
    reveal_strlit("contains");
    reveal_strlit("starts_with");
    reveal_strlit("ends_with");
    reveal_strlit("replace");
    reveal_strlit("concat");
    reveal_strlit("abs");
    reveal_strlit("floor");
    reveal_strlit("ceil");
    reveal_strlit("round");
    reveal_strlit("ts");
    reveal_strlit("format_time");
    reveal_strlit("bucket");
    reveal_strlit("count");
    reveal_strlit("count_distinct");
    reveal_strlit("sum");
    reveal_strlit("avg");
    reveal_strlit("min");
    reveal_strlit("max");
    reveal_strlit("first");
    reveal_strlit("last");
    assert(lower_text(func_name(f)) =~= func_name(f));
    assert(lower_text(agg_name(a)) =~= agg_name(a));
}

/// Every value is written with a token at least, and a call or a bracket never
/// stands behind it.
proof fn lemma_value_tokens(v: ValueExprView, tight: bool)
    ensures
        value_tokens(v, tight).len() > 0,
        ({
            let k = value_tokens(v, tight)[0];
            k != Kind::RParen && k != Kind::Star && k != Kind::Not
        }),
    decreases v, (if tight { 1int } else { 0int }),
{
    match v {
        ValueExprView::Arith { op, left, right } => {
            if tight {
                assert(value_tokens(v, tight)[0] == Kind::LParen);
            } else {
                lemma_value_tokens(*left, false);
                assert(value_tokens(v, tight)[0] == value_tokens(*left, false)[0]);
            }
        },
        ValueExprView::Call { func, args } => {
            assert(value_tokens(v, tight)[0] == Kind::Ident(func_name(func)));
        },
        ValueExprView::Agg { agg, arg } => {
            assert(value_tokens(v, tight)[0] == Kind::Ident(agg_name(agg)));
        },
        _ => {},
    }
}

#[verifier::rlimit(30)]
proof fn lemma_args_read(t: Seq<Tok>, p: int, args: Seq<ValueExprView>, i: nat)
    requires
        i < args.len(),
        args_stand(args, i as int),
        kinds_at(t, p, args_tokens(args, i as int) + seq![Kind::RParen]),
    ensures
        args_from(t, p, args.take(i as int)) == Ok::<(Seq<ValueExprView>, int), Fault>(
            (args, p + args_tokens(args, i as int).len() + 1),
        ),
    decreases args, args.len() - i, 0int,
{
    let v = args[i as int];
    let a = value_tokens(v, false);
    let rest = args_tokens(args, i as int + 1);
    let whole = args_tokens(args, i as int) + seq![Kind::RParen];
    assert(value_stands(v));
    assert(args.take(i as int).push(v) =~= args.take(i as int + 1));
    lemma_value_tokens(v, false);
    if i + 1 < args.len() {
        assert(whole =~= a + (seq![Kind::Comma] + (rest + seq![Kind::RParen])));
        lemma_kinds_both(t, p, a, seq![Kind::Comma] + (rest + seq![Kind::RParen]));
        lemma_kind_first(t, p + a.len(), Kind::Comma, rest + seq![Kind::RParen]);
        lemma_value_reads(t, p, v, "an argument"@);
        lemma_args_read(t, p + a.len() + 1, args, i + 1);
    } else {
        assert(rest =~= Seq::<Kind>::empty());
        assert(whole =~= a + (seq![Kind::RParen] + Seq::<Kind>::empty()));
        lemma_kinds_both(t, p, a, seq![Kind::RParen] + Seq::<Kind>::empty());
        lemma_kind_first(t, p + a.len(), Kind::RParen, Seq::empty());
        lemma_value_reads(t, p, v, "an argument"@);
        assert(args.take(i as int + 1) =~= args);
    }
}

#[verifier::rlimit(30)]
proof fn lemma_call_reads(t: Seq<Tok>, p: int, func: Func, args: Seq<ValueExprView>)
    requires
        value_stands(ValueExprView::Call { func, args }),
        kinds_at(t, p, value_tokens(ValueExprView::Call { func, args }, true)),
    ensures
        t[p].kind == Kind::Ident(func_name(func)),
        stands(t, p + 1, Kind::LParen),
        call_at(t, p, func_name(func)) == Ok::<(ValueExprView, int), Fault>(
            (
                ValueExprView::Call { func, args },
                p + value_tokens(ValueExprView::Call { func, args }, true).len(),
            ),
        ),
    decreases args, args.len() + 1, 0int,
{
    let v = ValueExprView::Call { func, args };
    let name = func_name(func);
    let tail = args_tokens(args, 0) + seq![Kind::RParen];
    assert(value_tokens(v, true) =~= seq![Kind::Ident(name)] + (seq![Kind::LParen] + tail));
    lemma_kind_first(t, p, Kind::Ident(name), seq![Kind::LParen] + tail);
    lemma_kind_first(t, p + 1, Kind::LParen, tail);
    lemma_small_names(func, Agg::Count);
    law_names_call_what_they_name(func, Agg::Count);
    assert(args_stand(args, 0));
    if args.len() == 0 {
        assert(args_tokens(args, 0) =~= Seq::<Kind>::empty());
        assert(tail =~= seq![Kind::RParen] + Seq::<Kind>::empty());
        lemma_kind_first(t, p + 2, Kind::RParen, Seq::empty());
        assert(args =~= Seq::<ValueExprView>::empty());
    } else {
        lemma_value_tokens(args[0], false);
        assert(tail[0] == value_tokens(args[0], false)[0]);
        assert(t[p + 2 + 0].kind == tail[0]);
        assert(args.take(0) =~= Seq::<ValueExprView>::empty());
        lemma_args_read(t, p + 2, args, 0);
    }
}

#[verifier::rlimit(30)]
proof fn lemma_agg_reads(t: Seq<Tok>, p: int, agg: Agg, arg: Option<Box<ValueExprView>>)
    requires
        value_stands(ValueExprView::Agg { agg, arg }),
        kinds_at(t, p, value_tokens(ValueExprView::Agg { agg, arg }, true)),
    ensures
        t[p].kind == Kind::Ident(agg_name(agg)),
        stands(t, p + 1, Kind::LParen),
        call_at(t, p, agg_name(agg)) == Ok::<(ValueExprView, int), Fault>(
            (
                ValueExprView::Agg { agg, arg },
                p + value_tokens(ValueExprView::Agg { agg, arg }, true).len(),
            ),
        ),
    decreases arg, 0int, 0int,
{
    let v = ValueExprView::Agg { agg, arg };
    let name = agg_name(agg);
    let inner = match arg {
        Some(a) => value_tokens(*a, false),
        None => seq![Kind::Star],
    };
    let tail = inner + seq![Kind::RParen];
    assert(value_tokens(v, true) =~= seq![Kind::Ident(name)] + (seq![Kind::LParen] + tail));
    lemma_kind_first(t, p, Kind::Ident(name), seq![Kind::LParen] + tail);
    lemma_kind_first(t, p + 1, Kind::LParen, tail);
    lemma_small_names(Func::Now, agg);
    law_names_call_what_they_name(Func::Now, agg);
    lemma_kinds_both(t, p + 2, inner, seq![Kind::RParen]);
    assert(seq![Kind::RParen] =~= seq![Kind::RParen] + Seq::<Kind>::empty());
    lemma_kind_first(t, p + 2 + inner.len(), Kind::RParen, Seq::empty());
    match arg {
        Some(a) => {
            lemma_value_tokens(*a, false);
            assert(t[p + 2 + 0].kind == inner[0]);
            lemma_value_reads(t, p + 2, *a, "a value or `*` inside the aggregate"@);
        },
        None => {
            assert(t[p + 2 + 0].kind == inner[0]);
        },
    }
}

/// A value that takes one place reads as it was written.
#[verifier::rlimit(30)]
proof fn lemma_atom_reads(t: Seq<Tok>, p: int, v: ValueExprView, expected: Seq<char>)
    requires
        value_stands(v),
        kinds_at(t, p, value_tokens(v, true)),
        t[p + value_tokens(v, true).len()].kind != Kind::LParen,
    ensures
        atom_at(t, p, expected) == Ok::<(ValueExprView, int), Fault>(
            (v, p + value_tokens(v, true).len()),
        ),
    decreases v, 1int, 0int,
{
    let w = value_tokens(v, true);
    lemma_value_tokens(v, true);
    assert(t[p + 0].kind == w[0]);
    match v {
        ValueExprView::Call { func, args } => {
            lemma_call_reads(t, p, func, args);
        },
        ValueExprView::Agg { agg, arg } => {
            lemma_agg_reads(t, p, agg, arg);
        },
        ValueExprView::Arith { op, left, right } => {
            let inner = value_tokens(v, false);
            assert(w =~= seq![Kind::LParen] + (inner + seq![Kind::RParen]));
            lemma_kind_first(t, p, Kind::LParen, inner + seq![Kind::RParen]);
            lemma_kinds_both(t, p + 1, inner, seq![Kind::RParen]);
            assert(seq![Kind::RParen] =~= seq![Kind::RParen] + Seq::<Kind>::empty());
            lemma_kind_first(t, p + 1 + inner.len(), Kind::RParen, Seq::empty());
            lemma_value_reads(t, p + 1, v, expected);
        },
        _ => {},
    }
}

/// A value goes on where its tokens end.
#[verifier::rlimit(30)]
proof fn lemma_sum_reads(t: Seq<Tok>, p: int, v: ValueExprView, expected: Seq<char>)
    requires
        value_stands(v),
        kinds_at(t, p, value_tokens(v, false)),
        t[p + value_tokens(v, false).len()].kind != Kind::LParen,
    ensures
        value_at(t, p, expected) == sum_from(t, p + value_tokens(v, false).len(), v),
    decreases v, 0int, 1int,
{
    let w = value_tokens(v, false);
    lemma_value_tokens(v, false);
    match v {
        ValueExprView::Arith { op, left, right } => {
            let a = value_tokens(*left, false);
            let b = value_tokens(*right, true);
            assert(w =~= a + (seq![arith_token(op)] + b));
            lemma_kinds_both(t, p, a, seq![arith_token(op)] + b);
            lemma_kind_first(t, p + a.len(), arith_token(op), b);
            lemma_value_tokens(*right, true);
            lemma_sum_reads(t, p, *left, expected);
            lemma_atom_reads(t, p + a.len() + 1, *right, "a value after the operator"@);
            assert(arith_at(t, p + a.len()) == Some(op));
        },
        _ => {
            assert(value_tokens(v, true) == w);
            lemma_other_atom_reads(t, p, v, expected);
        },
    }
}

/// A value that is no sum reads as it was written.
proof fn lemma_other_atom_reads(t: Seq<Tok>, p: int, v: ValueExprView, expected: Seq<char>)
    requires
        !(v is Arith),
        value_stands(v),
        kinds_at(t, p, value_tokens(v, true)),
        t[p + value_tokens(v, true).len()].kind != Kind::LParen,
    ensures
        atom_at(t, p, expected) == Ok::<(ValueExprView, int), Fault>(
            (v, p + value_tokens(v, true).len()),
        ),
    decreases v, 0int, 0int,
{
    let w = value_tokens(v, true);
    lemma_value_tokens(v, true);
    assert(t[p + 0].kind == w[0]);
    match v {
        ValueExprView::Call { func, args } => {
            lemma_call_reads(t, p, func, args);
        },
        ValueExprView::Agg { agg, arg } => {
            lemma_agg_reads(t, p, agg, arg);
        },
        _ => {},
    }
}

/// A value reads as it was written, where no sum goes on behind it.
proof fn lemma_value_reads(t: Seq<Tok>, p: int, v: ValueExprView, expected: Seq<char>)
    requires
        value_stands(v),
        kinds_at(t, p, value_tokens(v, false)),
        t[p + value_tokens(v, false).len()].kind != Kind::LParen,
        arith_at(t, p + value_tokens(v, false).len()) is None,
    ensures
        value_at(t, p, expected) == Ok::<(ValueExprView, int), Fault>(
            (v, p + value_tokens(v, false).len()),
        ),
    decreases v, 0int, 2int,
{
    lemma_value_tokens(v, false);
    lemma_sum_reads(t, p, v, expected);
}

/// The tokens of a condition where `or` may stand, where `and` may, or where neither
/// may without brackets.
pub open spec fn expr_tokens(e: ExprView, level: nat) -> Seq<Kind>
    decreases e, level,
{
    match e {
        ExprView::Or(a, b) => if level > 0 {
            seq![Kind::LParen] + expr_tokens(e, 0) + seq![Kind::RParen]
        } else {
            expr_tokens(*a, 0) + seq![Kind::Or] + expr_tokens(*b, 1)
        },
        ExprView::And(a, b) => if level > 1 {
            seq![Kind::LParen] + expr_tokens(e, 0) + seq![Kind::RParen]
        } else {
            expr_tokens(*a, 1) + seq![Kind::And] + expr_tokens(*b, 2)
        },
        ExprView::Not(a) => seq![Kind::Not] + expr_tokens(*a, 2),
        ExprView::Compare { op, left, right } => value_tokens(left, false) + seq![
            comparison_token(op),
        ] + value_tokens(right, false),
        ExprView::Like { left, pattern, negated } => value_tokens(left, false) + (if negated {
            seq![Kind::Not, Kind::Like]
        } else {
            seq![Kind::Like]
        }) + value_tokens(pattern, false),
        ExprView::Truthy(v) => value_tokens(v, false),
    }
}

/// Whether the values of a condition can be written.
pub open spec fn expr_stands(e: ExprView) -> bool
    decreases e,
{
    match e {
        ExprView::Or(a, b) => expr_stands(*a) && expr_stands(*b),
        ExprView::And(a, b) => expr_stands(*a) && expr_stands(*b),
        ExprView::Not(a) => expr_stands(*a),
        ExprView::Compare { op, left, right } => value_stands(left) && value_stands(right),
        ExprView::Like { left, pattern, negated } => value_stands(left) && value_stands(pattern),
        ExprView::Truthy(v) => value_stands(v),
    }
}

/// Whether a condition can end before a token.
pub open spec fn ends_before(k: Kind) -> bool {
    k != Kind::LParen && k != Kind::Plus && k != Kind::Minus && k != Kind::Eq && k != Kind::Ne && k
        != Kind::Lt && k != Kind::Le && k != Kind::Gt && k != Kind::Ge && k != Kind::Like && k
        != Kind::Not
}

proof fn lemma_expr_tokens(e: ExprView, level: nat)
    ensures
        expr_tokens(e, level).len() > 0,
        !(e is Not) ==> expr_tokens(e, level)[0] != Kind::Not || e is Or || e is And,
    decreases e, level,
{
    match e {
        ExprView::Or(a, b) => {
            if level > 0 {
                lemma_expr_tokens(e, 0);
            }
        },
        ExprView::And(a, b) => {
            if level > 1 {
                lemma_expr_tokens(e, 0);
            }
        },
        ExprView::Not(a) => {},
        ExprView::Compare { op, left, right } => {
            lemma_value_tokens(left, false);
        },
        ExprView::Like { left, pattern, negated } => {
            lemma_value_tokens(left, false);
        },
        ExprView::Truthy(v) => {
            lemma_value_tokens(v, false);
        },
    }
}

/// What a condition starts with reads as a value only where the condition is that
/// value, or goes on behind it.
#[verifier::rlimit(40)]
proof fn lemma_leads(t: Seq<Tok>, p: int, e: ExprView, level: nat, expected: Seq<char>)
    requires
        expr_stands(e),
        kinds_at(t, p, expr_tokens(e, level)),
        ends_before(t[p + expr_tokens(e, level).len()].kind),
    ensures
        value_at(t, p, expected) matches Ok((v, q)) ==> (e is Truthy && q == p + expr_tokens(
            e,
            level,
        ).len()) || !stands(t, q, Kind::RParen),
        (level > 0 && e is Or) || (level > 1 && e is And) ==> value_at(t, p, expected) is Err,
    decreases e, level,
{
    let w = expr_tokens(e, level);
    if (level > 0 && e is Or) || (level > 1 && e is And) {
        let inner = expr_tokens(e, 0);
        assert(w =~= seq![Kind::LParen] + (inner + seq![Kind::RParen]));
        lemma_kind_first(t, p, Kind::LParen, inner + seq![Kind::RParen]);
        lemma_kinds_both(t, p + 1, inner, seq![Kind::RParen]);
        assert(seq![Kind::RParen] =~= seq![Kind::RParen] + Seq::<Kind>::empty());
        lemma_kind_first(t, p + 1 + inner.len(), Kind::RParen, Seq::empty());
        lemma_leads(t, p + 1, e, 0, expected);
        assert(atom_at(t, p, expected) is Err);
    } else {
        match e {
            ExprView::Or(a, b) => {
                let x = expr_tokens(*a, 0);
                let y = expr_tokens(*b, 1);
                assert(w =~= x + (seq![Kind::Or] + y));
                lemma_kinds_both(t, p, x, seq![Kind::Or] + y);
                lemma_kind_first(t, p + x.len(), Kind::Or, y);
                lemma_leads(t, p, *a, 0, expected);
            },
            ExprView::And(a, b) => {
                let x = expr_tokens(*a, 1);
                let y = expr_tokens(*b, 2);
                assert(w =~= x + (seq![Kind::And] + y));
                lemma_kinds_both(t, p, x, seq![Kind::And] + y);
                lemma_kind_first(t, p + x.len(), Kind::And, y);
                lemma_leads(t, p, *a, 1, expected);
            },
            ExprView::Not(a) => {
                lemma_kind_first(t, p, Kind::Not, expr_tokens(*a, 2));
                assert(atom_at(t, p, expected) is Err);
            },
            ExprView::Compare { op, left, right } => {
                let x = value_tokens(left, false);
                let y = value_tokens(right, false);
                assert(w =~= x + (seq![comparison_token(op)] + y));
                lemma_kinds_both(t, p, x, seq![comparison_token(op)] + y);
                lemma_kind_first(t, p + x.len(), comparison_token(op), y);
                lemma_value_reads(t, p, left, expected);
            },
            ExprView::Like { left, pattern, negated } => {
                let x = value_tokens(left, false);
                let y = value_tokens(pattern, false);
                if negated {
                    assert(w =~= x + (seq![Kind::Not] + (seq![Kind::Like] + y)));
                    lemma_kinds_both(t, p, x, seq![Kind::Not] + (seq![Kind::Like] + y));
                    lemma_kind_first(t, p + x.len(), Kind::Not, seq![Kind::Like] + y);
                } else {
                    assert(w =~= x + (seq![Kind::Like] + y));
                    lemma_kinds_both(t, p, x, seq![Kind::Like] + y);
                    lemma_kind_first(t, p + x.len(), Kind::Like, y);
                }
                lemma_value_reads(t, p, left, expected);
            },
            ExprView::Truthy(v) => {
                lemma_value_reads(t, p, v, expected);
            },
        }
    }
}

/// A condition without `and` and `or` outside brackets reads as it was written.
#[verifier::rlimit(40)]
proof fn lemma_tight_reads(t: Seq<Tok>, p: int, e: ExprView)
    requires
        expr_stands(e),
        kinds_at(t, p, expr_tokens(e, 2)),
        ends_before(t[p + expr_tokens(e, 2).len()].kind),
    ensures
        not_at(t, p) == Ok::<(ExprView, int), Fault>((e, p + expr_tokens(e, 2).len())),
    decreases e, 3int,
{
    let w = expr_tokens(e, 2);
    let expected = "a field name, a function or a literal value"@;
    lemma_expr_tokens(e, 2);
    match e {
        ExprView::Or(_, _) | ExprView::And(_, _) => {
            let inner = expr_tokens(e, 0);
            assert(w =~= seq![Kind::LParen] + (inner + seq![Kind::RParen]));
            lemma_kind_first(t, p, Kind::LParen, inner + seq![Kind::RParen]);
            lemma_kinds_both(t, p + 1, inner, seq![Kind::RParen]);
            assert(seq![Kind::RParen] =~= seq![Kind::RParen] + Seq::<Kind>::empty());
            lemma_kind_first(t, p + 1 + inner.len(), Kind::RParen, Seq::empty());
            lemma_leads(t, p, e, 2, expected);
            lemma_or_reads(t, p + 1, e);
            assert(predicate_at(t, p) == Ok::<(ExprView, int), Fault>((e, p + w.len())));
        },
        _ => {
            lemma_plain_reads(t, p, e);
        },
    }
}

/// A condition without `or` outside brackets goes on where its tokens end.
#[verifier::rlimit(40)]
proof fn lemma_and_reads(t: Seq<Tok>, p: int, e: ExprView)
    requires
        expr_stands(e),
        kinds_at(t, p, expr_tokens(e, 1)),
        ends_before(t[p + expr_tokens(e, 1).len()].kind),
    ensures
        and_at(t, p) == and_from(t, p + expr_tokens(e, 1).len(), e),
    decreases e, 4int,
{
    let w = expr_tokens(e, 1);
    lemma_expr_tokens(e, 1);
    match e {
        ExprView::And(a, b) => {
            let x = expr_tokens(*a, 1);
            let y = expr_tokens(*b, 2);
            assert(w =~= x + (seq![Kind::And] + y));
            lemma_kinds_both(t, p, x, seq![Kind::And] + y);
            lemma_kind_first(t, p + x.len(), Kind::And, y);
            lemma_expr_tokens(*b, 2);
            lemma_and_reads(t, p, *a);
            lemma_tight_reads(t, p + x.len() + 1, *b);
        },
        _ => {
            assert(expr_tokens(e, 2) == w);
            lemma_tight_reads(t, p, e);
        },
    }
}

/// A condition goes on where its tokens end.
#[verifier::rlimit(40)]
proof fn lemma_or_goes_on(t: Seq<Tok>, p: int, e: ExprView)
    requires
        expr_stands(e),
        kinds_at(t, p, expr_tokens(e, 0)),
        ends_before(t[p + expr_tokens(e, 0).len()].kind),
        t[p + expr_tokens(e, 0).len()].kind != Kind::And,
    ensures
        or_at(t, p) == or_from(t, p + expr_tokens(e, 0).len(), e),
    decreases e, 1int,
{
    let w = expr_tokens(e, 0);
    lemma_expr_tokens(e, 0);
    match e {
        ExprView::Or(a, b) => {
            let x = expr_tokens(*a, 0);
            let y = expr_tokens(*b, 1);
            assert(w =~= x + (seq![Kind::Or] + y));
            lemma_kinds_both(t, p, x, seq![Kind::Or] + y);
            lemma_kind_first(t, p + x.len(), Kind::Or, y);
            lemma_expr_tokens(*b, 1);
            lemma_or_goes_on(t, p, *a);
            lemma_and_reads(t, p + x.len() + 1, *b);
            assert(and_at(t, p + x.len() + 1) == Ok::<(ExprView, int), Fault>((*b, p + w.len())));
            assert(or_at(t, p) == or_from(t, p + x.len(), *a));
        },
        ExprView::And(a, b) => {
            assert(expr_tokens(e, 1) == w);
            let x = expr_tokens(*a, 1);
            let y = expr_tokens(*b, 2);
            assert(w =~= x + (seq![Kind::And] + y));
            lemma_kinds_both(t, p, x, seq![Kind::And] + y);
            lemma_kind_first(t, p + x.len(), Kind::And, y);
            lemma_expr_tokens(*b, 2);
            lemma_and_reads(t, p, *a);
            lemma_tight_reads(t, p + x.len() + 1, *b);
            assert(and_at(t, p) == and_from(t, p + x.len(), *a));
            assert(and_from(t, p + x.len(), *a) == and_from(t, p + w.len(), e));
            assert(and_at(t, p) == Ok::<(ExprView, int), Fault>((e, p + w.len())));
        },
        _ => {
            assert(expr_tokens(e, 2) == w);
            lemma_plain_reads(t, p, e);
            assert(and_from(t, p + w.len(), e) == Ok::<(ExprView, int), Fault>((e, p + w.len())));
            assert(and_at(t, p) == Ok::<(ExprView, int), Fault>((e, p + w.len())));
        },
    }
}

/// A condition that is neither `and` nor `or` reads as it was written.
#[verifier::rlimit(40)]
proof fn lemma_plain_reads(t: Seq<Tok>, p: int, e: ExprView)
    requires
        !(e is Or),
        !(e is And),
        expr_stands(e),
        kinds_at(t, p, expr_tokens(e, 2)),
        ends_before(t[p + expr_tokens(e, 2).len()].kind),
    ensures
        not_at(t, p) == Ok::<(ExprView, int), Fault>((e, p + expr_tokens(e, 2).len())),
    decreases e, 0int,
{
    let w = expr_tokens(e, 2);
    let expected = "a field name, a function or a literal value"@;
    lemma_expr_tokens(e, 2);
    match e {
        ExprView::Not(a) => {
            lemma_kind_first(t, p, Kind::Not, expr_tokens(*a, 2));
            lemma_tight_reads(t, p + 1, *a);
        },
        ExprView::Compare { op, left, right } => {
            let x = value_tokens(left, false);
            let y = value_tokens(right, false);
            assert(w =~= x + (seq![comparison_token(op)] + y));
            lemma_kinds_both(t, p, x, seq![comparison_token(op)] + y);
            lemma_kind_first(t, p + x.len(), comparison_token(op), y);
            lemma_value_reads(t, p, left, expected);
            lemma_value_reads(t, p + x.len() + 1, right, expected);
            assert(comparison_at(t, p + x.len()) == Some(op));
            assert(compared_at(t, p + x.len(), left) == Ok::<(ExprView, int), Fault>(
                (e, p + w.len()),
            ));
            assert(t[p + 0].kind == w[0]);
            assert(predicate_at(t, p) == Ok::<(ExprView, int), Fault>((e, p + w.len())));
            assert(not_at(t, p) == predicate_at(t, p));
        },
        ExprView::Like { left, pattern, negated } => {
            let x = value_tokens(left, false);
            let y = value_tokens(pattern, false);
            let q = p + x.len();
            if negated {
                assert(w =~= x + (seq![Kind::Not] + (seq![Kind::Like] + y)));
                lemma_kinds_both(t, p, x, seq![Kind::Not] + (seq![Kind::Like] + y));
                lemma_kind_first(t, q, Kind::Not, seq![Kind::Like] + y);
                lemma_kind_first(t, q + 1, Kind::Like, y);
                lemma_value_reads(t, q + 2, pattern, "a pattern after `not like`"@);
            } else {
                assert(w =~= x + (seq![Kind::Like] + y));
                lemma_kinds_both(t, p, x, seq![Kind::Like] + y);
                lemma_kind_first(t, q, Kind::Like, y);
                lemma_value_reads(t, q + 1, pattern, "a pattern after `like`"@);
            }
            lemma_value_reads(t, p, left, expected);
            assert(compared_at(t, q, left) == Ok::<(ExprView, int), Fault>((e, p + w.len())));
            assert(t[p + 0].kind == w[0]);
            assert(predicate_at(t, p) == Ok::<(ExprView, int), Fault>((e, p + w.len())));
            assert(not_at(t, p) == predicate_at(t, p));
        },
        ExprView::Truthy(v) => {
            lemma_value_reads(t, p, v, expected);
            assert(compared_at(t, p + w.len(), v) == Ok::<(ExprView, int), Fault>((e, p + w.len())));
            assert(t[p + 0].kind == w[0]);
            assert(predicate_at(t, p) == Ok::<(ExprView, int), Fault>((e, p + w.len())));
            assert(not_at(t, p) == predicate_at(t, p));
        },
        _ => {},
    }
}

/// A condition reads as it was written.
proof fn lemma_or_reads(t: Seq<Tok>, p: int, e: ExprView)
    requires
        expr_stands(e),
        kinds_at(t, p, expr_tokens(e, 0)),
        ends_before(t[p + expr_tokens(e, 0).len()].kind),
        t[p + expr_tokens(e, 0).len()].kind != Kind::And,
        t[p + expr_tokens(e, 0).len()].kind != Kind::Or,
    ensures
        or_at(t, p) == Ok::<(ExprView, int), Fault>((e, p + expr_tokens(e, 0).len())),
    decreases e, 2int,
{
    lemma_or_goes_on(t, p, e);
}

/// A condition reads as it was written: `or` binds loosest, then `and`, then `not`,
/// then comparisons and matches, then sums from the left; brackets override.
pub proof fn law_a_condition_reads_back(t: Seq<Tok>, p: int, e: ExprView)
    requires
        expr_stands(e),
        kinds_at(t, p, expr_tokens(e, 0)),
        ends_before(t[p + expr_tokens(e, 0).len()].kind),
        t[p + expr_tokens(e, 0).len()].kind != Kind::And,
        t[p + expr_tokens(e, 0).len()].kind != Kind::Or,
    ensures
        or_at(t, p) == Ok::<(ExprView, int), Fault>((e, p + expr_tokens(e, 0).len())),
{
    lemma_or_reads(t, p, e);
}

/// A value reads as it was written: a call with its arguments, an aggregate, a field,
/// a literal, or a sum from the left.
pub proof fn law_a_value_reads_back(t: Seq<Tok>, p: int, v: ValueExprView, expected: Seq<char>)
    requires
        value_stands(v),
        kinds_at(t, p, value_tokens(v, false)),
        t[p + value_tokens(v, false).len()].kind != Kind::LParen,
        arith_at(t, p + value_tokens(v, false).len()) is None,
    ensures
        value_at(t, p, expected) == Ok::<(ValueExprView, int), Fault>(
            (v, p + value_tokens(v, false).len()),
        ),
{
    lemma_value_reads(t, p, v, expected);
}

/// The entries of a list from `i` on, each under an alias, with a comma between each
/// two.
pub open spec fn items_tokens(items: Seq<SelectItemView>, i: int) -> Seq<Kind>
    decreases items.len() - i,
{
    if i < 0 || i >= items.len() {
        Seq::empty()
    } else {
        value_tokens(items[i].value, false) + seq![Kind::As, Kind::Ident(items[i].label)] + (if i + 1
            < items.len() {
            seq![Kind::Comma]
        } else {
            Seq::empty()
        }) + items_tokens(items, i + 1)
    }
}

/// Whether the values of a list can be written.
pub open spec fn items_stand(items: Seq<SelectItemView>) -> bool {
    items.len() > 0 && forall|i: int|
        0 <= i < items.len() ==> value_stands((#[trigger] items[i]).value)
}

/// One entry reads as it was written.
proof fn lemma_item_reads(
    s: Seq<char>,
    t: Seq<Tok>,
    p: int,
    item: SelectItemView,
    rest: Seq<Kind>,
    expected: Seq<char>,
)
    requires
        value_stands(item.value),
        kinds_at(
            t,
            p,
            value_tokens(item.value, false) + (seq![Kind::As] + (seq![Kind::Ident(item.label)]
                + rest)),
        ),
    ensures
        item_at(s, t, p, expected) == Ok::<(SelectItemView, int), Fault>(
            (item, p + value_tokens(item.value, false).len() + 2),
        ),
        kinds_at(t, p + value_tokens(item.value, false).len() + 2, rest),
{
    let a = value_tokens(item.value, false);
    let name = Kind::Ident(item.label);
    lemma_kinds_both(t, p, a, seq![Kind::As] + (seq![name] + rest));
    lemma_kind_first(t, p + a.len(), Kind::As, seq![name] + rest);
    lemma_kind_first(t, p + a.len() + 1, name, rest);
    lemma_value_reads(t, p, item.value, expected);
}

/// What the entries from `i` on write behind the value of the first.
spec fn items_behind(items: Seq<SelectItemView>, i: int) -> Seq<Kind> {
    if i + 1 < items.len() {
        seq![Kind::Comma] + items_tokens(items, i + 1)
    } else {
        Seq::empty()
    }
}

proof fn lemma_items_split(items: Seq<SelectItemView>, i: int)
    requires
        0 <= i < items.len(),
    ensures
        items_tokens(items, i) == value_tokens(items[i].value, false) + (seq![Kind::As] + (seq![
            Kind::Ident(items[i].label),
        ] + items_behind(items, i))),
{
    assert(items_tokens(items, items.len() as int) =~= Seq::<Kind>::empty());
    assert(items_tokens(items, i) =~= value_tokens(items[i].value, false) + (seq![Kind::As] + (seq![
        Kind::Ident(items[i].label),
    ] + items_behind(items, i))));
}

/// One more entry behind a comma is added to those before.
proof fn lemma_next_item(
    s: Seq<char>,
    t: Seq<Tok>,
    p: int,
    before: Seq<SelectItemView>,
    cols: Seq<int>,
    item: SelectItemView,
    q: int,
)
    requires
        stands(t, p, Kind::Comma),
        item_at(s, t, p + 1, "a field name or a function after `,`"@) == Ok::<
            (SelectItemView, int),
            Fault,
        >((item, q)),
        p < q < t.len(),
    ensures
        items_from(s, t, p, before, cols) == items_from(
            s,
            t,
            q,
            before.push(item),
            cols.push(t[p + 1].col),
        ),
{
}

#[verifier::rlimit(30)]
proof fn lemma_more_items_read(
    s: Seq<char>,
    t: Seq<Tok>,
    p: int,
    items: Seq<SelectItemView>,
    i: nat,
    cols: Seq<int>,
)
    requires
        items_stand(items),
        0 < i <= items.len(),
        kinds_at(
            t,
            p,
            if i < items.len() {
                seq![Kind::Comma] + items_tokens(items, i as int)
            } else {
                Seq::empty()
            },
        ),
        t[p + (if i < items.len() {
            1 + items_tokens(items, i as int).len()
        } else {
            0
        })].kind != Kind::Comma,
    ensures
        items_from(s, t, p, items.take(i as int), cols) matches Ok(((read, _), q)) && read == items
            && q == p + (if i < items.len() {
            1 + items_tokens(items, i as int).len()
        } else {
            0
        }),
    decreases items.len() - i,
{
    if i == items.len() {
        assert(items.take(i as int) =~= items);
    } else {
        let item = items[i as int];
        let w = items_tokens(items, i as int);
        let more = items_behind(items, i as int);
        assert(value_stands(item.value));
        lemma_kind_first(t, p, Kind::Comma, w);
        lemma_items_split(items, i as int);
        lemma_item_reads(
            s,
            t,
            p + 1,
            item,
            more,
            "a field name or a function after `,`"@,
        );
        assert(items.take(i as int).push(item) =~= items.take(i as int + 1));
        let q = p + 1 + value_tokens(item.value, false).len() + 2;
        lemma_next_item(s, t, p, items.take(i as int), cols, item, q);
        lemma_more_items_read(s, t, q, items, i + 1, cols.push(t[p + 1].col));
    }
}

/// A list of entries reads as it was written.
#[verifier::rlimit(30)]
proof fn lemma_items_read(
    s: Seq<char>,
    t: Seq<Tok>,
    p: int,
    items: Seq<SelectItemView>,
    expected: Seq<char>,
)
    requires
        items_stand(items),
        kinds_at(t, p, items_tokens(items, 0)),
        t[p + items_tokens(items, 0).len()].kind != Kind::Comma,
    ensures
        items_at(s, t, p, expected) matches Ok(((read, _), q)) && read == items && q == p
            + items_tokens(items, 0).len(),
{
    let item = items[0];
    let w = items_tokens(items, 0);
    let more = if 1 < items.len() {
        seq![Kind::Comma] + items_tokens(items, 1)
    } else {
        Seq::<Kind>::empty()
    };
    assert(value_stands(item.value));
    assert(items.len() == 1 ==> items_tokens(items, 1) =~= Seq::<Kind>::empty());
    assert(w =~= value_tokens(item.value, false) + (seq![Kind::As] + (seq![Kind::Ident(item.label)]
        + more)));
    lemma_item_reads(s, t, p, item, more, expected);
    assert(items.take(1) =~= seq![item]);
    let q = p + value_tokens(item.value, false).len() + 2;
    lemma_more_items_read(s, t, q, items, 1, seq![t[p].col]);
}

/// The tokens of what a query selects.
pub open spec fn selection_tokens(select: SelectionView) -> Seq<Kind> {
    match select {
        SelectionView::All => seq![Kind::Star],
        SelectionView::Items(items) => items_tokens(items, 0),
    }
}

/// The tokens of a condition behind its keyword.
pub open spec fn condition_tokens(word: Kind, e: Option<ExprView>) -> Seq<Kind> {
    match e {
        Some(x) => seq![word] + expr_tokens(x, 0),
        None => Seq::empty(),
    }
}

/// The tokens of the keys of a grouping.
pub open spec fn group_tokens(keys: Seq<SelectItemView>) -> Seq<Kind> {
    if keys.len() > 0 {
        seq![Kind::Group] + (seq![Kind::By] + items_tokens(keys, 0))
    } else {
        Seq::empty()
    }
}

/// The tokens of an order.
pub open spec fn order_tokens(order: Option<OrderByView>) -> Seq<Kind> {
    match order {
        Some(o) => seq![Kind::Order] + (seq![Kind::By] + (value_tokens(o.value, false) + (
        if o.descending {
            seq![Kind::Desc]
        } else {
            Seq::empty()
        }))),
        None => Seq::empty(),
    }
}

/// The tokens of a limit.
pub open spec fn limit_tokens(limit: Option<usize>) -> Seq<Kind> {
    match limit {
        Some(n) => seq![Kind::Limit] + seq![Kind::Num(whole_int(n as int))],
        None => Seq::empty(),
    }
}

/// The tokens of a query, clause by clause, from one of them on.
pub open spec fn clauses_tokens(q: QueryView, from: nat) -> Seq<Kind> {
    let limit = limit_tokens(q.limit);
    let order = order_tokens(q.order_by) + limit;
    let having = condition_tokens(Kind::Having, q.having) + order;
    let group = group_tokens(q.group_by) + having;
    let filter = condition_tokens(Kind::Where, q.filter) + group;
    if from == 0 {
        filter
    } else if from == 1 {
        group
    } else if from == 2 {
        having
    } else if from == 3 {
        order
    } else if from == 4 {
        limit
    } else {
        Seq::empty()
    }
}

/// The tokens of a query.
pub open spec fn query_tokens(q: QueryView) -> Seq<Kind> {
    seq![Kind::Select] + (selection_tokens(q.select) + clauses_tokens(q, 0))
}

/// Which clause a keyword starts, counted from the first; the end of the query comes
/// behind all.
pub open spec fn clause_of(k: Kind) -> int {
    match k {
        Kind::Where => 0,
        Kind::Group => 1,
        Kind::Having => 2,
        Kind::Order => 3,
        Kind::Limit => 4,
        Kind::Eof => 5,
        _ => -1,
    }
}

/// Before the clauses from one on stands the keyword of one of them, or the end of
/// the query.
proof fn lemma_next_clause(t: Seq<Tok>, p: int, q: QueryView, from: nat)
    requires
        from <= 5,
        kinds_at(t, p, clauses_tokens(q, from)),
        t[p + clauses_tokens(q, from).len()].kind == Kind::Eof,
    ensures
        0 <= p < t.len(),
        clause_of(t[p].kind) >= from,
    decreases 5 - from,
{
    let w = clauses_tokens(q, from);
    if from < 5 {
        let rest = clauses_tokens(q, from + 1);
        let own = if from == 0 {
            condition_tokens(Kind::Where, q.filter)
        } else if from == 1 {
            group_tokens(q.group_by)
        } else if from == 2 {
            condition_tokens(Kind::Having, q.having)
        } else if from == 3 {
            order_tokens(q.order_by)
        } else {
            limit_tokens(q.limit)
        };
        assert(w =~= own + rest);
        lemma_kinds_both(t, p, own, rest);
        if own.len() == 0 {
            lemma_next_clause(t, p, q, from + 1);
        } else {
            assert(t[p + 0].kind == own[0]);
        }
    }
}

proof fn lemma_all_determined(
    items: Seq<SelectItemView>,
    keys: Seq<SelectItemView>,
    cols: Seq<int>,
    i: int,
)
    requires
        0 <= i,
        forall|j: int| 0 <= j < items.len() ==> determined((#[trigger] items[j]).value, keys),
    ensures
        undetermined_from(items, keys, cols, i) is None,
    decreases items.len() - i,
{
    if i < items.len() {
        lemma_all_determined(items, keys, cols, i + 1);
        assert(determined(items[i].value, keys));
    }
}

/// Whether a query can be written: its values can, its limit is a number that the
/// format holds, no aggregate stands in `where`, and what it selects is determined by
/// its grouping.
pub open spec fn query_stands(q: QueryView) -> bool {
    &&& q.select matches SelectionView::Items(items) ==> items_stand(items)
    &&& q.filter matches Some(e) ==> expr_stands(e) && !aggregate_in_expr(e)
    &&& q.group_by.len() > 0 ==> items_stand(q.group_by)
    &&& q.having matches Some(e) ==> expr_stands(e)
    &&& q.order_by matches Some(o) ==> value_stands(o.value)
    &&& q.limit matches Some(n) ==> n < 0x20_0000_0000_0000
    &&& grouped(q) ==> (q.select matches SelectionView::Items(items) && forall|i: int|
        0 <= i < items.len() ==> determined((#[trigger] items[i]).value, q.group_by))
}

proof fn lemma_filter_reads(t: Seq<Tok>, p: int, q: QueryView)
    requires
        query_stands(q),
        kinds_at(t, p, clauses_tokens(q, 0)),
        t[p + clauses_tokens(q, 0).len()].kind == Kind::Eof,
    ensures
        where_at(t, p) == Ok::<(Option<ExprView>, int), Fault>(
            (q.filter, p + condition_tokens(Kind::Where, q.filter).len()),
        ),
        kinds_at(
            t,
            p + condition_tokens(Kind::Where, q.filter).len(),
            clauses_tokens(q, 1),
        ),
{
    let own = condition_tokens(Kind::Where, q.filter);
    lemma_kinds_both(t, p, own, clauses_tokens(q, 1));
    lemma_next_clause(t, p + own.len(), q, 1);
    match q.filter {
        Some(e) => {
            lemma_kind_first(t, p, Kind::Where, expr_tokens(e, 0));
            lemma_or_reads(t, p + 1, e);
        },
        None => {},
    }
}

proof fn lemma_group_reads(s: Seq<char>, t: Seq<Tok>, p: int, q: QueryView)
    requires
        query_stands(q),
        kinds_at(t, p, clauses_tokens(q, 1)),
        t[p + clauses_tokens(q, 1).len()].kind == Kind::Eof,
    ensures
        group_at(s, t, p) == Ok::<(Seq<SelectItemView>, int), Fault>(
            (q.group_by, p + group_tokens(q.group_by).len()),
        ),
        kinds_at(t, p + group_tokens(q.group_by).len(), clauses_tokens(q, 2)),
{
    let own = group_tokens(q.group_by);
    lemma_kinds_both(t, p, own, clauses_tokens(q, 2));
    lemma_next_clause(t, p + own.len(), q, 2);
    if q.group_by.len() > 0 {
        lemma_kind_first(t, p, Kind::Group, seq![Kind::By] + items_tokens(q.group_by, 0));
        lemma_kind_first(t, p + 1, Kind::By, items_tokens(q.group_by, 0));
        lemma_items_read(
            s,
            t,
            p + 2,
            q.group_by,
            "a field name or a function after `group by`"@,
        );
    } else {
        assert(q.group_by =~= Seq::<SelectItemView>::empty());
    }
}

proof fn lemma_having_reads(t: Seq<Tok>, p: int, q: QueryView)
    requires
        query_stands(q),
        kinds_at(t, p, clauses_tokens(q, 2)),
        t[p + clauses_tokens(q, 2).len()].kind == Kind::Eof,
    ensures
        having_at(t, p) == Ok::<(Option<ExprView>, int), Fault>(
            (q.having, p + condition_tokens(Kind::Having, q.having).len()),
        ),
        kinds_at(
            t,
            p + condition_tokens(Kind::Having, q.having).len(),
            clauses_tokens(q, 3),
        ),
{
    let own = condition_tokens(Kind::Having, q.having);
    lemma_kinds_both(t, p, own, clauses_tokens(q, 3));
    lemma_next_clause(t, p + own.len(), q, 3);
    match q.having {
        Some(e) => {
            lemma_kind_first(t, p, Kind::Having, expr_tokens(e, 0));
            lemma_or_reads(t, p + 1, e);
        },
        None => {},
    }
}

proof fn lemma_order_reads(t: Seq<Tok>, p: int, q: QueryView)
    requires
        query_stands(q),
        kinds_at(t, p, clauses_tokens(q, 3)),
        t[p + clauses_tokens(q, 3).len()].kind == Kind::Eof,
    ensures
        order_at(t, p) == Ok::<(Option<OrderByView>, int), Fault>(
            (q.order_by, p + order_tokens(q.order_by).len()),
        ),
        kinds_at(t, p + order_tokens(q.order_by).len(), clauses_tokens(q, 4)),
{
    let own = order_tokens(q.order_by);
    lemma_kinds_both(t, p, own, clauses_tokens(q, 4));
    lemma_next_clause(t, p + own.len(), q, 4);
    match q.order_by {
        Some(o) => {
            let v = value_tokens(o.value, false);
            let word = if o.descending {
                seq![Kind::Desc]
            } else {
                Seq::<Kind>::empty()
            };
            lemma_kind_first(t, p, Kind::Order, seq![Kind::By] + (v + word));
            lemma_kind_first(t, p + 1, Kind::By, v + word);
            lemma_kinds_both(t, p + 2, v, word);
            if o.descending {
                assert(word =~= seq![Kind::Desc] + Seq::<Kind>::empty());
                lemma_kind_first(t, p + 2 + v.len(), Kind::Desc, Seq::empty());
            }
            lemma_value_reads(t, p + 2, o.value, "a field name or a function after `order by`"@);
        },
        None => {},
    }
}

proof fn lemma_limit_reads(t: Seq<Tok>, p: int, q: QueryView)
    requires
        query_stands(q),
        kinds_at(t, p, clauses_tokens(q, 4)),
        t[p + clauses_tokens(q, 4).len()].kind == Kind::Eof,
    ensures
        limit_at(t, p) == Ok::<(Option<usize>, int), Fault>(
            (q.limit, p + limit_tokens(q.limit).len()),
        ),
{
    lemma_next_clause(t, p, q, 4);
    match q.limit {
        Some(n) => {
            let x = whole_int(n as int);
            lemma_kind_first(t, p, Kind::Limit, seq![Kind::Num(x)]);
            assert(seq![Kind::Num(x)] =~= seq![Kind::Num(x)] + Seq::<Kind>::empty());
            lemma_kind_first(t, p + 1, Kind::Num(x), Seq::empty());
            lemma_whole_parts(n as int);
            vstd::arithmetic::power2::lemma_pow2_pos(1074);
            let u = crate::num::one();
            assert(n * u >= 0) by (nonlinear_arith)
                requires
                    n >= 0,
                    u >= 0,
            ;
        },
        None => {},
    }
}

/// A query reads as it was written, clause by clause: what it selects, which records
/// it takes, how it groups them, which groups it keeps, how it sorts, and how many
/// rows it gives at most.
#[verifier::rlimit(30)]
pub proof fn law_a_query_reads_back(s: Seq<char>, t: Seq<Tok>, q: QueryView)
    requires
        query_stands(q),
        kinds_at(t, 0, query_tokens(q)),
        t[query_tokens(q).len() as int].kind == Kind::Eof,
    ensures
        query_at(s, t, 0) == Ok::<(QueryView, int), Fault>((q, query_tokens(q).len() as int)),
{
    let select = selection_tokens(q.select);
    let tail = clauses_tokens(q, 0);
    lemma_kind_first(t, 0, Kind::Select, select + tail);
    lemma_kinds_both(t, 1, select, tail);
    let p2 = 1 + select.len() as int;
    lemma_next_clause(t, p2, q, 0);
    match q.select {
        SelectionView::All => {
            assert(t[1 as int + 0].kind == select[0]);
        },
        SelectionView::Items(items) => {
            lemma_items_read(s, t, 1, items, "`*`, a field name or a function after `select`"@);
            lemma_value_tokens(items[0].value, false);
            assert(select[0] == value_tokens(items[0].value, false)[0]);
            assert(t[1 as int + 0].kind == select[0]);
            assert forall|cols: Seq<int>| #[trigger]
                undetermined_from(items, q.group_by, cols, 0) is None || !grouped(q) by {
                if grouped(q) {
                    lemma_all_determined(items, q.group_by, cols, 0);
                }
            }
        },
    }
    lemma_filter_reads(t, p2, q);
    let p3 = p2 + condition_tokens(Kind::Where, q.filter).len();
    lemma_group_reads(s, t, p3, q);
    let p4 = p3 + group_tokens(q.group_by).len();
    lemma_having_reads(t, p4, q);
    let p5 = p4 + condition_tokens(Kind::Having, q.having).len();
    lemma_order_reads(t, p5, q);
    let p6 = p5 + order_tokens(q.order_by).len();
    lemma_limit_reads(t, p6, q);
}

} // verus!
