//! Recursive-descent parser for the query language.
//!
//! Grammar, lowest precedence first:
//!
//! ```text
//! query      := "select" selection [ "where" expr ]
//!               [ "group" "by" item { "," item } ] [ "having" expr ]
//!               [ "order" "by" value [ "asc" | "desc" ] ]
//!               [ "limit" number ]
//! selection  := "*" | item { "," item }
//! item       := value [ "as" name ]
//! expr       := and_expr { "or" and_expr }
//! and_expr   := not_expr { "and" not_expr }
//! not_expr   := "not" not_expr | predicate
//! predicate  := value [ ( cmp_op value ) | ( ["not"] "like" value ) ]
//!             | "(" expr ")"
//! value      := atom { ( "+" | "-" ) atom }
//! atom       := "(" value ")" | call | agg | field | literal | duration
//! call       := name "(" [ value { "," value } ] ")"
//! agg        := name "(" ( "*" | value ) ")"
//! ```
//!
//! A bracket that closes around a value is part of a value: `(a) > 3` compares
//! `a` with `3`. Any other bracket in a condition holds a condition.
//!
//! Each rule is a function from the tokens and a position to what stands there
//! and the position behind it, or to the fault that is found there.

use crate::ast::{
    agg_name, agg_named, aggregate_in, expr_text, exprs_view, func_arity, func_name, func_named,
    grouped, items_view, lemma_call_view, path_of, same_expr, Agg, ArithOp, CmpOp, Expr, ExprView,
    Func, Literal, LiteralView, OrderBy, OrderByView, Path, Query, QueryView, SelectItem,
    SelectItemView, Selection, SelectionView, ValueExpr, ValueExprView,
};
use crate::decimal::{nat_text, push_nat};
use crate::json::push_text;
use crate::lexer::{
    follows, ignorable_end, kind_text, law_tokens_are_in_order, law_tokens_stand_at_their_columns,
    lemma_ignorable_end, lemma_token_at, token_end, tokenize, tokens_of, toks, typed, typed_text,
    Fault, Kind, QueryError, Tok, Token, TokenKind,
};
use crate::num::{rest_part, whole_part, Num};
use crate::text::{lower_text, string_of};
use vstd::prelude::*;

verus! {

/// What stands at a position and where it ends, or the fault found there.
pub type Parsed<T> = Result<(T, int), Fault>;

/// The tokens of a query as the tokenizer gives them: the end of the query
/// stands last and nowhere else.
pub open spec fn closed_row(t: Seq<Tok>) -> bool {
    &&& t.len() > 0
    &&& t.last().kind is Eof
    &&& forall|k: int| 0 <= k < t.len() - 1 ==> (#[trigger] t[k]).kind !is Eof
}

/// The fault of a position outside the tokens, which no rule comes to.
pub open spec fn nowhere() -> Fault {
    Fault { message: Seq::empty(), col: 0 }
}

/// The fault of a token that is not what was expected.
pub open spec fn unexpected(t: Seq<Tok>, p: int, expected: Seq<char>) -> Fault {
    Fault {
        message: "expected "@ + expected + ", found "@ + kind_text(t[p].kind),
        col: t[p].col,
    }
}

/// Whether a token of a kind stands at a position.
pub open spec fn stands(t: Seq<Tok>, p: int, kind: Kind) -> bool {
    0 <= p < t.len() && t[p].kind == kind
}

/// The position behind an expected token.
pub open spec fn expect_at(
    t: Seq<Tok>,
    p: int,
    kind: Kind,
    expected: Seq<char>,
) -> Result<int, Fault> {
    if stands(t, p, kind) {
        Ok(p + 1)
    } else {
        Err(unexpected(t, p, expected))
    }
}

/// The operation that a token writes.
pub open spec fn arith_at(t: Seq<Tok>, p: int) -> Option<ArithOp> {
    match t[p].kind {
        Kind::Plus => Some(ArithOp::Add),
        Kind::Minus => Some(ArithOp::Sub),
        _ => None,
    }
}

/// The comparison that a token writes.
pub open spec fn comparison_at(t: Seq<Tok>, p: int) -> Option<CmpOp> {
    match t[p].kind {
        Kind::Eq => Some(CmpOp::Eq),
        Kind::Ne => Some(CmpOp::Ne),
        Kind::Lt => Some(CmpOp::Lt),
        Kind::Le => Some(CmpOp::Le),
        Kind::Gt => Some(CmpOp::Gt),
        Kind::Ge => Some(CmpOp::Ge),
        _ => None,
    }
}

/// The field or literal that a token is.
pub open spec fn leaf_of(kind: Kind) -> Option<ValueExprView> {
    match kind {
        Kind::Ident(name) => Some(ValueExprView::Field(path_of(name))),
        Kind::Str(s) => Some(ValueExprView::Lit(LiteralView::Str(s))),
        Kind::Num(n) => Some(ValueExprView::Lit(LiteralView::Num(n))),
        Kind::Duration(n) => Some(ValueExprView::Lit(LiteralView::Duration(n))),
        Kind::Bool(b) => Some(ValueExprView::Lit(LiteralView::Bool(b))),
        Kind::Null => Some(ValueExprView::Lit(LiteralView::Null)),
        _ => None,
    }
}

/// "argument" for one, "arguments" for any other count.
pub open spec fn plural(n: nat) -> Seq<char> {
    if n == 1 {
        "argument"@
    } else {
        "arguments"@
    }
}

/// How many arguments a function takes, in words.
pub open spec fn arity_text(min: nat, max: Option<nat>) -> Seq<char> {
    match max {
        Some(m) => if m == min {
            nat_text(min) + " "@ + plural(min)
        } else {
            nat_text(min) + " to "@ + nat_text(m) + " arguments"@
        },
        None => "at least "@ + nat_text(min) + " "@ + plural(min),
    }
}

/// The fault of a call with too few or too many arguments.
pub open spec fn arity_fault(func: Func, count: nat, col: int) -> Option<Fault> {
    let (min, max) = func_arity(func);
    if count < min || (max matches Some(m) && count > m) {
        Some(
            Fault {
                message: "`"@ + func_name(func) + "` takes "@ + arity_text(min, max) + ", but "@
                    + nat_text(count) + (if count == 1 {
                    " was given"@
                } else {
                    " were given"@
                }),
                col,
            },
        )
    } else {
        None
    }
}

/// A value: atoms joined by `+` and `-`, from the left.
pub open spec fn value_at(t: Seq<Tok>, p: int, expected: Seq<char>) -> Parsed<ValueExprView>
    decreases t.len() - p, 3int,
{
    match atom_at(t, p, expected) {
        Err(f) => Err(f),
        Ok((left, q)) => if p < q < t.len() {
            sum_from(t, q, left)
        } else {
            Err(nowhere())
        },
    }
}

/// The rest of a sum behind its first part.
pub open spec fn sum_from(t: Seq<Tok>, p: int, left: ValueExprView) -> Parsed<ValueExprView>
    decreases t.len() - p, 0int,
{
    if !(0 <= p < t.len()) {
        Err(nowhere())
    } else {
        match arith_at(t, p) {
            None => Ok((left, p)),
            Some(op) => match atom_at(t, p + 1, "a value after the operator"@) {
                Err(f) => Err(f),
                Ok((right, q)) => if p < q < t.len() {
                    sum_from(
                        t,
                        q,
                        ValueExprView::Arith { op, left: Box::new(left), right: Box::new(right) },
                    )
                } else {
                    Err(nowhere())
                },
            },
        }
    }
}

/// One value: a call, a field, a literal, or a sum in brackets.
pub open spec fn atom_at(t: Seq<Tok>, p: int, expected: Seq<char>) -> Parsed<ValueExprView>
    decreases t.len() - p, 2int,
{
    if !(0 <= p < t.len()) {
        Err(nowhere())
    } else if stands(t, p, Kind::LParen) {
        match value_at(t, p + 1, expected) {
            Err(f) => Err(f),
            Ok((inner, q)) => match expect_at(t, q, Kind::RParen, "`)` to close the group"@) {
                Err(f) => Err(f),
                Ok(r) => Ok((inner, r)),
            },
        }
    } else if t[p].kind is Ident && stands(t, p + 1, Kind::LParen) {
        call_at(t, p, t[p].kind->Ident_0)
    } else {
        match leaf_of(t[p].kind) {
            Some(v) => Ok((v, p + 1)),
            None => Err(unexpected(t, p, expected)),
        }
    }
}

/// A call of a function or an aggregate, whose name and bracket stand at `p`.
pub open spec fn call_at(t: Seq<Tok>, p: int, name: Seq<char>) -> Parsed<ValueExprView>
    decreases t.len() - p, 1int,
{
    if !(0 <= p && p + 1 < t.len()) {
        Err(nowhere())
    } else {
        match agg_named(lower_text(name)) {
            Some(agg) => agg_at(t, p, agg),
            None => match func_named(lower_text(name)) {
                None => Err(Fault { message: "unknown function `"@ + name + "`"@, col: t[p].col }),
                Some(func) => {
                    let closed = if stands(t, p + 2, Kind::RParen) {
                        Ok((Seq::<ValueExprView>::empty(), p + 3))
                    } else {
                        args_from(t, p + 2, Seq::empty())
                    };
                    match closed {
                        Err(f) => Err(f),
                        Ok((args, q)) => match arity_fault(func, args.len(), t[p].col) {
                            Some(f) => Err(f),
                            None => Ok((ValueExprView::Call { func, args }, q)),
                        },
                    }
                },
            },
        }
    }
}

/// The arguments of a call from `p` on, behind those before, up to the bracket
/// that closes the call.
pub open spec fn args_from(
    t: Seq<Tok>,
    p: int,
    before: Seq<ValueExprView>,
) -> Parsed<Seq<ValueExprView>>
    decreases t.len() - p, 4int,
{
    if !(0 <= p < t.len()) {
        Err(nowhere())
    } else {
        match value_at(t, p, "an argument"@) {
            Err(f) => Err(f),
            Ok((v, q)) => if !(p < q < t.len()) {
                Err(nowhere())
            } else if stands(t, q, Kind::Comma) {
                args_from(t, q + 1, before.push(v))
            } else {
                match expect_at(t, q, Kind::RParen, "`,` or `)` to close the argument list"@) {
                    Err(f) => Err(f),
                    Ok(r) => Ok((before.push(v), r)),
                }
            },
        }
    }
}

/// An aggregate of one value, or of every record. Aggregates do not nest.
pub open spec fn agg_at(t: Seq<Tok>, p: int, agg: Agg) -> Parsed<ValueExprView>
    decreases t.len() - p, 0int,
{
    if !(0 <= p && p + 1 < t.len()) {
        Err(nowhere())
    } else {
        let inside = if stands(t, p + 2, Kind::Star) {
            if agg == Agg::Count {
                Ok((None, p + 3))
            } else {
                Err(
                    Fault {
                        message: "`"@ + agg_name(agg)
                            + "(*)` is not meaningful; give it a value to fold"@,
                        col: t[p].col,
                    },
                )
            }
        } else {
            match value_at(t, p + 2, "a value or `*` inside the aggregate"@) {
                Err(f) => Err(f),
                Ok((v, q)) => if aggregate_in(v) {
                    Err(Fault { message: "aggregates do not nest"@, col: t[p].col })
                } else {
                    Ok((Some(Box::new(v)), q))
                },
            }
        };
        match inside {
            Err(f) => Err(f),
            Ok((arg, q)) => match expect_at(t, q, Kind::RParen, "`)` to close the aggregate"@) {
                Err(f) => Err(f),
                Ok(r) => Ok((ValueExprView::Agg { agg, arg }, r)),
            },
        }
    }
}

/// A condition: parts joined by `or`, from the left.
pub open spec fn or_at(t: Seq<Tok>, p: int) -> Parsed<ExprView>
    decreases t.len() - p, 6int,
{
    match and_at(t, p) {
        Err(f) => Err(f),
        Ok((left, q)) => if p < q < t.len() {
            or_from(t, q, left)
        } else {
            Err(nowhere())
        },
    }
}

pub open spec fn or_from(t: Seq<Tok>, p: int, left: ExprView) -> Parsed<ExprView>
    decreases t.len() - p, 0int,
{
    if stands(t, p, Kind::Or) {
        match and_at(t, p + 1) {
            Err(f) => Err(f),
            Ok((right, q)) => if p < q < t.len() {
                or_from(t, q, ExprView::Or(Box::new(left), Box::new(right)))
            } else {
                Err(nowhere())
            },
        }
    } else {
        Ok((left, p))
    }
}

/// Conditions joined by `and`, from the left.
pub open spec fn and_at(t: Seq<Tok>, p: int) -> Parsed<ExprView>
    decreases t.len() - p, 5int,
{
    match not_at(t, p) {
        Err(f) => Err(f),
        Ok((left, q)) => if p < q < t.len() {
            and_from(t, q, left)
        } else {
            Err(nowhere())
        },
    }
}

pub open spec fn and_from(t: Seq<Tok>, p: int, left: ExprView) -> Parsed<ExprView>
    decreases t.len() - p, 0int,
{
    if stands(t, p, Kind::And) {
        match not_at(t, p + 1) {
            Err(f) => Err(f),
            Ok((right, q)) => if p < q < t.len() {
                and_from(t, q, ExprView::And(Box::new(left), Box::new(right)))
            } else {
                Err(nowhere())
            },
        }
    } else {
        Ok((left, p))
    }
}

/// A condition with any number of `not` before it.
pub open spec fn not_at(t: Seq<Tok>, p: int) -> Parsed<ExprView>
    decreases t.len() - p, 4int,
{
    if stands(t, p, Kind::Not) {
        match not_at(t, p + 1) {
            Err(f) => Err(f),
            Ok((inner, q)) => Ok((ExprView::Not(Box::new(inner)), q)),
        }
    } else {
        predicate_at(t, p)
    }
}

/// A comparison or a match of a value that has been read, or the bare value.
pub open spec fn compared_at(t: Seq<Tok>, p: int, left: ValueExprView) -> Parsed<ExprView> {
    match comparison_at(t, p) {
        Some(op) => match value_at(t, p + 1, "a field name, a function or a literal value"@) {
            Err(f) => Err(f),
            Ok((right, q)) => Ok((ExprView::Compare { op, left, right }, q)),
        },
        None => if stands(t, p, Kind::Like) {
            match value_at(t, p + 1, "a pattern after `like`"@) {
                Err(f) => Err(f),
                Ok((pattern, q)) => Ok((ExprView::Like { left, pattern, negated: false }, q)),
            }
        } else if stands(t, p, Kind::Not) && stands(t, p + 1, Kind::Like) {
            match value_at(t, p + 2, "a pattern after `not like`"@) {
                Err(f) => Err(f),
                Ok((pattern, q)) => Ok((ExprView::Like { left, pattern, negated: true }, q)),
            }
        } else {
            Ok((ExprView::Truthy(left), p))
        },
    }
}

/// A comparison, a match, a bare value, or a condition in brackets.
pub open spec fn predicate_at(t: Seq<Tok>, p: int) -> Parsed<ExprView>
    decreases t.len() - p, 3int,
{
    match value_at(t, p, "a field name, a function or a literal value"@) {
        Ok((left, q)) => compared_at(t, q, left),
        Err(fault) => if stands(t, p, Kind::LParen) {
            match or_at(t, p + 1) {
                Err(f) => Err(f),
                Ok((inner, q)) => match expect_at(t, q, Kind::RParen, "`)` to close the group"@) {
                    Err(f) => Err(f),
                    Ok(r) => Ok((inner, r)),
                },
            }
        } else {
            Err(fault)
        },
    }
}

/// Whether a token kind has nothing inside it.
spec fn plain(k: Kind) -> bool {
    k !is Ident && k !is Str && k !is Num && k !is Duration && k !is Bool
}

/// Whether a token is of a kind that has nothing inside it.
fn is_kind(a: &TokenKind, b: &TokenKind) -> (r: bool)
    requires
        plain(b@),
    ensures
        r == (a@ == b@),
{
    match (a, b) {
        (TokenKind::Select, TokenKind::Select) => true,
        (TokenKind::Where, TokenKind::Where) => true,
        (TokenKind::Group, TokenKind::Group) => true,
        (TokenKind::Having, TokenKind::Having) => true,
        (TokenKind::Order, TokenKind::Order) => true,
        (TokenKind::By, TokenKind::By) => true,
        (TokenKind::Asc, TokenKind::Asc) => true,
        (TokenKind::Desc, TokenKind::Desc) => true,
        (TokenKind::Limit, TokenKind::Limit) => true,
        (TokenKind::And, TokenKind::And) => true,
        (TokenKind::Or, TokenKind::Or) => true,
        (TokenKind::Not, TokenKind::Not) => true,
        (TokenKind::Like, TokenKind::Like) => true,
        (TokenKind::As, TokenKind::As) => true,
        (TokenKind::Null, TokenKind::Null) => true,
        (TokenKind::Star, TokenKind::Star) => true,
        (TokenKind::Comma, TokenKind::Comma) => true,
        (TokenKind::LParen, TokenKind::LParen) => true,
        (TokenKind::RParen, TokenKind::RParen) => true,
        (TokenKind::Plus, TokenKind::Plus) => true,
        (TokenKind::Minus, TokenKind::Minus) => true,
        (TokenKind::Eq, TokenKind::Eq) => true,
        (TokenKind::Ne, TokenKind::Ne) => true,
        (TokenKind::Lt, TokenKind::Lt) => true,
        (TokenKind::Le, TokenKind::Le) => true,
        (TokenKind::Gt, TokenKind::Gt) => true,
        (TokenKind::Ge, TokenKind::Ge) => true,
        (TokenKind::Eof, TokenKind::Eof) => true,
        _ => false,
    }
}

/// A position in the tokens of a query.
struct Parser<'a> {
    src: &'a str,
    tokens: Vec<Token>,
    pos: usize,
}

/// Whether a value was read as the rules say.
spec fn value_read(
    p: &Parser,
    start: int,
    r: Result<ValueExpr, QueryError>,
    want: Parsed<ValueExprView>,
) -> bool {
    match r {
        Ok(v) => want == Ok::<(ValueExprView, int), Fault>((v@, p.pos as int)) && start < p.pos,
        Err(e) => want == Err::<(ValueExprView, int), Fault>(e.fault()) && e.query@ == p.src@,
    }
}

/// Whether a condition was read as the rules say.
spec fn expr_read(
    p: &Parser,
    start: int,
    r: Result<Expr, QueryError>,
    want: Parsed<ExprView>,
) -> bool {
    match r {
        Ok(v) => want == Ok::<(ExprView, int), Fault>((v@, p.pos as int)) && start < p.pos,
        Err(e) => want == Err::<(ExprView, int), Fault>(e.fault()) && e.query@ == p.src@,
    }
}

impl<'a> Parser<'a> {
    spec fn row(&self) -> Seq<Tok> {
        toks(self.tokens@)
    }

    spec fn wf(&self) -> bool {
        &&& closed_row(self.row())
        &&& self.pos < self.tokens@.len()
        &&& self.src@.len() < usize::MAX
        &&& tokens_of(self.src@) == Ok::<Seq<Tok>, Fault>(self.row())
    }

    spec fn moved(&self, other: &Parser<'a>) -> bool {
        self.src == other.src && self.tokens == other.tokens && self.wf()
    }

    spec fn left(&self) -> int {
        self.tokens@.len() - self.pos
    }

    /// The token that comes next.
    fn peek(&self) -> (r: &Token)
        requires
            self.wf(),
        ensures
            r@ == self.row()[self.pos as int],
            *r == self.tokens@[self.pos as int],
    {
        &self.tokens[self.pos]
    }

    /// Takes the next token, where it is not the end of the query.
    fn bump(&mut self)
        requires
            old(self).wf(),
            old(self).row()[old(self).pos as int].kind !is Eof,
        ensures
            final(self).moved(old(self)),
            final(self).pos == old(self).pos + 1,
    {
        assert(self.row().len() == self.tokens.len());
        self.pos += 1;
    }

    /// Whether a token comes next that has nothing inside it.
    fn at(&self, kind: &TokenKind) -> (r: bool)
        requires
            self.wf(),
            plain(kind@),
        ensures
            r == stands(self.row(), self.pos as int, kind@),
    {
        is_kind(&self.tokens[self.pos].kind, kind)
    }

    /// Whether a token comes behind the next that has nothing inside it.
    fn at_second(&self, kind: &TokenKind) -> (r: bool)
        requires
            self.wf(),
            plain(kind@),
        ensures
            r == stands(self.row(), self.pos + 1, kind@),
    {
        self.pos < self.tokens.len() - 1 && is_kind(&self.tokens[self.pos + 1].kind, kind)
    }

    /// Takes the next token where it is of a kind.
    fn eat(&mut self, kind: &TokenKind) -> (r: bool)
        requires
            old(self).wf(),
            plain(kind@),
            kind@ !is Eof,
        ensures
            final(self).moved(old(self)),
            r == stands(old(self).row(), old(self).pos as int, kind@),
            final(self).pos == old(self).pos + (if r { 1int } else { 0int }),
    {
        if self.at(kind) {
            self.bump();
            true
        } else {
            false
        }
    }

    fn fail(&self, message: String, col: usize) -> (r: QueryError)
        ensures
            r.fault() == (Fault { message: message@, col: col as int }),
            r.query@ == self.src@,
    {
        QueryError::new(message, col, self.src)
    }

    /// The error of a token that is not what was expected.
    fn err_here(&self, expected: &str) -> (r: QueryError)
        requires
            self.wf(),
        ensures
            r.fault() == unexpected(self.row(), self.pos as int, expected@),
            r.query@ == self.src@,
    {
        let t = self.peek();
        let mut out: Vec<char> = Vec::new();
        push_text(&mut out, "expected ");
        push_text(&mut out, expected);
        push_text(&mut out, ", found ");
        t.kind.push_name(&mut out);
        assert(out@ =~= "expected "@ + expected@ + ", found "@ + kind_text(t.kind@));
        self.fail(string_of(&out), t.col)
    }

    /// Takes the next token, which is to be of a kind.
    fn expect(&mut self, kind: &TokenKind, expected: &str) -> (r: Result<(), QueryError>)
        requires
            old(self).wf(),
            plain(kind@),
            kind@ !is Eof,
        ensures
            final(self).moved(old(self)),
            match r {
                Ok(_) => expect_at(old(self).row(), old(self).pos as int, kind@, expected@) == Ok::<
                    int,
                    Fault,
                >(final(self).pos as int) && final(self).pos == old(self).pos + 1,
                Err(e) => expect_at(old(self).row(), old(self).pos as int, kind@, expected@)
                    == Err::<int, Fault>(e.fault()) && e.query@ == old(self).src@,
            },
    {
        if self.eat(kind) {
            Ok(())
        } else {
            Err(self.err_here(expected))
        }
    }

    fn peek_arith(&self) -> (r: Option<ArithOp>)
        requires
            self.wf(),
        ensures
            r == arith_at(self.row(), self.pos as int),
    {
        match self.peek().kind {
            TokenKind::Plus => Some(ArithOp::Add),
            TokenKind::Minus => Some(ArithOp::Sub),
            _ => None,
        }
    }

    fn peek_comparison(&self) -> (r: Option<CmpOp>)
        requires
            self.wf(),
        ensures
            r == comparison_at(self.row(), self.pos as int),
    {
        match self.peek().kind {
            TokenKind::Eq => Some(CmpOp::Eq),
            TokenKind::Ne => Some(CmpOp::Ne),
            TokenKind::Lt => Some(CmpOp::Lt),
            TokenKind::Le => Some(CmpOp::Le),
            TokenKind::Gt => Some(CmpOp::Gt),
            TokenKind::Ge => Some(CmpOp::Ge),
            _ => None,
        }
    }

    /// A value, with any `+` and `-` applied to it.
    fn parse_value(&mut self, expected: &str) -> (r: Result<ValueExpr, QueryError>)
        requires
            old(self).wf(),
        ensures
            final(self).moved(old(self)),
            value_read(
                final(self),
                old(self).pos as int,
                r,
                value_at(old(self).row(), old(self).pos as int, expected@),
            ),
        decreases old(self).left(), 3int,
    {
        let ghost t = self.row();
        let ghost start = self.pos as int;
        let mut left = match self.parse_atom(expected) {
            Ok(v) => v,
            Err(e) => {
                return Err(e);
            },
        };
        let ghost goal = value_at(t, start, expected@);
        loop
            invariant
                self.moved(old(self)),
                t == self.row(),
                start == old(self).pos,
                start < self.pos,
                goal == value_at(t, start, expected@),
                goal == sum_from(t, self.pos as int, left@),
            decreases self.left(),
        {
            let op = match self.peek_arith() {
                Some(op) => op,
                None => {
                    return Ok(left);
                },
            };
            self.bump();
            let right = match self.parse_atom("a value after the operator") {
                Ok(v) => v,
                Err(e) => {
                    return Err(e);
                },
            };
            left = ValueExpr::Arith { op, left: Box::new(left), right: Box::new(right) };
        }
    }

    /// One value: a call, a field, a literal, or a sum in brackets.
    fn parse_atom(&mut self, expected: &str) -> (r: Result<ValueExpr, QueryError>)
        requires
            old(self).wf(),
        ensures
            final(self).moved(old(self)),
            value_read(
                final(self),
                old(self).pos as int,
                r,
                atom_at(old(self).row(), old(self).pos as int, expected@),
            ),
        decreases old(self).left(), 2int,
    {
        if self.eat(&TokenKind::LParen) {
            let inner = match self.parse_value(expected) {
                Ok(v) => v,
                Err(e) => {
                    return Err(e);
                },
            };
            return match self.expect(&TokenKind::RParen, "`)` to close the group") {
                Ok(_) => Ok(inner),
                Err(e) => Err(e),
            };
        }
        let value = match &self.peek().kind {
            TokenKind::Ident(name) => {
                if self.at_second(&TokenKind::LParen) {
                    let name = name.clone();
                    return self.parse_call(name);
                }
                ValueExpr::Field(Path::new(name.as_str()))
            },
            TokenKind::Str(s) => ValueExpr::Lit(Literal::Str(s.clone())),
            TokenKind::Num(n) => ValueExpr::Lit(Literal::Num(*n)),
            TokenKind::Duration(n) => ValueExpr::Lit(Literal::Duration(*n)),
            TokenKind::Bool(b) => ValueExpr::Lit(Literal::Bool(*b)),
            TokenKind::Null => ValueExpr::Lit(Literal::Null),
            _ => {
                return Err(self.err_here(expected));
            },
        };
        self.bump();
        Ok(value)
    }

    /// A call of a function or an aggregate, whose name and bracket come next.
    fn parse_call(&mut self, name: String) -> (r: Result<ValueExpr, QueryError>)
        requires
            old(self).wf(),
            old(self).row()[old(self).pos as int].kind == Kind::Ident(name@),
            stands(old(self).row(), old(self).pos + 1, Kind::LParen),
        ensures
            final(self).moved(old(self)),
            value_read(
                final(self),
                old(self).pos as int,
                r,
                call_at(old(self).row(), old(self).pos as int, name@),
            ),
        decreases old(self).left(), 1int,
    {
        let ghost t = self.row();
        let ghost start = self.pos as int;
        match Agg::parse(name.as_str()) {
            Some(agg) => {
                return self.parse_agg(agg);
            },
            None => {},
        }
        let col: usize = self.peek().col;
        let func = match Func::parse(name.as_str()) {
            Some(f) => f,
            None => {
                let mut out: Vec<char> = Vec::new();
                push_text(&mut out, "unknown function `");
                push_text(&mut out, name.as_str());
                push_text(&mut out, "`");
                assert(out@ =~= "unknown function `"@ + name@ + "`"@);
                return Err(self.fail(string_of(&out), col));
            },
        };
        self.bump();
        self.bump();
        let args = if self.eat(&TokenKind::RParen) {
            let none: Vec<ValueExpr> = Vec::new();
            assert(exprs_view(none@) =~= Seq::<ValueExprView>::empty());
            none
        } else {
            match self.parse_args() {
                Ok(args) => args,
                Err(e) => {
                    return Err(e);
                },
            }
        };
        let (min, max) = func.arity();
        let too_many = match max {
            Some(m) => args.len() > m,
            None => false,
        };
        if args.len() < min || too_many {
            let mut out: Vec<char> = Vec::new();
            push_text(&mut out, "`");
            push_text(&mut out, func.name());
            push_text(&mut out, "` takes ");
            push_text(&mut out, describe_arity(min, max).as_str());
            push_text(&mut out, ", but ");
            push_nat(&mut out, args.len() as u64);
            push_text(&mut out, if args.len() == 1 { " was given" } else { " were given" });
            assert(out@ =~= arity_fault(func, args@.len(), col as int)->0.message);
            return Err(self.fail(string_of(&out), col));
        }
        proof {
            lemma_call_view(func, args);
        }
        Ok(ValueExpr::Call { func, args })
    }

    /// The arguments of a call, up to the bracket that closes it.
    fn parse_args(&mut self) -> (r: Result<Vec<ValueExpr>, QueryError>)
        requires
            old(self).wf(),
        ensures
            final(self).moved(old(self)),
            match r {
                Ok(args) => args_from(old(self).row(), old(self).pos as int, Seq::empty()) == Ok::<
                    (Seq<ValueExprView>, int),
                    Fault,
                >((exprs_view(args@), final(self).pos as int)) && old(self).pos < final(self).pos,
                Err(e) => args_from(old(self).row(), old(self).pos as int, Seq::empty()) == Err::<
                    (Seq<ValueExprView>, int),
                    Fault,
                >(e.fault()) && e.query@ == old(self).src@,
            },
        decreases old(self).left(), 4int,
    {
        let ghost t = self.row();
        let mut args: Vec<ValueExpr> = Vec::new();
        let ghost goal = args_from(t, self.pos as int, Seq::empty());
        assert(exprs_view(args@) =~= Seq::<ValueExprView>::empty());
        loop
            invariant
                self.moved(old(self)),
                t == self.row(),
                old(self).pos <= self.pos,
                goal == args_from(t, old(self).pos as int, Seq::empty()),
                goal == args_from(t, self.pos as int, exprs_view(args@)),
            decreases self.left(),
        {
            let ghost before = exprs_view(args@);
            let arg = match self.parse_value("an argument") {
                Ok(v) => v,
                Err(e) => {
                    return Err(e);
                },
            };
            args.push(arg);
            assert(exprs_view(args@) =~= before.push(arg@));
            if !self.eat(&TokenKind::Comma) {
                return match self.expect(
                    &TokenKind::RParen,
                    "`,` or `)` to close the argument list",
                ) {
                    Ok(_) => Ok(args),
                    Err(e) => Err(e),
                };
            }
        }
    }

    /// An aggregate of one value, or of every record.
    fn parse_agg(&mut self, agg: Agg) -> (r: Result<ValueExpr, QueryError>)
        requires
            old(self).wf(),
            old(self).row()[old(self).pos as int].kind is Ident,
            stands(old(self).row(), old(self).pos + 1, Kind::LParen),
        ensures
            final(self).moved(old(self)),
            value_read(
                final(self),
                old(self).pos as int,
                r,
                agg_at(old(self).row(), old(self).pos as int, agg),
            ),
        decreases old(self).left(), 0int,
    {
        let col: usize = self.peek().col;
        self.bump();
        self.bump();
        let arg = if self.eat(&TokenKind::Star) {
            if !agg.accepts_star() {
                let mut out: Vec<char> = Vec::new();
                push_text(&mut out, "`");
                push_text(&mut out, agg.name());
                push_text(&mut out, "(*)` is not meaningful; give it a value to fold");
                assert(out@ =~= "`"@ + agg_name(agg)
                    + "(*)` is not meaningful; give it a value to fold"@);
                return Err(self.fail(string_of(&out), col));
            }
            None
        } else {
            let value = match self.parse_value("a value or `*` inside the aggregate") {
                Ok(v) => v,
                Err(e) => {
                    return Err(e);
                },
            };
            if value.has_aggregate() {
                return Err(self.fail("aggregates do not nest".to_string(), col));
            }
            Some(Box::new(value))
        };
        match self.expect(&TokenKind::RParen, "`)` to close the aggregate") {
            Ok(_) => Ok(ValueExpr::Agg { agg, arg }),
            Err(e) => Err(e),
        }
    }
}

/// How many arguments a function takes, in words.
pub fn describe_arity(min: usize, max: Option<usize>) -> (r: String)
    ensures
        r@ == arity_text(
            min as nat,
            match max {
                Some(m) => Some(m as nat),
                None => None,
            },
        ),
{
    let mut out: Vec<char> = Vec::new();
    let noun = if min == 1 {
        "argument"
    } else {
        "arguments"
    };
    match max {
        Some(m) => {
            push_nat(&mut out, min as u64);
            if m == min {
                push_text(&mut out, " ");
                push_text(&mut out, noun);
            } else {
                push_text(&mut out, " to ");
                push_nat(&mut out, m as u64);
                push_text(&mut out, " arguments");
            }
        },
        None => {
            push_text(&mut out, "at least ");
            push_nat(&mut out, min as u64);
            push_text(&mut out, " ");
            push_text(&mut out, noun);
        },
    }
    let ghost want = arity_text(
        min as nat,
        match max {
            Some(m) => Some(m as nat),
            None => None,
        },
    );
    assert(out@ =~= want);
    string_of(&out)
}

impl<'a> Parser<'a> {
    /// A condition: parts joined by `or`.
    fn parse_or(&mut self) -> (r: Result<Expr, QueryError>)
        requires
            old(self).wf(),
        ensures
            final(self).moved(old(self)),
            expr_read(
                final(self),
                old(self).pos as int,
                r,
                or_at(old(self).row(), old(self).pos as int),
            ),
        decreases old(self).left(), 6int,
    {
        let ghost t = self.row();
        let mut left = match self.parse_and() {
            Ok(v) => v,
            Err(e) => {
                return Err(e);
            },
        };
        let ghost goal = or_at(t, old(self).pos as int);
        while self.at(&TokenKind::Or)
            invariant
                self.moved(old(self)),
                t == self.row(),
                old(self).pos < self.pos,
                goal == or_at(t, old(self).pos as int),
                goal == or_from(t, self.pos as int, left@),
            decreases self.left(),
        {
            self.bump();
            let right = match self.parse_and() {
                Ok(v) => v,
                Err(e) => {
                    return Err(e);
                },
            };
            left = Expr::Or(Box::new(left), Box::new(right));
        }
        Ok(left)
    }

    /// Conditions joined by `and`.
    fn parse_and(&mut self) -> (r: Result<Expr, QueryError>)
        requires
            old(self).wf(),
        ensures
            final(self).moved(old(self)),
            expr_read(
                final(self),
                old(self).pos as int,
                r,
                and_at(old(self).row(), old(self).pos as int),
            ),
        decreases old(self).left(), 5int,
    {
        let ghost t = self.row();
        let mut left = match self.parse_not() {
            Ok(v) => v,
            Err(e) => {
                return Err(e);
            },
        };
        let ghost goal = and_at(t, old(self).pos as int);
        while self.at(&TokenKind::And)
            invariant
                self.moved(old(self)),
                t == self.row(),
                old(self).pos < self.pos,
                goal == and_at(t, old(self).pos as int),
                goal == and_from(t, self.pos as int, left@),
            decreases self.left(),
        {
            self.bump();
            let right = match self.parse_not() {
                Ok(v) => v,
                Err(e) => {
                    return Err(e);
                },
            };
            left = Expr::And(Box::new(left), Box::new(right));
        }
        Ok(left)
    }

    /// A condition with any number of `not` before it.
    fn parse_not(&mut self) -> (r: Result<Expr, QueryError>)
        requires
            old(self).wf(),
        ensures
            final(self).moved(old(self)),
            expr_read(
                final(self),
                old(self).pos as int,
                r,
                not_at(old(self).row(), old(self).pos as int),
            ),
        decreases old(self).left(), 4int,
    {
        if self.eat(&TokenKind::Not) {
            match self.parse_not() {
                Ok(inner) => Ok(Expr::Not(Box::new(inner))),
                Err(e) => Err(e),
            }
        } else {
            self.parse_predicate()
        }
    }

    /// A comparison or a match of a value that has been read, or the bare value.
    #[verifier::rlimit(30)]
    fn parse_compared(&mut self, left: ValueExpr) -> (r: Result<Expr, QueryError>)
        requires
            old(self).wf(),
            old(self).pos > 0,
        ensures
            final(self).moved(old(self)),
            expr_read(
                final(self),
                old(self).pos - 1,
                r,
                compared_at(old(self).row(), old(self).pos as int, left@),
            ),
    {
        match self.peek_comparison() {
            Some(op) => {
                self.bump();
                return match self.parse_value("a field name, a function or a literal value") {
                    Ok(right) => Ok(Expr::Compare { op, left, right }),
                    Err(e) => Err(e),
                };
            },
            None => {},
        }
        if self.eat(&TokenKind::Like) {
            return match self.parse_value("a pattern after `like`") {
                Ok(pattern) => Ok(Expr::Like { left, pattern, negated: false }),
                Err(e) => Err(e),
            };
        }
        if self.at(&TokenKind::Not) && self.at_second(&TokenKind::Like) {
            self.bump();
            self.bump();
            return match self.parse_value("a pattern after `not like`") {
                Ok(pattern) => Ok(Expr::Like { left, pattern, negated: true }),
                Err(e) => Err(e),
            };
        }
        Ok(Expr::Truthy(left))
    }

    /// A comparison, a match, a bare value, or a condition in brackets.
    #[verifier::rlimit(30)]
    fn parse_predicate(&mut self) -> (r: Result<Expr, QueryError>)
        requires
            old(self).wf(),
        ensures
            final(self).moved(old(self)),
            expr_read(
                final(self),
                old(self).pos as int,
                r,
                predicate_at(old(self).row(), old(self).pos as int),
            ),
        decreases old(self).left(), 3int,
    {
        let start: usize = self.pos;
        let fault = match self.parse_value("a field name, a function or a literal value") {
            Ok(left) => {
                return self.parse_compared(left);
            },
            Err(e) => e,
        };
        self.pos = start;
        if !self.eat(&TokenKind::LParen) {
            return Err(fault);
        }
        match self.parse_or() {
            Ok(inner) => match self.expect(&TokenKind::RParen, "`)` to close the group") {
                Ok(_) => Ok(inner),
                Err(e) => Err(e),
            },
            Err(e) => Err(e),
        }
    }
}

/// One entry of a list, under its alias or under its value as it was typed: the
/// text of the query from the first token of the value to the end of the last.
pub open spec fn item_at(
    s: Seq<char>,
    t: Seq<Tok>,
    p: int,
    expected: Seq<char>,
) -> Parsed<SelectItemView> {
    match value_at(t, p, expected) {
        Err(f) => Err(f),
        Ok((value, q)) => if stands(t, q, Kind::As) {
            match t[q + 1].kind {
                Kind::Ident(name) => Ok((SelectItemView { value, label: name }, q + 2)),
                Kind::Str(name) => Ok((SelectItemView { value, label: name }, q + 2)),
                _ => Err(unexpected(t, q + 1, "a column name after `as`"@)),
            }
        } else {
            Ok((SelectItemView { value, label: typed(s, t[p].col, t[q - 1].col) }, q))
        },
    }
}

/// The rest of a list of entries behind those before, with the column at which
/// each entry starts.
pub open spec fn items_from(
    s: Seq<char>, t: Seq<Tok>,
    p: int,
    before: Seq<SelectItemView>,
    cols: Seq<int>,
) -> Parsed<
    (Seq<SelectItemView>, Seq<int>),
>
    decreases t.len() - p,
{
    if stands(t, p, Kind::Comma) {
        match item_at(s, t, p + 1, "a field name or a function after `,`"@) {
            Err(f) => Err(f),
            Ok((item, q)) => if p < q < t.len() {
                items_from(s, t, q, before.push(item), cols.push(t[p + 1].col))
            } else {
                Err(nowhere())
            },
        }
    } else {
        Ok(((before, cols), p))
    }
}

/// A list of entries, with the column at which each entry starts.
pub open spec fn items_at(s: Seq<char>, t: Seq<Tok>, p: int, expected: Seq<char>) -> Parsed<
    (Seq<SelectItemView>, Seq<int>),
> {
    match item_at(s, t, p, expected) {
        Err(f) => Err(f),
        Ok((item, q)) => items_from(s, t, q, seq![item], seq![t[p].col]),
    }
}

/// What a query selects, with the column at which each entry starts.
pub open spec fn selection_at(
    s: Seq<char>,
    t: Seq<Tok>,
    p: int,
) -> Parsed<(SelectionView, Seq<int>)> {
    if stands(t, p, Kind::Star) {
        Ok(((SelectionView::All, Seq::empty()), p + 1))
    } else {
        match items_at(s, t, p, "`*`, a field name or a function after `select`"@) {
            Err(f) => Err(f),
            Ok(((items, cols), q)) => Ok(((SelectionView::Items(items), cols), q)),
        }
    }
}

/// Whether an aggregate stands in a condition.
pub open spec fn aggregate_in_expr(e: ExprView) -> bool
    decreases e,
{
    match e {
        ExprView::Or(a, b) => aggregate_in_expr(*a) || aggregate_in_expr(*b),
        ExprView::And(a, b) => aggregate_in_expr(*a) || aggregate_in_expr(*b),
        ExprView::Not(a) => aggregate_in_expr(*a),
        ExprView::Compare { op, left, right } => aggregate_in(left) || aggregate_in(right),
        ExprView::Like { left, pattern, negated } => aggregate_in(left) || aggregate_in(pattern),
        ExprView::Truthy(v) => aggregate_in(v),
    }
}

/// The condition on records, in which no aggregate may stand.
pub open spec fn where_at(t: Seq<Tok>, p: int) -> Parsed<Option<ExprView>> {
    if stands(t, p, Kind::Where) {
        match or_at(t, p + 1) {
            Err(f) => Err(f),
            Ok((e, q)) => if aggregate_in_expr(e) {
                Err(
                    Fault {
                        message:
                            "an aggregate cannot appear in `where`; `where` runs before the groups are formed, so use `having` instead"@,
                        col: t[p].col,
                    },
                )
            } else {
                Ok((Some(e), q))
            },
        }
    } else {
        Ok((None, p))
    }
}

/// The values that make a group.
pub open spec fn group_at(s: Seq<char>, t: Seq<Tok>, p: int) -> Parsed<Seq<SelectItemView>> {
    if stands(t, p, Kind::Group) {
        match expect_at(t, p + 1, Kind::By, "`by` after `group`"@) {
            Err(f) => Err(f),
            Ok(q) => match items_at(s, t, q, "a field name or a function after `group by`"@) {
                Err(f) => Err(f),
                Ok(((items, cols), r)) => Ok((items, r)),
            },
        }
    } else {
        Ok((Seq::empty(), p))
    }
}

/// The condition on grouped rows.
pub open spec fn having_at(t: Seq<Tok>, p: int) -> Parsed<Option<ExprView>> {
    if stands(t, p, Kind::Having) {
        match or_at(t, p + 1) {
            Err(f) => Err(f),
            Ok((e, q)) => Ok((Some(e), q)),
        }
    } else {
        Ok((None, p))
    }
}

/// The order of the rows.
pub open spec fn order_at(t: Seq<Tok>, p: int) -> Parsed<Option<OrderByView>> {
    if stands(t, p, Kind::Order) {
        match expect_at(t, p + 1, Kind::By, "`by` after `order`"@) {
            Err(f) => Err(f),
            Ok(q) => match value_at(t, q, "a field name or a function after `order by`"@) {
                Err(f) => Err(f),
                Ok((value, r)) => if stands(t, r, Kind::Desc) {
                    Ok((Some(OrderByView { value, descending: true }), r + 1))
                } else if stands(t, r, Kind::Asc) {
                    Ok((Some(OrderByView { value, descending: false }), r + 1))
                } else {
                    Ok((Some(OrderByView { value, descending: false }), r))
                },
            },
        }
    } else {
        Ok((None, p))
    }
}

/// Whether a number can be a limit.
pub open spec fn countable(n: Num) -> bool {
    n.finite() && n.amount() >= 0 && rest_part(n) == 0
}

/// A whole number as a limit, at most the greatest there is.
pub open spec fn limit_of(n: Num) -> usize {
    if whole_part(n) > usize::MAX {
        usize::MAX
    } else {
        whole_part(n) as usize
    }
}

/// The greatest number of rows.
pub open spec fn limit_at(t: Seq<Tok>, p: int) -> Parsed<Option<usize>> {
    if stands(t, p, Kind::Limit) {
        match t[p + 1].kind {
            Kind::Num(n) => if countable(n) {
                Ok((Some(limit_of(n)), p + 2))
            } else {
                Err(
                    Fault {
                        message: "`limit` requires a non-negative whole number"@,
                        col: t[p + 1].col,
                    },
                )
            },
            _ => Err(unexpected(t, p + 1, "a number after `limit`"@)),
        }
    } else {
        Ok((None, p))
    }
}

/// Whether a value is one of the keys of a grouping.
pub open spec fn is_key(v: ValueExprView, keys: Seq<SelectItemView>) -> bool {
    exists|i: int| 0 <= i < keys.len() && same_expr((#[trigger] keys[i]).value, v)
}

/// Whether the first `n` values are built from keys, aggregates and literals.
pub open spec fn all_grounded(args: Seq<ValueExprView>, n: nat, keys: Seq<SelectItemView>) -> bool
    decreases args, n,
{
    if n == 0 || n > args.len() {
        true
    } else {
        all_grounded(args, (n - 1) as nat, keys) && grounded(args[n - 1], keys)
    }
}

/// Whether a value is built from keys, aggregates and literals alone.
pub open spec fn grounded(v: ValueExprView, keys: Seq<SelectItemView>) -> bool
    decreases v, 0nat,
{
    is_key(v, keys) || match v {
        ValueExprView::Field(_) => false,
        ValueExprView::Lit(_) => true,
        ValueExprView::Agg { agg, arg } => true,
        ValueExprView::Call { func, args } => all_grounded(args, args.len(), keys),
        ValueExprView::Arith { op, left, right } => grounded(*left, keys) && grounded(*right, keys),
    }
}

/// Whether a key or an aggregate stands in one of the first `n` values.
pub open spec fn any_anchored(args: Seq<ValueExprView>, n: nat, keys: Seq<SelectItemView>) -> bool
    decreases args, n,
{
    if n == 0 || n > args.len() {
        false
    } else {
        any_anchored(args, (n - 1) as nat, keys) || anchored(args[n - 1], keys)
    }
}

/// Whether a key or an aggregate stands in a value.
pub open spec fn anchored(v: ValueExprView, keys: Seq<SelectItemView>) -> bool
    decreases v, 0nat,
{
    is_key(v, keys) || match v {
        ValueExprView::Field(_) => false,
        ValueExprView::Lit(_) => false,
        ValueExprView::Agg { agg, arg } => true,
        ValueExprView::Call { func, args } => any_anchored(args, args.len(), keys),
        ValueExprView::Arith { op, left, right } => anchored(*left, keys) || anchored(*right, keys),
    }
}

/// Whether a value is determined by the grouping: a key, an aggregate, or a
/// function of those.
pub open spec fn determined(v: ValueExprView, keys: Seq<SelectItemView>) -> bool {
    grounded(v, keys) && anchored(v, keys)
}

/// The fault of the first entry from `i` on that the grouping does not
/// determine.
pub open spec fn undetermined_from(
    items: Seq<SelectItemView>,
    keys: Seq<SelectItemView>,
    cols: Seq<int>,
    i: int,
) -> Option<Fault>
    decreases items.len() - i,
{
    if !(0 <= i < items.len()) {
        None
    } else if determined(items[i].value, keys) {
        undetermined_from(items, keys, cols, i + 1)
    } else {
        Some(
            Fault {
                message: "`"@ + expr_text(items[i].value)
                    + "` is neither a group key nor an aggregate; add it to `group by` or wrap it in an aggregate"@,
                col: cols[i],
            },
        )
    }
}

/// What keeps a query from being grouped as it is written.
pub open spec fn grouping_fault(q: QueryView, select_col: int, cols: Seq<int>) -> Option<Fault> {
    if !grouped(q) {
        None
    } else {
        match q.select {
            SelectionView::All => Some(
                Fault {
                    message:
                        "`select *` cannot be grouped; name the group keys and the aggregates you want"@,
                    col: select_col,
                },
            ),
            SelectionView::Items(items) => undetermined_from(items, q.group_by, cols, 0),
        }
    }
}

/// A query, clause by clause.
pub open spec fn query_at(s: Seq<char>, t: Seq<Tok>, p: int) -> Parsed<QueryView> {
    match expect_at(t, p, Kind::Select, "`select` at the start of the query"@) {
        Err(f) => Err(f),
        Ok(p1) => match selection_at(s, t, p1) {
            Err(f) => Err(f),
            Ok(((select, cols), p2)) => match where_at(t, p2) {
                Err(f) => Err(f),
                Ok((filter, p3)) => match group_at(s, t, p3) {
                    Err(f) => Err(f),
                    Ok((group_by, p4)) => match having_at(t, p4) {
                        Err(f) => Err(f),
                        Ok((having, p5)) => match order_at(t, p5) {
                            Err(f) => Err(f),
                            Ok((order_by, p6)) => match limit_at(t, p6) {
                                Err(f) => Err(f),
                                Ok((limit, p7)) => {
                                    let q = QueryView {
                                        select,
                                        filter,
                                        group_by,
                                        having,
                                        order_by,
                                        limit,
                                    };
                                    match grouping_fault(q, t[p1].col, cols) {
                                        Some(f) => Err(f),
                                        None => Ok((q, p7)),
                                    }
                                },
                            },
                        },
                    },
                },
            },
        },
    }
}

/// What stands in the tokens, if nothing follows it.
pub open spec fn whole_row<T>(t: Seq<Tok>, parsed: Parsed<T>) -> Result<T, Fault> {
    match parsed {
        Err(f) => Err(f),
        Ok((x, p)) => if stands(t, p, Kind::Eof) {
            Ok(x)
        } else {
            Err(unexpected(t, p, "end of query"@))
        },
    }
}

/// The query that a text writes.
pub open spec fn query_in(text: Seq<char>) -> Result<QueryView, Fault> {
    match tokens_of(text) {
        Err(f) => Err(f),
        Ok(t) => whole_row(t, query_at(text, t, 0)),
    }
}

/// The condition that a text writes.
pub open spec fn expr_in(text: Seq<char>) -> Result<ExprView, Fault> {
    match tokens_of(text) {
        Err(f) => Err(f),
        Ok(t) => whole_row(t, or_at(t, 0)),
    }
}

/// Columns as integers.
spec fn cols_view(cols: Seq<usize>) -> Seq<int> {
    Seq::new(cols.len(), |i: int| cols[i] as int)
}

/// Whether an aggregate stands in a condition.
pub fn expr_has_aggregate(e: &Expr) -> (r: bool)
    ensures
        r == aggregate_in_expr(e@),
    decreases e,
{
    match e {
        Expr::Or(a, b) => expr_has_aggregate(a) || expr_has_aggregate(b),
        Expr::And(a, b) => expr_has_aggregate(a) || expr_has_aggregate(b),
        Expr::Not(a) => expr_has_aggregate(a),
        Expr::Compare { op, left, right } => left.has_aggregate() || right.has_aggregate(),
        Expr::Like { left, pattern, negated } => left.has_aggregate() || pattern.has_aggregate(),
        Expr::Truthy(v) => v.has_aggregate(),
    }
}

/// Whether a value is one of the keys of a grouping.
pub fn is_group_key(v: &ValueExpr, keys: &Vec<SelectItem>) -> (r: bool)
    ensures
        r == is_key(v@, items_view(keys@)),
{
    let mut i: usize = 0;
    while i < keys.len()
        invariant
            i <= keys@.len(),
            forall|j: int| 0 <= j < i ==> !same_expr((#[trigger] items_view(keys@)[j]).value, v@),
        decreases keys.len() - i,
    {
        if keys[i].value.same(v) {
            assert(same_expr(items_view(keys@)[i as int].value, v@));
            return true;
        }
        i += 1;
    }
    false
}

fn args_are_grounded(args: &Vec<ValueExpr>, keys: &Vec<SelectItem>) -> (r: bool)
    ensures
        r == all_grounded(exprs_view(args@), args@.len(), items_view(keys@)),
    decreases args, 0nat,
{
    let mut i: usize = 0;
    let mut all = true;
    while i < args.len()
        invariant
            i <= args@.len(),
            all == all_grounded(exprs_view(args@), i as nat, items_view(keys@)),
        decreases args.len() - i,
    {
        assert(decreases_to!(args => args@[i as int]));
        all = is_grounded(&args[i], keys) && all;
        i += 1;
    }
    all
}

fn is_grounded(v: &ValueExpr, keys: &Vec<SelectItem>) -> (r: bool)
    ensures
        r == grounded(v@, items_view(keys@)),
    decreases v, 0nat,
{
    if is_group_key(v, keys) {
        return true;
    }
    match v {
        ValueExpr::Field(_) => false,
        ValueExpr::Lit(_) => true,
        ValueExpr::Agg { .. } => true,
        ValueExpr::Call { func, args } => {
            proof {
                lemma_call_view(*func, *args);
            }
            args_are_grounded(args, keys)
        },
        ValueExpr::Arith { op, left, right } => is_grounded(left, keys) && is_grounded(right, keys),
    }
}

fn args_are_anchored(args: &Vec<ValueExpr>, keys: &Vec<SelectItem>) -> (r: bool)
    ensures
        r == any_anchored(exprs_view(args@), args@.len(), items_view(keys@)),
    decreases args, 0nat,
{
    let mut i: usize = 0;
    let mut any = false;
    while i < args.len()
        invariant
            i <= args@.len(),
            any == any_anchored(exprs_view(args@), i as nat, items_view(keys@)),
        decreases args.len() - i,
    {
        assert(decreases_to!(args => args@[i as int]));
        any = is_anchored(&args[i], keys) || any;
        i += 1;
    }
    any
}

fn is_anchored(v: &ValueExpr, keys: &Vec<SelectItem>) -> (r: bool)
    ensures
        r == anchored(v@, items_view(keys@)),
    decreases v, 0nat,
{
    if is_group_key(v, keys) {
        return true;
    }
    match v {
        ValueExpr::Field(_) => false,
        ValueExpr::Lit(_) => false,
        ValueExpr::Agg { .. } => true,
        ValueExpr::Call { func, args } => {
            proof {
                lemma_call_view(*func, *args);
            }
            args_are_anchored(args, keys)
        },
        ValueExpr::Arith { op, left, right } => is_anchored(left, keys) || is_anchored(right, keys),
    }
}

/// Whether a value is determined by the grouping.
pub fn is_determined(v: &ValueExpr, keys: &Vec<SelectItem>) -> (r: bool)
    ensures
        r == determined(v@, items_view(keys@)),
{
    is_grounded(v, keys) && is_anchored(v, keys)
}

impl<'a> Parser<'a> {
    /// One entry, with an optional alias.
    fn parse_select_item(&mut self, expected: &str) -> (r: Result<SelectItem, QueryError>)
        requires
            old(self).wf(),
        ensures
            final(self).moved(old(self)),
            match r {
                Ok(item) => item_at(old(self).src@, old(self).row(), old(self).pos as int, expected@) == Ok::<
                    (SelectItemView, int),
                    Fault,
                >((item@, final(self).pos as int)) && old(self).pos < final(self).pos,
                Err(e) => item_at(old(self).src@, old(self).row(), old(self).pos as int, expected@) == Err::<
                    (SelectItemView, int),
                    Fault,
                >(e.fault()) && e.query@ == old(self).src@,
            },
    {
        let first: usize = self.pos;
        let value = match self.parse_value(expected) {
            Ok(v) => v,
            Err(e) => {
                return Err(e);
            },
        };
        if !self.at(&TokenKind::As) {
            let last: usize = self.pos - 1;
            proof {
                let t = self.row();
                law_tokens_are_in_order(self.src@);
                law_tokens_stand_at_their_columns(self.src@);
                assert(follows(self.src@, t[last as int], t[self.pos as int]));
                assert(t[first as int].col <= t[last as int].col);
            }
            let label = typed_text(self.src, self.tokens[first].col, self.tokens[last].col);
            return Ok(SelectItem { value, label });
        }
        self.bump();
        let label = match &self.peek().kind {
            TokenKind::Ident(name) => name.clone(),
            TokenKind::Str(name) => name.clone(),
            _ => {
                return Err(self.err_here("a column name after `as`"));
            },
        };
        self.bump();
        Ok(SelectItem { value, label })
    }

    /// A list of entries, with the column at which each starts.
    fn parse_items(&mut self, expected: &str) -> (r: Result<(Vec<SelectItem>, Vec<usize>), QueryError>)
        requires
            old(self).wf(),
        ensures
            final(self).moved(old(self)),
            match r {
                Ok((items, cols)) => items_at(old(self).src@, old(self).row(), old(self).pos as int, expected@)
                    == Ok::<((Seq<SelectItemView>, Seq<int>), int), Fault>(
                    ((items_view(items@), cols_view(cols@)), final(self).pos as int),
                ) && items@.len() == cols@.len(),
                Err(e) => items_at(old(self).src@, old(self).row(), old(self).pos as int, expected@) == Err::<
                    ((Seq<SelectItemView>, Seq<int>), int),
                    Fault,
                >(e.fault()) && e.query@ == old(self).src@,
            },
    {
        let ghost s = self.src@;
        let ghost t = self.row();
        let ghost goal = items_at(s, t, self.pos as int, expected@);
        let mut cols: Vec<usize> = Vec::new();
        cols.push(self.peek().col);
        let mut items: Vec<SelectItem> = Vec::new();
        match self.parse_select_item(expected) {
            Ok(item) => {
                items.push(item);
                assert(items_view(items@) =~= seq![item@]);
            },
            Err(e) => {
                return Err(e);
            },
        }
        assert(cols_view(cols@) =~= seq![t[old(self).pos as int].col]);
        while self.at(&TokenKind::Comma)
            invariant
                self.moved(old(self)),
                s == self.src@,
                t == self.row(),
                items@.len() == cols@.len(),
                goal == items_at(s, t, old(self).pos as int, expected@),
                goal == items_from(s, t, self.pos as int, items_view(items@), cols_view(cols@)),
            decreases self.left(),
        {
            let ghost items0 = items_view(items@);
            let ghost cols0 = cols_view(cols@);
            self.bump();
            let col: usize = self.peek().col;
            cols.push(col);
            assert(cols_view(cols@) =~= cols0.push(col as int));
            match self.parse_select_item("a field name or a function after `,`") {
                Ok(item) => {
                    items.push(item);
                    assert(items_view(items@) =~= items0.push(item@));
                },
                Err(e) => {
                    return Err(e);
                },
            }
        }
        Ok((items, cols))
    }

    fn parse_selection(&mut self) -> (r: Result<(Selection, Vec<usize>), QueryError>)
        requires
            old(self).wf(),
        ensures
            final(self).moved(old(self)),
            match r {
                Ok((select, cols)) => selection_at(old(self).src@, old(self).row(), old(self).pos as int) == Ok::<
                    ((SelectionView, Seq<int>), int),
                    Fault,
                >(((select@, cols_view(cols@)), final(self).pos as int)) && (
                select matches Selection::Items(items) ==> items@.len() == cols@.len()),
                Err(e) => selection_at(old(self).src@, old(self).row(), old(self).pos as int) == Err::<
                    ((SelectionView, Seq<int>), int),
                    Fault,
                >(e.fault()) && e.query@ == old(self).src@,
            },
    {
        if self.eat(&TokenKind::Star) {
            let cols: Vec<usize> = Vec::new();
            assert(cols_view(cols@) =~= Seq::<int>::empty());
            return Ok((Selection::All, cols));
        }
        match self.parse_items("`*`, a field name or a function after `select`") {
            Ok((items, cols)) => Ok((Selection::Items(items), cols)),
            Err(e) => Err(e),
        }
    }

    fn parse_where(&mut self) -> (r: Result<Option<Expr>, QueryError>)
        requires
            old(self).wf(),
        ensures
            final(self).moved(old(self)),
            match r {
                Ok(filter) => where_at(old(self).row(), old(self).pos as int) == Ok::<
                    (Option<ExprView>, int),
                    Fault,
                >((crate::ast::expr_opt(filter), final(self).pos as int)),
                Err(e) => where_at(old(self).row(), old(self).pos as int) == Err::<
                    (Option<ExprView>, int),
                    Fault,
                >(e.fault()) && e.query@ == old(self).src@,
            },
    {
        let col: usize = self.peek().col;
        if !self.eat(&TokenKind::Where) {
            return Ok(None);
        }
        match self.parse_or() {
            Ok(e) => if expr_has_aggregate(&e) {
                Err(
                    self.fail(
                        "an aggregate cannot appear in `where`; `where` runs before the groups are formed, so use `having` instead".to_string(),
                        col,
                    ),
                )
            } else {
                Ok(Some(e))
            },
            Err(e) => Err(e),
        }
    }

    fn parse_group(&mut self) -> (r: Result<Vec<SelectItem>, QueryError>)
        requires
            old(self).wf(),
        ensures
            final(self).moved(old(self)),
            match r {
                Ok(keys) => group_at(old(self).src@, old(self).row(), old(self).pos as int) == Ok::<
                    (Seq<SelectItemView>, int),
                    Fault,
                >((items_view(keys@), final(self).pos as int)),
                Err(e) => group_at(old(self).src@, old(self).row(), old(self).pos as int) == Err::<
                    (Seq<SelectItemView>, int),
                    Fault,
                >(e.fault()) && e.query@ == old(self).src@,
            },
    {
        if !self.eat(&TokenKind::Group) {
            let none: Vec<SelectItem> = Vec::new();
            assert(items_view(none@) =~= Seq::<SelectItemView>::empty());
            return Ok(none);
        }
        match self.expect(&TokenKind::By, "`by` after `group`") {
            Ok(_) => {},
            Err(e) => {
                return Err(e);
            },
        }
        match self.parse_items("a field name or a function after `group by`") {
            Ok((items, _)) => Ok(items),
            Err(e) => Err(e),
        }
    }

    fn parse_having(&mut self) -> (r: Result<Option<Expr>, QueryError>)
        requires
            old(self).wf(),
        ensures
            final(self).moved(old(self)),
            match r {
                Ok(having) => having_at(old(self).row(), old(self).pos as int) == Ok::<
                    (Option<ExprView>, int),
                    Fault,
                >((crate::ast::expr_opt(having), final(self).pos as int)),
                Err(e) => having_at(old(self).row(), old(self).pos as int) == Err::<
                    (Option<ExprView>, int),
                    Fault,
                >(e.fault()) && e.query@ == old(self).src@,
            },
    {
        if !self.eat(&TokenKind::Having) {
            return Ok(None);
        }
        match self.parse_or() {
            Ok(e) => Ok(Some(e)),
            Err(e) => Err(e),
        }
    }

    fn parse_order(&mut self) -> (r: Result<Option<OrderBy>, QueryError>)
        requires
            old(self).wf(),
        ensures
            final(self).moved(old(self)),
            match r {
                Ok(order) => order_at(old(self).row(), old(self).pos as int) == Ok::<
                    (Option<OrderByView>, int),
                    Fault,
                >((crate::ast::order_opt(order), final(self).pos as int)),
                Err(e) => order_at(old(self).row(), old(self).pos as int) == Err::<
                    (Option<OrderByView>, int),
                    Fault,
                >(e.fault()) && e.query@ == old(self).src@,
            },
    {
        if !self.eat(&TokenKind::Order) {
            return Ok(None);
        }
        match self.expect(&TokenKind::By, "`by` after `order`") {
            Ok(_) => {},
            Err(e) => {
                return Err(e);
            },
        }
        match self.parse_value("a field name or a function after `order by`") {
            Ok(value) => {
                let descending = self.eat(&TokenKind::Desc);
                if !descending {
                    let _ = self.eat(&TokenKind::Asc);
                }
                Ok(Some(OrderBy { value, descending }))
            },
            Err(e) => Err(e),
        }
    }

    fn parse_limit(&mut self) -> (r: Result<Option<usize>, QueryError>)
        requires
            old(self).wf(),
        ensures
            final(self).moved(old(self)),
            match r {
                Ok(limit) => limit_at(old(self).row(), old(self).pos as int) == Ok::<
                    (Option<usize>, int),
                    Fault,
                >((limit, final(self).pos as int)),
                Err(e) => limit_at(old(self).row(), old(self).pos as int) == Err::<
                    (Option<usize>, int),
                    Fault,
                >(e.fault()) && e.query@ == old(self).src@,
            },
    {
        if !self.eat(&TokenKind::Limit) {
            return Ok(None);
        }
        let limit: usize = match self.peek().kind {
            TokenKind::Num(n) => {
                let low = n.is_neg() && !n.is_zero();
                if n.is_finite() && !low && n.is_whole() {
                    n.abs().to_usize()
                } else {
                    let col: usize = self.peek().col;
                    return Err(
                        self.fail("`limit` requires a non-negative whole number".to_string(), col),
                    );
                }
            },
            _ => {
                return Err(self.err_here("a number after `limit`"));
            },
        };
        self.bump();
        Ok(Some(limit))
    }

    /// Refuses a query that selects what its grouping does not determine.
    fn check_grouping(&self, query: &Query, select_col: usize, cols: &Vec<usize>) -> (r: Result<(), QueryError>)
        requires
            query.select matches Selection::Items(items) ==> items@.len() == cols@.len(),
        ensures
            match r {
                Ok(_) => grouping_fault(query@, select_col as int, cols_view(cols@)) is None,
                Err(e) => grouping_fault(query@, select_col as int, cols_view(cols@)) == Some(
                    e.fault(),
                ) && e.query@ == self.src@,
            },
    {
        if !query.is_grouped() {
            return Ok(());
        }
        match &query.select {
            Selection::All => Err(
                self.fail(
                    "`select *` cannot be grouped; name the group keys and the aggregates you want".to_string(),
                    select_col,
                ),
            ),
            Selection::Items(items) => {
                let mut i: usize = 0;
                let ghost all = items_view(items@);
                let ghost keys = items_view(query.group_by@);
                while i < items.len()
                    invariant
                        i <= items@.len() == cols@.len(),
                        all == items_view(items@),
                        keys == items_view(query.group_by@),
                        undetermined_from(all, keys, cols_view(cols@), 0) == undetermined_from(
                            all,
                            keys,
                            cols_view(cols@),
                            i as int,
                        ),
                        grouping_fault(query@, select_col as int, cols_view(cols@))
                            == undetermined_from(all, keys, cols_view(cols@), 0),
                    decreases items.len() - i,
                {
                    if !is_determined(&items[i].value, &query.group_by) {
                        let mut out: Vec<char> = Vec::new();
                        push_text(&mut out, "`");
                        items[i].value.push_expr(&mut out);
                        push_text(
                            &mut out,
                            "` is neither a group key nor an aggregate; add it to `group by` or wrap it in an aggregate",
                        );
                        assert(out@ =~= undetermined_from(
                            all,
                            keys,
                            cols_view(cols@),
                            i as int,
                        )->0.message);
                        return Err(self.fail(string_of(&out), cols[i]));
                    }
                    i += 1;
                }
                Ok(())
            },
        }
    }

    fn parse_query(&mut self) -> (r: Result<Query, QueryError>)
        requires
            old(self).wf(),
        ensures
            final(self).moved(old(self)),
            match r {
                Ok(q) => query_at(old(self).src@, old(self).row(), old(self).pos as int) == Ok::<
                    (QueryView, int),
                    Fault,
                >((q@, final(self).pos as int)),
                Err(e) => query_at(old(self).src@, old(self).row(), old(self).pos as int) == Err::<
                    (QueryView, int),
                    Fault,
                >(e.fault()) && e.query@ == old(self).src@,
            },
    {
        match self.expect(&TokenKind::Select, "`select` at the start of the query") {
            Ok(_) => {},
            Err(e) => {
                return Err(e);
            },
        }
        let select_col: usize = self.peek().col;
        let (select, cols) = match self.parse_selection() {
            Ok(x) => x,
            Err(e) => {
                return Err(e);
            },
        };
        let filter = match self.parse_where() {
            Ok(x) => x,
            Err(e) => {
                return Err(e);
            },
        };
        let group_by = match self.parse_group() {
            Ok(x) => x,
            Err(e) => {
                return Err(e);
            },
        };
        let having = match self.parse_having() {
            Ok(x) => x,
            Err(e) => {
                return Err(e);
            },
        };
        let order_by = match self.parse_order() {
            Ok(x) => x,
            Err(e) => {
                return Err(e);
            },
        };
        let limit = match self.parse_limit() {
            Ok(x) => x,
            Err(e) => {
                return Err(e);
            },
        };
        let query = Query { select, filter, group_by, having, order_by, limit };
        match self.check_grouping(&query, select_col, &cols) {
            Ok(_) => Ok(query),
            Err(e) => Err(e),
        }
    }

    /// Refuses anything that follows.
    fn expect_eof(&self) -> (r: Result<(), QueryError>)
        requires
            self.wf(),
        ensures
            match r {
                Ok(_) => stands(self.row(), self.pos as int, Kind::Eof),
                Err(e) => !stands(self.row(), self.pos as int, Kind::Eof) && e.fault() == unexpected(
                    self.row(),
                    self.pos as int,
                    "end of query"@,
                ) && e.query@ == self.src@,
            },
    {
        if self.at(&TokenKind::Eof) {
            Ok(())
        } else {
            Err(self.err_here("end of query"))
        }
    }
}

/// Reads a query.
pub fn parse(query: &str) -> (r: Result<Query, QueryError>)
    requires
        query@.len() < usize::MAX,
    ensures
        match r {
            Ok(q) => query_in(query@) == Ok::<QueryView, Fault>(q@),
            Err(e) => query_in(query@) == Err::<QueryView, Fault>(e.fault()) && e.query@ == query@,
        },
{
    let tokens = match tokenize(query) {
        Ok(tokens) => tokens,
        Err(e) => {
            return Err(e);
        },
    };
    proof {
        law_tokens_are_in_order(query@);
    }
    let mut p = Parser { src: query, tokens, pos: 0 };
    match p.parse_query() {
        Ok(q) => match p.expect_eof() {
            Ok(_) => Ok(q),
            Err(e) => Err(e),
        },
        Err(e) => Err(e),
    }
}

/// Reads a bare condition, without the rest of a query.
pub fn parse_expr(src: &str) -> (r: Result<Expr, QueryError>)
    requires
        src@.len() < usize::MAX,
    ensures
        match r {
            Ok(e) => expr_in(src@) == Ok::<ExprView, Fault>(e@),
            Err(e) => expr_in(src@) == Err::<ExprView, Fault>(e.fault()) && e.query@ == src@,
        },
{
    let tokens = match tokenize(src) {
        Ok(tokens) => tokens,
        Err(e) => {
            return Err(e);
        },
    };
    proof {
        law_tokens_are_in_order(src@);
    }
    let mut p = Parser { src, tokens, pos: 0 };
    match p.parse_or() {
        Ok(x) => match p.expect_eof() {
            Ok(_) => Ok(x),
            Err(e) => Err(e),
        },
        Err(e) => Err(e),
    }
}

/// Whether a fault points at one of the tokens.
pub open spec fn points(t: Seq<Tok>, f: Fault) -> bool {
    exists|k: int| 0 <= k < t.len() && f.col == (#[trigger] t[k]).col
}

/// Whether a reading ends inside the tokens, at or behind a position, or fails at
/// one of them.
pub open spec fn lands<T>(t: Seq<Tok>, from: int, r: Parsed<T>) -> bool {
    match r {
        Ok((x, q)) => from <= q < t.len(),
        Err(f) => points(t, f),
    }
}

proof fn lemma_value(t: Seq<Tok>, p: int, expected: Seq<char>)
    requires
        closed_row(t),
        0 <= p < t.len(),
    ensures
        lands(t, p + 1, value_at(t, p, expected)),
    decreases t.len() - p, 3int,
{
    lemma_atom(t, p, expected);
    match atom_at(t, p, expected) {
        Ok((left, q)) => {
            lemma_sum(t, q, left);
        },
        Err(_) => {},
    }
}

proof fn lemma_sum(t: Seq<Tok>, p: int, left: ValueExprView)
    requires
        closed_row(t),
        0 <= p < t.len(),
    ensures
        lands(t, p, sum_from(t, p, left)),
    decreases t.len() - p, 0int,
{
    match arith_at(t, p) {
        None => {},
        Some(op) => {
            lemma_atom(t, p + 1, "a value after the operator"@);
            match atom_at(t, p + 1, "a value after the operator"@) {
                Ok((right, q)) => {
                    lemma_sum(
                        t,
                        q,
                        ValueExprView::Arith { op, left: Box::new(left), right: Box::new(right) },
                    );
                },
                Err(_) => {},
            }
        },
    }
}

proof fn lemma_atom(t: Seq<Tok>, p: int, expected: Seq<char>)
    requires
        closed_row(t),
        0 <= p < t.len(),
    ensures
        lands(t, p + 1, atom_at(t, p, expected)),
    decreases t.len() - p, 2int,
{
    if stands(t, p, Kind::LParen) {
        lemma_value(t, p + 1, expected);
    } else if t[p].kind is Ident && stands(t, p + 1, Kind::LParen) {
        lemma_call(t, p, t[p].kind->Ident_0);
    }
}

proof fn lemma_call(t: Seq<Tok>, p: int, name: Seq<char>)
    requires
        closed_row(t),
        0 <= p < t.len(),
        t[p].kind is Ident,
        stands(t, p + 1, Kind::LParen),
    ensures
        lands(t, p + 1, call_at(t, p, name)),
    decreases t.len() - p, 1int,
{
    match agg_named(lower_text(name)) {
        Some(agg) => {
            lemma_agg(t, p, agg);
        },
        None => {
            if func_named(lower_text(name)) is Some && !stands(t, p + 2, Kind::RParen) {
                lemma_args(t, p + 2, Seq::empty());
            }
        },
    }
}

proof fn lemma_args(t: Seq<Tok>, p: int, before: Seq<ValueExprView>)
    requires
        closed_row(t),
        0 <= p < t.len(),
    ensures
        lands(t, p + 1, args_from(t, p, before)),
    decreases t.len() - p, 4int,
{
    lemma_value(t, p, "an argument"@);
    match value_at(t, p, "an argument"@) {
        Ok((v, q)) => {
            if stands(t, q, Kind::Comma) {
                lemma_args(t, q + 1, before.push(v));
            }
        },
        Err(_) => {},
    }
}

proof fn lemma_agg(t: Seq<Tok>, p: int, agg: Agg)
    requires
        closed_row(t),
        0 <= p < t.len(),
        t[p].kind is Ident,
        stands(t, p + 1, Kind::LParen),
    ensures
        lands(t, p + 1, agg_at(t, p, agg)),
    decreases t.len() - p, 0int,
{
    if !stands(t, p + 2, Kind::Star) {
        lemma_value(t, p + 2, "a value or `*` inside the aggregate"@);
    }
}

proof fn lemma_or(t: Seq<Tok>, p: int)
    requires
        closed_row(t),
        0 <= p < t.len(),
    ensures
        lands(t, p + 1, or_at(t, p)),
    decreases t.len() - p, 6int,
{
    lemma_and(t, p);
    match and_at(t, p) {
        Ok((left, q)) => {
            lemma_or_from(t, q, left);
        },
        Err(_) => {},
    }
}

proof fn lemma_or_from(t: Seq<Tok>, p: int, left: ExprView)
    requires
        closed_row(t),
        0 <= p < t.len(),
    ensures
        lands(t, p, or_from(t, p, left)),
    decreases t.len() - p, 0int,
{
    if stands(t, p, Kind::Or) {
        lemma_and(t, p + 1);
        match and_at(t, p + 1) {
            Ok((right, q)) => {
                lemma_or_from(t, q, ExprView::Or(Box::new(left), Box::new(right)));
            },
            Err(_) => {},
        }
    }
}

proof fn lemma_and(t: Seq<Tok>, p: int)
    requires
        closed_row(t),
        0 <= p < t.len(),
    ensures
        lands(t, p + 1, and_at(t, p)),
    decreases t.len() - p, 5int,
{
    lemma_not(t, p);
    match not_at(t, p) {
        Ok((left, q)) => {
            lemma_and_from(t, q, left);
        },
        Err(_) => {},
    }
}

proof fn lemma_and_from(t: Seq<Tok>, p: int, left: ExprView)
    requires
        closed_row(t),
        0 <= p < t.len(),
    ensures
        lands(t, p, and_from(t, p, left)),
    decreases t.len() - p, 0int,
{
    if stands(t, p, Kind::And) {
        lemma_not(t, p + 1);
        match not_at(t, p + 1) {
            Ok((right, q)) => {
                lemma_and_from(t, q, ExprView::And(Box::new(left), Box::new(right)));
            },
            Err(_) => {},
        }
    }
}

proof fn lemma_not(t: Seq<Tok>, p: int)
    requires
        closed_row(t),
        0 <= p < t.len(),
    ensures
        lands(t, p + 1, not_at(t, p)),
    decreases t.len() - p, 4int,
{
    if stands(t, p, Kind::Not) {
        lemma_not(t, p + 1);
    } else {
        lemma_predicate(t, p);
    }
}

proof fn lemma_predicate(t: Seq<Tok>, p: int)
    requires
        closed_row(t),
        0 <= p < t.len(),
    ensures
        lands(t, p + 1, predicate_at(t, p)),
    decreases t.len() - p, 3int,
{
    lemma_value(t, p, "a field name, a function or a literal value"@);
    match value_at(t, p, "a field name, a function or a literal value"@) {
        Ok((left, q)) => {
            if comparison_at(t, q) is Some {
                lemma_value(t, q + 1, "a field name, a function or a literal value"@);
            } else if stands(t, q, Kind::Like) {
                lemma_value(t, q + 1, "a pattern after `like`"@);
            } else if stands(t, q, Kind::Not) && stands(t, q + 1, Kind::Like) {
                lemma_value(t, q + 2, "a pattern after `not like`"@);
            }
        },
        Err(_) => {
            if stands(t, p, Kind::LParen) {
                lemma_or(t, p + 1);
            }
        },
    }
}

proof fn lemma_item(s: Seq<char>, t: Seq<Tok>, p: int, expected: Seq<char>)
    requires
        closed_row(t),
        0 <= p < t.len(),
    ensures
        lands(t, p + 1, item_at(s, t, p, expected)),
{
    lemma_value(t, p, expected);
}

/// Whether every entry has a column, which is that of a token.
spec fn columned<T>(t: Seq<Tok>, items: Seq<T>, cols: Seq<int>) -> bool {
    &&& items.len() == cols.len()
    &&& forall|i: int|
        0 <= i < cols.len() ==> exists|k: int|
            0 <= k < t.len() && #[trigger] cols[i] == (#[trigger] t[k]).col
}

proof fn lemma_items_from(
    s: Seq<char>,
    t: Seq<Tok>,
    p: int,
    before: Seq<SelectItemView>,
    cols: Seq<int>,
)
    requires
        closed_row(t),
        0 <= p < t.len(),
        columned(t, before, cols),
    ensures
        lands(t, p, items_from(s, t, p, before, cols)),
        items_from(s, t, p, before, cols) matches Ok(((items, c), _)) ==> columned(t, items, c),
    decreases t.len() - p,
{
    if stands(t, p, Kind::Comma) {
        lemma_item(s, t, p + 1, "a field name or a function after `,`"@);
        match item_at(s, t, p + 1, "a field name or a function after `,`"@) {
            Ok((item, q)) => {
                let now = cols.push(t[p + 1].col);
                assert forall|i: int| 0 <= i < now.len() implies exists|k: int|
                    0 <= k < t.len() && #[trigger] now[i] == (#[trigger] t[k]).col by {
                    if i < cols.len() {
                        assert(now[i] == cols[i]);
                    } else {
                        assert(now[i] == t[p + 1].col);
                    }
                }
                lemma_items_from(s, t, q, before.push(item), now);
            },
            Err(_) => {},
        }
    }
}

proof fn lemma_items(s: Seq<char>, t: Seq<Tok>, p: int, expected: Seq<char>)
    requires
        closed_row(t),
        0 <= p < t.len(),
    ensures
        lands(t, p + 1, items_at(s, t, p, expected)),
        items_at(s, t, p, expected) matches Ok(((items, c), _)) ==> columned(t, items, c),
{
    lemma_item(s, t, p, expected);
    match item_at(s, t, p, expected) {
        Ok((item, q)) => {
            let cols = seq![t[p].col];
            assert forall|i: int| 0 <= i < cols.len() implies exists|k: int|
                0 <= k < t.len() && #[trigger] cols[i] == (#[trigger] t[k]).col by {
                assert(cols[i] == t[p].col);
            }
            lemma_items_from(s, t, q, seq![item], cols);
        },
        Err(_) => {},
    }
}

proof fn lemma_undetermined(
    t: Seq<Tok>,
    items: Seq<SelectItemView>,
    keys: Seq<SelectItemView>,
    cols: Seq<int>,
    i: int,
)
    requires
        columned(t, items, cols),
        0 <= i,
    ensures
        undetermined_from(items, keys, cols, i) matches Some(f) ==> points(t, f),
    decreases items.len() - i,
{
    if i < items.len() {
        if determined(items[i].value, keys) {
            lemma_undetermined(t, items, keys, cols, i + 1);
        } else {
            assert(exists|k: int| 0 <= k < t.len() && cols[i] == (#[trigger] t[k]).col);
        }
    }
}

proof fn lemma_query(s: Seq<char>, t: Seq<Tok>)
    requires
        closed_row(t),
    ensures
        lands(t, 1, query_at(s, t, 0)),
{
    if stands(t, 0, Kind::Select) {
        if !stands(t, 1, Kind::Star) {
            lemma_items(s, t, 1, "`*`, a field name or a function after `select`"@);
        }
        match selection_at(s, t, 1) {
            Ok(((select, cols), p2)) => {
                lemma_clauses(s, t, p2);
                match select {
                    SelectionView::Items(items) => {
                        assert forall|keys: Seq<SelectItemView>|
                            (#[trigger] undetermined_from(items, keys, cols, 0)) is Some implies points(
                            t,
                            undetermined_from(items, keys, cols, 0)->0,
                        ) by {
                            lemma_undetermined(t, items, keys, cols, 0);
                        }
                    },
                    SelectionView::All => {},
                }
            },
            Err(_) => {},
        }
    }
}

/// The clauses behind the selection land too.
#[verifier::rlimit(30)]
proof fn lemma_clauses(s: Seq<char>, t: Seq<Tok>, p: int)
    requires
        closed_row(t),
        0 <= p < t.len(),
    ensures
        lands(t, p, where_at(t, p)),
        where_at(t, p) matches Ok((_, p3)) ==> {
            &&& lands(t, p3, group_at(s, t, p3))
            &&& group_at(s, t, p3) matches Ok((_, p4)) ==> {
                &&& lands(t, p4, having_at(t, p4))
                &&& having_at(t, p4) matches Ok((_, p5)) ==> {
                    &&& lands(t, p5, order_at(t, p5))
                    &&& order_at(t, p5) matches Ok((_, p6)) ==> lands(t, p6, limit_at(t, p6))
                }
            }
        },
{
    if stands(t, p, Kind::Where) {
        lemma_or(t, p + 1);
    }
    match where_at(t, p) {
        Ok((_, p3)) => {
            if stands(t, p3, Kind::Group) && stands(t, p3 + 1, Kind::By) {
                lemma_items(s, t, p3 + 2, "a field name or a function after `group by`"@);
            }
            match group_at(s, t, p3) {
                Ok((_, p4)) => {
                    if stands(t, p4, Kind::Having) {
                        lemma_or(t, p4 + 1);
                    }
                    match having_at(t, p4) {
                        Ok((_, p5)) => {
                            if stands(t, p5, Kind::Order) && stands(t, p5 + 1, Kind::By) {
                                lemma_value(
                                    t,
                                    p5 + 2,
                                    "a field name or a function after `order by`"@,
                                );
                            }
                        },
                        Err(_) => {},
                    }
                },
                Err(_) => {},
            }
        },
        Err(_) => {},
    }
}

/// Brackets around a value mean the same in a condition whether they are taken as
/// those of a value or as those of a condition: as the latter they hold the bare
/// value, and as the former they make an operand of it.
pub proof fn law_brackets_around_a_value_read_alike(
    t: Seq<Tok>,
    p: int,
    value: ValueExprView,
    q: int,
)
    requires
        closed_row(t),
        stands(t, p, Kind::LParen),
        value_at(t, p + 1, "a field name, a function or a literal value"@) == Ok::<
            (ValueExprView, int),
            Fault,
        >((value, q)),
        stands(t, q, Kind::RParen),
    ensures
        or_at(t, p + 1) == Ok::<(ExprView, int), Fault>((ExprView::Truthy(value), q)),
        arith_at(t, q + 1) is None ==> predicate_at(t, p) == compared_at(t, q + 1, value),
{
    lemma_value(t, p + 1, "a field name, a function or a literal value"@);
    assert(!stands(t, p + 1, Kind::Not)) by {
        reveal_with_fuel(atom_at, 2);
    }
    assert(compared_at(t, q, value) == Ok::<(ExprView, int), Fault>((ExprView::Truthy(value), q)));
    assert(predicate_at(t, p + 1) == compared_at(t, q, value));
    assert(not_at(t, p + 1) == predicate_at(t, p + 1));
    assert(and_at(t, p + 1) == and_from(t, q, ExprView::Truthy(value)));
    assert(or_at(t, p + 1) == or_from(t, q, ExprView::Truthy(value)));
    assert(atom_at(t, p, "a field name, a function or a literal value"@) == Ok::<
        (ValueExprView, int),
        Fault,
    >((value, q + 1)));
}

/// A column without an alias is labelled with what was typed: the text of the
/// query from the first token of the value up to the token behind it, less the
/// white space and the comments before that.
pub proof fn law_a_label_is_what_was_typed(
    s: Seq<char>,
    t: Seq<Tok>,
    p: int,
    expected: Seq<char>,
    value: ValueExprView,
    q: int,
)
    requires
        tokens_of(s) == Ok::<Seq<Tok>, Fault>(t),
        value_at(t, p, expected) == Ok::<(ValueExprView, int), Fault>((value, q)),
        !stands(t, q, Kind::As),
    ensures
        item_at(s, t, p, expected) matches Ok((item, end)) && item.value == value && end == q && (
        exists|j: int|
            t[p].col <= j < t[q].col && ignorable_end(s, j, false) == t[q].col - 1 && item.label
                == #[trigger] s.subrange(t[p].col - 1, j)),
{
    law_tokens_are_in_order(s);
    law_tokens_stand_at_their_columns(s);
    assert(0 <= p < t.len());
    lemma_value(t, p, expected);
    assert(follows(s, t[q - 1], t[q]));
    let j = token_end(s, t[q - 1].col - 1);
    lemma_token_at(s, t[q - 1].col - 1);
    lemma_ignorable_end(s, j, false);
    assert(t[p].col <= t[q - 1].col);
    assert(typed(s, t[p].col, t[q - 1].col) == s.subrange(t[p].col - 1, j));
}

/// An error of the parser points into the query or right behind it.
pub proof fn law_query_errors_point_into_the_query(text: Seq<char>)
    ensures
        query_in(text) matches Err(f) ==> 1 <= f.col <= text.len() + 1,
        expr_in(text) matches Err(f) ==> 1 <= f.col <= text.len() + 1,
{
    law_tokens_are_in_order(text);
    crate::lexer::law_token_errors_point_into_the_query(text);
    match tokens_of(text) {
        Ok(t) => {
            lemma_query(text, t);
            lemma_or(t, 0);
        },
        Err(_) => {},
    }
}

} // verus!
