use logquery::ast::{Agg, ArithOp, CmpOp, Expr, Func, Literal, OrderBy, Path, Query, Selection, ValueExpr};
use logquery::num::Num;
use logquery::parser::{parse, parse_expr};

fn field(name: &str) -> ValueExpr {
    ValueExpr::Field(Path::new(name))
}
fn s(v: &str) -> ValueExpr {
    ValueExpr::Lit(Literal::Str(v.into()))
}
fn n(v: f64) -> ValueExpr {
    ValueExpr::Lit(Literal::Num(Num { bits: v.to_bits() }))
}
fn cmp(op: CmpOp, l: ValueExpr, r: ValueExpr) -> Expr {
    Expr::Compare {
        op,
        left: l,
        right: r,
    }
}

#[test]
fn parses_select_star_only() {
    let q = parse("select *").unwrap();
    assert_eq!(q.select, Selection::All);
    assert!(q.filter.is_none());
    assert!(q.order_by.is_none());
    assert!(q.limit.is_none());
}

fn labels(q: &Query) -> Vec<String> {
    match &q.select {
        Selection::All => Vec::new(),
        Selection::Items(items) => items.iter().map(|i| i.label.clone()).collect(),
    }
}

fn values(q: &Query) -> Vec<ValueExpr> {
    match &q.select {
        Selection::All => Vec::new(),
        Selection::Items(items) => items.iter().map(|i| i.value.copy()).collect(),
    }
}

#[test]
fn parses_a_field_list() {
    let q = parse("select level, msg, user.id").unwrap();
    assert_eq!(
        values(&q),
        vec![field("level"), field("msg"), field("user.id")]
    );
    assert_eq!(labels(&q), vec!["level", "msg", "user.id"]);
}

#[test]
fn parses_function_calls_in_the_selection() {
    let q = parse("select lower(level), substr(msg, 0, 20)").unwrap();
    assert_eq!(
        values(&q),
        vec![
            ValueExpr::Call {
                func: Func::Lower,
                args: vec![field("level")]
            },
            ValueExpr::Call {
                func: Func::Substr,
                args: vec![field("msg"), n(0.0), n(20.0)]
            },
        ]
    );
    assert_eq!(labels(&q), vec!["lower(level)", "substr(msg, 0, 20)"]);
}

#[test]
fn parses_a_call_with_no_arguments() {
    let q = parse("select now()").unwrap();
    assert_eq!(
        values(&q),
        vec![ValueExpr::Call {
            func: Func::Now,
            args: vec![]
        }]
    );
    assert_eq!(labels(&q), vec!["now()"]);
}

#[test]
fn calls_nest() {
    let q = parse("select upper(coalesce(user.name, \"anon\"))").unwrap();
    assert_eq!(labels(&q), vec!["upper(coalesce(user.name, \"anon\"))"]);
}

#[test]
fn an_alias_renames_the_column() {
    let q = parse("select lower(level) as lvl, msg as \"the message\"").unwrap();
    assert_eq!(labels(&q), vec!["lvl", "the message"]);
}

#[test]
fn functions_are_usable_in_where() {
    let e = parse_expr("lower(level) = \"error\"").unwrap();
    assert_eq!(
        e,
        cmp(
            CmpOp::Eq,
            ValueExpr::Call {
                func: Func::Lower,
                args: vec![field("level")]
            },
            s("error")
        )
    );
}

#[test]
fn an_unknown_function_is_an_error() {
    let err = parse("select sqrt(x)").unwrap_err();
    assert!(err.message.contains("unknown function `sqrt`"), "{}", err.message);
    assert_eq!(err.col, 8);
}

#[test]
fn the_wrong_number_of_arguments_is_an_error() {
    let err = parse("select lower(a, b)").unwrap_err();
    assert!(err.message.contains("takes 1 argument"), "{}", err.message);
    let err = parse("select substr(a)").unwrap_err();
    assert!(err.message.contains("2 to 3 arguments"), "{}", err.message);
    let err = parse("select now(1)").unwrap_err();
    assert!(err.message.contains("takes 0 arguments"), "{}", err.message);
    let err = parse("select coalesce()").unwrap_err();
    assert!(err.message.contains("at least 1 argument"), "{}", err.message);
}

#[test]
fn an_unclosed_argument_list_is_an_error() {
    let err = parse("select lower(a").unwrap_err();
    assert!(err.message.contains("`)`"), "{}", err.message);
}

#[test]
fn an_alias_without_a_name_is_an_error() {
    let err = parse("select a as").unwrap_err();
    assert!(err.message.contains("column name after `as`"), "{}", err.message);
}

#[test]
fn parses_addition_and_subtraction() {
    let e = parse_expr("ts > now() - 15m").unwrap();
    assert_eq!(
        e,
        cmp(
            CmpOp::Gt,
            field("ts"),
            ValueExpr::Arith {
                op: ArithOp::Sub,
                left: Box::new(ValueExpr::Call {
                    func: Func::Now,
                    args: vec![]
                }),
                right: Box::new(ValueExpr::Lit(Literal::Duration(Num { bits: 900.0f64.to_bits() }))),
            }
        )
    );
}

#[test]
fn arithmetic_is_left_associative() {
    let q = parse("select a - b - c").unwrap();
    assert_eq!(labels(&q), vec!["a - b - c"]);
    match &values(&q)[0] {
        ValueExpr::Arith { left, .. } => {
            assert!(matches!(**left, ValueExpr::Arith { .. }), "left should nest")
        }
        other => panic!("expected a sum, got {other:?}"),
    }
}

#[test]
fn parentheses_regroup_a_sum_and_survive_the_label() {
    let q = parse("select a - (b - c)").unwrap();
    assert_eq!(labels(&q), vec!["a - (b - c)"]);
    match &values(&q)[0] {
        ValueExpr::Arith { right, .. } => {
            assert!(matches!(**right, ValueExpr::Arith { .. }), "right should nest")
        }
        other => panic!("expected a sum, got {other:?}"),
    }
}

#[test]
fn an_unclosed_value_group_is_an_error() {
    let err = parse("select (a - b").unwrap_err();
    assert!(err.message.contains("`)`"), "{}", err.message);
}

#[test]
fn a_dangling_arithmetic_operator_is_an_error() {
    let err = parse("select a +").unwrap_err();
    assert!(err.message.contains("value after the operator"), "{}", err.message);
}

#[test]
fn order_by_takes_an_expression() {
    let q = parse("select level, count(*) group by level order by count(*) desc").unwrap();
    let order = q.order_by.unwrap();
    assert_eq!(
        order.value,
        ValueExpr::Agg {
            agg: Agg::Count,
            arg: None
        }
    );
    assert!(order.descending);

    let q = parse("select msg order by lower(level)").unwrap();
    assert_eq!(q.order_by.unwrap().value.to_string(), "lower(level)");
}

#[test]
fn parses_group_by_and_having() {
    let q = parse("select level, count(*) group by level having count(*) > 10").unwrap();
    assert!(q.is_grouped());
    assert_eq!(q.group_by.len(), 1);
    assert_eq!(q.group_by[0].value, field("level"));
    assert_eq!(labels(&q), vec!["level", "count(*)"]);
    assert_eq!(
        values(&q)[1],
        ValueExpr::Agg {
            agg: Agg::Count,
            arg: None
        }
    );
    assert!(q.having.is_some());
}

#[test]
fn an_aggregate_without_group_by_is_one_group() {
    let q = parse("select count(*), max(duration_ms)").unwrap();
    assert!(q.is_grouped());
    assert!(q.group_by.is_empty());
}

#[test]
fn a_plain_query_is_not_grouped() {
    assert!(!parse("select level, msg where level = \"error\"").unwrap().is_grouped());
    assert!(!parse("select *").unwrap().is_grouped());
}

#[test]
fn aggregates_take_one_value_and_count_also_takes_star() {
    let q = parse("select sum(duration_ms), count(user.id)").unwrap();
    assert_eq!(
        values(&q),
        vec![
            ValueExpr::Agg {
                agg: Agg::Sum,
                arg: Some(Box::new(field("duration_ms")))
            },
            ValueExpr::Agg {
                agg: Agg::Count,
                arg: Some(Box::new(field("user.id")))
            },
        ]
    );
    assert_eq!(labels(&q), vec!["sum(duration_ms)", "count(user.id)"]);
}

#[test]
fn only_count_accepts_a_star() {
    let err = parse("select sum(*)").unwrap_err();
    assert!(err.message.contains("not meaningful"), "{}", err.message);
}

#[test]
fn aggregates_do_not_nest() {
    let err = parse("select sum(count(x))").unwrap_err();
    assert!(err.message.contains("do not nest"), "{}", err.message);
}

#[test]
fn an_aggregate_in_where_is_an_error() {
    let err = parse("select level, count(*) where count(*) > 1 group by level").unwrap_err();
    assert!(err.message.contains("`having`"), "{}", err.message);
}

#[test]
fn a_selected_field_must_be_a_group_key_or_an_aggregate() {
    let err = parse("select level, msg, count(*) group by level").unwrap_err();
    assert!(err.message.contains("neither a group key"), "{}", err.message);
    assert_eq!(err.col, 15);
    // Repeating the key is fine, and so is an aggregate of anything.
    assert!(parse("select level, count(msg) group by level").is_ok());
}

#[test]
fn select_star_cannot_be_grouped() {
    let err = parse("select * group by level").unwrap_err();
    assert!(err.message.contains("cannot be grouped"), "{}", err.message);
}

#[test]
fn group_by_accepts_an_expression_with_an_alias() {
    let q = parse("select lower(level) as lvl, count(*) group by lower(level)").unwrap();
    assert_eq!(labels(&q), vec!["lvl", "count(*)"]);
    assert_eq!(q.group_by[0].label, "lower(level)");
}

#[test]
fn group_by_without_by_is_an_error() {
    let err = parse("select count(*) group level").unwrap_err();
    assert!(err.message.contains("`by` after `group`"), "{}", err.message);
}

#[test]
fn parses_every_clause() {
    let q = parse("select a where b = 1 order by c desc limit 5").unwrap();
    assert_eq!(values(&q), vec![field("a")]);
    assert_eq!(q.filter, Some(cmp(CmpOp::Eq, field("b"), n(1.0))));
    assert_eq!(
        q.order_by,
        Some(OrderBy {
            value: field("c"),
            descending: true
        })
    );
    assert_eq!(q.limit, Some(5));
}

#[test]
fn order_by_defaults_to_ascending() {
    let q = parse("select * order by ts").unwrap();
    assert!(!q.order_by.unwrap().descending);
    let q = parse("select * order by ts asc").unwrap();
    assert!(!q.order_by.unwrap().descending);
}

#[test]
fn and_binds_tighter_than_or() {
    let e = parse_expr("a = 1 or b = 2 and c = 3").unwrap();
    assert_eq!(
        e,
        Expr::Or(
            Box::new(cmp(CmpOp::Eq, field("a"), n(1.0))),
            Box::new(Expr::And(
                Box::new(cmp(CmpOp::Eq, field("b"), n(2.0))),
                Box::new(cmp(CmpOp::Eq, field("c"), n(3.0))),
            ))
        )
    );
}

#[test]
fn parens_override_precedence() {
    let e = parse_expr("(a = 1 or b = 2) and c = 3").unwrap();
    assert_eq!(
        e,
        Expr::And(
            Box::new(Expr::Or(
                Box::new(cmp(CmpOp::Eq, field("a"), n(1.0))),
                Box::new(cmp(CmpOp::Eq, field("b"), n(2.0))),
            )),
            Box::new(cmp(CmpOp::Eq, field("c"), n(3.0)))
        )
    );
}

#[test]
fn not_binds_tighter_than_and() {
    let e = parse_expr("not a = 1 and b = 2").unwrap();
    assert_eq!(
        e,
        Expr::And(
            Box::new(Expr::Not(Box::new(cmp(CmpOp::Eq, field("a"), n(1.0))))),
            Box::new(cmp(CmpOp::Eq, field("b"), n(2.0)))
        )
    );
}

#[test]
fn not_nests() {
    let e = parse_expr("not not a").unwrap();
    assert_eq!(
        e,
        Expr::Not(Box::new(Expr::Not(Box::new(Expr::Truthy(field("a"))))))
    );
}

#[test]
fn or_is_left_associative() {
    let e = parse_expr("a or b or c").unwrap();
    assert_eq!(
        e,
        Expr::Or(
            Box::new(Expr::Or(
                Box::new(Expr::Truthy(field("a"))),
                Box::new(Expr::Truthy(field("b")))
            )),
            Box::new(Expr::Truthy(field("c")))
        )
    );
}

#[test]
fn parses_like_and_not_like() {
    assert_eq!(
        parse_expr("msg like \"%timeout%\"").unwrap(),
        Expr::Like {
            left: field("msg"),
            pattern: s("%timeout%"),
            negated: false
        }
    );
    assert_eq!(
        parse_expr("msg not like \"%health%\"").unwrap(),
        Expr::Like {
            left: field("msg"),
            pattern: s("%health%"),
            negated: true
        }
    );
}

#[test]
fn parses_all_comparison_operators() {
    for (src, op) in [
        ("a = 1", CmpOp::Eq),
        ("a != 1", CmpOp::Ne),
        ("a < 1", CmpOp::Lt),
        ("a <= 1", CmpOp::Le),
        ("a > 1", CmpOp::Gt),
        ("a >= 1", CmpOp::Ge),
    ] {
        assert_eq!(parse_expr(src).unwrap(), cmp(op, field("a"), n(1.0)), "{src}");
    }
}

#[test]
fn literals_may_appear_on_either_side() {
    assert_eq!(
        parse_expr("100 < duration_ms").unwrap(),
        cmp(CmpOp::Lt, n(100.0), field("duration_ms"))
    );
}

#[test]
fn parses_bool_and_null_literals() {
    assert_eq!(
        parse_expr("ok = true").unwrap(),
        cmp(CmpOp::Eq, field("ok"), ValueExpr::Lit(Literal::Bool(true)))
    );
    assert_eq!(
        parse_expr("err != null").unwrap(),
        cmp(CmpOp::Ne, field("err"), ValueExpr::Lit(Literal::Null))
    );
}

#[test]
fn missing_select_is_an_error() {
    let err = parse("level = \"error\"").unwrap_err();
    assert!(err.message.contains("`select`"), "{}", err.message);
    assert_eq!(err.col, 1);
}

#[test]
fn trailing_comma_in_selection_is_an_error() {
    let err = parse("select a, b,").unwrap_err();
    assert!(err.message.contains("field name or a function after `,`"), "{}", err.message);
    assert_eq!(err.col, 13);
}

#[test]
fn unclosed_paren_is_an_error() {
    let err = parse("select * where (a = 1").unwrap_err();
    assert!(err.message.contains("`)`"), "{}", err.message);
    assert_eq!(err.col, 22);
}

#[test]
fn dangling_operator_is_an_error() {
    let err = parse("select * where a =").unwrap_err();
    assert!(
        err.message.contains("field name, a function or a literal"),
        "{}",
        err.message
    );
    assert_eq!(err.col, 19);
}

#[test]
fn order_without_by_is_an_error() {
    let err = parse("select * order ts").unwrap_err();
    assert!(err.message.contains("`by` after `order`"), "{}", err.message);
}

#[test]
fn non_numeric_limit_is_an_error() {
    let err = parse("select * limit \"ten\"").unwrap_err();
    assert!(err.message.contains("number after `limit`"), "{}", err.message);
    assert_eq!(err.col, 16);
}

#[test]
fn fractional_limit_is_an_error() {
    let err = parse("select * limit 2.5").unwrap_err();
    assert!(err.message.contains("whole number"), "{}", err.message);
}

#[test]
fn negative_limit_is_an_error() {
    assert!(parse("select * limit -3").is_err());
}

#[test]
fn junk_after_the_query_is_an_error() {
    let err = parse("select * limit 5 nonsense").unwrap_err();
    assert!(err.message.contains("end of query"), "{}", err.message);
    assert_eq!(err.col, 18);
}

#[test]
fn clauses_must_appear_in_order() {
    // `where` after `limit` is rejected rather than silently reordered.
    assert!(parse("select * limit 5 where a = 1").is_err());
}
