use logquery::ast::{CmpOp, Expr, Literal, Query, Selection, ValueExpr};
use logquery::engine::Engine;
use logquery::eval::{eval, Env};
use logquery::json::record_to_json;
use logquery::like::find_from;
use logquery::num::Num;
use logquery::parser::{parse, parse_expr};
use logquery::record::parse_line;

fn labels(q: &Query) -> Vec<String> {
    match &q.select {
        Selection::All => Vec::new(),
        Selection::Items(items) => items.iter().map(|i| i.label.clone()).collect(),
    }
}

fn typed(query: &str) -> Vec<String> {
    labels(&parse(query).unwrap())
}

fn num(x: f64) -> Num {
    Num { bits: x.to_bits() }
}

fn env() -> Env {
    Env { now: num(0.0), local_offset: 0 }
}

fn field(v: &ValueExpr) -> &str {
    match v {
        ValueExpr::Field(p) => p.raw.as_str(),
        other => panic!("expected a field, got {other:?}"),
    }
}

fn holds(expr: &str, line: &str) -> bool {
    eval(&parse_expr(expr).unwrap(), &parse_line(line).unwrap().0, env())
}

fn run(query: &str, lines: &[&str]) -> Vec<String> {
    let q = parse(query).unwrap();
    let mut engine = Engine::new(&q);
    let mut out = Vec::new();
    for line in lines {
        if let Some(row) = engine.accept(&parse_line(line).unwrap().0, env()) {
            out.push(record_to_json(&row));
        }
    }
    out.extend(engine.finish(env()).iter().map(record_to_json));
    out
}

#[test]
fn a_label_keeps_its_capitals() {
    assert_eq!(typed("select LOWER(level), Count(*) group by LOWER(level)"), vec!["LOWER(level)", "Count(*)"]);
    let q = parse("SELECT count(*) GROUP BY Lower(level)").unwrap();
    assert_eq!(q.group_by[0].label, "Lower(level)");
}

#[test]
fn a_label_keeps_the_spaces_between_its_tokens() {
    assert_eq!(typed("select substr(msg,0), substr( msg , 0 )"), vec!["substr(msg,0)", "substr( msg , 0 )"]);
    assert_eq!(typed("select a  +  b, (a), 5m, 1.50"), vec!["a  +  b", "(a)", "5m", "1.50"]);
}

#[test]
fn a_label_keeps_the_quotes_of_a_string() {
    assert_eq!(typed("select coalesce(a, 'x -- y')"), vec!["coalesce(a, 'x -- y')"]);
    assert_eq!(typed("select concat(a, \"\\n\")"), vec!["concat(a, \"\\n\")"]);
}

#[test]
fn a_label_ends_before_white_space_and_comments() {
    assert_eq!(typed("select a -- the first\n, b   "), vec!["a", "b"]);
    assert_eq!(typed("select 'x -- y'  -- text\n limit 1"), vec!["'x -- y'"]);
    assert_eq!(typed("select a + -- plus\n b"), vec!["a + -- plus\n b"]);
}

#[test]
fn an_alias_still_names_the_column() {
    assert_eq!(typed("select LOWER(level) as lvl, MSG as 'The Message'"), vec!["lvl", "The Message"]);
}

#[test]
fn columns_are_headed_as_typed() {
    let lines = [r#"{"level":"INFO","ms":1}"#, r#"{"level":"info","ms":2}"#];
    assert_eq!(run("select LOWER(level)", &lines), vec![r#"{"LOWER(level)":"info"}"#; 2]);
    assert_eq!(
        run("select LOWER(level), SUM(ms), Count( * ) group by lower(level) order by sum(ms)", &lines),
        vec![r#"{"LOWER(level)":"info","SUM(ms)":3,"Count( * )":2}"#]
    );
}

#[test]
fn a_bracketed_value_is_an_operand() {
    match parse_expr("(a) > 3").unwrap() {
        Expr::Compare { op, left, right } => {
            assert!(op == CmpOp::Gt);
            assert_eq!(field(&left), "a");
            assert!(matches!(right, ValueExpr::Lit(Literal::Num(n)) if n == num(3.0)));
        },
        other => panic!("expected a comparison, got {other:?}"),
    }
    assert!(holds("(a + b) > 3", r#"{"a":2,"b":2}"#));
    assert!(!holds("(a + b) > 3", r#"{"a":2,"b":1}"#));
    assert!(holds("((a)) = (1)", r#"{"a":1}"#));
    assert!(holds("(a) - (b - c) = 4", r#"{"a":5,"b":3,"c":2}"#));
}

#[test]
fn a_bracketed_value_can_be_matched() {
    assert!(holds("(a) like \"x%\"", r#"{"a":"xy"}"#));
    assert!(!holds("(a) not like \"x%\"", r#"{"a":"xy"}"#));
    assert!(holds("(lower(a)) like ('x%')", r#"{"a":"XY"}"#));
}

#[test]
fn a_bracketed_aggregate_can_be_compared() {
    let lines = [r#"{"k":"a"}"#, r#"{"k":"a"}"#, r#"{"k":"b"}"#];
    assert_eq!(run("select k group by k having (count(*)) > 1", &lines), vec![r#"{"k":"a"}"#]);
}

#[test]
fn a_bracketed_condition_is_still_one() {
    assert!(holds("(a = 1 or b = 2) and c", r#"{"a":1,"c":true}"#));
    assert!(holds("not (a = 1)", r#"{"a":2}"#));
    assert!(holds("((a) = 1) and ((b))", r#"{"a":1,"b":"x"}"#));
    assert!(holds("(a)", r#"{"a":1}"#));
    assert!(!holds("(a)", r#"{"a":0}"#));
    assert!(holds("(a) + b", r#"{"a":1,"b":1}"#));
    let e = parse_expr("(a").unwrap_err();
    assert!(e.message.contains("`)` to close the group"), "{}", e.message);
}

#[test]
fn nothing_is_found_at_once() {
    let hay: Vec<char> = "abcabc".chars().collect();
    let needle: Vec<char> = "bc".chars().collect();
    assert_eq!(find_from(&hay, 6, 0, &needle), Some(1));
    assert_eq!(find_from(&hay, 6, 2, &needle), Some(4));
    assert_eq!(find_from(&hay, 5, 2, &needle), None);
    assert_eq!(find_from(&hay, 6, 2, &[]), Some(2));
    assert_eq!(find_from(&hay, 6, 6, &[]), Some(6));
}
