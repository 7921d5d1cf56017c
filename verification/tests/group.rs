use logquery::ast::{Expr, Selection, ValueExpr};
use logquery::eval::Env;
use logquery::group::{collect_aggregates, Grouper, Plan};
use logquery::num::Num;
use logquery::parser::parse;
use logquery::record::parse_line;
use logquery::value::{Number, Record, Value};

fn text(s: &str) -> Value {
    Value::Str(s.to_string())
}

fn whole(n: i64) -> Value {
    Value::Number(Number::from_i64(n))
}

fn to_f64(v: &Value) -> f64 {
    match v {
        Value::Number(n) => f64::from_bits(n.to_num().bits),
        other => panic!("expected a number, got {other:?}"),
    }
}

fn env() -> Env {
    Env { now: Num { bits: 0 }, local_offset: 0 }
}

fn at(r: &Record, key: &str) -> Value {
    r.get(key).unwrap().clone()
}

fn group(query: &str, lines: &[&str]) -> Vec<Record> {
    let q = parse(query).unwrap();
    let mut g = Grouper::new(&q);
    for line in lines {
        if let Some((rec, _)) = parse_line(line) {
            g.accept(&rec, env());
        }
    }
    g.finish()
}

const LOG: &[&str] = &[
    r#"{"level":"info","ms":10,"user":"ana"}"#,
    r#"{"level":"error","ms":200,"user":"bo"}"#,
    r#"{"level":"error","ms":50,"user":"ana"}"#,
    r#"{"level":"info","user":"ana"}"#,
    r#"{"level":"error","ms":"90","user":"cy"}"#,
];

#[test]
fn counts_records_per_group() {
    let rows = group("select level, count(*) group by level", LOG);
    assert_eq!(rows.len(), 2);
    assert_eq!(at(&rows[0], "level"), text("info"));
    assert_eq!(at(&rows[0], "count(*)"), whole(2));
    assert_eq!(at(&rows[1], "level"), text("error"));
    assert_eq!(at(&rows[1], "count(*)"), whole(3));
}

#[test]
fn groups_keep_the_order_they_first_appeared() {
    let rows = group("select level, count(*) group by level", LOG);
    let levels: Vec<Value> = rows.iter().map(|r| at(r, "level")).collect();
    assert_eq!(levels, vec![text("info"), text("error")]);
}

#[test]
fn count_of_a_value_skips_records_that_lack_it() {
    let rows = group("select level, count(ms) group by level", LOG);
    assert_eq!(at(&rows[0], "count(ms)"), whole(1));
    assert_eq!(at(&rows[1], "count(ms)"), whole(3));
}

#[test]
fn sum_and_avg_use_the_values_that_are_there() {
    let rows = group("select level, sum(ms), avg(ms) group by level", LOG);
    // info has one value, 10.
    assert_eq!(at(&rows[0], "sum(ms)"), whole(10));
    assert_eq!(at(&rows[0], "avg(ms)"), whole(10));
    // error has 200, 50 and the string "90", which casts to a number.
    assert_eq!(at(&rows[1], "sum(ms)"), whole(340));
    assert_eq!(
        to_f64(&at(&rows[1], "avg(ms)")),
        340.0 / 3.0
    );
}

#[test]
fn min_and_max_span_the_group() {
    let rows = group("select level, min(ms), max(ms) group by level", LOG);
    assert_eq!(at(&rows[1], "min(ms)"), whole(50));
    assert_eq!(at(&rows[1], "max(ms)"), whole(200));
}

#[test]
fn first_and_last_pick_the_ends_of_the_group() {
    let rows = group("select level, first(user), last(user) group by level", LOG);
    assert_eq!(at(&rows[1], "first(user)"), text("bo"));
    assert_eq!(at(&rows[1], "last(user)"), text("cy"));
}

#[test]
fn count_distinct_counts_values_not_records() {
    let rows = group("select level, count_distinct(user) group by level", LOG);
    assert_eq!(at(&rows[0], "count_distinct(user)"), whole(1));
    assert_eq!(at(&rows[1], "count_distinct(user)"), whole(3));
}

#[test]
fn an_aggregate_with_no_group_by_folds_the_whole_input() {
    let rows = group("select count(*), max(ms)", LOG);
    assert_eq!(rows.len(), 1);
    assert_eq!(at(&rows[0], "count(*)"), whole(5));
    assert_eq!(at(&rows[0], "max(ms)"), whole(200));
}

#[test]
fn a_sum_with_nothing_numeric_is_absent_rather_than_zero() {
    let lines = [r#"{"level":"info","ms":"soon"}"#];
    let rows = group("select level, sum(ms), count(*) group by level", &lines);
    assert!(!rows[0].get("sum(ms)").is_some());
    assert_eq!(at(&rows[0], "count(*)"), whole(1));
}

#[test]
fn a_missing_key_is_its_own_group() {
    let lines = [
        r#"{"level":"info"}"#,
        r#"{"msg":"no level here"}"#,
        r#"{"level":null}"#,
    ];
    let rows = group("select level, count(*) group by level", &lines);
    assert_eq!(rows.len(), 3);
    // The record without the key has no value to print for it.
    assert!(!rows[1].get("level").is_some());
    assert_eq!(at(&rows[2], "level"), Value::Null);
}

#[test]
fn values_of_different_types_do_not_share_a_group() {
    let lines = [r#"{"k":"1"}"#, r#"{"k":1}"#];
    let rows = group("select k, count(*) group by k", &lines);
    assert_eq!(rows.len(), 2);
}

#[test]
fn a_computed_key_groups_by_its_result() {
    let lines = [
        r#"{"level":"ERROR"}"#,
        r#"{"level":"error"}"#,
        r#"{"level":"info"}"#,
    ];
    let rows = group("select lower(level), count(*) group by lower(level)", &lines);
    assert_eq!(rows.len(), 2);
    assert_eq!(at(&rows[0], "lower(level)"), text("error"));
    assert_eq!(at(&rows[0], "count(*)"), whole(2));
}

#[test]
fn a_key_alias_is_available_alongside_the_expression() {
    let lines = [r#"{"level":"ERROR"}"#];
    let q = parse("select lower(level) as lvl, count(*) group by lower(level) as lvl").unwrap();
    let mut g = Grouper::new(&q);
    let (rec, _) = parse_line(lines[0]).unwrap();
    g.accept(&rec, env());
    let rows = g.finish();
    assert_eq!(at(&rows[0], "lvl"), text("error"));
    assert_eq!(at(&rows[0], "lower(level)"), text("error"));
}

#[test]
fn two_keys_make_a_compound_group() {
    let lines = [
        r#"{"level":"error","host":"a"}"#,
        r#"{"level":"error","host":"b"}"#,
        r#"{"level":"error","host":"a"}"#,
    ];
    let rows = group("select level, host, count(*) group by level, host", &lines);
    assert_eq!(rows.len(), 2);
    assert_eq!(at(&rows[0], "count(*)"), whole(2));
}

#[test]
fn the_plan_rewrites_a_group_key_buried_in_a_call() {
    let q = parse(
        "select format_time(bucket(ts, 5m)) as window, count(*) group by bucket(ts, 5m)",
    )
    .unwrap();
    let plan = Plan::new(&q);
    let Selection::Items(items) = &plan.select else {
        panic!("expected a select list")
    };
    // The inner `bucket(...)` is now a lookup of the folded column.
    assert_eq!(items[0].value.to_string(), "format_time(bucket(ts, 300s))");
    match &items[0].value {
        ValueExpr::Call { args, .. } => assert!(
            matches!(&args[0], ValueExpr::Field(p) if p.segments.len() == 1),
            "the key should be a single-segment lookup"
        ),
        other => panic!("expected a call, got {other:?}"),
    }
}

#[test]
fn the_plan_rewrites_a_group_key_in_having() {
    let q =
        parse(r#"select lower(level), count(*) group by lower(level) having lower(level) = "error""#);
    let q = q.unwrap();
    let plan = Plan::new(&q);
    match plan.having.unwrap() {
        Expr::Compare { left, .. } => {
            assert!(matches!(left, ValueExpr::Field(p) if p.raw == "lower(level)"))
        }
        other => panic!("expected a comparison, got {other:?}"),
    }
}

#[test]
fn repeating_an_aggregate_shares_one_accumulator() {
    let q = parse("select count(*) group by level having count(*) > 1").unwrap();
    let specs = collect_aggregates(&q);
    assert_eq!(specs.len(), 1);
    assert_eq!(specs[0].key, "count(*)");
}

#[test]
fn aggregates_are_collected_from_select_and_having() {
    let q = parse("select level, count(*) group by level having max(ms) > 100").unwrap();
    let specs = collect_aggregates(&q);
    let keys: Vec<&str> = specs.iter().map(|s| s.key.as_str()).collect();
    assert_eq!(keys, vec!["count(*)", "max(ms)"]);
}
