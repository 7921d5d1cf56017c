use logquery::engine::{Engine, Row};
use logquery::eval::Env;
use logquery::num::Num;
use logquery::parser::parse;
use logquery::record::parse_line;
use logquery::value::{Number, Record, Value};

fn text(s: &str) -> Value {
    Value::Str(s.to_string())
}

fn whole(n: i64) -> Value {
    Value::Number(Number::from_i64(n))
}

fn to_f64(v: &Value) -> f64 {
    match v {
        Value::Number(n) => f64::from_bits(n.to_num().bits),
        other => panic!("expected a number, got {other:?}"),
    }
}

fn as_str<'a>(r: &'a Record, key: &str) -> &'a str {
    match r.get(key) {
        Some(Value::Str(s)) => s.as_str(),
        other => panic!("expected a string, got {other:?}"),
    }
}

fn env() -> Env {
    Env { now: Num { bits: 0 }, local_offset: 0 }
}

fn at(r: &Record, key: &str) -> Value {
    r.get(key).unwrap().clone()
}

fn run(query: &str, lines: &[&str]) -> Vec<Row> {
    let q = parse(query).unwrap();
    let mut engine = Engine::new(&q);
    let mut out = Vec::new();
    for line in lines {
        if engine.is_done() {
            break;
        }
        if let Some((rec, _)) = parse_line(line) {
            if let Some(row) = engine.accept(&rec, env()) {
                out.push(row);
            }
        }
    }
    out.extend(engine.finish(env()));
    out
}

const LOG: &[&str] = &[
    r#"{"ts":"2026-07-27T10:00:00Z","level":"info","msg":"server started","duration_ms":3}"#,
    r#"{"ts":"2026-07-27T10:00:01Z","level":"error","msg":"upstream timeout","duration_ms":1500,"user":{"id":7}}"#,
    r#"level=warn msg="disk 82% full" duration_ms=12"#,
    r#"{"ts":"2026-07-27T10:00:03Z","level":"error","msg":"upstream timeout","duration_ms":40,"user":{"id":9}}"#,
    r#"level=info msg="request served" duration_ms=250"#,
    r#"not a log line at all"#,
    r#"{"level":"error","msg":"disk write failed"}"#,
];

#[test]
fn select_star_returns_whole_records() {
    let rows = run("select *", LOG);
    assert_eq!(rows.len(), 6);
    assert_eq!(at(&rows[0], "msg"), text("server started"));
}

#[test]
fn select_fields_projects_in_query_order() {
    let rows = run("select msg, level", LOG);
    let keys: Vec<&str> = rows[0].entries.iter().map(|e| e.0.as_str()).collect();
    assert_eq!(keys, vec!["msg", "level"]);
}

#[test]
fn where_filters_records() {
    let rows = run(r#"select msg where level = "error""#, LOG);
    assert_eq!(rows.len(), 3);
    assert!(rows.iter().all(|r| !as_str(r, "msg").is_empty()));
}

#[test]
fn end_to_end_compound_filter() {
    let rows = run(
        r#"select level, msg where level = "error" and duration_ms > 100"#,
        LOG,
    );
    assert_eq!(rows.len(), 1);
    assert_eq!(at(&rows[0], "msg"), text("upstream timeout"));
}

#[test]
fn filter_spans_both_input_formats() {
    let rows = run("select msg where duration_ms > 10", LOG);
    let msgs: Vec<&str> = rows.iter().map(|r| as_str(r, "msg")).collect();
    assert_eq!(
        msgs,
        vec!["upstream timeout", "disk 82% full", "upstream timeout", "request served"]
    );
}

#[test]
fn limit_caps_the_output() {
    let rows = run("select msg limit 2", LOG);
    assert_eq!(rows.len(), 2);
}

#[test]
fn limit_zero_emits_nothing() {
    assert!(run("select * limit 0", LOG).is_empty());
}

#[test]
fn streaming_engine_stops_early() {
    let q = parse("select * limit 1").unwrap();
    let mut e = Engine::new(&q);
    assert!(!e.is_done());
    let (rec, _) = parse_line(LOG[0]).unwrap();
    assert!(e.accept(&rec, env()).is_some());
    assert!(e.is_done());
    assert!(e.accept(&rec, env()).is_none());
}

#[test]
fn ordering_engine_is_not_done_until_finished() {
    let q = parse("select * order by level limit 1").unwrap();
    let mut e = Engine::new(&q);
    let (rec, _) = parse_line(LOG[0]).unwrap();
    assert!(e.accept(&rec, env()).is_none());
    assert!(!e.is_done());
    assert_eq!(e.finish(env()).len(), 1);
}

#[test]
fn order_by_ascending_and_descending() {
    let asc = run("select duration_ms order by duration_ms", LOG);
    let got: Vec<f64> = asc
        .iter()
        .filter_map(|r| r.get("duration_ms").map(to_f64))
        .collect();
    assert_eq!(got, vec![3.0, 12.0, 40.0, 250.0, 1500.0]);

    let desc = run("select duration_ms order by duration_ms desc", LOG);
    let got: Vec<f64> = desc
        .iter()
        .filter_map(|r| r.get("duration_ms").map(to_f64))
        .collect();
    assert_eq!(got, vec![1500.0, 250.0, 40.0, 12.0, 3.0]);
}

#[test]
fn order_by_a_field_that_was_not_selected() {
    let rows = run("select msg order by duration_ms desc limit 1", LOG);
    assert_eq!(rows.len(), 1);
    assert_eq!(at(&rows[0], "msg"), text("upstream timeout"));
    assert!(!rows[0].get("\u{0}sort").is_some());
    assert_eq!(rows[0].len(), 1);
}

#[test]
fn records_missing_the_sort_field_go_last_in_both_directions() {
    for q in [
        "select level, duration_ms order by duration_ms",
        "select level, duration_ms order by duration_ms desc",
    ] {
        let rows = run(q, LOG);
        assert!(!rows.last().unwrap().get("duration_ms").is_some(), "{q}");
    }
}

#[test]
fn order_then_limit_applies_after_sorting() {
    let rows = run("select duration_ms order by duration_ms desc limit 2", LOG);
    let got: Vec<f64> = rows
        .iter()
        .map(|r| to_f64(r.get("duration_ms").unwrap()))
        .collect();
    assert_eq!(got, vec![1500.0, 250.0]);
}

#[test]
fn dotted_projection_uses_the_written_path_as_the_column_name() {
    let rows = run("select user.id where user.id > 0", LOG);
    assert_eq!(rows.len(), 2);
    assert_eq!(at(&rows[0], "user.id"), whole(7));
}

#[test]
fn missing_projected_field_is_absent_from_the_row() {
    let rows = run(r#"select ts, msg where msg = "disk write failed""#, LOG);
    assert_eq!(rows.len(), 1);
    assert!(!rows[0].get("ts").is_some());
    assert!(rows[0].get("msg").is_some());
}

#[test]
fn like_query_end_to_end() {
    let rows = run(r#"select msg where msg like "%timeout%""#, LOG);
    assert_eq!(rows.len(), 2);
}

#[test]
fn columns_reflect_the_selection() {
    let q = parse("select a, b.c").unwrap();
    assert_eq!(
        Engine::new(&q).columns(),
        Some(vec!["a".to_string(), "b.c".to_string()])
    );
    let q = parse("select *").unwrap();
    assert_eq!(Engine::new(&q).columns(), None);
}

#[test]
fn ordering_is_stable_for_ties() {
    let lines = [
        r#"{"k":1,"id":"a"}"#,
        r#"{"k":1,"id":"b"}"#,
        r#"{"k":1,"id":"c"}"#,
    ];
    let rows = run("select id order by k", &lines);
    let ids: Vec<&str> = rows.iter().map(|r| as_str(r, "id")).collect();
    assert_eq!(ids, vec!["a", "b", "c"]);
}
