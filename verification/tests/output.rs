use logquery::engine::Row;
use logquery::json::parse_json;
use logquery::num::Num;
use logquery::output::{cell_text, csv_escape, writer, Format};
use logquery::value::{Number, Value};

fn text(s: &str) -> Value {
    Value::Str(s.to_string())
}

fn whole(n: i64) -> Value {
    Value::Number(Number::from_i64(n))
}

fn float(x: f64) -> Value {
    Value::Number(Number::Float(Num { bits: x.to_bits() }))
}

fn json(s: &str) -> Value {
    parse_json(s).unwrap()
}

fn row(v: Value) -> Row {
    match v {
        Value::Object(r) => r,
        other => panic!("expected an object, got {other:?}"),
    }
}

fn render(format: Format, columns: Option<Vec<String>>, rows: &[Value]) -> String {
    let mut w = writer(format, columns, false);
    let mut out = String::new();
    for r in rows {
        out.push_str(&w.write(&row(r.clone())));
    }
    out.push_str(&w.finish());
    out
}

#[test]
fn format_names_parse() {
    assert_eq!(Format::parse("table"), Some(Format::Table));
    assert_eq!(Format::parse("JSON"), Some(Format::Json));
    assert_eq!(Format::parse("ndjson"), Some(Format::Json));
    assert_eq!(Format::parse("csv"), Some(Format::Csv));
    assert_eq!(Format::parse("yaml"), None);
}

#[test]
fn json_output_is_one_object_per_line() {
    let out = render(
        Format::Json,
        Some(vec!["a".into()]),
        &[json(r##"{"a": 1}"##), json(r##"{"a": "x"}"##)],
    );
    assert_eq!(out, "{\"a\":1}\n{\"a\":\"x\"}\n");
}

#[test]
fn csv_writes_a_header_then_rows() {
    let out = render(
        Format::Csv,
        Some(vec!["level".into(), "msg".into()]),
        &[json(r##"{"level": "error", "msg": "boom"}"##)],
    );
    assert_eq!(out, "level,msg\nerror,boom\n");
}

#[test]
fn csv_quotes_when_needed() {
    assert_eq!(csv_escape("plain"), "plain");
    assert_eq!(csv_escape("a,b"), "\"a,b\"");
    assert_eq!(csv_escape("say \"hi\""), "\"say \"\"hi\"\"\"");
    assert_eq!(csv_escape("line\nbreak"), "\"line\nbreak\"");
}

#[test]
fn csv_leaves_missing_fields_empty() {
    let out = render(
        Format::Csv,
        Some(vec!["a".into(), "b".into()]),
        &[json(r##"{"a": 1}"##)],
    );
    assert_eq!(out, "a,b\n1,\n");
}

#[test]
fn csv_star_header_is_the_union_of_keys() {
    let out = render(Format::Csv, None, &[json(r##"{"a": 1}"##), json(r##"{"b": 2}"##)]);
    assert_eq!(out, "a,b\n1,\n,2\n");
}

#[test]
fn table_aligns_columns_and_underlines_the_header() {
    let out = render(
        Format::Table,
        Some(vec!["level".into(), "msg".into()]),
        &[
            json(r##"{"level": "error", "msg": "upstream timeout"}"##),
            json(r##"{"level": "info", "msg": "ok"}"##),
        ],
    );
    let lines: Vec<&str> = out.lines().collect();
    assert_eq!(lines[0], "level  msg");
    assert_eq!(lines[1], "-----  ----------------");
    assert_eq!(lines[2], "error  upstream timeout");
    assert_eq!(lines[3], "info   ok");
}

#[test]
fn table_widens_to_fit_the_header() {
    let out = render(
        Format::Table,
        Some(vec!["duration_ms".into()]),
        &[json(r##"{"duration_ms": 3}"##)],
    );
    let lines: Vec<&str> = out.lines().collect();
    assert_eq!(lines[0], "duration_ms");
    assert_eq!(lines[2], "3");
}

#[test]
fn table_star_discovers_columns_in_first_seen_order() {
    let out = render(
        Format::Table,
        None,
        &[json(r##"{"b": 1, "a": 2}"##), json(r##"{"c": 3}"##)],
    );
    assert_eq!(out.lines().next().unwrap(), "b  a  c");
}

#[test]
fn table_escapes_embedded_newlines() {
    let out = render(
        Format::Table,
        Some(vec!["msg".into()]),
        &[json(r##"{"msg": "a\nb"}"##)],
    );
    assert_eq!(out.lines().count(), 3);
    assert_eq!(out.lines().nth(2).unwrap(), "a\\nb");
}

#[test]
fn empty_output_produces_nothing() {
    assert_eq!(render(Format::Table, None, &[]), "");
    assert_eq!(render(Format::Csv, None, &[]), "");
    assert_eq!(render(Format::Json, None, &[]), "");
}

#[test]
fn cell_text_renders_each_json_type() {
    assert_eq!(cell_text(None), "");
    assert_eq!(cell_text(Some(&text("hi"))), "hi");
    assert_eq!(cell_text(Some(&whole(3))), "3");
    assert_eq!(cell_text(Some(&float(1.5))), "1.5");
    assert_eq!(cell_text(Some(&Value::Bool(true))), "true");
    assert_eq!(cell_text(Some(&Value::Null)), "null");
    assert_eq!(cell_text(Some(&json(r##"["a"]"##))), "[\"a\"]");
    assert_eq!(cell_text(Some(&json(r##"{"k": 1}"##))), "{\"k\":1}");
}

#[test]
fn incremental_table_prints_rows_as_they_arrive() {
    let mut w = writer(Format::Table, Some(vec!["a".into()]), true);
    let after_first = w.write(&row(json(r##"{"a": 1}"##)));
    assert_eq!(after_first, "a\n-\n1\n");

    let mut all = after_first;
    all.push_str(&w.write(&row(json(r##"{"a": "wide value"}"##))));
    all.push_str(&w.finish());
    // The wider row forces a fresh header.
    assert_eq!(
        all.lines().collect::<Vec<_>>(),
        vec!["a", "-", "1", "a", "----------", "wide value"]
    );
}
