use logquery::json::parse_json;
use logquery::num::Num;
use logquery::pattern::Pattern;
use logquery::record::{lookup, parse_line, parse_logfmt, parse_with_pattern, Format};
use logquery::value::{Number, Record, Value};

fn text(s: &str) -> Value {
    Value::Str(s.to_string())
}

fn whole(n: i64) -> Value {
    Value::Number(Number::from_i64(n))
}

fn float(x: f64) -> Value {
    Value::Number(Number::Float(Num { bits: x.to_bits() }))
}

fn json(s: &str) -> Value {
    parse_json(s).unwrap()
}

fn at(r: &Record, key: &str) -> Value {
    r.get(key).unwrap().clone()
}

fn rec(v: Value) -> Record {
    match v {
        Value::Object(r) => r,
        other => panic!("expected an object, got {other:?}"),
    }
}

#[test]
fn detects_json_lines() {
    let (r, f) = parse_line(r#"{"level":"error","code":500}"#).unwrap();
    assert_eq!(f, Format::Json);
    assert_eq!(at(&r, "level"), text("error"));
    assert_eq!(at(&r, "code"), whole(500));
}

#[test]
fn detects_logfmt() {
    let (r, f) = parse_line("level=error code=500").unwrap();
    assert_eq!(f, Format::Logfmt);
    assert_eq!(at(&r, "level"), text("error"));
    assert_eq!(at(&r, "code"), whole(500));
}

#[test]
fn blank_lines_are_skipped() {
    assert!(parse_line("").is_none());
    assert!(parse_line("   \t ").is_none());
}

#[test]
fn malformed_json_is_rejected_not_reparsed_as_logfmt() {
    assert!(parse_line(r#"{"level":"error""#).is_none());
}

#[test]
fn json_scalars_and_arrays_are_not_records() {
    assert!(parse_line("[1,2,3]").is_none());
    assert!(parse_line("42").is_none());
}

#[test]
fn logfmt_handles_quoted_values_with_spaces() {
    let r = parse_logfmt(r#"level=info msg="connection reset by peer" code=104"#).unwrap();
    assert_eq!(at(&r, "msg"), text("connection reset by peer"));
    assert_eq!(at(&r, "code"), whole(104));
}

#[test]
fn logfmt_handles_escapes_inside_quotes() {
    let r = parse_logfmt(r#"msg="he said \"hi\"\nbye" path="C:\\tmp""#).unwrap();
    assert_eq!(at(&r, "msg"), text("he said \"hi\"\nbye"));
    assert_eq!(at(&r, "path"), text("C:\\tmp"));
}

#[test]
fn logfmt_keeps_unknown_escapes_verbatim() {
    let r = parse_logfmt(r#"re="\d+""#).unwrap();
    assert_eq!(at(&r, "re"), text("\\d+"));
}

#[test]
fn logfmt_quoted_numbers_stay_strings() {
    let r = parse_logfmt(r#"a=42 b="42""#).unwrap();
    assert_eq!(at(&r, "a"), whole(42));
    assert_eq!(at(&r, "b"), text("42"));
}

#[test]
fn logfmt_types_bare_values() {
    let r = parse_logfmt("i=7 f=1.5 neg=-3 t=true f2=false n=null s=12ms v=1.2.3").unwrap();
    assert_eq!(at(&r, "i"), whole(7));
    assert_eq!(at(&r, "f"), float(1.5));
    assert_eq!(at(&r, "neg"), whole(-3));
    assert_eq!(at(&r, "t"), Value::Bool(true));
    assert_eq!(at(&r, "f2"), Value::Bool(false));
    assert_eq!(at(&r, "n"), Value::Null);
    assert_eq!(at(&r, "s"), text("12ms"));
    assert_eq!(at(&r, "v"), text("1.2.3"));
}

#[test]
fn plain_prose_is_not_logfmt() {
    assert!(parse_line("2026-07-27 12:00:00 starting up").is_none());
    assert!(parse_logfmt("just some words").is_none());
}

#[test]
fn logfmt_bare_key_is_a_flag() {
    let r = parse_logfmt("cached level=info").unwrap();
    assert_eq!(at(&r, "cached"), Value::Bool(true));
    assert_eq!(at(&r, "level"), text("info"));
}

#[test]
fn logfmt_empty_value_is_null() {
    let r = parse_logfmt("err= level=info").unwrap();
    assert_eq!(at(&r, "err"), Value::Null);
}

#[test]
fn logfmt_empty_quoted_value_is_an_empty_string() {
    let r = parse_logfmt(r#"err="""#).unwrap();
    assert_eq!(at(&r, "err"), text(""));
}

#[test]
fn logfmt_unterminated_quote_is_rejected() {
    assert!(parse_logfmt(r#"msg="never ends"#).is_none());
}

#[test]
fn logfmt_tolerates_extra_whitespace() {
    let r = parse_logfmt("  a=1\t\tb=2   ").unwrap();
    assert_eq!(r.len(), 2);
    assert_eq!(at(&r, "b"), whole(2));
}

#[test]
fn logfmt_later_key_wins() {
    let r = parse_logfmt("a=1 a=2").unwrap();
    assert_eq!(at(&r, "a"), whole(2));
}

#[test]
fn logfmt_stray_equals_does_not_hang() {
    let r = parse_logfmt("= a=1").unwrap();
    assert_eq!(at(&r, "a"), whole(1));
}

#[test]
fn lookup_reads_a_top_level_field() {
    let r = rec(json(r##"{"level": "warn"}"##));
    assert_eq!(lookup(&r, &["level".into()]), Some(&text("warn")));
}

#[test]
fn lookup_walks_nested_objects() {
    let r = rec(json(r##"{"user": {"id": 7, "name": {"first": "ada"}}}"##));
    assert_eq!(lookup(&r, &["user".into(), "id".into()]), Some(&whole(7)));
    assert_eq!(
        lookup(&r, &["user".into(), "name".into(), "first".into()]),
        Some(&text("ada"))
    );
}

#[test]
fn lookup_indexes_arrays() {
    let r = rec(json(r##"{"items": [{"id": 1}, {"id": 2}]}"##));
    assert_eq!(
        lookup(&r, &["items".into(), "1".into(), "id".into()]),
        Some(&whole(2))
    );
    assert_eq!(lookup(&r, &["items".into(), "9".into()]), None);
    assert_eq!(lookup(&r, &["items".into(), "x".into()]), None);
}

#[test]
fn lookup_of_a_missing_path_is_none() {
    let r = rec(json(r##"{"user": {"id": 7}}"##));
    assert_eq!(lookup(&r, &["nope".into()]), None);
    assert_eq!(lookup(&r, &["user".into(), "nope".into()]), None);
    // Descending into a scalar is missing, not an error.
    assert_eq!(lookup(&r, &["user".into(), "id".into(), "x".into()]), None);
}

#[test]
fn lookup_distinguishes_present_null_from_missing() {
    let r = rec(json(r##"{"err": null}"##));
    assert_eq!(lookup(&r, &["err".into()]), Some(&Value::Null));
    assert_eq!(lookup(&r, &["other".into()]), None);
}

#[test]
fn a_dotted_json_key_is_reachable_when_nesting_is_absent() {
    // Some emitters write flat keys containing dots. The first segment is
    // tried against the map, so `a.b` only resolves via nesting; this test
    // pins the documented behaviour.
    let r = rec(json(r##"{"a": {"b": 1}}"##));
    assert_eq!(lookup(&r, &["a".into(), "b".into()]), Some(&whole(1)));
}

#[test]
fn a_pattern_extracts_named_fields_from_plain_text() {
    let p = Pattern::compile(
        r#"^(?<ip>[0-9.]+) \S+ \S+ \[(?<when>[^\]]+)\] "(?<method>[A-Z]+) (?<path>\S+)[^"]*" (?<status>\d+) (?<bytes>\d+)"#,
    )
    .unwrap();
    let line = r#"10.0.0.7 - - [27/Jul/2026:10:00:00 +0000] "GET /v1/users HTTP/1.1" 503 1274"#;
    let r = parse_with_pattern(line, &p).unwrap();
    assert_eq!(at(&r, "ip"), text("10.0.0.7"));
    assert_eq!(at(&r, "method"), text("GET"));
    assert_eq!(at(&r, "path"), text("/v1/users"));
    // Numbers are typed, so `status >= 500` needs no cast.
    assert_eq!(at(&r, "status"), whole(503));
    assert_eq!(at(&r, "bytes"), whole(1274));
}

#[test]
fn a_line_the_pattern_does_not_match_is_no_record() {
    let p = Pattern::compile(r"^(?<level>[A-Z]+) (?<msg>.+)").unwrap();
    assert!(parse_with_pattern("ERROR upstream timeout", &p).is_some());
    assert!(parse_with_pattern("not shaped like that", &p).is_none());
}

#[test]
fn a_group_that_did_not_take_part_is_absent() {
    let p = Pattern::compile(r"^(?<a>x)|(?<b>y)$").unwrap();
    let r = parse_with_pattern("y", &p).unwrap();
    assert!(!r.get("a").is_some());
    assert_eq!(at(&r, "b"), text("y"));
}
