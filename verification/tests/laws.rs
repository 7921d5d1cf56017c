use logquery::arrange::arrange;
use logquery::args::{parse_args, Input};
use logquery::ast::{Agg, ArithOp, CmpOp, Func};
use logquery::engine::Engine;
use logquery::eval::{arith, call, compare, compare_values, eval_value, values_equal, Env};
use logquery::group::{collect_aggregates, key_identity, Grouper, State};
use logquery::json::{parse_json, record_to_json, to_json};
use logquery::lexer::tokenize;
use logquery::like::like_match;
use logquery::num::Num;
use logquery::output::{csv_escape, writer, Format};
use logquery::parser::{parse, parse_expr};
use logquery::pattern::Pattern;
use logquery::record::{parse_line, parse_with_pattern};
use logquery::stream::{handle_bytes, Action, Tail};
use logquery::timeutil::{civil_from_days, days_from_civil, format_epoch, parse_rfc3339};
use logquery::value::{Number, Record, Value};

fn text(s: &str) -> Value {
    Value::Str(s.to_string())
}

fn whole(n: i64) -> Value {
    Value::Number(Number::from_i64(n))
}

fn num(x: f64) -> Num {
    Num { bits: x.to_bits() }
}

fn env() -> Env {
    Env { now: num(1785146400.0), local_offset: 0 }
}

fn json(s: &str) -> Value {
    parse_json(s).unwrap()
}

fn rec(s: &str) -> Record {
    match json(s) {
        Value::Object(r) => r,
        other => panic!("expected an object, got {other:?}"),
    }
}

fn run(query: &str, lines: &[&str]) -> Vec<String> {
    let q = parse(query).unwrap();
    let mut engine = Engine::new(&q);
    let mut out = Vec::new();
    for line in lines {
        if let Some(row) = engine.accept(&parse_line(line).unwrap().0, env()) {
            out.push(record_to_json(&row));
        }
    }
    out.extend(engine.finish(env()).iter().map(record_to_json));
    out
}

fn folded(query: &str, lines: &[&str]) -> Vec<Record> {
    let q = parse(query).unwrap();
    let mut g = Grouper::new(&q);
    for line in lines {
        g.accept(&parse_line(line).unwrap().0, env());
    }
    g.finish()
}

// --- values ---------------------------------------------------------------

#[test]
fn a_field_reads_back_as_written_and_keeps_its_place() {
    let mut r = Record::new();
    r.insert("b".into(), whole(1));
    r.insert("a".into(), whole(2));
    r.insert("b".into(), whole(3));
    assert_eq!(r.get("b"), Some(&whole(3)));
    assert_eq!(r.get("a"), Some(&whole(2)));
    assert_eq!(r.get("c"), None);
    assert_eq!(record_to_json(&r), r#"{"b":3,"a":2}"#);
}

#[test]
fn a_row_written_as_json_reads_back() {
    let line = r#"{"s":"a\"b\\\u0001é","n":-9223372036854775808,"u":18446744073709551615,"l":[null,true,{}]}"#;
    let (r, _) = parse_line(line).unwrap();
    let written = record_to_json(&r);
    assert_eq!(written, line);
    assert_eq!(parse_line(&written).unwrap().0, r);
    assert!(!written.contains('\n'));
}

#[test]
fn json_of_a_string_starts_with_a_quote() {
    assert!(to_json(&text("x")).starts_with('"'));
    for v in ["null", "true", "0", "-1.5", "[]", "{}"] {
        assert!(!to_json(&json(v)).starts_with('"'), "{v}");
    }
}

#[test]
fn json_holds_no_control_characters() {
    let v = text("a\nb\tc\u{1}\u{1f}d");
    assert_eq!(to_json(&v), r#""a\nb\tc\u0001\u001fd""#);
}

// --- expressions ----------------------------------------------------------

const OPS: [CmpOp; 6] = [CmpOp::Eq, CmpOp::Ne, CmpOp::Lt, CmpOp::Le, CmpOp::Gt, CmpOp::Ge];

#[test]
fn comparisons_with_missing_are_false() {
    for op in OPS {
        assert!(!compare(op, &None, &Some(whole(1))));
        assert!(!compare(op, &Some(whole(1)), &None));
        assert!(!compare(op, &None, &None));
    }
    let e = parse_expr("x not like \"a\"").unwrap();
    assert!(!logquery::eval::eval(&e, &rec("{}"), env()));
}

#[test]
fn incomparable_values_are_only_unequal() {
    for op in OPS {
        let want = matches!(op, CmpOp::Ne);
        assert_eq!(compare(op, &Some(Value::Null), &Some(whole(1))), want);
        assert_eq!(compare(op, &Some(text("error")), &Some(whole(500))), want);
        assert_eq!(compare(op, &Some(json("[1]")), &Some(json("[2]"))), want);
    }
}

#[test]
fn composites_and_null_have_no_order() {
    for (a, b) in [("null", "null"), ("[1]", "[1]"), (r#"{"a":1}"#, r#"{"a":1}"#)] {
        let (a, b) = (Some(json(a)), Some(json(b)));
        assert!(compare(CmpOp::Eq, &a, &b));
        assert!(!compare(CmpOp::Ne, &a, &b));
        for op in [CmpOp::Lt, CmpOp::Le, CmpOp::Gt, CmpOp::Ge] {
            assert!(!compare(op, &a, &b));
        }
    }
}

#[test]
fn comparisons_turn() {
    for (a, b) in [("1", "2"), ("\"10\"", "\"9\""), ("true", "0"), ("\"2\"", "10"), ("\"TRUE\"", "false")] {
        let (a, b) = (Some(json(a)), Some(json(b)));
        assert_eq!(compare(CmpOp::Lt, &a, &b), compare(CmpOp::Gt, &b, &a));
        assert_eq!(compare(CmpOp::Le, &a, &b), compare(CmpOp::Ge, &b, &a));
        assert_eq!(compare(CmpOp::Eq, &a, &b), compare(CmpOp::Eq, &b, &a));
    }
}

#[test]
fn strings_compare_as_texts() {
    assert!(compare(CmpOp::Lt, &Some(text("10")), &Some(text("9"))));
    assert!(!compare(CmpOp::Eq, &Some(text("1")), &Some(text("1.0"))));
    assert!(compare(CmpOp::Eq, &Some(text("1.0")), &Some(whole(1))));
}

#[test]
fn words_are_no_numbers() {
    for s in ["inf", "-inf", "infinity", "nan", "NaN", ".", "e5", "-", ""] {
        assert_eq!(call(Func::Num, vec![Some(text(s))], env()), None, "{s}");
    }
    assert!(!compare(CmpOp::Gt, &Some(text("1e999")), &Some(whole(0))));
    assert!(compare(CmpOp::Gt, &Some(text("1e99")), &Some(whole(0))));
}

#[test]
fn functions_of_missing_values_are_missing() {
    let v = || Some(text("2026-01-01T00:00:00Z"));
    for args in [vec![None], vec![v(), None], vec![None, v()]] {
        let many = args.len() == 2;
        for f in [Func::FormatTime, Func::Round] {
            assert_eq!(call(f, args.clone(), env()), None);
        }
        if many {
            for f in [Func::Contains, Func::StartsWith, Func::EndsWith, Func::Bucket, Func::Substr] {
                assert_eq!(call(f, args.clone(), env()), None);
            }
        } else {
            for f in [Func::Lower, Func::Upper, Func::Len, Func::Num, Func::Trim, Func::Abs, Func::Floor, Func::Ceil, Func::Ts, Func::DurationMs] {
                assert_eq!(call(f, args.clone(), env()), None);
            }
        }
    }
    assert_eq!(call(Func::Replace, vec![v(), v(), None], env()), None);
    assert_eq!(call(Func::Substr, vec![v(), Some(whole(0)), None], env()), None);
    assert_eq!(call(Func::Coalesce, vec![None, None], env()), None);
    assert_eq!(call(Func::Concat, vec![None, None], env()), None);
    assert_eq!(call(Func::Coalesce, vec![None, Some(Value::Null), Some(whole(1))], env()), Some(whole(1)));
    assert_eq!(call(Func::Concat, vec![None, Some(text("a")), Some(whole(1))], env()), Some(text("a1")));
}

#[test]
fn sums_with_missing_are_missing() {
    assert_eq!(arith(ArithOp::Add, &None, &Some(whole(1))), None);
    assert_eq!(arith(ArithOp::Sub, &Some(whole(1)), &None), None);
}

#[test]
fn not_negates() {
    for (r, want) in [("{}", false), (r#"{"a":0}"#, false), (r#"{"a":"x"}"#, true), (r#"{"a":[]}"#, false)] {
        let (yes, no) = (parse_expr("a").unwrap(), parse_expr("not a").unwrap());
        assert_eq!(logquery::eval::eval(&yes, &rec(r), env()), want);
        assert_eq!(logquery::eval::eval(&no, &rec(r), env()), !want);
    }
}

#[test]
fn windows_start_at_multiples_of_their_width() {
    for (secs, width, want) in [(1001, 300, 900), (900, 300, 900), (-1, 300, -300), (-300, 300, -300)] {
        let got = call(Func::Bucket, vec![Some(whole(secs)), Some(whole(width))], env()).unwrap();
        assert!(values_equal(&got, &Value::Number(Number::Float(num(want as f64)))), "{secs} {width}: {got:?}");
    }
}

#[test]
fn an_unknown_zone_makes_a_time_missing() {
    let at = |zone: &str| call(Func::FormatTime, vec![Some(whole(0)), Some(text(zone))], env());
    assert_eq!(at("mars"), None);
    assert_eq!(at("+25:00"), None);
    assert_eq!(at("+02:00"), Some(text("1970-01-01T02:00:00+02:00")));
}

// --- queries --------------------------------------------------------------

#[test]
fn names_call_what_they_name() {
    for f in [Func::Lower, Func::Substr, Func::Bucket, Func::FormatTime, Func::DurationMs] {
        assert_eq!(Func::parse(f.name()), Some(f));
        assert_eq!(Agg::parse(f.name()), None);
    }
    for a in [Agg::Count, Agg::CountDistinct, Agg::Avg, Agg::Last] {
        assert_eq!(Agg::parse(a.name()), Some(a));
        assert_eq!(Func::parse(a.name()), None);
    }
}

#[test]
fn tokens_stand_in_order_and_end_with_the_end() {
    let tokens = tokenize("select a.b, 'x' where c >= 5m").unwrap();
    let cols: Vec<usize> = tokens.iter().map(|t| t.col).collect();
    assert_eq!(cols, vec![1, 8, 11, 13, 17, 23, 25, 28, 30]);
}

#[test]
fn keywords_ignore_case_and_fields_keep_it() {
    assert_eq!(parse("SELECT Level WHERE a AND b").unwrap(), parse("select Level where a and b").unwrap());
    assert_ne!(parse("select Level").unwrap(), parse("select level").unwrap());
}

#[test]
fn errors_point_into_the_query() {
    for q in ["", "select", "select a where", "select a,", "select 'x", "select (a", "select a limit", "#"] {
        let e = parse(q).unwrap_err();
        assert!(1 <= e.col && e.col <= q.chars().count() + 1, "{q}: {}", e.col);
    }
}

#[test]
fn like_matches_whole_texts() {
    assert!(like_match("error", "error") && !like_match("errors", "error"));
    assert!(like_match("", "%") && like_match("x\ny", "%"));
    assert!(like_match("an error here", "%error%") && !like_match("err", "%error%"));
}

// --- the engine -----------------------------------------------------------

const LINES: [&str; 5] = [
    "level=info ms=5",
    "level=error ms=30",
    "level=error",
    "level=warn ms=10",
    "level=error ms=20",
];

#[test]
fn a_stream_gives_the_first_rows_and_stops() {
    let q = parse("select ms where level = \"error\" limit 2").unwrap();
    let mut engine = Engine::new(&q);
    let mut sent = Vec::new();
    for line in LINES {
        if engine.is_done() {
            break;
        }
        sent.extend(engine.accept(&parse_line(line).unwrap().0, env()).iter().map(record_to_json));
    }
    assert_eq!(sent, vec![r#"{"ms":30}"#, "{}"]);
    assert!(engine.is_done());
    assert_eq!(engine.accept(&parse_line(LINES[4]).unwrap().0, env()), None);
    assert!(engine.finish(env()).is_empty());
}

#[test]
fn order_comes_before_limit_and_missing_comes_last() {
    assert_eq!(run("select ms order by ms limit 2", &LINES), vec![r#"{"ms":5}"#, r#"{"ms":10}"#]);
    assert_eq!(
        run("select ms order by ms desc", &LINES),
        vec![r#"{"ms":30}"#, r#"{"ms":20}"#, r#"{"ms":10}"#, r#"{"ms":5}"#, "{}"]
    );
    assert_eq!(run("select ms order by ms", &LINES).last().unwrap(), "{}");
}

#[test]
fn sorting_keeps_every_row_and_the_order_of_ties() {
    let rows: Vec<(Option<Value>, Record)> = (0..50)
        .map(|i| {
            let mut r = Record::new();
            r.insert("i".into(), whole(i));
            (if i % 7 == 0 { None } else { Some(whole(i % 5)) }, r)
        })
        .collect();
    for descending in [false, true] {
        let got: Vec<(Option<Value>, i64)> = arrange(rows.clone(), descending)
            .into_iter()
            .map(|(k, r)| match r.get("i") {
                Some(Value::Number(n)) => (k, f64::from_bits(n.to_num().bits) as i64),
                other => panic!("{other:?}"),
            })
            .collect();
        let mut want: Vec<(Option<i64>, i64)> = (0..50).map(|i| (if i % 7 == 0 { None } else { Some(i % 5) }, i)).collect();
        want.sort_by_key(|(k, _)| match k {
            None => i64::MAX,
            Some(n) => if descending { -n } else { *n },
        });
        let want: Vec<(Option<Value>, i64)> = want.into_iter().map(|(k, i)| (k.map(whole), i)).collect();
        assert_eq!(got, want);
    }
}

#[test]
fn rows_hold_what_was_selected_in_its_order() {
    assert_eq!(
        run("select ms as m, level, nope, 1 + 1 as two limit 1", &LINES),
        vec![r#"{"m":5,"level":"info","two":2.0}"#]
    );
    assert_eq!(run("select * limit 0", &LINES), Vec::<String>::new());
}

// --- groups ---------------------------------------------------------------

#[test]
fn groups_stand_in_the_order_first_seen_and_fold_their_records() {
    assert_eq!(
        run("select level, count(*), count(ms), sum(ms), avg(ms), first(ms), last(ms) group by level", &LINES),
        vec![
            r#"{"level":"info","count(*)":1,"count(ms)":1,"sum(ms)":5,"avg(ms)":5,"first(ms)":5,"last(ms)":5}"#,
            r#"{"level":"error","count(*)":3,"count(ms)":2,"sum(ms)":50,"avg(ms)":25,"first(ms)":30,"last(ms)":20}"#,
            r#"{"level":"warn","count(*)":1,"count(ms)":1,"sum(ms)":10,"avg(ms)":10,"first(ms)":10,"last(ms)":10}"#,
        ]
    );
}

#[test]
fn kinds_of_keys_do_not_share_a_group() {
    let lines = [r#"{"k":1}"#, r#"{"k":"1"}"#, r#"{"k":null}"#, "{}", r#"{"k":true}"#, r#"{"k":"\u0000"}"#, r#"{"k":1}"#];
    assert_eq!(folded("select k, count(*) group by k", &lines).len(), 6);
}

#[test]
fn compound_keys_are_told_apart_part_by_part() {
    let lines = [r#"{"a":"x\u0001","b":"y"}"#, r#"{"a":"x","b":"\u0001y"}"#, r#"{"a":"x\u0002","b":"y"}"#, r#"{"a":"x\u0001","b":"y"}"#];
    assert_eq!(folded("select a, b, count(*) group by a, b", &lines).len(), 3);
}

#[test]
fn without_keys_there_is_one_group() {
    assert_eq!(run("select count(*), min(ms), max(ms)", &LINES), vec![r#"{"count(*)":5,"min(ms)":5,"max(ms)":30}"#]);
    assert_eq!(run("select count(*), count_distinct(ms), sum(ms)", &[]), vec![r#"{"count(*)":0,"count_distinct(ms)":0}"#]);
    assert_eq!(run("select count(*) where nope", &LINES), vec![r#"{"count(*)":0}"#]);
    assert_eq!(run("select level, count(*) group by level", &[]), Vec::<String>::new());
    assert!(folded("select count(*)", &[]).is_empty());
}

#[test]
fn count_distinct_counts_values() {
    let lines = [r#"{"v":1}"#, r#"{"v":"1"}"#, r#"{"v":1}"#, "{}", r#"{"v":null}"#];
    assert_eq!(run("select count_distinct(v)", &lines), vec![r#"{"count_distinct(v)":3}"#]);
}

#[test]
fn totals_of_nothing_are_missing() {
    assert_eq!(run("select sum(x), avg(level), count(*)", &LINES), vec![r#"{"count(*)":5}"#]);
}

#[test]
fn aggregates_are_listed_once() {
    let q = parse("select count(*), max(ms) group by level having count(*) > 1 and min(ms) > 0 order by max(ms)").unwrap();
    let keys: Vec<String> = collect_aggregates(&q).into_iter().map(|a| a.key).collect();
    assert_eq!(keys, vec!["count(*)", "max(ms)", "min(ms)"]);
}

#[test]
fn a_value_of_the_keys_is_computed_from_the_row() {
    assert_eq!(
        run("select upper(level) as l, concat(level, '/', ms) as c group by level, ms limit 2", &LINES),
        vec![r#"{"l":"INFO","c":"info/5"}"#, r#"{"l":"ERROR","c":"error/30"}"#]
    );
}

// --- lines ----------------------------------------------------------------

#[test]
fn prose_is_no_record() {
    assert!(parse_line("just some words here").is_none());
    assert!(parse_line("{not json}").is_none());
    assert!(parse_line("[1]").is_none());
    assert!(parse_line("word a=1").is_some());
}

#[test]
fn captures_become_typed_fields() {
    let p = Pattern::compile(r"(?<a>\d+) (?<b>\w+)(?: (?<c>true))?").unwrap();
    let r = parse_with_pattern("x 007 y true", &p).unwrap();
    assert_eq!(record_to_json(&r), r#"{"a":7,"b":"y","c":true}"#);
    let r = parse_with_pattern("1.5 1 y", &p).unwrap();
    assert_eq!(record_to_json(&r), r#"{"a":5,"b":1}"#);
    assert!(parse_with_pattern("none", &p).is_none());
}

#[test]
fn a_pattern_matches_what_it_describes() {
    let takes = |p: &str, s: &str| {
        let found = Pattern::compile(p).unwrap().captures(s);
        found.map(|c| c[0].1.clone())
    };
    assert_eq!(takes("(?<x>(?:a|ab)(?:c|bcd)*)$", "zabcd").as_deref(), Some("abcd"));
    assert_eq!(takes("(?<x>(?:a?){3}b)", "ab").as_deref(), Some("ab"));
    assert_eq!(takes("(?<x>(?:a*)*b)", "aab").as_deref(), Some("aab"));
    assert_eq!(takes("(?<x>(?:|a){2,3})c", "aaac").as_deref(), Some("aaa"));
    assert_eq!(takes("(?<x>a{2,3}?)", "aaa").as_deref(), Some("aa"));
    assert_eq!(takes("(?<x>[^a-c]+)", "abcd-e").as_deref(), Some("d-e"));
    assert_eq!(takes("^(?<x>b)", "ab"), None);
}

#[test]
fn malformed_lines_are_only_counted() {
    let q = parse("select a").unwrap();
    let mut engine = Engine::new(&q);
    let mut w = writer(Format::Json, engine.columns(), false);
    let mut skipped = 0;
    let mut out = String::new();
    for raw in [&b"a=1"[..], b"prose", b"", b"  \t", b"\xff\xfe", b"{\"a\":", b"a=2"] {
        let (text, more) = handle_bytes(raw.to_vec(), &None, &mut engine, &mut w, &mut skipped, env());
        assert!(more);
        out.push_str(&text);
    }
    assert_eq!(out, "{\"a\":1}\n{\"a\":2}\n");
    assert_eq!(skipped, 3);
}

#[test]
fn lines_do_not_depend_on_the_pieces() {
    let whole = b"one\r\ntwo\n\nthree";
    for cut in 0..whole.len() {
        let mut tail = Tail::new(0);
        tail.feed(&whole[..cut]);
        let mut lines = tail.take_lines();
        tail.feed(&whole[cut..]);
        lines.extend(tail.take_lines());
        assert_eq!(lines, vec![b"one".to_vec(), b"two".to_vec(), vec![]], "{cut}");
        assert_eq!(tail.pending, b"three");
        assert_eq!(tail.offset, whole.len() as u64);
    }
}

#[test]
fn a_file_that_shrinks_is_read_from_its_start() {
    let mut tail = Tail::new(10);
    tail.feed(b"ab");
    assert_eq!(tail.observe(None), Action::Wait);
    assert_eq!(tail.observe(Some(12)), Action::Idle);
    assert_eq!(tail.observe(Some(20)), Action::Read);
    assert_eq!(tail.pending, b"ab");
    assert_eq!(tail.observe(Some(3)), Action::Reopen);
    assert_eq!((tail.offset, tail.pending.len()), (0, 0));
}

// --- output ---------------------------------------------------------------

#[test]
fn a_csv_cell_reads_back() {
    for s in ["plain", "a,b", "say \"hi\"", "two\nlines", "", "\r"] {
        let cell = csv_escape(s);
        let back = if cell.starts_with('"') {
            cell[1..cell.len() - 1].replace("\"\"", "\"")
        } else {
            cell.clone()
        };
        assert_eq!(back, s);
    }
    assert_eq!(csv_escape("say \"hi\""), "\"say \"\"hi\"\"\"");
}

#[test]
fn rows_of_every_format_are_lines() {
    let row = rec(r#"{"a":"x\ny|z","b":"é\tw"}"#);
    for (format, lines) in [(Format::Table, 3), (Format::Json, 1), (Format::Markdown, 3)] {
        let mut w = writer(format, None, false);
        let mut out = w.write(&row);
        out.push_str(&w.finish());
        assert_eq!(out.matches('\n').count(), lines, "{out}");
        assert!(out.ends_with('\n'));
    }
}

#[test]
fn table_columns_line_up() {
    let mut w = writer(Format::Table, None, false);
    let mut out = w.write(&rec(r#"{"a":"long\nvalue","b":1}"#));
    out.push_str(&w.write(&rec(r#"{"b":2,"c":"x"}"#)));
    out.push_str(&w.finish());
    assert_eq!(out, "a            b  c\n-----------  -  -\nlong\\nvalue  1\n             2  x\n");
}

// --- time -----------------------------------------------------------------

#[test]
fn dates_and_days_correspond() {
    for z in [-719_528, -1, 0, 59, 11_016, 19_782, 2_932_896] {
        let (y, m, d) = civil_from_days(z);
        assert_eq!(days_from_civil(y, m, d), z);
        let (y2, m2, d2) = civil_from_days(z + 1);
        assert!((y, m, d) < (y2, m2, d2));
    }
    for z in [i64::MIN, i64::MAX - 719_468] {
        let (y, m, d) = civil_from_days(z);
        assert_eq!(days_from_civil(y, m, d), z);
    }
    assert_eq!(civil_from_days(0), (1970, 1, 1));
    assert_eq!(civil_from_days(11_016), (2000, 2, 29));
}

#[test]
fn timestamps_read_back_in_every_zone() {
    for secs in [0.0, -1.0, 951_782_400.0, 1_785_146_400.0, 253_402_214_400.0] {
        for offset in [0, 1, -1, 60, -330, 1439, -1439] {
            let shown = format_epoch(num(secs), offset);
            assert_eq!(parse_rfc3339(&shown).map(|n| n.bits), Some(num(secs).bits), "{shown}");
        }
    }
    assert_eq!(format_epoch(num(0.0), -330), "1969-12-31T18:30:00-05:30");
}

// --- the command line -----------------------------------------------------

#[test]
fn following_takes_one_file() {
    let args: Vec<String> = ["-F", "select a", "x.log"].iter().map(|s| s.to_string()).collect();
    let o = parse_args(&args).unwrap().unwrap();
    assert!(o.follow);
    assert!(matches!(o.inputs.as_slice(), [Input::File(p)] if p == "x.log"));
}

#[test]
fn a_selected_value_of_a_record_is_the_value_of_the_expression() {
    let q = parse("select duration_ms(t) as d").unwrap();
    let r = rec(r#"{"t":"1.5s"}"#);
    let items = match &q.select {
        logquery::ast::Selection::Items(items) => items,
        other => panic!("{other:?}"),
    };
    let v = eval_value(&items[0].value, &r, env()).unwrap();
    assert_eq!(v, Value::Number(Number::Float(num(1500.0))));
}

// --- numbers as text ------------------------------------------------------

#[test]
fn numbers_read_back_from_their_text() {
    for x in [0.0, -0.0, 0.1, 1e21, 123456789.125, 5e-324, 1.7976931348623157e308, 2.2250738585072014e-308, -1e-7, 1e16, 1e17, 9007199254740993.0] {
        let shown = to_json(&Value::Number(Number::Float(num(x))));
        let back = logquery::eval::parse_number(&shown.chars().collect::<Vec<_>>());
        assert_eq!(back.map(|n| n.bits), Some(x.to_bits()), "{shown}");
    }
}

#[test]
fn scalars_are_told_apart_by_their_text() {
    let values = [
        Value::Null,
        Value::Bool(true),
        whole(1),
        whole(-1),
        Value::Number(Number::Float(num(1.0))),
        text("1"),
        text("1.0"),
        text("true"),
        text("null"),
        text("\n"),
        text("\\n"),
        text("\\u000a"),
    ];
    for (i, a) in values.iter().enumerate() {
        for (j, b) in values.iter().enumerate() {
            assert_eq!(to_json(a) == to_json(b), i == j, "{a:?} {b:?}");
        }
    }
}

#[test]
fn logfmt_values_are_typed_unless_quoted() {
    let (r, _) = parse_line(r#"a=500 b="500" c=true d="true" e=null f="say \"hi\" \\ \q" g=1.50"#).unwrap();
    assert_eq!(
        record_to_json(&r),
        r#"{"a":500,"b":"500","c":true,"d":"true","e":null,"f":"say \"hi\" \\ \\q","g":1.5}"#
    );
}

#[test]
fn an_escaped_pattern_is_equality() {
    assert!(like_match("100%", r"100\%") && !like_match("1000", r"100\%"));
    assert!(like_match(r"a\b", r"a\\b") && !like_match("ab", r"a\\b"));
}

#[test]
fn composites_compare_alike_from_either_side() {
    let pairs = [
        (r#"[1,[2,"x"]]"#, r#"[1,[2,"x"]]"#, true),
        (r#"[1,2]"#, r#"[2,1]"#, false),
        (r#"{"a":1,"b":{"c":null}}"#, r#"{"b":{"c":null},"a":1}"#, true),
        (r#"{"a":1,"b":2}"#, r#"{"a":1,"c":2}"#, false),
        (r#"[1]"#, r#"{"0":1}"#, false),
    ];
    for (l, r, same) in pairs {
        let (l, r) = (json(l), json(r));
        assert_eq!(values_equal(&l, &r), same);
        assert_eq!(values_equal(&r, &l), same);
        assert_eq!(compare_values(&l, &r).is_some(), same);
        assert_eq!(compare_values(&r, &l), compare_values(&l, &r).map(|o| o.reverse()));
    }
}

#[test]
fn composite_keys_share_a_group_only_where_they_are_equal() {
    let lines = [
        r#"{"k":[1,2]}"#,
        r#"{"k":[12]}"#,
        r#"{"k":["1,2"]}"#,
        r#"{"k":[1,2]}"#,
        r#"{"k":{"a":[1],"b":2}}"#,
        r#"{"k":{"a":[1,2]}}"#,
        r#"{"k":"[1,2]"}"#,
    ];
    let rows = run("select k, count(*) group by k", &lines);
    assert_eq!(
        rows,
        vec![
            r#"{"k":[1,2],"count(*)":2}"#,
            r#"{"k":[12],"count(*)":1}"#,
            r#"{"k":["1,2"],"count(*)":1}"#,
            r#"{"k":{"a":[1],"b":2},"count(*)":1}"#,
            r#"{"k":{"a":[1,2]},"count(*)":1}"#,
            r#"{"k":"[1,2]","count(*)":1}"#,
        ]
    );
}

#[test]
fn captures_come_in_the_order_of_the_pattern() {
    let p = Pattern::compile("(?<b>[a-z]+)(?:-(?<a>[0-9]+))? (?<c.d_1>.*)").unwrap();
    assert_eq!(p.capture_names(), vec!["b", "a", "c.d_1"]);
    let line = "GET xyz-42 the rest";
    let got = p.captures(line).unwrap();
    let names: Vec<&str> = got.iter().map(|(n, _)| n.as_str()).collect();
    assert_eq!(names, vec!["b", "a", "c.d_1"]);
    assert!(got.iter().all(|(_, v)| line.contains(v.as_str())));
    let got = p.captures("xyz the rest").unwrap();
    let names: Vec<&str> = got.iter().map(|(n, _)| n.as_str()).collect();
    assert_eq!(names, vec!["b", "c.d_1"]);
}

#[test]
fn capture_names_are_proper() {
    for bad in ["(?<>x)", "(?<a b>x)", "(?<a>x)(?<a>y)", "(x)", "x"] {
        assert!(Pattern::compile(bad).is_err(), "{bad}");
    }
}

#[test]
fn a_missing_value_changes_no_aggregate() {
    let all = "select count(a), count_distinct(a), sum(a), avg(a), min(a), max(a), first(a), last(a)";
    let with = run(all, &[r#"{"a":3}"#, r#"{"b":1}"#, r#"{"a":1}"#, r#"{"b":2}"#]);
    let without = run(all, &[r#"{"a":3}"#, r#"{"a":1}"#]);
    assert_eq!(with, without);
}

#[test]
fn no_name_stands_twice_in_a_record() {
    let r = rec(r#"{"a":1,"b":{"x":1,"x":2},"a":3}"#);
    assert_eq!(record_to_json(&r), r#"{"a":3,"b":{"x":2}}"#);
    let (r, _) = parse_line("a=1 b=2 a=3").unwrap();
    assert_eq!(record_to_json(&r), r#"{"a":3,"b":2}"#);
    assert_eq!(run("select a as x, b as x", &[r#"{"a":1,"b":2}"#]), vec![r#"{"x":2}"#]);
    assert_eq!(
        run("select a as x, count(*) as x group by a", &[r#"{"a":1}"#, r#"{"a":1}"#]),
        vec![r#"{"x":2}"#]
    );
}

#[test]
fn tokens_stand_at_their_columns() {
    let tokens = tokenize("select  a -- c\n >= 'x'").unwrap();
    let cols: Vec<usize> = tokens.iter().map(|t| t.col).collect();
    assert_eq!(cols, vec![1, 9, 17, 20, 23]);
}

#[test]
fn windows_of_fractional_times_start_at_multiples_too() {
    let float = |x: f64| Value::Number(Number::Float(num(x)));
    let start = |t: f64, w: f64| call(Func::Bucket, vec![Some(float(t)), Some(float(w))], env());
    assert_eq!(start(1785146407.25, 300.0), Some(float(1785146400.0)));
    assert_eq!(start(1785146699.999, 300.0), Some(float(1785146400.0)));
    assert_eq!(start(1785146700.0, 300.0), Some(float(1785146700.0)));
    assert_eq!(start(-0.5, 60.0), Some(float(-60.0)));
    assert_eq!(start(0.5, 60.0), Some(float(0.0)));
    assert_eq!(start(-0.0, 60.0), Some(float(-0.0)));
    assert_eq!(start(2.9999999999999996, 3.0), Some(float(0.0)));
    assert_eq!(start(-3.0000000000000004, 3.0), Some(float(-6.0)));
    assert_eq!(start(-1e-300, 60.0), Some(float(-60.0)));
    assert_eq!(start(-5e-324, 60.0), Some(float(-0.0)));
    assert_eq!(start(10.6, 0.25), Some(float(10.5)));
}

#[test]
fn different_keys_have_different_identities() {
    let keys = [
        vec![None],
        vec![Some(Value::Null)],
        vec![Some(whole(1))],
        vec![Some(text("1"))],
        vec![Some(json("[1]"))],
        vec![Some(json(r#"{"a":1}"#))],
        vec![Some(json("[1.0]"))],
    ];
    for (i, a) in keys.iter().enumerate() {
        for (j, b) in keys.iter().enumerate() {
            assert_eq!(key_identity(a) == key_identity(b), i == j, "{a:?} {b:?}");
        }
    }
}

#[test]
fn pushing_nothing_changes_no_state() {
    for agg in [Agg::Count, Agg::CountDistinct, Agg::Sum, Agg::Avg, Agg::Min, Agg::Max, Agg::First, Agg::Last] {
        let mut state = State::new(agg);
        let fresh = state.finish(agg);
        state.push(agg, None);
        assert_eq!(state.finish(agg), fresh);
        state.push(agg, Some(whole(3)));
        let held = state.finish(agg);
        assert!(held.is_some());
        state.push(agg, None);
        assert_eq!(state.finish(agg), held);
    }
}

#[test]
fn counts_of_groups_add_up() {
    let lines = [r#"{"k":"a"}"#, r#"{"k":"b"}"#, "{}", r#"{"k":"a"}"#, r#"{"k":null}"#];
    let rows = folded("select k, count(*) group by k", &lines);
    let total: u64 = rows
        .iter()
        .map(|r| match r.get("count(*)") {
            Some(Value::Number(Number::PosInt(n))) => *n,
            other => panic!("expected a count, got {other:?}"),
        })
        .sum();
    assert_eq!(total, 5);
}
