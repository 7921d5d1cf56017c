use logquery::args::{command_line, follow_conflict, Command};
use logquery::engine::Engine;
use logquery::eval::Env;
use logquery::num::Num;
use logquery::output::{writer, Format};
use logquery::parser::parse;
use logquery::pattern::Pattern;
use logquery::stream::{conclude, handle_bytes, skip_message};

const LOG: &[&str] = &[
    r#"{"ts":"2026-07-27T09:12:00Z","level":"info","msg":"server started","duration_ms":3}"#,
    r#"{"ts":"2026-07-27T09:14:15Z","level":"error","msg":"upstream timeout","duration_ms":3001,"http":{"status":504},"user":{"id":1042}}"#,
    r#"level=warn msg="disk 82% full" duration_ms=12"#,
    r#"{"ts":"2026-07-27T09:14:44Z","level":"error","msg":"upstream timeout","duration_ms":3002,"http":{"status":504},"user":{"id":88}}"#,
    "a line of prose",
    "",
    r#"{"ts":"2026-07-27T09:16:01Z","level":"error","msg":"payment declined","duration_ms":220,"user":{"id":88}}"#,
    r#"level=info msg="request served" duration_ms=250"#,
    r#"{"ts":"2026-07-27T09:17:00Z","level":"warn","msg":"slow query"}"#,
];

fn env() -> Env {
    Env { now: Num { bits: 1785146400.0f64.to_bits() }, local_offset: 0 }
}

/// What a run of the program prints, and what it reports of skipped lines.
fn run(format: Format, query: &str, lines: &[&str]) -> (String, Option<String>) {
    run_with(format, None, query, lines)
}

fn run_with(format: Format, pattern: Option<&str>, query: &str, lines: &[&str]) -> (String, Option<String>) {
    let q = parse(query).unwrap();
    let pattern = pattern.map(|p| Pattern::compile(p).unwrap());
    let mut engine = Engine::new(&q);
    let mut w = writer(format, engine.columns(), false);
    let mut skipped = 0;
    let mut out = String::new();
    for line in lines {
        if engine.is_done() {
            break;
        }
        let (text, _) = handle_bytes(line.as_bytes().to_vec(), &pattern, &mut engine, &mut w, &mut skipped, env());
        out.push_str(&text);
    }
    out.push_str(&conclude(&mut engine, &mut w, env()));
    (out, skip_message(skipped, false))
}

#[test]
fn errors_slower_than_a_bound_as_a_table() {
    let (out, notice) = run(
        Format::Table,
        r#"select level, msg, duration_ms where level = "error" and duration_ms > 100"#,
        LOG,
    );
    assert_eq!(
        out,
        "level  msg               duration_ms\n\
         -----  ----------------  -----------\n\
         error  upstream timeout  3001\n\
         error  upstream timeout  3002\n\
         error  payment declined  220\n"
    );
    assert_eq!(notice.as_deref(), Some("skipped 1 malformed line"));
}

#[test]
fn the_slowest_responses_reach_into_nested_fields() {
    let (out, _) = run(
        Format::Csv,
        "select msg, http.status, user.id where duration_ms order by duration_ms desc limit 3",
        LOG,
    );
    assert_eq!(out, "msg,http.status,user.id\nupstream timeout,504,88\nupstream timeout,504,1042\nrequest served,,\n");
}

#[test]
fn groups_are_counted_and_sorted_by_a_label() {
    let (out, _) = run(Format::Table, "select level, count(*) as n group by level order by n desc", LOG);
    assert_eq!(out, "level  n\n-----  -\nerror  3\ninfo   2\nwarn   2\n");
}

#[test]
fn groups_can_be_sorted_on_an_aggregate_that_is_not_selected() {
    let (out, _) = run(Format::Csv, "select level group by level order by max(duration_ms)", LOG);
    assert_eq!(out, "level\nwarn\ninfo\nerror\n");
}

#[test]
fn aggregates_without_group_by_give_one_row() {
    let (out, _) = run(Format::Table, "select count(*) as lines, count_distinct(user.id) as users", LOG);
    assert_eq!(out, "lines  users\n-----  -----\n7      2\n");
}

#[test]
fn a_filter_comes_before_the_grouping_and_having_behind_it() {
    let (out, _) = run(
        Format::Csv,
        "select level, count(*) as n where duration_ms > 10 group by level having count(*) > 1",
        LOG,
    );
    assert_eq!(out, "level,n\nerror,3\n");
}

#[test]
fn time_windows_are_cut_at_multiples_of_their_width() {
    let (out, _) = run(
        Format::Table,
        "select format_time(bucket(ts, 5m)) as window, count(*) as n, round(avg(duration_ms), 1) as avg_ms
         where ts group by bucket(ts, 5m)",
        LOG,
    );
    assert_eq!(
        out,
        "window                n  avg_ms\n\
         --------------------  -  ------\n\
         2026-07-27T09:10:00Z  3  2002\n\
         2026-07-27T09:15:00Z  2  220\n"
    );
}

#[test]
fn a_markdown_table_escapes_what_would_break_it() {
    let (out, _) = run(
        Format::Markdown,
        "select level, count(*) as n, max(duration_ms) as slowest group by level having count(*) > 1",
        LOG,
    );
    assert_eq!(
        out,
        "| level | n | slowest |\n| --- | --- | --- |\n| info | 2 | 250 |\n| error | 3 | 3002 |\n| warn | 2 | 12 |\n"
    );
    let (out, _) = run(Format::Markdown, "select m", &[r#"{"m":"a|b\\c\r\nd\ne\rf"}"#]);
    assert_eq!(out, "| m |\n| --- |\n| a\\|b\\\\c<br>d<br>e<br>f |\n");
    let (out, _) = run(Format::Markdown, "select *", &[r#"{"a":1}"#, r#"{"b":2}"#]);
    assert_eq!(out, "| a | b |\n| --- | --- |\n| 1 |  |\n|  | 2 |\n");
}

#[test]
fn json_lines_come_out_one_object_per_line() {
    let (out, _) = run(
        Format::Json,
        "select msg, duration_ms where duration_ms > 200 order by duration_ms limit 2",
        LOG,
    );
    assert_eq!(
        out,
        "{\"msg\":\"payment declined\",\"duration_ms\":220}\n{\"msg\":\"request served\",\"duration_ms\":250}\n"
    );
}

#[test]
fn plain_text_is_read_with_a_pattern() {
    let (out, notice) = run_with(
        Format::Csv,
        Some(r#"^(?<ip>\S+) \S+ \S+ \[[^]]+\] "(?<method>[A-Z]+) (?<path>\S+)"#),
        "select path, count(*) as hits group by path order by hits desc limit 5",
        &[
            r#"10.0.0.7 - - [27/Jul/2026:10:00:00 +0000] "GET /a HTTP/1.1" 200"#,
            r#"10.0.0.8 - - [27/Jul/2026:10:00:01 +0000] "GET /b HTTP/1.1" 200"#,
            r#"10.0.0.9 - - [27/Jul/2026:10:00:02 +0000] "GET /b HTTP/1.1" 200"#,
            "not an access line",
            "also not",
            "   ",
        ],
    );
    assert_eq!(out, "path,hits\n/b,2\n/a,1\n");
    assert_eq!(notice.as_deref(), Some("skipped 2 malformed lines"));
}

#[test]
fn bytes_that_are_no_text_cost_one_line() {
    let q = parse("select a").unwrap();
    let mut engine = Engine::new(&q);
    let mut w = writer(Format::Csv, engine.columns(), false);
    let mut skipped = 0;
    let (text, more) = handle_bytes(vec![0xff, 0xfe], &None, &mut engine, &mut w, &mut skipped, env());
    assert_eq!((text.as_str(), more, skipped), ("", true, 1));
    let (text, more) = handle_bytes("a=\"é\"".into(), &None, &mut engine, &mut w, &mut skipped, env());
    assert_eq!((text.as_str(), more, skipped), ("a\né\n", true, 1));
}

#[test]
fn a_limit_ends_the_run_early() {
    let q = parse("select a limit 1").unwrap();
    let mut engine = Engine::new(&q);
    let mut w = writer(Format::Json, engine.columns(), false);
    let mut skipped = 0;
    let (text, more) = handle_bytes("a=1".into(), &None, &mut engine, &mut w, &mut skipped, env());
    assert_eq!((text.as_str(), more), ("{\"a\":1}\n", false));
}

#[test]
fn a_growing_table_repeats_its_head_when_a_column_widens() {
    let q = parse(r#"select level, msg where level = "error" limit 2"#).unwrap();
    let mut engine = Engine::new(&q);
    let mut w = writer(Format::Table, engine.columns(), true);
    let mut skipped = 0;
    let mut out = String::new();
    for line in [r#"level=error msg="first failure""#, r#"level=error msg="second failure""#] {
        out.push_str(&handle_bytes(line.into(), &None, &mut engine, &mut w, &mut skipped, env()).0);
    }
    out.push_str(&conclude(&mut engine, &mut w, env()));
    assert_eq!(
        out,
        "level  msg\n-----  -------------\nerror  first failure\n\
         level  msg\n-----  --------------\nerror  second failure\n"
    );
}

#[test]
fn query_errors_point_at_the_problem() {
    assert_eq!(
        parse("select level msg").unwrap_err().to_string(),
        "query error at column 14: expected end of query, found field `msg`\n  select level msg\n               ^"
    );
    assert_eq!(
        parse("select msg where level == \"erro").unwrap_err().to_string(),
        "query error at column 27: unterminated string literal, expected closing `\"`\n  \
         select msg where level == \"erro\n                            ^"
    );
}

#[test]
fn following_excludes_what_needs_the_whole_input() {
    let fault = |q: &str| follow_conflict(&parse(q).unwrap());
    assert!(fault("select a order by a").unwrap().contains("`order by`"));
    assert!(fault("select a, count(*) group by a").unwrap().contains("`group by`"));
    assert!(fault("select count(*)").unwrap().contains("`group by`"));
    assert_eq!(fault("select a where b limit 3"), None);
}

#[test]
fn a_command_line_asks_for_help_for_the_version_or_for_a_run() {
    let read = |list: &[&str]| command_line(&list.iter().map(|s| s.to_string()).collect::<Vec<_>>());
    assert!(matches!(read(&["-h"]), Ok(Command::Help)));
    assert!(matches!(read(&["select *", "--version"]), Ok(Command::Version)));
    match read(&["-p", "(?<a>.)", "-f", "MARKDOWN", "select a", "x.log", "-"]) {
        Ok(Command::Run(o)) => {
            assert_eq!(o.pattern.as_deref(), Some("(?<a>.)"));
            assert_eq!(o.format, Format::Markdown);
            assert_eq!(o.inputs.len(), 2);
        }
        other => panic!("expected a run, got {other:?}"),
    }
}

#[test]
fn a_quiet_run_reports_no_skipped_lines() {
    assert_eq!(skip_message(3, true), None);
    assert_eq!(skip_message(0, false), None);
    assert_eq!(skip_message(1, false).as_deref(), Some("skipped 1 malformed line"));
    assert_eq!(skip_message(3, false).as_deref(), Some("skipped 3 malformed lines"));
}
