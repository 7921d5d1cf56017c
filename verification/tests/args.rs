use logquery::args::{parse_args, Input};
use logquery::output::Format;
use logquery::stream::strip_line_end;
use std::io::BufRead;

fn read_until_newline(reader: &mut dyn BufRead, buf: &mut Vec<u8>) -> usize {
    let n = reader.read_until(b'\n', buf).unwrap();
    strip_line_end(buf);
    n
}

fn args(list: &[&str]) -> Vec<String> {
    list.iter().map(|s| s.to_string()).collect()
}

#[test]
fn query_only_reads_stdin() {
    let o = parse_args(&args(&["select *"])).unwrap().unwrap();
    assert_eq!(o.query, "select *");
    assert_eq!(o.inputs, vec![Input::Stdin]);
    assert_eq!(o.format, Format::Table);
    assert!(!o.follow);
    assert!(!o.quiet);
}

#[test]
fn files_follow_the_query() {
    let o = parse_args(&args(&["select *", "a.log", "b.log"]))
        .unwrap()
        .unwrap();
    assert_eq!(
        o.inputs,
        vec![Input::File("a.log".into()), Input::File("b.log".into())]
    );
}

#[test]
fn dash_means_stdin() {
    let o = parse_args(&args(&["select *", "-"])).unwrap().unwrap();
    assert_eq!(o.inputs, vec![Input::Stdin]);
}

#[test]
fn format_accepts_every_spelling() {
    for a in [
        args(&["-f", "csv", "select *"]),
        args(&["--format", "csv", "select *"]),
        args(&["--format=csv", "select *"]),
    ] {
        assert_eq!(parse_args(&a).unwrap().unwrap().format, Format::Csv);
    }
}

#[test]
fn flags_may_appear_after_the_query() {
    let o = parse_args(&args(&["select *", "app.log", "-f", "json", "-q"]))
        .unwrap()
        .unwrap();
    assert_eq!(o.format, Format::Json);
    assert!(o.quiet);
    assert_eq!(o.inputs, vec![Input::File("app.log".into())]);
}

#[test]
fn double_dash_stops_flag_parsing() {
    let o = parse_args(&args(&["select *", "--", "-weird-name.log"]))
        .unwrap()
        .unwrap();
    assert_eq!(o.inputs, vec![Input::File("-weird-name.log".into())]);
}

#[test]
fn unknown_format_is_rejected() {
    let e = parse_args(&args(&["-f", "yaml", "select *"])).unwrap_err();
    assert!(e.to_string().contains("unknown format"), "{}", e.to_string());
}

#[test]
fn format_without_a_value_is_rejected() {
    assert!(parse_args(&args(&["select *", "-f"])).is_err());
}

#[test]
fn unknown_option_is_rejected() {
    let e = parse_args(&args(&["--nope", "select *"])).unwrap_err();
    assert!(e.to_string().contains("unknown option"), "{}", e.to_string());
}

#[test]
fn missing_query_is_rejected() {
    let e = parse_args(&[]).unwrap_err();
    assert!(e.to_string().contains("no query"), "{}", e.to_string());
}

#[test]
fn help_and_version_short_circuit() {
    assert!(parse_args(&args(&["--help"])).unwrap().is_none());
    assert!(parse_args(&args(&["-V"])).unwrap().is_none());
}

#[test]
fn follow_requires_exactly_one_file() {
    assert!(parse_args(&args(&["-F", "select *"])).is_err());
    assert!(parse_args(&args(&["-F", "select *", "a.log", "b.log"])).is_err());
    let o = parse_args(&args(&["-F", "select *", "a.log"]))
        .unwrap()
        .unwrap();
    assert!(o.follow);
}

#[test]
fn read_until_newline_strips_line_endings() {
    let data = b"a\r\nb\nc";
    let mut reader: Box<dyn BufRead> = Box::new(&data[..]);
    let mut buf = Vec::new();
    assert!(read_until_newline(&mut *reader, &mut buf) > 0);
    assert_eq!(buf, b"a");
    buf.clear();
    read_until_newline(&mut *reader, &mut buf);
    assert_eq!(buf, b"b");
    buf.clear();
    read_until_newline(&mut *reader, &mut buf);
    assert_eq!(buf, b"c");
    buf.clear();
    assert_eq!(read_until_newline(&mut *reader, &mut buf), 0);
}
