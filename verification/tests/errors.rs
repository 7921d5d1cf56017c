use logquery::args::{parse_args, ArgsError};
use logquery::lexer::tokenize;
use logquery::parser::{parse, parse_expr};
use logquery::pattern::Pattern;

fn args(list: &[&str]) -> Vec<String> {
    list.iter().map(|s| s.to_string()).collect()
}

#[test]
fn each_fault_of_a_command_line_has_its_error() {
    let fault = |list: &[&str]| parse_args(&args(list)).unwrap_err();
    assert_eq!(fault(&["q", "-f"]), ArgsError::FormatMissing("-f".into()));
    assert_eq!(fault(&["q", "--pattern"]), ArgsError::PatternMissing("--pattern".into()));
    assert_eq!(fault(&["--format=xml", "q"]), ArgsError::UnknownFormat("xml".into()));
    assert_eq!(fault(&["-x", "q"]), ArgsError::UnknownOption("-x".into()));
    assert_eq!(fault(&["-q"]), ArgsError::NoQuery);
    assert_eq!(fault(&["-F", "q", "a", "b"]), ArgsError::FollowInputs);
    assert_eq!(fault(&["-F", "q", "-"]), ArgsError::FollowStdin);
    assert_eq!(fault(&["-F", "q"]), ArgsError::FollowStdin);
}

#[test]
fn the_messages_of_a_command_line_say_what_to_do() {
    let text = |list: &[&str]| parse_args(&args(list)).unwrap_err().to_string();
    assert_eq!(text(&["q", "-f"]), "-f needs a value: table, json, csv, or markdown");
    assert_eq!(text(&["q", "-p"]), "-p needs a value: a regular expression");
    assert_eq!(text(&["-f", "xml", "q"]), "unknown format `xml`; use table, json, csv, or markdown");
    assert_eq!(text(&["-x"]), "unknown option `-x`");
    assert_eq!(text(&[]), "no query given");
    assert_eq!(text(&["-F", "q", "a", "b"]), "--follow takes exactly one file");
    assert_eq!(text(&["-F", "q"]), "--follow needs a file; standard input is already a stream");
    assert!(ArgsError::NoQuery.wants_usage());
    assert!(ArgsError::UnknownOption("-x".into()).wants_usage());
    assert!(!ArgsError::FollowStdin.wants_usage());
}

#[test]
fn each_fault_of_a_token_has_its_message_and_column() {
    for (query, col, message) in [
        ("a = 'x", 5, "unterminated string literal, expected closing `'`"),
        ("'a\\", 4, "unterminated escape sequence"),
        ("'a\\q'", 4, "unknown escape `\\q`"),
        ("a ! b", 4, "expected `=` after `!`"),
        ("a # b", 3, "unexpected character `#`"),
    ] {
        let e = tokenize(query).unwrap_err();
        assert_eq!((e.col, e.message.as_str()), (col, message), "{query}");
    }
}

#[test]
fn each_fault_of_a_query_has_its_message_and_column() {
    for (query, col, message) in [
        ("where a", 1, "expected `select` at the start of the query, found `where`"),
        ("select nope(a)", 8, "unknown function `nope`"),
        ("select lower(a, b)", 8, "`lower` takes 1 argument, but 2 were given"),
        ("select max(*)", 8, "`max(*)` is not meaningful; give it a value to fold"),
        ("select sum(count(*))", 8, "aggregates do not nest"),
        ("select * limit 1.5", 16, "`limit` requires a non-negative whole number"),
        ("select * group by a", 8, "`select *` cannot be grouped; name the group keys and the aggregates you want"),
    ] {
        let e = parse(query).unwrap_err();
        assert_eq!(e.col, col, "{query}: {}", e.message);
        assert_eq!(e.message, message, "{query}");
    }
    // A value that the grouping does not determine.
    assert!(parse("select count(*) + ms group by level").is_err());
    assert!(parse("select count(*) + 1 group by level").is_ok());
    assert!(parse_expr("a = ").is_err());
}

#[test]
fn each_fault_of_a_pattern_has_its_message_and_column() {
    for (pattern, col, message) in [
        ("(?<a>x)\\", 8, "pattern ends with a backslash"),
        ("(?<a>\\xzz)", 6, "`\\x` needs two hex digits"),
        ("(?<a>\\q)", 6, "unknown escape `\\q`"),
        ("(?<a>[x)", 6, "unclosed character class, expected `]`"),
        ("(?<a>[\\", 7, "unfinished escape in character class"),
        ("(?<a>[\\q])", 7, "unknown escape `\\q` in class"),
        ("(?<a>[z-a])", 7, "range `z-a` runs backwards"),
        ("(?<a>[a-\\q])", 9, "`\\q` cannot end a range"),
        ("(?<a>x){99999999999}", 8, "repeat count is too large"),
        ("(?<a>x){3,1}", 8, "repeat count is empty: the maximum is below the minimum"),
        ("(?<a>x)(?<a>y)", 11, "duplicate capture name `a`"),
        ("(?<a>x){2x}", 11, "expected `}` to close the repeat count"),
        ("(?<a>x){2,x}", 11, "expected a number in the repeat count"),
        ("^*(?<a>x)", 2, "an anchor cannot be repeated"),
        ("(?=x)", 3, "unsupported group flag; use `(?<name>…)` or `(?:…)`"),
        ("(?<a b>x)", 4, "capture name `a b` may only contain letters, digits, `_` and `.`"),
        ("(?<>x)", 4, "capture name is empty"),
        ("(?<ax", 4, "unclosed capture name, expected `>`"),
        ("(?Px)", 4, "expected `<name>` after `(?P`"),
        ("(?<a>x", 1, "unclosed group, expected `)`"),
        ("(?<a>x))", 8, "unmatched `)`"),
        ("*(?<a>x)", 1, "nothing for `*` to repeat"),
    ] {
        let e = Pattern::compile(pattern).unwrap_err();
        assert_eq!(e.message, message, "{pattern}");
        assert_eq!(e.col, col, "{pattern}: {}", e.message);
    }
}
