use logquery::pattern::Pattern;

fn caps(pattern: &str, text: &str) -> Option<Vec<(String, String)>> {
    Pattern::compile(pattern).unwrap().captures(text)
}

fn named(pattern: &str, text: &str, name: &str) -> Option<String> {
    caps(pattern, text)?
        .into_iter()
        .find(|(k, _)| k == name)
        .map(|(_, v)| v)
}

#[test]
fn extracts_a_common_log_line() {
    let p = r#"^(?<ip>[\d.]+) \S+ \S+ \[(?<ts>[^\]]+)\] "(?<method>\w+) (?<path>\S+)[^"]*" (?<status>\d{3}) (?<bytes>\d+)$"#;
    let line = r#"10.0.0.7 - alice [27/Jul/2026:09:14:15 +0000] "GET /api/orders HTTP/1.1" 500 1734"#;
    let got = caps(p, line).unwrap();
    assert_eq!(
        got,
        vec![
            ("ip".to_string(), "10.0.0.7".to_string()),
            ("ts".to_string(), "27/Jul/2026:09:14:15 +0000".to_string()),
            ("method".to_string(), "GET".to_string()),
            ("path".to_string(), "/api/orders".to_string()),
            ("status".to_string(), "500".to_string()),
            ("bytes".to_string(), "1734".to_string()),
        ]
    );
}

#[test]
fn both_named_group_spellings_work() {
    assert_eq!(named(r"(?<a>\d+)", "x42", "a").as_deref(), Some("42"));
    assert_eq!(named(r"(?P<a>\d+)", "x42", "a").as_deref(), Some("42"));
    assert_eq!(named(r"(?'a'\d+)", "x42", "a").as_deref(), Some("42"));
}

#[test]
fn search_is_unanchored_but_honours_a_caret() {
    assert!(caps(r"(?<w>\w+)", "   hello").is_some());
    assert_eq!(named(r"(?<w>\w+)", "   hello", "w").as_deref(), Some("hello"));
    assert!(caps(r"^(?<w>\w+)$", "   hello").is_none());
}

#[test]
fn alternation_picks_the_first_matching_branch() {
    let p = r"(?<level>ERROR|WARN|INFO)";
    assert_eq!(named(p, "a WARN b", "level").as_deref(), Some("WARN"));
    assert_eq!(named(p, "a INFO b", "level").as_deref(), Some("INFO"));
    assert!(caps(p, "a DEBUG b").is_none());
}

#[test]
fn quantifiers_cover_every_form() {
    assert_eq!(named(r"a(?<x>b*)c", "ac", "x").as_deref(), Some(""));
    assert_eq!(named(r"a(?<x>b*)c", "abbbc", "x").as_deref(), Some("bbb"));
    assert!(caps(r"^a(?<x>b+)c$", "ac").is_none());
    assert_eq!(named(r"^(?<x>a?)b$", "b", "x").as_deref(), Some(""));
    assert_eq!(named(r"^(?<x>\d{3})$", "123", "x").as_deref(), Some("123"));
    assert!(caps(r"^(?<x>\d{3})$", "12").is_none());
    assert_eq!(named(r"^(?<x>\d{2,4})$", "12345", "x"), None);
    assert_eq!(named(r"(?<x>\d{2,})", "12345", "x").as_deref(), Some("12345"));
}

#[test]
fn lazy_quantifiers_stop_early() {
    assert_eq!(named(r"<(?<x>.+?)>", "<a><b>", "x").as_deref(), Some("a"));
    assert_eq!(named(r"<(?<x>.+)>", "<a><b>", "x").as_deref(), Some("a><b"));
}

#[test]
fn character_classes_and_negation() {
    assert_eq!(named(r"(?<x>[a-f0-9]+)", "zz beef 12", "x").as_deref(), Some("beef"));
    assert_eq!(named(r"(?<x>[^ ]+)", " abc def", "x").as_deref(), Some("abc"));
    assert_eq!(named(r"(?<x>[\]]+)", "a]]b", "x").as_deref(), Some("]]"));
    assert_eq!(named(r"(?<x>[-a]+)", "?-a-", "x").as_deref(), Some("-a-"));
}

#[test]
fn shorthand_classes_match_the_right_sets() {
    assert_eq!(named(r"(?<x>\d+)", "ab123", "x").as_deref(), Some("123"));
    assert_eq!(named(r"(?<x>\D+)", "ab123", "x").as_deref(), Some("ab"));
    assert_eq!(named(r"(?<x>\s+)", "a  b", "x").as_deref(), Some("  "));
    assert_eq!(named(r"(?<x>\S+)", "  ab", "x").as_deref(), Some("ab"));
    assert_eq!(named(r"(?<x>\w+)", "  a_1", "x").as_deref(), Some("a_1"));
    assert_eq!(named(r"(?<x>\W+)", "a__ ..b", "x").as_deref(), Some(" .."));
}

#[test]
fn escapes_are_literal() {
    assert_eq!(named(r"(?<x>a\.b)", "axb a.b", "x").as_deref(), Some("a.b"));
    assert_eq!(named(r"(?<x>\x41+)", "zAAz", "x").as_deref(), Some("AA"));
    assert_eq!(named(r"(?<x>a\tb)", "a\tb", "x").as_deref(), Some("a\tb"));
    assert_eq!(named(r"(?<x>\(\))", "()", "x").as_deref(), Some("()"));
}

#[test]
fn non_capturing_groups_are_not_reported() {
    let p = Pattern::compile(r"(?:x)(?<a>y)").unwrap();
    assert_eq!(p.capture_names(), vec!["a"]);
    assert_eq!(p.captures("xy").unwrap().len(), 1);
}

#[test]
fn unnamed_groups_group_without_capturing_output() {
    let got = caps(r"(?<a>(ab)+)", "ababab").unwrap();
    assert_eq!(got, vec![("a".to_string(), "ababab".to_string())]);
}

#[test]
fn a_group_that_did_not_participate_is_absent() {
    let got = caps(r"^(?:(?<a>x)|(?<b>y))$", "y").unwrap();
    assert_eq!(got, vec![("b".to_string(), "y".to_string())]);
}

#[test]
fn backtracking_finds_a_late_match() {
    assert_eq!(named(r"^(?<x>a*)ab$", "aaab", "x").as_deref(), Some("aa"));
}

#[test]
fn nullable_repeat_terminates() {
    assert!(caps(r"^(?<x>(a?)*)$", "aaa").is_some());
    assert!(caps(r"^(?<x>(a?)*)b$", "aaa").is_none());
}

#[test]
fn multibyte_text_is_matched_by_character() {
    assert_eq!(named(r"(?<x>\S+)", " héllo ", "x").as_deref(), Some("héllo"));
    assert_eq!(named(r"(?<x>.{2})", "日本語", "x").as_deref(), Some("日本"));
}

#[test]
fn capture_names_are_reported_in_order() {
    let p = Pattern::compile(r"(?<a>x) (?<b>y) (?<c>z)").unwrap();
    assert_eq!(p.capture_names(), vec!["a", "b", "c"]);
}

#[test]
fn a_pattern_without_names_is_rejected() {
    let e = Pattern::compile(r"\d+").unwrap_err();
    assert!(e.message.contains("no named capture"), "{}", e.message);
}

#[test]
fn compile_errors_point_at_the_column() {
    let e = Pattern::compile(r"(?<a>\d+").unwrap_err();
    assert!(e.message.contains("unclosed group"), "{}", e.message);
    assert_eq!(e.col, 1);

    let e = Pattern::compile(r"(?<a>[0-9)").unwrap_err();
    assert!(e.message.contains("character class"), "{}", e.message);
    assert_eq!(e.col, 6);

    let e = Pattern::compile(r"(?<a>x)*+").unwrap_err();
    assert!(e.message.contains("repeat"), "{}", e.message);

    let e = Pattern::compile(r"(?<>x)").unwrap_err();
    assert!(e.message.contains("empty"), "{}", e.message);

    let e = Pattern::compile(r"(?<a>x)(?<a>y)").unwrap_err();
    assert!(e.message.contains("duplicate"), "{}", e.message);

    let e = Pattern::compile(r"(?<a>[z-a])").unwrap_err();
    assert!(e.message.contains("backwards"), "{}", e.message);

    let e = Pattern::compile(r"(?<a>\q)").unwrap_err();
    assert!(e.message.contains("unknown escape"), "{}", e.message);

    let e = Pattern::compile(r"(?#a)").unwrap_err();
    assert!(e.message.contains("unsupported group flag"), "{}", e.message);

    let e = Pattern::compile(r"(?<a>x))").unwrap_err();
    assert!(e.message.contains("unmatched"), "{}", e.message);
}

#[test]
fn pattern_error_display_renders_a_caret() {
    let e = Pattern::compile(r"(?<a>[0-9)").unwrap_err();
    let text = e.to_string();
    assert!(text.starts_with("pattern error at column 6"), "{text}");
    assert_eq!(text.lines().next_back().unwrap(), format!("  {}^", " ".repeat(5)));
}

#[test]
fn a_literal_brace_is_not_a_repeat() {
    assert_eq!(named(r"(?<x>\w+\{)", "ab{", "x").as_deref(), Some("ab{"));
    assert_eq!(named(r"(?<x>a{b)", "a{b", "x").as_deref(), Some("a{b"));
}

#[test]
fn no_match_returns_none() {
    assert!(caps(r"^(?<a>\d+)$", "not a number").is_none());
}
