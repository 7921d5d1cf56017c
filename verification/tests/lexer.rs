use logquery::lexer::{tokenize, TokenKind};
use logquery::num::Num;

fn num(x: f64) -> TokenKind {
    TokenKind::Num(Num { bits: x.to_bits() })
}

fn kinds(q: &str) -> Vec<TokenKind> {
    tokenize(q).unwrap().into_iter().map(|t| t.kind).collect()
}

#[test]
fn lexes_a_full_query() {
    assert_eq!(
        kinds("select level, msg where level = \"error\" limit 20"),
        vec![
            TokenKind::Select,
            TokenKind::Ident("level".into()),
            TokenKind::Comma,
            TokenKind::Ident("msg".into()),
            TokenKind::Where,
            TokenKind::Ident("level".into()),
            TokenKind::Eq,
            TokenKind::Str("error".into()),
            TokenKind::Limit,
            num(20.0),
            TokenKind::Eof,
        ]
    );
}

#[test]
fn keywords_are_case_insensitive() {
    assert_eq!(
        kinds("SELECT * WHERE a AND b OR NOT c LIKE d"),
        vec![
            TokenKind::Select,
            TokenKind::Star,
            TokenKind::Where,
            TokenKind::Ident("a".into()),
            TokenKind::And,
            TokenKind::Ident("b".into()),
            TokenKind::Or,
            TokenKind::Not,
            TokenKind::Ident("c".into()),
            TokenKind::Like,
            TokenKind::Ident("d".into()),
            TokenKind::Eof,
        ]
    );
}

#[test]
fn lexes_all_comparison_operators() {
    assert_eq!(
        kinds("= == != <> < <= > >="),
        vec![
            TokenKind::Eq,
            TokenKind::Eq,
            TokenKind::Ne,
            TokenKind::Ne,
            TokenKind::Lt,
            TokenKind::Le,
            TokenKind::Gt,
            TokenKind::Ge,
            TokenKind::Eof,
        ]
    );
}

#[test]
fn lexes_dotted_identifiers() {
    assert_eq!(
        kinds("user.id http.status-code a/b"),
        vec![
            TokenKind::Ident("user.id".into()),
            TokenKind::Ident("http.status-code".into()),
            TokenKind::Ident("a/b".into()),
            TokenKind::Eof,
        ]
    );
}

#[test]
fn lexes_numbers() {
    assert_eq!(
        kinds("0 12 3.5 -2 +7 1e3 2.5e-2 .5"),
        vec![
            num(0.0),
            num(12.0),
            num(3.5),
            num(-2.0),
            num(7.0),
            num(1000.0),
            num(0.025),
            num(0.5),
            TokenKind::Eof,
        ]
    );
}

#[test]
fn number_followed_by_letters_is_two_tokens() {
    assert_eq!(
        kinds("1e"),
        vec![num(1.0), TokenKind::Ident("e".into()), TokenKind::Eof]
    );
}

#[test]
fn lexes_literals() {
    assert_eq!(
        kinds("true false null TRUE Null"),
        vec![
            TokenKind::Bool(true),
            TokenKind::Bool(false),
            TokenKind::Null,
            TokenKind::Bool(true),
            TokenKind::Null,
            TokenKind::Eof,
        ]
    );
}

#[test]
fn lexes_strings_with_either_quote() {
    assert_eq!(
        kinds("'it''s' \"a b\""),
        vec![
            TokenKind::Str("it".into()),
            TokenKind::Str("s".into()),
            TokenKind::Str("a b".into()),
            TokenKind::Eof,
        ]
    );
}

#[test]
fn unescapes_string_escapes() {
    assert_eq!(
        kinds(r#""a\nb\tc\\d\"e""#),
        vec![TokenKind::Str("a\nb\tc\\d\"e".into()), TokenKind::Eof]
    );
}

#[test]
fn escaped_percent_keeps_its_backslash() {
    assert_eq!(
        kinds(r#""100\%""#),
        vec![TokenKind::Str("100\\%".into()), TokenKind::Eof]
    );
}

#[test]
fn unterminated_string_points_at_the_opening_quote() {
    let err = tokenize("where msg = \"oops").unwrap_err();
    assert_eq!(err.col, 13);
    assert!(err.message.contains("unterminated string"), "{}", err.message);
}

#[test]
fn unknown_escape_is_an_error() {
    let err = tokenize(r#""a\qb""#).unwrap_err();
    assert!(err.message.contains("unknown escape"), "{}", err.message);
    assert_eq!(err.col, 4);
}

#[test]
fn unexpected_character_reports_its_column() {
    let err = tokenize("select a # b").unwrap_err();
    assert_eq!(err.col, 10);
    assert!(err.message.contains('#'), "{}", err.message);
}

#[test]
fn bang_without_equals_is_an_error() {
    let err = tokenize("a ! b").unwrap_err();
    assert!(err.message.contains("expected `=`"), "{}", err.message);
}

#[test]
fn a_double_dash_comment_runs_to_the_end_of_the_line() {
    assert_eq!(
        kinds("select *  -- everything\nlimit 5 -- but not much"),
        vec![
            TokenKind::Select,
            TokenKind::Star,
            TokenKind::Limit,
            num(5.0),
            TokenKind::Eof,
        ]
    );
}

#[test]
fn a_comment_may_be_the_whole_query_text() {
    assert_eq!(kinds("-- nothing here"), vec![TokenKind::Eof]);
    assert_eq!(kinds(""), vec![TokenKind::Eof]);
}

#[test]
fn consecutive_comment_lines_are_all_skipped() {
    assert_eq!(
        kinds("-- one\n-- two\nselect *"),
        vec![TokenKind::Select, TokenKind::Star, TokenKind::Eof]
    );
}

#[test]
fn a_double_dash_inside_a_string_is_not_a_comment() {
    assert_eq!(
        kinds(r#""a -- b""#),
        vec![TokenKind::Str("a -- b".into()), TokenKind::Eof]
    );
}

#[test]
fn token_columns_are_one_based() {
    let toks = tokenize("  select *").unwrap();
    assert_eq!(toks[0].col, 3);
    assert_eq!(toks[1].col, 10);
    assert_eq!(toks[2].col, 11); // Eof, just past the end.
}

#[test]
fn lexer_error_display_renders_a_caret() {
    let err = tokenize("select a # b").unwrap_err();
    let text = err.to_string();
    assert!(text.contains("column 10"), "{text}");
    let caret_line = text.lines().next_back().unwrap();
    assert_eq!(caret_line, format!("  {}^", " ".repeat(9)));
}
