use logquery::ast::{Func, Literal, Path, ValueExpr};

#[test]
fn path_splits_on_dots() {
    let p = Path::new("user.id");
    assert_eq!(p.raw, "user.id");
    assert_eq!(p.segments, vec!["user", "id"]);
}

#[test]
fn path_without_dots_is_one_segment() {
    assert_eq!(Path::new("level").segments, vec!["level"]);
}

#[test]
fn function_names_resolve_case_insensitively() {
    assert_eq!(Func::parse("LOWER"), Some(Func::Lower));
    assert_eq!(Func::parse("length"), Some(Func::Len));
    assert_eq!(Func::parse("substring"), Some(Func::Substr));
    assert_eq!(Func::parse("nope"), None);
}

#[test]
fn value_expressions_render_as_query_text() {
    let e = ValueExpr::Call {
        func: Func::Coalesce,
        args: vec![
            ValueExpr::Field(Path::new("user.id")),
            ValueExpr::Lit(Literal::Str("anon".into())),
        ],
    };
    assert_eq!(e.to_string(), "coalesce(user.id, \"anon\")");
    assert_eq!(
        ValueExpr::Call {
            func: Func::Now,
            args: vec![]
        }
        .to_string(),
        "now()"
    );
}
