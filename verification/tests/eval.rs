use logquery::ast::Expr;
use logquery::eval::{compare_values, eval, eval_value, Env};
use logquery::json::parse_json;
use logquery::like::like_match;
use logquery::num::Num;
use logquery::parser::parse_expr;
use logquery::timeutil::now_epoch;
use logquery::value::{Number, Record, Value};
use std::cmp::Ordering;

fn text(s: &str) -> Value {
    Value::Str(s.to_string())
}

fn whole(n: i64) -> Value {
    Value::Number(Number::from_i64(n))
}

fn float(x: f64) -> Value {
    Value::Number(Number::Float(Num { bits: x.to_bits() }))
}

fn json(s: &str) -> Value {
    parse_json(s).unwrap()
}

fn to_f64(v: &Value) -> f64 {
    match v {
        Value::Number(n) => f64::from_bits(n.to_num().bits),
        other => panic!("expected a number, got {other:?}"),
    }
}

fn env() -> Env {
    Env { now: now_epoch(), local_offset: 0 }
}

fn rec(v: Value) -> Record {
    match v {
        Value::Object(r) => r,
        other => panic!("expected an object, got {other:?}"),
    }
}

fn check(expr: &str, record: &Value) -> bool {
    let e = parse_expr(expr).unwrap();
    eval(&e, &rec(record.clone()), env())
}

// --- comparison operators -------------------------------------------

#[test]
fn all_operators_on_numbers() {
    let r = json(r##"{"n": 10}"##);
    assert!(check("n = 10", &r));
    assert!(!check("n = 11", &r));
    assert!(check("n != 11", &r));
    assert!(!check("n != 10", &r));
    assert!(check("n < 11", &r));
    assert!(!check("n < 10", &r));
    assert!(check("n <= 10", &r));
    assert!(check("n > 9", &r));
    assert!(!check("n > 10", &r));
    assert!(check("n >= 10", &r));
}

#[test]
fn all_operators_on_strings() {
    let r = json(r##"{"s": "beta"}"##);
    assert!(check(r#"s = "beta""#, &r));
    assert!(check(r#"s != "alpha""#, &r));
    assert!(check(r#"s > "alpha""#, &r));
    assert!(check(r#"s < "gamma""#, &r));
    assert!(check(r#"s >= "beta""#, &r));
    assert!(check(r#"s <= "beta""#, &r));
}

#[test]
fn integers_and_floats_compare_numerically() {
    let r = json(r##"{"a": 2, "b": 2.0, "c": 2.5}"##);
    assert!(check("a = b", &r));
    assert!(check("c > a", &r));
}

#[test]
fn booleans_order_false_before_true() {
    let r = json(r##"{"t": true, "f": false}"##);
    assert!(check("t > f", &r));
    assert!(check("f < t", &r));
    assert!(check("t = true", &r));
    assert!(check("f != true", &r));
}

#[test]
fn fields_can_be_compared_to_fields() {
    let r = json(r##"{"a": 5, "b": 3}"##);
    assert!(check("a > b", &r));
    assert!(!check("a < b", &r));
}

#[test]
fn literal_on_the_left_works() {
    let r = json(r##"{"d": 250}"##);
    assert!(check("100 < d", &r));
}

// --- missing fields --------------------------------------------------

#[test]
fn every_operator_is_false_on_a_missing_field() {
    let r = json(r##"{"level": "info"}"##);
    for expr in [
        "missing = 1",
        "missing != 1",
        "missing < 1",
        "missing <= 1",
        "missing > 1",
        "missing >= 1",
        r#"missing = "x""#,
        "missing = null",
        "missing != null",
        "missing = missing",
        "missing != missing",
    ] {
        assert!(!check(expr, &r), "{expr} should be false");
    }
}

#[test]
fn missing_nested_path_is_false_not_a_panic() {
    let r = json(r##"{"user": {"id": 1}}"##);
    assert!(!check("user.name.first = \"ada\"", &r));
    assert!(!check("user.id.x = 1", &r));
    assert!(!check("nope.nope.nope > 0", &r));
}

#[test]
fn a_missing_field_is_falsy_so_not_tests_absence() {
    let r = json(r##"{"level": "info"}"##);
    assert!(check("not err", &r));
    assert!(!check("err", &r));
}

#[test]
fn negating_a_comparison_on_a_missing_field_is_true() {
    // `not (missing = 1)` is the negation of false. This is deliberate and
    // is why absence checks should use the bare-field form.
    let r = json(r##"{}"##);
    assert!(check("not (missing = 1)", &r));
}

// --- null ------------------------------------------------------------

#[test]
fn null_equals_null() {
    let r = json(r##"{"err": null}"##);
    assert!(check("err = null", &r));
    assert!(!check("err != null", &r));
}

#[test]
fn null_is_incomparable_with_other_types() {
    let r = json(r##"{"err": null, "n": 1, "s": "x"}"##);
    assert!(!check("err = n", &r));
    assert!(check("err != n", &r));
    assert!(!check("err < n", &r));
    assert!(!check("err > n", &r));
    assert!(!check("err = s", &r));
    assert!(!check("n = null", &r));
    assert!(check("n != null", &r));
}

#[test]
fn present_null_is_falsy() {
    let r = json(r##"{"err": null}"##);
    assert!(!check("err", &r));
    assert!(check("not err", &r));
}

// --- cross-type coercion ---------------------------------------------

#[test]
fn numeric_strings_compare_as_numbers() {
    let r = json(r##"{"code": "500", "dur": " 12.5 "}"##);
    assert!(check("code = 500", &r));
    assert!(check("code > 499", &r));
    assert!(check("dur < 13", &r));
}

#[test]
fn non_numeric_string_versus_number_is_incomparable() {
    let r = json(r##"{"s": "error"}"##);
    assert!(!check("s = 1", &r));
    assert!(check("s != 1", &r));
    assert!(!check("s < 1", &r));
    assert!(!check("s > 1", &r));
    assert!(!check("s >= 1", &r));
}

#[test]
fn textual_infinity_and_nan_do_not_become_numbers() {
    let r = json(r##"{"a": "inf", "b": "NaN", "c": "infinity"}"##);
    assert!(!check("a > 0", &r));
    assert!(!check("b = 0", &r));
    assert!(!check("c > 0", &r));
}

#[test]
fn empty_string_is_not_a_number() {
    let r = json(r##"{"s": ""}"##);
    assert!(!check("s = 0", &r));
    assert!(check("s != 0", &r));
}

#[test]
fn two_strings_compare_lexicographically_even_when_numeric() {
    // "10" < "9" as text. Both sides are strings, so no number coercion.
    let r = json(r##"{"a": "10", "b": "9"}"##);
    assert!(check("a < b", &r));
}

#[test]
fn bool_versus_number_coerces_to_one_and_zero() {
    let r = json(r##"{"t": true, "f": false}"##);
    assert!(check("t = 1", &r));
    assert!(check("f = 0", &r));
    assert!(check("t > 0", &r));
    assert!(!check("t = 2", &r));
}

#[test]
fn bool_versus_string_reads_true_and_false() {
    let r = json(r##"{"t": true}"##);
    assert!(check(r#"t = "true""#, &r));
    assert!(check(r#"t = "TRUE""#, &r));
    assert!(!check(r#"t = "yes""#, &r));
    assert!(check(r#"t != "yes""#, &r));
}

#[test]
fn composites_support_equality_only() {
    let r = json(r##"{"tags": ["a", "b"], "meta": {"k": 1}}"##);
    assert!(!check("tags = 1", &r));
    assert!(!check("tags > 1", &r));
    assert!(!check("meta = 1", &r));
    assert!(check("tags = tags", &r));
    assert!(!check("tags != tags", &r));
    assert!(!check("tags = meta", &r));
}

// --- truthiness -------------------------------------------------------

#[test]
fn truthiness_of_each_type() {
    let r = json(r##"{ "t": true, "f": false, "one": 1, "zero": 0, "s": "x", "empty": "", "arr": [1], "arr0": [], "obj": {"a": 1}, "obj0": {}, "nil": null }"##);
    for yes in ["t", "one", "s", "arr", "obj"] {
        assert!(check(yes, &r), "{yes} should be truthy");
    }
    for no in ["f", "zero", "empty", "arr0", "obj0", "nil", "absent"] {
        assert!(!check(no, &r), "{no} should be falsy");
    }
}

#[test]
fn literal_conditions_are_evaluated() {
    let r = json(r##"{}"##);
    assert!(check("true", &r));
    assert!(!check("false", &r));
    assert!(!check("null", &r));
    assert!(check("1", &r));
    assert!(!check("0", &r));
}

// --- boolean structure -----------------------------------------------

#[test]
fn and_or_not_combine_correctly() {
    let r = json(r##"{"level": "error", "dur": 250}"##);
    assert!(check(r#"level = "error" and dur > 100"#, &r));
    assert!(!check(r#"level = "warn" and dur > 100"#, &r));
    assert!(check(r#"level = "warn" or dur > 100"#, &r));
    assert!(check(r#"not level = "warn""#, &r));
}

#[test]
fn precedence_holds_at_evaluation_time() {
    let r = json(r##"{"a": 1, "b": 0, "c": 1}"##);
    // a or (b and c) => true
    assert!(check("a = 1 or b = 1 and c = 1", &r));
    // (a or b) and c => a=2 fails, b=1 fails => false
    assert!(!check("(a = 2 or b = 1) and c = 1", &r));
}

// --- like -------------------------------------------------------------

#[test]
fn like_matches_prefix_suffix_and_infix() {
    let r = json(r##"{"msg": "connection timeout after 30s"}"##);
    assert!(check(r#"msg like "connection%""#, &r));
    assert!(check(r#"msg like "%30s""#, &r));
    assert!(check(r#"msg like "%timeout%""#, &r));
    assert!(check(r#"msg like "conn%after%s""#, &r));
    assert!(!check(r#"msg like "%refused%""#, &r));
}

#[test]
fn like_without_wildcards_is_equality() {
    let r = json(r##"{"s": "abc"}"##);
    assert!(check(r#"s like "abc""#, &r));
    assert!(!check(r#"s like "ab""#, &r));
}

#[test]
fn like_is_case_sensitive() {
    let r = json(r##"{"s": "Error"}"##);
    assert!(!check(r#"s like "%error%""#, &r));
    assert!(check(r#"s like "%Error%""#, &r));
}

#[test]
fn not_like_negates() {
    let r = json(r##"{"msg": "GET /healthz"}"##);
    assert!(check(r#"msg not like "%timeout%""#, &r));
    assert!(!check(r#"msg not like "%health%""#, &r));
    assert!(check(r#"not msg like "%timeout%""#, &r));
}

#[test]
fn like_on_a_missing_field_is_false_both_ways() {
    let r = json(r##"{}"##);
    assert!(!check(r#"absent like "%x%""#, &r));
    assert!(!check(r#"absent not like "%x%""#, &r));
}

#[test]
fn like_coerces_numbers_and_bools_to_text() {
    let r = json(r##"{"code": 503, "ok": false}"##);
    assert!(check(r#"code like "5%""#, &r));
    assert!(check(r#"ok like "fal%""#, &r));
}

#[test]
fn like_on_null_or_composite_is_false() {
    let r = json(r##"{"n": null, "a": [1]}"##);
    assert!(!check(r#"n like "%""#, &r));
    assert!(!check(r#"a like "%""#, &r));
}

#[test]
fn escaped_percent_is_a_literal() {
    let r = json(r##"{"a": "100% done", "b": "100 done"}"##);
    assert!(check(r#"a like "100\%%""#, &r));
    assert!(!check(r#"b like "100\%%""#, &r));
}

#[test]
fn like_direct_matcher_edge_cases() {
    assert!(like_match("", "%"));
    assert!(like_match("", ""));
    assert!(!like_match("a", ""));
    assert!(like_match("abc", "%%%"));
    assert!(like_match("abc", "a%c"));
    assert!(!like_match("ac", "a%b%c"));
    assert!(like_match("aXbYc", "a%b%c"));
    assert!(!like_match("abc", "abcd"));
    assert!(!like_match("abcd", "abc"));
    assert!(!like_match("abc", "ab"));
    assert!(like_match("aaa", "%aa"));
    assert!(like_match("ab", "ab%"));
}

#[test]
fn like_handles_multibyte_text() {
    assert!(like_match("héllo wörld", "%wörld"));
    assert!(like_match("日本語ログ", "%ログ"));
    assert!(!like_match("日本語", "%ログ"));
}

#[test]
fn like_pattern_may_come_from_a_field() {
    let r = json(r##"{"msg": "abc", "pat": "a%"}"##);
    assert!(check("msg like pat", &r));
}

// --- dotted paths -----------------------------------------------------

#[test]
fn dotted_paths_are_usable_in_comparisons() {
    let r = json(r##"{"user": {"id": 42, "name": "ada"}, "http": {"status": 500}}"##);
    assert!(check("user.id = 42", &r));
    assert!(check(r#"user.name like "a%""#, &r));
    assert!(check("http.status >= 500", &r));
    assert!(check("user.id < http.status", &r));
}

#[test]
fn array_indices_work_in_paths() {
    let r = json(r##"{"items": [{"id": 1}, {"id": 2}]}"##);
    assert!(check("items.1.id = 2", &r));
    assert!(!check("items.5.id = 2", &r));
}

// --- scalar functions -------------------------------------------------

fn value(expr: &str, record: &Value) -> Option<Value> {
    let e = parse_expr(expr).unwrap();
    match e {
        Expr::Truthy(v) => eval_value(&v, &rec(record.clone()), env()),
        other => panic!("expected a bare value, got {other:?}"),
    }
}

#[test]
fn lower_and_upper_change_case() {
    let r = json(r##"{"level": "Error", "code": 500}"##);
    assert_eq!(value("lower(level)", &r), Some(text("error")));
    assert_eq!(value("upper(level)", &r), Some(text("ERROR")));
    // Numbers are rendered as text first.
    assert_eq!(value("upper(code)", &r), Some(text("500")));
}

#[test]
fn len_counts_characters_and_members() {
    let r = json(r##"{"s": "héllo", "arr": [1, 2, 3], "obj": {"a": 1}, "n": 5}"##);
    assert_eq!(value("len(s)", &r), Some(float(5.0)));
    assert_eq!(value("len(arr)", &r), Some(float(3.0)));
    assert_eq!(value("len(obj)", &r), Some(float(1.0)));
    assert_eq!(value("len(n)", &r), None);
    assert_eq!(value("len(nope)", &r), None);
}

#[test]
fn substr_slices_by_character() {
    let r = json(r##"{"s": "connection timeout", "u": "日本語ログ"}"##);
    assert_eq!(value("substr(s, 0, 10)", &r), Some(text("connection")));
    assert_eq!(value("substr(s, 11)", &r), Some(text("timeout")));
    assert_eq!(value("substr(u, 0, 3)", &r), Some(text("日本語")));
    // Past the end is clamped, not an error.
    assert_eq!(value("substr(s, 5, 999)", &r), Some(text("ction timeout")));
    assert_eq!(value("substr(s, 99, 3)", &r), Some(text("")));
    assert_eq!(value("substr(s, 0, 0)", &r), Some(text("")));
}

#[test]
fn substr_counts_a_negative_start_from_the_end() {
    let r = json(r##"{"s": "abcdef"}"##);
    assert_eq!(value("substr(s, -2)", &r), Some(text("ef")));
    assert_eq!(value("substr(s, -99)", &r), Some(text("abcdef")));
}

#[test]
fn coalesce_takes_the_first_present_value() {
    let r = json(r##"{"a": null, "b": "", "c": "x"}"##);
    assert_eq!(value(r#"coalesce(missing, a, b, c)"#, &r), Some(text("")));
    assert_eq!(value(r#"coalesce(missing, a, c)"#, &r), Some(text("x")));
    assert_eq!(value(r#"coalesce(missing, a)"#, &r), None);
    assert_eq!(value(r#"coalesce(missing, "fallback")"#, &r), Some(text("fallback")));
}

#[test]
fn now_returns_epoch_seconds() {
    let v = value("now()", &json(r##"{}"##)).unwrap();
    assert!(to_f64(&v) > 1_767_225_600.0);
}

#[test]
fn num_casts_to_a_number() {
    let r = json(r##"{"n": 42, "s": "500", "u": "120ms", "b": true, "junk": "error", "arr": []}"##);
    assert_eq!(value("num(n)", &r), Some(float(42.0)));
    assert_eq!(value("num(s)", &r), Some(float(500.0)));
    assert_eq!(value("num(u)", &r), Some(float(120.0)));
    assert_eq!(value("num(b)", &r), Some(float(1.0)));
    assert_eq!(value("num(junk)", &r), None);
    assert_eq!(value("num(arr)", &r), None);
    assert_eq!(value("num(missing)", &r), None);
}

#[test]
fn duration_ms_normalises_units() {
    let r = json(r##"{"a": "1.5s", "b": "250ms", "c": "2m", "d": 300, "e": "300", "f": "soon"}"##);
    assert_eq!(value("duration_ms(a)", &r), Some(float(1500.0)));
    assert_eq!(value("duration_ms(b)", &r), Some(float(250.0)));
    assert_eq!(value("duration_ms(c)", &r), Some(float(120000.0)));
    assert_eq!(value("duration_ms(d)", &r), Some(float(300.0)));
    assert_eq!(value("duration_ms(e)", &r), Some(float(300.0)));
    assert_eq!(value("duration_ms(f)", &r), None);
}

#[test]
fn trim_strips_surrounding_whitespace() {
    let r = json(r##"{"s": "  padded \t", "inner": "a b"}"##);
    assert_eq!(value("trim(s)", &r), Some(text("padded")));
    assert_eq!(value("trim(inner)", &r), Some(text("a b")));
}

#[test]
fn substring_predicates_return_booleans() {
    let r = json(r##"{"msg": "upstream timeout on /v1/users"}"##);
    assert_eq!(value(r#"contains(msg, "timeout")"#, &r), Some(Value::Bool(true)));
    assert_eq!(value(r#"contains(msg, "Timeout")"#, &r), Some(Value::Bool(false)));
    assert_eq!(value(r#"starts_with(msg, "upstream")"#, &r), Some(Value::Bool(true)));
    assert_eq!(value(r#"ends_with(msg, "/v1/users")"#, &r), Some(Value::Bool(true)));
    assert_eq!(value(r#"ends_with(msg, "upstream")"#, &r), Some(Value::Bool(false)));
    assert_eq!(value(r#"contains(gone, "x")"#, &r), None);
}

#[test]
fn substring_predicates_filter_in_where() {
    let r = json(r##"{"msg": "GET /health 200"}"##);
    assert!(check(r#"contains(msg, "/health")"#, &r));
    assert!(check(r#"starts_with(msg, "GET") and ends_with(msg, "200")"#, &r));
    assert!(!check(r#"contains(msg, "POST")"#, &r));
}

#[test]
fn replace_rewrites_every_occurrence() {
    let r = json(r##"{"path": "/v1/users/12/orders/34"}"##);
    assert_eq!(
        value(r#"replace(path, "/", ":")"#, &r),
        Some(text(":v1:users:12:orders:34"))
    );
    // An empty needle would match everywhere; the text is returned as-is.
    assert_eq!(value(r#"replace(path, "", "x")"#, &r), Some(text("/v1/users/12/orders/34")));
    assert_eq!(value(r#"replace(gone, "a", "b")"#, &r), None);
}

#[test]
fn concat_joins_the_arguments_it_has() {
    let r = json(r##"{"level": "error", "code": 500, "nil": null}"##);
    assert_eq!(
        value(r#"concat(level, ": ", code)"#, &r),
        Some(text("error: 500"))
    );
    // Absent and null pieces contribute nothing rather than voiding the row.
    assert_eq!(value(r#"concat(gone, level, nil)"#, &r), Some(text("error")));
    assert_eq!(value("concat(gone, nil)", &r), None);
}

#[test]
fn arithmetic_functions_round_and_truncate() {
    let r = json(r##"{"n": -2.5, "d": 1234.5678, "s": "  42.7 "}"##);
    assert_eq!(value("abs(n)", &r), Some(float(2.5)));
    assert_eq!(value("floor(d)", &r), Some(float(1234.0)));
    assert_eq!(value("ceil(d)", &r), Some(float(1235.0)));
    assert_eq!(value("round(d)", &r), Some(float(1235.0)));
    assert_eq!(value("round(d, 2)", &r), Some(float(1234.57)));
    // Text that reads as a number is cast first, as `num` would.
    assert_eq!(value("round(s)", &r), Some(float(43.0)));
    assert_eq!(value("abs(gone)", &r), None);
}

#[test]
fn rounding_places_are_clamped_to_a_usable_range() {
    let r = json(r##"{"d": 1.23456}"##);
    // A negative place count would otherwise scale the value away.
    assert_eq!(value("round(d, -3)", &r), Some(float(1.0)));
    assert_eq!(value("round(d, 99)", &r), Some(float(1.23456)));
}

#[test]
fn ts_reads_timestamps_onto_one_scale() {
    let r = json(r##"{ "text": "2026-07-27T10:00:00Z", "offset": "2026-07-27T12:00:00+02:00", "secs": 1785146400, "millis": 1785146400000, "junk": "yesterday" }"##);
    assert_eq!(value("ts(text)", &r), Some(float(1785146400.0)));
    // The same instant written in another zone lands on the same number.
    assert_eq!(value("ts(offset)", &r), value("ts(text)", &r));
    assert_eq!(value("ts(secs)", &r), Some(float(1785146400.0)));
    assert_eq!(value("ts(millis)", &r), Some(float(1785146400.0)));
    assert_eq!(value("ts(junk)", &r), None);
    assert_eq!(value("ts(gone)", &r), None);
}

#[test]
fn format_time_renders_in_the_named_zone() {
    let r = json(r##"{"ts": "2026-07-27T10:00:00Z"}"##);
    assert_eq!(
        value("format_time(ts)", &r),
        Some(text("2026-07-27T10:00:00Z"))
    );
    assert_eq!(
        value(r#"format_time(ts, "+02:00")"#, &r),
        Some(text("2026-07-27T12:00:00+02:00"))
    );
    assert_eq!(
        value(r#"format_time(ts, "utc")"#, &r),
        Some(text("2026-07-27T10:00:00Z"))
    );
    // A zone nobody can resolve is missing, not a quiet fallback to UTC.
    assert_eq!(value(r#"format_time(ts, "Mars/Olympus")"#, &r), None);
}

#[test]
fn timestamps_compare_across_representations() {
    let r = json(r##"{"ts": "2026-07-27T10:00:00Z", "seen": 1785146460}"##);
    assert!(check("ts(seen) > ts(ts)", &r));
    assert!(check("ts(ts) < now()", &r));
}

#[test]
fn sums_and_differences_evaluate() {
    let r = json(r##"{"a": 10, "b": 4, "s": "2.5"}"##);
    assert_eq!(value("a + b", &r), Some(float(14.0)));
    assert_eq!(value("a - b", &r), Some(float(6.0)));
    assert_eq!(value("a - b - b", &r), Some(float(2.0)));
    assert_eq!(value("a - (b - b)", &r), Some(float(10.0)));
    // A numeric string is cast, as `num` casts it.
    assert_eq!(value("a + s", &r), Some(float(12.5)));
}

#[test]
fn a_duration_literal_is_its_length_in_seconds() {
    let r = json(r##"{}"##);
    assert_eq!(value("0 + 15m", &r), Some(float(900.0)));
    assert_eq!(value("0 + 1h", &r), Some(float(3600.0)));
    assert_eq!(value("0 + 250ms", &r), Some(float(0.25)));
}

#[test]
fn a_recency_window_filters_on_the_clock() {
    let now = f64::from_bits(now_epoch().bits);
    let mut r = Record::new();
    r.insert("recent".to_string(), float(now - 60.0));
    r.insert("old".to_string(), float(now - 7200.0));
    let r = Value::Object(r);
    assert!(check("recent > now() - 15m", &r));
    assert!(!check("old > now() - 15m", &r));
}

#[test]
fn arithmetic_on_a_missing_or_non_numeric_side_is_missing() {
    let r = json(r##"{"a": 1, "text": "error", "nil": null}"##);
    assert_eq!(value("a + gone", &r), None);
    assert_eq!(value("gone + a", &r), None);
    assert_eq!(value("a + text", &r), None);
    assert_eq!(value("a + nil", &r), None);
}

#[test]
fn a_function_of_a_missing_value_is_missing() {
    let r = json(r##"{"nil": null}"##);
    for expr in ["lower(gone)", "upper(gone)", "len(gone)", "substr(gone, 1)", "num(gone)"] {
        assert_eq!(value(expr, &r), None, "{expr}");
    }
    // A present null is not text either.
    assert_eq!(value("lower(nil)", &r), None);
}

#[test]
fn functions_compose_and_compare() {
    let r = json(r##"{"level": "ERROR", "msg": "Upstream Timeout", "dur": "1.5s"}"##);
    assert!(check(r#"lower(level) = "error""#, &r));
    assert!(check(r#"lower(substr(msg, 0, 8)) = "upstream""#, &r));
    assert!(check("duration_ms(dur) > 1000", &r));
    assert!(check("len(level) = 5", &r));
    // Missing propagates into the comparison, which is then false.
    assert!(!check("len(gone) = 5", &r));
    assert!(!check("len(gone) != 5", &r));
}

// --- compare_values directly -----------------------------------------

#[test]
fn compare_values_reports_incomparability() {
    assert_eq!(compare_values(&whole(1), &whole(2)), Some(Ordering::Less));
    assert_eq!(compare_values(&text("a"), &whole(1)), None);
    assert_eq!(compare_values(&Value::Null, &whole(1)), None);
    assert_eq!(
        compare_values(&Value::Null, &Value::Null),
        Some(Ordering::Equal)
    );
}
