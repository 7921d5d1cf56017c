use logquery::num::Num;
use logquery::timeutil::{
    civil_from_days, days_from_civil, format_epoch, is_duration_unit, now_epoch, parse_duration, parse_rfc3339,
    parse_tz,
};

fn num(x: f64) -> Num {
    Num { bits: x.to_bits() }
}

#[test]
fn durations_scale_by_unit() {
    assert_eq!(parse_duration("30s"), Some(num(30.0)));
    assert_eq!(parse_duration("15m"), Some(num(900.0)));
    assert_eq!(parse_duration("2h"), Some(num(7200.0)));
    assert_eq!(parse_duration("7d"), Some(num(604_800.0)));
    assert_eq!(parse_duration("250ms"), Some(num(0.25)));
    assert_eq!(parse_duration("1.5h"), Some(num(5400.0)));
}

#[test]
fn durations_reject_junk() {
    assert_eq!(parse_duration("10"), None);
    assert_eq!(parse_duration("10y"), None);
    assert_eq!(parse_duration("h"), None);
    assert_eq!(parse_duration("-5m"), None);
}

#[test]
fn duration_units_are_recognised() {
    assert!(is_duration_unit("ms"));
    assert!(is_duration_unit("d"));
    assert!(!is_duration_unit("w"));
}

#[test]
fn epoch_zero_round_trips() {
    assert_eq!(parse_rfc3339("1970-01-01T00:00:00Z"), Some(num(0.0)));
    assert_eq!(format_epoch(num(0.0), 0), "1970-01-01T00:00:00Z");
}

#[test]
fn parses_a_realistic_timestamp() {
    let t = parse_rfc3339("2026-07-27T09:14:15Z").unwrap();
    assert_eq!(format_epoch(t, 0), "2026-07-27T09:14:15Z");
}

#[test]
fn parses_fractional_seconds() {
    let t = parse_rfc3339("2026-07-27T09:14:15.250Z").unwrap();
    assert!((f64::from_bits(t.bits).fract() - 0.25).abs() < 1e-9);
    assert_eq!(format_epoch(t, 0), "2026-07-27T09:14:15.250Z");
}

#[test]
fn parses_zone_offsets() {
    let z = parse_rfc3339("2026-07-27T09:14:15Z").unwrap();
    assert_eq!(parse_rfc3339("2026-07-27T11:14:15+02:00"), Some(z));
    assert_eq!(parse_rfc3339("2026-07-27T04:14:15-05:00"), Some(z));
    assert_eq!(parse_rfc3339("2026-07-27T11:14:15+0200"), Some(z));
}

#[test]
fn accepts_a_space_separator_and_a_bare_date() {
    assert_eq!(
        parse_rfc3339("2026-07-27 09:14:15Z"),
        parse_rfc3339("2026-07-27T09:14:15Z")
    );
    assert_eq!(
        parse_rfc3339("2026-07-27"),
        parse_rfc3339("2026-07-27T00:00:00Z")
    );
}

#[test]
fn missing_zone_is_read_as_utc() {
    assert_eq!(
        parse_rfc3339("2026-07-27T09:14:15"),
        parse_rfc3339("2026-07-27T09:14:15Z")
    );
}

#[test]
fn rejects_text_that_is_not_a_timestamp() {
    for s in [
        "",
        "hello",
        "2026",
        "2026-13-01T00:00:00Z",
        "2026-07-27T25:00:00Z",
        "2026-07-27T09:14:15X",
        "2026/07/27T09:14:15Z",
        "500",
    ] {
        assert_eq!(parse_rfc3339(s), None, "{s} should not parse");
    }
}

#[test]
fn formatting_applies_the_offset() {
    let t = parse_rfc3339("2026-07-27T09:14:15Z").unwrap();
    assert_eq!(format_epoch(t, 120), "2026-07-27T11:14:15+02:00");
    assert_eq!(format_epoch(t, -330), "2026-07-27T03:44:15-05:30");
}

#[test]
fn tz_specs_parse() {
    assert_eq!(parse_tz("UTC", 0), Some(0));
    assert_eq!(parse_tz("z", 0), Some(0));
    assert_eq!(parse_tz("+02:00", 0), Some(120));
    assert_eq!(parse_tz("-0700", 0), Some(-420));
    assert_eq!(parse_tz("+05:30", 0), Some(330));
    assert_eq!(parse_tz("Mars/Olympus", 0), None);
    assert_eq!(parse_tz("+99:00", 0), None);
}

#[test]
fn civil_dates_round_trip_across_leap_years() {
    for (y, m, d) in [
        (1970, 1, 1),
        (2000, 2, 29),
        (2024, 2, 29),
        (2026, 12, 31),
        (2100, 3, 1),
    ] {
        let days = days_from_civil(y, m, d);
        assert_eq!(civil_from_days(days), (y, m, d), "{y}-{m}-{d}");
    }
}

#[test]
fn now_is_after_the_project_was_written() {
    // 2026-01-01T00:00:00Z. A clock earlier than this means the test
    // machine is misconfigured, not that the function is wrong.
    assert!(f64::from_bits(now_epoch().bits) > 1_767_225_600.0);
}
