//! Time: duration literals, RFC 3339 timestamps and fixed-offset zones.
//!
//! Everything is converted to and from epoch seconds. Dates follow the
//! proleptic Gregorian calendar.

use crate::decimal::{
    digits_end, digits_value, nat_text, number_in, push_nat, read_number, skip_digits, zeros,
};
use crate::num::{
    clamped, difference, floor_of, lemma_whole_exact, product, ratio, round_of, sum, whole_int, Num,
};
use crate::text::{
    chars_of, digit, is_digit, lemma_trimmed_as_is, lower_chars, lower_text, same_chars, space,
    string_of, trim_chars, trimmed,
};
use vstd::prelude::*;

verus! {

/// Whether a year has a 29th of February.
pub open spec fn leap(y: int) -> bool {
    y % 4 == 0 && (y % 100 != 0 || y % 400 == 0)
}

/// How many days lie between the first days of year 0 and of a year.
pub open spec fn days_before_year(y: int) -> int {
    365 * y + (y + 3) / 4 - (y + 99) / 100 + (y + 399) / 400
}

/// How many days of a year lie before the first day of a month.
pub open spec fn days_before_month(y: int, m: int) -> int {
    let feb: int = if leap(y) { 29 } else { 28 };
    if m <= 1 {
        0
    } else if m == 2 {
        31
    } else if m == 3 {
        31 + feb
    } else if m == 4 {
        62 + feb
    } else if m == 5 {
        92 + feb
    } else if m == 6 {
        123 + feb
    } else if m == 7 {
        153 + feb
    } else if m == 8 {
        184 + feb
    } else if m == 9 {
        215 + feb
    } else if m == 10 {
        245 + feb
    } else if m == 11 {
        276 + feb
    } else if m == 12 {
        306 + feb
    } else {
        337 + feb
    }
}

/// The days from the first of January 1970 to a date.
pub open spec fn day_number(y: int, m: int, d: int) -> int {
    days_before_year(y) + days_before_month(y, m) + (d - 1) - days_before_year(1970)
}

/// Whether the calendar has the date.
pub open spec fn valid_date(y: int, m: int, d: int) -> bool {
    1 <= m <= 12 && 1 <= d <= days_before_month(y, m + 1) - days_before_month(y, m)
}

/// How many days lie between the first days of March of year 0 and of a year.
spec fn march_days(s: int) -> int {
    365 * s + s / 4 - s / 100 + s / 400
}

proof fn lemma_round_up(s: int, k: int)
    requires
        k > 1,
    ensures
        (s + (k - 1)) / k == s / k + (if s % k == 0 { 0int } else { 1int }),
{
    let q = s / k;
    let r = s % k;
    vstd::arithmetic::div_mod::lemma_fundamental_div_mod(s, k);
    vstd::arithmetic::div_mod::lemma_mod_bound(s, k);
    if r == 0 {
        vstd::arithmetic::div_mod::lemma_fundamental_div_mod_converse(s + (k - 1), k, q, k - 1);
    } else {
        assert(k * (q + 1) == k * q + k) by (nonlinear_arith);
        vstd::arithmetic::div_mod::lemma_fundamental_div_mod_converse(s + (k - 1), k, q + 1, r - 1);
    }
}

proof fn lemma_one_more(s: int, k: int)
    requires
        k > 1,
    ensures
        (s + 1 + (k - 1)) / k == s / k + 1,
{
    vstd::arithmetic::div_mod::lemma_div_plus_one(s, k);
}

proof fn lemma_centuries(s: int)
    ensures
        s % 400 == 0 ==> s % 100 == 0,
        s % 100 == 0 ==> s % 4 == 0,
{
}

proof fn lemma_march(s: int)
    ensures
        days_before_year(s) + days_before_month(s, 3) == march_days(s) + 60,
        days_before_year(s + 1) == march_days(s) + 366,
{
    lemma_round_up(s, 4);
    lemma_round_up(s, 100);
    lemma_round_up(s, 400);
    lemma_one_more(s, 4);
    lemma_one_more(s, 100);
    lemma_one_more(s, 400);
    lemma_centuries(s);
}

proof fn lemma_era(s: int, era: int, yoe: int)
    requires
        s == 400 * era + yoe,
        0 <= yoe < 400,
    ensures
        march_days(s) == era * 146_097 + yoe * 365 + yoe / 4 - yoe / 100,
{
    let q4 = yoe / 4;
    let q100 = yoe / 100;
    lemma_divides(s, 4, 100 * era + q4, yoe - 4 * q4);
    lemma_divides(s, 100, 4 * era + q100, yoe - 100 * q100);
    lemma_divides(s, 400, era, yoe);
}

/// The days of a year that starts in March which lie before its months.
spec fn march_month(mp: int) -> int {
    if mp == 0 { 0 } else if mp == 1 { 31 } else if mp == 2 { 61 } else if mp == 3 { 92 }
    else if mp == 4 { 122 } else if mp == 5 { 153 } else if mp == 6 { 184 } else if mp == 7 { 214 }
    else if mp == 8 { 245 } else if mp == 9 { 275 } else if mp == 10 { 306 } else { 337 }
}

/// A date by its year and month counted from March.
proof fn lemma_march_date(y: int, m: int, d: int, s: int, mp: int)
    requires
        1 <= m <= 12,
        m <= 2 ==> s == y - 1 && mp == m + 9,
        m > 2 ==> s == y && mp == m - 3,
    ensures
        day_number(y, m, d) == march_days(s) + march_month(mp) + d - 1 - 719_468,
        0 <= mp <= 11,
        (153 * mp + 2) / 5 == march_month(mp),
{
    lemma_march(s);
    assert(days_before_year(1970) == 719_528);
}

/// A year has 365 days and at most one more.
proof fn lemma_year_span(y: int, m: int, d: int)
    requires
        1 <= m <= 12,
        1 <= d <= 31,
    ensures
        y >= 0 ==> 365 * y - 719_528 <= day_number(y, m, d) <= 366 * y,
        y < 0 ==> 366 * y - 719_528 <= day_number(y, m, d) <= 365 * y,
{
    let a = (y + 3) / 4;
    let b = (y + 99) / 100;
    let c = (y + 399) / 400;
    vstd::arithmetic::div_mod::lemma_fundamental_div_mod(y + 3, 4);
    vstd::arithmetic::div_mod::lemma_fundamental_div_mod(y + 99, 100);
    vstd::arithmetic::div_mod::lemma_fundamental_div_mod(y + 399, 400);
    assert(4 * a <= y + 3 < 4 * a + 4);
    assert(100 * b <= y + 99 < 100 * b + 100);
    assert(400 * c <= y + 399 < 400 * c + 400);
    assert(days_before_year(1970) == 719_528);
}

/// Days since 1970-01-01 for a date.
pub fn days_from_civil(y: i64, m: u32, d: u32) -> (r: i64)
    requires
        1 <= m <= 12,
        1 <= d <= 31,
        i64::MIN <= day_number(y as int, m as int, d as int) <= i64::MAX - 719_468,
    ensures
        r == day_number(y as int, m as int, d as int),
{
    proof {
        lemma_year_span(y as int, m as int, d as int);
    }
    let shifted: i64 = if m <= 2 {
        y - 1
    } else {
        y
    };
    let era: i64 = if shifted >= 0 {
        shifted / 400
    } else {
        -((399 - shifted) / 400)
    };
    let yoe: i64 = shifted - era * 400;
    let mp: i64 = (m as i64 + 9) % 12;
    proof {
        lemma_era(shifted as int, era as int, yoe as int);
        lemma_march_date(y as int, m as int, d as int, shifted as int, mp as int);
    }
    let doy: i64 = (153 * mp + 2) / 5 + d as i64 - 1;
    let doe: i64 = yoe * 365 + yoe / 4 - yoe / 100 + doy;
    era * 146_097 + doe - 719_468
}

/// Division with a quotient and a remainder that are known.
proof fn lemma_divides(x: int, d: int, q: int, r: int)
    requires
        x == q * d + r,
        0 <= r < d,
    ensures
        x / d == q,
        x % d == r,
{
    vstd::arithmetic::div_mod::lemma_fundamental_div_mod_converse(x, d, q, r);
}

/// The year and the day of the year of a day of an era, by its century, the four
/// years of that, the year of those, and the day.
proof fn lemma_year_parts(doe: int, c: int, q: int, j: int, r: int)
    requires
        doe == 36524 * c + 1461 * q + 365 * j + r,
        0 <= c <= 3,
        0 <= q <= 24,
        0 <= j <= 3,
        0 <= r <= 365,
        r == 365 ==> j == 3 && q < 24,
    ensures
        (doe - doe / 1460 + doe / 36524 - doe / 146_096) / 365 == 100 * c + 4 * q + j,
        doe - (365 * (100 * c + 4 * q + j) + (100 * c + 4 * q + j) / 4 - (100 * c + 4 * q + j)
            / 100) == r,
        r == 365 ==> leap(100 * c + 4 * q + j + 1),
{
    let y = 100 * c + 4 * q + j;
    let m = 24 * c + q + 365 * j + r;
    let late: int = if m >= 1460 {
        1
    } else {
        0
    };
    lemma_divides(doe, 1460, 25 * c + q + late, m - 1460 * late);
    lemma_divides(doe, 36524, c, doe - 36524 * c);
    lemma_divides(doe, 146_096, 0, doe);
    lemma_divides(doe - (25 * c + q + late) + c, 365, y, r - late);
    lemma_divides(y, 4, 25 * c + q, j);
    lemma_divides(y, 100, c, 4 * q + j);
    if r == 365 {
        lemma_divides(y + 1, 4, 25 * c + q + 1, 0);
        lemma_divides(y + 1, 100, c, 4 * q + 4);
    }
}

/// The year of an era and its day that a day of the era is.
proof fn lemma_year_of_era(doe: int) -> (r: (int, int))
    requires
        0 <= doe < 146_097,
    ensures
        r.0 == (doe - doe / 1460 + doe / 36524 - doe / 146_096) / 365,
        r.1 == doe - (365 * r.0 + r.0 / 4 - r.0 / 100),
        0 <= r.0 < 400,
        0 <= r.1 <= 365,
        r.1 == 365 ==> leap(r.0 + 1),
{
    if doe == 146_096 {
        lemma_divides(doe, 1460, 100, 96);
        lemma_divides(doe, 36524, 4, 0);
        lemma_divides(doe, 146_096, 1, 0);
        lemma_divides(145_999, 365, 399, 364);
        (399, 365)
    } else {
        let c = doe / 36524;
        let dc = doe % 36524;
        let q = dc / 1461;
        let dq = dc % 1461;
        let j = if dq >= 1095 {
            3
        } else {
            dq / 365
        };
        lemma_year_parts(doe, c, q, j, dq - 365 * j);
        (100 * c + 4 * q + j, dq - 365 * j)
    }
}

proof fn lemma_month_of_year(doy: int) -> (mp: int)
    requires
        0 <= doy <= 365,
    ensures
        mp == (5 * doy + 2) / 153,
        0 <= mp <= 11,
        (153 * mp + 2) / 5 == march_month(mp),
        march_month(mp) <= doy,
        mp < 11 ==> doy < march_month(mp + 1),
{
    (5 * doy + 2) / 153
}

proof fn lemma_leap_shift(era: int, yoe: int)
    requires
        0 <= yoe < 400,
    ensures
        leap(400 * era + yoe + 1) == leap(yoe + 1),
{
    let y = yoe + 1;
    vstd::arithmetic::div_mod::lemma_mod_multiples_vanish(100 * era, y, 4);
    vstd::arithmetic::div_mod::lemma_mod_multiples_vanish(4 * era, y, 100);
    vstd::arithmetic::div_mod::lemma_mod_multiples_vanish(era, y, 400);
    assert(4 * (100 * era) == 400 * era);
    assert(100 * (4 * era) == 400 * era);
}

/// The date of a day of a year of an era, its months counted from March.
spec fn date_from_parts(era: int, yoe: int, doy: int, mp: int) -> (int, int, int) {
    let y = yoe + era * 400;
    let d = doy - march_month(mp) + 1;
    if mp < 10 {
        (y, mp + 3, d)
    } else {
        (y + 1, mp - 9, d)
    }
}

proof fn lemma_date_from_parts(z: int, era: int, yoe: int, doy: int, mp: int)
    requires
        z + 719_468 == era * 146_097 + (365 * yoe + yoe / 4 - yoe / 100) + doy,
        0 <= yoe < 400,
        0 <= doy <= 365,
        doy == 365 ==> leap(yoe + 1),
        0 <= mp <= 11,
        march_month(mp) <= doy,
        mp < 11 ==> doy < march_month(mp + 1),
    ensures
        is_date_of(date_from_parts(era, yoe, doy, mp), z),
        1 <= date_from_parts(era, yoe, doy, mp).2 <= 31,
{
    let (year, m, d) = date_from_parts(era, yoe, doy, mp);
    let y = yoe + era * 400;
    lemma_era(y, era, yoe);
    lemma_march_date(year, m, d, y, mp);
    lemma_leap_shift(era, yoe);
}

/// Whether a date is that of a day.
pub open spec fn is_date_of(t: (int, int, int), z: int) -> bool {
    valid_date(t.0, t.1, t.2) && day_number(t.0, t.1, t.2) == z
}

/// The date of a day.
pub open spec fn date_of(z: int) -> (int, int, int) {
    choose|t: (int, int, int)| is_date_of(t, z)
}

/// The date of a day.
pub fn civil_from_days(z: i64) -> (r: (i64, u32, u32))
    requires
        z <= i64::MAX - 719_468,
    ensures
        valid_date(r.0 as int, r.1 as int, r.2 as int),
        day_number(r.0 as int, r.1 as int, r.2 as int) == z,
        (r.0 as int, r.1 as int, r.2 as int) == date_of(z as int),
{
    let z0: i64 = z + 719_468;
    let era: i64 = if z0 >= 0 {
        z0 / 146_097
    } else {
        -(-(z0 + 1) / 146_097) - 1
    };
    let doe: i64 = z0 - era * 146_097;
    let ghost split = lemma_year_of_era(doe as int);
    let yoe: i64 = (doe - doe / 1460 + doe / 36524 - doe / 146_096) / 365;
    let y: i64 = yoe + era * 400;
    let doy: i64 = doe - (365 * yoe + yoe / 4 - yoe / 100);
    let ghost month = lemma_month_of_year(doy as int);
    let mp: i64 = (5 * doy + 2) / 153;
    proof {
        lemma_date_from_parts(z as int, era as int, yoe as int, doy as int, mp as int);
    }
    let d: u32 = (doy - (153 * mp + 2) / 5 + 1) as u32;
    let m: u32 = (if mp < 10 {
        mp + 3
    } else {
        mp - 9
    }) as u32;
    let year: i64 = if m <= 2 {
        y + 1
    } else {
        y
    };
    proof {
        let t = (year as int, m as int, d as int);
        assert(t == date_from_parts(era as int, yoe as int, doy as int, mp as int));
        assert(is_date_of(t, z as int));
        let u = date_of(z as int);
        law_one_date_per_day(t.0, t.1, t.2, u.0, u.1, u.2);
    }
    (year, m, d)
}

/// A year is as long as it is leap or not.
proof fn lemma_year_step(a: int)
    ensures
        days_before_year(a + 1) == days_before_year(a) + (if leap(a) { 366int } else { 365int }),
{
    lemma_march(a);
}

/// A later year starts later, by the length of the years between at least.
proof fn lemma_year_grows(a: int, b: int)
    requires
        a < b,
    ensures
        days_before_year(a) + 365 <= days_before_year(b),
        days_before_year(a + 1) == days_before_year(a) + (if leap(a) { 366int } else { 365int }),
        days_before_year(a + 1) <= days_before_year(b),
    decreases b - a,
{
    lemma_year_step(a);
    if a + 1 < b {
        lemma_year_grows(a + 1, b);
    }
}

/// A day has one date: dates with the same day number are the same date.
pub proof fn law_one_date_per_day(y: int, m: int, d: int, y2: int, m2: int, d2: int)
    requires
        valid_date(y, m, d),
        valid_date(y2, m2, d2),
        day_number(y, m, d) == day_number(y2, m2, d2),
    ensures
        y == y2,
        m == m2,
        d == d2,
{
    if y < y2 {
        lemma_year_grows(y, y2);
    }
    if y2 < y {
        lemma_year_grows(y2, y);
    }
}

/// The day after a date is the next day of its month, or the first of the next
/// month, or the first of the next year.
pub proof fn law_days_follow_one_another(y: int, m: int, d: int)
    requires
        valid_date(y, m, d),
    ensures
        valid_date(y, m, d + 1) ==> day_number(y, m, d + 1) == day_number(y, m, d) + 1,
        !valid_date(y, m, d + 1) && m < 12 ==> day_number(y, m + 1, 1) == day_number(y, m, d) + 1,
        !valid_date(y, m, d + 1) && m == 12 ==> day_number(y + 1, 1, 1) == day_number(y, m, d) + 1,
        day_number(1970, 1, 1) == 0,
{
    lemma_year_grows(y, y + 1);
}

/// Whether a text is one of the units of a duration.
pub open spec fn unit(s: Seq<char>) -> bool {
    s == "ms"@ || s == "s"@ || s == "m"@ || s == "h"@ || s == "d"@
}

/// The seconds of one unit; of a millisecond the number nearest to them.
pub open spec fn unit_seconds(s: Seq<char>) -> Option<Num> {
    if s == "ms"@ {
        Some(ratio(whole_int(1), whole_int(1000)))
    } else if s == "s"@ {
        Some(whole_int(1))
    } else if s == "m"@ {
        Some(whole_int(60))
    } else if s == "h"@ {
        Some(whole_int(3600))
    } else if s == "d"@ {
        Some(whole_int(86400))
    } else {
        None
    }
}

/// Where the digits and points end that start at `i`.
pub open spec fn amount_end(s: Seq<char>, i: int) -> int
    decreases s.len() - i,
{
    if 0 <= i < s.len() && (digit(s[i]) || s[i] == '.') {
        amount_end(s, i + 1)
    } else {
        i
    }
}

/// The seconds that a duration such as `15m` or `1.5h` writes.
pub open spec fn duration_in(s: Seq<char>) -> Option<Num> {
    let i = amount_end(s, 0);
    if i == 0 || i == s.len() {
        None
    } else {
        match (number_in(s.subrange(0, i)), unit_seconds(s.subrange(i, s.len() as int))) {
            (Some(n), Some(scale)) => if n.finite() {
                Some(product(n, scale))
            } else {
                None
            },
            _ => None,
        }
    }
}

/// Whether the characters are those of a word.
pub fn is_word(v: &[char], w: &str) -> (r: bool)
    ensures
        r == (v@ == w@),
{
    same_chars(v, &chars_of(w))
}

/// Whether the characters are one of the units of a duration.
pub fn is_unit(v: &[char]) -> (r: bool)
    ensures
        r == unit(v@),
{
    is_word(v, "ms") || is_word(v, "s") || is_word(v, "m") || is_word(v, "h") || is_word(v, "d")
}

/// Whether the unit is a suffix that belongs to a number before it.
pub fn is_duration_unit(unit: &str) -> (r: bool)
    ensures
        r == self::unit(unit@),
{
    is_unit(&chars_of(unit))
}

fn seconds_of_unit(v: &[char]) -> (r: Option<Num>)
    ensures
        r == unit_seconds(v@),
{
    if is_word(v, "ms") {
        proof {
            lemma_whole_exact(false, 1000);
        }
        Some(Num::from_u64(1).over(Num::from_u64(1000)))
    } else if is_word(v, "s") {
        Some(Num::from_u64(1))
    } else if is_word(v, "m") {
        Some(Num::from_u64(60))
    } else if is_word(v, "h") {
        Some(Num::from_u64(3600))
    } else if is_word(v, "d") {
        Some(Num::from_u64(86400))
    } else {
        None
    }
}

/// The index of the first character that is neither a digit nor a point.
pub fn split_unit(v: &[char]) -> (r: usize)
    ensures
        r == amount_end(v@, 0),
        r <= v@.len(),
{
    let mut i: usize = 0;
    while i < v.len() && (is_digit(v[i]) || v[i] == '.')
        invariant
            i <= v@.len(),
            amount_end(v@, 0) == amount_end(v@, i as int),
        decreases v.len() - i,
    {
        i += 1;
    }
    i
}

/// Reads a duration, in seconds.
pub fn parse_duration_chars(v: &[char]) -> (r: Option<Num>)
    ensures
        r == duration_in(v@),
{
    let i: usize = split_unit(v);
    if i == 0 || i == v.len() {
        return None;
    }
    let head = crate::text::chars_between(v, 0, i);
    let tail = crate::text::chars_between(v, i, v.len());
    match (read_number(&head), seconds_of_unit(&tail)) {
        (Some(n), Some(scale)) => if n.is_finite() {
            Some(n.times(scale))
        } else {
            None
        },
        _ => None,
    }
}

/// Reads a duration literal such as `30s`, `15m`, `2h`, `7d` or `1.5h`, in
/// seconds.
pub fn parse_duration(text: &str) -> (r: Option<Num>)
    ensures
        r == duration_in(text@),
{
    parse_duration_chars(&chars_of(text))
}

/// The number that the digits of a part of a text write, where it holds digits
/// alone.
pub open spec fn digits_at(s: Seq<char>, from: int, to: int) -> Option<int> {
    if 0 <= from < to <= s.len() && forall|i: int| from <= i < to ==> digit(s[i]) {
        Some(digits_value(s.subrange(from, to)) as int)
    } else {
        None
    }
}

/// Reads up to four digits of a text.
pub fn digits(s: &[char], from: usize, to: usize) -> (r: Option<i64>)
    requires
        from <= to,
        to - from <= 4,
    ensures
        match r {
            Some(n) => digits_at(s@, from as int, to as int) == Some(n as int) && 0 <= n <= 9999,
            None => digits_at(s@, from as int, to as int) is None,
        },
        r matches Some(n) ==> (to - from == 2 ==> n <= 99),
{
    if from == to || to > s.len() {
        return None;
    }
    let mut n: i64 = 0;
    let mut i: usize = from;
    assert(s@.subrange(from as int, from as int) =~= Seq::<char>::empty());
    while i < to
        invariant
            from <= i <= to <= s@.len(),
            to - from <= 4,
            n == digits_value(s@.subrange(from as int, i as int)),
            0 <= n,
            i == from ==> n == 0,
            i == from + 1 ==> n <= 9,
            i == from + 2 ==> n <= 99,
            i == from + 3 ==> n <= 999,
            i == from + 4 ==> n <= 9999,
            forall|j: int| from <= j < i ==> digit(s@[j]),
        decreases to - i,
    {
        if !is_digit(s[i]) {
            return None;
        }
        assert(s@.subrange(from as int, i + 1).drop_last() =~= s@.subrange(from as int, i as int));
        n = n * 10 + (s[i] as u32 - '0' as u32) as i64;
        i += 1;
    }
    Some(n)
}

/// The minutes east of UTC that `+HH:MM`, `-HH:MM`, `+HHMM` or `+HH` write.
pub open spec fn offset_in(s: Seq<char>) -> Option<int> {
    if s.len() == 0 || (s[0] != '+' && s[0] != '-') {
        None
    } else {
        let minutes = if s.len() == 3 {
            Some(0int)
        } else if s.len() == 5 {
            digits_at(s, 3, 5)
        } else if s.len() == 6 && s[3] == ':' {
            digits_at(s, 4, 6)
        } else {
            None
        };
        match (digits_at(s, 1, 3), minutes) {
            (Some(hh), Some(mm)) => if hh > 23 || mm > 59 {
                None
            } else if s[0] == '-' {
                Some(-(hh * 60 + mm))
            } else {
                Some(hh * 60 + mm)
            },
            _ => None,
        }
    }
}

/// Reads an offset from UTC, in minutes.
pub fn parse_offset(s: &[char]) -> (r: Option<i32>)
    ensures
        match r {
            Some(n) => offset_in(s@) == Some(n as int) && -1439 <= n <= 1439,
            None => offset_in(s@) is None,
        },
{
    if s.len() == 0 || (s[0] != '+' && s[0] != '-') {
        return None;
    }
    let minutes: Option<i64> = if s.len() == 3 {
        Some(0)
    } else if s.len() == 5 {
        digits(s, 3, 5)
    } else if s.len() == 6 && s[3] == ':' {
        digits(s, 4, 6)
    } else {
        None
    };
    match (digits(s, 1, 3), minutes) {
        (Some(hh), Some(mm)) => if hh > 23 || mm > 59 {
            None
        } else if s[0] == '-' {
            Some(-((hh * 60 + mm) as i32))
        } else {
            Some((hh * 60 + mm) as i32)
        },
        _ => None,
    }
}

/// The offset that a zone such as `utc`, `local` or `+02:00` names, given that
/// of the local zone.
pub open spec fn tz_in(s: Seq<char>, local: int) -> Option<int> {
    let name = lower_text(trimmed(s));
    if name == "utc"@ || name == "z"@ || name == "gmt"@ {
        Some(0)
    } else if name == "local"@ {
        Some(local)
    } else {
        offset_in(name)
    }
}

/// Reads a zone into minutes east of UTC. Named zones other than `utc`, `z`,
/// `gmt` and `local` are refused.
pub fn parse_tz(spec: &str, local: i32) -> (r: Option<i32>)
    ensures
        match r {
            Some(n) => tz_in(spec@, local as int) == Some(n as int),
            None => tz_in(spec@, local as int) is None,
        },
{
    let name = lower_chars(&trim_chars(&chars_of(spec)));
    if is_word(&name, "utc") || is_word(&name, "z") || is_word(&name, "gmt") {
        Some(0)
    } else if is_word(&name, "local") {
        Some(local)
    } else {
        parse_offset(&name)
    }
}

/// The local zone's offset: what the text of the variable `TZ` writes, where it
/// is a fixed offset, and otherwise 0.
pub open spec fn local_offset(tz: Option<Seq<char>>) -> int {
    match tz {
        Some(s) => match offset_in(trimmed(s)) {
            Some(n) => n,
            None => 0,
        },
        None => 0,
    }
}

pub fn local_offset_minutes(tz: Option<&str>) -> (r: i32)
    ensures
        r == local_offset(
            match tz {
                Some(s) => Some(s@),
                None => None,
            },
        ),
        -1439 <= r <= 1439,
{
    match tz {
        Some(s) => match parse_offset(&trim_chars(&chars_of(s))) {
            Some(n) => n,
            None => 0,
        },
        None => 0,
    }
}

/// The day that a date `YYYY-MM-DD` at the start of a text names.
pub open spec fn day_in(b: Seq<char>) -> Option<int> {
    if b.len() < 10 || b[4] != '-' || b[7] != '-' {
        None
    } else {
        match (digits_at(b, 0, 4), digits_at(b, 5, 7), digits_at(b, 8, 10)) {
            (Some(y), Some(m), Some(d)) => if 1 <= m <= 12 && 1 <= d <= 31 {
                Some(day_number(y, m, d))
            } else {
                None
            },
            _ => None,
        }
    }
}

/// The minutes of the day that `THH:MM` behind the date names.
pub open spec fn minutes_in(b: Seq<char>) -> Option<int> {
    if b.len() < 16 || (b[10] != 'T' && b[10] != 't' && b[10] != ' ') || b[13] != ':' {
        None
    } else {
        match (digits_at(b, 11, 13), digits_at(b, 14, 16)) {
            (Some(h), Some(m)) => if h > 23 || m > 59 {
                None
            } else {
                Some(h * 60 + m)
            },
            _ => None,
        }
    }
}

/// The seconds behind the minutes: whole ones, with a leap second as 60; what
/// part of one is written behind a point; and where they end.
pub open spec fn seconds_in(b: Seq<char>) -> Option<(int, Option<Num>, int)> {
    if b.len() <= 16 || b[16] != ':' {
        Some((0, None, 16))
    } else {
        match digits_at(b, 17, 19) {
            None => None,
            Some(n) => {
                let secs = if n > 60 {
                    60
                } else {
                    n
                };
                if b.len() > 19 && b[19] == '.' {
                    let j = digits_end(b, 20);
                    if j == 20 {
                        None
                    } else {
                        match number_in(seq!['0', '.'] + b.subrange(20, j)) {
                            Some(part) => Some((secs, Some(part), j)),
                            None => None,
                        }
                    }
                } else {
                    Some((secs, None, 19))
                }
            },
        }
    }
}

/// A time shifted to UTC by the zone that is written from `i` to the end. No
/// zone is UTC.
pub open spec fn zoned(b: Seq<char>, i: int, t: Num) -> Option<Num> {
    if i >= b.len() {
        Some(t)
    } else if b[i] == 'Z' || b[i] == 'z' {
        if i + 1 == b.len() {
            Some(t)
        } else {
            None
        }
    } else if b[i] == '+' || b[i] == '-' {
        match offset_in(b.subrange(i, b.len() as int)) {
            Some(n) => Some(difference(t, whole_int(n * 60))),
            None => None,
        }
    } else {
        None
    }
}

/// The epoch seconds that an RFC 3339 timestamp, or a bare date, names.
pub open spec fn rfc3339_in(text: Seq<char>) -> Option<Num> {
    let b = trimmed(text);
    match day_in(b) {
        None => None,
        Some(day) => if b.len() == 10 {
            Some(whole_int(day * 86400))
        } else {
            match (minutes_in(b), seconds_in(b)) {
                (Some(minutes), Some((secs, part, next))) => {
                    let t = whole_int(day * 86400 + minutes * 60 + secs);
                    zoned(
                        b,
                        next,
                        match part {
                            Some(x) => sum(t, x),
                            None => t,
                        },
                    )
                },
                _ => None,
            }
        },
    }
}

fn read_day(b: &[char]) -> (r: Option<i64>)
    ensures
        match r {
            Some(n) => day_in(b@) == Some(n as int) && -1_000_000 <= n <= 10_000_000,
            None => day_in(b@) is None,
        },
        r is Some ==> b@.len() >= 10,
{
    if b.len() < 10 || b[4] != '-' || b[7] != '-' {
        return None;
    }
    match (digits(b, 0, 4), digits(b, 5, 7), digits(b, 8, 10)) {
        (Some(y), Some(m), Some(d)) => if 1 <= m && m <= 12 && 1 <= d && d <= 31 {
            proof {
                lemma_year_span(y as int, m as int, d as int);
            }
            Some(days_from_civil(y, m as u32, d as u32))
        } else {
            None
        },
        _ => None,
    }
}

fn read_minutes(b: &[char]) -> (r: Option<i64>)
    ensures
        match r {
            Some(n) => minutes_in(b@) == Some(n as int) && 0 <= n <= 1439,
            None => minutes_in(b@) is None,
        },
        r is Some ==> b@.len() >= 16,
{
    if b.len() < 16 || (b[10] != 'T' && b[10] != 't' && b[10] != ' ') || b[13] != ':' {
        return None;
    }
    match (digits(b, 11, 13), digits(b, 14, 16)) {
        (Some(h), Some(m)) => if h > 23 || m > 59 {
            None
        } else {
            Some(h * 60 + m)
        },
        _ => None,
    }
}

fn read_seconds(b: &[char]) -> (r: Option<(i64, Option<Num>, usize)>)
    requires
        b@.len() >= 16,
    ensures
        match r {
            Some((secs, part, next)) => seconds_in(b@) == Some((secs as int, part, next as int))
                && 0 <= secs <= 60 && next <= b@.len(),
            None => seconds_in(b@) is None,
        },
{
    if b.len() <= 16 || b[16] != ':' {
        return Some((0, None, 16));
    }
    match digits(b, 17, 19) {
        None => None,
        Some(n) => {
            let secs: i64 = if n > 60 {
                60
            } else {
                n
            };
            if b.len() > 19 && b[19] == '.' {
                let j: usize = skip_digits(b, 20);
                if j == 20 {
                    return None;
                }
                let mut part: Vec<char> = Vec::new();
                part.push('0');
                part.push('.');
                crate::decimal::push_part(&mut part, b, 20, j);
                assert(part@ =~= seq!['0', '.'] + b@.subrange(20, j as int));
                match read_number(&part) {
                    Some(x) => Some((secs, Some(x), j)),
                    None => None,
                }
            } else {
                Some((secs, None, 19))
            }
        },
    }
}

fn apply_zone(b: &[char], i: usize, t: Num) -> (r: Option<Num>)
    requires
        i <= b@.len(),
    ensures
        r == zoned(b@, i as int, t),
{
    if i >= b.len() {
        return Some(t);
    }
    if b[i] == 'Z' || b[i] == 'z' {
        return if i + 1 == b.len() {
            Some(t)
        } else {
            None
        };
    }
    if b[i] == '+' || b[i] == '-' {
        let zone = crate::text::chars_between(b, i, b.len());
        return match parse_offset(&zone) {
            Some(n) => Some(t.minus(Num::from_i64(n as i64 * 60))),
            None => None,
        };
    }
    None
}

/// Reads an RFC 3339 timestamp as epoch seconds: `2026-07-27T09:14:15Z`, the
/// same with a fraction, with an offset, with a space in place of the `T`, or
/// without a zone, which is UTC; or a bare date.
pub fn parse_rfc3339(s: &str) -> (r: Option<Num>)
    ensures
        r == rfc3339_in(s@),
{
    let b = trim_chars(&chars_of(s));
    match read_day(&b) {
        None => None,
        Some(day) => {
            if b.len() == 10 {
                return Some(Num::from_i64(day * 86400));
            }
            match read_minutes(&b) {
                None => None,
                Some(minutes) => match read_seconds(&b) {
                    None => None,
                    Some((secs, part, next)) => {
                        let t = Num::from_i64(day * 86400 + minutes * 60 + secs);
                        let t = match part {
                            Some(x) => t.plus(x),
                            None => t,
                        };
                        apply_zone(&b, next, t)
                    },
                },
            }
        },
    }
}

/// A number in at least `width` digits, a minus sign counting as one of them.
pub open spec fn padded(n: int, width: int) -> Seq<char> {
    if n < 0 {
        let d = nat_text((-n) as nat);
        seq!['-'] + zeros(width - 1 - d.len()) + d
    } else {
        let d = nat_text(n as nat);
        zeros(width - d.len()) + d
    }
}

fn push_padded(out: &mut Vec<char>, n: i64, width: u32)
    requires
        width <= 100,
    ensures
        final(out)@ == old(out)@ + padded(n as int, width as int),
{
    let mut d: Vec<char> = Vec::new();
    let mut room: u32 = width;
    if n < 0 {
        push_nat(&mut d, (-(n as i128)) as u64);
        out.push('-');
        if room > 0 {
            room -= 1;
        }
        assert(d@ =~= nat_text((-n) as nat));
    } else {
        push_nat(&mut d, n as u64);
        assert(d@ =~= nat_text(n as nat));
    }
    let ghost before = out@;
    let mut i: u32 = 0;
    while i < room && ((room - i) as usize) > d.len()
        invariant
            i <= room <= 100,
            out@ =~= before + zeros(i as int),
            i == 0 || i + d@.len() <= room,
        decreases room - i,
    {
        out.push('0');
        i += 1;
    }
    assert(d@.len() > 0);
    crate::decimal::push_part(out, &d, 0, d.len());
    assert(d@.subrange(0, d@.len() as int) =~= d@);
    assert(out@ =~= old(out)@ + padded(n as int, width as int));
}

/// The zone of a timestamp: `Z`, or the offset in hours and minutes.
pub open spec fn zone_text(offset: int) -> Seq<char> {
    if offset == 0 {
        seq!['Z']
    } else if offset < 0 {
        seq!['-'] + padded((-offset) / 60, 2) + seq![':'] + padded((-offset) % 60, 2)
    } else {
        seq!['+'] + padded(offset / 60, 2) + seq![':'] + padded(offset % 60, 2)
    }
}

/// A day as its date.
pub open spec fn date_text(day: int) -> Seq<char> {
    let (y, m, d) = date_of(day);
    padded(y, 4) + seq!['-'] + padded(m, 2) + seq!['-'] + padded(d, 2)
}

/// A second of a day as the time of day.
pub open spec fn clock_text(second: int) -> Seq<char> {
    padded(second / 3600, 2) + seq![':'] + padded((second % 3600) / 60, 2) + seq![':'] + padded(
        second % 60,
        2,
    )
}

/// A second of the epoch as date and time of day.
pub open spec fn moment_text(total: int) -> Seq<char> {
    date_text(total / 86400) + seq!['T'] + clock_text(total % 86400)
}

/// Epoch seconds as an RFC 3339 timestamp at a fixed offset, with milliseconds
/// where they are not zero.
pub open spec fn epoch_text(secs: Num, offset: int) -> Seq<char> {
    if !secs.finite() {
        Seq::empty()
    } else {
        let shifted = sum(secs, whole_int(offset * 60));
        let low = floor_of(shifted);
        let ms = clamped(round_of(product(difference(shifted, low), whole_int(1000))));
        let total = clamped(low) + (if ms >= 1000 {
            1int
        } else {
            0int
        });
        let left = if ms >= 1000 {
            ms - 1000
        } else {
            ms
        };
        moment_text(total) + (if left != 0 {
            seq!['.'] + padded(left, 3)
        } else {
            Seq::empty()
        }) + zone_text(offset)
    }
}

fn push_zone(out: &mut Vec<char>, offset: i32)
    ensures
        final(out)@ == old(out)@ + zone_text(offset as int),
{
    if offset == 0 {
        out.push('Z');
    } else {
        let size: i64 = if offset < 0 {
            -(offset as i64)
        } else {
            offset as i64
        };
        out.push(if offset < 0 { '-' } else { '+' });
        push_padded(out, size / 60, 2);
        out.push(':');
        push_padded(out, size % 60, 2);
    }
    assert(out@ =~= old(out)@ + zone_text(offset as int));
}

fn push_date(out: &mut Vec<char>, day: i64)
    requires
        day <= i64::MAX - 719_468,
    ensures
        final(out)@ == old(out)@ + date_text(day as int),
{
    let (y, m, d) = civil_from_days(day);
    push_padded(out, y, 4);
    out.push('-');
    push_padded(out, m as i64, 2);
    out.push('-');
    push_padded(out, d as i64, 2);
    assert(out@ =~= old(out)@ + date_text(day as int));
}

fn push_clock(out: &mut Vec<char>, second: i64)
    requires
        0 <= second < 86400,
    ensures
        final(out)@ == old(out)@ + clock_text(second as int),
{
    push_padded(out, second / 3600, 2);
    out.push(':');
    push_padded(out, (second % 3600) / 60, 2);
    out.push(':');
    push_padded(out, second % 60, 2);
    assert(out@ =~= old(out)@ + clock_text(second as int));
}

fn push_moment(out: &mut Vec<char>, total: i128)
    requires
        -0x8000_0000_0000_0000 <= total <= 0x8000_0000_0000_0000,
    ensures
        final(out)@ == old(out)@ + moment_text(total as int),
{
    let day: i128 = if total >= 0 {
        total / 86400
    } else {
        -((86399 - total) / 86400)
    };
    assert(day == total as int / 86400);
    let second: i128 = total - day * 86400;
    assert(second == total as int % 86400);
    push_date(out, day as i64);
    out.push('T');
    push_clock(out, second as i64);
    assert(out@ =~= old(out)@ + moment_text(total as int));
}

/// Renders epoch seconds as an RFC 3339 timestamp at a fixed offset.
pub fn format_epoch(secs: Num, offset_minutes: i32) -> (r: String)
    ensures
        r@ == epoch_text(secs, offset_minutes as int),
{
    if !secs.is_finite() {
        let r = String::new();
        assert(r@ =~= Seq::<char>::empty());
        return r;
    }
    let shifted = secs.plus(Num::from_i64(offset_minutes as i64 * 60));
    let low = shifted.floor();
    let ms: i64 = shifted.minus(low).times(Num::from_u64(1000)).round().to_i64();
    let total: i128 = low.to_i64() as i128 + (if ms >= 1000 {
        1
    } else {
        0
    });
    let left: i64 = if ms >= 1000 {
        ms - 1000
    } else {
        ms
    };
    let mut out: Vec<char> = Vec::new();
    push_moment(&mut out, total);
    if left != 0 {
        out.push('.');
        push_padded(&mut out, left, 3);
    }
    push_zone(&mut out, offset_minutes);
    assert(out@ =~= epoch_text(secs, offset_minutes as int));
    string_of(&out)
}

/// A reading of the system clock.
#[verifier::external_type_specification]
#[verifier::external_body]
pub struct ExSystemTime(std::time::SystemTime);

/// `SystemTime::now` reads the system clock. Nothing is said of what it shows.
pub assume_specification[ std::time::SystemTime::now ]() -> (r: std::time::SystemTime)
;

/// What `SystemTime::duration_since` gives of a reading and the start of 1970.
pub uninterp spec fn since_1970(reading: std::time::SystemTime) -> Option<std::time::Duration>;

/// `SystemTime::duration_since` the start of 1970, which is an error, here
/// `None`, where the reading stands before that. The result has a name and rests
/// on the reading alone; how long it is, is left unsaid.
#[verifier::external_body]
fn since_epoch(reading: std::time::SystemTime) -> (r: Option<std::time::Duration>)
    ensures
        r == since_1970(reading),
{
    reading.duration_since(std::time::UNIX_EPOCH).ok()
}

/// What `Duration::as_secs` gives of a duration.
pub uninterp spec fn whole_seconds(d: std::time::Duration) -> u64;

/// `Duration::as_secs`: the whole seconds of a duration, which have a name. How
/// many they are is left unsaid.
pub assume_specification[ std::time::Duration::as_secs ](d: &std::time::Duration) -> (r: u64)
    ensures
        r == whole_seconds(*d),
;

/// What `Duration::subsec_nanos` gives of a duration.
pub uninterp spec fn nanoseconds(d: std::time::Duration) -> u32;

/// `Duration::subsec_nanos`: the nanoseconds beyond the whole seconds, which have
/// a name and are always less than a second.
pub assume_specification[ std::time::Duration::subsec_nanos ](d: &std::time::Duration) -> (r: u32)
    ensures
        r == nanoseconds(*d),
        r < 1_000_000_000,
;

/// The epoch seconds of a reading of the clock; a clock before 1970 is at 0.
pub open spec fn epoch_of_reading(reading: Option<(u64, u32)>) -> Num {
    match reading {
        Some((secs, nanos)) => sum(
            whole_int(secs as int),
            ratio(whole_int(nanos as int), whole_int(1_000_000_000)),
        ),
        None => whole_int(0),
    }
}

/// The epoch seconds of a reading of the clock.
pub fn epoch_from_reading(reading: Option<(u64, u32)>) -> (r: Num)
    ensures
        r == epoch_of_reading(reading),
{
    match reading {
        Some((secs, nanos)) => {
            proof {
                lemma_whole_exact(false, 1_000_000_000);
            }
            Num::from_u64(secs).plus(
                Num::from_u64(nanos as u64).over(Num::from_u64(1_000_000_000)),
            )
        },
        None => Num::from_u64(0),
    }
}

/// A reading of the clock as the time since the start of 1970, in seconds and
/// nanoseconds; there is none before that.
pub open spec fn time_read(reading: std::time::SystemTime) -> Option<(u64, u32)> {
    match since_1970(reading) {
        Some(d) => Some((whole_seconds(d), nanoseconds(d))),
        None => None,
    }
}

/// Seconds since the epoch, now: what the clock shows, as a number.
pub fn now_epoch() -> (r: Num)
    ensures
        exists|reading: std::time::SystemTime|
            r == epoch_of_reading(#[trigger] time_read(reading)) && (time_read(reading) matches Some(
                (_, nanos),
            ) ==> nanos < 1_000_000_000),
{
    let reading = std::time::SystemTime::now();
    let shown = match since_epoch(reading) {
        Some(d) => {
            let secs: u64 = d.as_secs();
            let nanos: u32 = d.subsec_nanos();
            Some((secs, nanos))
        },
        None => None,
    };
    assert(shown == time_read(reading));
    epoch_from_reading(shown)
}

proof fn lemma_padded(n: int, width: int)
    requires
        0 <= n,
        width == 2 && n < 100 || width == 4 && n < 10000,
    ensures
        padded(n, width).len() == width,
        forall|i: int| 0 <= i < width ==> digit(#[trigger] padded(n, width)[i]),
        digits_value(padded(n, width)) == n,
{
    reveal_with_fuel(crate::decimal::pow10, 5);
    crate::decimal::lemma_nat_text_len(n as nat, width as nat);
    crate::decimal::lemma_nat_text_reads(n as nat);
    let d = nat_text(n as nat);
    crate::decimal::lemma_leading_zeros(width - d.len(), d);
}

/// Digits that stand somewhere in a text read as the number they write.
proof fn lemma_digits_read(b: Seq<char>, from: int, p: Seq<char>)
    requires
        0 <= from,
        from + p.len() <= b.len(),
        p.len() > 0,
        b.subrange(from, from + p.len()) == p,
        forall|i: int| 0 <= i < p.len() ==> digit(#[trigger] p[i]),
    ensures
        digits_at(b, from, from + p.len()) == Some(digits_value(p) as int),
{
    assert forall|i: int| from <= i < from + p.len() implies digit(b[i]) by {
        assert(b.subrange(from, from + p.len())[i - from] == b[i]);
        assert(digit(p[i - from]));
    }
}

/// Where the parts of a timestamp stand.
proof fn lemma_layout(
    y: Seq<char>,
    m: Seq<char>,
    d: Seq<char>,
    h: Seq<char>,
    i: Seq<char>,
    s: Seq<char>,
    z: Seq<char>,
) -> (b: Seq<char>)
    requires
        y.len() == 4,
        m.len() == 2,
        d.len() == 2,
        h.len() == 2,
        i.len() == 2,
        s.len() == 2,
        z.len() > 0,
    ensures
        b == (y + seq!['-'] + m + seq!['-'] + d) + seq!['T'] + (h + seq![':'] + i + seq![':'] + s)
            + z,
        b.len() == 19 + z.len(),
        b.subrange(0, 4) == y,
        b.subrange(5, 7) == m,
        b.subrange(8, 10) == d,
        b.subrange(11, 13) == h,
        b.subrange(14, 16) == i,
        b.subrange(17, 19) == s,
        b.subrange(19, b.len() as int) == z,
        b[0] == y[0],
        b[4] == '-',
        b[7] == '-',
        b[10] == 'T',
        b[13] == ':',
        b[16] == ':',
        b[19] == z[0],
        b.last() == z.last(),
{
    let b = (y + seq!['-'] + m + seq!['-'] + d) + seq!['T'] + (h + seq![':'] + i + seq![':'] + s)
        + z;
    assert(b.subrange(0, 4) =~= y);
    assert(b.subrange(5, 7) =~= m);
    assert(b.subrange(8, 10) =~= d);
    assert(b.subrange(11, 13) =~= h);
    assert(b.subrange(14, 16) =~= i);
    assert(b.subrange(17, 19) =~= s);
    assert(b.subrange(19, b.len() as int) =~= z);
    b
}

/// A zone, written out, reads as the offset it is of.
proof fn lemma_zone_reads(offset: int)
    requires
        -1440 < offset < 1440,
    ensures
        zone_text(offset).len() > 0,
        zone_text(offset)[0] == (if offset == 0 {
            'Z'
        } else if offset < 0 {
            '-'
        } else {
            '+'
        }),
        offset == 0 ==> zone_text(offset).len() == 1,
        offset != 0 ==> offset_in(zone_text(offset)) == Some(offset),
        !space(zone_text(offset).last()),
{
    if offset != 0 {
        let size = if offset < 0 {
            -offset
        } else {
            offset
        };
        let hh = padded(size / 60, 2);
        let mm = padded(size % 60, 2);
        let z = zone_text(offset);
        lemma_padded(size / 60, 2);
        lemma_padded(size % 60, 2);
        assert(z.subrange(1, 3) =~= hh);
        assert(z.subrange(4, 6) =~= mm);
        lemma_digits_read(z, 1, hh);
        lemma_digits_read(z, 4, mm);
        assert(digit(mm[1]));
        assert(z.last() == mm[1]);
    }
}

/// A timestamp of given parts reads as the second they name, shifted by the zone.
proof fn lemma_parts_read(
    b: Seq<char>,
    y: int,
    m: int,
    d: int,
    h: int,
    mi: int,
    s: int,
    offset: int,
)
    requires
        b.len() > 19,
        digits_at(b, 0, 4) == Some(y),
        digits_at(b, 5, 7) == Some(m),
        digits_at(b, 8, 10) == Some(d),
        digits_at(b, 11, 13) == Some(h),
        digits_at(b, 14, 16) == Some(mi),
        digits_at(b, 17, 19) == Some(s),
        b[4] == '-',
        b[7] == '-',
        b[10] == 'T',
        b[13] == ':',
        b[16] == ':',
        b.subrange(19, b.len() as int) == zone_text(offset),
        digit(b[0]),
        -1440 < offset < 1440,
        1 <= m <= 12,
        1 <= d <= 31,
        0 <= h <= 23,
        0 <= mi <= 59,
        0 <= s <= 59,
    ensures
        ({
            let t = whole_int(day_number(y, m, d) * 86400 + (h * 60 + mi) * 60 + s);
            rfc3339_in(b) == Some(
                if offset == 0 {
                    t
                } else {
                    difference(t, whole_int(offset * 60))
                },
            )
        }),
{
    let z = zone_text(offset);
    lemma_zone_reads(offset);
    assert(b[19] == z[0]);
    assert(b[b.len() - 1] == z.last());
    lemma_trimmed_as_is(b);
    assert(day_in(b) == Some(day_number(y, m, d)));
    assert(minutes_in(b) == Some(h * 60 + mi));
    assert(seconds_in(b) == Some((s, None::<Num>, 19int)));
}

/// A date, a time of day and a zone, written out, read as the second they name.
proof fn lemma_clock_reads(y: int, m: int, d: int, h: int, mi: int, s: int, offset: int)
    requires
        0 <= y <= 9999,
        1 <= m <= 12,
        1 <= d <= 31,
        0 <= h <= 23,
        0 <= mi <= 59,
        0 <= s <= 59,
        -1440 < offset < 1440,
    ensures
        ({
            let t = whole_int(day_number(y, m, d) * 86400 + (h * 60 + mi) * 60 + s);
            rfc3339_in(
                (padded(y, 4) + seq!['-'] + padded(m, 2) + seq!['-'] + padded(d, 2)) + seq!['T'] + (
                padded(h, 2) + seq![':'] + padded(mi, 2) + seq![':'] + padded(s, 2)) + zone_text(
                    offset,
                ),
            ) == Some(
                if offset == 0 {
                    t
                } else {
                    difference(t, whole_int(offset * 60))
                },
            )
        }),
{
    lemma_padded(y, 4);
    lemma_padded(m, 2);
    lemma_padded(d, 2);
    lemma_padded(h, 2);
    lemma_padded(mi, 2);
    lemma_padded(s, 2);
    lemma_zone_reads(offset);
    let b = lemma_layout(
        padded(y, 4),
        padded(m, 2),
        padded(d, 2),
        padded(h, 2),
        padded(mi, 2),
        padded(s, 2),
        zone_text(offset),
    );
    lemma_digits_read(b, 0, padded(y, 4));
    lemma_digits_read(b, 5, padded(m, 2));
    lemma_digits_read(b, 8, padded(d, 2));
    lemma_digits_read(b, 11, padded(h, 2));
    lemma_digits_read(b, 14, padded(mi, 2));
    lemma_digits_read(b, 17, padded(s, 2));
    assert(digit(padded(y, 4)[0]));
    lemma_parts_read(b, y, m, d, h, mi, s, offset);
}

/// A day that four digits write the year of.
proof fn lemma_day_in_range(day: int)
    requires
        day_number(0, 1, 1) <= day <= day_number(9999, 12, 31),
    ensures
        is_date_of(date_of(day), day),
        0 <= date_of(day).0 <= 9999,
{
    let (y, m, d) = date_of(day);
    lemma_date_exists(day);
    assert(is_date_of((y, m, d), day));
    if y < 0 {
        lemma_year_grows(y, 0);
    }
    if y > 9999 {
        lemma_year_grows(9999, y);
    }
}

/// A second of the epoch by its day, hour, minute and second.
proof fn lemma_clock_parts(n: int)
    ensures
        ({
            let second = n % 86400;
            &&& 0 <= second / 3600 <= 23
            &&& 0 <= (second % 3600) / 60 <= 59
            &&& 0 <= second % 60 <= 59
            &&& (n / 86400) * 86400 + ((second / 3600) * 60 + (second % 3600) / 60) * 60 + second
                % 60 == n
        }),
{
    let second = n % 86400;
    let m = second % 3600;
    vstd::arithmetic::div_mod::lemma_fundamental_div_mod(n, 86400);
    vstd::arithmetic::div_mod::lemma_fundamental_div_mod(second, 3600);
    vstd::arithmetic::div_mod::lemma_fundamental_div_mod(m, 60);
    lemma_divides(second, 60, (second / 3600) * 60 + m / 60, m % 60);
}

/// A moment as text reads back as the second it is of, shifted by its zone.
proof fn lemma_moment_reads(n: int, offset: int)
    requires
        day_number(0, 1, 1) <= n / 86400 <= day_number(9999, 12, 31),
        -1440 < offset < 1440,
    ensures
        rfc3339_in(moment_text(n) + zone_text(offset)) == Some(
            if offset == 0 {
                whole_int(n)
            } else {
                difference(whole_int(n), whole_int(offset * 60))
            },
        ),
{
    let day = n / 86400;
    let second = n % 86400;
    let (y, m, d) = date_of(day);
    lemma_day_in_range(day);
    let h = second / 3600;
    let mi = (second % 3600) / 60;
    let s = second % 60;
    lemma_clock_parts(n);
    lemma_clock_reads(y, m, d, h, mi, s, offset);
}

/// Every day has a date.
pub proof fn lemma_date_exists(z: int)
    ensures
        exists|t: (int, int, int)| is_date_of(t, z),
{
    let z0 = z + 719_468;
    let era = z0 / 146_097;
    let doe = z0 % 146_097;
    vstd::arithmetic::div_mod::lemma_fundamental_div_mod(z0, 146_097);
    let (yoe, doy) = lemma_year_of_era(doe);
    let mp = lemma_month_of_year(doy);
    let t = date_from_parts(era, yoe, doy, mp);
    lemma_date_from_parts(z, era, yoe, doy, mp);
    assert(is_date_of(t, z));
}

/// The date and time of a whole second at an offset are those of the second
/// shifted by the offset.
pub proof fn law_offset_shifts_the_clock(n: int, offset: int)
    requires
        -1_000_000_000_000 <= n <= 1_000_000_000_000,
        -1440 < offset < 1440,
    ensures
        epoch_text(whole_int(n), offset) == moment_text(n + offset * 60) + zone_text(offset),
{
    let t = n + offset * 60;
    crate::num::lemma_whole_parts(n);
    crate::num::lemma_whole_parts(t);
    crate::num::lemma_whole_parts(1000);
    crate::num::lemma_sum_exact(n, offset * 60);
    let x = whole_int(t);
    crate::num::lemma_no_difference(x);
    crate::num::lemma_zero_product(false, whole_int(1000));
    assert(epoch_text(whole_int(n), offset) =~= moment_text(t) + zone_text(offset));
}

/// A timestamp names the same moment whatever zone it is rendered in: a whole
/// second reads back as itself, for the years that four digits write.
#[verifier::rlimit(30)]
pub proof fn law_whole_seconds_round_trip(n: int, offset: int)
    requires
        day_number(0, 1, 1) <= (n + offset * 60) / 86400 <= day_number(9999, 12, 31),
        -1440 < offset < 1440,
    ensures
        rfc3339_in(epoch_text(whole_int(n), offset)) == Some(whole_int(n)),
{
    assert(day_number(0, 1, 1) > -1_000_000 && day_number(9999, 12, 31) < 10_000_000);
    law_offset_shifts_the_clock(n, offset);
    lemma_moment_reads(n + offset * 60, offset);
    crate::num::lemma_difference_exact(n + offset * 60, offset * 60);
}

} // verus!
