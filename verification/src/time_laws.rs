//! What holds of dates, times of day and zones: what their figures write is what they
//! name.

use crate::condition_laws::lemma_tight;
use crate::decimal::{digit_char, digits_end, digits_value, nat_text, number_in, scaled, zeros};
use crate::num::{
    clamped, difference, floor_of, lemma_nearest_scales, lemma_negated, lemma_sum_exact,
    lemma_whole_exact, lemma_whole_parts, nearest, one, product, ratio, round_of, sum, whole_int,
    HIDDEN, Num,
};
use crate::number_laws::{law_rounding_keeps_to_the_whole_numbers_around, law_what_fits_is_exact};
use crate::text::{digit, lower_text, space, trimmed};
use crate::timeutil::{
    clock_text, date_of, date_text, day_in, day_number, digits_at, epoch_of_reading, epoch_text,
    is_date_of, lemma_date_exists, local_offset, minutes_in, moment_text, offset_in, padded,
    rfc3339_in, seconds_in, tz_in, valid_date, zone_text, zoned,
};
use crate::token_laws::{all_digits, law_a_number_is_what_its_digits_write};
use vstd::arithmetic::power2::{lemma2_to64, lemma_pow2_adds, lemma_pow2_pos, pow2};
use vstd::prelude::*;

verus! {

/// The months have their days, February one more in the years that four divides, other
/// than the hundreds that four hundred does not divide.
pub proof fn law_months_have_their_days(y: int, m: int, d: int)
    ensures
        ({
            let short = m == 4 || m == 6 || m == 9 || m == 11;
            let long = y % 400 == 0 || (y % 4 == 0 && y % 100 != 0);
            let last: int = if m == 2 {
                if long {
                    29
                } else {
                    28
                }
            } else if short {
                30
            } else {
                31
            };
            valid_date(y, m, d) <==> 1 <= m <= 12 && 1 <= d <= last
        }),
{
    if y % 400 == 0 {
        assert(y % 4 == 0);
    }
}

/// Every day has a date, and the date of a day names that day.
pub proof fn law_every_day_has_a_date(z: int)
    ensures
        is_date_of(date_of(z), z),
{
    lemma_date_exists(z);
}

/// The figure for a number below ten.
pub open spec fn figure(n: int) -> char {
    if n == 0 {
        '0'
    } else if n == 1 {
        '1'
    } else if n == 2 {
        '2'
    } else if n == 3 {
        '3'
    } else if n == 4 {
        '4'
    } else if n == 5 {
        '5'
    } else if n == 6 {
        '6'
    } else if n == 7 {
        '7'
    } else if n == 8 {
        '8'
    } else {
        '9'
    }
}

/// A number below a hundred in two figures.
pub open spec fn figures(n: int) -> Seq<char> {
    seq![figure(n / 10), figure(n % 10)]
}

/// A date as `YYYY-MM-DD`.
pub open spec fn date_figures(y: int, m: int, d: int) -> Seq<char> {
    figures(y / 100) + figures(y % 100) + seq!['-'] + figures(m) + seq!['-'] + figures(d)
}

proof fn lemma_figures(b: Seq<char>, i: int, n: int)
    requires
        0 <= i,
        i + 2 <= b.len(),
        0 <= n <= 99,
        b[i] == figure(n / 10),
        b[i + 1] == figure(n % 10),
    ensures
        digits_at(b, i, i + 2) == Some(n),
        digit(b[i]) && digit(b[i + 1]),
{
    let s = b.subrange(i, i + 2);
    assert(s.len() == 2 && s[0] == b[i] && s[1] == b[i + 1]);
    let t = s.drop_last();
    assert(t.len() == 1 && t[0] == s[0]);
    assert(t.drop_last().len() == 0);
    assert(digits_value(t.drop_last()) == 0);
    assert(digits_value(t) == n / 10);
    assert(digits_value(s) == n);
}

proof fn lemma_four_figures(b: Seq<char>, n: int)
    requires
        4 <= b.len(),
        0 <= n <= 9999,
        b[0] == figure(n / 100 / 10),
        b[1] == figure(n / 100 % 10),
        b[2] == figure(n % 100 / 10),
        b[3] == figure(n % 100 % 10),
    ensures
        digits_at(b, 0, 4) == Some(n),
{
    lemma_figures(b, 0, n / 100);
    lemma_figures(b, 2, n % 100);
    let s = b.subrange(0, 4);
    let t = s.drop_last();
    assert(t.drop_last() =~= b.subrange(0, 2));
    assert(t.last() == b[2] && s.last() == b[3]);
    assert(digits_value(b.subrange(0, 2)) == n / 100);
    assert(digits_value(t) == 10 * (n / 100) + n % 100 / 10);
    assert(digits_value(s) == n);
}

proof fn lemma_day(b: Seq<char>, y: int, m: int, d: int, rest: Seq<char>)
    requires
        0 <= y <= 9999,
        0 <= m <= 99,
        0 <= d <= 99,
        b == date_figures(y, m, d) + rest,
    ensures
        day_in(b) == (if 1 <= m <= 12 && 1 <= d <= 31 {
            Some(day_number(y, m, d))
        } else {
            None
        }),
        b.len() == 10 + rest.len(),
        digit(b[0]) && digit(b[9]),
{
    let (p, q, r, s) = (figures(y / 100), figures(y % 100), figures(m), figures(d));
    assert(p.len() == 2 && q.len() == 2 && r.len() == 2 && s.len() == 2);
    assert(b.len() == 10 + rest.len());
    assert(b[0] == p[0] && b[1] == p[1] && b[2] == q[0] && b[3] == q[1]);
    assert(b[4] == '-' && b[7] == '-');
    assert(b[5] == r[0] && b[6] == r[1] && b[8] == s[0] && b[9] == s[1]);
    lemma_four_figures(b, y);
    lemma_figures(b, 0, y / 100);
    lemma_figures(b, 5, m);
    lemma_figures(b, 8, d);
}

/// A date on its own names the first second of its day in UTC. One whose month is none
/// or whose day is beyond 31 names nothing.
pub proof fn law_dates_name_their_days(y: int, m: int, d: int)
    requires
        0 <= y <= 9999,
        0 <= m <= 99,
        0 <= d <= 99,
    ensures
        rfc3339_in(date_figures(y, m, d)) == (if 1 <= m <= 12 && 1 <= d <= 31 {
            Some(whole_int(day_number(y, m, d) * 86400))
        } else {
            None
        }),
{
    let b = date_figures(y, m, d);
    assert(b + Seq::<char>::empty() =~= b);
    lemma_day(b, y, m, d, Seq::empty());
    lemma_tight(b);
}

/// Hours and minutes east of UTC, or west, are written with a colon, without one, or
/// without the minutes.
pub proof fn law_offsets_are_hours_and_minutes(east: bool, h: int, m: int)
    requires
        0 <= h <= 99,
        0 <= m <= 99,
    ensures
        ({
            let sign: Seq<char> = seq![if east { '+' } else { '-' }];
            let minutes = h * 60 + m;
            let known = if h <= 23 && m <= 59 {
                Some(if east { minutes } else { -minutes })
            } else {
                None
            };
            &&& offset_in(sign + figures(h) + seq![':'] + figures(m)) == known
            &&& offset_in(sign + figures(h) + figures(m)) == known
            &&& m == 0 ==> offset_in(sign + figures(h)) == known
        }),
{
    let sign: Seq<char> = seq![if east { '+' } else { '-' }];
    let (p, q) = (figures(h), figures(m));
    assert(p.len() == 2 && q.len() == 2 && sign.len() == 1);
    let a = sign + p + seq![':'] + q;
    assert(a.len() == 6 && a[0] == sign[0] && a[1] == p[0] && a[2] == p[1] && a[3] == ':' && a[4]
        == q[0] && a[5] == q[1]);
    lemma_figures(a, 1, h);
    lemma_figures(a, 4, m);
    let b = sign + p + q;
    assert(b.len() == 5 && b[0] == sign[0] && b[1] == p[0] && b[2] == p[1] && b[3] == q[0] && b[4]
        == q[1]);
    lemma_figures(b, 1, h);
    lemma_figures(b, 3, m);
    let c = sign + p;
    assert(c.len() == 3 && c[0] == sign[0] && c[1] == p[0] && c[2] == p[1]);
    lemma_figures(c, 1, h);
}

/// A zone is UTC by the names of that, the local one by its own, and otherwise an
/// offset; capitals and white space around are left aside. The local zone is the
/// offset that the environment writes, and UTC where it writes none.
pub proof fn law_zones_are_named_or_offsets(s: Seq<char>, local: int)
    ensures
        ({
            let name = lower_text(trimmed(s));
            let utc = name == "utc"@ || name == "z"@ || name == "gmt"@;
            &&& utc ==> tz_in(s, local) == Some(0int)
            &&& name == "local"@ ==> tz_in(s, local) == Some(local)
            &&& !utc && name != "local"@ ==> tz_in(s, local) == offset_in(name)
            &&& local_offset(None) == 0
            &&& (offset_in(trimmed(s)) matches Some(n) ==> local_offset(Some(s)) == n)
            &&& offset_in(trimmed(s)) is None ==> local_offset(Some(s)) == 0
        }),
{
    reveal_strlit("utc");
    reveal_strlit("z");
    reveal_strlit("gmt");
    reveal_strlit("local");
    assert("local"@.len() == 5 && "utc"@.len() == 3 && "z"@.len() == 1 && "gmt"@.len() == 3);
}

/// The time of day in hours and minutes behind a date.
pub open spec fn clock_figures(sep: char, h: int, m: int) -> Seq<char> {
    seq![sep] + figures(h) + seq![':'] + figures(m)
}

/// The seconds behind the minutes, in two figures and those of a part of a second
/// where there are any.
pub open spec fn second_figures(s: int, part: Seq<char>) -> Seq<char> {
    if part.len() == 0 {
        seq![':'] + figures(s)
    } else {
        seq![':'] + figures(s) + seq!['.'] + part
    }
}

/// The time that a zone makes of a time of day: what is east of UTC was earlier there.
pub open spec fn shifted(t: Num, zone: Seq<char>) -> Option<Num> {
    if zone.len() == 0 || zone == seq!['Z'] || zone == seq!['z'] {
        Some(t)
    } else {
        match offset_in(zone) {
            Some(n) => Some(difference(t, whole_int(n * 60))),
            None => None,
        }
    }
}

proof fn lemma_minutes(
    b: Seq<char>,
    date: Seq<char>,
    sep: char,
    h: int,
    m: int,
    rest: Seq<char>,
)
    requires
        date.len() == 10,
        0 <= h <= 23,
        0 <= m <= 59,
        sep == 'T' || sep == 't' || sep == ' ',
        b == date + (clock_figures(sep, h, m) + rest),
    ensures
        minutes_in(b) == Some(h * 60 + m),
        b.len() == 16 + rest.len(),
        digit(b[15]),
        forall|i: int| 16 <= i < b.len() ==> #[trigger] b[i] == rest[i - 16],
{
    let (p, q) = (figures(h), figures(m));
    assert(p.len() == 2 && q.len() == 2);
    let c = clock_figures(sep, h, m);
    assert(c.len() == 6 && c[0] == sep && c[1] == p[0] && c[2] == p[1] && c[3] == ':' && c[4]
        == q[0] && c[5] == q[1]);
    assert(b[10] == c[0] && b[11] == c[1] && b[12] == c[2] && b[13] == c[3] && b[14] == c[4]
        && b[15] == c[5]);
    lemma_figures(b, 11, h);
    lemma_figures(b, 14, m);
}

proof fn lemma_zoned(b: Seq<char>, i: int, t: Num, zone: Seq<char>)
    requires
        0 <= i,
        b.len() == i + zone.len(),
        forall|k: int| i <= k < b.len() ==> #[trigger] b[k] == zone[k - i],
    ensures
        zoned(b, i, t) == shifted(t, zone),
{
    assert(b.subrange(i, b.len() as int) =~= zone);
    if zone.len() > 0 {
        assert(b[i] == zone[0]);
        if zone.len() == 1 {
            assert(zone == seq!['Z'] <==> zone[0] == 'Z') by {
                if zone[0] == 'Z' {
                    assert(zone =~= seq!['Z']);
                }
            }
            assert(zone == seq!['z'] <==> zone[0] == 'z') by {
                if zone[0] == 'z' {
                    assert(zone =~= seq!['z']);
                }
            }
        }
    }
}

proof fn lemma_digit_run(s: Seq<char>, i: int, e: int)
    requires
        0 <= i <= e <= s.len(),
        forall|j: int| i <= j < e ==> digit(#[trigger] s[j]),
        e >= s.len() || !digit(s[e]),
    ensures
        digits_end(s, i) == e,
    decreases e - i,
{
    if i < e {
        lemma_digit_run(s, i + 1, e);
    }
}

/// A part of a second is what its digits write behind the point.
pub proof fn law_parts_of_a_second_are_decimal(part: Seq<char>)
    requires
        part.len() > 0,
        all_digits(part),
    ensures
        number_in(seq!['0', '.'] + part) == Some(scaled(false, digits_value(part), -part.len())),
{
    let none = Seq::<char>::empty();
    let zero = seq!['0'];
    assert(none + (zero + ((seq!['.'] + part) + none)) =~= seq!['0', '.'] + part);
    assert(digit(zero[0]));
    law_a_number_is_what_its_digits_write(none, zero, part, none, none);
    lemma_leading_zero(part);
    assert(seq!['-'].len() == 1);
}

proof fn lemma_leading_zero(part: Seq<char>)
    ensures
        digits_value(seq!['0'] + part) == digits_value(part),
    decreases part.len(),
{
    let whole = seq!['0'] + part;
    if part.len() == 0 {
        assert(whole.drop_last() =~= Seq::<char>::empty());
        assert(whole.last() == '0');
        assert(digits_value(whole.drop_last()) == 0);
    } else {
        assert(whole.drop_last() =~= seq!['0'] + part.drop_last());
        assert(whole.last() == part.last());
        lemma_leading_zero(part.drop_last());
    }
}

proof fn lemma_seconds(b: Seq<char>, s: int, part: Seq<char>, zone: Seq<char>)
    requires
        0 <= s <= 99,
        all_digits(part),
        zone.len() > 0 ==> zone[0] != '.' && !digit(zone[0]) && !space(zone.last()),
        b.len() == 16 + (second_figures(s, part) + zone).len(),
        forall|i: int|
            16 <= i < b.len() ==> #[trigger] b[i] == (second_figures(s, part) + zone)[i - 16],
    ensures
        ({
            let e = 16 + second_figures(s, part).len();
            let n: int = if s > 60 {
                60
            } else {
                s
            };
            let parts = if part.len() == 0 {
                None
            } else {
                Some(scaled(false, digits_value(part), -part.len()))
            };
            &&& seconds_in(b) == Some((n, parts, e as int))
            &&& b.len() == e + zone.len()
            &&& forall|k: int| e <= k < b.len() ==> #[trigger] b[k] == zone[k - e]
            &&& !space(b.last())
        }),
{
    let secs = second_figures(s, part);
    let rest = secs + zone;
    let p = figures(s);
    assert(p.len() == 2);
    assert(secs[0] == ':' && secs[1] == p[0] && secs[2] == p[1]);
    assert(b[16] == rest[0] && b[17] == rest[1] && b[18] == rest[2]);
    assert(rest[0] == secs[0] && rest[1] == secs[1] && rest[2] == secs[2]);
    lemma_figures(b, 17, s);
    let n = secs.len() as int;
    let e = 16 + n;
    assert forall|k: int| e <= k < b.len() implies #[trigger] b[k] == zone[k - e] by {
        assert(b[k] == rest[k - 16]);
        assert(rest[k - 16] == zone[k - 16 - n]);
    }
    if zone.len() > 0 {
        assert(b[e] == zone[0]);
        assert(b[b.len() - 1] == zone[zone.len() - 1]);
    }
    if part.len() > 0 {
        assert(secs[3] == '.');
        assert(b[19] == rest[3]);
        assert forall|k: int| 20 <= k < e implies b[k] == part[k - 20] && digit(#[trigger] b[k]) by {
            assert(b[k] == rest[k - 16]);
            assert(rest[k - 16] == secs[k - 16]);
            assert(secs[k - 16] == part[k - 20]);
        }
        lemma_digit_run(b, 20, e);
        assert(b.subrange(20, e) =~= part);
        law_parts_of_a_second_are_decimal(part);
        assert(digit(b[e - 1]));
    }
}

proof fn lemma_composed(
    b: Seq<char>,
    day: int,
    minutes: int,
    n: int,
    part: Option<Num>,
    e: int,
    zone: Seq<char>,
)
    requires
        trimmed(b) == b,
        day_in(b) == Some(day),
        b.len() >= 16,
        minutes_in(b) == Some(minutes),
        seconds_in(b) == Some((n, part, e)),
        0 <= e,
        b.len() == e + zone.len(),
        forall|k: int| e <= k < b.len() ==> #[trigger] b[k] == zone[k - e],
    ensures
        rfc3339_in(b) == shifted(
            match part {
                Some(x) => sum(whole_int(day * 86400 + minutes * 60 + n), x),
                None => whole_int(day * 86400 + minutes * 60 + n),
            },
            zone,
        ),
{
    let second = whole_int(day * 86400 + minutes * 60 + n);
    let t = match part {
        Some(x) => sum(second, x),
        None => second,
    };
    lemma_zoned(b, e, t, zone);
}

/// A date and a time of day name the second that lies so many hours, minutes and
/// seconds behind the start of the day, with the part of a second that is written
/// added, and shifted by the zone. A second beyond 60 counts as 60.
pub proof fn law_timestamps_name_their_seconds(
    y: int,
    mo: int,
    d: int,
    sep: char,
    h: int,
    mi: int,
    s: int,
    part: Seq<char>,
    zone: Seq<char>,
)
    requires
        0 <= y <= 9999,
        1 <= mo <= 12,
        1 <= d <= 31,
        0 <= h <= 23,
        0 <= mi <= 59,
        0 <= s <= 99,
        all_digits(part),
        sep == 'T' || sep == 't' || sep == ' ',
        zone.len() > 0 ==> zone[0] != '.' && !digit(zone[0]) && !space(zone.last()),
    ensures
        ({
            let second = day_number(y, mo, d) * 86400 + h * 3600 + mi * 60 + if s > 60 {
                60
            } else {
                s
            };
            let t = if part.len() == 0 {
                whole_int(second)
            } else {
                sum(whole_int(second), scaled(false, digits_value(part), -part.len()))
            };
            rfc3339_in(
                date_figures(y, mo, d) + (clock_figures(sep, h, mi) + (second_figures(s, part)
                    + zone)),
            ) == shifted(t, zone)
        }),
{
    let date = date_figures(y, mo, d);
    let rest = second_figures(s, part) + zone;
    let clock = clock_figures(sep, h, mi) + rest;
    let b = date + clock;
    lemma_day(b, y, mo, d, clock);
    assert(date.len() == 10);
    lemma_minutes(b, date, sep, h, mi, rest);
    lemma_seconds(b, s, part, zone);
    lemma_tight(b);
    let n: int = if s > 60 {
        60
    } else {
        s
    };
    let parts = if part.len() == 0 {
        None
    } else {
        Some(scaled(false, digits_value(part), -part.len()))
    };
    let e = 16 + second_figures(s, part).len() as int;
    lemma_composed(b, day_number(y, mo, d), h * 60 + mi, n, parts, e, zone);
}

/// Without seconds a timestamp names the start of its minute.
pub proof fn law_timestamps_can_leave_the_seconds_out(
    y: int,
    mo: int,
    d: int,
    sep: char,
    h: int,
    mi: int,
    zone: Seq<char>,
)
    requires
        0 <= y <= 9999,
        1 <= mo <= 12,
        1 <= d <= 31,
        0 <= h <= 23,
        0 <= mi <= 59,
        sep == 'T' || sep == 't' || sep == ' ',
        zone.len() > 0 ==> zone[0] != ':' && !space(zone.last()),
    ensures
        rfc3339_in(date_figures(y, mo, d) + (clock_figures(sep, h, mi) + zone)) == shifted(
            whole_int(day_number(y, mo, d) * 86400 + h * 3600 + mi * 60),
            zone,
        ),
{
    let date = date_figures(y, mo, d);
    let b = date + (clock_figures(sep, h, mi) + zone);
    lemma_day(b, y, mo, d, clock_figures(sep, h, mi) + zone);
    assert(date.len() == 10);
    lemma_minutes(b, date, sep, h, mi, zone);
    if zone.len() > 0 {
        assert(b[16] == zone[0]);
        assert(b[b.len() - 1] == zone[zone.len() - 1]);
    }
    lemma_tight(b);
    lemma_zoned(b, 16, whole_int(day_number(y, mo, d) * 86400 + h * 3600 + mi * 60), zone);
}

/// A number of eighths of a second.
pub open spec fn eighths(x: Num, n: int) -> bool {
    x.finite() && x.neg() == (n < 0) && x.amount() == n * pow2(1071)
}

proof fn lemma_eighth()
    ensures
        one() == 8 * pow2(1071),
        pow2(1071) > 0,
{
    lemma_pow2_adds(3, 1071);
    lemma2_to64();
    lemma_pow2_pos(1071);
}

/// The nearest number to a number of eighths is that.
proof fn lemma_eighths_exact(n: int)
    requires
        -(2 * HIDDEN) < n < 2 * HIDDEN,
    ensures
        ({
            let size: nat = if n < 0 {
                (-n) as nat
            } else {
                n as nat
            };
            eighths(nearest(n < 0, size * pow2(1071), 1), n)
        }),
{
    let size: nat = if n < 0 {
        (-n) as nat
    } else {
        n as nat
    };
    law_what_fits_is_exact(n < 0, size, 1071);
    let p = pow2(1071) as int;
    assert((-n) * p == -(n * p)) by (nonlinear_arith);
}

proof fn lemma_eighths_added(x: Num, n: int, s: int)
    requires
        eighths(x, n),
        -0x1_0000_0000_0000 < n < 0x1_0000_0000_0000,
        -0x1_0000_0000_0000 < s < 0x1_0000_0000_0000,
        n + 8 * s != 0,
    ensures
        eighths(sum(x, whole_int(s)), n + 8 * s),
{
    lemma_eighth();
    lemma_whole_parts(s);
    let p = pow2(1071) as int;
    let t = n + 8 * s;
    assert(n * p + s * (8 * p) == t * p) by (nonlinear_arith)
        requires
            t == n + 8 * s,
    ;
    lemma_eighths_exact(t);
    if t < 0 {
        assert(t * p < 0) by (nonlinear_arith)
            requires
                t < 0,
                p > 0,
        ;
        assert(((-t) as nat) * pow2(1071) == -(t * p)) by (nonlinear_arith)
            requires
                t < 0,
                p == pow2(1071),
        ;
    } else {
        assert(t * p > 0) by (nonlinear_arith)
            requires
                t > 0,
                p > 0,
        ;
    }
}

proof fn lemma_eighths_floor(x: Num, n: int, k: int)
    requires
        eighths(x, 8 * n + k),
        0 < k < 8,
        -0x1_0000_0000_0000 < n < 0x1_0000_0000_0000,
    ensures
        floor_of(x) == whole_int(n),
{
    lemma_eighth();
    let p = pow2(1071) as int;
    let u = one() as int;
    if n >= 0 {
        assert((8 * n + k) * p == n * u + k * p) by (nonlinear_arith)
            requires
                u == 8 * p,
        ;
        assert(0 < k * p < u) by (nonlinear_arith)
            requires
                0 < k < 8,
                p > 0,
                u == 8 * p,
        ;
        vstd::arithmetic::div_mod::lemma_fundamental_div_mod_converse(
            x.magnitude() as int,
            u,
            n,
            k * p,
        );
    } else {
        let w = -n - 1;
        assert(-((8 * n + k) * p) == w * u + (8 - k) * p) by (nonlinear_arith)
            requires
                u == 8 * p,
                w == -n - 1,
        ;
        assert(0 < (8 - k) * p < u) by (nonlinear_arith)
            requires
                0 < k < 8,
                p > 0,
                u == 8 * p,
        ;
        vstd::arithmetic::div_mod::lemma_fundamental_div_mod_converse(
            x.magnitude() as int,
            u,
            w,
            (8 - k) * p,
        );
    }
}

proof fn lemma_eighths_in_thousandths(x: Num, k: int)
    requires
        eighths(x, k),
        0 < k < 8,
    ensures
        clamped(round_of(product(x, whole_int(1000)))) == 125 * k,
{
    lemma_eighth();
    let p = pow2(1071);
    let u = one();
    let c = k as nat;
    lemma_whole_parts(1000);
    lemma_whole_exact(false, 1000);
    lemma_whole_parts(125 * k);
    assert((c * p) * (1000 * u) == ((125 * c) * u) * u) by (nonlinear_arith)
        requires
            u == 8 * p,
    ;
    lemma_nearest_scales(false, (125 * c) * u, 1, u);
    assert(product(x, whole_int(1000)) == whole_int(125 * k));
    law_rounding_keeps_to_the_whole_numbers_around(whole_int(125 * k));
}

/// A time with a part of a second is shown with milliseconds: so many eighths of a
/// second as there are, a hundred and twenty-five for each.
pub proof fn law_parts_of_a_second_are_shown_in_milliseconds(
    x: Num,
    n: int,
    k: int,
    offset: int,
)
    requires
        -1_000_000_000_000 <= n <= 1_000_000_000_000,
        0 < k < 8,
        -1440 < offset < 1440,
        eighths(x, 8 * n + k),
    ensures
        epoch_text(x, offset) == moment_text(n + offset * 60) + seq!['.'] + padded(125 * k, 3)
            + zone_text(offset),
{
    let s = n + offset * 60;
    lemma_eighths_added(x, 8 * n + k, offset * 60);
    let y = sum(x, whole_int(offset * 60));
    lemma_eighths_floor(y, s, k);
    let low = whole_int(s);
    lemma_whole_parts(s);
    lemma_negated(low);
    let z = difference(y, low);
    assert(eighths(z, k)) by {
        lemma_eighth();
        let p = pow2(1071) as int;
        assert((8 * s + k) * p - s * (8 * p) == k * p) by (nonlinear_arith);
        assert(k * p > 0) by (nonlinear_arith)
            requires
                k > 0,
                p > 0,
        ;
        lemma_eighths_exact(k);
    }
    lemma_eighths_in_thousandths(z, k);
    assert(epoch_text(x, offset) =~= moment_text(s) + seq!['.'] + padded(125 * k, 3) + zone_text(
        offset,
    ));
}

proof fn lemma_digit_char(n: int)
    requires
        0 <= n <= 9,
    ensures
        digit_char(n as nat) == figure(n),
        nat_text(n as nat) == seq![figure(n)],
{
}

proof fn lemma_nat_figures(n: int)
    requires
        10 <= n <= 99,
    ensures
        nat_text(n as nat) == figures(n),
{
    lemma_digit_char(n / 10);
    lemma_digit_char(n % 10);
    assert(nat_text(n as nat) =~= figures(n));
}

proof fn lemma_two_figures(n: int)
    requires
        0 <= n <= 99,
    ensures
        padded(n, 2) == figures(n),
{
    if n < 10 {
        lemma_digit_char(n);
        assert(zeros(1) =~= seq!['0']);
        assert(padded(n, 2) =~= figures(n));
    } else {
        lemma_nat_figures(n);
        assert(zeros(0) =~= Seq::<char>::empty());
        assert(padded(n, 2) =~= figures(n));
    }
}

proof fn lemma_year_figures(n: int)
    requires
        0 <= n <= 9999,
    ensures
        padded(n, 4) == figures(n / 100) + figures(n % 100),
{
    let f = figures(n / 100) + figures(n % 100);
    lemma_digit_char(n % 10);
    let tens = n / 10;
    let hundreds = n / 100;
    assert(tens / 10 == hundreds);
    if n < 10 {
        lemma_digit_char(n);
        assert(zeros(3) =~= seq!['0', '0', '0']);
        assert(padded(n, 4) =~= f);
    } else if n < 100 {
        lemma_nat_figures(n);
        assert(zeros(2) =~= seq!['0', '0']);
        assert(padded(n, 4) =~= f);
    } else if n < 1000 {
        lemma_nat_figures(tens);
        assert(nat_text(n as nat) =~= figures(tens).push(figure(n % 10)));
        assert(zeros(1) =~= seq!['0']);
        assert(padded(n, 4) =~= f);
    } else {
        lemma_nat_figures(hundreds);
        lemma_digit_char(tens % 10);
        assert(nat_text(tens as nat) =~= figures(hundreds).push(figure(tens % 10)));
        assert(nat_text(n as nat) =~= figures(hundreds).push(figure(tens % 10)).push(
            figure(n % 10),
        ));
        assert(zeros(0) =~= Seq::<char>::empty());
        assert(padded(n, 4) =~= f);
    }
}

/// A second of the epoch is written as its date, the letter `T`, and the hours, minutes
/// and seconds behind the start of the day, each in its figures.
pub proof fn law_moments_are_written_in_figures(n: int)
    requires
        0 <= date_of(n / 86400).0 <= 9999,
    ensures
        ({
            let (y, m, d) = date_of(n / 86400);
            let second = n % 86400;
            let (h, mi, s) = (second / 3600, second / 60 % 60, second % 60);
            moment_text(n) == date_figures(y, m, d) + seq!['T'] + (figures(h) + seq![':'] + figures(mi)
                + seq![':'] + figures(s))
        }),
{
    let (y, m, d) = date_of(n / 86400);
    let second = n % 86400;
    law_every_day_has_a_date(n / 86400);
    law_months_have_their_days(y, m, d);
    lemma_year_figures(y);
    lemma_two_figures(m);
    lemma_two_figures(d);
    assert(date_text(n / 86400) == date_figures(y, m, d));
    lemma_clock_figures(second);
}

proof fn lemma_clock_figures(second: int)
    requires
        0 <= second < 86400,
    ensures
        clock_text(second) == figures(second / 3600) + seq![':'] + figures(second / 60 % 60) + seq![
            ':',
        ] + figures(second % 60),
{
    assert((second % 3600) / 60 == second / 60 % 60);
    lemma_two_figures(second / 3600);
    lemma_two_figures(second / 60 % 60);
    lemma_two_figures(second % 60);
}

/// The zone is written as `Z` for UTC, and otherwise as its sign, hours and minutes.
pub proof fn law_zones_are_written_in_figures(h: int, m: int)
    requires
        0 <= h <= 23,
        0 <= m <= 59,
        h + m > 0,
    ensures
        zone_text(0) == seq!['Z'],
        zone_text(h * 60 + m) == seq!['+'] + figures(h) + seq![':'] + figures(m),
        zone_text(-(h * 60 + m)) == seq!['-'] + figures(h) + seq![':'] + figures(m),
{
    lemma_two_figures(h);
    lemma_two_figures(m);
    let n = h * 60 + m;
    assert(n / 60 == h && n % 60 == m);
}

/// A reading of the clock is its seconds and the part of a second that its nanoseconds
/// are: none where there are none, and so many eighths. A clock before the start of 1970
/// is at its start.
pub proof fn law_the_clock_counts_seconds_from_1970(secs: u64, k: int)
    requires
        0 <= k < 8,
        secs < 0x1000_0000_0000,
    ensures
        epoch_of_reading(None) == whole_int(0),
        epoch_of_reading(Some((secs, 0u32))) == whole_int(secs as int),
        k > 0 ==> eighths(
            epoch_of_reading(Some((secs, (125_000_000 * k) as u32))),
            8 * secs + k,
        ),
{
    lemma_eighth();
    let p = pow2(1071);
    let u = one();
    lemma_whole_parts(secs as int);
    lemma_whole_parts(0);
    lemma_whole_exact(false, 1_000_000_000);
    lemma_pow2_pos(1074);
    if k > 0 {
        let c = k as nat;
        let n = 125_000_000 * c;
        lemma_whole_exact(false, n);
        let big = 1_000_000_000 * u;
        assert((n * u) * u == (c * p) * big) by (nonlinear_arith)
            requires
                n == 125_000_000 * c,
                u == 8 * p,
                big == 1_000_000_000 * u,
        ;
        assert(big > 0) by (nonlinear_arith)
            requires
                big == 1_000_000_000 * u,
                u > 0,
        ;
        lemma_nearest_scales(false, c * p, 1, big);
        lemma_eighths_exact(k);
        let x = ratio(whole_int(n as int), whole_int(1_000_000_000));
        assert(eighths(x, k));
        lemma_eighths_added(x, k, secs as int);
        assert(sum(whole_int(secs as int), x) == sum(x, whole_int(secs as int)));
    }
    assert(epoch_of_reading(Some((secs, 0u32))) == whole_int(secs as int)) by {
        lemma_whole_exact(false, 0);
        let big = 1_000_000_000 * u;
        assert((0 * u) * u == 0 * big) by (nonlinear_arith);
        assert(big > 0) by (nonlinear_arith)
            requires
                big == 1_000_000_000 * u,
                u > 0,
        ;
        lemma_nearest_scales(false, 0, 1, big);
        assert(0 * u == 0) by (nonlinear_arith);
        assert(ratio(whole_int(0), whole_int(1_000_000_000)) == whole_int(0));
        lemma_sum_exact(secs as int, 0);
    }
}

} // verus!
