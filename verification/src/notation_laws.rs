//! What holds of numbers as text: where an exponent is written and where none is.

use crate::decimal::{
    json_number_text, lemma_nat_text_len, lemma_nat_text_reads, lemma_pow10_adds, lemma_pow10_bound,
    nat_text, part_bottom, part_top, places_from, plain_text, pointed, pow10, scaled, shortest,
    shortest_from, sign_text, stripped,
};
use crate::decimal_laws::{lemma_not_tiny, lemma_places_least, lemma_shortest_reads, lemma_tenfold};
use crate::num::{
    lemma_exact, lemma_nearest_scales, lemma_nearest_zero, lemma_pack, lemma_unpack, nearest, one,
    pack, HIDDEN, Num,
};
use crate::number_laws::law_no_number_is_nearer;
use crate::text::digit;
use vstd::arithmetic::power2::{
    lemma2_to64, lemma_pow2_adds, lemma_pow2_pos, lemma_pow2_strictly_increases, pow2,
};
use vstd::prelude::*;

verus! {

/// Whether an exponent is written in a text.
pub open spec fn has_exponent(s: Seq<char>) -> bool {
    exists|i: int| 0 <= i < s.len() && #[trigger] s[i] == 'e'
}

/// Of two ratios the greater one rounds to no smaller number.
proof fn lemma_monotone(neg: bool, a: nat, b: nat, d: nat)
    requires
        d > 0,
        a <= b,
        nearest(neg, a, d).finite(),
        nearest(neg, b, d).finite(),
    ensures
        nearest(neg, a, d).magnitude() <= nearest(neg, b, d).magnitude(),
{
    let x = nearest(neg, a, d);
    let y = nearest(neg, b, d);
    law_no_number_is_nearer(neg, a, d, y);
    law_no_number_is_nearer(neg, b, d, x);
    let (m, n) = (x.magnitude(), y.magnitude());
    if m > n {
        assert(m * d > n * d) by (nonlinear_arith)
            requires
                m > n,
                d > 0,
        ;
        assert(a == b);
    }
}

/// Digits and a power of ten as a ratio over another power of ten.
proof fn lemma_scaled_over(neg: bool, c: nat, p: int, m: nat)
    requires
        p + m >= 0,
    ensures
        scaled(neg, c, p) == nearest(neg, c * pow10((p + m) as nat) * one(), pow10(m)),
{
    reveal(scaled);
    let u = one();
    let t = pow10((p + m) as nat);
    lemma_pow10_bound(m);
    lemma_pow10_bound((p + m) as nat);
    if p >= 0 {
        let q = pow10(p as nat);
        let s = pow10(m);
        lemma_pow10_adds(p as nat, m);
        lemma_nearest_scales(neg, c * q * u, 1, s);
        assert((c * q * u) * s == c * (q * s) * u) by (nonlinear_arith);
    } else {
        let q = pow10((-p) as nat);
        lemma_pow10_bound((-p) as nat);
        lemma_pow10_adds((-p) as nat, (p + m) as nat);
        lemma_nearest_scales(neg, c * u, q, t);
        assert((c * u) * t == c * t * u) by (nonlinear_arith);
    }
}

/// How many digits a number has.
proof fn lemma_digit_count(n: nat)
    requires
        n > 0,
    ensures
        nat_text(n).len() > 0,
        pow10((nat_text(n).len() - 1) as nat) <= n < pow10(nat_text(n).len()),
    decreases n,
{
    if n < 10 {
        assert(pow10(0) == 1);
        assert(pow10(1) == 10 * pow10(0));
    } else {
        lemma_digit_count(n / 10);
        let k = nat_text(n / 10).len();
        assert(nat_text(n).len() == k + 1);
        assert(pow10(k + 1) == 10 * pow10(k));
        assert(pow10(k) == 10 * pow10((k - 1) as nat));
    }
}

proof fn lemma_pow10_grows(a: nat, b: nat)
    requires
        a <= b,
    ensures
        pow10(a) <= pow10(b),
{
    lemma_pow10_adds(a, (b - a) as nat);
    lemma_pow10_bound((b - a) as nat);
    lemma_pow10_bound(a);
    let (x, y) = (pow10(a), pow10((b - a) as nat));
    assert(x <= x * y) by (nonlinear_arith)
        requires
            y >= 1,
            x >= 0,
    ;
}

/// A power of ten of this size is a number of the format.
proof fn lemma_power_finite(neg: bool, j: int)
    requires
        -20 <= j <= 16,
    ensures
        scaled(neg, 1, j).finite(),
{
    let m: nat = 20;
    lemma_scaled_over(neg, 1, j, m);
    let u = one();
    let t = pow10((j + m) as nat);
    let d = pow10(m);
    let n = 1 * t * u;
    lemma_pow10_bound(m);
    lemma_pow10_grows((j + m) as nat, 36);
    lemma_pow10_adds(20, 16);
    reveal_with_fuel(pow10, 17);
    assert(pow10(16) == 10_000_000_000_000_000);
    lemma_pow2_adds(1074, 971);
    lemma_pow2_adds(1, 970);
    lemma_pow2_pos(970);
    lemma_pow2_pos(1074);
    lemma2_to64();
    let w = pow2(971);
    let top = d * pow2(2045);
    assert(n <= (d * 10_000_000_000_000_000) * u) by (nonlinear_arith)
        requires
            n == 1 * t * u,
            t <= d * 10_000_000_000_000_000,
    ;
    assert(top >= 2 * (d * u)) by (nonlinear_arith)
        requires
            top == d * (u * w),
            w >= 2,
    ;
    assert((d * 10_000_000_000_000_000) * u == 10_000_000_000_000_000 * (d * u)) by (nonlinear_arith);
    assert(d * u > 0) by (nonlinear_arith)
        requires
            d > 0,
            u > 0,
    ;
    assert((4 * HIDDEN - 1) * top == 0x3f_ffff_ffff_ffff * top) by (nonlinear_arith);
    lemma_pack(false, 0, 0);
    law_no_number_is_nearer(neg, n, d, pack(false, 0, 0));
}

/// Digits below a power of ten read as no more than that power, and digits from it on as
/// no less.
proof fn lemma_against_power(x: Num, c: nat, p: int, j: int)
    requires
        x.finite(),
        c > 0,
        scaled(x.neg(), c, p) == x,
        -20 <= j <= 16,
    ensures
        nat_text(c).len() + p <= j ==> x.magnitude() <= scaled(x.neg(), 1, j).magnitude(),
        nat_text(c).len() + p > j ==> x.magnitude() >= scaled(x.neg(), 1, j).magnitude(),
{
    let neg = x.neg();
    let len = nat_text(c).len();
    let m: nat = if p < -20 {
        (-p) as nat
    } else {
        20
    };
    let u = one();
    let (s, t) = (pow10((p + m) as nat), pow10((j + m) as nat));
    lemma_digit_count(c);
    lemma_power_finite(neg, j);
    lemma_scaled_over(neg, c, p, m);
    lemma_scaled_over(neg, 1, j, m);
    lemma_pow10_bound(m);
    lemma_pow10_bound((p + m) as nat);
    let a = c * s * u;
    let b = 1 * t * u;
    if len + p <= j {
        lemma_pow10_adds(len, (p + m) as nat);
        lemma_pow10_grows((len + p + m) as nat, (j + m) as nat);
        let h = pow10(len);
        assert(a <= b) by (nonlinear_arith)
            requires
                a == c * s * u,
                b == 1 * t * u,
                c <= h,
                h * s <= t,
        ;
        lemma_monotone(neg, a, b, pow10(m));
    } else {
        lemma_pow10_adds((len - 1) as nat, (p + m) as nat);
        lemma_pow10_grows((j + m) as nat, (len - 1 + p + m) as nat);
        let h = pow10((len - 1) as nat);
        assert(b <= a) by (nonlinear_arith)
            requires
                a == c * s * u,
                b == 1 * t * u,
                c >= h,
                h * s >= t,
        ;
        lemma_monotone(neg, b, a, pow10(m));
    }
}

proof fn lemma_plain(d: Seq<char>, k: int)
    requires
        forall|i: int| 0 <= i < d.len() ==> digit(#[trigger] d[i]),
    ensures
        !has_exponent(pointed(d, k)),
{
    let s = pointed(d, k);
    assert forall|i: int| 0 <= i < s.len() implies #[trigger] s[i] != 'e' by {
        if k <= 0 {
            if i >= 2 - k {
                assert(s[i] == d[i - 2 + k]);
            }
        } else if k >= d.len() {
            if i < d.len() {
                assert(s[i] == d[i]);
            }
        } else if i < k {
            assert(s[i] == d[i]);
        } else if i > k {
            assert(s[i] == d[i - 1]);
        }
    }
}

proof fn lemma_parts_plain(a: Seq<char>, b: Seq<char>)
    ensures
        has_exponent(a + b) == (has_exponent(a) || has_exponent(b)),
{
    let s = a + b;
    if has_exponent(a) {
        let i = choose|i: int| 0 <= i < a.len() && #[trigger] a[i] == 'e';
        assert(s[i] == 'e');
    }
    if has_exponent(b) {
        let i = choose|i: int| 0 <= i < b.len() && #[trigger] b[i] == 'e';
        assert(s[a.len() + i] == 'e');
    }
    if has_exponent(s) {
        let i = choose|i: int| 0 <= i < s.len() && #[trigger] s[i] == 'e';
        if i < a.len() {
            assert(a[i] == 'e');
        } else {
            assert(b[i - a.len()] == 'e');
        }
    }
}

/// Digits that read as more than nothing are more than zero.
proof fn lemma_some_digits(x: Num, c: nat, p: int)
    requires
        x.magnitude() > 0,
        scaled(x.neg(), c, p) == x,
    ensures
        c > 0,
{
    if c == 0 {
        let m: nat = if p < 0 {
            (-p) as nat
        } else {
            0
        };
        let t = pow10((p + m) as nat);
        lemma_scaled_over(x.neg(), c, p, m);
        lemma_pow10_bound(m);
        assert(0 * t * one() == 0) by (nonlinear_arith);
        lemma_nearest_zero(x.neg(), pow10(m));
        lemma_pack(x.neg(), 0, 0);
        assert(0 * pow2(0) == 0);
    }
}

/// In JSON a number far from one is written with an exponent, from beyond the sixteenth
/// power of ten on and below the fifth of a tenth, and one between without.
pub proof fn law_far_numbers_have_an_exponent(x: Num)
    requires
        x.finite(),
        x.magnitude() > 0,
    ensures
        ({
            let large = scaled(x.neg(), 1, 16).magnitude();
            let small = scaled(x.neg(), 1, -5).magnitude();
            let text = json_number_text(x);
            &&& x.magnitude() > large ==> has_exponent(text)
            &&& small < x.magnitude() < large ==> !has_exponent(text)
            &&& x.magnitude() < small ==> has_exponent(text)
        }),
{
    let (c, p) = shortest(x);
    lemma_shortest_reads(x);
    lemma_some_digits(x, c, p);
    let d = nat_text(c);
    let k = d.len() + p;
    lemma_nat_text_reads(c);
    lemma_against_power(x, c, p, 16);
    lemma_against_power(x, c, p, -5);
    let sign = sign_text(x.neg());
    if k < -4 || k > 16 {
        let head = if d.len() == 1 {
            d
        } else {
            d.subrange(0, 1) + seq!['.'] + d.subrange(1, d.len() as int)
        };
        let exponent = if k >= 1 {
            seq!['e', '+'] + nat_text((k - 1) as nat)
        } else {
            seq!['e', '-'] + nat_text((1 - k) as nat)
        };
        assert(exponent[0] == 'e');
        assert(has_exponent(exponent));
        lemma_parts_plain(head, exponent);
        lemma_parts_plain(sign, head + exponent);
    } else {
        lemma_plain(d, k);
        lemma_parts_plain(pointed(d, k), seq!['.', '0']);
        let rest = if k >= d.len() {
            pointed(d, k) + seq!['.', '0']
        } else {
            pointed(d, k)
        };
        lemma_parts_plain(sign, rest);
    }
}

/// A number in full never has an exponent.
pub proof fn law_numbers_in_full_have_no_exponent(x: Num)
    requires
        x.finite(),
    ensures
        !has_exponent(plain_text(x)),
{
    let sign = sign_text(x.neg());
    if x.magnitude() == 0 {
        lemma_parts_plain(sign, seq!['0']);
    } else {
        let (c, p) = shortest(x);
        let d = nat_text(c);
        lemma_nat_text_reads(c);
        lemma_plain(d, d.len() + p);
        lemma_parts_plain(sign, pointed(d, d.len() + p));
    }
}

/// Numbers of one sign and one size are one number.
proof fn lemma_one_number(x: Num, y: Num)
    requires
        x.finite(),
        y.finite(),
        x.neg() == y.neg(),
        x.magnitude() == y.magnitude(),
    ensures
        x == y,
{
    lemma_unpack(x);
    lemma_unpack(y);
    lemma_exact(x.neg(), x.mant(), x.shift());
    lemma_exact(y.neg(), y.mant(), y.shift());
}

/// What lies between a ratio that rounds to a number and the number rounds to it too.
proof fn lemma_between(x: Num, a: nat, b: nat, d: nat)
    requires
        x.finite(),
        d > 0,
        nearest(x.neg(), a, d) == x,
        a <= b <= x.magnitude() * d || x.magnitude() * d <= b <= a,
    ensures
        nearest(x.neg(), b, d) == x,
{
    let neg = x.neg();
    let n = x.magnitude() * d;
    lemma_unpack(x);
    lemma_exact(neg, x.mant(), x.shift());
    lemma_nearest_scales(neg, x.magnitude(), 1, d);
    assert(nearest(neg, n, d) == x);
    law_no_number_is_nearer(neg, a, d, x);
    law_no_number_is_nearer(neg, b, d, x);
    law_no_number_is_nearer(neg, n, d, x);
    if a <= b {
        lemma_monotone(neg, a, b, d);
    } else {
        lemma_monotone(neg, b, a, d);
    }
    if b <= n {
        lemma_monotone(neg, b, n, d);
    } else {
        lemma_monotone(neg, n, b, d);
    }
    lemma_one_number(x, nearest(neg, b, d));
}

/// Where a number stands between the digits around it.
proof fn lemma_low(n: nat, p: int, m: nat)
    requires
        p + m >= 0,
    ensures
        ({
            let low = part_top(n, p) / part_bottom(p);
            let t = pow10((p + m) as nat);
            low * t * one() <= n * pow10(m) < (low + 1) * t * one()
        }),
{
    let (a, b) = (part_top(n, p), part_bottom(p));
    let u = one();
    lemma_pow2_pos(1074);
    lemma_pow10_bound(m);
    lemma_pow10_bound((p + m) as nat);
    let t = pow10((p + m) as nat);
    let s = pow10(m);
    let low = a / b;
    if p < 0 {
        let h = pow10((-p) as nat);
        lemma_pow10_adds((-p) as nat, (p + m) as nat);
        vstd::arithmetic::div_mod::lemma_fundamental_div_mod(a as int, b as int);
        vstd::arithmetic::div_mod::lemma_mod_bound(a as int, b as int);
        assert(low * t * u <= n * s < (low + 1) * t * u) by (nonlinear_arith)
            requires
                n * h == u * low + (n * h) % u,
                0 <= (n * h) % u < u,
                s == h * t,
                t > 0,
        ;
    } else {
        let h = pow10(p as nat);
        lemma_pow10_bound(p as nat);
        lemma_pow10_adds(p as nat, m);
        assert(b > 0) by (nonlinear_arith)
            requires
                b == u * h,
                u > 0,
                h > 0,
        ;
        vstd::arithmetic::div_mod::lemma_fundamental_div_mod(a as int, b as int);
        vstd::arithmetic::div_mod::lemma_mod_bound(a as int, b as int);
        let r = n % b;
        assert(low * t * u <= n * s < (low + 1) * t * u) by (nonlinear_arith)
            requires
                n == (u * h) * low + r,
                0 <= r < u * h,
                t == h * s,
                s > 0,
        ;
    }
}

/// Quotients of sizes are none below zero.
proof fn lemma_quotient(n: nat, p: int)
    ensures
        part_top(n, p) / part_bottom(p) >= 0,
{
    lemma_bottom_positive(p);
    vstd::arithmetic::div_mod::lemma_div_pos_is_pos(part_top(n, p) as int, part_bottom(p) as int);
}

/// Whether digits before or behind a number, of some number of places, read as it.
spec fn read_at(x: Num, p: int) -> bool {
    let low = part_top(x.magnitude(), p) / part_bottom(p);
    scaled(x.neg(), low, p) == x || scaled(x.neg(), low + 1, p) == x
}

/// Where some digits read as a number, so do those next to it.
proof fn lemma_next_digits(x: Num, c: nat, p: int)
    requires
        x.finite(),
        scaled(x.neg(), c, p) == x,
    ensures
        read_at(x, p),
{
    let m: nat = if p < 0 {
        (-p) as nat
    } else {
        0
    };
    let low = part_top(x.magnitude(), p) / part_bottom(p);
    let (t, u) = (pow10((p + m) as nat), one());
    lemma_quotient(x.magnitude(), p);
    lemma_low(x.magnitude(), p, m);
    lemma_pow10_bound(m);
    lemma_scaled_over(x.neg(), c, p, m);
    lemma_scaled_over(x.neg(), low, p, m);
    lemma_scaled_over(x.neg(), low + 1, p, m);
    if c <= low {
        assert(c * t * u <= low * t * u) by (nonlinear_arith)
            requires
                c <= low,
        ;
        lemma_between(x, c * t * u, low * t * u, pow10(m));
    } else {
        assert((low + 1) * t * u <= c * t * u) by (nonlinear_arith)
            requires
                low + 1 <= c,
        ;
        lemma_between(x, c * t * u, (low + 1) * t * u, pow10(m));
    }
}

/// Where digits before a power of ten read as a number at or behind it, or the other way
/// round, so does the power.
proof fn lemma_power_reads(x: Num, c: nat, p: int, j: int, m: nat)
    requires
        x.finite(),
        c > 0,
        scaled(x.neg(), c, p) == x,
        p + m >= 0,
        j + m >= 0,
        (nat_text(c).len() + p <= j && pow10((j + m) as nat) * one() <= x.magnitude() * pow10(m)) || (
        nat_text(c).len() + p > j && pow10((j + m) as nat) * one() >= x.magnitude() * pow10(m)),
    ensures
        scaled(x.neg(), 1, j) == x,
{
    let len = nat_text(c).len();
    let u = one();
    let (s, t) = (pow10((p + m) as nat), pow10((j + m) as nat));
    lemma_digit_count(c);
    lemma_scaled_over(x.neg(), c, p, m);
    lemma_scaled_over(x.neg(), 1, j, m);
    lemma_pow10_bound(m);
    let a = c * s * u;
    let b = 1 * t * u;
    if len + p <= j {
        lemma_pow10_adds(len, (p + m) as nat);
        lemma_pow10_grows((len + p + m) as nat, (j + m) as nat);
        let h = pow10(len);
        assert(a <= b) by (nonlinear_arith)
            requires
                a == c * s * u,
                b == 1 * t * u,
                c <= h,
                h * s <= t,
        ;
    } else {
        lemma_pow10_adds((len - 1) as nat, (p + m) as nat);
        lemma_pow10_grows((j + m) as nat, (len - 1 + p + m) as nat);
        let h = pow10((len - 1) as nat);
        assert(b <= a) by (nonlinear_arith)
            requires
                a == c * s * u,
                b == 1 * t * u,
                c >= h,
                h * s >= t,
        ;
    }
    lemma_between(x, a, b, pow10(m));
}

/// The search ends with no more than `j` digits where that many read as the number.
proof fn lemma_search_ends(x: Num, e: int, k: nat, j: nat)
    requires
        1 <= k <= j <= 17,
        j == 17 || read_at(x, e - j),
        e >= -330,
        x.magnitude() * pow10(400) < pow10((e + 400) as nat) * one(),
    ensures
        shortest_from(x, e, k).0 <= pow10(j),
    decreases j - k,
{
    let p = e - k;
    let low = part_top(x.magnitude(), p) / part_bottom(p);
    let (t, u) = (pow10((p + 400) as nat), one());
    lemma_quotient(x.magnitude(), p);
    lemma_low(x.magnitude(), p, 400);
    lemma_pow10_adds(k, (p + 400) as nat);
    lemma_pow10_bound((p + 400) as nat);
    lemma_pow2_pos(1074);
    let h = pow10(k);
    assert(low < h) by (nonlinear_arith)
        requires
            low * t * u < (h * t) * u,
            t > 0,
            u > 0,
    ;
    lemma_pow10_grows(k, j);
    let found = shortest_from(x, e, k);
    assert(found.0 == low || found.0 == low + 1 || (k < 17 && !read_at(x, p) && found
        == shortest_from(x, e, k + 1)));
    if k < j {
        lemma_search_ends(x, e, k + 1, j);
    }
}

proof fn lemma_stripped_power(j: nat, p: int)
    ensures
        stripped(pow10(j), p).0 == 1,
    decreases j,
{
    lemma_pow10_bound(j);
    if j > 0 {
        let h = pow10((j - 1) as nat);
        assert(pow10(j) == 10 * h);
        assert(pow10(j) % 10 == 0 && pow10(j) / 10 == h);
        lemma_stripped_power((j - 1) as nat, p + 1);
    }
}

proof fn lemma_stripped_below(c: nat, p: int)
    ensures
        stripped(c, p).0 <= c,
    decreases c,
{
    if c > 0 && c % 10 == 0 {
        lemma_stripped_below(c / 10, p + 1);
    }
}

/// A number is below the power of ten of its places and not below the one before.
proof fn lemma_places(x: Num) -> (e: int)
    requires
        x.finite(),
        x.magnitude() > 0,
    ensures
        e == places_from(x.magnitude(), -330),
        -330 < e <= 342,
        x.magnitude() * pow10(400) < pow10((e + 400) as nat) * one(),
        pow10((e - 1 + 400) as nat) * one() <= x.magnitude() * pow10(400),
{
    let n = x.magnitude();
    let e = places_from(n, -330);
    let u = one();
    lemma_not_tiny(n);
    lemma_places_least(n, -329);
    assert(e == places_from(n, -329));
    assert(e - 1 == -330 || part_top(n, e - 1) >= part_bottom(e - 1));
    lemma_places_reached(n, -329);
    lemma_pow2_pos(1074);
    lemma_low(n, e - 1, 400);
    let below = part_top(n, e - 1) / part_bottom(e - 1);
    let t = pow10((e - 1 + 400) as nat);
    lemma_bottom_positive(e - 1);
    lemma_bottom_positive(e);
    assert(below >= 1) by {
        let (a, b) = (part_top(n, e - 1), part_bottom(e - 1));
        vstd::arithmetic::div_mod::lemma_fundamental_div_mod(a as int, b as int);
        vstd::arithmetic::div_mod::lemma_mod_bound(a as int, b as int);
        lemma_quotient(n, e - 1);
        if below == 0 {
            assert(b * below == 0) by (nonlinear_arith)
                requires
                    below == 0,
            ;
        }
    }
    assert(t * u <= below * t * u) by (nonlinear_arith)
        requires
            below >= 1,
    ;
    lemma_low(n, e, 400);
    let at = part_top(n, e) / part_bottom(e);
    let s = pow10((e + 400) as nat);
    assert(part_top(n, e) < part_bottom(e)) by {
        if e >= 342 {
            lemma_not_huge(x);
        }
    }
    vstd::arithmetic::div_mod::lemma_basic_div(part_top(n, e) as int, part_bottom(e) as int);
    assert((at + 1) * s * u == s * u) by (nonlinear_arith)
        requires
            at == 0,
    ;
    e
}

proof fn lemma_places_reached(n: nat, from: int)
    requires
        from <= 342,
    ensures
        places_from(n, from) < 342 ==> part_top(n, places_from(n, from)) < part_bottom(
            places_from(n, from),
        ),
    decreases 342 - from,
{
    if from < 342 && part_top(n, from) >= part_bottom(from) {
        lemma_places_reached(n, from + 1);
    }
}

proof fn lemma_bottom_positive(p: int)
    ensures
        part_bottom(p) > 0,
{
    lemma_pow2_pos(1074);
    if p >= 0 {
        lemma_pow10_bound(p as nat);
        let (u, h) = (one(), pow10(p as nat));
        assert(u * h > 0) by (nonlinear_arith)
            requires
                u > 0,
                h > 0,
        ;
    }
}

/// Every number is below ten to the 342nd.
proof fn lemma_not_huge(x: Num)
    requires
        x.finite(),
    ensures
        x.magnitude() < part_bottom(342),
{
    lemma_unpack(x);
    lemma_pow10_bound(342);
    lemma2_to64();
    vstd::arithmetic::power2::lemma2_to64_rest();
    let s = x.shift();
    lemma_pow2_adds(53, s);
    lemma_pow2_adds(1074, 1026);
    if 53 + s < 2100 {
        lemma_pow2_strictly_increases(53 + s, 2100);
    }
    lemma_pow2_pos(s);
    let (b, h, w, u, v) = (x.mant(), pow2(s), pow10(342), one(), pow2(1026));
    assert(b * h < 0x20_0000_0000_0000 * h) by (nonlinear_arith)
        requires
            b < 0x20_0000_0000_0000,
            h > 0,
    ;
    assert(u * v <= u * w) by (nonlinear_arith)
        requires
            v <= w,
    ;
}

/// No fewer digits than those that a number is written in read as the number.
pub proof fn law_no_fewer_digits_read_back(x: Num, c: nat, p: int)
    requires
        x.finite(),
        x.magnitude() > 0,
        scaled(x.neg(), c, p) == x,
    ensures
        nat_text(shortest(x).0).len() <= nat_text(c).len(),
{
    reveal(shortest);
    lemma_some_digits(x, c, p);
    let e = lemma_places(x);
    let len = nat_text(c).len();
    lemma_digit_count(c);
    let m: nat = if p < -400 {
        (-p) as nat
    } else {
        400
    };
    let j: nat = if len + p != e {
        1
    } else if len > 17 {
        17
    } else {
        len
    };
    lemma_wider(x, e, m);
    if len + p < e {
        lemma_power_reads(x, c, p, e - 1, m);
        lemma_next_digits(x, 1, e - 1);
    } else if len + p > e {
        lemma_power_reads(x, c, p, e, m);
        lemma_tenfold(x.neg(), 1, e - 1);
        lemma_next_digits(x, 10, e - 1);
    } else if len <= 17 {
        lemma_next_digits(x, c, p);
    }
    lemma_search_ends(x, e, 1, j);
    let (found, q) = shortest_from(x, e, 1);
    if found == pow10(j) {
        lemma_stripped_power(j, q);
        assert(nat_text(1).len() == 1);
    } else {
        lemma_stripped_below(found, q);
        lemma_nat_text_len(stripped(found, q).0, j);
    }
}

/// The places of a number, over a greater power of ten.
proof fn lemma_wider(x: Num, e: int, m: nat)
    requires
        m >= 400,
        -330 < e,
        x.magnitude() * pow10(400) < pow10((e + 400) as nat) * one(),
        pow10((e - 1 + 400) as nat) * one() <= x.magnitude() * pow10(400),
    ensures
        x.magnitude() * pow10(m) < pow10((e + m) as nat) * one(),
        pow10((e - 1 + m) as nat) * one() <= x.magnitude() * pow10(m),
{
    let w = (m - 400) as nat;
    lemma_pow10_adds(400, w);
    lemma_pow10_adds((e + 400) as nat, w);
    lemma_pow10_adds((e - 1 + 400) as nat, w);
    lemma_pow10_bound(w);
    let (n, u, h) = (x.magnitude(), one(), pow10(w));
    let (a, b, d) = (pow10(400), pow10((e + 400) as nat), pow10((e - 1 + 400) as nat));
    assert(n * (a * h) < (b * h) * u) by (nonlinear_arith)
        requires
            n * a < b * u,
            h > 0,
    ;
    assert((d * h) * u <= n * (a * h)) by (nonlinear_arith)
        requires
            d * u <= n * a,
            h > 0,
    ;
}

} // verus!
