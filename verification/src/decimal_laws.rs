//! What holds of every number as text: it reads back as the number.

use crate::decimal::{
    digits_end, digits_value, exponent_in, json_number_text, lemma_leading_zeros,
    lemma_nat_text_reads, lemma_pow10_adds, lemma_pow10_bound, nat_text, number_in, part_bottom,
    part_top, places_from, pointed, pow10, scaled, shortest, shortest_from, sign_at, sign_text,
    stripped, zeros,
};
use crate::num::{
    lemma_nearest_scales, lemma_nearest_zero, lemma_rounds_near, lemma_unpack, one, Num,
};
use crate::text::digit;
use vstd::arithmetic::power2::{
    lemma2_to64, lemma2_to64_rest, lemma_pow2_adds, lemma_pow2_pos, lemma_pow2_strictly_increases,
    pow2,
};
use vstd::prelude::*;

verus! {

pub proof fn lemma_places_least(n: nat, from: int)
    requires
        from <= 342,
    ensures
        from <= places_from(n, from) <= 342,
        places_from(n, from) > from ==> part_top(n, places_from(n, from) - 1) >= part_bottom(
            places_from(n, from) - 1,
        ),
    decreases 342 - from,
{
    if from < 342 && part_top(n, from) >= part_bottom(from) {
        lemma_places_least(n, from + 1);
    }
}

proof fn lemma_ten_and_two(j: nat)
    ensures
        pow10(10 * j) >= pow2(33 * j),
        pow2(33 * j) > 0,
    decreases j,
{
    if j == 0 {
        lemma2_to64();
    } else {
        let i = (j - 1) as nat;
        lemma_ten_and_two(i);
        lemma_pow10_adds(10 * i, 10);
        lemma_pow2_adds(33 * i, 33);
        lemma2_to64_rest();
        reveal_with_fuel(pow10, 11);
        assert(pow10(10) == 10_000_000_000);
        let a = pow10(10 * i);
        let b = pow2(33 * i);
        assert(a * 10_000_000_000 >= b * 0x2_0000_0000 > 0) by (nonlinear_arith)
            requires
                a >= b > 0,
        ;
    }
}

/// No number but zero is below 10^-330.
pub proof fn lemma_not_tiny(n: nat)
    requires
        n > 0,
    ensures
        part_top(n, -330) >= part_bottom(-330),
{
    lemma_ten_and_two(33);
    lemma_pow2_strictly_increases(1074, 1089);
    let t = pow10(330);
    assert(n * t >= t) by (nonlinear_arith)
        requires
            n >= 1,
    ;
}

/// A magnitude that is not below 10^e has seventeen digits before the point once
/// sixteen more are moved there.
proof fn lemma_many_digits(n: nat, e: int)
    requires
        part_top(n, e) >= part_bottom(e),
    ensures
        part_top(n, e - 16) >= 10_000_000_000_000_000 * part_bottom(e - 16),
        part_bottom(e - 16) > 0,
{
    reveal_with_fuel(pow10, 17);
    let t = pow10(16);
    assert(t == 10_000_000_000_000_000);
    lemma_pow2_pos(1074);
    let u = one();
    let p = e - 16;
    if e < 0 {
        let m = pow10((-e) as nat);
        lemma_pow10_adds((-e) as nat, 16);
        assert((-p) as nat == (-e) as nat + 16);
        assert(n * (m * t) >= t * u) by (nonlinear_arith)
            requires
                n * m >= u,
                t > 0,
        ;
    } else if p < 0 {
        let m = pow10((-p) as nat);
        let h = pow10(e as nat);
        lemma_pow10_adds(e as nat, (-p) as nat);
        assert(e as nat + (-p) as nat == 16);
        assert(n * m >= t * u) by (nonlinear_arith)
            requires
                n >= u * h,
                h * m == t,
                m >= 0,
        ;
    } else {
        let h = pow10(p as nat);
        lemma_pow10_adds(p as nat, 16);
        lemma_pow10_bound(p as nat);
        assert(p as nat + 16 == e as nat);
        assert(n >= t * (u * h)) by (nonlinear_arith)
            requires
                n >= u * (h * t),
        ;
        assert(u * h > 0) by (nonlinear_arith)
            requires
                u > 0,
                h > 0,
        ;
    }
}

/// Of seventeen digits the nearer candidate reads back.
proof fn lemma_near_reads(x: Num, c: nat, p: int)
    requires
        x.finite(),
        x.magnitude() > 0,
        part_top(x.magnitude(), p) >= 10_000_000_000_000_000 * part_bottom(p),
        part_bottom(p) > 0,
        2 * (c * part_bottom(p) - part_top(x.magnitude(), p)) <= part_bottom(p),
        2 * (part_top(x.magnitude(), p) - c * part_bottom(p)) <= part_bottom(p),
    ensures
        scaled(x.neg(), c, p) == x,
{
    reveal(scaled);
    let m = x.magnitude();
    let top = part_top(m, p);
    let bottom = part_bottom(p);
    if p >= 0 {
        let h = pow10(p as nat);
        assert(c * h * one() == c * bottom) by (nonlinear_arith)
            requires
                bottom == one() * h,
        ;
        assert(m * 1 == m);
        lemma_rounds_near(x, c * h * one(), 1);
    } else {
        lemma_pow10_bound((-p) as nat);
        lemma_rounds_near(x, c * one(), pow10((-p) as nat));
    }
}

/// The search for digits that read back finds some.
proof fn lemma_search_reads(x: Num, e: int, k: nat)
    requires
        x.finite(),
        x.magnitude() > 0,
        k <= 17,
        part_top(x.magnitude(), e - 1) >= part_bottom(e - 1),
    ensures
        scaled(x.neg(), shortest_from(x, e, k).0, shortest_from(x, e, k).1) == x,
    decreases 17 - k,
{
    if k < 17 {
        lemma_search_reads(x, e, k + 1);
    } else {
        let p = e - 17;
        let top = part_top(x.magnitude(), p);
        let bottom = part_bottom(p);
        lemma_many_digits(x.magnitude(), e - 1);
        assert(e - 1 - 16 == p);
        let low = top / bottom;
        let rest = top % bottom;
        vstd::arithmetic::div_mod::lemma_fundamental_div_mod(top as int, bottom as int);
        assert(bottom * low == low * bottom) by (nonlinear_arith);
        assert((low + 1) * bottom == low * bottom + bottom) by (nonlinear_arith);
        if 2 * rest <= bottom {
            lemma_near_reads(x, low, p);
        } else {
            lemma_near_reads(x, low + 1, p);
        }
    }
}

/// Tenfold digits are the same number at a tenth of the power.
pub proof fn lemma_tenfold(neg: bool, c: nat, p: int)
    ensures
        scaled(neg, 10 * c, p) == scaled(neg, c, p + 1),
{
    reveal(scaled);
    if p >= 0 {
        let h = pow10(p as nat);
        assert(pow10((p + 1) as nat) == 10 * h);
        assert((10 * c) * h * one() == c * (10 * h) * one()) by (nonlinear_arith);
    } else {
        let h = pow10((-(p + 1)) as nat);
        assert(pow10((-p) as nat) == 10 * h);
        lemma_pow10_bound((-(p + 1)) as nat);
        assert((10 * c) * one() == (c * one()) * 10) by (nonlinear_arith);
        assert(10 * h == h * 10);
        lemma_nearest_scales(neg, c * one(), h, 10);
        if p == -1 {
            assert(h == 1);
            assert(c * 1 * one() == c * one());
        }
    }
}

proof fn lemma_stripped(neg: bool, c: nat, p: int)
    ensures
        scaled(neg, stripped(c, p).0, stripped(c, p).1) == scaled(neg, c, p),
    decreases c,
{
    if c > 0 && c % 10 == 0 {
        lemma_stripped(neg, c / 10, p + 1);
        lemma_tenfold(neg, c / 10, p);
    }
}

/// The shortest digits of a number read back as the number.
pub proof fn lemma_shortest_reads(x: Num)
    requires
        x.finite(),
        x.magnitude() > 0,
    ensures
        scaled(x.neg(), shortest(x).0, shortest(x).1) == x,
{
    reveal(shortest);
    let e = places_from(x.magnitude(), -330);
    lemma_not_tiny(x.magnitude());
    lemma_places_least(x.magnitude(), -329);
    assert(e == places_from(x.magnitude(), -329));
    assert(e - 1 == -330 || part_top(x.magnitude(), e - 1) >= part_bottom(e - 1));
    lemma_search_reads(x, e, 1);
    let (c, p) = shortest_from(x, e, 1);
    lemma_stripped(x.neg(), c, p);
}

/// Whether a text reads as a number.
#[verifier::opaque]
spec fn reads(s: Seq<char>, x: Num) -> bool {
    number_in(s) == Some(x)
}

/// Whether a text holds digits alone.
spec fn all_digits(s: Seq<char>) -> bool {
    forall|i: int| 0 <= i < s.len() ==> digit(#[trigger] s[i])
}

proof fn lemma_digits_run(s: Seq<char>, i: int, e: int)
    requires
        0 <= i <= e <= s.len(),
        forall|j: int| i <= j < e ==> digit(#[trigger] s[j]),
        e < s.len() ==> !digit(s[e]),
    ensures
        digits_end(s, i) == e,
    decreases e - i,
{
    if i < e {
        lemma_digits_run(s, i + 1, e);
    }
}

/// A text of a sign, digits with a point among them, and an exponent reads as the
/// number they write.
#[verifier::rlimit(30)]
proof fn lemma_written_reads(neg: bool, a: Seq<char>, f: Seq<char>, tail: Seq<char>, e: int)
    requires
        all_digits(a),
        all_digits(f),
        a.len() > 0,
        exponent_in(tail, 0) == Some(e),
        tail.len() > 0 ==> tail[0] == 'e',
    ensures
        reads(
            sign_text(neg) + a + seq!['.'] + f + tail,
            scaled(neg, digits_value(a + f), e - f.len()),
        ),
        f.len() == 0 ==> reads(sign_text(neg) + a + tail, scaled(neg, digits_value(a), e)),
{
    reveal(reads);
    let s = sign_text(neg) + a + seq!['.'] + f + tail;
    let start = sign_text(neg).len() as int;
    let i = start + a.len();
    let b = i + 1 + f.len();
    assert(s[0] == (if neg {
        '-'
    } else {
        a[0]
    }));
    assert(digit(a[0]));
    assert forall|j: int| start <= j < i implies digit(#[trigger] s[j]) by {
        assert(s[j] == a[j - start]);
    }
    assert(s[i] == '.');
    lemma_digits_run(s, start, i);
    assert forall|j: int| i + 1 <= j < b implies digit(#[trigger] s[j]) by {
        assert(s[j] == f[j - i - 1]);
    }
    assert(tail.len() > 0 ==> s[b] == tail[0]);
    lemma_digits_run(s, i + 1, b);
    assert(s.subrange(start, i) =~= a);
    assert(s.subrange(i + 1, b) =~= f);
    assert(s.subrange(b, s.len() as int) =~= tail);
    lemma_exponent_moves(s, b, tail, e);
    if f.len() == 0 {
        let t = sign_text(neg) + a + tail;
        assert(t[0] == s[0]);
        assert forall|j: int| start <= j < i implies digit(#[trigger] t[j]) by {
            assert(t[j] == a[j - start]);
        }
        assert(tail.len() > 0 ==> t[i] == tail[0]);
        lemma_digits_run(t, start, i);
        assert(t.subrange(start, i) =~= a);
        assert(a + Seq::<char>::empty() =~= a);
        assert(t.subrange(i, t.len() as int) =~= tail);
        lemma_exponent_moves(t, i, tail, e);
    }
}

/// An exponent reads the same wherever it stands.
proof fn lemma_exponent_moves(s: Seq<char>, b: int, tail: Seq<char>, e: int)
    requires
        0 <= b,
        s.len() == b + tail.len(),
        s.subrange(b, s.len() as int) == tail,
        exponent_in(tail, 0) == Some(e),
    ensures
        exponent_in(s, b) == Some(e),
{
    if tail.len() > 0 {
        assert forall|j: int| 0 <= j < tail.len() implies #[trigger] s[b + j] == tail[j] by {
            assert(s.subrange(b, s.len() as int)[j] == tail[j]);
        }
        let c: int = if sign_at(tail, 1) {
            2
        } else {
            1
        };
        assert(s[b + 0] == tail[0]);
        if tail.len() > 1 {
            assert(s[b + 1] == tail[1]);
        }
        lemma_digits_move(s, b, tail, c);
        assert(s.subrange(b + c, s.len() as int) =~= tail.subrange(c, tail.len() as int));
    }
}

proof fn lemma_digits_move(s: Seq<char>, b: int, tail: Seq<char>, c: int)
    requires
        0 <= b,
        0 <= c,
        s.len() == b + tail.len(),
        forall|j: int| 0 <= j < tail.len() ==> #[trigger] s[b + j] == tail[j],
    ensures
        digits_end(s, b + c) == b + digits_end(tail, c),
    decreases tail.len() - c,
{
    if c < tail.len() {
        assert(s[b + c] == tail[c]);
        lemma_digits_move(s, b, tail, c + 1);
    }
}

proof fn lemma_exponent_reads(sign: char, g: nat)
    requires
        sign == '+' || sign == '-',
    ensures
        exponent_in(seq!['e', sign] + nat_text(g), 0) == Some(if sign == '-' {
            -(g as int)
        } else {
            g as int
        }),
{
    let s = seq!['e', sign] + nat_text(g);
    lemma_nat_text_reads(g);
    assert(s[0] == 'e' && s[1] == sign);
    assert forall|j: int| 2 <= j < s.len() implies digit(#[trigger] s[j]) by {
        assert(s[j] == nat_text(g)[j - 2]);
    }
    lemma_digits_run(s, 2, s.len() as int);
    assert(s.subrange(2, s.len() as int) =~= nat_text(g));
}

proof fn lemma_trailing_zeros(d: Seq<char>, n: nat)
    ensures
        digits_value(d + zeros(n as int)) == digits_value(d) * pow10(n),
    decreases n,
{
    if n == 0 {
        assert(d + zeros(0) =~= d);
        assert(digits_value(d) * 1 == digits_value(d));
    } else {
        let s = d + zeros(n as int);
        assert(s.drop_last() =~= d + zeros(n - 1));
        lemma_trailing_zeros(d, (n - 1) as nat);
        let v = digits_value(d);
        let t = pow10((n - 1) as nat);
        assert(10 * (v * t) == v * (10 * t)) by (nonlinear_arith);
    }
}

proof fn lemma_trailing_scaled(neg: bool, c: nat, n: nat, p: int)
    ensures
        scaled(neg, c * pow10(n), p) == scaled(neg, c, p + n),
    decreases n,
{
    if n == 0 {
        assert(c * 1 == c);
    } else {
        let t = pow10((n - 1) as nat);
        assert(c * (10 * t) == 10 * (c * t)) by (nonlinear_arith);
        lemma_tenfold(neg, c * t, p);
        lemma_trailing_scaled(neg, c, (n - 1) as nat, p + 1);
    }
}

/// Digits behind a point and zeros read as the digits, scaled.
proof fn lemma_small_reads(neg: bool, c: nat, k: int)
    requires
        k <= 0,
    ensures
        reads(sign_text(neg) + pointed(nat_text(c), k), scaled(neg, c, k - nat_text(c).len())),
{
    let d = nat_text(c);
    let none = Seq::<char>::empty();
    let f = zeros(-k) + d;
    lemma_nat_text_reads(c);
    assert(exponent_in(none, 0) == Some(0int));
    assert forall|i: int| 0 <= i < f.len() implies digit(#[trigger] f[i]) by {
        if i >= -k {
            assert(f[i] == d[i + k]);
        }
    }
    lemma_written_reads(neg, seq!['0'], f, none, 0);
    assert(seq!['0'] + f =~= zeros(1 - k) + d);
    lemma_leading_zeros(1 - k, d);
    assert(sign_text(neg) + seq!['0'] + seq!['.'] + f + none =~= sign_text(neg) + pointed(d, k));
}

/// Digits before zeros and a point read as the digits, scaled.
proof fn lemma_large_reads(neg: bool, c: nat, k: int)
    requires
        k >= nat_text(c).len(),
    ensures
        reads(
            sign_text(neg) + (pointed(nat_text(c), k) + seq!['.', '0']),
            scaled(neg, c, k - nat_text(c).len()),
        ),
{
    let d = nat_text(c);
    let none = Seq::<char>::empty();
    let n = (k - d.len()) as nat;
    let a = d + zeros(n as int);
    lemma_nat_text_reads(c);
    assert(exponent_in(none, 0) == Some(0int));
    assert forall|i: int| 0 <= i < a.len() implies digit(#[trigger] a[i]) by {
        if i < d.len() {
            assert(a[i] == d[i]);
        }
    }
    lemma_written_reads(neg, a, seq!['0'], none, 0);
    assert(a + seq!['0'] =~= d + zeros(n as int + 1));
    lemma_trailing_zeros(d, n + 1);
    lemma_trailing_scaled(neg, c, n + 1, -1);
    assert(sign_text(neg) + a + seq!['.'] + seq!['0'] + none =~= sign_text(neg) + (pointed(d, k)
        + seq!['.', '0']));
}

/// Digits with a point among them read as the digits, scaled.
proof fn lemma_middle_reads(neg: bool, c: nat, k: int)
    requires
        0 < k < nat_text(c).len(),
    ensures
        reads(sign_text(neg) + pointed(nat_text(c), k), scaled(neg, c, k - nat_text(c).len())),
{
    let d = nat_text(c);
    let none = Seq::<char>::empty();
    let a = d.subrange(0, k);
    let f = d.subrange(k, d.len() as int);
    lemma_nat_text_reads(c);
    assert(exponent_in(none, 0) == Some(0int));
    assert forall|i: int| 0 <= i < a.len() implies digit(#[trigger] a[i]) by {
        assert(a[i] == d[i]);
    }
    assert forall|i: int| 0 <= i < f.len() implies digit(#[trigger] f[i]) by {
        assert(f[i] == d[k + i]);
    }
    lemma_written_reads(neg, a, f, none, 0);
    assert(a + f =~= d);
    assert(sign_text(neg) + a + seq!['.'] + f + none =~= sign_text(neg) + pointed(d, k));
}

/// The exponent of a number whose point would stand `k` digits off.
spec fn exponent_text(k: int) -> Seq<char> {
    if k >= 1 {
        seq!['e', '+'] + nat_text((k - 1) as nat)
    } else {
        seq!['e', '-'] + nat_text((1 - k) as nat)
    }
}

proof fn lemma_exponent_text(k: int)
    ensures
        exponent_in(exponent_text(k), 0) == Some(k - 1),
        exponent_text(k).len() > 0,
        exponent_text(k)[0] == 'e',
{
    if k >= 1 {
        lemma_exponent_reads('+', (k - 1) as nat);
    } else {
        lemma_exponent_reads('-', (1 - k) as nat);
    }
}

/// Digits with an exponent read as the digits, scaled.
proof fn lemma_far_reads(neg: bool, c: nat, k: int)
    ensures
        ({
            let d = nat_text(c);
            let head = if d.len() == 1 {
                d
            } else {
                d.subrange(0, 1) + seq!['.'] + d.subrange(1, d.len() as int)
            };
            reads(sign_text(neg) + (head + exponent_text(k)), scaled(neg, c, k - d.len()))
        }),
{
    let d = nat_text(c);
    let tail = exponent_text(k);
    lemma_nat_text_reads(c);
    lemma_exponent_text(k);
    if d.len() == 1 {
        lemma_written_reads(neg, d, Seq::empty(), tail, k - 1);
        assert(sign_text(neg) + d + tail =~= sign_text(neg) + (d + tail));
    } else {
        let a = d.subrange(0, 1);
        let f = d.subrange(1, d.len() as int);
        assert forall|i: int| 0 <= i < f.len() implies digit(#[trigger] f[i]) by {
            assert(f[i] == d[1 + i]);
        }
        assert(digit(d[0]));
        lemma_written_reads(neg, a, f, tail, k - 1);
        assert(a + f =~= d);
        assert(sign_text(neg) + a + seq!['.'] + f + tail =~= sign_text(neg) + ((a + seq!['.'] + f)
            + tail));
    }
}

/// Zero reads back, with its sign.
proof fn lemma_zero_reads(x: Num)
    requires
        x.finite(),
        x.magnitude() == 0,
    ensures
        reads(sign_text(x.neg()) + seq!['0', '.', '0'], x),
{
    let none = Seq::<char>::empty();
    lemma_unpack(x);
    assert(exponent_in(none, 0) == Some(0int));
    lemma_written_reads(x.neg(), seq!['0'], seq!['0'], none, 0);
    assert(sign_text(x.neg()) + seq!['0'] + seq!['.'] + seq!['0'] + none =~= sign_text(x.neg())
        + seq!['0', '.', '0']);
    assert(seq!['0'] + seq!['0'] =~= zeros(2) + none);
    lemma_leading_zeros(2, none);
    reveal(scaled);
    assert(0 * one() == 0);
    lemma_pow10_bound(1);
    lemma_nearest_zero(x.neg(), pow10(1));
    lemma_pow2_pos(x.shift());
    assert(x.mant() == 0) by (nonlinear_arith)
        requires
            x.mant() * pow2(x.shift()) == 0,
            pow2(x.shift()) > 0,
    ;
}

/// A number reads back from its text as the very same number, sign of zero and
/// all.
pub proof fn law_a_number_reads_back(x: Num)
    requires
        x.finite(),
    ensures
        number_in(json_number_text(x)) == Some(x),
{
    if x.magnitude() == 0 {
        lemma_zero_reads(x);
    } else {
        let (c, p) = shortest(x);
        let d = nat_text(c);
        let k = d.len() + p;
        lemma_shortest_reads(x);
        if k < -4 || k > 16 {
            lemma_far_reads(x.neg(), c, k);
        } else if k <= 0 {
            lemma_small_reads(x.neg(), c, k);
            lemma_nat_text_reads(c);
        } else if k >= d.len() {
            lemma_large_reads(x.neg(), c, k);
        } else {
            lemma_middle_reads(x.neg(), c, k);
        }
        assert(k - d.len() == p);
        assert(reads(json_number_text(x), x));
    }
    reveal(reads);
}

} // verus!
