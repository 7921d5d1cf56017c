//! What holds of arithmetic: results are the nearest numbers to the exact ones, and
//! rounding keeps to the whole numbers around.

use crate::ast::Func;
use crate::decimal::pow10;
use crate::eval::{call_value, number_of, number_tree, Env};
use crate::num::{
    absolute, ceil_of, difference, floor_of, infinite, lemma_exact, lemma_nearest_rounds,
    lemma_nearest_scales, lemma_negated, lemma_pack, lemma_scale_least, lemma_unpack,
    lemma_whole_below, lemma_whole_exact, lemma_whole_parts, nearest, negated, one, pack, product,
    ratio, rest_part, round_of, scale_from, sum, whole, whole_int, whole_part, HIDDEN, Num,
};
use crate::text_laws::two;
use crate::value::Tree;
use vstd::arithmetic::power2::{lemma2_to64, lemma_pow2_adds, lemma_pow2_pos, pow2};
use vstd::prelude::*;

verus! {

/// How far two amounts are apart.
pub open spec fn apart(a: int, b: int) -> int {
    if a < b {
        b - a
    } else {
        a - b
    }
}

proof fn lemma_multiples(n: int, unit: int, m: int, j: int)
    requires
        unit > 0,
        -unit <= 2 * (n - m * unit) <= unit,
    ensures
        apart(m * unit, n) <= apart(j * unit, n),
        apart(m * unit, n) == apart(j * unit, n) && m != j ==> 2 * (n - m * unit) == unit || 2 * (m
            * unit - n) == unit,
{
    if j > m {
        assert(j * unit >= m * unit + unit) by (nonlinear_arith)
            requires
                j >= m + 1,
                unit > 0,
        ;
    } else if j < m {
        assert(j * unit <= m * unit - unit) by (nonlinear_arith)
            requires
                j <= m - 1,
                unit > 0,
        ;
    }
}

/// The nearest number to a ratio is one that no other number is nearer than, and
/// where another is as near, the one with the even significand. Only what is beyond
/// the greatest number by half a step of its or more is infinite.
pub proof fn law_no_number_is_nearer(neg: bool, n: nat, d: nat, y: Num)
    requires
        d > 0,
        y.finite(),
    ensures
        ({
            let x = nearest(neg, n, d);
            let off = apart((x.magnitude() * d) as int, n as int);
            let other = apart((y.magnitude() * d) as int, n as int);
            &&& x.neg() == neg
            &&& x.finite() ==> off <= other
            &&& x.finite() && off == other && x.magnitude() != y.magnitude() ==> x.mant() % 2 == 0
            &&& !x.finite() ==> x == infinite(neg)
            &&& x.finite() <==> 2 * n < (4 * HIDDEN - 1) * (d * pow2(2045))
        }),
{
    lemma_scale_least(n, d, 0);
    lemma2_to64();
    vstd::arithmetic::power2::lemma2_to64_rest();
    let k = scale_from(n, d, 0);
    let top = d * pow2(2045);
    let last = pow2(2045);
    lemma_pow2_pos(2045);
    if k >= 2046 {
        assert(nearest(neg, n, d) == infinite(neg)) by {
            reveal(nearest);
        }
        lemma_pack(neg, HIDDEN as nat, 2046);
        lemma_pow2_adds(2045, 53);
        assert(n >= d * pow2(2098));
        assert(d * pow2(2098) == top * 0x20_0000_0000_0000) by (nonlinear_arith)
            requires
                pow2(2098) == last * 0x20_0000_0000_0000,
                top == d * last,
        ;
        assert(top > 0) by (nonlinear_arith)
            requires
                d > 0,
                last > 0,
                top == d * last,
        ;
        assert((4 * HIDDEN - 1) * top == 0x3f_ffff_ffff_ffff * top) by (nonlinear_arith);
        assert(2 * n >= 0x40_0000_0000_0000 * top);
    } else {
        let x = nearest(neg, n, d);
        let m = lemma_nearest_rounds(neg, n, d);
        let p = pow2(k);
        let unit = d * p;
        lemma_pow2_pos(k);
        assert(unit > 0) by (nonlinear_arith)
            requires
                d > 0,
                p > 0,
                unit == d * p,
        ;
        assert(x.magnitude() * d == m * unit) by (nonlinear_arith)
            requires
                x.magnitude() == m * p,
                unit == d * p,
        ;
        lemma_unpack(y);
        let s = y.shift();
        let b = y.mant();
        if s >= k {
            let step = pow2((s - k) as nat);
            lemma_pow2_adds((s - k) as nat, k);
            let j = b * step;
            assert(y.magnitude() * d == j * unit) by (nonlinear_arith)
                requires
                    y.magnitude() == b * (step * p),
                    j == b * step,
                    unit == d * p,
            ;
            assert(y.magnitude() == j * p) by (nonlinear_arith)
                requires
                    y.magnitude() == b * (step * p),
                    j == b * step,
            ;
            lemma_multiples(n as int, unit as int, m as int, j as int);
        } else {
            let step = pow2((k - 1 - s) as nat);
            lemma_pow2_pos((k - 1 - s) as nat);
            lemma_pow2_adds((k - 1 - s) as nat, s);
            lemma_pow2_adds(1, (k - 1) as nat);
            let h = pow2(s);
            lemma_pow2_pos(s);
            assert(h <= pow2((k - 1) as nat)) by (nonlinear_arith)
                requires
                    step >= 1,
                    h > 0,
                    pow2((k - 1) as nat) == step * h,
            ;
            assert(b * h < 0x10_0000_0000_0000 * p) by (nonlinear_arith)
                requires
                    b < 0x20_0000_0000_0000,
                    0 < h,
                    2 * h <= p,
            ;
            assert(y.magnitude() * d < 0x10_0000_0000_0000 * unit) by (nonlinear_arith)
                requires
                    y.magnitude() < 0x10_0000_0000_0000 * p,
                    unit == d * p,
                    d > 0,
            ;
            lemma_pow2_adds(k, 52);
            assert(d * pow2((52 + k) as nat) == 0x10_0000_0000_0000 * unit) by (nonlinear_arith)
                requires
                    pow2(52 + k) == p * 0x10_0000_0000_0000,
                    unit == d * p,
            ;
            lemma_multiples(n as int, unit as int, m as int, 0x10_0000_0000_0000);
        }
        if k < 2045 {
            lemma_pow2_adds((2045 - k - 1) as nat, k + 1);
            lemma_pow2_pos((2045 - k - 1) as nat);
            lemma_pow2_adds(1, k);
            lemma_pow2_adds(k, 53);
            let step = pow2((2045 - k - 1) as nat);
            assert(d * pow2(53 + k) == unit * 0x20_0000_0000_0000) by (nonlinear_arith)
                requires
                    pow2(53 + k) == p * 0x20_0000_0000_0000,
                    unit == d * p,
            ;
            assert(top >= 2 * unit) by (nonlinear_arith)
                requires
                    top == d * last,
                    last == step * (2 * p),
                    step >= 1,
                    unit == d * p,
                    d > 0,
                    p > 0,
            ;
        } else {
            assert(unit == top);
            if m < 2 * HIDDEN {
                assert(m * unit <= 0x1f_ffff_ffff_ffff * unit) by (nonlinear_arith)
                    requires
                        m <= 0x1f_ffff_ffff_ffff,
                        unit > 0,
                ;
                if m == 0x1f_ffff_ffff_ffff {
                    lemma_mant(x, m, k);
                } else {
                    assert(m * unit <= 0x1f_ffff_ffff_fffe * unit) by (nonlinear_arith)
                        requires
                            m <= 0x1f_ffff_ffff_fffe,
                            unit > 0,
                    ;
                }
            } else {
                assert(m * unit == 0x20_0000_0000_0000 * unit);
            }
        }
    }
}

/// Where the significand of a number is one in its full precision, the amount gives
/// it.
proof fn lemma_mant(x: Num, m: nat, k: nat)
    requires
        x.finite(),
        HIDDEN <= m < 2 * HIDDEN,
        x.magnitude() == m * pow2(k),
    ensures
        x.mant() == m,
{
    lemma_unpack(x);
    lemma2_to64();
    let s = x.shift();
    let b = x.mant();
    lemma_pow2_pos(s);
    lemma_pow2_pos(k);
    if s > k {
        lemma_pow2_adds((s - k - 1) as nat, k);
        lemma_pow2_adds(1, (s - 1) as nat);
        lemma_pow2_pos((s - k - 1) as nat);
        let p = pow2(k);
        let step = pow2((s - k - 1) as nat);
        assert(b * pow2(s) > m * p) by (nonlinear_arith)
            requires
                b >= 0x10_0000_0000_0000,
                m < 0x20_0000_0000_0000,
                pow2(s) == 2 * (step * p),
                step >= 1,
                p > 0,
        ;
    } else if s < k {
        lemma_pow2_adds((k - s - 1) as nat, s);
        lemma_pow2_adds(1, (k - 1) as nat);
        lemma_pow2_pos((k - s - 1) as nat);
        let p = pow2(s);
        let step = pow2((k - s - 1) as nat);
        assert(m * pow2(k) > b * p) by (nonlinear_arith)
            requires
                m >= 0x10_0000_0000_0000,
                b < 0x20_0000_0000_0000,
                pow2(k) == 2 * (step * p),
                step >= 1,
                p > 0,
        ;
    } else {
        let p = pow2(s);
        assert(b == m) by (nonlinear_arith)
            requires
                b * p == m * p,
                p > 0,
        ;
    }
}

/// A sum is the nearest number to the exact one, and so is a difference.
pub proof fn law_sums_are_the_nearest(a: Num, b: Num, y: Num)
    requires
        a.finite(),
        b.finite(),
        y.finite(),
    ensures
        sum(a, b).finite() ==> apart(sum(a, b).amount(), a.amount() + b.amount()) <= apart(
            y.amount(),
            a.amount() + b.amount(),
        ),
        difference(a, b).finite() ==> apart(difference(a, b).amount(), a.amount() - b.amount())
            <= apart(y.amount(), a.amount() - b.amount()),
{
    lemma_negated(b);
    lemma_sum_nearest(a, b, y);
    lemma_sum_nearest(a, negated(b), y);
}

proof fn lemma_sum_nearest(a: Num, b: Num, y: Num)
    requires
        a.finite(),
        b.finite(),
        y.finite(),
    ensures
        sum(a, b).finite() ==> apart(sum(a, b).amount(), a.amount() + b.amount()) <= apart(
            y.amount(),
            a.amount() + b.amount(),
        ),
{
    let t = a.amount() + b.amount();
    let zero = pack(false, 0, 0);
    lemma_pack(false, 0, 0);
    lemma_pack(true, 0, 0);
    assert(0 * pow2(0) == 0);
    if t != 0 {
        let n: nat = if t < 0 {
            (-t) as nat
        } else {
            t as nat
        };
        law_no_number_is_nearer(t < 0, n, 1, y);
        law_no_number_is_nearer(t < 0, n, 1, zero);
    }
}

/// A product is the nearest number to the exact one, and so is a quotient; like signs
/// make them positive and unlike ones negative.
pub proof fn law_products_and_quotients_are_the_nearest(a: Num, b: Num, y: Num)
    requires
        a.finite(),
        b.finite(),
        y.finite(),
    ensures
        product(a, b).neg() == (a.neg() != b.neg()),
        product(a, b).finite() ==> apart(
            (product(a, b).magnitude() * one()) as int,
            (a.magnitude() * b.magnitude()) as int,
        ) <= apart((y.magnitude() * one()) as int, (a.magnitude() * b.magnitude()) as int),
        b.magnitude() > 0 ==> ratio(a, b).neg() == (a.neg() != b.neg()),
        b.magnitude() > 0 && ratio(a, b).finite() ==> apart(
            (ratio(a, b).magnitude() * b.magnitude()) as int,
            (a.magnitude() * one()) as int,
        ) <= apart((y.magnitude() * b.magnitude()) as int, (a.magnitude() * one()) as int),
{
    lemma_pow2_pos(1074);
    let neg = a.neg() != b.neg();
    law_no_number_is_nearer(neg, a.magnitude() * b.magnitude(), one(), y);
    if b.magnitude() > 0 {
        law_no_number_is_nearer(neg, a.magnitude() * one(), b.magnitude(), y);
    }
}

/// What has a part behind the point is small enough for the whole numbers around it
/// to be held exactly.
proof fn lemma_parts(x: Num)
    requires
        x.finite(),
    ensures
        x.magnitude() == whole_part(x) * one() + rest_part(x),
        rest_part(x) < one(),
        rest_part(x) > 0 ==> whole_part(x) < 2 * HIDDEN,
        rest_part(x) == 0 ==> whole(x.neg(), whole_part(x)) == x,
{
    let u = one();
    lemma_pow2_pos(1074);
    vstd::arithmetic::div_mod::lemma_fundamental_div_mod(x.magnitude() as int, u as int);
    assert(u * whole_part(x) == whole_part(x) * u) by (nonlinear_arith);
    lemma_unpack(x);
    let s = x.shift();
    let m = x.mant();
    if rest_part(x) == 0 {
        lemma_exact(x.neg(), m, s);
    } else if s >= 1074 {
        let step = pow2((s - 1074) as nat);
        lemma_pow2_adds((s - 1074) as nat, 1074);
        assert(x.magnitude() == u * (m * step)) by (nonlinear_arith)
            requires
                x.magnitude() == m * (step * u),
        ;
        assert(u * (m * step) == (m * step) * u) by (nonlinear_arith);
        vstd::arithmetic::div_mod::lemma_fundamental_div_mod_converse(
            x.magnitude() as int,
            u as int,
            (m * step) as int,
            0,
        );
    } else {
        let step = pow2((1074 - s) as nat);
        lemma_pow2_adds((1074 - s) as nat, s);
        lemma_pow2_pos((1074 - s) as nat);
        lemma_pow2_pos(s);
        let w = whole_part(x);
        let h = pow2(s);
        assert(w < 0x20_0000_0000_0000) by (nonlinear_arith)
            requires
                w * u <= m * h,
                m < 0x20_0000_0000_0000,
                u == step * h,
                step >= 1,
                h > 0,
        ;
    }
}

/// The floor of a number is the greatest whole number at or below it, the ceiling the
/// least at or above it, and the rounded number the nearest, a half going away from
/// zero. Whole numbers stay as they are.
pub proof fn law_rounding_keeps_to_the_whole_numbers_around(x: Num)
    requires
        x.finite(),
    ensures
        ({
            let (f, c, r) = (floor_of(x), ceil_of(x), round_of(x));
            let u = one() as int;
            &&& f.finite() && c.finite() && r.finite()
            &&& f.neg() == x.neg() && c.neg() == x.neg() && r.neg() == x.neg()
            &&& f.amount() % u == 0 && c.amount() % u == 0 && r.amount() % u == 0
            &&& f.amount() <= x.amount() < f.amount() + u
            &&& c.amount() - u < x.amount() <= c.amount()
            &&& -u <= 2 * (r.amount() - x.amount()) <= u
            &&& 2 * apart(r.amount(), x.amount()) == u ==> r.magnitude() > x.magnitude()
            &&& x.magnitude() % one() == 0 ==> f == x && c == x && r == x
        }),
{
    let u = one() as int;
    lemma_pow2_pos(1074);
    lemma_parts(x);
    let w = whole_part(x);
    if rest_part(x) > 0 {
        lemma_whole_below(x.neg(), w);
        lemma_whole_below(x.neg(), w + 1);
        assert((w + 1) * u == w * u + u) by (nonlinear_arith);
    }
    lemma_multiple_of(w as int, u);
    lemma_multiple_of(-(w as int), u);
    lemma_multiple_of(w as int + 1, u);
    lemma_multiple_of(-(w + 1), u);
}

proof fn lemma_multiple_of(w: int, u: int)
    requires
        u > 0,
    ensures
        (w * u) % u == 0,
        -(w * u) == (-w) * u,
{
    vstd::arithmetic::div_mod::lemma_mod_multiples_basic(w, u);
    assert(-(w * u) == (-w) * u) by (nonlinear_arith);
}

/// A number times one is itself, and so is one over one.
pub proof fn law_one_changes_nothing(x: Num)
    requires
        x.finite(),
    ensures
        product(x, whole_int(1)) == x,
        ratio(x, whole_int(1)) == x,
{
    let u = one();
    lemma_pow2_pos(1074);
    lemma_whole_parts(1);
    lemma_whole_exact(false, 1);
    lemma_unpack(x);
    lemma_exact(x.neg(), x.mant(), x.shift());
    lemma_nearest_scales(x.neg(), x.magnitude(), 1, u);
    assert(1 * u == u);
}

/// `abs`, `floor`, `ceil` and `round` give what they are named for, of whatever reads
/// as a number; `num` gives that number itself.
pub proof fn law_number_functions_give_what_they_name(v: Tree, n: Num, env: Env)
    requires
        number_of(v) == Some(n),
        n.finite(),
    ensures
        call_value(Func::Num, seq![Some(v)], env) == Some(number_tree(n)),
        call_value(Func::Abs, seq![Some(v)], env) == Some(number_tree(absolute(n))),
        absolute(n).finite() && !absolute(n).neg() && absolute(n).magnitude() == n.magnitude(),
        call_value(Func::Floor, seq![Some(v)], env) == Some(number_tree(floor_of(n))),
        call_value(Func::Ceil, seq![Some(v)], env) == Some(number_tree(ceil_of(n))),
        call_value(Func::Round, seq![Some(v)], env) == Some(number_tree(round_of(n))),
{
    let args = seq![Some(v)];
    assert(args.len() == 1 && args[0] == Some(v));
    lemma_negated(n);
    law_one_changes_nothing(n);
    law_rounding_keeps_to_the_whole_numbers_around(n);
    law_one_changes_nothing(round_of(n));
    assert(pow10(0) == 1);
}

/// A number is rounded to places by counting in the units of the last one: none below
/// zero and no more than fifteen.
pub proof fn law_rounding_to_places_counts_in_their_unit(v: Tree, n: Num, places: int, env: Env)
    requires
        number_of(v) == Some(n),
        n.finite(),
        -(2 * HIDDEN) < places < 2 * HIDDEN,
    ensures
        ({
            let p: nat = if places < 0 {
                0
            } else if places > 15 {
                15
            } else {
                places as nat
            };
            let unit = whole_int(pow10(p) as int);
            call_value(Func::Round, two(v, number_tree(whole_int(places))), env) == Some(
                number_tree(ratio(round_of(product(n, unit)), unit)),
            )
        }),
{
    lemma_whole_parts(places);
    let args = two(v, number_tree(whole_int(places)));
    assert(args.len() == 2 && args[0] == Some(v));
}

/// What fits a significand is held exactly.
pub proof fn law_what_fits_is_exact(neg: bool, m: nat, k: nat)
    requires
        m < 2 * HIDDEN,
        k < 2046,
    ensures
        nearest(neg, m * pow2(k), 1).finite(),
        nearest(neg, m * pow2(k), 1).neg() == neg,
        nearest(neg, m * pow2(k), 1).magnitude() == m * pow2(k),
    decreases k,
{
    if m >= HIDDEN || k == 0 {
        lemma_exact(neg, m, k);
        lemma_pack(neg, m, k);
    } else {
        lemma2_to64();
        lemma_pow2_adds(1, (k - 1) as nat);
        let p = pow2((k - 1) as nat);
        assert(m * (2 * p) == (2 * m) * p) by (nonlinear_arith);
        law_what_fits_is_exact(neg, 2 * m, (k - 1) as nat);
    }
}

} // verus!
