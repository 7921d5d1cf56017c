//! Numbers of the IEEE 754 binary64 format, held as their bit patterns.
//!
//! A finite number is a whole multiple of 2^-1074, so its amount is an integer
//! in that unit, and each operation is stated over those integers: the exact
//! result, rounded to the nearest number of the format, ties to even.

use crate::big::{counted_bits, divide, order_of, Big, Order, Quotient};
use vstd::arithmetic::power2::{
    lemma2_to64, lemma_pow2_adds, lemma_pow2_pos, lemma_pow2_strictly_increases, lemma_pow2_unfold,
    pow2,
};
use vstd::prelude::*;

verus! {

/// 2^52, the least significand of a number in its full precision.
pub const HIDDEN: u64 = 0x10_0000_0000_0000;

/// 2^63, the sign bit.
pub const SIGN: u64 = 0x8000_0000_0000_0000;

/// A number, by its sign, exponent and fraction bits.
#[derive(Clone, Copy, Debug, PartialEq, Eq, Structural)]
pub struct Num {
    pub bits: u64,
}

impl Num {
    /// Whether the sign bit is set.
    pub open spec fn neg(self) -> bool {
        self.bits >= SIGN
    }

    /// The exponent field.
    pub open spec fn field(self) -> int {
        (self.bits / HIDDEN) as int % 2048
    }

    /// Whether the number is neither an infinity nor a NaN.
    pub open spec fn finite(self) -> bool {
        self.field() < 2047
    }

    /// The significand, with its hidden bit.
    pub open spec fn mant(self) -> nat {
        if self.field() == 0 {
            (self.bits % HIDDEN) as nat
        } else {
            (self.bits % HIDDEN + HIDDEN) as nat
        }
    }

    /// The power of two that scales the significand, in units of 2^-1074.
    pub open spec fn shift(self) -> nat {
        if self.field() == 0 {
            0
        } else {
            (self.field() - 1) as nat
        }
    }

    /// The distance from zero, in units of 2^-1074.
    pub open spec fn magnitude(self) -> nat {
        self.mant() * pow2(self.shift())
    }

    /// The amount, in units of 2^-1074.
    pub open spec fn amount(self) -> int {
        if self.neg() {
            -(self.magnitude() as int)
        } else {
            self.magnitude() as int
        }
    }
}

/// The number with this sign, significand and scale.
pub open spec fn pack(neg: bool, mant: nat, shift: nat) -> Num {
    let sign: int = if neg {
        SIGN as int
    } else {
        0
    };
    let rest: int = if mant >= HIDDEN {
        (shift + 1) * HIDDEN + (mant - HIDDEN)
    } else {
        mant as int
    };
    Num { bits: (sign + rest) as u64 }
}

/// Whether a significand and a scale are what some number has, or the infinity.
pub open spec fn packable(mant: nat, shift: nat) -> bool {
    &&& mant < 2 * HIDDEN
    &&& mant >= HIDDEN || shift == 0
    &&& shift <= 2046
    &&& shift == 2046 ==> mant == HIDDEN
}

/// The infinity of a sign.
pub open spec fn infinite(neg: bool) -> Num {
    pack(neg, HIDDEN as nat, 2046)
}

/// The least scale from `k` on at which the ratio `n / d` fits the significand,
/// or 2046 where none below does.
pub open spec fn scale_from(n: nat, d: nat, k: nat) -> nat
    decreases 2046 - k,
{
    if k >= 2046 || n < d * pow2(53 + k) {
        k
    } else {
        scale_from(n, d, k + 1)
    }
}

/// The number nearest to the ratio `n / d` in units of 2^-1074, of two equally
/// near ones the one with the even significand; an infinity where that is out
/// of the format's range.
#[verifier::opaque]
pub open spec fn nearest(neg: bool, n: nat, d: nat) -> Num {
    let k = scale_from(n, d, 0);
    if k >= 2046 {
        infinite(neg)
    } else {
        let unit = d * pow2(k);
        let q = n / unit;
        let r = n % unit;
        let mant = if 2 * r > unit || (2 * r == unit && q % 2 == 1) {
            q + 1
        } else {
            q
        };
        if mant == 2 * HIDDEN {
            pack(neg, HIDDEN as nat, k + 1)
        } else {
            pack(neg, mant, k)
        }
    }
}

pub proof fn lemma_pack(neg: bool, mant: nat, shift: nat)
    requires
        packable(mant, shift),
    ensures
        pack(neg, mant, shift).neg() == neg,
        pack(neg, mant, shift).mant() == mant,
        pack(neg, mant, shift).shift() == shift,
        pack(neg, mant, shift).finite() == (shift < 2046),
{
}

pub proof fn lemma_unpack(x: Num)
    requires
        x.finite(),
    ensures
        packable(x.mant(), x.shift()),
        x.shift() < 2046,
        pack(x.neg(), x.mant(), x.shift()) == x,
{
}

fn make(neg: bool, mant: u64, shift: u32) -> (r: Num)
    requires
        packable(mant as nat, shift as nat),
    ensures
        r == pack(neg, mant as nat, shift as nat),
{
    let sign: u64 = if neg {
        SIGN
    } else {
        0
    };
    let rest: u64 = if mant >= HIDDEN {
        (shift as u64 + 1) * HIDDEN + (mant - HIDDEN)
    } else {
        mant
    };
    Num { bits: sign + rest }
}

/// Where the ratio does not fit at one scale, it does not at a smaller one.
proof fn lemma_scale_skip(n: nat, d: nat, from: nat, k: nat)
    requires
        from <= k <= 2046,
        k > 0 ==> n >= d * pow2((52 + k) as nat),
    ensures
        scale_from(n, d, from) == scale_from(n, d, k),
    decreases k - from,
{
    if from < k {
        if from + 1 < k {
            lemma_pow2_strictly_increases(53 + from, (52 + k) as nat);
        }
        let a = pow2(53 + from);
        let b = pow2((52 + k) as nat);
        assert(d * a <= d * b) by (nonlinear_arith)
            requires
                a <= b,
        ;
        lemma_scale_skip(n, d, from + 1, k);
    }
}

/// The scale that the bits of the two sides of a ratio tell, where it is at or
/// below the right one, and otherwise the least.
pub open spec fn scale_by_bits(n: nat, d: nat) -> nat {
    let guess = counted_bits(n) - counted_bits(d) - 54;
    if 6 <= guess <= 2046 && n >= d * pow2((52 + guess) as nat) {
        guess as nat
    } else {
        0
    }
}

/// A scale as far up as can be told cheaply, at or below the right one.
fn first_scale(n: &Big, d: &Big) -> (r: u32)
    ensures
        r == scale_by_bits(n@, d@),
        r <= 2046,
        r > 0 ==> n@ >= d@ * pow2((52 + r) as nat),
{
    let a: u32 = n.rough_bits();
    let b: u32 = d.rough_bits();
    if a >= 60 && b <= a - 60 && a - b - 54 <= 2046 {
        let guess: u32 = a - b - 54;
        match n.compare(&d.shl(52 + guess)) {
            Order::Less => 0,
            _ => guess,
        }
    } else {
        0
    }
}

/// Rounds the ratio `n / d` to a number.
pub fn round_ratio(neg: bool, n: &Big, d: &Big) -> (r: Num)
    requires
        d@ > 0,
    ensures
        r == nearest(neg, n@, d@),
{
    let mut k: u32 = first_scale(n, d);
    proof {
        reveal(nearest);
        lemma_scale_skip(n@, d@, 0, k as nat);
    }
    let mut top = d.shl(53 + k);
    let mut fits = match n.compare(&top) {
        Order::Less => true,
        _ => false,
    };
    while k < 2046 && !fits
        invariant
            k <= 2046,
            d@ > 0,
            top@ == d@ * pow2((53 + k) as nat),
            fits == (n@ < top@),
            k > 0 ==> n@ >= d@ * pow2((52 + k) as nat),
            scale_from(n@, d@, 0) == scale_from(n@, d@, k as nat),
        decreases 2046 - k,
    {
        proof {
            lemma_pow2_unfold((54 + k) as nat);
            let p = pow2((53 + k) as nat);
            assert(d@ * (2 * p) == (d@ * p) * 2 + 0) by (nonlinear_arith);
        }
        top = top.mul_add(2, 0);
        k += 1;
        fits = match n.compare(&top) {
            Order::Less => true,
            _ => false,
        };
    }
    if k >= 2046 {
        return make(neg, HIDDEN, 2046);
    }
    let unit = d.shl(k);
    let ghost q0 = n@ / unit@;
    proof {
        lemma_pow2_pos(k as nat);
        lemma_pow2_adds(k as nat, 53);
        lemma_pow2_adds(k as nat, 64);
        lemma2_to64();
        vstd::arithmetic::power2::lemma2_to64_rest();
        let p = pow2(k as nat);
        assert(unit@ > 0) by (nonlinear_arith)
            requires
                unit@ == d@ * p,
                d@ > 0,
                p > 0,
        ;
        assert(n@ < unit@ * 0x20_0000_0000_0000) by (nonlinear_arith)
            requires
                n@ < d@ * pow2((53 + k) as nat),
                pow2((53 + k) as nat) == p * 0x20_0000_0000_0000,
                unit@ == d@ * p,
        ;
        assert(n@ < unit@ * pow2(64)) by (nonlinear_arith)
            requires
                n@ < unit@ * 0x20_0000_0000_0000,
                pow2(64) == 0x1_0000_0000_0000_0000,
        ;
        assert(q0 < 2 * HIDDEN) by (nonlinear_arith)
            requires
                n@ < unit@ * 0x20_0000_0000_0000,
                unit@ > 0,
                q0 == n@ / unit@,
        ;
        if k > 0 {
            lemma_pow2_adds(k as nat, 52);
            assert(q0 >= HIDDEN) by (nonlinear_arith)
                requires
                    n@ >= d@ * pow2((52 + k) as nat),
                    pow2((52 + k) as nat) == p * 0x10_0000_0000_0000,
                    unit@ == d@ * p,
                    unit@ > 0,
                    q0 == n@ / unit@,
            ;
        }
    }
    let quotient: Quotient = divide(n, &unit);
    let q: u64 = quotient.floor;
    let up = match quotient.half {
        Order::Less => false,
        Order::Equal => q % 2 == 1,
        Order::Greater => true,
    };
    let mant: u64 = if up {
        q + 1
    } else {
        q
    };
    if mant == 2 * HIDDEN {
        make(neg, HIDDEN, k + 1)
    } else {
        make(neg, mant, k)
    }
}

/// A number of the format is its own nearest number.
pub proof fn lemma_exact(neg: bool, mant: nat, shift: nat)
    requires
        packable(mant, shift),
        shift < 2046,
    ensures
        nearest(neg, mant * pow2(shift), 1) == pack(neg, mant, shift),
{
    reveal(nearest);
    let n = mant * pow2(shift);
    let p = pow2(shift);
    lemma_pow2_pos(shift);
    lemma2_to64();
    vstd::arithmetic::power2::lemma2_to64_rest();
    lemma_pow2_adds(shift, 53);
    assert(n < 1 * pow2(53 + shift)) by (nonlinear_arith)
        requires
            n == mant * p,
            p > 0,
            mant < 0x20_0000_0000_0000,
            pow2(53 + shift) == p * 0x20_0000_0000_0000,
    ;
    if shift > 0 {
        lemma_pow2_adds(shift, 52);
        assert(n >= 1 * pow2((52 + shift) as nat)) by (nonlinear_arith)
            requires
                n == mant * p,
                p > 0,
                mant >= 0x10_0000_0000_0000,
                pow2(52 + shift) == p * 0x10_0000_0000_0000,
        ;
    }
    lemma_scale_skip(n, 1, 0, shift);
    assert(scale_from(n, 1, 0) == shift);
    assert(1 * p == p);
    vstd::arithmetic::div_mod::lemma_fundamental_div_mod_converse(
        n as int,
        p as int,
        mant as int,
        0,
    );
}

/// One, in units of 2^-1074.
pub open spec fn one() -> nat {
    pow2(1074)
}

/// The number nearest to a whole amount.
pub open spec fn whole(neg: bool, w: nat) -> Num {
    nearest(neg, w * one(), 1)
}

/// The number nearest to a whole amount, with its sign.
pub open spec fn whole_int(w: int) -> Num {
    whole(w < 0, if w < 0 { (-w) as nat } else { w as nat })
}

/// The part of the magnitude before the point.
pub open spec fn whole_part(x: Num) -> nat {
    x.magnitude() / one()
}

/// The part of the magnitude behind the point, in units of 2^-1074.
pub open spec fn rest_part(x: Num) -> nat {
    x.magnitude() % one()
}

/// The number with its sign turned.
pub open spec fn negated(x: Num) -> Num {
    Num { bits: if x.neg() { (x.bits - SIGN) as u64 } else { (x.bits + SIGN) as u64 } }
}

/// The number without its sign.
pub open spec fn absolute(x: Num) -> Num {
    if x.neg() {
        negated(x)
    } else {
        x
    }
}

/// The sum, rounded. An exact zero is negative only where both sides are.
pub open spec fn sum(a: Num, b: Num) -> Num {
    if !a.finite() {
        a
    } else if !b.finite() {
        b
    } else {
        let t = a.amount() + b.amount();
        if t == 0 {
            pack(a.neg() && b.neg(), 0, 0)
        } else if t < 0 {
            nearest(true, (-t) as nat, 1)
        } else {
            nearest(false, t as nat, 1)
        }
    }
}

/// The difference, rounded.
pub open spec fn difference(a: Num, b: Num) -> Num {
    sum(a, negated(b))
}

/// The product, rounded.
pub open spec fn product(a: Num, b: Num) -> Num {
    if !a.finite() || !b.finite() {
        infinite(a.neg() != b.neg())
    } else {
        nearest(a.neg() != b.neg(), a.magnitude() * b.magnitude(), one())
    }
}

/// The quotient by a number other than zero, rounded.
pub open spec fn ratio(a: Num, b: Num) -> Num {
    if !a.finite() {
        infinite(a.neg() != b.neg())
    } else {
        nearest(a.neg() != b.neg(), a.magnitude() * one(), b.magnitude())
    }
}

/// The greatest whole number at or below.
pub open spec fn floor_of(x: Num) -> Num {
    if !x.finite() {
        x
    } else if x.neg() && rest_part(x) > 0 {
        whole(true, whole_part(x) + 1)
    } else {
        whole(x.neg(), whole_part(x))
    }
}

/// The least whole number at or above.
pub open spec fn ceil_of(x: Num) -> Num {
    if !x.finite() {
        x
    } else if !x.neg() && rest_part(x) > 0 {
        whole(false, whole_part(x) + 1)
    } else {
        whole(x.neg(), whole_part(x))
    }
}

/// The nearest whole number, halves away from zero.
pub open spec fn round_of(x: Num) -> Num {
    if !x.finite() {
        x
    } else if 2 * rest_part(x) >= one() {
        whole(x.neg(), whole_part(x) + 1)
    } else {
        whole(x.neg(), whole_part(x))
    }
}

proof fn lemma_split(m: nat, a: nat, b: nat)
    requires
        a > 0,
        b > 0,
    ensures
        (m * a) / (a * b) == m / b,
        (m * a) % (a * b) == (m % b) * a,
{
    let q = m / b;
    let r = m % b;
    vstd::arithmetic::div_mod::lemma_fundamental_div_mod(m as int, b as int);
    assert(m * a == q * (a * b) + r * a) by (nonlinear_arith)
        requires
            m == b * q + r,
    ;
    assert(0 <= r * a < a * b) by (nonlinear_arith)
        requires
            0 <= r < b,
            a > 0,
    ;
    vstd::arithmetic::div_mod::lemma_fundamental_div_mod_converse(
        (m * a) as int,
        (a * b) as int,
        q as int,
        (r * a) as int,
    );
}

/// A number scaled up past the point is whole.
proof fn lemma_scaled_part(x: Num)
    requires
        x.shift() >= 1074,
    ensures
        rest_part(x) == 0,
        whole_part(x) * one() == x.magnitude(),
        whole_part(x) == x.mant() * pow2((x.shift() - 1074) as nat),
        x.mant() >= HIDDEN,
{
    let e = (x.shift() - 1074) as nat;
    lemma_pow2_adds(1074, e);
    lemma_pow2_pos(1074);
    lemma_pow2_pos(e);
    let a = pow2(1074);
    let b = pow2(e);
    let w = x.mant() * b;
    assert(x.magnitude() == w * a) by (nonlinear_arith)
        requires
            x.magnitude() == x.mant() * (a * b),
            w == x.mant() * b,
    ;
    vstd::arithmetic::div_mod::lemma_fundamental_div_mod_converse(
        x.magnitude() as int,
        a as int,
        w as int,
        0,
    );
}

proof fn lemma_scaled_whole(x: Num)
    requires
        x.finite(),
        x.shift() >= 1074,
    ensures
        rest_part(x) == 0,
        whole(x.neg(), whole_part(x)) == x,
{
    lemma_scaled_part(x);
    lemma_unpack(x);
    lemma_exact(x.neg(), x.mant(), x.shift());
}

impl Num {
    pub fn is_neg(self) -> (r: bool)
        ensures
            r == self.neg(),
    {
        self.bits >= SIGN
    }

    /// Whether the number is neither an infinity nor a NaN.
    pub fn is_finite(self) -> (r: bool)
        ensures
            r == self.finite(),
    {
        (self.bits / HIDDEN) % 2048 < 2047
    }

    fn significand(self) -> (r: u64)
        ensures
            r == self.mant(),
            r < 2 * HIDDEN,
    {
        if (self.bits / HIDDEN) % 2048 == 0 {
            self.bits % HIDDEN
        } else {
            self.bits % HIDDEN + HIDDEN
        }
    }

    fn scale(self) -> (r: u32)
        ensures
            r == self.shift(),
            r <= 2046,
    {
        let field: u64 = (self.bits / HIDDEN) % 2048;
        if field == 0 {
            0
        } else {
            field as u32 - 1
        }
    }

    /// The distance from zero, in units of 2^-1074.
    pub fn units(self) -> (r: Big)
        ensures
            r@ == self.magnitude(),
    {
        Big::from_u64(self.significand()).shl(self.scale())
    }

    /// Whether the number is zero, of either sign.
    pub fn is_zero(self) -> (r: bool)
        ensures
            r == (self.magnitude() == 0),
            r == (self.amount() == 0),
    {
        let m: u64 = self.significand();
        proof {
            lemma_pow2_pos(self.shift());
            let p = pow2(self.shift());
            assert((m as nat * p == 0) == (m == 0)) by (nonlinear_arith)
                requires
                    p > 0,
            ;
        }
        m == 0
    }

    pub fn negate(self) -> (r: Num)
        ensures
            r == negated(self),
    {
        if self.bits >= SIGN {
            Num { bits: self.bits - SIGN }
        } else {
            Num { bits: self.bits + SIGN }
        }
    }

    pub fn abs(self) -> (r: Num)
        ensures
            r == absolute(self),
    {
        if self.bits >= SIGN {
            Num { bits: self.bits - SIGN }
        } else {
            self
        }
    }

    /// The number nearest to a whole amount.
    pub fn from_whole(neg: bool, w: u64) -> (r: Num)
        ensures
            r == whole(neg, w as nat),
    {
        if w == 0 {
            proof {
                lemma_pow2_pos(1074);
                lemma2_to64();
                lemma_exact(neg, 0, 0);
                assert(0 * one() == 0);
                assert(0 * pow2(0) == 0);
            }
            return make(neg, 0, 0);
        }
        if w < 2 * HIDDEN {
            let mut m: u64 = w;
            let mut k: u32 = 1074;
            while m < HIDDEN && k > 1000
                invariant
                    0 < m < 2 * HIDDEN,
                    1000 <= k <= 1074,
                    m as nat * pow2(k as nat) == w as nat * one(),
                decreases k,
            {
                proof {
                    lemma_pow2_unfold(k as nat);
                    let p = pow2((k - 1) as nat);
                    assert(m as nat * (2 * p) == (m as nat * 2) * p) by (nonlinear_arith);
                }
                m = m * 2;
                k -= 1;
            }
            if m >= HIDDEN {
                proof {
                    lemma_exact(neg, m as nat, k as nat);
                }
                return make(neg, m, k);
            }
        }
        let n = Big::from_u64(w).shl(1074);
        let d = Big::from_u64(1);
        round_ratio(neg, &n, &d)
    }

    pub fn from_u64(w: u64) -> (r: Num)
        ensures
            r == whole(false, w as nat),
            r == whole_int(w as int),
    {
        Num::from_whole(false, w)
    }

    pub fn from_i64(w: i64) -> (r: Num)
        ensures
            r == whole_int(w as int),
    {
        if w < 0 {
            Num::from_whole(true, (-(w as i128)) as u64)
        } else {
            Num::from_whole(false, w as u64)
        }
    }

    /// How two numbers compare by amount.
    pub fn order(self, other: Num) -> (r: Order)
        ensures
            r == order_of(self.amount(), other.amount()),
    {
        if self.is_zero() && other.is_zero() {
            return Order::Equal;
        }
        let a = self.is_neg();
        let b = other.is_neg();
        if a != b {
            if self.is_zero() {
                return if b {
                    Order::Greater
                } else {
                    Order::Less
                };
            }
            return if a {
                Order::Less
            } else {
                Order::Greater
            };
        }
        match self.order_magnitude(other) {
            Order::Less => if a {
                Order::Greater
            } else {
                Order::Less
            },
            Order::Equal => Order::Equal,
            Order::Greater => if a {
                Order::Less
            } else {
                Order::Greater
            },
        }
    }

    fn order_magnitude(self, other: Num) -> (r: Order)
        ensures
            r == order_of(self.magnitude() as int, other.magnitude() as int),
    {
        let m: u64 = self.significand();
        let n: u64 = other.significand();
        let s: u32 = self.scale();
        let t: u32 = other.scale();
        proof {
            lemma_pow2_pos(s as nat);
            lemma_pow2_pos(t as nat);
        }
        if s == t {
            proof {
                let p = pow2(s as nat);
                assert(m < n ==> m as nat * p < n as nat * p) by (nonlinear_arith)
                    requires
                        p > 0,
                ;
                assert(m > n ==> m as nat * p > n as nat * p) by (nonlinear_arith)
                    requires
                        p > 0,
                ;
            }
            if m < n {
                Order::Less
            } else if m == n {
                Order::Equal
            } else {
                Order::Greater
            }
        } else if s < t {
            proof {
                lemma_scale_dominates(m as nat, s as nat, n as nat, t as nat);
            }
            Order::Less
        } else {
            proof {
                lemma_scale_dominates(n as nat, t as nat, m as nat, s as nat);
            }
            Order::Greater
        }
    }

    /// The sum, rounded.
    pub fn plus(self, other: Num) -> (r: Num)
        ensures
            r == sum(self, other),
    {
        if !self.is_finite() {
            return self;
        }
        if !other.is_finite() {
            return other;
        }
        let a = self.is_neg();
        let b = other.is_neg();
        let m = self.units();
        let n = other.units();
        let d = Big::from_u64(1);
        if a == b {
            if self.is_zero() && other.is_zero() {
                return make(a, 0, 0);
            }
            return round_ratio(a, &m.plus(&n), &d);
        }
        match m.compare(&n) {
            Order::Less => round_ratio(b, &n.minus(&m), &d),
            Order::Equal => make(false, 0, 0),
            Order::Greater => round_ratio(a, &m.minus(&n), &d),
        }
    }

    /// The difference, rounded.
    pub fn minus(self, other: Num) -> (r: Num)
        ensures
            r == difference(self, other),
    {
        self.plus(other.negate())
    }

    /// The product, rounded.
    pub fn times(self, other: Num) -> (r: Num)
        ensures
            r == product(self, other),
    {
        let neg = self.is_neg() != other.is_neg();
        if !self.is_finite() || !other.is_finite() {
            return make(neg, HIDDEN, 2046);
        }
        let m: u64 = self.significand();
        let n: u64 = other.significand();
        let s: u32 = self.scale();
        let t: u32 = other.scale();
        proof {
            assert(m as nat * n as nat <= 0x20_0000_0000_0000 * 0x20_0000_0000_0000)
                by (nonlinear_arith)
                requires
                    m <= 0x20_0000_0000_0000,
                    n <= 0x20_0000_0000_0000,
            ;
        }
        let mn: u128 = (m as u128) * (n as u128);
        let top = Big::from_u128(mn).shl(s + t);
        let bottom = Big::from_u64(1).shl(1074);
        proof {
            lemma_pow2_adds(s as nat, t as nat);
            lemma_pow2_pos(1074);
            let a = pow2(s as nat);
            let b = pow2(t as nat);
            assert((m as nat * n as nat) * (a * b) == (m as nat * a) * (n as nat * b))
                by (nonlinear_arith);
            assert(1 * pow2(1074) == one());
        }
        round_ratio(neg, &top, &bottom)
    }

    /// The quotient by a number other than zero, rounded.
    pub fn over(self, other: Num) -> (r: Num)
        requires
            other.magnitude() > 0,
        ensures
            r == ratio(self, other),
    {
        let neg = self.is_neg() != other.is_neg();
        if !self.is_finite() {
            return make(neg, HIDDEN, 2046);
        }
        round_ratio(neg, &self.units().shl(1074), &other.units())
    }

    /// The whole part of a number below 2^53, and what its rest is to one half.
    fn split(self) -> (r: Quotient)
        requires
            self.shift() < 1074,
        ensures
            r.floor == whole_part(self),
            r.floor < 2 * HIDDEN,
            r.half == order_of(2 * rest_part(self) as int, one() as int),
            r.exact == (rest_part(self) == 0),
    {
        let m: u64 = self.significand();
        let s: u32 = self.scale();
        let j: u32 = 1074 - s;
        let ghost a = pow2(s as nat);
        let ghost b = pow2(j as nat);
        proof {
            lemma_pow2_pos(s as nat);
            lemma_pow2_pos(j as nat);
            lemma_pow2_adds(s as nat, j as nat);
            lemma_split(m as nat, a, b);
            let r = m as nat % b;
            assert((r * a == 0) == (r == 0)) by (nonlinear_arith)
                requires
                    a > 0,
            ;
            assert((2 * (r * a) < a * b) == (2 * r < b)) by (nonlinear_arith)
                requires
                    a > 0,
            ;
            assert((2 * (r * a) == a * b) == (2 * r == b)) by (nonlinear_arith)
                requires
                    a > 0,
            ;
        }
        if j > 54 {
            proof {
                lemma2_to64();
                vstd::arithmetic::power2::lemma2_to64_rest();
                lemma_pow2_strictly_increases(54, j as nat);
                vstd::arithmetic::div_mod::lemma_basic_div(m as int, b as int);
                vstd::arithmetic::div_mod::lemma_small_mod(m as nat, b);
            }
            return Quotient { floor: 0, half: Order::Less, exact: m == 0 };
        }
        let mut p: u64 = 1;
        let mut i: u32 = 0;
        proof {
            lemma2_to64();
        }
        while i < j
            invariant
                i <= j <= 54,
                p == pow2(i as nat),
            decreases j - i,
        {
            proof {
                lemma_pow2_unfold((i + 1) as nat);
                lemma2_to64();
                vstd::arithmetic::power2::lemma2_to64_rest();
                lemma_pow2_strictly_increases(i as nat, 54);
            }
            p = p * 2;
            i += 1;
        }
        let floor: u64 = m / p;
        let rest: u64 = m % p;
        proof {
            lemma2_to64();
            vstd::arithmetic::power2::lemma2_to64_rest();
            if j < 54 {
                lemma_pow2_strictly_increases(j as nat, 54);
            }
            vstd::arithmetic::div_mod::lemma_div_is_ordered_by_denominator(
                m as int,
                1,
                p as int,
            );
        }
        let half = if 2 * rest < p {
            Order::Less
        } else if 2 * rest == p {
            Order::Equal
        } else {
            Order::Greater
        };
        Quotient { floor, half, exact: rest == 0 }
    }

    pub fn floor(self) -> (r: Num)
        ensures
            r == floor_of(self),
    {
        if !self.is_finite() || self.scale() >= 1074 {
            proof {
                if self.finite() {
                    lemma_scaled_whole(self);
                }
            }
            return self;
        }
        let q: Quotient = self.split();
        let neg = self.is_neg();
        if neg && !q.exact {
            Num::from_whole(true, q.floor + 1)
        } else {
            Num::from_whole(neg, q.floor)
        }
    }

    pub fn ceil(self) -> (r: Num)
        ensures
            r == ceil_of(self),
    {
        if !self.is_finite() || self.scale() >= 1074 {
            proof {
                if self.finite() {
                    lemma_scaled_whole(self);
                }
            }
            return self;
        }
        let q: Quotient = self.split();
        let neg = self.is_neg();
        if !neg && !q.exact {
            Num::from_whole(false, q.floor + 1)
        } else {
            Num::from_whole(neg, q.floor)
        }
    }

    pub fn round(self) -> (r: Num)
        ensures
            r == round_of(self),
    {
        if !self.is_finite() || self.scale() >= 1074 {
            proof {
                lemma_pow2_pos(1074);
                if self.finite() {
                    lemma_scaled_whole(self);
                }
            }
            return self;
        }
        let q: Quotient = self.split();
        match q.half {
            Order::Less => Num::from_whole(self.is_neg(), q.floor),
            _ => Num::from_whole(self.is_neg(), q.floor + 1),
        }
    }

    /// Whether the number has no part behind the point.
    pub fn is_whole(self) -> (r: bool)
        ensures
            r == (rest_part(self) == 0),
    {
        if self.scale() >= 1074 {
            proof {
                lemma_scaled_part(self);
            }
            return true;
        }
        self.split().exact
    }

    /// The whole part of the magnitude, at most the greatest `u64`.
    pub fn whole_magnitude(self) -> (r: u64)
        ensures
            whole_part(self) <= u64::MAX ==> r == whole_part(self),
            whole_part(self) > u64::MAX ==> r == u64::MAX,
    {
        let s: u32 = self.scale();
        if s < 1074 {
            return self.split().floor;
        }
        proof {
            lemma_scaled_part(self);
            lemma2_to64();
            vstd::arithmetic::power2::lemma2_to64_rest();
        }
        let e: u32 = s - 1074;
        let m: u64 = self.significand();
        if e >= 12 {
            proof {
                if e > 12 {
                    lemma_pow2_strictly_increases(12, e as nat);
                }
                let p = pow2(e as nat);
                assert(m as nat * p >= 0x10_0000_0000_0000 * 0x1000) by (nonlinear_arith)
                    requires
                        m >= 0x10_0000_0000_0000,
                        p >= 0x1000,
                ;
            }
            return u64::MAX;
        }
        let mut w: u64 = m;
        let mut i: u32 = 0;
        while i < e
            invariant
                i <= e < 12,
                m < 2 * HIDDEN,
                w == m as nat * pow2(i as nat),
            decreases e - i,
        {
            proof {
                lemma_pow2_unfold((i + 1) as nat);
                lemma2_to64();
                let p = pow2(i as nat);
                if i < 10 {
                    lemma_pow2_strictly_increases(i as nat, 10);
                }
                assert(m as nat * p <= 0x1f_ffff_ffff_ffff * 1024) by (nonlinear_arith)
                    requires
                        m <= 0x1f_ffff_ffff_ffff,
                        p <= 1024,
                ;
                assert(m as nat * (2 * p) == (m as nat * p) * 2) by (nonlinear_arith);
            }
            w = w * 2;
            i += 1;
        }
        w
    }
}

proof fn lemma_scale_dominates(m: nat, s: nat, n: nat, t: nat)
    requires
        s < t,
        m < 2 * HIDDEN,
        n >= HIDDEN,
    ensures
        m * pow2(s) < n * pow2(t),
{
    lemma_pow2_pos(s);
    lemma_pow2_pos(t);
    lemma_pow2_unfold(t);
    if s + 1 < t {
        lemma_pow2_strictly_increases(s, (t - 1) as nat);
    }
    let a = pow2(s);
    let b = pow2(t);
    assert(m * a < n * b) by (nonlinear_arith)
        requires
            m < 2 * n,
            2 * a <= b,
            a > 0,
            n > 0,
    ;
}

/// The whole amount toward zero as an `i64`, the nearest one there is where it
/// is out of range.
pub open spec fn clamped(x: Num) -> int {
    let w = whole_part(x) as int;
    if x.neg() {
        if w > 0x8000_0000_0000_0000 {
            -0x8000_0000_0000_0000
        } else {
            -w
        }
    } else if w > 0x7fff_ffff_ffff_ffff {
        0x7fff_ffff_ffff_ffff
    } else {
        w
    }
}

impl Num {
    /// The whole amount toward zero, clamped to the range of `i64`.
    pub fn to_i64(self) -> (r: i64)
        ensures
            r == clamped(self),
    {
        let w: u64 = self.whole_magnitude();
        if self.is_neg() {
            if w >= SIGN {
                i64::MIN
            } else {
                -(w as i64)
            }
        } else if w >= SIGN {
            i64::MAX
        } else {
            w as i64
        }
    }

    /// The whole amount toward zero, clamped to the range of `usize`.
    pub fn to_usize(self) -> (r: usize)
        ensures
            self.neg() ==> r == 0,
            !self.neg() && whole_part(self) <= usize::MAX ==> r == whole_part(self),
            !self.neg() && whole_part(self) > usize::MAX ==> r == usize::MAX,
    {
        if self.is_neg() {
            return 0;
        }
        let w: u64 = self.whole_magnitude();
        if w > usize::MAX as u64 {
            usize::MAX
        } else {
            w as usize
        }
    }
}

/// Whole amounts below 2^53 are held exactly.
pub proof fn lemma_whole_exact(neg: bool, w: nat)
    requires
        w < 2 * HIDDEN,
    ensures
        whole(neg, w).finite(),
        whole(neg, w).neg() == neg,
        whole(neg, w).magnitude() == w * one(),
        w > 0 ==> whole(neg, w).magnitude() > 0,
{
    lemma_pow2_pos(1074);
    lemma2_to64();
    if w == 0 {
        lemma_exact(neg, 0, 0);
        lemma_pack(neg, 0, 0);
        assert(0 * one() == 0);
        assert(0 * pow2(0) == 0);
    } else {
        lemma_normalise(neg, w, w, 1074);
        let u = one();
        assert(w * u > 0) by (nonlinear_arith)
            requires
                w > 0,
                u > 0,
        ;
    }
}

proof fn lemma_normalise(neg: bool, w: nat, m: nat, k: nat)
    requires
        0 < m < 2 * HIDDEN,
        m * pow2(k) == w * one(),
        k <= 1074,
        m >= pow2((1074 - k) as nat),
    ensures
        whole(neg, w).finite(),
        whole(neg, w).neg() == neg,
        whole(neg, w).magnitude() == w * one(),
    decreases 2 * HIDDEN - m,
{
    if m >= HIDDEN {
        lemma_exact(neg, m, k);
        lemma_pack(neg, m, k);
    } else {
        lemma2_to64();
        vstd::arithmetic::power2::lemma2_to64_rest();
        if k < 1022 {
            lemma_pow2_strictly_increases(52, (1074 - k) as nat);
        }
        lemma_pow2_unfold(k);
        let p = pow2((k - 1) as nat);
        assert(m * (2 * p) == (2 * m) * p) by (nonlinear_arith);
        lemma_pow2_unfold((1074 - (k - 1)) as nat);
        lemma_normalise(neg, w, 2 * m, (k - 1) as nat);
    }
}

/// Turning the sign leaves the rest of a number as it is.
pub proof fn lemma_negated(x: Num)
    ensures
        negated(x).neg() == !x.neg(),
        negated(x).finite() == x.finite(),
        negated(x).magnitude() == x.magnitude(),
{
    assert(negated(x).bits / HIDDEN % 2048 == x.bits / HIDDEN % 2048);
    assert(negated(x).bits % HIDDEN == x.bits % HIDDEN);
}

/// What a whole amount below 2^53 is as a number.
pub proof fn lemma_whole_parts(n: int)
    requires
        -(2 * HIDDEN) < n < 2 * HIDDEN,
    ensures
        whole_int(n).finite(),
        whole_int(n).neg() == (n < 0),
        whole_int(n).amount() == n * one(),
        whole_part(whole_int(n)) == (if n < 0 { -n } else { n }),
        rest_part(whole_int(n)) == 0,
        clamped(whole_int(n)) == n,
        floor_of(whole_int(n)) == whole_int(n),
        whole_int(0) == pack(false, 0, 0),
{
    let w: nat = if n < 0 { (-n) as nat } else { n as nat };
    lemma_whole_exact(n < 0, w);
    lemma_pow2_pos(1074);
    let u = one();
    vstd::arithmetic::div_mod::lemma_fundamental_div_mod_converse((w * u) as int, u as int, w as int, 0);
    assert(-((w * u) as int) == (-w) * u) by (nonlinear_arith);
    lemma2_to64();
    lemma_exact(false, 0, 0);
    assert(0 * one() == 0);
    assert(0 * pow2(0) == 0);
}

/// Sums of whole amounts below 2^53 are exact.
pub proof fn lemma_sum_exact(a: int, b: int)
    requires
        -(2 * HIDDEN) < a < 2 * HIDDEN,
        -(2 * HIDDEN) < b < 2 * HIDDEN,
        -(2 * HIDDEN) < a + b < 2 * HIDDEN,
    ensures
        sum(whole_int(a), whole_int(b)) == whole_int(a + b),
{
    lemma_whole_parts(a);
    lemma_whole_parts(b);
    lemma_whole_parts(a + b);
    lemma_pow2_pos(1074);
    let u = one() as int;
    assert(a * u + b * u == (a + b) * u) by (nonlinear_arith);
    let t = (a + b) * u;
    assert((t == 0) == (a + b == 0)) by (nonlinear_arith)
        requires
            t == (a + b) * u,
            u > 0,
    ;
    assert((t < 0) == (a + b < 0)) by (nonlinear_arith)
        requires
            t == (a + b) * u,
            u > 0,
    ;
    assert(-t == (-(a + b)) * u) by (nonlinear_arith)
        requires
            t == (a + b) * u,
    ;
}

/// Differences of whole amounts below 2^53 are exact.
pub proof fn lemma_difference_exact(a: int, b: int)
    requires
        -(2 * HIDDEN) < a < 2 * HIDDEN,
        -(2 * HIDDEN) < b < 2 * HIDDEN,
        -(2 * HIDDEN) < a - b < 2 * HIDDEN,
    ensures
        difference(whole_int(a), whole_int(b)) == whole_int(a - b),
{
    lemma_whole_parts(a);
    lemma_whole_parts(b);
    lemma_whole_parts(-b);
    lemma_negated(whole_int(b));
    lemma_sum_exact(a, -b);
    let u = one() as int;
    assert((-b) * u == -(b * u)) by (nonlinear_arith);
    if a == b {
        lemma_no_difference(whole_int(a));
        lemma_whole_parts(0);
    }
}

/// Nothing remains of a number less itself.
pub proof fn lemma_no_difference(x: Num)
    requires
        x.finite(),
    ensures
        difference(x, x) == pack(false, 0, 0),
{
    lemma_negated(x);
}

/// Zero times anything finite rounds to zero.
pub proof fn lemma_zero_product(neg: bool, y: Num)
    requires
        y.finite(),
    ensures
        clamped(round_of(product(pack(neg, 0, 0), y))) == 0,
{
    let z = pack(neg, 0, 0);
    lemma_pack(neg, 0, 0);
    lemma2_to64();
    assert(0 * pow2(0) == 0);
    assert(0 * y.magnitude() == 0);
    let s = neg != y.neg();
    lemma_pow2_pos(1074);
    lemma_nearest_zero(s, one());
    let p = pack(s, 0, 0);
    assert(product(z, y) == p);
    lemma_pack(s, 0, 0);
    let u = one();
    vstd::arithmetic::div_mod::lemma_basic_div(0, u as int);
    vstd::arithmetic::div_mod::lemma_small_mod(0, u);
    lemma_whole_exact(s, 0);
    assert(0 * u == 0);
}

pub proof fn lemma_nearest_zero(neg: bool, d: nat)
    requires
        d > 0,
    ensures
        nearest(neg, 0, d) == pack(neg, 0, 0),
{
    reveal(nearest);
    lemma_pow2_pos(53);
    lemma2_to64();
    let p = pow2(53);
    assert(0 < d * p) by (nonlinear_arith)
        requires
            d > 0,
            p > 0,
    ;
    assert(scale_from(0, d, 0) == 0);
    assert(d * 1 == d);
    vstd::arithmetic::div_mod::lemma_basic_div(0, d as int);
    vstd::arithmetic::div_mod::lemma_small_mod(0, d);
}

/// The scale of a ratio is the least one that fits.
pub proof fn lemma_scale_least(n: nat, d: nat, from: nat)
    requires
        from <= 2046,
    ensures
        from <= scale_from(n, d, from) <= 2046,
        scale_from(n, d, from) > from ==> n >= d * pow2((52 + scale_from(n, d, from)) as nat),
        scale_from(n, d, from) < 2046 ==> n < d * pow2(53 + scale_from(n, d, from)),
    decreases 2046 - from,
{
    if !(from >= 2046 || n < d * pow2(53 + from)) {
        lemma_scale_least(n, d, from + 1);
    }
}

/// What is not zero does not round to zero where it is a whole number of units.
pub proof fn lemma_nearest_positive(neg: bool, n: nat)
    requires
        n > 0,
    ensures
        nearest(neg, n, 1).magnitude() > 0,
{
    reveal(nearest);
    lemma_scale_least(n, 1, 0);
    let k = scale_from(n, 1, 0);
    lemma2_to64();
    vstd::arithmetic::power2::lemma2_to64_rest();
    if k >= 2046 {
        lemma_pack(neg, HIDDEN as nat, 2046);
        lemma_pow2_pos(2046);
        assert(HIDDEN as nat * pow2(2046) > 0) by (nonlinear_arith)
            requires
                pow2(2046) > 0,
        ;
    } else {
        let p = pow2(k);
        lemma_pow2_pos(k);
        assert(1 * p == p);
        lemma_pow2_adds(k, 53);
        let q = n / p;
        vstd::arithmetic::div_mod::lemma_fundamental_div_mod(n as int, p as int);
        assert(q < 2 * HIDDEN) by (nonlinear_arith)
            requires
                n < 1 * (p * 0x20_0000_0000_0000),
                n == p * q + n % p,
                n % p >= 0,
                p > 0,
        ;
        if k > 0 {
            lemma_pow2_adds(k, 52);
            assert(q >= HIDDEN) by (nonlinear_arith)
                requires
                    n >= 1 * (p * 0x10_0000_0000_0000),
                    n == p * q + n % p,
                    n % p < p,
                    p > 0,
            ;
        } else {
            assert(q == n) by (nonlinear_arith)
                requires
                    n == p * q + n % p,
                    0 <= n % p < p,
                    p == 1,
            ;
        }
        let r = n % p;
        let mant: nat = if 2 * r > p || (2 * r == p && q % 2 == 1) {
            q + 1
        } else {
            q
        };
        assert(mant > 0);
        if mant == 2 * HIDDEN {
            lemma_pack(neg, HIDDEN as nat, k + 1);
            lemma_pow2_pos(k + 1);
            assert(HIDDEN as nat * pow2(k + 1) > 0) by (nonlinear_arith)
                requires
                    pow2(k + 1) > 0,
            ;
        } else {
            lemma_pack(neg, mant, k);
            assert(mant * p > 0) by (nonlinear_arith)
                requires
                    mant > 0,
                    p > 0,
            ;
        }
    }
}

/// A count other than zero is a number other than zero.
pub proof fn lemma_count_positive(w: nat)
    requires
        w > 0,
    ensures
        whole(false, w).magnitude() > 0,
{
    lemma_pow2_pos(1074);
    assert(w * one() > 0) by (nonlinear_arith)
        requires
            w > 0,
            one() > 0,
    ;
    lemma_nearest_positive(false, w * one());
}

/// A number is rounded to a multiple of its scale that is at most half a step
/// off.
pub proof fn lemma_nearest_rounds(neg: bool, n: nat, d: nat) -> (m: nat)
    requires
        d > 0,
        scale_from(n, d, 0) < 2046,
    ensures
        nearest(neg, n, d).neg() == neg,
        scale_from(n, d, 0) < 2045 ==> nearest(neg, n, d).finite(),
        nearest(neg, n, d).magnitude() == m * pow2(scale_from(n, d, 0)),
        -(d * pow2(scale_from(n, d, 0))) <= 2 * (n - m * (d * pow2(scale_from(n, d, 0)))) <= d
            * pow2(scale_from(n, d, 0)),
        2 * (n - m * (d * pow2(scale_from(n, d, 0)))) == d * pow2(scale_from(n, d, 0)) || 2 * (m * (d
            * pow2(scale_from(n, d, 0))) - n) == d * pow2(scale_from(n, d, 0)) ==> nearest(
            neg,
            n,
            d,
        ).mant() % 2 == 0,
        m <= 2 * HIDDEN,
        nearest(neg, n, d).finite() == (scale_from(n, d, 0) < 2045 || m < 2 * HIDDEN),
        !nearest(neg, n, d).finite() ==> nearest(neg, n, d) == infinite(neg),
{
    reveal(nearest);
    lemma_scale_least(n, d, 0);
    let k = scale_from(n, d, 0);
    let p = pow2(k);
    lemma_pow2_pos(k);
    lemma2_to64();
    vstd::arithmetic::power2::lemma2_to64_rest();
    let unit = d * p;
    assert(unit > 0) by (nonlinear_arith)
        requires
            d > 0,
            p > 0,
            unit == d * p,
    ;
    let q = n / unit;
    let r = n % unit;
    vstd::arithmetic::div_mod::lemma_fundamental_div_mod(n as int, unit as int);
    assert(unit * q == q * unit) by (nonlinear_arith);
    lemma_pow2_adds(k, 53);
    assert(d * pow2(53 + k) == unit * 0x20_0000_0000_0000) by (nonlinear_arith)
        requires
            pow2(53 + k) == p * 0x20_0000_0000_0000,
            unit == d * p,
    ;
    assert(q < 2 * HIDDEN) by (nonlinear_arith)
        requires
            n < unit * 0x20_0000_0000_0000,
            n == unit * q + r,
            r >= 0,
            unit > 0,
    ;
    if k > 0 {
        lemma_pow2_adds(k, 52);
        assert(d * pow2((52 + k) as nat) == unit * 0x10_0000_0000_0000) by (nonlinear_arith)
            requires
                pow2(52 + k) == p * 0x10_0000_0000_0000,
                unit == d * p,
        ;
        assert(q >= HIDDEN) by (nonlinear_arith)
            requires
                n >= unit * 0x10_0000_0000_0000,
                n == unit * q + r,
                r < unit,
                unit > 0,
        ;
    }
    let m: nat = if 2 * r > unit || (2 * r == unit && q % 2 == 1) {
        q + 1
    } else {
        q
    };
    assert((q + 1) * unit == q * unit + unit) by (nonlinear_arith);
    if m == 2 * HIDDEN {
        lemma_pack(neg, HIDDEN as nat, k + 1);
        lemma_pow2_adds(k, 1);
        assert(HIDDEN as nat * (p * 2) == 2 * HIDDEN * p) by (nonlinear_arith);
    } else {
        lemma_pack(neg, m, k);
    }
    m
}

/// A ratio rounds to `m * 2^k` where it is less than half a unit off, and both
/// that and the ratio are of the scale.
proof fn lemma_rounds_to(neg: bool, n: nat, d: nat, m: nat, k: nat)
    requires
        d > 0,
        k < 2046,
        scale_from(n, d, 0) == k,
        2 * n < 2 * (m * (d * pow2(k))) + d * pow2(k),
        2 * n + d * pow2(k) > 2 * (m * (d * pow2(k))),
        m <= 2 * HIDDEN,
    ensures
        nearest(neg, n, d) == (if m == 2 * HIDDEN {
            pack(neg, HIDDEN as nat, k + 1)
        } else {
            pack(neg, m, k)
        }),
{
    reveal(nearest);
    let unit = d * pow2(k);
    lemma_pow2_pos(k);
    assert(unit > 0) by (nonlinear_arith)
        requires
            d > 0,
            pow2(k) > 0,
            unit == d * pow2(k),
    ;
    let t = n - m * unit;
    assert(unit * m == m * unit) by (nonlinear_arith);
    if t >= 0 {
        vstd::arithmetic::div_mod::lemma_fundamental_div_mod_converse(
            n as int,
            unit as int,
            m as int,
            t,
        );
    } else {
        assert(unit * (m - 1) == m * unit - unit) by (nonlinear_arith);
        vstd::arithmetic::div_mod::lemma_fundamental_div_mod_converse(
            n as int,
            unit as int,
            m - 1,
            unit + t,
        );
        if m == 0 {
            assert(m * unit == 0) by (nonlinear_arith)
                requires
                    m == 0,
            ;
        }
    }
}

/// A ratio rounds to a number where it is off by less than its 2^54th part.
pub proof fn lemma_rounds_near(x: Num, n: nat, d: nat)
    requires
        x.finite(),
        x.magnitude() > 0,
        d > 0,
        0x40_0000_0000_0000 * (n - x.magnitude() * d) < x.magnitude() * d,
        0x40_0000_0000_0000 * (x.magnitude() * d - n) < x.magnitude() * d,
    ensures
        nearest(x.neg(), n, d) == x,
{
    lemma_unpack(x);
    lemma2_to64();
    vstd::arithmetic::power2::lemma2_to64_rest();
    let m = x.mant();
    let s = x.shift();
    let p = pow2(s);
    let unit = d * p;
    let whole = x.magnitude() * d;
    lemma_pow2_pos(s);
    assert(whole == m * unit) by (nonlinear_arith)
        requires
            whole == (m * p) * d,
            unit == d * p,
    ;
    assert(unit > 0) by (nonlinear_arith)
        requires
            d > 0,
            p > 0,
            unit == d * p,
    ;
    assert(whole < 0x20_0000_0000_0000 * unit) by (nonlinear_arith)
        requires
            whole == m * unit,
            m < 0x20_0000_0000_0000,
            unit > 0,
    ;
    // Off by less than half a unit.
    assert(2 * (n - whole) < unit && 2 * (whole - n) < unit);
    lemma_pow2_adds(s, 53);
    assert(d * pow2(53 + s) == 0x20_0000_0000_0000 * unit) by (nonlinear_arith)
        requires
            pow2(53 + s) == p * 0x20_0000_0000_0000,
            unit == d * p,
    ;
    assert(whole <= 0x1f_ffff_ffff_ffff * unit) by (nonlinear_arith)
        requires
            whole == m * unit,
            m <= 0x1f_ffff_ffff_ffff,
            unit > 0,
    ;
    if s > 0 && m == HIDDEN && n < whole {
        // The units below are half as large.
        let k = (s - 1) as nat;
        let half = d * pow2(k);
        lemma_pow2_unfold(s);
        assert(unit == 2 * half) by (nonlinear_arith)
            requires
                p == 2 * pow2(k),
                unit == d * p,
                half == d * pow2(k),
        ;
        assert(whole == 0x20_0000_0000_0000 * half);
        assert(2 * (whole - n) < half);
        lemma_pow2_adds(k, 53);
        assert(d * pow2(53 + k) == 0x20_0000_0000_0000 * half) by (nonlinear_arith)
            requires
                pow2(53 + k) == pow2(k) * 0x20_0000_0000_0000,
                half == d * pow2(k),
        ;
        if k > 0 {
            lemma_pow2_adds(k, 52);
            assert(d * pow2((52 + k) as nat) == 0x10_0000_0000_0000 * half) by (nonlinear_arith)
                requires
                    pow2(52 + k) == pow2(k) * 0x10_0000_0000_0000,
                    half == d * pow2(k),
            ;
        }
        lemma_scale_skip(n, d, 0, k);
        lemma_rounds_to(x.neg(), n, d, 2 * HIDDEN as nat, k);
    } else {
        if s > 0 {
            lemma_pow2_adds(s, 52);
            assert(d * pow2((52 + s) as nat) == 0x10_0000_0000_0000 * unit) by (nonlinear_arith)
                requires
                    pow2(52 + s) == p * 0x10_0000_0000_0000,
                    unit == d * p,
            ;
            if m > HIDDEN {
                assert(whole >= 0x10_0000_0000_0001 * unit) by (nonlinear_arith)
                    requires
                        whole == m * unit,
                        m >= 0x10_0000_0000_0001,
                        unit > 0,
                ;
            }
        }
        lemma_scale_skip(n, d, 0, s);
        lemma_rounds_to(x.neg(), n, d, m, s);
    }
}

/// A ratio rounds as it does with both sides scaled.
pub proof fn lemma_nearest_scales(neg: bool, n: nat, d: nat, c: nat)
    requires
        d > 0,
        c > 0,
    ensures
        nearest(neg, n * c, d * c) == nearest(neg, n, d),
{
    reveal(nearest);
    lemma_scale_scales(n, d, c, 0);
    lemma_scale_least(n, d, 0);
    let k = scale_from(n, d, 0);
    let p = pow2(k);
    lemma_pow2_pos(k);
    let unit = d * p;
    assert(unit > 0) by (nonlinear_arith)
        requires
            d > 0,
            p > 0,
            unit == d * p,
    ;
    assert((d * c) * p == unit * c) by (nonlinear_arith)
        requires
            unit == d * p,
    ;
    let q = n / unit;
    let r = n % unit;
    vstd::arithmetic::div_mod::lemma_fundamental_div_mod(n as int, unit as int);
    assert(n * c == (unit * c) * q + r * c && 0 <= r * c < unit * c) by (nonlinear_arith)
        requires
            n == unit * q + r,
            0 <= r < unit,
            c > 0,
    ;
    vstd::arithmetic::div_mod::lemma_fundamental_div_mod_converse(
        (n * c) as int,
        (unit * c) as int,
        q as int,
        (r * c) as int,
    );
    assert(2 * (r * c) > unit * c <==> 2 * r > unit) by (nonlinear_arith)
        requires
            c > 0,
    ;
    assert(2 * (r * c) == unit * c <==> 2 * r == unit) by (nonlinear_arith)
        requires
            c > 0,
    ;
}

proof fn lemma_scale_scales(n: nat, d: nat, c: nat, k: nat)
    requires
        c > 0,
        k <= 2046,
    ensures
        scale_from(n * c, d * c, k) == scale_from(n, d, k),
    decreases 2046 - k,
{
    let p = pow2(53 + k);
    assert(n * c < (d * c) * p <==> n < d * p) by (nonlinear_arith)
        requires
            c > 0,
    ;
    if k < 2046 && n >= d * p {
        lemma_scale_scales(n, d, c, k + 1);
    }
}

proof fn lemma_scale_at_most(n: nat, d: nat, k: nat, t: nat)
    requires
        k <= t <= 2046,
        n < d * pow2(53 + t),
    ensures
        scale_from(n, d, k) <= t,
    decreases t - k,
{
    if k < t {
        lemma_scale_at_most(n, d, k + 1, t);
    }
}

/// The whole number at or below a quotient, by the quotient of the magnitudes.
proof fn lemma_floor_of_quotient(n: int, w: int)
    requires
        0 < w,
    ensures
        n >= 0 ==> n / w >= 0 && n / w <= n,
        n < 0 && (-n) % w == 0 ==> n / w == -((-n) / w),
        n < 0 && (-n) % w != 0 ==> n / w == -((-n) / w + 1),
        n < 0 ==> n <= n / w < 0,
{
    let a = if n < 0 {
        -n
    } else {
        n
    };
    let q = a / w;
    let r = a % w;
    vstd::arithmetic::div_mod::lemma_fundamental_div_mod(a, w);
    assert(0 <= q <= a) by (nonlinear_arith)
        requires
            a == w * q + r,
            0 <= r < w,
            a >= 0,
            w > 0,
    ;
    if n < 0 {
        if r == 0 {
            assert(n == w * (-q)) by (nonlinear_arith)
                requires
                    -n == w * q,
            ;
            vstd::arithmetic::div_mod::lemma_fundamental_div_mod_converse(n, w, -q, 0);
            assert(q > 0) by (nonlinear_arith)
                requires
                    a == w * q,
                    a > 0,
                    w > 0,
            ;
        } else {
            assert(n == w * (-(q + 1)) + (w - r)) by (nonlinear_arith)
                requires
                    -n == w * q + r,
            ;
            vstd::arithmetic::div_mod::lemma_fundamental_div_mod_converse(n, w, -(q + 1), w - r);
            assert(q + 1 <= a) by (nonlinear_arith)
                requires
                    a == w * q + r,
                    r >= 1,
                    q >= 0,
                    w > 0,
            ;
        }
    }
}

/// A difference of multiples of a power of two is at least that power.
proof fn lemma_step(a: int, b: int, p: int, g: int)
    requires
        p > 0,
        g == a * p - b * p,
        g > 0,
    ensures
        g >= p,
{
    assert(g >= p) by (nonlinear_arith)
        requires
            p > 0,
            g == a * p - b * p,
            g > 0,
    ;
}

/// The quotient of a number below 2^53 by a whole one, once rounded, stands between
/// the same whole numbers as the exact one: it falls on neither unless that does,
/// but for one next to zero.
#[verifier::rlimit(50)]
proof fn lemma_quotient_stays_between(x: Num, w: nat)
    requires
        x.finite(),
        x.magnitude() < 2 * HIDDEN * one(),
        0 < w < 2 * HIDDEN,
    ensures
        ({
            let y = nearest(x.neg(), x.magnitude(), w);
            let q = x.magnitude() / (w * one());
            let r = x.magnitude() % (w * one());
            &&& y.finite()
            &&& y.neg() == x.neg()
            &&& q * one() <= y.magnitude() < (q + 1) * one()
            &&& r == 0 ==> y.magnitude() == q * one()
            &&& r > 0 && y.magnitude() == q * one() ==> q == 0 && x.magnitude() < one()
        }),
{
    let neg = x.neg();
    let n = x.magnitude();
    lemma_unpack(x);
    lemma_pow2_pos(1074);
    lemma2_to64();
    vstd::arithmetic::power2::lemma2_to64_rest();
    lemma_pow2_adds(53, 1074);
    assert(n < w * pow2(53 + 1074)) by (nonlinear_arith)
        requires
            n < 0x20_0000_0000_0000 * one(),
            w >= 1,
            pow2(53 + 1074) == 0x20_0000_0000_0000 * one(),
            one() > 0,
    ;
    lemma_scale_at_most(n, w, 0, 1074);
    lemma_scale_least(n, w, 0);
    let s = scale_from(n, w, 0);
    let m = lemma_nearest_rounds(neg, n, w);
    let p = pow2(s);
    let t = pow2((1074 - s) as nat);
    lemma_pow2_pos(s);
    lemma_pow2_pos((1074 - s) as nat);
    lemma_pow2_adds((1074 - s) as nat, s);
    assert(one() == t * p);
    let d = w * one();
    assert(d > 0) by (nonlinear_arith)
        requires
            w > 0,
            one() > 0,
            d == w * one(),
    ;
    let q = n / d;
    let r = n % d;
    vstd::arithmetic::div_mod::lemma_fundamental_div_mod(n as int, d as int);
    let unit = w * p;
    assert(unit > 0) by (nonlinear_arith)
        requires
            w > 0,
            p > 0,
            unit == w * p,
    ;
    assert(d == t * unit) by (nonlinear_arith)
        requires
            d == w * (t * p),
            unit == w * p,
    ;
    assert(n == (q * t) * unit + r) by (nonlinear_arith)
        requires
            n == d * q + r,
            d == t * unit,
    ;
    assert(m >= q * t) by (nonlinear_arith)
        requires
            n == (q * t) * unit + r,
            r >= 0,
            2 * (n - m * unit) <= unit,
            unit > 0,
    ;
    if r == 0 {
        assert(m <= q * t) by (nonlinear_arith)
            requires
                n == (q * t) * unit + r,
                r == 0,
                -unit <= 2 * (n - m * unit),
                unit > 0,
        ;
    }
    assert((q + 1) * t == q * t + t) by (nonlinear_arith);
    if s == 0 {
        assert(unit == w) by (nonlinear_arith)
            requires
                unit == w * p,
                p == 1,
        ;
        lemma_small_quotient(n, w, m, q, t);
    } else {
        lemma_large_quotient(x, w, s);
        let z = pow2(x.shift());
        lemma_pow2_pos(x.shift());
        let e = (1074 - x.shift()) as nat;
        lemma_pow2_adds(e, x.shift());
        let c = pow2(e);
        assert(one() == c * z);
        assert(n == x.mant() * z);
        if r > 0 {
            assert(d * q == (q * w * c) * z) by (nonlinear_arith)
                requires
                    d == w * (c * z),
            ;
            lemma_step(x.mant() as int, (q * w * c) as int, z as int, r as int);
            assert(m != q * t) by (nonlinear_arith)
                requires
                    n == (q * t) * unit + r,
                    2 * (n - m * unit) <= unit,
                    r >= z,
                    unit < 2 * z,
            ;
        }
        let g = d - r;
        assert(g == ((q + 1) * w * c) * z - x.mant() * z) by (nonlinear_arith)
            requires
                g == d - r,
                d == w * (c * z),
                x.mant() * z == d * q + r,
        ;
        lemma_step(((q + 1) * w * c) as int, x.mant() as int, z as int, g);
        assert(m < q * t + t) by (nonlinear_arith)
            requires
                n == (q * t) * unit + r,
                g == t * unit - r,
                -unit <= 2 * (n - m * unit),
                g >= z,
                unit < 2 * z,
                unit > 0,
        ;
    }
    assert(q * one() == (q * t) * p) by (nonlinear_arith)
        requires
            one() == t * p,
    ;
    assert((q + 1) * one() == (q * t + t) * p) by (nonlinear_arith)
        requires
            one() == t * p,
    ;
    assert((q * t) * p <= m * p < (q * t + t) * p) by (nonlinear_arith)
        requires
            q * t <= m < q * t + t,
            p > 0,
    ;
    if r > 0 && m > q * t {
        assert((q * t) * p < m * p) by (nonlinear_arith)
            requires
                q * t < m,
                p > 0,
        ;
    }
}

/// A quotient of the least scale is far below one.
proof fn lemma_small_quotient(n: nat, w: nat, m: nat, q: nat, t: nat)
    requires
        0 < w < 2 * HIDDEN,
        scale_from(n, w, 0) == 0,
        t == one(),
        q == n / (w * one()),
        -w <= 2 * (n - m * w) <= w,
    ensures
        q == 0,
        m < t,
        n < one(),
{
    lemma_pow2_pos(1074);
    lemma2_to64();
    vstd::arithmetic::power2::lemma2_to64_rest();
    lemma_scale_least(n, w, 0);
    lemma_pow2_adds(53, 53);
    lemma_pow2_strictly_increases(106, 1074);
    assert(n < w * 0x20_0000_0000_0000);
    assert(n < one()) by (nonlinear_arith)
        requires
            n < w * 0x20_0000_0000_0000,
            w < 0x20_0000_0000_0000,
            pow2(106) == 0x20_0000_0000_0000 * 0x20_0000_0000_0000,
            pow2(106) < one(),
    ;
    let d = w * one();
    assert(n < d) by (nonlinear_arith)
        requires
            n < one(),
            w >= 1,
            d == w * one(),
    ;
    vstd::arithmetic::div_mod::lemma_basic_div(n as int, d as int);
    assert(m < t) by (nonlinear_arith)
        requires
            n < w * 0x20_0000_0000_0000,
            -w <= 2 * (n - m * w),
            w > 0,
            t > 0x20_0000_0000_0000 * 0x20_0000_0000_0000,
    ;
}

/// The step of a rounded quotient, times the divisor, is less than two steps of the
/// number that is divided, which has its steps below one.
proof fn lemma_large_quotient(x: Num, w: nat, s: nat)
    requires
        x.finite(),
        x.magnitude() < 2 * HIDDEN * one(),
        w > 0,
        s == scale_from(x.magnitude(), w, 0),
        0 < s <= 1074,
    ensures
        w * pow2(s) < 2 * pow2(x.shift()),
        x.shift() <= 1074,
{
    let n = x.magnitude();
    let k = x.shift();
    lemma_unpack(x);
    lemma2_to64();
    vstd::arithmetic::power2::lemma2_to64_rest();
    lemma_scale_least(n, w, 0);
    lemma_pow2_pos(s);
    lemma_pow2_pos(k);
    lemma_pow2_adds(52, s);
    let p = pow2(s);
    let z = pow2(k);
    assert(w * p < 2 * z) by (nonlinear_arith)
        requires
            x.mant() * z >= w * (0x10_0000_0000_0000 * p),
            x.mant() < 0x20_0000_0000_0000,
            z > 0,
    ;
    if k > 1074 {
        lemma_pow2_unfold(k);
        if k > 1075 {
            lemma_pow2_strictly_increases(1075, k);
        }
        lemma_pow2_unfold(1075);
        assert(x.mant() * z >= 2 * 0x10_0000_0000_0000 * one()) by (nonlinear_arith)
            requires
                x.mant() >= 0x10_0000_0000_0000,
                z >= 2 * one(),
                one() >= 0,
        ;
    }
}

/// Rounding a number down to a multiple of a whole one, in the arithmetic of the
/// format: the result is the number nearest to that multiple, and below zero the
/// negative zero where the quotient is that.
#[verifier::rlimit(50)]
pub proof fn lemma_rounded_down(x: Num, w: int)
    requires
        x.finite(),
        x.magnitude() < 2 * HIDDEN * one(),
        0 < w < 2 * HIDDEN,
    ensures
        product(floor_of(ratio(x, whole_int(w))), whole_int(w)) == (if x.neg() && ratio(
            x,
            whole_int(w),
        ).magnitude() == 0 {
            whole(true, 0)
        } else {
            whole_int(x.amount() / (w * one()) * w)
        }),
        x.neg() && x.magnitude() >= one() ==> ratio(x, whole_int(w)).magnitude() > 0,
{
    let u = one();
    let neg = x.neg();
    let n = x.magnitude();
    let v = w as nat;
    lemma_pow2_pos(1074);
    lemma_whole_exact(false, v);
    lemma_nearest_scales(neg, n, v, u);
    let y = ratio(x, whole_int(w));
    assert(y == nearest(neg, n, v));
    lemma_quotient_stays_between(x, v);
    let d = v * u;
    assert(d > 0) by (nonlinear_arith)
        requires
            v > 0,
            u > 0,
            d == v * u,
    ;
    let q = n / d;
    let r = n % d;
    vstd::arithmetic::div_mod::lemma_fundamental_div_mod(n as int, d as int);
    lemma_floor_of_quotient(x.amount(), d as int);
    assert(q < 2 * HIDDEN) by (nonlinear_arith)
        requires
            n == d * q + r,
            r >= 0,
            n < 2 * HIDDEN * u,
            d == v * u,
            v >= 1,
            u > 0,
    ;
    assert((q + 1) * u == q * u + u) by (nonlinear_arith);
    assert(u * q == q * u) by (nonlinear_arith);
    vstd::arithmetic::div_mod::lemma_fundamental_div_mod_converse(
        y.magnitude() as int,
        u as int,
        q as int,
        y.magnitude() - q * u,
    );
    assert(whole_part(y) == q);
    let f: nat = if neg && rest_part(y) > 0 {
        q + 1
    } else {
        q
    };
    assert(floor_of(y) == whole(neg, f));
    if n >= u && q == 0 {
        assert(d * q == 0) by (nonlinear_arith)
            requires
                q == 0,
        ;
        assert(r > 0);
    }
    if q > 0 {
        assert(q * u > 0) by (nonlinear_arith)
            requires
                q > 0,
                u > 0,
        ;
    }
    if q == 0 {
        assert(q * u == 0) by (nonlinear_arith)
            requires
                q == 0,
        ;
    }
    lemma_whole_below(neg, f);
    assert((f * u) * (v * u) == ((f * v) * u) * u) by (nonlinear_arith);
    assert(1 * u == u);
    lemma_nearest_scales(neg, (f * v) * u, 1, u);
    assert(product(floor_of(y), whole_int(w)) == whole(neg, f * v));
    let k = x.amount() / (d as int);
    if !(neg && y.magnitude() == 0) {
        assert(k == (if neg { -(f as int) } else { f as int }));
        assert(k * w == (if neg { -((f * v) as int) } else { (f * v) as int })) by (nonlinear_arith)
            requires
                k == (if neg { -(f as int) } else { f as int }),
                v == w,
        ;
        if neg {
            assert(f * v > 0) by (nonlinear_arith)
                requires
                    f > 0,
                    v > 0,
            ;
        }
    } else {
        assert(f * v == 0) by (nonlinear_arith)
            requires
                f == 0,
        ;
    }
}

/// Whole amounts up to 2^53 are held exactly.
pub proof fn lemma_whole_below(neg: bool, w: nat)
    requires
        w <= 2 * HIDDEN,
    ensures
        whole(neg, w).finite(),
        whole(neg, w).neg() == neg,
        whole(neg, w).magnitude() == w * one(),
{
    if w < 2 * HIDDEN {
        lemma_whole_exact(neg, w);
    } else {
        lemma_pow2_adds(1022, 52);
        lemma_pow2_adds(1, 1074);
        lemma_pow2_unfold(1075);
        lemma2_to64();
        assert(HIDDEN as nat * pow2(1075) == w * one()) by (nonlinear_arith)
            requires
                w == 2 * HIDDEN,
                pow2(1075) == 2 * one(),
        ;
        lemma_exact(neg, HIDDEN as nat, 1075);
        lemma_pack(neg, HIDDEN as nat, 1075);
    }
}

/// Zero with its sign turned is the whole number zero below zero.
pub proof fn lemma_negative_zero()
    ensures
        negated(whole_int(0)) == whole(true, 0),
{
    lemma_pow2_pos(1);
    assert(0 * one() == 0);
    lemma_nearest_zero(true, 1);
    lemma_nearest_zero(false, 1);
}

} // verus!
