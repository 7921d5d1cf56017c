//! Numbers as decimal text, read and written.

use crate::big::{divide, Big, Order, Quotient};
use crate::num::{infinite, nearest, one, pack, round_ratio, scale_from, Num};
use crate::text::{digit, is_digit};
use vstd::arithmetic::power2::{lemma2_to64, lemma_pow2_adds, lemma_pow2_pos, lemma_pow2_unfold, pow2};
use vstd::prelude::*;

verus! {

/// 10^k.
pub open spec fn pow10(k: nat) -> nat
    decreases k,
{
    if k == 0 {
        1
    } else {
        10 * pow10((k - 1) as nat)
    }
}

/// The number that a row of digits writes.
pub open spec fn digits_value(s: Seq<char>) -> nat
    decreases s.len(),
{
    if s.len() == 0 {
        0
    } else {
        10 * digits_value(s.drop_last()) + (s.last() as nat - '0' as nat) as nat
    }
}

/// Where the digits end that start at `i`.
pub open spec fn digits_end(s: Seq<char>, i: int) -> int
    decreases s.len() - i,
{
    if 0 <= i < s.len() && digit(s[i]) {
        digits_end(s, i + 1)
    } else {
        i
    }
}

/// The number nearest to `c` times 10^e.
#[verifier::opaque]
pub open spec fn scaled(neg: bool, c: nat, e: int) -> Num {
    if e >= 0 {
        nearest(neg, c * pow10(e as nat) * one(), 1)
    } else {
        nearest(neg, c * one(), pow10((-e) as nat))
    }
}

/// Whether a sign stands at `i`.
pub open spec fn sign_at(s: Seq<char>, i: int) -> bool {
    0 <= i < s.len() && (s[i] == '+' || s[i] == '-')
}

/// The exponent that stands from `b` to the end: none written is zero.
pub open spec fn exponent_in(s: Seq<char>, b: int) -> Option<int> {
    if b == s.len() {
        Some(0)
    } else if s[b] == 'e' || s[b] == 'E' {
        let c = if sign_at(s, b + 1) { b + 2 } else { b + 1 };
        let d = digits_end(s, c);
        if c < d && d == s.len() {
            let size = digits_value(s.subrange(c, d)) as int;
            Some(if s[b + 1] == '-' { -size } else { size })
        } else {
            None
        }
    } else {
        None
    }
}

/// The number that a decimal text writes: an optional sign, digits with an
/// optional point among, before or behind them, and an optional exponent.
pub open spec fn number_in(s: Seq<char>) -> Option<Num> {
    let neg = s.len() > 0 && s[0] == '-';
    let start: int = if sign_at(s, 0) { 1 } else { 0 };
    let a = digits_end(s, start);
    let point = a < s.len() && s[a] == '.';
    let b = if point { digits_end(s, a + 1) } else { a };
    let frac = if point { s.subrange(a + 1, b) } else { Seq::<char>::empty() };
    let digits = s.subrange(start, a) + frac;
    if digits.len() == 0 {
        None
    } else {
        match exponent_in(s, b) {
            Some(e) => Some(scaled(neg, digits_value(digits), e - frac.len())),
            None => None,
        }
    }
}

proof fn lemma_digits_push(s: Seq<char>, i: int, from: int)
    requires
        0 <= from <= i < s.len(),
    ensures
        digits_value(s.subrange(from, i + 1)) == 10 * digits_value(s.subrange(from, i)) + (
        s[i] as nat - '0' as nat) as nat,
{
    assert(s.subrange(from, i + 1).drop_last() =~= s.subrange(from, i));
}

pub fn skip_digits(s: &[char], i: usize) -> (r: usize)
    requires
        i <= s@.len(),
    ensures
        r == digits_end(s@, i as int),
        i <= r <= s@.len(),
        forall|j: int| i <= j < r ==> digit(s@[j]),
{
    let mut j: usize = i;
    while j < s.len() && is_digit(s[j])
        invariant
            i <= j <= s@.len(),
            digits_end(s@, i as int) == digits_end(s@, j as int),
            forall|k: int| i <= k < j ==> digit(s@[k]),
        decreases s.len() - j,
    {
        j += 1;
    }
    j
}

/// A row of digits read onto the end of a number.
fn read_digits(base: Big, s: &[char], from: usize, to: usize, Ghost(before): Ghost<Seq<char>>) -> (r: Big)
    requires
        from <= to <= s@.len(),
        forall|j: int| from <= j < to ==> digit(s@[j]),
        base@ == digits_value(before),
    ensures
        r@ == digits_value(before + s@.subrange(from as int, to as int)),
{
    let mut out = base;
    let mut i: usize = from;
    assert(before + s@.subrange(from as int, from as int) =~= before);
    while i < to
        invariant
            from <= i <= to <= s@.len(),
            forall|j: int| from <= j < to ==> digit(s@[j]),
            out@ == digits_value(before + s@.subrange(from as int, i as int)),
        decreases to - i,
    {
        let d: u32 = s[i] as u32 - '0' as u32;
        proof {
            let now = before + s@.subrange(from as int, i + 1);
            assert(now.drop_last() =~= before + s@.subrange(from as int, i as int));
            assert(now.last() == s@[i as int]);
        }
        out = out.mul_add(10, d);
        i += 1;
    }
    out
}

/// An exponent this large or larger leaves nothing but zero or infinity.
const HUGE: u128 = 1_000_000_000_000_000_000_000_000_000_000;

/// The number a row of digits writes, exact below `HUGE`.
fn read_exponent(s: &[char], from: usize, to: usize) -> (r: u128)
    requires
        from <= to <= s@.len(),
        forall|j: int| from <= j < to ==> digit(s@[j]),
    ensures
        r < 10 * HUGE + 10,
        r < HUGE ==> r == digits_value(s@.subrange(from as int, to as int)),
        r >= HUGE ==> digits_value(s@.subrange(from as int, to as int)) >= HUGE,
{
    let mut out: u128 = 0;
    let mut i: usize = from;
    while i < to
        invariant
            from <= i <= to <= s@.len(),
            forall|j: int| from <= j < to ==> digit(s@[j]),
            out < 10 * HUGE + 10,
            out < HUGE ==> out == digits_value(s@.subrange(from as int, i as int)),
            out >= HUGE ==> digits_value(s@.subrange(from as int, i as int)) >= HUGE,
        decreases to - i,
    {
        proof {
            lemma_digits_push(s@, i as int, from as int);
        }
        if out < HUGE {
            let d: u32 = s[i] as u32 - '0' as u32;
            out = out * 10 + d as u128;
        }
        i += 1;
    }
    out
}

pub proof fn lemma_pow10_bound(k: nat)
    ensures
        pow10(k) >= pow2(3 * k),
        pow10(k) > 0,
    decreases k,
{
    if k == 0 {
        lemma2_to64();
    } else {
        lemma_pow10_bound((k - 1) as nat);
        lemma_pow2_adds(3, (3 * (k - 1)) as nat);
        lemma2_to64();
        assert(3 * k == 3 + 3 * (k - 1));
    }
}

pub proof fn lemma_pow10_adds(a: nat, b: nat)
    ensures
        pow10(a + b) == pow10(a) * pow10(b),
    decreases b,
{
    if b == 0 {
        assert(pow10(a) * 1 == pow10(a));
    } else {
        lemma_pow10_adds(a, (b - 1) as nat);
        let x = pow10(a);
        let y = pow10((b - 1) as nat);
        assert(10 * (x * y) == x * (10 * y)) by (nonlinear_arith);
    }
}

/// Where a ratio is beyond all scales, its nearest number is the infinity.
proof fn lemma_too_large(neg: bool, n: nat, d: nat)
    requires
        n >= d * pow2(2100),
    ensures
        nearest(neg, n, d) == infinite(neg),
{
    reveal(nearest);
    lemma_all_scales(n, d, 0);
}

proof fn lemma_all_scales(n: nat, d: nat, k: nat)
    requires
        n >= d * pow2(2100),
        k <= 2046,
    ensures
        scale_from(n, d, k) == 2046,
    decreases 2046 - k,
{
    if k < 2046 {
        vstd::arithmetic::power2::lemma_pow2_strictly_increases(53 + k, 2100);
        let a = pow2(53 + k);
        let b = pow2(2100);
        assert(d * a <= d * b) by (nonlinear_arith)
            requires
                a <= b,
        ;
        lemma_all_scales(n, d, k + 1);
    }
}

/// Where a ratio is below half a unit, its nearest number is zero.
proof fn lemma_too_small(neg: bool, n: nat, d: nat)
    requires
        2 * n < d,
    ensures
        nearest(neg, n, d) == pack(neg, 0, 0),
{
    reveal(nearest);
    lemma2_to64();
    lemma_pow2_pos(53);
    let p = pow2(53);
    assert(n < d * p) by (nonlinear_arith)
        requires
            2 * n < d,
            p > 0,
    ;
    assert(scale_from(n, d, 0) == 0);
    assert(d * 1 == d);
    vstd::arithmetic::div_mod::lemma_basic_div(n as int, d as int);
    vstd::arithmetic::div_mod::lemma_small_mod(n, d);
}

proof fn lemma_zero(neg: bool, d: nat)
    requires
        d > 0,
    ensures
        nearest(neg, 0, d) == pack(neg, 0, 0),
{
    lemma_too_small(neg, 0, d);
}

fn power_of_ten(k: u128) -> (r: Big)
    ensures
        r@ == pow10(k as nat),
{
    let mut out = Big::from_u64(1);
    let mut i: u128 = 0;
    while i < k
        invariant
            i <= k,
            out@ == pow10(i as nat),
        decreases k - i,
    {
        out = out.mul_add(10, 0);
        i += 1;
    }
    out
}

/// Digits of which there are `len` write a number below 10^len.
proof fn lemma_digits_bound(s: Seq<char>)
    requires
        forall|j: int| 0 <= j < s.len() ==> digit(s[j]),
    ensures
        digits_value(s) < pow10(s.len()),
    decreases s.len(),
{
    if s.len() > 0 {
        lemma_digits_bound(s.drop_last());
    }
}

/// `c` times 10^e as a number, where `c` has at most `len` digits.
fn scale(neg: bool, c: &Big, len: usize, e: i128) -> (r: Num)
    requires
        c@ < pow10(len as nat),
        e > i128::MIN,
    ensures
        r == scaled(neg, c@, e as int),
{
    proof {
        reveal(scaled);
    }
    let zero = Big::from_u64(0);
    let is_zero = match c.compare(&zero) {
        Order::Equal => true,
        _ => false,
    };
    if is_zero {
        proof {
            assert(0 * pow10(e as nat) * one() == 0) by (nonlinear_arith);
            assert(0 * one() == 0);
            lemma_zero(neg, 1);
            if e < 0 {
                lemma_pow10_bound((-e) as nat);
                lemma_zero(neg, pow10((-e) as nat));
            }
        }
        return zero_of(neg);
    }
    if e >= 0 {
        if e >= 400 {
            proof {
                lemma_pow10_bound(e as nat);
                if 3 * e > 1200 {
                    vstd::arithmetic::power2::lemma_pow2_strictly_increases(1200, 3 * e as nat);
                }
                lemma_pow2_adds(1200, 1074);
                vstd::arithmetic::power2::lemma_pow2_strictly_increases(2100, 2274);
                lemma_pow2_pos(1074);
                let p = pow10(e as nat);
                let a = pow2(1200);
                let b = one();
                assert(c@ * p * b >= a * b) by (nonlinear_arith)
                    requires
                        c@ >= 1,
                        p >= a,
                        b > 0,
                ;
                lemma_too_large(neg, c@ * p * b, 1);
            }
            return infinity_of(neg);
        }
        let mut n = c.mul_add(1, 0);
        let mut i: u64 = 0;
        proof {
            assert(c@ * 1 == c@);
        }
        while i < e as u64
            invariant
                i <= e < 400,
                n@ == c@ * pow10(i as nat),
            decreases e - i,
        {
            proof {
                let p = pow10(i as nat);
                assert(c@ * (10 * p) == (c@ * p) * 10) by (nonlinear_arith);
            }
            n = n.mul_add(10, 0);
            i += 1;
        }
        let d = Big::from_u64(1);
        round_ratio(neg, &n.shl(1074), &d)
    } else {
        if -e >= len as i128 + 400 {
            proof {
                let k = (-e) as nat;
                let rest = (k - len) as nat;
                lemma_pow10_adds(len as nat, rest);
                lemma_pow10_bound(rest);
                if 3 * rest > 1076 {
                    vstd::arithmetic::power2::lemma_pow2_strictly_increases(1076, 3 * rest);
                }
                lemma_pow2_unfold(1075);
                lemma_pow2_unfold(1076);
                lemma_pow2_pos(1074);
                let a = pow10(len as nat);
                let b = pow10(rest);
                let u = one();
                assert(2 * (c@ * u) < a * b) by (nonlinear_arith)
                    requires
                        c@ < a,
                        b >= 4 * u,
                        u > 0,
                ;
                lemma_too_small(neg, c@ * u, pow10(k));
            }
            return zero_of(neg);
        }
        let d = power_of_ten((-e) as u128);
        proof {
            lemma_pow10_bound((-e) as nat);
        }
        round_ratio(neg, &c.shl(1074), &d)
    }
}

fn zero_of(neg: bool) -> (r: Num)
    ensures
        r == pack(neg, 0, 0),
{
    if neg {
        Num { bits: 0x8000_0000_0000_0000 }
    } else {
        Num { bits: 0 }
    }
}

fn infinity_of(neg: bool) -> (r: Num)
    ensures
        r == infinite(neg),
{
    if neg {
        Num { bits: 0xfff0_0000_0000_0000 }
    } else {
        Num { bits: 0x7ff0_0000_0000_0000 }
    }
}

fn is_sign_at(s: &[char], i: usize) -> (r: bool)
    ensures
        r == sign_at(s@, i as int),
{
    i < s.len() && (s[i] == '+' || s[i] == '-')
}

/// An exponent as it was read: exact below `HUGE`.
struct Exponent {
    size: u128,
    down: bool,
}

impl Exponent {
    spec fn stands_for(self, e: int) -> bool {
        let size = if self.down { -e } else { e };
        &&& self.size < 10 * HUGE + 10
        &&& self.size < HUGE ==> size == self.size
        &&& self.size >= HUGE ==> size >= HUGE
    }
}

fn read_tail(s: &[char], b: usize) -> (r: Option<Exponent>)
    requires
        b <= s@.len(),
    ensures
        r is Some == exponent_in(s@, b as int) is Some,
        r matches Some(x) ==> x.stands_for(exponent_in(s@, b as int)->0),
{
    let n: usize = s.len();
    if b == n {
        return Some(Exponent { size: 0, down: false });
    }
    if s[b] == 'e' || s[b] == 'E' {
        let from: usize = if is_sign_at(s, b + 1) {
            b + 2
        } else {
            b + 1
        };
        let to: usize = skip_digits(s, from);
        if from < to && to == n {
            let size: u128 = read_exponent(s, from, to);
            return Some(Exponent { size, down: s[b + 1] == '-' });
        }
    }
    None
}

/// `c` times ten to an exponent less the count of digits behind the point.
fn place(neg: bool, c: &Big, len: usize, x: &Exponent, frac_len: usize, Ghost(e): Ghost<int>) -> (r: Num)
    requires
        c@ < pow10(len as nat),
        x.stands_for(e),
    ensures
        r == scaled(neg, c@, e - frac_len),
{
    if x.size < HUGE {
        let exponent: i128 = if x.down {
            -(x.size as i128)
        } else {
            x.size as i128
        };
        return scale(neg, c, len, exponent - frac_len as i128);
    }
    proof {
        lemma_huge_exponent(neg, c@, len as nat, if x.down { (-e) as nat } else { e as nat }, frac_len as int, x.down);
    }
    let zero = Big::from_u64(0);
    let is_zero = match c.compare(&zero) {
        Order::Equal => true,
        _ => false,
    };
    if is_zero || x.down {
        zero_of(neg)
    } else {
        infinity_of(neg)
    }
}

/// Reads a decimal text as the nearest number.
#[verifier::rlimit(30)]
pub fn read_number(s: &[char]) -> (r: Option<Num>)
    ensures
        r == number_in(s@),
{
    let n: usize = s.len();
    let neg = n > 0 && s[0] == '-';
    let start: usize = if is_sign_at(s, 0) {
        1
    } else {
        0
    };
    let a: usize = skip_digits(s, start);
    let ghost head = s@.subrange(start as int, a as int);
    let mut c = read_digits(Big::from_u64(0), s, start, a, Ghost(Seq::<char>::empty()));
    proof {
        assert(Seq::<char>::empty() + head =~= head);
    }
    let mut b: usize = a;
    let mut frac_len: usize = 0;
    let ghost mut frac = Seq::<char>::empty();
    assert(head + frac =~= head);
    if a < n && s[a] == '.' {
        b = skip_digits(s, a + 1);
        frac_len = b - (a + 1);
        proof {
            frac = s@.subrange(a + 1, b as int);
        }
        c = read_digits(c, s, a + 1, b, Ghost(head));
    }
    let len: usize = (a - start) + frac_len;
    if len == 0 {
        return None;
    }
    proof {
        assert forall|j: int| 0 <= j < (head + frac).len() implies digit((head + frac)[j]) by {
            if j < head.len() {
                assert((head + frac)[j] == s@[start + j]);
            } else {
                assert((head + frac)[j] == s@[a + 1 + (j - head.len())]);
            }
        }
        lemma_digits_bound(head + frac);
    }
    match read_tail(s, b) {
        Some(x) => Some(
            place(neg, &c, len, &x, frac_len, Ghost(exponent_in(s@, b as int)->0)),
        ),
        None => None,
    }
}

proof fn lemma_huge_exponent(neg: bool, c: nat, len: nat, size: nat, frac_len: int, down: bool)
    requires
        c < pow10(len),
        len <= usize::MAX,
        size >= HUGE,
        0 <= frac_len <= usize::MAX,
    ensures
        c == 0 || down ==> scaled(neg, c, (if down { -size } else { size as int }) - frac_len)
            == pack(neg, 0, 0),
        c > 0 && !down ==> scaled(neg, c, size - frac_len) == infinite(neg),
{
    reveal(scaled);
    let u = one();
    lemma_pow2_pos(1074);
    if down {
        let k = (size + frac_len) as nat;
        let rest = (k - len) as nat;
        lemma_pow10_adds(len, rest);
        lemma_pow10_bound(rest);
        vstd::arithmetic::power2::lemma_pow2_strictly_increases(1076, 3 * rest);
        lemma_pow2_unfold(1075);
        lemma_pow2_unfold(1076);
        let a = pow10(len);
        let b = pow10(rest);
        assert(2 * (c * u) < a * b) by (nonlinear_arith)
            requires
                c < a,
                b >= 4 * u,
                u > 0,
        ;
        lemma_too_small(neg, c * u, pow10(k));
    } else {
        let e = (size - frac_len) as nat;
        if c == 0 {
            assert(0 * pow10(e) * u == 0) by (nonlinear_arith);
            lemma_zero(neg, 1);
        } else {
            lemma_pow10_bound(e);
            vstd::arithmetic::power2::lemma_pow2_strictly_increases(1200, 3 * e);
            lemma_pow2_adds(1200, 1074);
            vstd::arithmetic::power2::lemma_pow2_strictly_increases(2100, 2274);
            let p = pow10(e);
            let a = pow2(1200);
            assert(c * p * u >= a * u) by (nonlinear_arith)
                requires
                    c >= 1,
                    p >= a,
                    u > 0,
            ;
            lemma_too_large(neg, c * p * u, 1);
        }
    }
}

/// The decimal digits of a natural number.
pub open spec fn nat_text(n: nat) -> Seq<char>
    decreases n,
{
    if n < 10 {
        seq![digit_char(n)]
    } else {
        nat_text(n / 10).push(digit_char(n % 10))
    }
}

/// The character of a digit.
pub open spec fn digit_char(d: nat) -> char {
    (('0' as nat + d) as u8) as char
}

/// The decimal digits of an integer, with a minus sign where it is negative.
pub open spec fn int_text(n: int) -> Seq<char> {
    if n < 0 {
        seq!['-'] + nat_text((-n) as nat)
    } else {
        nat_text(n as nat)
    }
}

/// A row of zeros.
pub open spec fn zeros(n: int) -> Seq<char> {
    Seq::new(if n < 0 { 0 } else { n as nat }, |i: int| '0')
}

/// Puts the decimal digits of a number behind what a text holds.
pub fn push_nat(out: &mut Vec<char>, n: u64)
    ensures
        final(out)@ == old(out)@ + nat_text(n as nat),
    decreases n,
{
    if n >= 10 {
        push_nat(out, n / 10);
    }
    let d: u8 = '0' as u8 + (n % 10) as u8;
    out.push(d as char);
    assert(out@ =~= old(out)@ + nat_text(n as nat));
}

/// Puts the decimal digits of an integer behind what a text holds.
pub fn push_int(out: &mut Vec<char>, n: i64)
    ensures
        final(out)@ == old(out)@ + int_text(n as int),
{
    if n < 0 {
        out.push('-');
        push_nat(out, (-(n as i128)) as u64);
    } else {
        push_nat(out, n as u64);
    }
    assert(out@ =~= old(out)@ + int_text(n as int));
}

pub fn push_zeros(out: &mut Vec<char>, n: u32)
    ensures
        final(out)@ == old(out)@ + zeros(n as int),
{
    let mut i: u32 = 0;
    while i < n
        invariant
            i <= n,
            out@ =~= old(out)@ + zeros(i as int),
        decreases n - i,
    {
        out.push('0');
        i += 1;
    }
}

/// Puts a part of a text behind what another holds.
pub fn push_part(out: &mut Vec<char>, v: &[char], from: usize, to: usize)
    requires
        from <= to <= v@.len(),
    ensures
        final(out)@ == old(out)@ + v@.subrange(from as int, to as int),
{
    let mut i: usize = from;
    while i < to
        invariant
            from <= i <= to <= v@.len(),
            out@ =~= old(out)@ + v@.subrange(from as int, i as int),
        decreases to - i,
    {
        out.push(v[i]);
        i += 1;
    }
}

/// The top of the ratio of a magnitude to 10^p.
pub open spec fn part_top(n: nat, p: int) -> nat {
    if p < 0 {
        n * pow10((-p) as nat)
    } else {
        n
    }
}

/// The bottom of the ratio of a magnitude to 10^p.
pub open spec fn part_bottom(p: int) -> nat {
    if p < 0 {
        one()
    } else {
        one() * pow10(p as nat)
    }
}

/// The least power of ten from 10^e on that a magnitude is below.
pub open spec fn places_from(n: nat, e: int) -> int
    decreases 342 - e,
{
    if e >= 342 || part_top(n, e) < part_bottom(e) {
        e
    } else {
        places_from(n, e + 1)
    }
}

/// The fewest digits, from `k` digits on, that read back as `x`, and their
/// power of ten: of the two candidates around `x` the nearer one, of two
/// equally near ones the even one. With seventeen digits the search ends.
pub open spec fn shortest_from(x: Num, e: int, k: nat) -> (nat, int)
    decreases 17 - k,
{
    let p = e - k;
    let low = part_top(x.magnitude(), p) / part_bottom(p);
    let rest = part_top(x.magnitude(), p) % part_bottom(p);
    let low_reads = scaled(x.neg(), low, p) == x;
    let high_reads = scaled(x.neg(), low + 1, p) == x;
    if low_reads && (!high_reads || 2 * rest < part_bottom(p) || (2 * rest == part_bottom(p) && low
        % 2 == 0)) {
        (low, p)
    } else if high_reads {
        (low + 1, p)
    } else if k >= 17 {
        (low, p)
    } else {
        shortest_from(x, e, k + 1)
    }
}

/// Digits and a power of ten with the trailing zeros moved into the power.
pub open spec fn stripped(c: nat, p: int) -> (nat, int)
    decreases c,
{
    if c > 0 && c % 10 == 0 {
        stripped(c / 10, p + 1)
    } else {
        (c, p)
    }
}

/// The shortest digits that read back as `x`, and the power of ten they are
/// scaled by.
#[verifier::opaque]
pub open spec fn shortest(x: Num) -> (nat, int) {
    let (c, p) = shortest_from(x, places_from(x.magnitude(), -330), 1);
    stripped(c, p)
}

/// Digits with the point behind the first `k` of them.
pub open spec fn pointed(d: Seq<char>, k: int) -> Seq<char> {
    if k <= 0 {
        seq!['0', '.'] + zeros(-k) + d
    } else if k >= d.len() {
        d + zeros(k - d.len())
    } else {
        d.subrange(0, k) + seq!['.'] + d.subrange(k, d.len() as int)
    }
}

/// The sign of a number in its text.
pub open spec fn sign_text(neg: bool) -> Seq<char> {
    if neg {
        seq!['-']
    } else {
        Seq::<char>::empty()
    }
}

/// A number in full, without an exponent and without a needless point.
pub open spec fn plain_text(x: Num) -> Seq<char> {
    sign_text(x.neg()) + (if !x.finite() {
        seq!['i', 'n', 'f']
    } else if x.magnitude() == 0 {
        seq!['0']
    } else {
        let (c, p) = shortest(x);
        let d = nat_text(c);
        pointed(d, d.len() + p)
    })
}

/// The text of a number in JSON: always with a point or an exponent, the latter
/// where the point would stand far off.
pub open spec fn json_number_text(x: Num) -> Seq<char> {
    if !x.finite() {
        seq!['n', 'u', 'l', 'l']
    } else {
        sign_text(x.neg()) + (if x.magnitude() == 0 {
            seq!['0', '.', '0']
        } else {
            let (c, p) = shortest(x);
            let d = nat_text(c);
            let k = d.len() + p;
            if k < -4 || k > 16 {
                let head = if d.len() == 1 {
                    d
                } else {
                    d.subrange(0, 1) + seq!['.'] + d.subrange(1, d.len() as int)
                };
                let exponent = if k >= 1 {
                    seq!['e', '+'] + nat_text((k - 1) as nat)
                } else {
                    seq!['e', '-'] + nat_text((1 - k) as nat)
                };
                head + exponent
            } else if k >= d.len() {
                pointed(d, k) + seq!['.', '0']
            } else {
                pointed(d, k)
            }
        })
    }
}

proof fn lemma_pow10_small()
    ensures
        pow10(17) == 100_000_000_000_000_000,
{
    reveal_with_fuel(pow10, 18);
}

/// Moving `k` digits before the point multiplies a ratio by 10^k.
proof fn lemma_more_digits(n: nat, e: int, k: nat)
    requires
        part_top(n, e) < part_bottom(e),
        k <= 17,
    ensures
        part_top(n, e - k) < part_bottom(e - k) * 100_000_000_000_000_000,
        part_bottom(e - k) > 0,
{
    lemma_pow10_small();
    lemma_pow2_pos(1074);
    lemma_pow10_adds(k, (17 - k) as nat);
    lemma_pow10_bound((17 - k) as nat);
    lemma_pow10_bound(k);
    let u = one();
    let t = pow10(k);
    assert(t <= 100_000_000_000_000_000) by (nonlinear_arith)
        requires
            100_000_000_000_000_000 == t * pow10((17 - k) as nat),
            pow10((17 - k) as nat) > 0,
            t > 0,
    ;
    let p = e - k;
    if e < 0 {
        let m = pow10((-e) as nat);
        lemma_pow10_adds((-e) as nat, k);
        assert((-p) as nat == (-e) as nat + k);
        assert(n * (m * t) < u * 100_000_000_000_000_000) by (nonlinear_arith)
            requires
                n * m < u,
                0 < t <= 100_000_000_000_000_000,
        ;
    } else if p < 0 {
        let m = pow10((-p) as nat);
        lemma_pow10_adds(e as nat, (-p) as nat);
        lemma_pow10_bound((-p) as nat);
        assert(e as nat + (-p) as nat == k);
        let h = pow10(e as nat);
        assert(n * m < u * 100_000_000_000_000_000) by (nonlinear_arith)
            requires
                n < u * h,
                h * m == t,
                m > 0,
                u > 0,
                t <= 100_000_000_000_000_000,
        ;
    } else {
        let h = pow10(p as nat);
        lemma_pow10_adds(p as nat, k);
        lemma_pow10_bound(p as nat);
        assert(p as nat + k == e as nat);
        assert(n < (u * h) * 100_000_000_000_000_000) by (nonlinear_arith)
            requires
                n < u * (h * t),
                t <= 100_000_000_000_000_000,
                u > 0,
                h > 0,
        ;
        assert(u * h > 0) by (nonlinear_arith)
            requires
                u > 0,
                h > 0,
        ;
    }
}

fn ratio_parts(n: &Big, p: i32) -> (r: (Big, Big))
    requires
        -400 <= p <= 400,
    ensures
        r.0@ == part_top(n@, p as int),
        r.1@ == part_bottom(p as int),
{
    let unit = Big::from_u64(1).shl(1074);
    assert(1 * pow2(1074) == one());
    let mut k: i32 = 0;
    if p < 0 {
        let mut top = n.mul_add(1, 0);
        assert(n@ * 1 == n@);
        while k < -p
            invariant
                0 <= k <= -p <= 400,
                top@ == n@ * pow10(k as nat),
            decreases -p - k,
        {
            proof {
                let m = pow10(k as nat);
                assert(n@ * (10 * m) == (n@ * m) * 10) by (nonlinear_arith);
            }
            top = top.mul_add(10, 0);
            k += 1;
        }
        (top, unit)
    } else {
        let mut bottom = unit;
        assert(one() * 1 == one());
        while k < p
            invariant
                0 <= k <= p <= 400,
                bottom@ == one() * pow10(k as nat),
            decreases p - k,
        {
            proof {
                let m = pow10(k as nat);
                assert(one() * (10 * m) == (one() * m) * 10) by (nonlinear_arith);
            }
            bottom = bottom.mul_add(10, 0);
            k += 1;
        }
        assert(n@ * 1 == n@);
        (n.mul_add(1, 0), bottom)
    }
}

/// Once a magnitude is below a power of ten, it is below the next one.
proof fn lemma_below_next(n: nat, e: int)
    requires
        part_top(n, e) < part_bottom(e),
    ensures
        part_top(n, e + 1) < part_bottom(e + 1),
{
    lemma_pow2_pos(1074);
    let u = one();
    if e + 1 < 0 {
        let m = pow10((-(e + 1)) as nat);
        assert(pow10((-e) as nat) == 10 * m);
        assert(n * m < u) by (nonlinear_arith)
            requires
                n * (10 * m) < u,
        ;
    } else if e < 0 {
        assert(e == -1);
        assert(pow10(1) == 10 * pow10(0));
        assert(pow10(0) == 1);
        assert(u * 1 == u);
        assert(n * 10 < u);
    } else {
        let m = pow10(e as nat);
        assert(pow10((e + 1) as nat) == 10 * m);
        assert(n < u * (10 * m)) by (nonlinear_arith)
            requires
                n < u * m,
        ;
    }
}

/// Where a magnitude is not below 10^(e-1), the search may start at `e`.
proof fn lemma_places_skip(n: nat, from: int, e: int)
    requires
        from <= e <= 342,
        from < e ==> part_top(n, e - 1) >= part_bottom(e - 1),
    ensures
        places_from(n, from) == places_from(n, e),
    decreases e - from,
{
    if from < e {
        if part_top(n, from) < part_bottom(from) {
            lemma_below_up(n, from, e - 1);
        }
        lemma_places_skip(n, from + 1, e);
    }
}

proof fn lemma_below_up(n: nat, from: int, e: int)
    requires
        from <= e,
        part_top(n, from) < part_bottom(from),
    ensures
        part_top(n, e) < part_bottom(e),
    decreases e - from,
{
    if from < e {
        lemma_below_next(n, from);
        lemma_below_up(n, from + 1, e);
    }
}

fn is_below(n: &Big, e: i32) -> (r: bool)
    requires
        -400 <= e <= 400,
    ensures
        r == (part_top(n@, e as int) < part_bottom(e as int)),
{
    let (top, bottom) = ratio_parts(n, e);
    match top.compare(&bottom) {
        Order::Less => true,
        _ => false,
    }
}

/// How many digits stand before the point.
fn places(x: Num) -> (r: i32)
    requires
        x.finite(),
    ensures
        r == places_from(x.magnitude(), -330),
        -330 <= r <= 342,
        part_top(x.magnitude(), r as int) < part_bottom(r as int),
{
    let n = x.units();
    let bits: i32 = n.rough_bits() as i32;
    let mut e: i32 = -330;
    if 0 <= bits && bits <= 2200 {
        let guess: i32 = ((bits - 1074) * 30103) / 100000 - 1;
        if -330 < guess && guess <= 342 && !is_below(&n, guess - 1) {
            e = guess;
        }
    }
    proof {
        lemma_places_skip(n@, -330, e as int);
        lemma_finite_bound(x);
    }
    while e < 342 && !is_below(&n, e)
        invariant
            -330 <= e <= 342,
            n@ == x.magnitude(),
            places_from(n@, -330) == places_from(n@, e as int),
        decreases 342 - e,
    {
        e += 1;
    }
    e
}

proof fn lemma_finite_bound(x: Num)
    requires
        x.finite(),
    ensures
        part_top(x.magnitude(), 342) < part_bottom(342),
{
    let m = x.mant();
    let s = x.shift();
    lemma_pow2_pos(s);
    lemma2_to64();
    vstd::arithmetic::power2::lemma2_to64_rest();
    if s < 2045 {
        vstd::arithmetic::power2::lemma_pow2_strictly_increases(s, 2045);
    }
    lemma_pow2_adds(53, 2045);
    vstd::arithmetic::power2::lemma_pow2_strictly_increases(2098, 2100);
    lemma_pow10_bound(342);
    lemma_pow2_adds(1074, 1026);
    lemma_pow2_pos(1074);
    let p = pow2(s);
    let q = pow2(2045);
    assert(m * p <= 0x20_0000_0000_0000 * q) by (nonlinear_arith)
        requires
            m <= 0x20_0000_0000_0000,
            p <= q,
    ;
    let u = one();
    let t = pow10(342);
    let b = pow2(1026);
    assert(u * t >= u * b) by (nonlinear_arith)
        requires
            t >= b,
    ;
}

/// The shortest digits that read back as `x`, and their power of ten.
pub fn shortest_digits(x: Num) -> (r: (u64, i32))
    requires
        x.finite(),
    ensures
        (r.0 as nat, r.1 as int) == shortest(x),
        r.0 <= 100_000_000_000_000_000,
        -400 < r.1 < 400,
{
    let e: i32 = places(x);
    let n = x.units();
    let neg = x.is_neg();
    let mut k: i32 = 1;
    proof {
        reveal(shortest);
    }
    loop
        invariant
            1 <= k <= 17,
            -330 <= e <= 342,
            n@ == x.magnitude(),
            neg == x.neg(),
            e == places_from(n@, -330),
            part_top(n@, e as int) < part_bottom(e as int),
            shortest_from(x, e as int, 1) == shortest_from(x, e as int, k as nat),
            shortest(x) == ({
                let (c, p) = shortest_from(x, places_from(x.magnitude(), -330), 1);
                stripped(c, p)
            }),
        decreases 17 - k,
    {
        let p: i32 = e - k;
        let (top, bottom) = ratio_parts(&n, p);
        proof {
            lemma_more_digits(n@, e as int, k as nat);
            lemma2_to64();
            vstd::arithmetic::power2::lemma2_to64_rest();
            let b = bottom@;
            assert(top@ < b * pow2(64)) by (nonlinear_arith)
                requires
                    top@ < b * 100_000_000_000_000_000,
                    pow2(64) == 0x1_0000_0000_0000_0000,
            ;
            assert(top@ / b < 100_000_000_000_000_000) by (nonlinear_arith)
                requires
                    top@ < b * 100_000_000_000_000_000,
                    b > 0,
            ;
            lemma_pow10_small();
            lemma_pow10_adds(17, 1);
            assert(pow10(18) == 10 * pow10(17));
        }
        let quotient: Quotient = divide(&top, &bottom);
        let low: u64 = quotient.floor;
        let low_reads = scale(neg, &Big::from_u64(low), 18, p as i128).bits == x.bits;
        let high_reads = scale(neg, &Big::from_u64(low + 1), 18, p as i128).bits == x.bits;
        let lower = match quotient.half {
            Order::Less => true,
            Order::Equal => low % 2 == 0,
            Order::Greater => false,
        };
        if low_reads && (!high_reads || lower) {
            return strip(low, p);
        }
        if high_reads {
            return strip(low + 1, p);
        }
        if k == 17 {
            return strip(low, p);
        }
        k += 1;
    }
}

fn strip(c: u64, p: i32) -> (r: (u64, i32))
    requires
        -350 <= p <= 342,
        c <= 100_000_000_000_000_000,
    ensures
        (r.0 as nat, r.1 as int) == stripped(c as nat, p as int),
        r.0 <= c,
        p <= r.1 <= p + 18,
{
    let mut d: u64 = c;
    let mut q: i32 = p;
    proof {
        lemma_pow10_small();
        assert(pow10(18) == 10 * pow10(17));
    }
    while d > 0 && d % 10 == 0
        invariant
            stripped(c as nat, p as int) == stripped(d as nat, q as int),
            d <= c,
            p <= q <= p + 18,
            -350 <= p <= 342,
            d < pow10((18 - (q - p)) as nat),
        decreases d,
    {
        proof {
            if q == p + 18 {
                assert(pow10(0) == 1);
            } else {
                assert(pow10((18 - (q - p)) as nat) == 10 * pow10((17 - (q - p)) as nat));
            }
        }
        d = d / 10;
        q += 1;
    }
    (d, q)
}

/// Digits with the point behind the first `k` of them, put behind a text.
fn push_pointed(out: &mut Vec<char>, d: &[char], k: i32)
    requires
        -500 <= k <= 500,
        d@.len() <= 100,
    ensures
        final(out)@ == old(out)@ + pointed(d@, k as int),
{
    if k <= 0 {
        out.push('0');
        out.push('.');
        push_zeros(out, (-k) as u32);
        push_part(out, d, 0, d.len());
        assert(d@.subrange(0, d@.len() as int) =~= d@);
    } else if k as usize >= d.len() {
        push_part(out, d, 0, d.len());
        push_zeros(out, (k - d.len() as i32) as u32);
        assert(d@.subrange(0, d@.len() as int) =~= d@);
    } else {
        push_part(out, d, 0, k as usize);
        out.push('.');
        push_part(out, d, k as usize, d.len());
    }
    assert(out@ =~= old(out)@ + pointed(d@, k as int));
}

/// A number below 10^k has at most `k` digits.
pub proof fn lemma_nat_text_len(n: nat, k: nat)
    requires
        n < pow10(k),
        k > 0,
    ensures
        0 < nat_text(n).len() <= k,
    decreases k,
{
    if n >= 10 {
        assert(pow10(1) == 10 * pow10(0));
        lemma_nat_text_len(n / 10, (k - 1) as nat);
    }
}

fn digit_text(c: u64) -> (r: Vec<char>)
    requires
        c <= 100_000_000_000_000_000,
    ensures
        r@ == nat_text(c as nat),
        0 < r@.len() <= 18,
{
    let mut d: Vec<char> = Vec::new();
    push_nat(&mut d, c);
    proof {
        assert(Seq::<char>::empty() + nat_text(c as nat) =~= nat_text(c as nat));
        lemma_pow10_small();
        assert(pow10(18) == 10 * pow10(17));
        lemma_nat_text_len(c as nat, 18);
    }
    d
}

/// Puts a number in full behind what a text holds.
pub fn push_plain(out: &mut Vec<char>, x: Num)
    ensures
        final(out)@ == old(out)@ + plain_text(x),
{
    if x.is_neg() {
        out.push('-');
    }
    if !x.is_finite() {
        out.push('i');
        out.push('n');
        out.push('f');
    } else if x.is_zero() {
        out.push('0');
    } else {
        let (c, p) = shortest_digits(x);
        let d = digit_text(c);
        push_pointed(out, &d, d.len() as i32 + p);
    }
    assert(out@ =~= old(out)@ + plain_text(x));
}

/// Puts a number as JSON behind what a text holds.
#[verifier::rlimit(30)]
pub fn push_json_number(out: &mut Vec<char>, x: Num)
    ensures
        final(out)@ == old(out)@ + json_number_text(x),
{
    if !x.is_finite() {
        out.push('n');
        out.push('u');
        out.push('l');
        out.push('l');
        assert(out@ =~= old(out)@ + json_number_text(x));
        return;
    }
    if x.is_neg() {
        out.push('-');
    }
    if x.is_zero() {
        out.push('0');
        out.push('.');
        out.push('0');
    } else {
        let (c, p) = shortest_digits(x);
        let d = digit_text(c);
        let k: i32 = d.len() as i32 + p;
        if k < -4 || k > 16 {
            out.push(d[0]);
            if d.len() > 1 {
                out.push('.');
                push_part(out, &d, 1, d.len());
            }
            out.push('e');
            if k >= 1 {
                out.push('+');
                push_nat(out, (k - 1) as u64);
            } else {
                out.push('-');
                push_nat(out, (1 - k) as u64);
            }
        } else {
            push_pointed(out, &d, k);
            if k as i64 >= d.len() as i64 {
                out.push('.');
                out.push('0');
            }
        }
    }
    assert(out@ =~= old(out)@ + json_number_text(x));
}

/// The digits of a number read back as the number.
pub proof fn lemma_nat_text_reads(n: nat)
    ensures
        digits_value(nat_text(n)) == n,
        nat_text(n).len() > 0,
        forall|i: int| 0 <= i < nat_text(n).len() ==> digit(#[trigger] nat_text(n)[i]),
    decreases n,
{
    reveal_with_fuel(digits_value, 2);
    if n >= 10 {
        lemma_nat_text_reads(n / 10);
        assert(nat_text(n).drop_last() =~= nat_text(n / 10));
    } else {
        assert(nat_text(n).drop_last() =~= Seq::<char>::empty());
    }
}

/// Zeros before the digits of a number do not change it.
pub proof fn lemma_leading_zeros(k: int, d: Seq<char>)
    ensures
        digits_value(zeros(k) + d) == digits_value(d),
    decreases d.len(), k,
{
    if d.len() > 0 {
        assert((zeros(k) + d).drop_last() =~= zeros(k) + d.drop_last());
        lemma_leading_zeros(k, d.drop_last());
    } else {
        assert(zeros(k) + d =~= zeros(k));
        if k > 0 {
            assert(zeros(k).drop_last() =~= zeros(k - 1));
            lemma_leading_zeros(k - 1, d);
            assert(zeros(k - 1) + d =~= zeros(k - 1));
        }
    }
}

} // verus!
