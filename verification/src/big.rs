//! Natural numbers of any size, as far as exact decimal and binary conversion
//! needs them.

use vstd::arithmetic::power2::{lemma2_to64, lemma_pow2_adds, lemma_pow2_pos, lemma_pow2_unfold, pow2};
use vstd::prelude::*;

verus! {

/// The number that the limbs write in base 2^32, least significant limb first.
pub open spec fn limbs_value(s: Seq<u32>) -> nat
    decreases s.len(),
{
    if s.len() == 0 {
        0
    } else {
        limbs_value(s.drop_last()) + s.last() as nat * pow2(32 * (s.len() - 1) as nat)
    }
}

/// How many bits a number takes; zero takes none.
pub open spec fn bit_length(v: nat) -> nat
    decreases v,
{
    if v == 0 {
        0
    } else {
        1 + bit_length(v / 2)
    }
}

/// How many bits a number takes as far as they are counted: of a number of more
/// than 320,000 bits none is.
pub open spec fn counted_bits(v: nat) -> nat {
    if bit_length(v) <= 320_000 {
        bit_length(v)
    } else {
        0
    }
}

/// How two numbers compare.
#[derive(Clone, Copy, Debug, PartialEq, Eq, Structural)]
pub enum Order {
    Less,
    Equal,
    Greater,
}

/// The order of two integers.
pub open spec fn order_of(a: int, b: int) -> Order {
    if a < b {
        Order::Less
    } else if a == b {
        Order::Equal
    } else {
        Order::Greater
    }
}

/// A natural number in base 2^32.
pub struct Big {
    pub limbs: Vec<u32>,
}

impl View for Big {
    type V = nat;

    open spec fn view(&self) -> nat {
        limbs_value(self.limbs@)
    }
}

proof fn lemma_limb_step(i: nat)
    ensures
        pow2(32 * (i + 1)) == 0x1_0000_0000 * pow2(32 * i),
        pow2(32 * i) > 0,
{
    lemma_pow2_adds(32, 32 * i);
    lemma2_to64();
    lemma_pow2_pos(32 * i);
    assert(32 * (i + 1) == 32 + 32 * i);
}

proof fn lemma_push(s: Seq<u32>, x: u32)
    ensures
        limbs_value(s.push(x)) == limbs_value(s) + x as nat * pow2(32 * s.len()),
{
    assert(s.push(x).drop_last() =~= s);
}

proof fn lemma_take(s: Seq<u32>, i: int)
    requires
        0 <= i < s.len(),
    ensures
        limbs_value(s.take(i + 1)) == limbs_value(s.take(i)) + s[i] as nat * pow2(32 * i as nat),
{
    assert(s.take(i + 1).drop_last() =~= s.take(i));
}

proof fn lemma_bound(s: Seq<u32>)
    ensures
        limbs_value(s) < pow2(32 * s.len()),
    decreases s.len(),
{
    if s.len() == 0 {
        lemma2_to64();
    } else {
        lemma_bound(s.drop_last());
        let n = (s.len() - 1) as nat;
        lemma_limb_step(n);
        let p = pow2(32 * n);
        let x = s.last() as nat;
        assert(x * p + p <= 0x1_0000_0000 * p) by (nonlinear_arith)
            requires
                x <= 0xffff_ffff,
        ;
    }
}

/// Zero limbs below a number multiply it by a power of two.
/// A number that takes bits lies between two powers of two.
proof fn lemma_bit_bounds(v: nat)
    requires
        v > 0,
    ensures
        bit_length(v) > 0,
        pow2((bit_length(v) - 1) as nat) <= v < pow2(bit_length(v)),
    decreases v,
{
    lemma2_to64();
    lemma_pow2_unfold(bit_length(v));
    if v > 1 {
        lemma_bit_bounds(v / 2);
        lemma_pow2_unfold((bit_length(v) - 1) as nat);
    } else {
        assert(bit_length(0) == 0);
    }
}

/// The powers of two around a number give the bits that it takes.
proof fn lemma_bit_length(v: nat, k: nat)
    requires
        k > 0,
        pow2((k - 1) as nat) <= v < pow2(k),
    ensures
        bit_length(v) == k,
    decreases k,
{
    lemma2_to64();
    lemma_pow2_unfold(k);
    if k > 1 {
        lemma_pow2_unfold((k - 1) as nat);
        lemma_bit_length(v / 2, (k - 1) as nat);
    } else {
        assert(v == 1);
        assert(bit_length(0) == 0);
    }
}

/// Where the last limb is not zero, its bits stand on top of 32 for each of the
/// others.
proof fn lemma_top_limb(s: Seq<u32>)
    requires
        s.len() > 0,
        s.last() > 0,
    ensures
        bit_length(limbs_value(s)) == 32 * (s.len() - 1) + bit_length(s.last() as nat),
        0 < bit_length(s.last() as nat) <= 32,
{
    let n = (s.len() - 1) as nat;
    let low = limbs_value(s.drop_last());
    let t = s.last() as nat;
    let k = bit_length(t);
    let p = pow2(32 * n);
    lemma_bound(s.drop_last());
    lemma_bit_bounds(t);
    lemma2_to64();
    if k > 32 {
        if k > 33 {
            vstd::arithmetic::power2::lemma_pow2_strictly_increases(32, (k - 1) as nat);
        }
    }
    let a = pow2((k - 1) as nat);
    let b = pow2(k);
    lemma_pow2_adds((k - 1) as nat, 32 * n);
    lemma_pow2_adds(k, 32 * n);
    assert(a * p <= low + t * p < b * p) by (nonlinear_arith)
        requires
            a <= t < b,
            0 <= low < p,
    ;
    lemma_bit_length(low + t * p, k + 32 * n);
}

proof fn lemma_low_zeros(z: Seq<u32>, s: Seq<u32>)
    requires
        forall|i: int| 0 <= i < z.len() ==> z[i] == 0,
    ensures
        limbs_value(z + s) == pow2(32 * z.len()) * limbs_value(s),
    decreases z.len() + s.len(),
{
    if s.len() > 0 {
        assert((z + s).drop_last() =~= z + s.drop_last());
        lemma_low_zeros(z, s.drop_last());
        let n = (s.len() - 1) as nat;
        lemma_pow2_adds(32 * z.len(), 32 * n);
        assert(32 * z.len() + 32 * n == 32 * (z.len() + n));
        let a = pow2(32 * z.len());
        let b = pow2(32 * n);
        let v = limbs_value(s.drop_last());
        let x = s.last() as nat;
        assert(a * v + x * (a * b) == a * (v + x * b)) by (nonlinear_arith);
    } else {
        assert(z + s =~= z);
        assert(pow2(32 * z.len()) * 0 == 0);
        if z.len() > 0 {
            assert(z.drop_last() + Seq::<u32>::empty() =~= z.drop_last());
            lemma_low_zeros(z.drop_last(), Seq::<u32>::empty());
            assert(pow2(32 * z.drop_last().len()) * 0 == 0);
            assert(0 * pow2(32 * (z.len() - 1) as nat) == 0);
        }
    }
}

proof fn lemma_carry_step(
    v: nat,
    a: nat,
    m: nat,
    c: nat,
    lo: nat,
    hi: nat,
    p: nat,
    out: nat,
    c0: nat,
)
    requires
        a * m + c == lo + 0x1_0000_0000 * hi,
        out + c * p == v * m + c0,
    ensures
        (out + lo * p) + hi * (0x1_0000_0000 * p) == (v + a * p) * m + c0,
{
    assert((out + lo * p) + hi * (0x1_0000_0000 * p) == out + (lo + 0x1_0000_0000 * hi) * p)
        by (nonlinear_arith);
    assert((a * m + c) * p == (a * p) * m + c * p) by (nonlinear_arith);
    assert((v + a * p) * m == v * m + (a * p) * m) by (nonlinear_arith);
}

impl Big {
    pub fn from_u128(x: u128) -> (r: Big)
        ensures
            r@ == x,
    {
        let mut limbs: Vec<u32> = Vec::new();
        let mut rest: u128 = x;
        proof {
            lemma2_to64();
            assert(x as nat * 1 == x);
            assert(32 * limbs@.len() == 0);
        }
        while rest > 0
            invariant
                limbs_value(limbs@) + rest as nat * pow2(32 * limbs@.len()) == x,
            decreases rest,
        {
            let low: u32 = (rest % 0x1_0000_0000) as u32;
            proof {
                lemma_push(limbs@, low);
                lemma_limb_step(limbs@.len());
                let p = pow2(32 * limbs@.len());
                let q = rest as nat / 0x1_0000_0000;
                assert(rest as nat * p == low as nat * p + q * (0x1_0000_0000 * p))
                    by (nonlinear_arith)
                    requires
                        rest == low + q * 0x1_0000_0000,
                ;
            }
            limbs.push(low);
            rest = rest / 0x1_0000_0000;
        }
        assert(0 * pow2(32 * limbs@.len()) == 0);
        Big { limbs }
    }

    pub fn from_u64(x: u64) -> (r: Big)
        ensures
            r@ == x,
    {
        Big::from_u128(x as u128)
    }

    /// The number times `m`, plus `c`.
    pub fn mul_add(&self, m: u32, c: u32) -> (r: Big)
        ensures
            r@ == self@ * m as nat + c as nat,
    {
        let mut limbs: Vec<u32> = Vec::new();
        let mut carry: u64 = c as u64;
        let mut i: usize = 0;
        proof {
            lemma2_to64();
            assert(self.limbs@.take(0) =~= Seq::<u32>::empty());
            assert(0nat * m as nat == 0);
            assert(c as nat * 1 == c);
        }
        while i < self.limbs.len()
            invariant
                i <= self.limbs@.len(),
                limbs@.len() == i,
                carry <= 0xffff_ffff,
                limbs_value(limbs@) + carry as nat * pow2(32 * i as nat) == limbs_value(
                    self.limbs@.take(i as int),
                ) * m as nat + c as nat,
            decreases self.limbs.len() - i,
        {
            let x: u64 = self.limbs[i] as u64;
            assert(x * m <= 0xffff_ffff * 0xffff_ffff) by (nonlinear_arith)
                requires
                    x <= 0xffff_ffff,
                    m <= 0xffff_ffff,
            ;
            let t: u64 = x * (m as u64) + carry;
            let low: u32 = (t % 0x1_0000_0000) as u32;
            proof {
                lemma_push(limbs@, low);
                lemma_take(self.limbs@, i as int);
                lemma_limb_step(i as nat);
                lemma_carry_step(
                    limbs_value(self.limbs@.take(i as int)),
                    x as nat,
                    m as nat,
                    carry as nat,
                    low as nat,
                    t as nat / 0x1_0000_0000,
                    pow2(32 * i as nat),
                    limbs_value(limbs@),
                    c as nat,
                );
            }
            limbs.push(low);
            carry = t / 0x1_0000_0000;
            i += 1;
        }
        assert(self.limbs@.take(i as int) =~= self.limbs@);
        if carry > 0 {
            proof {
                lemma_push(limbs@, carry as u32);
            }
            limbs.push(carry as u32);
        } else {
            assert(0 * pow2(32 * i as nat) == 0);
        }
        Big { limbs }
    }

    /// The number times 2^k.
    pub fn shl(&self, k: u32) -> (r: Big)
        ensures
            r@ == self@ * pow2(k as nat),
    {
        let words: u32 = k / 32;
        let bits: u32 = k % 32;
        let mut factor: u32 = 1;
        let mut j: u32 = 0;
        proof {
            lemma2_to64();
        }
        while j < bits
            invariant
                j <= bits < 32,
                factor == pow2(j as nat),
            decreases bits - j,
        {
            proof {
                lemma_pow2_unfold((j + 1) as nat);
                lemma2_to64();
                vstd::arithmetic::power2::lemma_pow2_strictly_increases(j as nat, 31);
            }
            factor = factor * 2;
            j += 1;
        }
        let product = self.mul_add(factor, 0);
        let mut limbs: Vec<u32> = Vec::new();
        let mut i: u32 = 0;
        while i < words
            invariant
                i <= words,
                limbs@.len() == i,
                forall|j: int| 0 <= j < limbs@.len() ==> limbs@[j] == 0,
            decreases words - i,
        {
            limbs.push(0);
            i += 1;
        }
        let ghost zeros = limbs@;
        let mut n: usize = 0;
        while n < product.limbs.len()
            invariant
                n <= product.limbs@.len(),
                limbs@ == zeros + product.limbs@.take(n as int),
            decreases product.limbs.len() - n,
        {
            limbs.push(product.limbs[n]);
            n += 1;
            assert(limbs@ =~= zeros + product.limbs@.take(n as int));
        }
        proof {
            assert(product.limbs@.take(n as int) =~= product.limbs@);
            lemma_low_zeros(zeros, product.limbs@);
            lemma_pow2_adds(32 * zeros.len(), bits as nat);
            let a = pow2(32 * zeros.len());
            let b = factor as nat;
            assert(a * (self@ * b) == self@ * (a * b)) by (nonlinear_arith);
        }
        Big { limbs }
    }
}

/// The limb at place `i`, zero beyond the last one.
spec fn limb_at(s: Seq<u32>, i: int) -> nat {
    if 0 <= i < s.len() {
        s[i] as nat
    } else {
        0
    }
}

/// The number that the lowest `i` limbs write.
spec fn prefix(s: Seq<u32>, i: int) -> nat {
    if i < s.len() {
        limbs_value(s.take(i))
    } else {
        limbs_value(s)
    }
}

proof fn lemma_prefix(s: Seq<u32>, i: int)
    requires
        0 <= i,
    ensures
        prefix(s, i + 1) == prefix(s, i) + limb_at(s, i) * pow2(32 * i as nat),
        prefix(s, 0) == 0,
        prefix(s, i) < pow2(32 * i as nat),
{
    assert(s.take(0) =~= Seq::<u32>::empty());
    assert(s.take(s.len() as int) =~= s);
    if i < s.len() {
        lemma_take(s, i);
        lemma_bound(s.take(i));
    } else {
        assert(0 * pow2(32 * i as nat) == 0);
        lemma_bound(s);
        if s.len() < i {
            vstd::arithmetic::power2::lemma_pow2_strictly_increases(32 * s.len(), 32 * i as nat);
        }
    }
}

impl Big {
    fn limb(&self, i: usize) -> (r: u32)
        ensures
            r == limb_at(self.limbs@, i as int),
    {
        if i < self.limbs.len() {
            self.limbs[i]
        } else {
            0
        }
    }

    fn longer(&self, other: &Big) -> (r: usize)
        ensures
            self.limbs@.len() <= r,
            other.limbs@.len() <= r,
            r == self.limbs@.len() || r == other.limbs@.len(),
    {
        if self.limbs.len() < other.limbs.len() {
            other.limbs.len()
        } else {
            self.limbs.len()
        }
    }

    /// How the number compares with another.
    pub fn compare(&self, other: &Big) -> (r: Order)
        ensures
            r == order_of(self@ as int, other@ as int),
    {
        let mut i: usize = self.longer(other);
        while i > 0
            invariant
                self@ - other@ == prefix(self.limbs@, i as int) - prefix(other.limbs@, i as int),
            decreases i,
        {
            i -= 1;
            let a: u32 = self.limb(i);
            let b: u32 = other.limb(i);
            proof {
                lemma_prefix(self.limbs@, i as int);
                lemma_prefix(other.limbs@, i as int);
            }
            if a != b {
                proof {
                    let p = pow2(32 * i as nat);
                    if a < b {
                        assert(a as nat * p + p <= b as nat * p) by (nonlinear_arith)
                            requires
                                a < b,
                        ;
                    } else {
                        assert(b as nat * p + p <= a as nat * p) by (nonlinear_arith)
                            requires
                                b < a,
                        ;
                    }
                }
                return if a < b {
                    Order::Less
                } else {
                    Order::Greater
                };
            }
        }
        proof {
            lemma_prefix(self.limbs@, 0);
            lemma_prefix(other.limbs@, 0);
        }
        Order::Equal
    }

    /// The sum of two numbers.
    pub fn plus(&self, other: &Big) -> (r: Big)
        ensures
            r@ == self@ + other@,
    {
        let n: usize = self.longer(other);
        let mut limbs: Vec<u32> = Vec::new();
        let mut carry: u64 = 0;
        let mut i: usize = 0;
        proof {
            lemma_prefix(self.limbs@, 0);
            lemma_prefix(other.limbs@, 0);
            assert(0 * pow2(0) == 0);
        }
        while i < n
            invariant
                i <= n,
                limbs@.len() == i,
                carry <= 1,
                limbs_value(limbs@) + carry as nat * pow2(32 * i as nat) == prefix(
                    self.limbs@,
                    i as int,
                ) + prefix(other.limbs@, i as int),
            decreases n - i,
        {
            let a: u64 = self.limb(i) as u64;
            let b: u64 = other.limb(i) as u64;
            let t: u64 = a + b + carry;
            let low: u32 = (t % 0x1_0000_0000) as u32;
            proof {
                lemma_prefix(self.limbs@, i as int);
                lemma_prefix(other.limbs@, i as int);
                lemma_push(limbs@, low);
                lemma_limb_step(i as nat);
                let p = pow2(32 * i as nat);
                let hi = t as nat / 0x1_0000_0000;
                assert(low as nat * p + hi * (0x1_0000_0000 * p) == a as nat * p + b as nat * p
                    + carry as nat * p) by (nonlinear_arith)
                    requires
                        a + b + carry == low + 0x1_0000_0000 * hi,
                ;
            }
            limbs.push(low);
            carry = t / 0x1_0000_0000;
            i += 1;
        }
        if carry > 0 {
            proof {
                lemma_push(limbs@, 1);
            }
            limbs.push(1);
        } else {
            assert(0 * pow2(32 * i as nat) == 0);
        }
        Big { limbs }
    }

    /// The difference of two numbers, the other being the smaller.
    pub fn minus(&self, other: &Big) -> (r: Big)
        requires
            other@ <= self@,
        ensures
            r@ == self@ - other@,
    {
        let n: usize = self.longer(other);
        let mut limbs: Vec<u32> = Vec::new();
        let mut borrow: u64 = 0;
        let mut i: usize = 0;
        proof {
            lemma_prefix(self.limbs@, 0);
            lemma_prefix(other.limbs@, 0);
            assert(0 * pow2(0) == 0);
        }
        while i < n
            invariant
                i <= n,
                limbs@.len() == i,
                borrow <= 1,
                limbs_value(limbs@) + prefix(other.limbs@, i as int) == prefix(
                    self.limbs@,
                    i as int,
                ) + borrow as nat * pow2(32 * i as nat),
            decreases n - i,
        {
            let a: u64 = self.limb(i) as u64;
            let b: u64 = other.limb(i) as u64;
            let t: u64 = 0x1_0000_0000 + a - b - borrow;
            let low: u32 = (t % 0x1_0000_0000) as u32;
            let next: u64 = if t < 0x1_0000_0000 {
                1
            } else {
                0
            };
            proof {
                lemma_prefix(self.limbs@, i as int);
                lemma_prefix(other.limbs@, i as int);
                lemma_push(limbs@, low);
                lemma_limb_step(i as nat);
                let p = pow2(32 * i as nat);
                assert(low as nat * p + b as nat * p + borrow as nat * p == a as nat * p
                    + next as nat * (0x1_0000_0000 * p)) by (nonlinear_arith)
                    requires
                        low + b + borrow == a + 0x1_0000_0000 * next,
                ;
            }
            limbs.push(low);
            borrow = next;
            i += 1;
        }
        proof {
            lemma_bound(limbs@);
            assert(0 * pow2(32 * n as nat) == 0);
            assert(1 * pow2(32 * n as nat) == pow2(32 * n as nat));
        }
        Big { limbs }
    }

    /// How many bits the number takes, up to the size at which they are no longer
    /// counted.
    pub(crate) fn rough_bits(&self) -> (r: u32)
        ensures
            r == counted_bits(self@),
    {
        let mut n: usize = self.limbs.len();
        assert(self.limbs@.take(n as int) =~= self.limbs@);
        while n > 0 && self.limbs[n - 1] == 0
            invariant
                n <= self.limbs@.len(),
                limbs_value(self.limbs@.take(n as int)) == self@,
            decreases n,
        {
            proof {
                lemma_take(self.limbs@, n - 1);
                assert(0 * pow2(32 * (n - 1) as nat) == 0);
            }
            n -= 1;
        }
        if n == 0 {
            return 0;
        }
        proof {
            lemma_top_limb(self.limbs@.take(n as int));
        }
        if n > 10_000 {
            return 0;
        }
        let mut top: u32 = self.limbs[n - 1];
        let ghost most = bit_length(top as nat);
        let mut bits: u32 = 0;
        while top > 0
            invariant
                bits + bit_length(top as nat) == most,
                most <= 32,
            decreases top,
        {
            top = top / 2;
            bits += 1;
        }
        (n as u32 - 1) * 32 + bits
    }
}

/// A quotient, and what its remainder is to half of the divisor.
#[derive(Clone, Copy, Debug)]
pub struct Quotient {
    pub floor: u64,
    pub half: Order,
    pub exact: bool,
}

/// Divides `n` by `d`, for a quotient below 2^64.
pub fn divide(n: &Big, d: &Big) -> (r: Quotient)
    requires
        d@ > 0,
        n@ < d@ * pow2(64),
    ensures
        r.floor == n@ / d@,
        r.half == order_of(2 * (n@ % d@) as int, d@ as int),
        r.exact == (n@ % d@ == 0),
{
    let top = d.shl(64);
    let mut rest = n.mul_add(1, 0);
    let mut floor: u64 = 0;
    let mut i: u32 = 0;
    proof {
        lemma2_to64();
        assert(n@ * 1 == n@);
        assert(0 * top@ == 0);
    }
    while i < 64
        invariant
            i <= 64,
            top@ == d@ * pow2(64),
            rest@ < top@,
            floor < pow2(i as nat),
            n@ * pow2(i as nat) == floor as nat * top@ + rest@,
        decreases 64 - i,
    {
        proof {
            lemma_pow2_unfold((i + 1) as nat);
            lemma2_to64();
            lemma_pow2_unfold(64);
            if i < 63 {
                vstd::arithmetic::power2::lemma_pow2_strictly_increases(i as nat, 63);
            }
            let p = pow2(i as nat);
            assert(n@ * (2 * p) == 2 * (n@ * p)) by (nonlinear_arith);
            assert((2 * floor as nat) * top@ == 2 * (floor as nat * top@)) by (nonlinear_arith);
            assert((2 * floor as nat + 1) * top@ == (2 * floor as nat) * top@ + top@)
                by (nonlinear_arith);
        }
        let doubled = rest.mul_add(2, 0);
        match doubled.compare(&top) {
            Order::Less => {
                rest = doubled;
                floor = floor * 2;
            },
            _ => {
                rest = doubled.minus(&top);
                floor = floor * 2 + 1;
            },
        }
        i += 1;
    }
    let twice = rest.mul_add(2, 0);
    let half = twice.compare(&top);
    let zero = Big::from_u64(0);
    let exact = match rest.compare(&zero) {
        Order::Equal => true,
        _ => false,
    };
    proof {
        let p = pow2(64);
        lemma_pow2_pos(64);
        lemma_remainder(n@, d@, p, floor as nat, rest@);
    }
    Quotient { floor, half, exact }
}

proof fn lemma_remainder(n: nat, d: nat, p: nat, q: nat, rest: nat)
    requires
        d > 0,
        p > 0,
        rest < d * p,
        n * p == q * (d * p) + rest,
    ensures
        q == n / d,
        rest == (n % d) * p,
        (rest == 0) == (n % d == 0),
        order_of(2 * rest as int, (d * p) as int) == order_of(2 * (n % d) as int, d as int),
{
    let r = n - q * d;
    assert(n * p == q * d * p + r * p) by (nonlinear_arith)
        requires
            n == q * d + r,
    ;
    assert(q * (d * p) == q * d * p) by (nonlinear_arith);
    assert(r * p == rest);
    assert(0 <= r < d) by (nonlinear_arith)
        requires
            r * p == rest,
            rest < d * p,
            p > 0,
            rest >= 0,
    ;
    vstd::arithmetic::div_mod::lemma_fundamental_div_mod_converse(n as int, d as int, q as int, r);
    assert((rest == 0) == (r == 0)) by (nonlinear_arith)
        requires
            r * p == rest,
            p > 0,
    ;
    assert(2 * rest < d * p <==> 2 * r < d) by (nonlinear_arith)
        requires
            r * p == rest,
            p > 0,
    ;
    assert(2 * rest > d * p <==> 2 * r > d) by (nonlinear_arith)
        requires
            r * p == rest,
            p > 0,
    ;
}

} // verus!
