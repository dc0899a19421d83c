//! IEEE 754 binary64 numbers, computed on their bits.
//!
//! Every finite number is a whole multiple of 2^-1074, so a number is a count of such
//! units. An operation rounds its exact result to the nearest number, to the one with an
//! even last bit where two are equally near.

use crate::big;
use crate::big::{order_of, Order};
use crate::text;
use crate::types::{Double, Single};
use vstd::arithmetic::mul::{lemma_mul_is_associative, lemma_mul_strict_inequality};
use vstd::arithmetic::power2;
use vstd::prelude::*;

verus! {

/// The bits of positive infinity: the first pattern above the finite numbers.
pub const INFINITY_BITS: u64 = 0x7ff0_0000_0000_0000;

/// The bits of the quiet NaN.
pub const NAN_BITS: u64 = 0x7ff8_0000_0000_0000;

/// The sign bit.
pub const SIGN_BIT: u64 = 0x8000_0000_0000_0000;

/// The significand of a non-negative pattern, the hidden bit included.
pub open spec fn significand(b: int) -> int {
    if b < 0x10_0000_0000_0000 {
        b
    } else {
        0x10_0000_0000_0000 + b % 0x10_0000_0000_0000
    }
}

/// The power of two that the significand of a non-negative pattern counts, in units.
pub open spec fn scale(b: int) -> nat {
    if b < 0x10_0000_0000_0000 {
        0
    } else {
        (b / 0x10_0000_0000_0000 - 1) as nat
    }
}

/// How many units of 2^-1074 a non-negative pattern stands for. The pattern of infinity
/// stands for the number that would follow the largest finite one.
pub open spec fn units(b: int) -> int {
    significand(b) * power2::pow2(scale(b))
}

/// The distance between `num / den` and a pattern, in parts of `den` units.
pub open spec fn distance(num: nat, den: nat, b: int) -> int {
    let d = units(b) * den - num * power2::pow2(1074);
    if d < 0 {
        -d
    } else {
        d
    }
}

/// Whether no other pattern up to infinity is nearer to `num / den`, nor equally near
/// without this one being even.
pub open spec fn is_nearest(num: nat, den: nat, b: u64) -> bool {
    &&& b <= INFINITY_BITS
    &&& forall|c: u64|
        c <= INFINITY_BITS && c != b ==> {
            ||| distance(num, den, b as int) < #[trigger] distance(num, den, c as int)
            ||| distance(num, den, b as int) == distance(num, den, c as int) && b % 2 == 0
        }
}

/// The pattern nearest to `num / den`.
pub open spec fn nearest(num: nat, den: nat) -> u64 {
    choose|b: u64| is_nearest(num, den, b)
}

proof fn lemma_units_step(b: int)
    requires
        0 <= b,
    ensures
        units(b + 1) == units(b) + power2::pow2(scale(b)),
        units(b) < units(b + 1),
{
    let h: int = 0x10_0000_0000_0000;
    power2::lemma_pow2_pos(scale(b));
    power2::lemma2_to64();
    assert(forall|x: int| #[trigger] (x * 1) == x) by (nonlinear_arith);
    if b + 1 < h {
        assert(scale(b) == 0 && scale(b + 1) == 0);
    } else if b < h {
        assert((b + 1) % h == 0 && (b + 1) / h == 1);
        assert(scale(b) == 0 && scale(b + 1) == 0);
    } else if (b + 1) % h != 0 {
        assert((b + 1) % h == b % h + 1 && (b + 1) / h == b / h) by (nonlinear_arith)
            requires
                (b + 1) % h != 0,
                h == 0x10_0000_0000_0000,
        ;
        let p = power2::pow2(scale(b)) as int;
        let s = significand(b);
        assert((s + 1) * p == s * p + p) by (nonlinear_arith);
    } else {
        assert(b % h == h - 1 && (b + 1) / h == b / h + 1) by (nonlinear_arith)
            requires
                (b + 1) % h == 0,
                h == 0x10_0000_0000_0000,
        ;
        assert(scale(b + 1) == scale(b) + 1);
        power2::lemma_pow2_unfold(scale(b + 1));
        let p = power2::pow2(scale(b)) as int;
        assert(h * (2 * p) == (h + (h - 1)) * p + p) by (nonlinear_arith);
    }
}

pub proof fn lemma_units_monotone(a: int, b: int)
    requires
        0 <= a <= b,
    ensures
        units(a) <= units(b),
        a < b ==> units(a) < units(b),
        0 <= units(a),
    decreases b - a,
{
    power2::lemma_pow2_pos(scale(a));
    assert(0 <= significand(a) * power2::pow2(scale(a))) by (nonlinear_arith)
        requires
            0 <= significand(a),
            0 < power2::pow2(scale(a)),
    ;
    if a < b {
        lemma_units_monotone(a, b - 1);
        lemma_units_step(b - 1);
    }
}

pub proof fn lemma_scaled_monotone(den: nat, a: int, b: int)
    requires
        0 <= a < b,
        den > 0,
    ensures
        units(a) * den < units(b) * den,
{
    lemma_units_monotone(a, b);
    lemma_mul_strict_inequality(units(a), units(b), den as int);
}

/// There is at most one nearest pattern.
proof fn lemma_nearest_unique(num: nat, den: nat, a: u64, b: u64)
    requires
        den > 0,
        is_nearest(num, den, a),
        is_nearest(num, den, b),
    ensures
        a == b,
{
    if a != b {
        let lo = if a < b {
            a
        } else {
            b
        };
        let hi = if a < b {
            b
        } else {
            a
        };
        assert(distance(num, den, a as int) == distance(num, den, b as int));
        assert(lo + 1 < hi);
        let mid = (lo + 1) as u64;
        lemma_scaled_monotone(den, lo as int, mid as int);
        lemma_scaled_monotone(den, mid as int, hi as int);
        assert(distance(num, den, mid as int) < distance(num, den, lo as int));
    }
}

pub proof fn lemma_is_nearest(num: nat, den: nat, b: u64)
    requires
        den > 0,
        is_nearest(num, den, b),
    ensures
        nearest(num, den) == b,
{
    lemma_nearest_unique(num, den, nearest(num, den), b);
}

/// A number at or beyond the pattern of infinity rounds to infinity.
proof fn lemma_nearest_infinity(num: nat, den: nat)
    requires
        den > 0,
        units(INFINITY_BITS as int) * den <= num * power2::pow2(1074),
    ensures
        is_nearest(num, den, INFINITY_BITS),
        nearest(num, den) == INFINITY_BITS,
{
    assert forall|c: u64| c <= INFINITY_BITS && c != INFINITY_BITS implies distance(
        num,
        den,
        INFINITY_BITS as int,
    ) < #[trigger] distance(num, den, c as int) by {
        lemma_scaled_monotone(den, c as int, INFINITY_BITS as int);
    }
    lemma_is_nearest(num, den, INFINITY_BITS);
}

/// A number between two neighbours rounds to one of them, as its place to their middle says.
proof fn lemma_nearest_between(num: nat, den: nat, b: u64)
    requires
        den > 0,
        b < INFINITY_BITS,
        units(b as int) * den <= num * power2::pow2(1074) < units(b + 1) * den,
    ensures
        ({
            let twice = 2 * (num * power2::pow2(1074));
            let middle = units(b as int) * den + units(b + 1) * den;
            nearest(num, den) == (if twice < middle || twice == middle && b % 2 == 0 {
                b
            } else {
                (b + 1) as u64
            })
        }),
        is_nearest(num, den, nearest(num, den)),
{
    let x = num * power2::pow2(1074);
    let next = (b + 1) as u64;
    let middle = units(b as int) * den + units(b + 1) * den;
    let pick = if 2 * x < middle || 2 * x == middle && b % 2 == 0 {
        b
    } else {
        next
    };
    assert forall|c: u64| c <= INFINITY_BITS && c != pick implies ({
        ||| distance(num, den, pick as int) < #[trigger] distance(num, den, c as int)
        ||| distance(num, den, pick as int) == distance(num, den, c as int) && pick % 2 == 0
    }) by {
        if c < b {
            lemma_scaled_monotone(den, c as int, b as int);
        } else if c > next {
            lemma_scaled_monotone(den, next as int, c as int);
        }
    }
    lemma_is_nearest(num, den, pick);
}

/// Scaling numerator and denominator changes nothing.
proof fn lemma_nearest_scaled(num: nat, den: nat, k: nat)
    requires
        den > 0,
        k > 0,
    ensures
        nearest(num * k, den * k) == nearest(num, den),
{
    lemma_nearest_exists(num, den);
    let b = nearest(num, den);
    assert(den * k > 0) by (nonlinear_arith)
        requires
            den > 0,
            k > 0,
    ;
    assert forall|c: int| #[trigger] distance(num * k, den * k, c) == distance(num, den, c) * k by {
        let u = units(c);
        let p = power2::pow2(1074) as int;
        assert(u * (den * k) - (num * k) * p == (u * den - num * p) * k) by (nonlinear_arith);
        let d = u * den - num * p;
        assert((-d) * k == -(d * k)) by (nonlinear_arith);
        assert(d < 0 ==> d * k < 0) by (nonlinear_arith)
            requires
                k > 0,
        ;
        assert(d >= 0 ==> d * k >= 0) by (nonlinear_arith)
            requires
                k > 0,
        ;
    }
    assert forall|c: u64| c <= INFINITY_BITS && c != b implies ({
        ||| distance(num * k, den * k, b as int) < #[trigger] distance(num * k, den * k, c as int)
        ||| distance(num * k, den * k, b as int) == distance(num * k, den * k, c as int) && b % 2
            == 0
    }) by {
        let x = distance(num, den, b as int);
        let y = distance(num, den, c as int);
        assert(x < y ==> x * k < y * k) by (nonlinear_arith)
            requires
                k > 0,
        ;
    }
    lemma_is_nearest(num * k, den * k, b);
}

/// Some pattern is the nearest.
pub proof fn lemma_nearest_exists(num: nat, den: nat)
    requires
        den > 0,
    ensures
        is_nearest(num, den, nearest(num, den)),
{
    let x = num * power2::pow2(1074);
    if units(INFINITY_BITS as int) * den <= x {
        lemma_nearest_infinity(num, den);
    } else {
        lemma_zero_below(num, den);
        let b = lemma_floor_exists(num, den, 0, INFINITY_BITS as int);
        lemma_nearest_between(num, den, b);
    }
}

pub proof fn lemma_zero_below(num: nat, den: nat)
    ensures
        units(0) == 0,
        units(0) * den == 0,
        0 <= num * power2::pow2(1074),
{
    assert(0 * power2::pow2(0) == 0) by (nonlinear_arith);
    assert(0 * den == 0) by (nonlinear_arith);
    assert(0 <= num * power2::pow2(1074)) by (nonlinear_arith)
        requires
            num >= 0,
    ;
}

proof fn lemma_floor_exists(num: nat, den: nat, lo: int, hi: int) -> (b: u64)
    requires
        den > 0,
        0 <= lo < hi <= INFINITY_BITS,
        units(lo) * den <= num * power2::pow2(1074) < units(hi) * den,
    ensures
        b < INFINITY_BITS,
        units(b as int) * den <= num * power2::pow2(1074) < units(b + 1) * den,
    decreases hi - lo,
{
    if hi == lo + 1 {
        lo as u64
    } else if units(lo + 1) * den <= num * power2::pow2(1074) {
        lemma_floor_exists(num, den, lo + 1, hi)
    } else {
        lo as u64
    }
}

/// The significand and scale of a non-negative pattern.
fn parts(b: u64) -> (r: (u64, usize))
    requires
        b <= INFINITY_BITS,
    ensures
        r.0 as int == significand(b as int),
        r.1 as nat == scale(b as int),
        r.0 < 0x20_0000_0000_0000,
        r.1 <= 2046,
{
    if b < 0x10_0000_0000_0000 {
        (b, 0)
    } else {
        (
            0x10_0000_0000_0000 + b % 0x10_0000_0000_0000,
            (b / 0x10_0000_0000_0000 - 1) as usize,
        )
    }
}

/// How `m * 2^s * den` compares with `num * 2^t`.
fn probe(m: u64, s: usize, den: &Vec<u64>, num: &Vec<u64>, t: usize) -> (r: Order)
    requires
        s <= 2046,
        t <= 1075,
    ensures
        r == order_of(
            m * power2::pow2(s as nat) * big::value(den@),
            big::value(num@) * power2::pow2(t as nat) as int,
        ),
{
    let scaled = big::mul_plus(den, m, 0);
    let ghost d = big::value(den@) as int;
    let ghost n = big::value(num@) as int;
    if s <= t {
        let right = big::shift_left(num, t - s);
        let r = big::order(&scaled, &right);
        proof {
            power2::lemma_pow2_adds((t - s) as nat, s as nat);
            let p = power2::pow2(s as nat) as int;
            let q = power2::pow2((t - s) as nat) as int;
            power2::lemma_pow2_pos(s as nat);
            lemma_common_factor(d * m, n * q, p);
            assert(d * m * p == m * p * d) by (nonlinear_arith);
            assert(n * q * p == n * (q * p)) by (nonlinear_arith);
        }
        r
    } else {
        let left = big::shift_left(&scaled, s - t);
        let r = big::order(&left, num);
        proof {
            power2::lemma_pow2_adds((s - t) as nat, t as nat);
            let p = power2::pow2(t as nat) as int;
            let q = power2::pow2((s - t) as nat) as int;
            power2::lemma_pow2_pos(t as nat);
            lemma_common_factor(d * m * q, n, p);
            assert(d * m * q * p == m * (q * p) * d) by (nonlinear_arith);
        }
        r
    }
}

proof fn lemma_common_factor(a: int, b: int, p: int)
    requires
        p > 0,
    ensures
        order_of(a, b) == order_of(a * p, b * p),
{
    assert(a < b ==> a * p < b * p) by (nonlinear_arith)
        requires
            p > 0,
    ;
    assert(a > b ==> a * p > b * p) by (nonlinear_arith)
        requires
            p > 0,
    ;
}

/// The pattern nearest to `num / den`, found by bisection.
fn round_ratio(num: &Vec<u64>, den: &Vec<u64>) -> (r: u64)
    requires
        big::value(den@) > 0,
    ensures
        r == nearest(big::value(num@), big::value(den@)),
        r <= INFINITY_BITS,
{
    let ghost n = big::value(num@);
    let ghost d = big::value(den@);
    let ghost x = n * power2::pow2(1074);
    let (m, s) = parts(INFINITY_BITS);
    if probe(m, s, den, num, 1074) != Order::Greater {
        proof {
            lemma_nearest_infinity(n, d);
        }
        return INFINITY_BITS;
    }
    let mut lo: u64 = 0;
    let mut hi: u64 = INFINITY_BITS;
    proof {
        lemma_zero_below(n, d);
    }
    // The lengths of the numbers bound the exponent from both sides, so the first two
    // probes leave little more than the significand to find.
    let guess: usize = big::bit_length_hint(num) + 1022;
    let taken: usize = big::bit_length_hint(den);
    let mut hints: usize = 0;
    while hi - lo > 1
        invariant
            lo < hi <= INFINITY_BITS,
            n == big::value(num@),
            d == big::value(den@),
            x == n * power2::pow2(1074),
            guess <= 2_000_000,
            taken <= 1_000_000,
            units(lo as int) * d <= x < units(hi as int) * d,
        decreases hi - lo,
    {
        let half: u64 = lo + (hi - lo) / 2;
        let mut mid: u64 = half;
        if hints < 2 && guess + 2 * hints > taken {
            let e: usize = guess + 2 * hints - taken;
            if e < 2047 {
                mid = e as u64 * 0x10_0000_0000_0000;
            }
        }
        if hints < 2 {
            hints += 1;
        }
        if mid <= lo || hi <= mid {
            mid = half;
        }
        let (m, s) = parts(mid);
        if probe(m, s, den, num, 1074) == Order::Greater {
            hi = mid;
        } else {
            lo = mid;
        }
    }
    let (m, s) = parts(lo);
    let place = probe(2 * m + 1, s, den, num, 1075);
    proof {
        lemma_nearest_between(n, d, lo);
        lemma_units_step(lo as int);
        let p = power2::pow2(s as nat) as int;
        power2::lemma_pow2_unfold(1075);
        assert(n * (2 * power2::pow2(1074)) == 2 * x) by (nonlinear_arith)
            requires
                x == n * power2::pow2(1074),
        ;
        assert((2 * m + 1) * p * d == m * p * d + (m * p + p) * d) by (nonlinear_arith);
    }
    match place {
        Order::Greater => lo,
        Order::Less => lo + 1,
        Order::Equal => if lo % 2 == 0 {
            lo
        } else {
            lo + 1
        },
    }
}

/// The number nearest to `num / den`.
pub open spec fn rounded(num: int, den: nat) -> Double {
    if num < 0 {
        Double { bits: (SIGN_BIT + nearest((-num) as nat, den)) as u64 }
    } else {
        Double { bits: nearest(num as nat, den) }
    }
}

fn with_sign(negative: bool, magnitude: u64) -> (r: Double)
    requires
        magnitude <= INFINITY_BITS,
    ensures
        r.bits == (if negative {
            (SIGN_BIT + magnitude) as u64
        } else {
            magnitude
        }),
{
    if negative {
        Double { bits: SIGN_BIT + magnitude }
    } else {
        Double { bits: magnitude }
    }
}

impl Double {
    /// The bits without the sign.
    pub open spec fn magnitude(self) -> u64 {
        (self.bits % SIGN_BIT) as u64
    }

    /// Whether the number is neither infinite nor a NaN.
    pub open spec fn finite(self) -> bool {
        self.magnitude() < INFINITY_BITS
    }

    /// The value of a finite number in units of 2^-1074.
    pub open spec fn signed_units(self) -> int {
        if self.bits >= SIGN_BIT {
            -units(self.magnitude() as int)
        } else {
            units(self.magnitude() as int)
        }
    }

    /// The number nearest to an integer.
    pub fn from_i64(n: i64) -> (r: Self)
        ensures
            r == rounded(n as int, 1),
    {
        let magnitude: u64 = if n < 0 {
            (-(n as i128)) as u64
        } else {
            n as u64
        };
        let bits = round_ratio(&big::small(magnitude), &big::one());
        with_sign(n < 0, bits)
    }

    /// The number as a sign, a significand and a scale.
    fn split(self) -> (r: (bool, u64, usize))
        requires
            self.finite(),
        ensures
            r.0 == (self.bits >= SIGN_BIT),
            r.1 as int == significand(self.magnitude() as int),
            r.2 as nat == scale(self.magnitude() as int),
            self.signed_units() == (if r.0 {
                -(r.1 * power2::pow2(r.2 as nat))
            } else {
                r.1 * power2::pow2(r.2 as nat)
            }),
            r.2 <= 2046,
    {
        let (m, s) = parts(self.bits % SIGN_BIT);
        (self.bits >= SIGN_BIT, m, s)
    }

    /// The sum of two finite numbers, rounded. An exact zero is positive.
    pub fn sum(self, other: Self) -> (r: Self)
        requires
            self.finite(),
            other.finite(),
        ensures
            r == rounded(self.signed_units() + other.signed_units(), power2::pow2(1074)),
    {
        let (neg_a, m_a, s_a) = self.split();
        let (neg_b, m_b, s_b) = other.split();
        let low: usize = if s_a < s_b {
            s_a
        } else {
            s_b
        };
        let a = big::shift_left(&big::small(m_a), s_a - low);
        let b = big::shift_left(&big::small(m_b), s_b - low);
        let ghost p = power2::pow2(low as nat) as int;
        let ghost x = big::value(a@) as int;
        let ghost y = big::value(b@) as int;
        proof {
            power2::lemma_pow2_pos(low as nat);
            power2::lemma_pow2_adds((s_a - low) as nat, low as nat);
            power2::lemma_pow2_adds((s_b - low) as nat, low as nat);
            lemma_mul_is_associative(m_a as int, power2::pow2((s_a - low) as nat) as int, p);
            lemma_mul_is_associative(m_b as int, power2::pow2((s_b - low) as nat) as int, p);
            assert((x + y) * p == x * p + y * p) by (nonlinear_arith);
            assert((x - y) * p == x * p - y * p) by (nonlinear_arith);
            assert((y - x) * p == y * p - x * p) by (nonlinear_arith);
            assert(x * p >= 0 && y * p >= 0) by (nonlinear_arith)
                requires
                    x >= 0,
                    y >= 0,
                    p > 0,
            ;
            lemma_common_factor(x, y, p);
        }
        if neg_a == neg_b {
            let total = big::plus(&a, &b);
            let bits = round_scaled(&total, low, 1074);
            proof {
                assert(big::value(total@) == 0 ==> big::value(total@) * p == 0) by (nonlinear_arith);
                assert(big::value(total@) > 0 ==> big::value(total@) * p > 0) by (nonlinear_arith)
                    requires
                        p > 0,
                ;
            }
            with_sign(neg_a && !is_zero(&total), bits)
        } else {
            match big::order(&a, &b) {
                Order::Less => {
                    let bits = round_scaled(&big::minus(&b, &a), low, 1074);
                    with_sign(neg_b, bits)
                },
                Order::Equal => {
                    let bits = round_scaled(&big::small(0), low, 1074);
                    assert(0 * p == 0) by (nonlinear_arith);
                    with_sign(false, bits)
                },
                Order::Greater => {
                    let bits = round_scaled(&big::minus(&a, &b), low, 1074);
                    with_sign(neg_a, bits)
                },
            }
        }
    }

    /// The product of two finite numbers, rounded. An exact zero is positive.
    pub fn product(self, other: Self) -> (r: Self)
        requires
            self.finite(),
            other.finite(),
        ensures
            r == rounded(self.signed_units() * other.signed_units(), power2::pow2(2148)),
    {
        let (neg_a, m_a, s_a) = self.split();
        let (neg_b, m_b, s_b) = other.split();
        let n = big::mul_plus(&big::small(m_a), m_b, 0);
        let bits = round_scaled(&n, s_a + s_b, 2148);
        let negative = neg_a != neg_b && m_a != 0 && m_b != 0;
        proof {
            let p = power2::pow2(s_a as nat) as int;
            let q = power2::pow2(s_b as nat) as int;
            let a = m_a as int;
            let b = m_b as int;
            power2::lemma_pow2_adds(s_a as nat, s_b as nat);
            power2::lemma_pow2_pos((s_a + s_b) as nat);
            assert((a * p) * (b * q) == (a * b) * (p * q)) by (nonlinear_arith);
            assert((-(a * p)) * (b * q) == -((a * p) * (b * q))) by (nonlinear_arith);
            assert((a * p) * (-(b * q)) == -((a * p) * (b * q))) by (nonlinear_arith);
            assert((-(a * p)) * (-(b * q)) == (a * p) * (b * q)) by (nonlinear_arith);
            let t = p * q;
            assert(a == 0 || b == 0 ==> (a * b) * t == 0) by (nonlinear_arith);
            assert(a > 0 && b > 0 ==> (a * b) * t > 0) by (nonlinear_arith)
                requires
                    t > 0,
            ;
        }
        with_sign(negative, bits)
    }

    /// The quotient of a finite number and a positive one, rounded. Zero is positive.
    pub fn quotient(self, other: Self) -> (r: Self)
        requires
            self.finite(),
            other.finite(),
            other.signed_units() > 0,
        ensures
            r == rounded(self.signed_units(), other.signed_units() as nat),
    {
        let (neg, m_a, s_a) = self.split();
        let (_, m_b, s_b) = other.split();
        let n = big::shift_left(&big::small(m_a), s_a);
        let d = big::shift_left(&big::small(m_b), s_b);
        proof {
            power2::lemma_pow2_pos(s_b as nat);
            power2::lemma_pow2_pos(s_a as nat);
            let p = power2::pow2(s_a as nat) as int;
            let q = power2::pow2(s_b as nat) as int;
            assert(m_b * q >= 0) by (nonlinear_arith)
                requires
                    q > 0,
                    m_b >= 0,
            ;
            assert(m_a == 0 ==> m_a * p == 0) by (nonlinear_arith);
            assert(m_a > 0 ==> m_a * p > 0) by (nonlinear_arith)
                requires
                    p > 0,
            ;
        }
        let bits = round_ratio(&n, &d);
        with_sign(neg && m_a != 0, bits)
    }

    /// Widens a 32-bit number. A NaN keeps its sign and payload and becomes quiet.
    pub fn from_single(x: Single) -> (r: Self)
        ensures
            r == widened(x),
    {
        let negative: bool = x.bits >= 0x8000_0000;
        let b: u32 = x.bits % 0x8000_0000;
        if b > 0x7f80_0000 {
            let payload: u64 = (b % 0x40_0000) as u64 * 0x2000_0000;
            return if negative {
                Double { bits: SIGN_BIT + NAN_BITS + payload }
            } else {
                Double { bits: NAN_BITS + payload }
            };
        }
        if b == 0x7f80_0000 {
            return with_sign(negative, INFINITY_BITS);
        }
        let (m, s): (u64, usize) = if b < 0x80_0000 {
            (b as u64, 0)
        } else {
            (0x80_0000 + (b % 0x80_0000) as u64, (b / 0x80_0000 - 1) as usize)
        };
        let bits = round_scaled(&big::small(m), s, 149);
        with_sign(negative, bits)
    }
}

fn is_zero(v: &Vec<u64>) -> (r: bool)
    ensures
        r == (big::value(v@) == 0),
{
    big::order(v, &big::small(0)) == Order::Equal
}

/// The value of a non-negative finite 32-bit pattern in units of 2^-149.
pub open spec fn single_units(b: int) -> int {
    if b < 0x80_0000 {
        b * power2::pow2(0)
    } else {
        (0x80_0000 + b % 0x80_0000) * power2::pow2((b / 0x80_0000 - 1) as nat)
    }
}

/// The 64-bit number of the same value as a 32-bit one.
pub open spec fn widened(x: Single) -> Double {
    let sign: int = if x.bits >= 0x8000_0000 {
        SIGN_BIT as int
    } else {
        0
    };
    let b = x.bits % 0x8000_0000;
    if b > 0x7f80_0000 {
        Double { bits: (sign + NAN_BITS + (b % 0x40_0000) * 0x2000_0000) as u64 }
    } else if b == 0x7f80_0000 {
        Double { bits: (sign + INFINITY_BITS) as u64 }
    } else {
        Double { bits: (sign + nearest(single_units(b as int) as nat, power2::pow2(149))) as u64 }
    }
}

/// The pattern nearest to `n * 2^s / 2^t`.
fn round_scaled(n: &Vec<u64>, s: usize, t: usize) -> (r: u64)
    requires
        s <= 4096,
        t <= 4096,
    ensures
        r == nearest(big::value(n@) * power2::pow2(s as nat), power2::pow2(t as nat)),
        r <= INFINITY_BITS,
{
    let ghost v = big::value(n@);
    if s <= t {
        let den = big::shift_left(&big::one(), t - s);
        proof {
            power2::lemma_pow2_adds((t - s) as nat, s as nat);
            power2::lemma_pow2_pos(s as nat);
            power2::lemma_pow2_pos((t - s) as nat);
            lemma_nearest_scaled(v, power2::pow2((t - s) as nat), power2::pow2(s as nat));
        }
        round_ratio(n, &den)
    } else {
        let num = big::shift_left(n, s - t);
        proof {
            power2::lemma_pow2_adds((s - t) as nat, t as nat);
            power2::lemma_pow2_pos(t as nat);
            lemma_nearest_scaled(v * power2::pow2((s - t) as nat), 1, power2::pow2(t as nat));
            lemma_mul_is_associative(
                v as int,
                power2::pow2((s - t) as nat) as int,
                power2::pow2(t as nat) as int,
            );
        }
        round_ratio(&num, &big::one())
    }
}

/// Where the first of two characters stands, or the length if neither does.
pub open spec fn first_of(s: Seq<char>, a: char, b: char) -> int
    decreases s.len(),
{
    if s.len() == 0 || s[0] == a || s[0] == b {
        0
    } else {
        1 + first_of(s.drop_first(), a, b)
    }
}

/// A power of ten.
pub open spec fn ten_to(n: nat) -> nat
    decreases n,
{
    if n == 0 {
        1
    } else {
        10 * ten_to((n - 1) as nat)
    }
}

/// The magnitude nearest to `digits * 10^exponent`.
pub open spec fn decimal_magnitude(digits: nat, exponent: int) -> u64 {
    if exponent >= 0 {
        nearest(digits * ten_to(exponent as nat), 1)
    } else {
        nearest(digits, ten_to((-exponent) as nat))
    }
}

/// A whole number: an optional sign and digits.
pub open spec fn exponent_text(s: Seq<char>) -> Option<int> {
    let signed = s.len() > 0 && (s[0] == '+' || s[0] == '-');
    let digits = if signed {
        s.drop_first()
    } else {
        s
    };
    if digits.len() == 0 || !text::all_digits(digits) {
        None
    } else if s[0] == '-' {
        Some(-(text::digits_value(digits) as int))
    } else {
        Some(text::digits_value(digits) as int)
    }
}

/// The digits and the exponent of a decimal number without a sign: digits with at most one
/// point among them, and an optional exponent after an `e`.
pub open spec fn decimal_text(s: Seq<char>) -> Option<(nat, int)> {
    let e = first_of(s, 'e', 'E');
    let mantissa = s.take(e);
    let point = first_of(mantissa, '.', '.');
    let whole = mantissa.take(point);
    let fraction = if point < mantissa.len() {
        mantissa.skip(point + 1)
    } else {
        Seq::empty()
    };
    let exponent = if e < s.len() {
        exponent_text(s.skip(e + 1))
    } else {
        Some(0)
    };
    if !text::all_digits(whole + fraction) || (whole + fraction).len() == 0 {
        None
    } else {
        match exponent {
            None => None,
            Some(n) => Some((text::digits_value(whole + fraction), n - fraction.len() as int)),
        }
    }
}

/// The magnitude that text without a sign stands for: a decimal number, or in any case of
/// letters `inf`, `infinity` or `nan`.
pub open spec fn magnitude_text(s: Seq<char>) -> Option<u64> {
    let word = text::lower_text(s);
    if word == "inf"@ || word == "infinity"@ {
        Some(INFINITY_BITS)
    } else if word == "nan"@ {
        Some(NAN_BITS)
    } else {
        match decimal_text(s) {
            None => None,
            Some((digits, exponent)) => Some(decimal_magnitude(digits, exponent)),
        }
    }
}

/// The number that a text stands for, with an optional sign before its magnitude.
pub open spec fn number_text(s: Seq<char>) -> Option<Double> {
    if s.len() > 0 && s[0] == '-' {
        match magnitude_text(s.drop_first()) {
            None => None,
            Some(m) => Some(Double { bits: (SIGN_BIT + m) as u64 }),
        }
    } else {
        let rest = if s.len() > 0 && s[0] == '+' {
            s.drop_first()
        } else {
            s
        };
        match magnitude_text(rest) {
            None => None,
            Some(m) => Some(Double { bits: m }),
        }
    }
}

pub proof fn lemma_first_of(s: Seq<char>, a: char, b: char, k: int)
    requires
        0 <= k <= s.len(),
        forall|i: int| 0 <= i < k ==> #[trigger] s[i] != a && s[i] != b,
        k == s.len() || s[k] == a || s[k] == b,
    ensures
        first_of(s, a, b) == k,
    decreases s.len(),
{
    if k > 0 {
        assert forall|i: int| 0 <= i < k - 1 implies #[trigger] s.drop_first()[i] != a
            && s.drop_first()[i] != b by {
            assert(s.drop_first()[i] == s[i + 1]);
        }
        lemma_first_of(s.drop_first(), a, b, k - 1);
    }
}

fn find(chars: &Vec<char>, from: usize, to: usize, a: char, b: char) -> (r: usize)
    requires
        from <= to <= chars@.len(),
    ensures
        from <= r <= to,
        r - from == first_of(chars@.subrange(from as int, to as int), a, b),
{
    let ghost part = chars@.subrange(from as int, to as int);
    let mut i: usize = from;
    while i < to && chars[i] != a && chars[i] != b
        invariant
            from <= i <= to <= chars@.len(),
            part == chars@.subrange(from as int, to as int),
            forall|k: int| 0 <= k < i - from ==> #[trigger] part[k] != a && part[k] != b,
        decreases to - i,
    {
        assert(part[i - from] == chars@[i as int]);
        i += 1;
    }
    proof {
        if i < to {
            assert(part[i - from] == chars@[i as int]);
        }
        lemma_first_of(part, a, b, i - from);
    }
    i
}

proof fn lemma_digits_value_push(s: Seq<char>, c: char)
    ensures
        text::digits_value(s.push(c)) == text::digits_value(s) * 10 + (c as nat - 48) as nat,
{
    assert(s.push(c).drop_last() == s);
}

proof fn lemma_digits_value_bound(s: Seq<char>)
    requires
        text::all_digits(s),
    ensures
        text::digits_value(s) < ten_to(s.len()),
    decreases s.len(),
{
    if s.len() > 0 {
        assert(text::all_digits(s.drop_last())) by {
            assert forall|i: int| 0 <= i < s.drop_last().len() implies '0'
                <= #[trigger] s.drop_last()[i] <= '9' by {
                assert(s.drop_last()[i] == s[i]);
            }
        }
        lemma_digits_value_bound(s.drop_last());
    }
}

/// Reads digits into a number of any size; `None` if there is anything else among them.
fn append_digits(v: Vec<u64>, chars: &Vec<char>, from: usize, to: usize, Ghost(before): Ghost<
    Seq<char>,
>) -> (r: Option<Vec<u64>>)
    requires
        from <= to <= chars@.len(),
        text::all_digits(before),
        big::value(v@) == text::digits_value(before),
    ensures
        match r {
            Some(w) => text::all_digits(before + chars@.subrange(from as int, to as int))
                && big::value(w@) == text::digits_value(
                before + chars@.subrange(from as int, to as int),
            ),
            None => !text::all_digits(chars@.subrange(from as int, to as int)),
        },
{
    let ghost part = chars@.subrange(from as int, to as int);
    let mut w = v;
    let mut i: usize = from;
    assert(before + part.take(0) == before);
    while i < to
        invariant
            from <= i <= to <= chars@.len(),
            part == chars@.subrange(from as int, to as int),
            text::all_digits(before + part.take(i - from)),
            big::value(w@) == text::digits_value(before + part.take(i - from)),
        decreases to - i,
    {
        let c: char = chars[i];
        assert(part[i - from] == c);
        if !('0' <= c && c <= '9') {
            return None;
        }
        proof {
            let s = before + part.take(i - from);
            assert(before + part.take(i - from + 1) == s.push(c));
            lemma_digits_value_push(s, c);
            assert(text::all_digits(s.push(c)));
        }
        w = big::mul_plus(&w, 10, (c as u32 - 48) as u64);
        i += 1;
    }
    assert(part.take(i - from) == part);
    Some(w)
}

/// Far more than any exponent that text of a possible length could make up for.
const EXPONENT_CAP: u128 = 0x1_0000_0000_0000_0000_0000;

/// Reads an exponent, held at `EXPONENT_CAP` either way.
fn read_exponent(chars: &Vec<char>, from: usize) -> (r: Option<i128>)
    requires
        from <= chars@.len(),
    ensures
        match r {
            None => exponent_text(chars@.skip(from as int)) is None,
            Some(n) => exponent_text(chars@.skip(from as int)) matches Some(e) && (n == e || n
                == EXPONENT_CAP && e >= EXPONENT_CAP || n == -EXPONENT_CAP && e <= -EXPONENT_CAP)
                && -EXPONENT_CAP <= n <= EXPONENT_CAP,
        },
{
    let ghost s = chars@.skip(from as int);
    let mut negative = false;
    let mut start: usize = from;
    if from < chars.len() && (chars[from] == '+' || chars[from] == '-') {
        negative = chars[from] == '-';
        start = from + 1;
        assert(s.drop_first() == chars@.skip(start as int));
        assert(s[0] == chars@[from as int]);
    } else if from < chars.len() {
        assert(s[0] == chars@[from as int]);
    }
    let ghost digits = chars@.skip(start as int);
    if start == chars.len() {
        return None;
    }
    let mut n: u128 = 0;
    let mut i: usize = start;
    while i < chars.len()
        invariant
            start <= i <= chars@.len(),
            s == chars@.skip(from as int),
            digits == chars@.skip(start as int),
            digits == (if s.len() > 0 && (s[0] == '+' || s[0] == '-') {
                s.drop_first()
            } else {
                s
            }),
            text::all_digits(digits.take(i - start)),
            n <= EXPONENT_CAP,
            n == text::digits_value(digits.take(i - start)) || n == EXPONENT_CAP
                && text::digits_value(digits.take(i - start)) >= EXPONENT_CAP,
        decreases chars@.len() - i,
    {
        let c: char = chars[i];
        assert(digits[i - start] == c);
        if !('0' <= c && c <= '9') {
            return None;
        }
        proof {
            let t = digits.take(i - start);
            assert(digits.take(i - start + 1) == t.push(c));
            lemma_digits_value_push(t, c);
            assert(text::all_digits(t.push(c)));
        }
        let next: u128 = n * 10 + (c as u32 - 48) as u128;
        n = if next >= EXPONENT_CAP {
            EXPONENT_CAP
        } else {
            next
        };
        i += 1;
    }
    assert(digits.take(i - start) == digits);
    if negative {
        Some(-(n as i128))
    } else {
        Some(n as i128)
    }
}

/// A power of ten of any size.
fn big_ten_to(n: u128, start: &Vec<u64>) -> (r: Vec<u64>)
    ensures
        big::value(r@) == big::value(start@) * ten_to(n as nat),
{
    let mut v = big::mul_plus(start, 1, 0);
    let mut i: u128 = 0;
    assert(ten_to(0) == 1);
    assert(big::value(start@) * 1 == big::value(start@)) by (nonlinear_arith);
    while i < n
        invariant
            i <= n,
            big::value(v@) == big::value(start@) * ten_to(i as nat),
        decreases n - i,
    {
        v = big::mul_plus(&v, 10, 0);
        i += 1;
        assert(big::value(start@) * ten_to((i - 1) as nat) * 10 == big::value(start@) * (10
            * ten_to((i - 1) as nat))) by (nonlinear_arith);
    }
    v
}

proof fn lemma_ten_to_pow2(n: nat)
    ensures
        ten_to(n) >= power2::pow2(3 * n),
        ten_to(n) > 0,
    decreases n,
{
    if n == 0 {
        power2::lemma2_to64();
    } else {
        lemma_ten_to_pow2((n - 1) as nat);
        power2::lemma_pow2_adds(3, (3 * (n - 1)) as nat);
        power2::lemma2_to64();
    }
}

proof fn lemma_ten_to_adds(a: nat, b: nat)
    ensures
        ten_to(a + b) == ten_to(a) * ten_to(b),
    decreases a,
{
    if a > 0 {
        lemma_ten_to_adds((a - 1) as nat, b);
        lemma_mul_is_associative(10, ten_to((a - 1) as nat) as int, ten_to(b) as int);
    } else {
        assert(1 * ten_to(b) == ten_to(b)) by (nonlinear_arith);
    }
}

proof fn lemma_ten_to_grows(a: nat, b: nat)
    requires
        a <= b,
    ensures
        ten_to(a) <= ten_to(b),
{
    lemma_ten_to_adds(a, (b - a) as nat);
    lemma_ten_to_pow2((b - a) as nat);
    lemma_ten_to_pow2(a);
    let x = ten_to(a) as int;
    let y = ten_to((b - a) as nat) as int;
    assert(x * y >= x) by (nonlinear_arith)
        requires
            x > 0,
            y > 0,
    ;
}

/// A positive whole number times a large power of ten is infinite.
proof fn lemma_huge(digits: nat, exponent: int)
    requires
        digits > 0,
        exponent >= 400,
    ensures
        decimal_magnitude(digits, exponent) == INFINITY_BITS,
{
    let n = digits * ten_to(exponent as nat);
    lemma_ten_to_grows(400, exponent as nat);
    lemma_ten_to_pow2(400);
    let t = ten_to(exponent as nat) as int;
    assert(n >= t) by (nonlinear_arith)
        requires
            n == digits * t,
            digits >= 1,
            t >= 0,
    ;
    power2::lemma_pow2_adds(52, 2046);
    power2::lemma2_to64_rest();
    assert(units(INFINITY_BITS as int) == power2::pow2(2098)) by {
        assert(scale(INFINITY_BITS as int) == 2046);
        assert(significand(INFINITY_BITS as int) == 0x10_0000_0000_0000);
    }
    power2::lemma_pow2_adds(1200, 1074);
    power2::lemma_pow2_strictly_increases(2098, 2274);
    power2::lemma_pow2_pos(1074);
    let p = power2::pow2(1074) as int;
    assert(n * p >= power2::pow2(1200) * p) by (nonlinear_arith)
        requires
            n >= power2::pow2(1200),
            p > 0,
    ;
    lemma_nearest_infinity(n, 1);
}

/// Digits times a tiny power of ten round to zero.
proof fn lemma_tiny(digits: nat, count: nat, exponent: int)
    requires
        digits < ten_to(count),
        exponent + count <= -400,
    ensures
        decimal_magnitude(digits, exponent) == 0,
{
    let e = (-exponent) as nat;
    lemma_ten_to_adds(count, (e - count) as nat);
    lemma_ten_to_grows(400, (e - count) as nat);
    lemma_ten_to_pow2(400);
    lemma_ten_to_pow2(count);
    lemma_ten_to_pow2(e);
    let c = ten_to(count) as int;
    let r = ten_to((e - count) as nat) as int;
    let p = power2::pow2(1074) as int;
    power2::lemma_pow2_pos(1074);
    power2::lemma_pow2_unfold(1075);
    power2::lemma_pow2_strictly_increases(1075, 1200);
    // Twice the digits, in units, is below one unit of the denominator.
    assert(2 * (digits * p) < c * r) by (nonlinear_arith)
        requires
            0 <= digits < c,
            0 < p,
            2 * p < r,
    ;
    lemma_zero_below(digits, ten_to(e));
    lemma_units_step(0);
    lemma_zero_below(digits, 1);
    power2::lemma2_to64();
    assert(units(1) == 1);
    assert(1 * ten_to(e) == ten_to(e)) by (nonlinear_arith);
    lemma_nearest_between(digits, ten_to(e), 0);
}

/// Rounds `digits * 10^exponent`, where the digits are `count` many.
fn round_decimal(
    digits: &Vec<u64>,
    count: usize,
    exponent: i128,
    Ghost(exact): Ghost<int>,
) -> (r: u64)
    requires
        big::value(digits@) < ten_to(count as nat),
        -0x2_0000_0000_0000_0000_0000 <= exponent <= 0x2_0000_0000_0000_0000_0000,
        exponent == exact || exponent >= 0x8000_0000_0000_0000_0000 && exact >= exponent
            || exponent <= -0x8000_0000_0000_0000_0000 && exact <= exponent,
    ensures
        r == decimal_magnitude(big::value(digits@), exact),
        r <= INFINITY_BITS,
{
    if is_zero(digits) {
        proof {
            let d: nat = if exact >= 0 {
                1
            } else {
                ten_to((-exact) as nat)
            };
            assert(0 * ten_to(exact as nat) == 0) by (nonlinear_arith);
            if exact < 0 {
                lemma_ten_to_pow2((-exact) as nat);
            }
            lemma_zero_below(0, d);
            assert(0 * power2::pow2(1074) == 0) by (nonlinear_arith);
            assert forall|c: u64| c <= INFINITY_BITS && c != 0 implies distance(0, d, 0)
                < #[trigger] distance(0, d, c as int) by {
                lemma_scaled_monotone(d, 0, c as int);
            }
            lemma_is_nearest(0, d, 0);
        }
        return 0;
    }
    if exponent >= 400 {
        proof {
            lemma_huge(big::value(digits@), exact);
        }
        return INFINITY_BITS;
    }
    if exponent + count as i128 <= -400 {
        proof {
            lemma_tiny(big::value(digits@), count as nat, exact);
        }
        return 0;
    }
    assert(exponent == exact);
    if exponent >= 0 {
        let n = big_ten_to(exponent as u128, digits);
        round_ratio(&n, &big::one())
    } else {
        let e: u128 = (-exponent) as u128;
        let d = big_ten_to(e, &big::one());
        proof {
            assert(1 * ten_to(e as nat) == ten_to(e as nat)) by (nonlinear_arith);
            lemma_ten_to_pow2(e as nat);
        }
        round_ratio(digits, &d)
    }
}

/// Reads a number without a sign from `from` on.
fn parse_magnitude(chars: &Vec<char>, from: usize) -> (r: Option<u64>)
    requires
        from <= chars@.len(),
    ensures
        r == magnitude_text(chars@.skip(from as int)),
        r matches Some(m) ==> m < SIGN_BIT,
{
    let ghost s = chars@.skip(from as int);
    let mut tail: Vec<char> = Vec::new();
    let mut i: usize = from;
    while i < chars.len()
        invariant
            from <= i <= chars@.len(),
            tail@ == chars@.subrange(from as int, i as int),
        decreases chars@.len() - i,
    {
        tail.push(chars[i]);
        i += 1;
        assert(tail@ == chars@.subrange(from as int, i as int));
    }
    assert(tail@ == s);
    let word = text::to_lower(text::string_of(&tail).as_str());
    if text::same_text(word.as_str(), "inf") || text::same_text(word.as_str(), "infinity") {
        return Some(INFINITY_BITS);
    }
    if text::same_text(word.as_str(), "nan") {
        return Some(NAN_BITS);
    }
    let e = find(&tail, 0, tail.len(), 'e', 'E');
    assert(tail@.subrange(0, tail@.len() as int) == s);
    let ghost mantissa = s.take(e as int);
    assert(tail@.subrange(0, e as int) == mantissa);
    let point = find(&tail, 0, e, '.', '.');
    let ghost whole = mantissa.take(point as int);
    let start: usize = if point < e {
        point + 1
    } else {
        e
    };
    let ghost fraction = if point < mantissa.len() {
        mantissa.skip(point + 1)
    } else {
        Seq::empty()
    };
    assert(tail@.subrange(0, point as int) == whole);
    assert(tail@.subrange(start as int, e as int) == fraction);
    assert(Seq::<char>::empty() + whole == whole);
    proof {
        if !text::all_digits(whole) {
            let k = choose|k: int| 0 <= k < whole.len() && !('0' <= #[trigger] whole[k] <= '9');
            assert((whole + fraction)[k] == whole[k]);
        }
        if !text::all_digits(fraction) {
            let k = choose|k: int|
                0 <= k < fraction.len() && !('0' <= #[trigger] fraction[k] <= '9');
            assert((whole + fraction)[whole.len() + k] == fraction[k]);
        }
    }
    let digits = match append_digits(big::small(0), &tail, 0, point, Ghost(Seq::empty())) {
        Some(v) => v,
        None => {
            return None;
        },
    };
    let digits = match append_digits(digits, &tail, start, e, Ghost(whole)) {
        Some(v) => v,
        None => {
            return None;
        },
    };
    let scale_down: usize = e - start;
    if point == 0 && scale_down == 0 {
        return None;
    }
    let exponent: i128 = if e < tail.len() {
        match read_exponent(&tail, e + 1) {
            Some(n) => n,
            None => {
                return None;
            },
        }
    } else {
        0
    };
    proof {
        lemma_digits_value_bound(whole + fraction);
    }
    let ghost exact = if e < s.len() {
        exponent_text(s.skip(e + 1))->Some_0 - fraction.len()
    } else {
        -(fraction.len() as int)
    };
    let count: usize = point + scale_down;
    Some(round_decimal(&digits, count, exponent - scale_down as i128, Ghost(exact)))
}

/// Reads a number, as `number_text` says.
pub fn parse(s: &str) -> (r: Option<Double>)
    ensures
        r == number_text(s@),
{
    let chars = text::chars_of(s);
    if chars.len() > 0 && chars[0] == '-' {
        assert(chars@.skip(1) == s@.drop_first());
        match parse_magnitude(&chars, 1) {
            Some(m) => Some(Double { bits: SIGN_BIT + m }),
            None => None,
        }
    } else {
        let from: usize = if chars.len() > 0 && chars[0] == '+' {
            1
        } else {
            0
        };
        assert(chars@.skip(1) == s@.drop_first() || chars@.len() == 0);
        assert(chars@.skip(0) == s@);
        match parse_magnitude(&chars, from) {
            Some(m) => Some(Double { bits: m }),
            None => None,
        }
    }
}

// ---- Facts about rounding ----

/// A number that has a pattern rounds to it: arithmetic whose exact result is representable
/// gives that result.
pub proof fn law_representable_is_kept(b: u64)
    requires
        b < INFINITY_BITS,
    ensures
        nearest(units(b as int) as nat, power2::pow2(1074)) == b,
{
    let n = units(b as int) as nat;
    let p = power2::pow2(1074);
    power2::lemma_pow2_pos(1074);
    lemma_units_monotone(0, b as int);
    lemma_zero_below(0, p);
    assert forall|c: u64| c <= INFINITY_BITS && c != b implies distance(n, p, b as int)
        < #[trigger] distance(n, p, c as int) by {
        if c < b {
            lemma_scaled_monotone(p, c as int, b as int);
        } else {
            lemma_scaled_monotone(p, b as int, c as int);
        }
    }
    lemma_is_nearest(n, p, b);
}

/// A number that is not above a pattern does not round to one above it.
proof fn lemma_nearest_at_most(num: nat, den: nat, b: u64)
    requires
        den > 0,
        b < INFINITY_BITS,
        num * power2::pow2(1074) <= units(b as int) * den,
    ensures
        nearest(num, den) <= b,
{
    lemma_nearest_exists(num, den);
    let c = nearest(num, den);
    if c > b {
        lemma_scaled_monotone(den, b as int, c as int);
        assert(distance(num, den, c as int) <= distance(num, den, b as int));
    }
}

/// The pattern of a power of two.
pub open spec fn power_bits(k: nat) -> u64 {
    ((1023 + k) * 0x10_0000_0000_0000) as u64
}

pub proof fn lemma_power_bits(k: nat)
    requires
        k <= 1000,
    ensures
        power_bits(k) < INFINITY_BITS,
        units(power_bits(k) as int) == power2::pow2((1074 + k) as nat),
{
    let b = power_bits(k) as int;
    assert(b == (1023 + k) * 0x10_0000_0000_0000);
    assert(b / 0x10_0000_0000_0000 == 1023 + k && b % 0x10_0000_0000_0000 == 0);
    power2::lemma2_to64_rest();
    power2::lemma_pow2_adds(52, (1022 + k) as nat);
}

/// A number of magnitude at most 2^k rounds to a finite number of magnitude at most 2^k.
pub proof fn lemma_rounded_bounded(num: int, den: nat, k: nat)
    requires
        den > 0,
        k <= 1000,
        -(power2::pow2(k) * den) <= num <= power2::pow2(k) * den,
    ensures
        rounded(num, den).finite(),
        -power2::pow2((1074 + k) as nat) <= rounded(num, den).signed_units() <= power2::pow2(
            (1074 + k) as nat,
        ),
        num >= 0 ==> rounded(num, den).signed_units() >= 0,
        num >= 0 ==> rounded(num, den).bits < SIGN_BIT,
{
    let m: nat = if num < 0 {
        (-num) as nat
    } else {
        num as nat
    };
    let q = power2::pow2(k) as int;
    let p = power2::pow2(1074) as int;
    lemma_power_bits(k);
    power2::lemma_pow2_adds(k, 1074);
    power2::lemma_pow2_pos(1074);
    assert(m * p <= (q * p) * den) by (nonlinear_arith)
        requires
            0 <= m <= q * den,
            p > 0,
    ;
    lemma_nearest_at_most(m, den, power_bits(k));
    let b = nearest(m, den);
    lemma_units_monotone(b as int, power_bits(k) as int);
    lemma_units_monotone(0, b as int);
    lemma_zero_below(0, den);
}

/// Rounding is near: a number of magnitude at most 2^k is rounded by at most 2^(k-53).
pub proof fn law_rounding_error(num: int, den: nat, k: nat)
    requires
        den > 0,
        k <= 1000,
        -(power2::pow2(k) * den) <= num <= power2::pow2(k) * den,
    ensures
        ({
            let e = rounded(num, den).signed_units() * den - num * power2::pow2(1074);
            -(power2::pow2((1021 + k) as nat) * den) <= e <= power2::pow2((1021 + k) as nat) * den
        }),
{
    let m: nat = if num < 0 {
        (-num) as nat
    } else {
        num as nat
    };
    let p = power2::pow2(1074) as int;
    let q = power2::pow2(k) as int;
    lemma_rounded_bounded(num, den, k);
    lemma_power_bits(k);
    power2::lemma_pow2_adds(k, 1074);
    power2::lemma_pow2_pos(1074);
    power2::lemma_pow2_pos((1021 + k) as nat);
    let top = power_bits(k);
    assert(m * p <= (q * p) * den) by (nonlinear_arith)
        requires
            0 <= m <= q * den,
            p > 0,
    ;
    lemma_nearest_exists(m, den);
    lemma_zero_below(m, den);
    let b = nearest(m, den);
    let limit = power2::pow2((1021 + k) as nat) * den;
    assert(distance(m, den, b as int) <= limit) by {
        if m * p == units(top as int) * den {
            assert(distance(m, den, top as int) == 0);
            assert(distance(m, den, b as int) <= distance(m, den, top as int));
            assert(0 <= limit) by (nonlinear_arith)
                requires
                    limit == power2::pow2((1021 + k) as nat) * den,
                    den > 0,
                    power2::pow2((1021 + k) as nat) > 0,
            ;
        } else {
            let c = lemma_floor_exists(m, den, 0, top as int);
            if c >= top {
                if c > top {
                    lemma_scaled_monotone(den, top as int, c as int);
                }
                assert(false);
            }
            lemma_units_step(c as int);
            assert(scale(c as int) <= 1021 + k) by {
                assert(c / 0x10_0000_0000_0000 < 1023 + k);
            }
            if scale(c as int) < 1021 + k {
                power2::lemma_pow2_strictly_increases(scale(c as int), (1021 + k) as nat);
            }
            let u = units(c as int);
            let step = power2::pow2(scale(c as int)) as int;
            assert((u + step) * den == u * den + step * den) by (nonlinear_arith);
            assert(step * den <= limit) by (nonlinear_arith)
                requires
                    step <= power2::pow2((1021 + k) as nat),
                    limit == power2::pow2((1021 + k) as nat) * den,
            ;
            assert(distance(m, den, c as int) <= limit);
            assert(distance(m, den, b as int) <= distance(m, den, c as int));
        }
    }
    let r = rounded(num, den).signed_units();
    let u = units(b as int);
    assert(b < INFINITY_BITS);
    if num < 0 {
        assert(r == -u);
        assert((-u) * den == -(u * den)) by (nonlinear_arith);
        assert(num * p == -(m * p)) by (nonlinear_arith)
            requires
                num == -(m as int),
        ;
    }
}

} // verus!
