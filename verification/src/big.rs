//! Natural numbers of any size, as little-endian vectors of 64-bit digits.

use vstd::arithmetic::mul::lemma_mul_is_associative;
use vstd::arithmetic::power2;
use vstd::prelude::*;

verus! {

/// The base in which the digits count.
pub open spec fn base() -> nat {
    0x1_0000_0000_0000_0000
}

/// The number that a sequence of digits stands for, the least significant first.
pub open spec fn value(v: Seq<u64>) -> nat
    decreases v.len(),
{
    if v.len() == 0 {
        0
    } else {
        v[0] as nat + base() * value(v.drop_first())
    }
}

/// The base to a power.
pub open spec fn base_power(k: nat) -> nat
    decreases k,
{
    if k == 0 {
        1
    } else {
        base() * base_power((k - 1) as nat)
    }
}

proof fn lemma_value_push(v: Seq<u64>, d: u64)
    ensures
        value(v.push(d)) == value(v) + d * base_power(v.len()),
    decreases v.len(),
{
    if v.len() == 0 {
        assert(v.push(d).drop_first().len() == 0);
        assert(value(v.push(d).drop_first()) == 0);
        assert(base_power(0) == 1);
        assert(d * 1 == d) by (nonlinear_arith);
    } else {
        lemma_value_push(v.drop_first(), d);
        assert(v.push(d).drop_first() == v.drop_first().push(d));
        let a = value(v.drop_first()) as int;
        let p = base_power((v.len() - 1) as nat) as int;
        assert(base() * (a + d * p) == base() * a + d * (base() * p)) by (nonlinear_arith);
    }
}

pub proof fn lemma_base_power_pos(k: nat)
    ensures
        base_power(k) > 0,
    decreases k,
{
    if k > 0 {
        lemma_base_power_pos((k - 1) as nat);
    }
}

proof fn lemma_value_bound(v: Seq<u64>)
    ensures
        value(v) < base_power(v.len()),
    decreases v.len(),
{
    if v.len() > 0 {
        lemma_value_bound(v.drop_first());
        let a = value(v.drop_first()) as int;
        let p = base_power((v.len() - 1) as nat) as int;
        assert(v[0] + base() * a < base() * p) by (nonlinear_arith)
            requires
                a < p,
                v[0] < base(),
                base() == 0x1_0000_0000_0000_0000,
        ;
    }
}

/// The number 1.
pub fn one() -> (r: Vec<u64>)
    ensures
        value(r@) == 1,
{
    small(1)
}

/// A number of one digit.
pub fn small(n: u64) -> (r: Vec<u64>)
    ensures
        value(r@) == n,
{
    let mut v: Vec<u64> = Vec::new();
    v.push(n);
    assert(v@.drop_first().len() == 0);
    assert(value(v@.drop_first()) == 0);
    v
}

/// `v * m + a`.
pub fn mul_plus(v: &Vec<u64>, m: u64, a: u64) -> (r: Vec<u64>)
    ensures
        value(r@) == value(v@) * m + a,
{
    let mut out: Vec<u64> = Vec::new();
    let mut carry: u64 = a;
    let mut i: usize = 0;
    assert(v@.take(0).len() == 0);
    assert(value(v@.take(0)) == 0);
    assert(value(out@) == 0);
    assert(base_power(0) == 1);
    assert(carry * 1 == carry && 0 * m == 0) by (nonlinear_arith);
    while i < v.len()
        invariant
            i <= v@.len(),
            out@.len() == i,
            value(out@) + carry * base_power(i as nat) == value(v@.take(i as int)) * m + a,
        decreases v@.len() - i,
    {
        let d: u64 = v[i];
        assert(0 <= d * m + carry < base() * base()) by (nonlinear_arith)
            requires
                0 <= d < base(),
                0 <= m < base(),
                0 <= carry < base(),
                base() == 0x1_0000_0000_0000_0000,
        ;
        assert(d as int * m as int <= 0xffff_ffff_ffff_ffff * 0xffff_ffff_ffff_ffff)
            by (nonlinear_arith)
            requires
                0 <= d <= 0xffff_ffff_ffff_ffff,
                0 <= m <= 0xffff_ffff_ffff_ffff,
        ;
        let wide: u128 = d as u128 * m as u128 + carry as u128;
        let low: u64 = (wide % 0x1_0000_0000_0000_0000) as u64;
        let high: u64 = (wide / 0x1_0000_0000_0000_0000) as u64;
        proof {
            let p = base_power(i as nat) as int;
            let t = value(v@.take(i as int)) as int;
            lemma_value_push(out@, low);
            assert(v@.take(i + 1) == v@.take(i as int).push(d));
            lemma_value_push(v@.take(i as int), d);
            assert(wide == low + high * base());
            assert(d * m + carry == low + high * base());
            let o = value(out@) as int;
            assert(o + low * p + high * (base() * p) == (t + d * p) * m + a) by (nonlinear_arith)
                requires
                    o + carry * p == t * m + a,
                    d * m + carry == low + high * base(),
            ;
        }
        out.push(low);
        carry = high;
        i += 1;
    }
    proof {
        lemma_value_push(out@, carry);
        assert(v@.take(i as int) == v@);
    }
    out.push(carry);
    out
}

/// The number with `k` zero digits below it.
fn shift_digits(v: &Vec<u64>, k: usize) -> (r: Vec<u64>)
    ensures
        value(r@) == value(v@) * base_power(k as nat),
{
    let mut out: Vec<u64> = Vec::new();
    let mut i: usize = 0;
    assert(value(out@) == 0);
    while i < k
        invariant
            i <= k,
            out@.len() == i,
            value(out@) == 0,
        decreases k - i,
    {
        proof {
            lemma_value_push(out@, 0);
        }
        out.push(0);
        i += 1;
    }
    let mut j: usize = 0;
    assert(value(v@.take(0)) == 0);
    while j < v.len()
        invariant
            j <= v@.len(),
            out@.len() == k + j,
            value(out@) == value(v@.take(j as int)) * base_power(k as nat),
        decreases v@.len() - j,
    {
        proof {
            lemma_value_push(out@, v@[j as int]);
            assert(v@.take(j + 1) == v@.take(j as int).push(v@[j as int]));
            lemma_value_push(v@.take(j as int), v@[j as int]);
            lemma_base_power_adds(j as nat, k as nat);
            let t = value(v@.take(j as int)) as int;
            let d = v@[j as int] as int;
            let pj = base_power(j as nat) as int;
            let pk = base_power(k as nat) as int;
            assert(t * pk + d * (pj * pk) == (t + d * pj) * pk) by (nonlinear_arith);
        }
        out.push(v[j]);
        j += 1;
    }
    assert(v@.take(j as int) == v@);
    out
}

proof fn lemma_base_power_adds(a: nat, b: nat)
    ensures
        base_power(a + b) == base_power(a) * base_power(b),
    decreases a,
{
    if a == 0 {
        assert(1 * base_power(b) == base_power(b)) by (nonlinear_arith);
    } else {
        lemma_base_power_adds((a - 1) as nat, b);
        lemma_mul_is_associative(
            base() as int,
            base_power((a - 1) as nat) as int,
            base_power(b) as int,
        );
    }
}

proof fn lemma_base_power_pow2(k: nat)
    ensures
        base_power(k) == power2::pow2(64 * k),
    decreases k,
{
    if k == 0 {
        power2::lemma2_to64();
    } else {
        lemma_base_power_pow2((k - 1) as nat);
        power2::lemma_pow2_adds(64, (64 * (k - 1)) as nat);
        power2::lemma2_to64();
    }
}

/// `v * 2^k`.
pub fn shift_left(v: &Vec<u64>, k: usize) -> (r: Vec<u64>)
    ensures
        value(r@) == value(v@) * power2::pow2(k as nat),
{
    let digits: usize = k / 64;
    let bits: usize = k % 64;
    proof {
        vstd::bits::lemma_u64_pow2_no_overflow(bits as nat);
        vstd::bits::lemma_u64_shl_is_mul(1, bits as u64);
    }
    let factor: u64 = 1u64 << bits;
    let scaled = mul_plus(v, factor, 0);
    let out = shift_digits(&scaled, digits);
    proof {
        lemma_base_power_pow2(digits as nat);
        power2::lemma_pow2_adds(bits as nat, 64 * digits as nat);
        assert(bits + 64 * digits == k);
        lemma_mul_is_associative(
            value(v@) as int,
            power2::pow2(bits as nat) as int,
            power2::pow2(64 * digits as nat) as int,
        );
    }
    out
}

/// How two numbers compare.
#[derive(Debug, Clone, Copy, PartialEq, Eq, Structural)]
pub enum Order {
    Less,
    Equal,
    Greater,
}

/// The order of two natural numbers.
pub open spec fn order_of(a: int, b: int) -> Order {
    if a < b {
        Order::Less
    } else if a == b {
        Order::Equal
    } else {
        Order::Greater
    }
}

fn digit(v: &Vec<u64>, i: usize) -> (r: u64)
    ensures
        r == (if i < v@.len() {
            v@[i as int]
        } else {
            0
        }),
{
    if i < v.len() {
        v[i]
    } else {
        0
    }
}

/// The digits of `v` from `i` on, or nothing.
spec fn upper(v: Seq<u64>, i: int) -> nat {
    if i <= v.len() {
        value(v.skip(i))
    } else {
        0
    }
}

proof fn lemma_upper(v: Seq<u64>, i: int)
    requires
        0 <= i,
    ensures
        upper(v, i) == (if i < v.len() {
            v[i] as nat
        } else {
            0
        }) + base() * upper(v, i + 1),
{
    if i < v.len() {
        assert(v.skip(i).drop_first() == v.skip(i + 1));
    } else if i == v.len() {
        assert(v.skip(i).len() == 0);
    }
}

/// Compares two numbers.
pub fn order(a: &Vec<u64>, b: &Vec<u64>) -> (r: Order)
    ensures
        r == order_of(value(a@) as int, value(b@) as int),
{
    let mut i: usize = if a.len() > b.len() {
        a.len()
    } else {
        b.len()
    };
    assert(upper(a@, i as int) == 0) by {
        if i == a@.len() {
            assert(a@.skip(i as int).len() == 0);
        }
    }
    assert(upper(b@, i as int) == 0) by {
        if i == b@.len() {
            assert(b@.skip(i as int).len() == 0);
        }
    }
    while i > 0
        invariant
            upper(a@, i as int) == upper(b@, i as int),
        decreases i,
    {
        i -= 1;
        let x: u64 = digit(a, i);
        let y: u64 = digit(b, i);
        proof {
            lemma_upper(a@, i as int);
            lemma_upper(b@, i as int);
        }
        if x != y {
            proof {
                lemma_upper_order(a@, b@, i as int);
            }
            return if x < y {
                Order::Less
            } else {
                Order::Greater
            };
        }
    }
    assert(a@.skip(0) == a@ && b@.skip(0) == b@);
    Order::Equal
}

/// An order of the upper digits is the order of the numbers.
proof fn lemma_upper_order(a: Seq<u64>, b: Seq<u64>, i: int)
    requires
        0 <= i,
        upper(a, i) != upper(b, i),
    ensures
        order_of(value(a) as int, value(b) as int) == order_of(
            upper(a, i) as int,
            upper(b, i) as int,
        ),
    decreases i,
{
    if i == 0 {
        assert(a.skip(0) == a && b.skip(0) == b);
    } else {
        lemma_upper(a, i - 1);
        lemma_upper(b, i - 1);
        let x = upper(a, i) as int;
        let y = upper(b, i) as int;
        assert(x < y ==> base() * x + base() <= base() * y) by (nonlinear_arith);
        assert(y < x ==> base() * y + base() <= base() * x) by (nonlinear_arith);
        lemma_upper_order(a, b, i - 1);
    }
}

/// `a - b`, for `b` at most `a`.
pub fn minus(a: &Vec<u64>, b: &Vec<u64>) -> (r: Vec<u64>)
    requires
        value(b@) <= value(a@),
    ensures
        value(r@) == value(a@) - value(b@),
{
    let len: usize = if a.len() > b.len() {
        a.len()
    } else {
        b.len()
    };
    let mut out: Vec<u64> = Vec::new();
    let mut borrow: u64 = 0;
    let mut i: usize = 0;
    assert(a@.skip(0) == a@ && b@.skip(0) == b@);
    while i < len
        invariant
            i <= len,
            len >= a@.len(),
            len >= b@.len(),
            out@.len() == i,
            borrow <= 1,
            value(b@) <= value(a@),
            value(out@) + (upper(a@, i as int) - upper(b@, i as int) - borrow) * base_power(
                i as nat,
            ) == value(a@) - value(b@),
        decreases len - i,
    {
        let x: u64 = digit(a, i);
        let y: u64 = digit(b, i);
        let wide: u128 = 0x1_0000_0000_0000_0000u128 + x as u128 - y as u128 - borrow as u128;
        let low: u64 = (wide % 0x1_0000_0000_0000_0000) as u64;
        let next: u64 = if wide >= 0x1_0000_0000_0000_0000 {
            0
        } else {
            1
        };
        proof {
            lemma_upper(a@, i as int);
            lemma_upper(b@, i as int);
            lemma_value_push(out@, low);
            let p = base_power(i as nat) as int;
            let o = value(out@) as int;
            let ua = upper(a@, i + 1) as int;
            let ub = upper(b@, i + 1) as int;
            assert(low == x - y - borrow + next * base());
            assert(o + low * p + (ua - ub - next) * (base() * p) == o + ((x + base() * ua) - (y
                + base() * ub) - borrow) * p) by (nonlinear_arith)
                requires
                    low == x - y - borrow + next * base(),
            ;
        }
        out.push(low);
        borrow = next;
        i += 1;
    }
    proof {
        assert(upper(a@, i as int) == 0) by {
            if i == a@.len() {
                assert(a@.skip(i as int).len() == 0);
            }
        }
        assert(upper(b@, i as int) == 0) by {
            if i == b@.len() {
                assert(b@.skip(i as int).len() == 0);
            }
        }
        lemma_value_bound(out@);
        let p = base_power(i as nat) as int;
        if borrow == 1 {
            assert((0 - 0 - 1) * p == -p) by (nonlinear_arith);
        } else {
            assert((0 - 0 - 0) * p == 0) by (nonlinear_arith);
        }
    }
    out
}

/// The sum of two numbers.
pub fn plus(a: &Vec<u64>, b: &Vec<u64>) -> (r: Vec<u64>)
    ensures
        value(r@) == value(a@) + value(b@),
{
    let len: usize = if a.len() > b.len() {
        a.len()
    } else {
        b.len()
    };
    let mut out: Vec<u64> = Vec::new();
    let mut carry: u64 = 0;
    let mut i: usize = 0;
    assert(a@.skip(0) == a@ && b@.skip(0) == b@);
    assert(base_power(0) == 1);
    assert(forall|x: int| #[trigger] (x * 1) == x) by (nonlinear_arith);
    while i < len
        invariant
            i <= len,
            len >= a@.len(),
            len >= b@.len(),
            out@.len() == i,
            carry <= 1,
            value(out@) + (upper(a@, i as int) + upper(b@, i as int) + carry) * base_power(
                i as nat,
            ) == value(a@) + value(b@),
        decreases len - i,
    {
        let x: u64 = digit(a, i);
        let y: u64 = digit(b, i);
        let wide: u128 = x as u128 + y as u128 + carry as u128;
        let low: u64 = (wide % 0x1_0000_0000_0000_0000) as u64;
        let next: u64 = (wide / 0x1_0000_0000_0000_0000) as u64;
        proof {
            lemma_upper(a@, i as int);
            lemma_upper(b@, i as int);
            lemma_value_push(out@, low);
            let p = base_power(i as nat) as int;
            let o = value(out@) as int;
            let ua = upper(a@, i + 1) as int;
            let ub = upper(b@, i + 1) as int;
            assert(low == x + y + carry - next * base());
            assert(o + low * p + (ua + ub + next) * (base() * p) == o + ((x + base() * ua) + (y
                + base() * ub) + carry) * p) by (nonlinear_arith)
                requires
                    low == x + y + carry - next * base(),
            ;
        }
        out.push(low);
        carry = next;
        i += 1;
    }
    proof {
        assert(upper(a@, i as int) == 0) by {
            if i == a@.len() {
                assert(a@.skip(i as int).len() == 0);
            }
        }
        assert(upper(b@, i as int) == 0) by {
            if i == b@.len() {
                assert(b@.skip(i as int).len() == 0);
            }
        }
        lemma_value_push(out@, carry);
    }
    out.push(carry);
    out
}

/// Whether a number takes `k` bits: it is below the `k`-th power of two, and not below the
/// one before.
pub open spec fn takes_bits(n: nat, k: nat) -> bool {
    n < power2::pow2(k) && (k > 0 ==> power2::pow2((k - 1) as nat) <= n)
}

/// Zero digits at the top do not count.
proof fn lemma_top_zero(v: Seq<u64>, i: int)
    requires
        0 < i <= v.len(),
        v[i - 1] == 0,
    ensures
        value(v.take(i)) == value(v.take(i - 1)),
{
    assert(v.take(i) == v.take(i - 1).push(v[i - 1]));
    lemma_value_push(v.take(i - 1), 0);
    assert(0 * base_power((i - 1) as nat) == 0) by (nonlinear_arith);
}

/// The bits of a number are those of its top digit and all of the digits below it.
proof fn lemma_top_digit(v: Seq<u64>, i: int, bits: nat)
    requires
        0 < i <= v.len(),
        v[i - 1] > 0,
        takes_bits(v[i - 1] as nat, bits),
    ensures
        takes_bits(value(v.take(i)), (64 * (i - 1) + bits) as nat),
        power2::pow2((64 * (i - 1)) as nat) <= value(v.take(i)),
{
    let k = (64 * (i - 1)) as nat;
    let low = value(v.take(i - 1)) as int;
    let top = v[i - 1] as int;
    let b = power2::pow2(k) as int;
    assert(v.take(i) == v.take(i - 1).push(v[i - 1]));
    lemma_value_push(v.take(i - 1), v[i - 1]);
    lemma_value_bound(v.take(i - 1));
    lemma_base_power_pow2((i - 1) as nat);
    power2::lemma2_to64();
    assert(bits > 0);
    power2::lemma_pow2_adds(k, bits);
    power2::lemma_pow2_adds(k, (bits - 1) as nat);
    let p = power2::pow2(bits) as int;
    let h = power2::pow2((bits - 1) as nat) as int;
    assert(b * h <= low + top * b < b * p && b <= low + top * b) by (nonlinear_arith)
        requires
            0 <= low < b,
            1 <= top,
            h <= top < p,
    ;
}

/// How many bits a number takes, or 0 if it takes more than 640,000.
pub fn bit_length_hint(v: &Vec<u64>) -> (r: usize)
    ensures
        if value(v@) < power2::pow2(640_000) {
            takes_bits(value(v@), r as nat)
        } else {
            r == 0
        },
        r <= 640_000,
{
    let mut i: usize = v.len();
    assert(v@.take(i as int) == v@);
    while i > 0 && v[i - 1] == 0
        invariant
            i <= v@.len(),
            value(v@) == value(v@.take(i as int)),
        decreases i,
    {
        proof {
            lemma_top_zero(v@, i as int);
        }
        i -= 1;
    }
    if i == 0 {
        proof {
            power2::lemma2_to64();
            power2::lemma_pow2_pos(640_000);
        }
        return 0;
    }
    let ghost t = v@[i - 1] as int;
    let mut bits: usize = 0;
    let mut top: u64 = v[i - 1];
    proof {
        power2::lemma2_to64();
    }
    while top > 0
        invariant
            bits <= 64,
            0 < t < power2::pow2(64),
            top * power2::pow2(bits as nat) <= t < (top + 1) * power2::pow2(bits as nat),
            top == 0 ==> bits > 0 && power2::pow2((bits - 1) as nat) <= t,
        decreases top,
    {
        proof {
            let p = power2::pow2(bits as nat) as int;
            power2::lemma_pow2_pos(bits as nat);
            power2::lemma_pow2_unfold((bits + 1) as nat);
            if bits == 64 {
                assert(top * p >= p) by (nonlinear_arith)
                    requires
                        top >= 1,
                        p > 0,
                ;
            }
            let half = top / 2;
            assert(half * (2 * p) <= t < (half + 1) * (2 * p)) by (nonlinear_arith)
                requires
                    top * p <= t < (top + 1) * p,
                    2 * half <= top < 2 * half + 2,
                    p > 0,
            ;
            if half == 0 {
                assert(1 * p == p) by (nonlinear_arith);
            }
        }
        top = top / 2;
        bits += 1;
    }
    proof {
        let p = power2::pow2(bits as nat) as int;
        assert(1 * p == p) by (nonlinear_arith);
        lemma_top_digit(v@, i as int, bits as nat);
    }
    if i > 10_000 {
        proof {
            if i > 10_001 {
                power2::lemma_pow2_strictly_increases(640_000, (64 * (i - 1)) as nat);
            }
        }
        return 0;
    }
    proof {
        let k = (64 * (i - 1) + bits) as nat;
        if k < 640_000 {
            power2::lemma_pow2_strictly_increases(k, 640_000);
        }
    }
    (i - 1) * 64 + bits
}

} // verus!
