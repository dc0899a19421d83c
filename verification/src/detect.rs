//! Detection of virtual types: HyperLogLog values, which are stored as strings, and geo
//! values, which are stored as sorted sets.

use crate::bytes;
use crate::double;
use crate::double::{rounded, SIGN_BIT};
use crate::types;
use crate::types::Double;
use vstd::arithmetic::power2;
use vstd::prelude::*;

verus! {

// ---- HyperLogLog ----

/// Whether bytes look like a HyperLogLog: the magic `HYLL`, an encoding of 0 or 1, and a
/// header of sixteen bytes.
pub open spec fn looks_like_hll(data: Seq<u8>) -> bool {
    &&& data.len() >= 16
    &&& data.take(4) == seq![72u8, 89, 76, 76]
    &&& data[4] <= 1
}

/// Returns true if `data` looks like a HyperLogLog value.
pub fn is_hll(data: &[u8]) -> (r: bool)
    ensures
        r == looks_like_hll(data@),
{
    if data.len() < 16 {
        return false;
    }
    let ghost four = data@.take(4);
    assert(four.len() == 4 && four[0] == data@[0] && four[1] == data@[1] && four[2] == data@[2]
        && four[3] == data@[3]);
    let magic = data[0] == 72 && data[1] == 89 && data[2] == 76 && data[3] == 76;
    assert(magic ==> four == seq![72u8, 89, 76, 76]);
    magic && data[4] <= 1
}

/// The name of the encoding byte of a HyperLogLog.
pub open spec fn hll_encoding_name(data: Seq<u8>) -> Seq<char> {
    if data.len() > 4 && data[4] == 0 {
        "dense"@
    } else if data.len() > 4 && data[4] == 1 {
        "sparse"@
    } else {
        "unknown"@
    }
}

/// Returns the encoding name: `"dense"`, `"sparse"`, or `"unknown"`.
pub fn hll_encoding(data: &[u8]) -> (r: &'static str)
    ensures
        r@ == hll_encoding_name(data@),
{
    if data.len() > 4 && data[4] == 0 {
        "dense"
    } else if data.len() > 4 && data[4] == 1 {
        "sparse"
    } else {
        "unknown"
    }
}

/// The cardinality in bytes 8 to 15 of the header, or -1 if its top bit says that it is out
/// of date or if the data is too short.
pub open spec fn cached_cardinality(data: Seq<u8>) -> int {
    if data.len() < 16 || bytes::le64(data, 8) >= 0x8000_0000_0000_0000 {
        -1
    } else {
        bytes::le64(data, 8)
    }
}

/// Returns the cached cardinality, or -1 where there is none.
pub fn hll_cached_cardinality(data: &[u8]) -> (r: i64)
    ensures
        r as int == cached_cardinality(data@),
{
    if data.len() < 16 {
        return -1;
    }
    let raw: u64 = bytes::get_le64(data, 8);
    if raw >= 0x8000_0000_0000_0000 {
        -1
    } else {
        raw as i64
    }
}

// ---- Interleaved bits ----

/// The number made of the bits at even places.
#[verifier::opaque]
pub open spec fn even_bits(x: nat) -> nat
    decreases x,
{
    if x == 0 {
        0
    } else {
        x % 2 + 2 * even_bits(x / 4)
    }
}

/// The number with its bits at even places and zeros between them.
#[verifier::opaque]
pub open spec fn spread_bits(x: nat) -> nat
    decreases x,
{
    if x == 0 {
        0
    } else {
        x % 2 + 4 * spread_bits(x / 2)
    }
}

/// Taking interleaved bits apart loses nothing: the even and the odd bits, interleaved
/// again, are the number.
pub proof fn law_deinterleave_keeps_all(x: nat)
    ensures
        x == spread_bits(even_bits(x)) + 2 * spread_bits(even_bits(x / 2)),
    decreases x,
{
    lemma_even_step(x);
    lemma_even_step(x / 2);
    if x == 0 {
        lemma_spread_step(0, 0);
        lemma_even_step(0);
    } else {
        law_deinterleave_keeps_all(x / 4);
        lemma_spread_step(even_bits(x / 4), x % 2);
        lemma_spread_step(even_bits(x / 2 / 4), x / 2 % 2);
        assert(x / 2 / 4 == x / 4 / 2);
    }
}

proof fn lemma_even_step(x: nat)
    ensures
        even_bits(x) == x % 2 + 2 * even_bits(x / 4),
{
    reveal(even_bits);
    if x == 0 {
        assert(even_bits(0) == 0);
    }
}

proof fn lemma_spread_step(x: nat, b: nat)
    requires
        b < 2,
    ensures
        spread_bits(b + 2 * x) == b + 4 * spread_bits(x),
{
    reveal(spread_bits);
    if b + 2 * x == 0 {
        assert(spread_bits(0) == 0);
    } else {
        assert((b + 2 * x) % 2 == b && (b + 2 * x) / 2 == x);
    }
}

/// Interleaving two numbers and taking them apart gives the numbers.
pub proof fn law_interleave_and_back(a: nat, b: nat)
    ensures
        even_bits(spread_bits(a) + 2 * spread_bits(b)) == a,
        even_bits((spread_bits(a) + 2 * spread_bits(b)) / 2) == b,
    decreases a + b,
{
    let x = spread_bits(a) + 2 * spread_bits(b);
    lemma_spread_step(a / 2, a % 2);
    lemma_spread_step(b / 2, b % 2);
    assert(a % 2 + 2 * (a / 2) == a && b % 2 + 2 * (b / 2) == b);
    lemma_even_step(x);
    lemma_even_step(x / 2);
    if a > 0 || b > 0 {
        law_interleave_and_back(a / 2, b / 2);
        let y = spread_bits(a / 2) + 2 * spread_bits(b / 2);
        assert(x == a % 2 + 2 * (b % 2) + 4 * y);
        assert(x % 2 == a % 2 && x / 4 == y && x / 2 % 2 == b % 2 && x / 2 / 4 == y / 2);
    } else {
        lemma_spread_step(0, 0);
        lemma_even_step(0);
    }
}

/// Bits at even places, moved together by masks that double in width.
spec fn squeezed(v: u64) -> u64 {
    let x = v & 0x5555_5555_5555_5555;
    let x = (x | (x >> 1)) & 0x3333_3333_3333_3333;
    let x = (x | (x >> 2)) & 0x0f0f_0f0f_0f0f_0f0f;
    let x = (x | (x >> 4)) & 0x00ff_00ff_00ff_00ff;
    let x = (x | (x >> 8)) & 0x0000_ffff_0000_ffff;
    (x | (x >> 16)) & 0x0000_0000_ffff_ffff
}

proof fn lemma_squeezed(v: u64)
    ensures
        squeezed(v) as nat == even_bits(v as nat),
        squeezed(v) < 0x1_0000_0000,
    decreases v,
{
    assert(squeezed(v) == 2 * squeezed(v / 4) + v % 2 && squeezed(v) < 0x1_0000_0000 && squeezed(0)
        == 0) by (bit_vector);
    lemma_even_step(v as nat);
    if v > 0 {
        lemma_squeezed(v / 4);
    }
}

fn squeeze(v: u64) -> (r: u64)
    ensures
        r as nat == even_bits(v as nat),
        r < 0x1_0000_0000,
{
    proof {
        lemma_squeezed(v);
    }
    let x: u64 = v & 0x5555_5555_5555_5555;
    let x: u64 = (x | (x >> 1)) & 0x3333_3333_3333_3333;
    let x: u64 = (x | (x >> 2)) & 0x0f0f_0f0f_0f0f_0f0f;
    let x: u64 = (x | (x >> 4)) & 0x00ff_00ff_00ff_00ff;
    let x: u64 = (x | (x >> 8)) & 0x0000_ffff_0000_ffff;
    (x | (x >> 16)) & 0x0000_0000_ffff_ffff
}

/// Takes interleaved bits apart: the low half of the result holds the bits at even places,
/// the high half those at odd places.
pub fn deinterleave64(interleaved: u64) -> (r: u64)
    ensures
        r as nat == even_bits(interleaved as nat) + 0x1_0000_0000 * even_bits(
            interleaved as nat / 2,
        ),
        even_bits(interleaved as nat) < 0x1_0000_0000,
        even_bits(interleaved as nat / 2) < 0x1_0000_0000,
{
    let even: u64 = squeeze(interleaved);
    let odd: u64 = squeeze(interleaved / 2);
    even + odd * 0x1_0000_0000
}

// ---- Geo ----

/// -85.05112878 degrees, the southern limit of the projection.
pub const LAT_MIN: u64 = 0xc055_4345_b1a5_7f00;

/// 170.10225756 degrees, from the southern to the northern limit.
pub const LAT_SCALE: u64 = 0x4065_4345_b1a5_7f00;

/// -180 degrees.
pub const LONG_MIN: u64 = 0xc066_8000_0000_0000;

/// 360 degrees.
pub const LONG_SCALE: u64 = 0x4076_8000_0000_0000;

/// 2^26, the number of cells in each direction.
pub const CELLS: u64 = 0x4190_0000_0000_0000;

/// 2.
pub const TWO: u64 = 0x4000_0000_0000_0000;

/// The 52-bit geohash that a score is, if it is one: a whole number of at least 0 and below
/// 2^52.
pub open spec fn geohash_of(score: Double) -> Option<nat> {
    let u = score.signed_units();
    let one = power2::pow2(1074) as int;
    if score.finite() && 0 <= u && u % one == 0 && u / one < 0x10_0000_0000_0000 {
        Some((u / one) as nat)
    } else {
        None
    }
}

/// The lower edge of cell `i` of a coordinate, rounded in each operation.
pub open spec fn edge(i: int, min: Double, scale: Double) -> Double {
    let fraction = rounded(rounded(i, 1).signed_units(), (Double { bits: CELLS }).signed_units() as nat);
    let distance = rounded(fraction.signed_units() * scale.signed_units(), power2::pow2(2148));
    rounded(min.signed_units() + distance.signed_units(), power2::pow2(1074))
}

/// The middle of cell `i` of a coordinate, rounded in each operation.
#[verifier::opaque]
pub open spec fn center(i: int, min: Double, scale: Double) -> Double {
    let total = rounded(
        edge(i, min, scale).signed_units() + edge(i + 1, min, scale).signed_units(),
        power2::pow2(1074),
    );
    rounded(total.signed_units(), (Double { bits: TWO }).signed_units() as nat)
}

/// The longitude and latitude that a score stands for.
pub open spec fn position_of(score: Double) -> Option<(Double, Double)> {
    match geohash_of(score) {
        None => None,
        Some(h) => Some(
            (
                center(even_bits(h / 2) as int, Double { bits: LONG_MIN }, Double { bits: LONG_SCALE }),
                center(even_bits(h) as int, Double { bits: LAT_MIN }, Double { bits: LAT_SCALE }),
            ),
        ),
    }
}

/// Whether every score of a sorted set that is not empty is a geohash.
pub open spec fn looks_like_geo(members: Seq<(Seq<u8>, Double)>) -> bool {
    members.len() > 0 && forall|i: int|
        0 <= i < members.len() ==> geohash_of((#[trigger] members[i]).1) is Some
}

/// The geohash that a score is, if it is one.
pub fn geohash_bits(score: Double) -> (r: Option<u64>)
    ensures
        (match r {
            Some(h) => Some(h as nat),
            None => None,
        }) == geohash_of(score),
        r matches Some(h) ==> h < 0x10_0000_0000_0000,
{
    let b: u64 = score.bits % SIGN_BIT;
    let ghost one = power2::pow2(1074) as int;
    proof {
        power2::lemma_pow2_pos(1074);
        double::lemma_zero_below(0, 1);
        assert(b == score.magnitude());
    }
    if b == 0 {
        proof {
            assert(0int % one == 0 && 0int / one == 0) by (nonlinear_arith)
                requires
                    one > 0,
            ;
        }
        return Some(0);
    }
    if score.bits >= SIGN_BIT || b >= double::INFINITY_BITS {
        proof {
            if b < double::INFINITY_BITS {
                double::lemma_units_monotone(0, b as int);
            }
        }
        return None;
    }
    let e: u64 = b / 0x10_0000_0000_0000;
    if e < 1023 {
        // Below one, and not zero.
        proof {
            double::lemma_units_monotone(0, b as int);
            double::lemma_power_bits(0);
            double::lemma_units_monotone(b as int, double::power_bits(0) as int);
            let u = double::units(b as int);
            assert(u % one == u) by (nonlinear_arith)
                requires
                    0 < u < one,
            ;
        }
        return None;
    }
    if e >= 1075 {
        // At least 2^52.
        proof {
            double::lemma_power_bits(52);
            assert(double::power_bits(52) == 1075 * 0x10_0000_0000_0000);
            double::lemma_units_monotone(double::power_bits(52) as int, b as int);
            power2::lemma_pow2_adds(52, 1074);
            power2::lemma2_to64_rest();
            let u = double::units(b as int);
            assert(u / one >= 0x10_0000_0000_0000) by (nonlinear_arith)
                requires
                    u >= 0x10_0000_0000_0000 * one,
                    one > 0,
            ;
        }
        return None;
    }
    let m: u64 = 0x10_0000_0000_0000 + b % 0x10_0000_0000_0000;
    let down: u64 = 1075 - e;
    proof {
        vstd::bits::lemma_u64_pow2_no_overflow(down as nat);
        vstd::bits::lemma_u64_shl_is_mul(1, down);
        power2::lemma_pow2_pos(down as nat);
    }
    let part: u64 = 1u64 << down;
    proof {
        lemma_whole(m as int, e as int, down as nat);
        assert(double::units(b as int) == m * power2::pow2((e - 1) as nat));
        assert(score.signed_units() == m * power2::pow2((e - 1) as nat));
        power2::lemma2_to64();
        assert(part >= 2) by {
            power2::lemma_pow2_unfold(down as nat);
            power2::lemma_pow2_pos((down - 1) as nat);
        }
        assert(m as int / part as int <= m as int / 2) by (nonlinear_arith)
            requires
                part >= 2,
                m >= 0,
        ;
    }
    if m % part == 0 {
        Some(m / part)
    } else {
        None
    }
}

/// A significand counts `2^(e-1)` units; in wholes that is its quotient by `2^(1075-e)`.
proof fn lemma_whole(m: int, e: int, down: nat)
    requires
        0 <= m,
        1023 <= e < 1075,
        down == 1075 - e,
    ensures
        ({
            let u = m * power2::pow2((e - 1) as nat);
            let one = power2::pow2(1074) as int;
            let d = power2::pow2(down) as int;
            &&& u % one == 0 <==> m % d == 0
            &&& u / one == m / d
            &&& u >= 0
        }),
{
    let p = power2::pow2((e - 1) as nat) as int;
    let d = power2::pow2(down) as int;
    let one = power2::pow2(1074) as int;
    power2::lemma_pow2_adds(down, (e - 1) as nat);
    power2::lemma_pow2_pos((e - 1) as nat);
    power2::lemma_pow2_pos(down);
    assert(one == d * p);
    let q = m / d;
    let r = m % d;
    assert(m == d * q + r && 0 <= r < d) by (nonlinear_arith)
        requires
            d > 0,
            q == m / d,
            r == m % d,
    ;
    let u = m * p;
    assert(u == one * q + r * p && 0 <= r * p < one && (r == 0 <==> r * p == 0) && u >= 0)
        by (nonlinear_arith)
        requires
            u == m * p,
            m == d * q + r,
            0 <= r < d,
            one == d * p,
            p > 0,
            m >= 0,
    ;
    vstd::arithmetic::div_mod::lemma_fundamental_div_mod_converse(u, one, q, r * p);
}

/// Whether a constant of the projection is finite and of magnitude at most 512.
pub open spec fn moderate(d: Double) -> bool {
    &&& d.finite()
    &&& -power2::pow2(1083) <= d.signed_units() <= power2::pow2(1083)
}

pub proof fn lemma_constants()
    ensures
        moderate((Double { bits: LAT_MIN })),
        moderate((Double { bits: LAT_SCALE })),
        moderate((Double { bits: LONG_MIN })),
        moderate((Double { bits: LONG_SCALE })),
        (Double { bits: CELLS }).finite(),
        (Double { bits: CELLS }).signed_units() == power2::pow2(1100),
        (Double { bits: TWO }).finite(),
        (Double { bits: TWO }).signed_units() == power2::pow2(1075),
{
    double::lemma_power_bits(9);
    double::lemma_power_bits(26);
    double::lemma_power_bits(1);
    assert(double::power_bits(9) == 0x4080_0000_0000_0000);
    assert(double::power_bits(26) == 0x4190_0000_0000_0000);
    assert(double::power_bits(1) == 0x4000_0000_0000_0000);
    let limit = double::power_bits(9) as int;
    double::lemma_units_monotone((Double { bits: LAT_MIN }).magnitude() as int, limit);
    double::lemma_units_monotone((Double { bits: LAT_SCALE }).magnitude() as int, limit);
    double::lemma_units_monotone((Double { bits: LONG_MIN }).magnitude() as int, limit);
    double::lemma_units_monotone((Double { bits: LONG_SCALE }).magnitude() as int, limit);
}

/// The lower edge of a cell.
fn cell_edge(i: u32, min: Double, scale: Double) -> (r: Double)
    requires
        i <= 0x400_0000,
        moderate(min),
        moderate(scale),
    ensures
        r == edge(i as int, min, scale),
        r.finite(),
        -power2::pow2(1084) <= r.signed_units() <= power2::pow2(1084),
{
    proof {
        lemma_constants();
        power2::lemma2_to64();
        power2::lemma_pow2_pos(1100);
        double::lemma_rounded_bounded(i as int, 1, 26);
    }
    let index = Double::from_i64(i as i64);
    proof {
        power2::lemma_pow2_adds(0, 1100);
        double::lemma_rounded_bounded(index.signed_units(), power2::pow2(1100), 0);
    }
    let fraction = index.quotient((Double { bits: CELLS }));
    proof {
        power2::lemma_pow2_pos(2148);
        power2::lemma_pow2_adds(1074, 1083);
        power2::lemma_pow2_adds(9, 2148);
        let a = fraction.signed_units();
        let b = scale.signed_units();
        let x = power2::pow2(1074) as int;
        let y = power2::pow2(1083) as int;
        assert(-(x * y) <= a * b <= x * y) by (nonlinear_arith)
            requires
                -x <= a <= x,
                -y <= b <= y,
        ;
        double::lemma_rounded_bounded(a * b, power2::pow2(2148), 9);
    }
    let distance = fraction.product(scale);
    proof {
        power2::lemma_pow2_unfold(1084);
        power2::lemma_pow2_pos(1074);
        power2::lemma_pow2_adds(10, 1074);
        double::lemma_rounded_bounded(
            min.signed_units() + distance.signed_units(),
            power2::pow2(1074),
            10,
        );
    }
    min.sum(distance)
}

fn cell_center(i: u32, min: Double, scale: Double) -> (r: Double)
    requires
        i < 0x400_0000,
        moderate(min),
        moderate(scale),
    ensures
        r == center(i as int, min, scale),
{
    let low = cell_edge(i, min, scale);
    let high = cell_edge(i + 1, min, scale);
    proof {
        reveal(center);
        lemma_constants();
        power2::lemma_pow2_unfold(1085);
        power2::lemma_pow2_pos(1074);
        power2::lemma_pow2_pos(1075);
        power2::lemma_pow2_adds(11, 1074);
        double::lemma_rounded_bounded(
            low.signed_units() + high.signed_units(),
            power2::pow2(1074),
            11,
        );
    }
    let total = low.sum(high);
    total.quotient((Double { bits: TWO }))
}

proof fn lemma_even_bits_bound(x: nat)
    requires
        x < 0x10_0000_0000_0000,
    ensures
        even_bits(x) < 0x400_0000,
        even_bits(x / 2) < 0x400_0000,
{
    power2::lemma2_to64();
    power2::lemma2_to64_rest();
    lemma_even_bits_below(x, 26);
    lemma_even_bits_below(x / 2, 26);
}

proof fn lemma_even_bits_below(x: nat, k: nat)
    requires
        x < power2::pow2(2 * k),
    ensures
        even_bits(x) < power2::pow2(k),
    decreases k,
{
    power2::lemma_pow2_pos(k);
    if k == 0 {
        power2::lemma2_to64();
        lemma_even_step(0);
    } else {
        power2::lemma_pow2_unfold(k);
        power2::lemma_pow2_unfold(2 * k);
        power2::lemma_pow2_unfold((2 * k - 1) as nat);
        lemma_even_step(x);
        lemma_even_bits_below(x / 4, (k - 1) as nat);
    }
}

/// The cells of longitude and latitude of a geohash.
fn cells_of(h: u64) -> (r: (u32, u32))
    requires
        h < 0x10_0000_0000_0000,
    ensures
        r.0 as nat == even_bits(h as nat / 2),
        r.1 as nat == even_bits(h as nat),
        r.0 < 0x400_0000,
        r.1 < 0x400_0000,
{
    let halves: u64 = deinterleave64(h);
    proof {
        lemma_even_bits_bound(h as nat);
    }
    ((halves / 0x1_0000_0000) as u32, (halves % 0x1_0000_0000) as u32)
}

/// Decodes a geohash score to longitude and latitude.
///
/// Returns `None` if the score is not a whole number that fits in 52 bits.
pub fn geohash_decode(score: Double) -> (r: Option<(Double, Double)>)
    ensures
        r == position_of(score),
{
    match geohash_bits(score) {
        None => None,
        Some(h) => {
            let (long, lat) = cells_of(h);
            proof {
                lemma_constants();
            }
            Some(
                (
                    cell_center(long, Double { bits: LONG_MIN }, Double { bits: LONG_SCALE }),
                    cell_center(lat, Double { bits: LAT_MIN }, Double { bits: LAT_SCALE }),
                ),
            )
        },
    }
}

/// Returns true if a sorted set looks like a geo set: not empty, and every score a geohash.
pub fn is_geo(members: &Vec<(Vec<u8>, Double)>) -> (r: bool)
    ensures
        r == looks_like_geo(types::scored_members(members@)),
{
    let ghost shown = types::scored_members(members@);
    if members.len() == 0 {
        return false;
    }
    let mut i: usize = 0;
    while i < members.len()
        invariant
            i <= members@.len(),
            shown == types::scored_members(members@),
            forall|k: int| 0 <= k < i ==> geohash_of((#[trigger] shown[k]).1) is Some,
        decreases members@.len() - i,
    {
        assert(shown[i as int].1 == members@[i as int].1);
        if geohash_bits(members[i].1).is_none() {
            return false;
        }
        i += 1;
    }
    true
}

} // verus!
