//! What geohash scores stand for, in degrees.

use crate::detect::{
    center, edge, even_bits, geohash_of, law_interleave_and_back, lemma_constants, looks_like_geo,
    moderate, position_of, spread_bits, LAT_MIN, LAT_SCALE, LONG_MIN, LONG_SCALE,
};
use crate::double::{law_rounding_error, lemma_rounded_bounded, rounded, significand, units};
use crate::schema::{emits_geo, Heuristic};
use crate::types::{Double, RdbEntryV, RdbValueV};
use vstd::arithmetic::power2::{
    lemma2_to64, lemma2_to64_rest, lemma_pow2_adds, lemma_pow2_pos, lemma_pow2_unfold, pow2,
};
use vstd::prelude::*;

verus! {

// ---- Bits ----

/// Bit `k` of a number.
pub open spec fn bit(x: nat, k: nat) -> nat {
    x / pow2(k) % 2
}

proof fn lemma_bit_below(x: nat, k: nat)
    ensures
        bit(x, 0) == x % 2,
        bit(x, k + 1) == bit(x / 2, k),
{
    lemma2_to64();
    lemma_pow2_unfold(k + 1);
    lemma_pow2_pos(k);
    let p = pow2(k) as int;
    assert(x as int / (2 * p) == (x as int / 2) / p) by {
        vstd::arithmetic::div_mod::lemma_div_denominator(x as int, 2, p);
    }
}

/// The bits of `even_bits` are those at the even places of a number.
pub proof fn law_even_bits_by_place(x: nat, k: nat)
    ensures
        bit(even_bits(x), k) == bit(x, 2 * k),
    decreases k,
{
    reveal(even_bits);
    let y = even_bits(x);
    lemma_bit_below(y, 0);
    lemma_bit_below(x, 0);
    assert(y == x % 2 + 2 * even_bits(x / 4)) by {
        if x == 0 {
            assert(even_bits(0) == 0);
        }
    }
    if k > 0 {
        let j = (k - 1) as nat;
        law_even_bits_by_place(x / 4, j);
        lemma_bit_below(y, j);
        lemma_bit_below(x, 2 * j + 1);
        lemma_bit_below(x / 2, 2 * j);
        assert(y / 2 == even_bits(x / 4));
        assert(x / 2 / 2 == x / 4);
    }
}

/// The bits of `spread_bits` at even places are those of the number, and the others are zero.
pub proof fn law_spread_bits_by_place(x: nat, k: nat)
    ensures
        bit(spread_bits(x), 2 * k) == bit(x, k),
        bit(spread_bits(x), 2 * k + 1) == 0,
    decreases k,
{
    reveal(spread_bits);
    let y = spread_bits(x);
    assert(y == x % 2 + 4 * spread_bits(x / 2)) by {
        if x == 0 {
            assert(spread_bits(0) == 0);
        }
    }
    lemma_bit_below(x, 0);
    lemma_bit_below(y, 0);
    lemma_bit_below(y / 2, 0);
    if k > 0 {
        let j = (k - 1) as nat;
        law_spread_bits_by_place(x / 2, j);
        lemma_bit_below(x, j);
        lemma_bit_below(y, 2 * j + 1);
        lemma_bit_below(y / 2, 2 * j);
        lemma_bit_below(y, 2 * j + 2);
        lemma_bit_below(y / 2, 2 * j + 1);
        assert(y / 2 / 2 == spread_bits(x / 2));
    }
}

// ---- Rounding ----

/// Whether `x` is at most `limit` away from zero.
spec fn small(x: int, limit: int) -> bool {
    -limit <= x <= limit
}

proof fn lemma_cancel(x: int, limit: int, u: int)
    requires
        u > 0,
        small(x * u, limit * u),
    ensures
        small(x, limit),
{
    assert(x <= limit && -limit <= x) by (nonlinear_arith)
        requires
            u > 0,
            -(limit * u) <= x * u <= limit * u,
    ;
}

proof fn lemma_scale(x: int, limit: int, a: int, most: int)
    requires
        small(x, limit),
        small(a, most),
        limit >= 0,
    ensures
        small(x * a, limit * most),
{
    assert(-(limit * most) <= x * a <= limit * most) by (nonlinear_arith)
        requires
            -limit <= x <= limit,
            -most <= a <= most,
            limit >= 0,
    ;
}

/// The fraction of all cells that come before cell `i` is near to its exact value.
proof fn lemma_fraction_near(i: int)
    requires
        0 <= i <= 0x400_0000,
    ensures
        ({
            let a = rounded(i, 1).signed_units();
            let f = rounded(a, pow2(1100)).signed_units();
            &&& small(f, pow2(1074) as int)
            &&& small(f * 0x400_0000 - i * pow2(1074), pow2(1048) as int)
        }),
{
    lemma2_to64();
    lemma_pow2_pos(1100);
    lemma_pow2_pos(1074);
    let u = pow2(1074) as int;
    lemma_rounded_bounded(i, 1, 26);
    law_rounding_error(i, 1, 26);
    let a = rounded(i, 1).signed_units();
    lemma_pow2_adds(0, 1100);
    lemma_rounded_bounded(a, pow2(1100), 0);
    law_rounding_error(a, pow2(1100), 0);
    let f = rounded(a, pow2(1100)).signed_units();
    lemma_pow2_adds(26, 1074);
    lemma_pow2_adds(26, 1021);
    lemma_pow2_unfold(1048);
    let n: int = 0x400_0000;
    assert(pow2(1100) == n * u);
    assert(f * (n * u) - a * u == (f * n - a) * u) by (nonlinear_arith);
    let e = pow2(1021) as int;
    assert(e * (n * u) == (n * e) * u) by (nonlinear_arith);
    lemma_cancel(f * n - a, n * e, u);
}

/// How far a cell is from the start is near to its exact value.
proof fn lemma_distance_near(i: int, scale: Double)
    requires
        0 <= i <= 0x400_0000,
        moderate(scale),
    ensures
        ({
            let a = rounded(i, 1).signed_units();
            let f = rounded(a, pow2(1100)).signed_units();
            let s = scale.signed_units();
            let d = rounded(f * s, pow2(2148)).signed_units();
            &&& small(d, pow2(1083) as int)
            &&& small(d * 0x400_0000 - i * s, (pow2(1056) + pow2(1057)) as int)
        }),
{
    let a = rounded(i, 1).signed_units();
    let f = rounded(a, pow2(1100)).signed_units();
    let s = scale.signed_units();
    let u = pow2(1074) as int;
    let n: int = 0x400_0000;
    lemma2_to64();
    lemma_fraction_near(i);
    lemma_pow2_pos(1074);
    lemma_pow2_pos(1083);
    lemma_pow2_pos(1048);
    lemma_pow2_pos(2148);
    lemma_pow2_adds(1074, 1083);
    lemma_pow2_adds(9, 2148);
    lemma_pow2_adds(1074, 1074);
    lemma_scale(f, u, s, pow2(1083) as int);
    lemma_rounded_bounded(f * s, pow2(2148), 9);
    law_rounding_error(f * s, pow2(2148), 9);
    let d = rounded(f * s, pow2(2148)).signed_units();
    let e = pow2(1030) as int;
    assert(d * (u * u) - (f * s) * u == (d * u - f * s) * u) by (nonlinear_arith);
    assert(e * (u * u) == (e * u) * u) by (nonlinear_arith);
    lemma_cancel(d * u - f * s, e * u, u);
    // Times the number of cells.
    lemma_scale(d * u - f * s, e * u, n, n);
    lemma_scale(f * n - i * u, pow2(1048) as int, s, pow2(1083) as int);
    lemma_pow2_adds(1048, 1083);
    lemma_pow2_adds(1057, 1074);
    lemma_pow2_adds(26, 1030);
    let g = pow2(1057) as int;
    assert((d * n - i * s) * u == (d * u - f * s) * n + (f * n - i * u) * s) by (nonlinear_arith);
    assert((e * u) * n == (n * e) * u) by (nonlinear_arith);
    assert((n * e) * u + g * u == (n * e + g) * u) by (nonlinear_arith);
    lemma_cancel(d * n - i * s, n * e + g, u);
}

/// The edge of a cell is near to its exact place.
proof fn lemma_edge_near(i: int, min: Double, scale: Double)
    requires
        0 <= i <= 0x400_0000,
        moderate(min),
        moderate(scale),
    ensures
        small(edge(i, min, scale).signed_units(), pow2(1084) as int),
        small(
            edge(i, min, scale).signed_units() * 0x400_0000 - min.signed_units() * 0x400_0000 - i
                * scale.signed_units(),
            pow2(1059) as int,
        ),
{
    lemma_constants();
    lemma_distance_near(i, scale);
    let a = rounded(i, 1).signed_units();
    let f = rounded(a, pow2(1100)).signed_units();
    let s = scale.signed_units();
    let d = rounded(f * s, pow2(2148)).signed_units();
    let m = min.signed_units();
    let u = pow2(1074) as int;
    lemma_pow2_pos(1074);
    lemma_pow2_unfold(1084);
    lemma_pow2_adds(10, 1074);
    lemma2_to64();
    lemma_rounded_bounded(m + d, pow2(1074), 10);
    law_rounding_error(m + d, pow2(1074), 10);
    let e = edge(i, min, scale).signed_units();
    assert(e == rounded(m + d, pow2(1074)).signed_units());
    assert(e * u - (m + d) * u == (e - (m + d)) * u) by (nonlinear_arith);
    lemma_cancel(e - (m + d), pow2(1031) as int, u);
    lemma_pow2_adds(26, 1031);
    lemma_pow2_unfold(1057);
    lemma_pow2_unfold(1058);
    lemma_pow2_unfold(1059);
    lemma_pow2_pos(1056);
}

/// The middle of a cell is near to its exact place: twice the middle, times the number of
/// cells, is twice the start and an odd number of half cells.
proof fn lemma_center_near(i: int, min: Double, scale: Double)
    requires
        0 <= i < 0x400_0000,
        moderate(min),
        moderate(scale),
    ensures
        center(i, min, scale).finite(),
        small(
            center(i, min, scale).signed_units() * 0x800_0000 - min.signed_units() * 0x800_0000 - (2
                * i + 1) * scale.signed_units(),
            pow2(1061) as int,
        ),
{
    reveal(center);
    lemma_constants();
    lemma_edge_near(i, min, scale);
    lemma_edge_near(i + 1, min, scale);
    let low = edge(i, min, scale).signed_units();
    let high = edge(i + 1, min, scale).signed_units();
    let u = pow2(1074) as int;
    lemma_pow2_pos(1074);
    lemma_pow2_pos(1075);
    lemma_pow2_unfold(1085);
    lemma_pow2_unfold(1075);
    lemma_pow2_adds(11, 1074);
    lemma_pow2_adds(10, 1075);
    lemma2_to64();
    lemma_rounded_bounded(low + high, pow2(1074), 11);
    law_rounding_error(low + high, pow2(1074), 11);
    let t = rounded(low + high, pow2(1074)).signed_units();
    assert(t * u - (low + high) * u == (t - (low + high)) * u) by (nonlinear_arith);
    lemma_cancel(t - (low + high), pow2(1032) as int, u);
    lemma_rounded_bounded(t, pow2(1075), 10);
    law_rounding_error(t, pow2(1075), 10);
    let c = rounded(t, pow2(1075)).signed_units();
    assert(c == center(i, min, scale).signed_units());
    let e = pow2(1031) as int;
    assert(c * (2 * u) - t * u == (2 * c - t) * u) by (nonlinear_arith);
    assert(e * (2 * u) == (2 * e) * u) by (nonlinear_arith);
    lemma_cancel(2 * c - t, 2 * e, u);
    lemma_pow2_unfold(1032);
    lemma_pow2_adds(26, 1032);
    lemma_pow2_unfold(1059);
    lemma_pow2_unfold(1060);
    lemma_pow2_unfold(1061);
    lemma_pow2_pos(1058);
    let s = scale.signed_units();
    let m = min.signed_units();
    assert((i + 1) * s == i * s + s) by (nonlinear_arith);
    assert((2 * i + 1) * s == 2 * (i * s) + s) by (nonlinear_arith);
    assert(c * 0x800_0000 == (2 * c - t) * 0x400_0000 + (t - (low + high)) * 0x400_0000 + low
        * 0x400_0000 + high * 0x400_0000);
}

// ---- Degrees ----

/// Whether a number is within 2^-39 of `num / den`.
pub open spec fn near(d: Double, num: int, den: int) -> bool {
    let off = d.signed_units() * den - num * pow2(1074);
    d.finite() && -(den * pow2(1074)) <= off * pow2(39) <= den * pow2(1074)
}

proof fn lemma_longitude(x: int)
    requires
        0 <= x < 0x400_0000,
    ensures
        near(
            center(x, Double { bits: LONG_MIN }, Double { bits: LONG_SCALE }),
            -180 * 0x800_0000 + 360 * (2 * x + 1),
            0x800_0000,
        ),
{
    let min = Double { bits: LONG_MIN };
    let scale = Double { bits: LONG_SCALE };
    let u = pow2(1074) as int;
    lemma_constants();
    lemma_center_near(x, min, scale);
    lemma2_to64();
    lemma2_to64_rest();
    assert(min.signed_units() == -180 * u) by {
        let b = min.magnitude() as int;
        assert(b == 0x4066_8000_0000_0000);
        assert(significand(b) == 0x16_8000_0000_0000);
        lemma_pow2_adds(45, 1029);
        assert(u == 0x2000_0000_0000 * pow2(1029));
        assert(units(b) == 0x16_8000_0000_0000 * pow2(1029));
        let v = pow2(1029) as int;
        assert(0x16_8000_0000_0000 * v == 180 * (0x2000_0000_0000 * v)) by (nonlinear_arith);
    }
    assert(scale.signed_units() == 360 * u) by {
        let b = scale.magnitude() as int;
        assert(b == 0x4076_8000_0000_0000);
        assert(significand(b) == 0x16_8000_0000_0000);
        lemma_pow2_adds(44, 1030);
        assert(u == 0x1000_0000_0000 * pow2(1030));
        assert(units(b) == 0x16_8000_0000_0000 * pow2(1030));
        let v = pow2(1030) as int;
        assert(0x16_8000_0000_0000 * v == 360 * (0x1000_0000_0000 * v)) by (nonlinear_arith);
    }
    let c = center(x, min, scale).signed_units();
    let odd = 2 * x + 1;
    let num = -180 * 0x800_0000 + 360 * odd;
    assert(num * u == (-180 * u) * 0x800_0000 + odd * (360 * u)) by (nonlinear_arith)
        requires
            num == -180 * 0x800_0000 + 360 * odd,
    ;
    lemma_near(c * 0x800_0000 - num * u, 0x800_0000);
}

/// An error of at most 2^1061 units in parts of `den` is small enough.
proof fn lemma_near(off: int, den: int)
    requires
        small(off, pow2(1061) as int),
        den >= 0x800_0000,
    ensures
        -(den * pow2(1074)) <= off * pow2(39) <= den * pow2(1074),
{
    lemma2_to64_rest();
    lemma2_to64();
    lemma_pow2_pos(39);
    lemma_pow2_pos(1074);
    lemma_pow2_adds(1061, 39);
    lemma_pow2_adds(26, 1074);
    lemma_scale(off, pow2(1061) as int, pow2(39) as int, pow2(39) as int);
    let u = pow2(1074) as int;
    assert(0x400_0000 * u <= den * u) by (nonlinear_arith)
        requires
            den >= 0x800_0000,
            u > 0,
    ;
}

proof fn lemma_latitude(y: int)
    requires
        0 <= y < 0x400_0000,
    ensures
        near(
            center(y, Double { bits: LAT_MIN }, Double { bits: LAT_SCALE }),
            -8_505_112_878 * 0x800_0000 + 17_010_225_756 * (2 * y + 1),
            100_000_000 * 0x800_0000int,
        ),
{
    let min = Double { bits: LAT_MIN };
    let scale = Double { bits: LAT_SCALE };
    let u = pow2(1074) as int;
    let v = pow2(1028) as int;
    lemma_constants();
    lemma_center_near(y, min, scale);
    lemma2_to64();
    lemma2_to64_rest();
    lemma_pow2_pos(1028);
    lemma_pow2_adds(46, 1028);
    lemma_pow2_unfold(1029);
    lemma_pow2_pos(1074);
    let m = min.signed_units();
    let s = scale.signed_units();
    // The two constants are the numbers nearest to the decimal ones.
    assert(m == -(0x15_4345_b1a5_7f00 * v)) by {
        let b = min.magnitude() as int;
        assert(b == 0x4055_4345_b1a5_7f00);
        assert(significand(b) == 0x15_4345_b1a5_7f00);
    }
    assert(s == 0x15_4345_b1a5_7f00 * (2 * v)) by {
        let b = scale.magnitude() as int;
        assert(b == 0x4065_4345_b1a5_7f00);
        assert(significand(b) == 0x15_4345_b1a5_7f00);
    }
    assert(u == 0x4000_0000_0000 * v);
    let dm = 100_000_000 * m + 8_505_112_878 * u;
    let ds = 100_000_000 * s - 17_010_225_756 * u;
    assert(0x15_4345_b1a5_7f00 * (2 * v) == 0x2a_868b_634a_fe00 * v) by (nonlinear_arith);
    assert(small(dm, 0x80_0000 * v));
    assert(small(ds, 0x100_0000 * v));
    let c = center(y, min, scale).signed_units();
    let odd = 2 * y + 1;
    let num = -8_505_112_878 * 0x800_0000 + 17_010_225_756 * odd;
    let off = c * (100_000_000 * 0x800_0000int) - num * u;
    let e = c * 0x800_0000 - m * 0x800_0000 - odd * s;
    assert(num * u == -8_505_112_878 * 0x800_0000 * u + 17_010_225_756 * (odd * u))
        by (nonlinear_arith)
        requires
            num == -8_505_112_878 * 0x800_0000 + 17_010_225_756 * odd,
    ;
    assert(odd * ds == 100_000_000 * (odd * s) - 17_010_225_756 * (odd * u)) by (nonlinear_arith)
        requires
            ds == 100_000_000 * s - 17_010_225_756 * u,
    ;
    assert(off == 100_000_000 * e + dm * 0x800_0000 + odd * ds) by (nonlinear_arith)
        requires
            off == c * (100_000_000 * 0x800_0000int) - num * u,
            e == c * 0x800_0000 - m * 0x800_0000 - odd * s,
            dm == 100_000_000 * m + 8_505_112_878 * u,
            num * u == -8_505_112_878 * 0x800_0000 * u + 17_010_225_756 * (odd * u),
            odd * ds == 100_000_000 * (odd * s) - 17_010_225_756 * (odd * u),
    ;
    lemma_scale(ds, 0x100_0000 * v, odd, 0x800_0000);
    lemma_pow2_adds(33, 1028);
    let w = pow2(1061) as int;
    assert(w == 0x2_0000_0000 * v);
    assert(small(100_000_000 * e, 100_000_000 * w));
    assert((0x100_0000 * v) * 0x800_0000 == 0x8_0000_0000_0000 * v) by (nonlinear_arith);
    assert((0x80_0000 * v) * 0x800_0000 == 0x4_0000_0000_0000 * v) by (nonlinear_arith);
    assert(small(dm * 0x800_0000, 0x4_0000_0000_0000 * v));
    assert(small(odd * ds, 0x8_0000_0000_0000 * v)) by {
        assert(odd * ds == ds * odd) by (nonlinear_arith);
    }
    assert(0xc_0000_0000_0000 * v <= 100_000_000 * w) by (nonlinear_arith)
        requires
            w == 0x2_0000_0000 * v,
            v > 0,
    ;
    assert(small(off, 200_000_000 * w));
    let k = pow2(39) as int;
    lemma_pow2_pos(39);
    lemma_pow2_adds(1061, 39);
    lemma_pow2_adds(26, 1074);
    lemma_scale(off, 200_000_000 * w, k, k);
    assert(w * k == 0x400_0000 * u);
    assert((200_000_000 * w) * k == 200_000_000 * (w * k)) by (nonlinear_arith);
}

/// A geohash score stands for the middle of its cell: the even bits of the score are those of
/// a cell of latitude, of which there are 2^26 from -85.05112878 degrees northwards over
/// 170.10225756 degrees, and the odd bits those of a cell of longitude, of which there are
/// 2^26 from -180 degrees eastwards over 360 degrees.
pub proof fn law_geohash_position(x: nat, y: nat, score: Double)
    requires
        x < 0x400_0000,
        y < 0x400_0000,
        score.finite(),
        score.signed_units() == (spread_bits(y) + 2 * spread_bits(x)) * pow2(1074),
    ensures
        position_of(score) matches Some((longitude, latitude)) && {
            &&& near(longitude, -180 * 0x800_0000 + 360 * (2 * x + 1), 0x800_0000)
            &&& near(
                latitude,
                -8_505_112_878 * 0x800_0000 + 17_010_225_756 * (2 * y + 1),
                100_000_000 * 0x800_0000int,
            )
        },
{
    let h = spread_bits(y) + 2 * spread_bits(x);
    let u = pow2(1074) as int;
    lemma_pow2_pos(1074);
    lemma2_to64();
    lemma2_to64_rest();
    lemma_spread_below(x, 26);
    lemma_spread_below(y, 26);
    vstd::arithmetic::div_mod::lemma_fundamental_div_mod_converse(h * u, u, h as int, 0);
    assert(0 <= h * u) by (nonlinear_arith)
        requires
            h >= 0,
            u > 0,
    ;
    assert(geohash_of(score) == Some(h));
    law_interleave_and_back(y, x);
    lemma_longitude(x as int);
    lemma_latitude(y as int);
}

proof fn lemma_spread_below(x: nat, k: nat)
    requires
        x < pow2(k),
    ensures
        3 * spread_bits(x) < pow2(2 * k),
    decreases k,
{
    reveal(spread_bits);
    lemma_pow2_pos(2 * k);
    if k == 0 {
        lemma2_to64();
        assert(spread_bits(0) == 0);
    } else {
        lemma_pow2_unfold(k);
        lemma_pow2_unfold(2 * k);
        lemma_pow2_unfold((2 * k - 1) as nat);
        assert(spread_bits(x) == x % 2 + 4 * spread_bits(x / 2)) by {
            if x == 0 {
                assert(spread_bits(0) == 0);
            }
        }
        lemma_spread_below(x / 2, (k - 1) as nat);
    }
}

/// Exactly the whole numbers from 0 up to 2^52 stand for a position.
pub proof fn law_geohash_scores(score: Double, n: nat)
    ensures
        score.finite() && score.signed_units() == n * pow2(1074) ==> (position_of(score) is Some
            <==> n < 0x10_0000_0000_0000),
        position_of(score) is Some ==> score.finite() && score.signed_units() % (pow2(1074) as int)
            == 0 && 0 <= score.signed_units() < 0x10_0000_0000_0000 * pow2(1074),
{
    let u = pow2(1074) as int;
    lemma_pow2_pos(1074);
    vstd::arithmetic::div_mod::lemma_fundamental_div_mod_converse(n * u, u, n as int, 0);
    assert(0 <= n * u) by (nonlinear_arith)
        requires
            n >= 0,
            u > 0,
    ;
    let s = score.signed_units();
    vstd::arithmetic::div_mod::lemma_fundamental_div_mod(s, u);
    if position_of(score) is Some {
        let q = s / u;
        assert(u * q < 0x10_0000_0000_0000 * u) by (nonlinear_arith)
            requires
                q < 0x10_0000_0000_0000,
                u > 0,
        ;
    }
}

/// An entry is shown as geo data exactly if that is asked for and it is a whole sorted set
/// that is not empty and of which every score is a whole number from 0 up to 2^52.
pub proof fn law_geo_entries(h: Set<Heuristic>, e: RdbEntryV)
    ensures
        emits_geo(h, e) <==> h.contains(Heuristic::Geo) && e.total_elements is None && (
        e.value matches RdbValueV::SortedSet(x) && x.len() > 0 && forall|i: int|
            0 <= i < x.len() ==> is_cell((#[trigger] x[i]).1)),
{
    assert forall|d: Double| (geohash_of(d) is Some) == #[trigger] is_cell(d) by {
        lemma_is_cell(d);
    }
    if let RdbValueV::SortedSet(x) = e.value {
        if looks_like_geo(x) {
            assert forall|i: int| 0 <= i < x.len() implies is_cell((#[trigger] x[i]).1) by {
                assert(geohash_of(x[i].1) is Some);
            }
        }
        if forall|i: int| 0 <= i < x.len() ==> is_cell((#[trigger] x[i]).1) {
            assert forall|i: int| 0 <= i < x.len() implies geohash_of(
                (#[trigger] x[i]).1,
            ) is Some by {
                assert(is_cell(x[i].1));
            }
        }
    }
}

/// Whether a number is a whole number from 0 up to 2^52.
pub open spec fn is_cell(d: Double) -> bool {
    d.finite() && exists|n: nat| n < 0x10_0000_0000_0000 && d.signed_units() == #[trigger] (n * pow2(
        1074,
    ))
}

proof fn lemma_is_cell(d: Double)
    ensures
        (geohash_of(d) is Some) == is_cell(d),
{
    let u = pow2(1074) as int;
    lemma_pow2_pos(1074);
    law_geohash_scores(d, 0);
    if let Some(n) = geohash_of(d) {
        vstd::arithmetic::div_mod::lemma_fundamental_div_mod(d.signed_units(), u);
        assert(u * (d.signed_units() / u) == n * pow2(1074)) by (nonlinear_arith)
            requires
                n as int == d.signed_units() / u,
                u == pow2(1074),
        ;
        assert(d.signed_units() == n * pow2(1074));
    }
    if is_cell(d) {
        let n = choose|n: nat|
            n < 0x10_0000_0000_0000 && d.signed_units() == #[trigger] (n * pow2(1074));
        law_geohash_scores(d, n);
    }
}

} // verus!
