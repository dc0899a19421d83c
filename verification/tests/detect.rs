//! HyperLogLog and geo detection.

use valkey_rdb_tools::detect::{
    deinterleave64, geohash_decode, hll_cached_cardinality, hll_encoding, is_geo, is_hll,
};
use valkey_rdb_tools::types::Double;

fn decode(score: f64) -> Option<(f64, f64)> {
    geohash_decode(Double { bits: score.to_bits() })
        .map(|(x, y)| (f64::from_bits(x.bits), f64::from_bits(y.bits)))
}

fn looks_geo(members: &[(Vec<u8>, f64)]) -> bool {
    let members = members
        .iter()
        .map(|(m, s)| (m.clone(), Double { bits: s.to_bits() }))
        .collect();
    is_geo(&members)
}

fn interleave64(x: u32, y: u32) -> u64 {
    let mut x = x as u64;
    let mut y = y as u64;
    x = (x | (x << 16)) & 0x0000FFFF0000FFFF;
    y = (y | (y << 16)) & 0x0000FFFF0000FFFF;
    x = (x | (x << 8)) & 0x00FF00FF00FF00FF;
    y = (y | (y << 8)) & 0x00FF00FF00FF00FF;
    x = (x | (x << 4)) & 0x0F0F0F0F0F0F0F0F;
    y = (y | (y << 4)) & 0x0F0F0F0F0F0F0F0F;
    x = (x | (x << 2)) & 0x3333333333333333;
    y = (y | (y << 2)) & 0x3333333333333333;
    x = (x | (x << 1)) & 0x5555555555555555;
    y = (y | (y << 1)) & 0x5555555555555555;
    x | (y << 1)
}

/// Encode (longitude, latitude) to a Valkey geohash score (52-bit, step=26).
fn encode_geohash(lng: f64, lat: f64) -> f64 {
    const LAT_MIN: f64 = -85.05112878;
    const LAT_MAX: f64 = 85.05112878;
    const LONG_MIN: f64 = -180.0;
    const LONG_MAX: f64 = 180.0;
    const STEP: u32 = 26;
    let lat_norm = (lat - LAT_MIN) / (LAT_MAX - LAT_MIN);
    let lng_norm = (lng - LONG_MIN) / (LONG_MAX - LONG_MIN);
    let lat_bits = (lat_norm * (1u64 << STEP) as f64) as u32;
    let lng_bits = (lng_norm * (1u64 << STEP) as f64) as u32;
    interleave64(lat_bits, lng_bits) as f64
}

/// Build a synthetic HLL value for testing.
fn make_hll(encoding: u8, cardinality: u64) -> Vec<u8> {
    let mut data = vec![0u8; 16];
    data[0..4].copy_from_slice(b"HYLL");
    data[4] = encoding;
    data[8..16].copy_from_slice(&cardinality.to_le_bytes());
    data
}

#[test]
fn is_hll_valid_dense() {
    let data = make_hll(0, 42);
    assert!(is_hll(&data));
}

#[test]
fn is_hll_valid_sparse() {
    let data = make_hll(1, 100);
    assert!(is_hll(&data));
}

#[test]
fn is_hll_wrong_magic() {
    let mut data = make_hll(0, 0);
    data[0] = b'X';
    assert!(!is_hll(&data));
}

#[test]
fn is_hll_invalid_encoding_byte() {
    let mut data = make_hll(0, 0);
    data[4] = 2; // not 0 or 1
    assert!(!is_hll(&data));
}

#[test]
fn is_hll_too_short() {
    assert!(!is_hll(b"HYLL"));
    assert!(!is_hll(&[]));
    assert!(!is_hll(&[b'H', b'Y', b'L', b'L', 0, 0, 0, 0, 0, 0, 0, 0, 0, 0, 0])); // 15 bytes
}

#[test]
fn is_hll_rejects_regular_string() {
    assert!(!is_hll(b"hello world"));
    assert!(!is_hll(b"HYLL but invalid encoding\x05"));
}

#[test]
fn hll_encoding_dense() {
    let data = make_hll(0, 0);
    assert_eq!(hll_encoding(&data), "dense");
}

#[test]
fn hll_encoding_sparse() {
    let data = make_hll(1, 0);
    assert_eq!(hll_encoding(&data), "sparse");
}

#[test]
fn hll_cached_cardinality_valid() {
    let data = make_hll(0, 12345);
    assert_eq!(hll_cached_cardinality(&data), 12345);
}

#[test]
fn hll_cached_cardinality_zero() {
    let data = make_hll(0, 0);
    assert_eq!(hll_cached_cardinality(&data), 0);
}

#[test]
fn hll_cached_cardinality_invalid_cache() {
    // Set MSB to indicate cache is invalid.
    let data = make_hll(0, 1u64 << 63);
    assert_eq!(hll_cached_cardinality(&data), -1);
}

#[test]
fn hll_cached_cardinality_invalid_cache_with_value() {
    // MSB set but lower bits have a value — still invalid.
    let data = make_hll(0, (1u64 << 63) | 999);
    assert_eq!(hll_cached_cardinality(&data), -1);
}

// -----------------------------------------------------------------------
// Geo / geohash tests
// -----------------------------------------------------------------------

#[test]
fn deinterleave_interleave_roundtrip() {
    let lat_bits: u32 = 50065025;
    let lng_bits: u32 = 35880437;
    let interleaved = interleave64(lat_bits, lng_bits);
    let result = deinterleave64(interleaved);
    assert_eq!(result as u32, lat_bits);
    assert_eq!((result >> 32) as u32, lng_bits);
}

#[test]
fn geohash_decode_rome() {
    // Rome: 41.8902 N, 12.4923 E
    let score = encode_geohash(12.4923, 41.8902);
    let (lng, lat) = decode(score).expect("valid geohash");
    // Precision: ~0.00001 degrees (~1 meter)
    assert!((lat - 41.8902).abs() < 0.001, "lat={lat}");
    assert!((lng - 12.4923).abs() < 0.001, "lng={lng}");
}

#[test]
fn geohash_decode_san_francisco() {
    // San Francisco: 37.7749 N, -122.4194 W
    let score = encode_geohash(-122.4194, 37.7749);
    let (lng, lat) = decode(score).expect("valid geohash");
    assert!((lat - 37.7749).abs() < 0.001, "lat={lat}");
    assert!((lng - (-122.4194)).abs() < 0.001, "lng={lng}");
}

#[test]
fn geohash_decode_origin() {
    // Near (0, 0) — Gulf of Guinea
    let score = encode_geohash(0.0, 0.0);
    let (lng, lat) = decode(score).expect("valid geohash");
    assert!(lat.abs() < 0.001, "lat={lat}");
    assert!(lng.abs() < 0.001, "lng={lng}");
}

#[test]
fn geohash_decode_negative_coords() {
    // Sydney: -33.8688 S, 151.2093 E
    let score = encode_geohash(151.2093, -33.8688);
    let (lng, lat) = decode(score).expect("valid geohash");
    assert!((lat - (-33.8688)).abs() < 0.001, "lat={lat}");
    assert!((lng - 151.2093).abs() < 0.001, "lng={lng}");
}

#[test]
fn geohash_decode_rejects_negative() {
    assert!(decode(-1.0).is_none());
}

#[test]
fn geohash_decode_rejects_fractional() {
    assert!(decode(1.5).is_none());
}

#[test]
fn geohash_decode_rejects_too_large() {
    assert!(decode((1u64 << 52) as f64).is_none());
}

#[test]
fn geohash_decode_rejects_nan() {
    assert!(decode(f64::NAN).is_none());
}

#[test]
fn geohash_decode_rejects_infinity() {
    assert!(decode(f64::INFINITY).is_none());
    assert!(decode(f64::NEG_INFINITY).is_none());
}

#[test]
fn geohash_decode_zero_is_valid() {
    // 0 is a valid geohash (near lat_min, lng_min corner).
    assert!(decode(0.0).is_some());
}

#[test]
fn is_geo_valid_set() {
    let rome = encode_geohash(12.4923, 41.8902);
    let sf = encode_geohash(-122.4194, 37.7749);
    let members = vec![
        (b"Rome".to_vec(), rome),
        (b"San Francisco".to_vec(), sf),
    ];
    assert!(looks_geo(&members));
}

#[test]
fn is_geo_empty_set() {
    assert!(!looks_geo(&[]));
}

#[test]
fn is_geo_one_invalid_member() {
    let rome = encode_geohash(12.4923, 41.8902);
    let members = vec![
        (b"Rome".to_vec(), rome),
        (b"invalid".to_vec(), 1.5), // fractional → not a geohash
    ];
    assert!(!looks_geo(&members));
}

#[test]
fn is_geo_all_non_geohash() {
    let members = vec![
        (b"alice".to_vec(), 1.5),
        (b"bob".to_vec(), 2.7),
    ];
    assert!(!looks_geo(&members));
}
