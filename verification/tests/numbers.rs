//! Numbers and text: binary64 arithmetic on bits, decimal forms, and characters.

use valkey_rdb_tools::big::{bit_length_hint, one, shift_left, small};
use valkey_rdb_tools::compact::CompactEntry;
use valkey_rdb_tools::crc64::Crc64Table;
use valkey_rdb_tools::detect::geohash_decode;
use valkey_rdb_tools::double::parse;
use valkey_rdb_tools::text::{
    comes_before, dec_string, dec_string_signed, hex_string, pad_left, pad_right, parse_signed,
    parse_unsigned, split_commas, string_of, to_lower, trim_chars,
};
use valkey_rdb_tools::types::{Double, Single};

fn double(x: f64) -> Double {
    Double { bits: x.to_bits() }
}

/// Numbers of all magnitudes, in no particular order.
fn samples() -> Vec<f64> {
    let mut out = vec![
        0.0,
        -0.0,
        1.0,
        -1.0,
        0.1,
        3.14,
        1e300,
        -1e300,
        f64::MAX,
        f64::MIN,
        f64::MIN_POSITIVE,
        f64::EPSILON,
        5e-324,
        2.2250738585072011e-308,
        9007199254740993.0,
        123456789.125,
    ];
    let mut x: u64 = 0x9e37_79b9_7f4a_7c15;
    for _ in 0..60 {
        x ^= x << 13;
        x ^= x >> 7;
        x ^= x << 17;
        let f = f64::from_bits(x);
        if f.is_finite() {
            out.push(f);
        }
    }
    out
}

#[test]
fn parsing_agrees_with_std() {
    let mut texts: Vec<String> = samples().iter().map(|x| format!("{x:?}")).collect();
    texts.extend(samples().iter().map(|x| format!("{x:e}")));
    for s in [
        "1.5", "-2.75", "+7", ".5", "5.", "1e5", "1E-5", "inf", "-inf", "NaN", "Infinity",
        "-infinity", "nan", "1e400", "-1e400", "1e-400", "0e999999999999", "00012",
        "179769313486231580793728971405301e277", "4.9406564584124654e-324", "2.4703282292062327e-324",
        "9007199254740993", "0.000000000000000000000000000000000000000001",
    ] {
        texts.push(s.to_string());
    }
    for s in &texts {
        let expected: f64 = s.parse().unwrap();
        let got = parse(s).unwrap_or_else(|| panic!("{s}"));
        if expected.is_nan() {
            assert!(f64::from_bits(got.bits).is_nan(), "{s}");
        } else {
            assert_eq!(got.bits, expected.to_bits(), "{s}");
        }
    }
}

#[test]
fn parsing_rejects_what_std_rejects() {
    for s in [
        "", ".", "+", "-", "e5", "1e", "1e+", "abc", "1.5x", " 1", "1 ", "--1", "1_0", "0x10",
        "infinit", "+-1", ".e1", "1..2", "nano", "1,5",
    ] {
        assert!(s.parse::<f64>().is_err(), "{s:?}");
        assert!(parse(s).is_none(), "{s:?}");
    }
}

#[test]
fn integers_convert_as_in_std() {
    for n in [0, 1, -1, 42, i64::MAX, i64::MIN, 1 << 53, (1 << 53) + 1, -(1 << 53) - 3, 1 << 62] {
        assert_eq!(Double::from_i64(n).bits, (n as f64).to_bits(), "{n}");
        assert_eq!(CompactEntry::Int(n).to_f64().unwrap().bits, (n as f64).to_bits());
    }
}

#[test]
fn singles_widen_as_in_std() {
    for x in [0.0f32, -0.0, 1.5, -2.75, f32::MAX, f32::MIN_POSITIVE, 1e-45, f32::INFINITY, 0.1] {
        let wide = Double::from_single(Single { bits: x.to_bits() });
        assert_eq!(wide.bits, (x as f64).to_bits(), "{x}");
    }
    let nan = Double::from_single(Single { bits: f32::NAN.to_bits() });
    assert!(f64::from_bits(nan.bits).is_nan());
}

/// The positions of geohashes, computed with the machine's own arithmetic.
#[test]
fn positions_agree_with_machine_arithmetic() {
    fn even(mut x: u64) -> u64 {
        let mut out = 0;
        let mut i = 0;
        while x > 0 {
            out |= (x & 1) << i;
            x >>= 2;
            i += 1;
        }
        out
    }
    let scores = [
        0.0,
        1.0,
        3479099956230698.0,
        3663941556696959.0,
        4503599627370495.0,
        1234567890123456.0,
        2251799813685248.0,
    ];
    for score in scores {
        let h = score as u64;
        let cells = (1u64 << 26) as f64;
        let place = |i: u64, min: f64, max: f64| {
            let low = min + (i as f64 / cells) * (max - min);
            let high = min + ((i + 1) as f64 / cells) * (max - min);
            (low + high) / 2.0
        };
        let lng = place(even(h >> 1), -180.0, 180.0);
        let lat = place(even(h), -85.05112878, 85.05112878);
        let (x, y) = geohash_decode(double(score)).unwrap();
        assert_eq!((x.bits, y.bits), (lng.to_bits(), lat.to_bits()), "{score}");
    }
}

#[test]
fn scores_that_are_no_numbers_are_quoted() {
    let err = CompactEntry::Str(b"a\"b\n".to_vec()).to_f64().unwrap_err();
    assert_eq!(
        err.message(),
        "corrupt RDB data: compact entry score is not a valid float: \"a\\\"b\\n\""
    );
    let err = CompactEntry::Str(vec![0xff]).to_f64().unwrap_err();
    assert_eq!(err.message(), "corrupt RDB data: compact entry score is not valid UTF-8");
}

#[test]
fn bits_of_large_numbers() {
    assert_eq!(bit_length_hint(&small(0)), 0);
    assert_eq!(bit_length_hint(&small(5)), 3);
    assert_eq!(bit_length_hint(&vec![u64::MAX, 0, 0]), 64);
    assert_eq!(bit_length_hint(&shift_left(&one(), 200)), 201);
    assert_eq!(bit_length_hint(&vec![1; 10_000]), 639_937);
    assert_eq!(bit_length_hint(&vec![1; 10_001]), 0);
}

#[test]
fn checksums() {
    let table = Crc64Table::new();
    assert_eq!(table.update(0, b"123456789"), 0xe9c6_d914_c4b8_d9ca);
    assert_eq!(table.update(0, b""), 0);
    // The checksum of two parts is that of the whole.
    let first = table.update(0, b"1234");
    assert_eq!(table.update(first, b"56789"), 0xe9c6_d914_c4b8_d9ca);
}

#[test]
fn decimal_and_hexadecimal_text() {
    for n in [0, 7, 10, 999, 1 << 40, u64::MAX] {
        assert_eq!(dec_string(n), n.to_string());
        assert_eq!(hex_string(n, 16), format!("{n:016x}"));
    }
    for n in [0, -1, 42, i64::MAX, i64::MIN] {
        assert_eq!(dec_string_signed(n), n.to_string());
    }
}

#[test]
fn unsigned_and_signed_text() {
    for s in ["0", "42", "+7", "18446744073709551615", "18446744073709551616", "", "+", "-1", "4x"] {
        assert_eq!(parse_unsigned(s, u64::MAX), s.parse::<u64>().ok(), "{s:?}");
    }
    for s in ["0", "-42", "+7", "9223372036854775807", "-9223372036854775808", "9223372036854775808",
        "-9223372036854775809", "", "-", "--1", "4x"]
    {
        assert_eq!(parse_signed(s), s.parse::<i64>().ok(), "{s:?}");
    }
    assert_eq!(parse_unsigned("256", 255), None);
}

#[test]
fn white_space_is_that_of_std() {
    for n in 0..=0x3100u32 {
        if let Some(c) = char::from_u32(n) {
            let s: String = [c, 'x', c].iter().collect();
            let trimmed = string_of(&trim_chars(&s.chars().collect()));
            assert_eq!(trimmed, s.trim(), "{n:#x}");
        }
    }
}

#[test]
fn letters_and_pieces() {
    assert_eq!(to_lower("GeO-É_Z"), "GeO-É_Z".to_ascii_lowercase());
    for s in ["", "a", ",", "a,b", ",a,,b,", "é,ü"] {
        let pieces: Vec<String> = split_commas(s).iter().map(string_of).collect();
        let expected: Vec<&str> = s.split(',').collect();
        assert_eq!(pieces, expected, "{s:?}");
    }
    for (a, b) in [("a", "b"), ("a", "ab"), ("", "a"), ("b", "a"), ("a", "a"), ("é", "z")] {
        assert_eq!(comes_before(a, b), a < b, "{a:?} {b:?}");
    }
    assert_eq!(pad_left("7", 3), format!("{:>3}", 7));
    assert_eq!(pad_right("ab", 5), format!("{:<5}", "ab"));
    assert_eq!(pad_left("12345", 3), "12345");
}
