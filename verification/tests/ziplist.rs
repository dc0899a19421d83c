//! Ziplists.

use valkey_rdb_tools::compact::CompactEntry;
use valkey_rdb_tools::ziplist::{decode, ZL_END, ZL_HDR_SIZE};

/// Build a minimal ziplist blob: header + entries + 0xFF.
fn make_ziplist(entries_bytes: &[u8], num_entries: u16) -> Vec<u8> {
    let total = (ZL_HDR_SIZE + entries_bytes.len() + 1) as u32; // +1 for ZL_END
    let zltail = 0u32; // not validated by our decoder
    let mut buf = Vec::new();
    buf.extend_from_slice(&total.to_le_bytes()); // zlbytes
    buf.extend_from_slice(&zltail.to_le_bytes()); // zltail
    buf.extend_from_slice(&num_entries.to_le_bytes()); // zllen
    buf.extend_from_slice(entries_bytes);
    buf.push(ZL_END);
    buf
}

/// Encode an entry with 1-byte prevlen=0 and a 6-bit string.
fn entry_str6(prevlen: u8, s: &[u8]) -> Vec<u8> {
    assert!(s.len() < 64);
    assert!(prevlen < 254);
    let mut buf = vec![prevlen]; // prevlen
    buf.push(s.len() as u8); // encoding: 00xxxxxx
    buf.extend_from_slice(s);
    buf
}

/// Encode an entry with 1-byte prevlen and a 4-bit immediate int (0-12).
fn entry_imm(prevlen: u8, val: u8) -> Vec<u8> {
    assert!(val <= 12);
    assert!(prevlen < 254);
    vec![prevlen, 0xF1 + val] // 0xF1 + val → stored nibble = val + 1
}

/// Encode an entry with 1-byte prevlen and a 16-bit int.
fn entry_i16(prevlen: u8, val: i16) -> Vec<u8> {
    assert!(prevlen < 254);
    let bytes = val.to_le_bytes();
    vec![prevlen, 0xC0, bytes[0], bytes[1]]
}

/// Encode an entry with 1-byte prevlen and a 32-bit int.
fn entry_i32(prevlen: u8, val: i32) -> Vec<u8> {
    assert!(prevlen < 254);
    let bytes = val.to_le_bytes();
    vec![prevlen, 0xD0, bytes[0], bytes[1], bytes[2], bytes[3]]
}

/// Encode an entry with 1-byte prevlen and a 64-bit int.
fn entry_i64(prevlen: u8, val: i64) -> Vec<u8> {
    assert!(prevlen < 254);
    let bytes = val.to_le_bytes();
    let mut buf = vec![prevlen, 0xE0];
    buf.extend_from_slice(&bytes);
    buf
}

/// Encode an entry with 1-byte prevlen and an 8-bit int.
fn entry_i8(prevlen: u8, val: i8) -> Vec<u8> {
    assert!(prevlen < 254);
    vec![prevlen, 0xFE, val as u8]
}

/// Encode an entry with 1-byte prevlen and a 24-bit int.
fn entry_i24(prevlen: u8, val: i32) -> Vec<u8> {
    assert!(prevlen < 254);
    let uval = if val < 0 {
        ((1i64 << 24) + val as i64) as u32
    } else {
        val as u32
    };
    vec![
        prevlen,
        0xF0,
        (uval & 0xFF) as u8,
        ((uval >> 8) & 0xFF) as u8,
        ((uval >> 16) & 0xFF) as u8,
    ]
}

#[test]
fn test_empty_ziplist() {
    let data = make_ziplist(&[], 0);
    let entries = decode(&data).unwrap();
    assert!(entries.is_empty());
}

#[test]
fn test_6bit_strings() {
    let e1 = entry_str6(0, b"hello");
    let e1_len = e1.len();
    let e2 = entry_str6(e1_len as u8, b"world");
    let mut body = Vec::new();
    body.extend_from_slice(&e1);
    body.extend_from_slice(&e2);
    let data = make_ziplist(&body, 2);
    let entries = decode(&data).unwrap();
    assert_eq!(entries.len(), 2);
    assert_eq!(entries[0], CompactEntry::Str(b"hello".to_vec()));
    assert_eq!(entries[1], CompactEntry::Str(b"world".to_vec()));
}

#[test]
fn test_14bit_string() {
    // Build a 14-bit string entry (length > 63)
    let s = vec![b'x'; 100];
    let mut entry = vec![0u8]; // prevlen=0
    entry.push(0x40 | ((100 >> 8) as u8)); // 01xxxxxx (big endian high)
    entry.push(100u8); // low byte
    entry.extend_from_slice(&s);
    let data = make_ziplist(&entry, 1);
    let entries = decode(&data).unwrap();
    assert_eq!(entries.len(), 1);
    assert_eq!(entries[0], CompactEntry::Str(s));
}

#[test]
fn test_immediate_ints() {
    let mut body = Vec::new();
    let e0 = entry_imm(0, 0);
    let e0_len = e0.len();
    body.extend_from_slice(&e0);
    let e5 = entry_imm(e0_len as u8, 5);
    let e5_len = e5.len();
    body.extend_from_slice(&e5);
    body.extend_from_slice(&entry_imm(e5_len as u8, 12));
    let data = make_ziplist(&body, 3);
    let entries = decode(&data).unwrap();
    assert_eq!(entries.len(), 3);
    assert_eq!(entries[0], CompactEntry::Int(0));
    assert_eq!(entries[1], CompactEntry::Int(5));
    assert_eq!(entries[2], CompactEntry::Int(12));
}

#[test]
fn test_8bit_int() {
    let body = entry_i8(0, -42);
    let data = make_ziplist(&body, 1);
    let entries = decode(&data).unwrap();
    assert_eq!(entries[0], CompactEntry::Int(-42));
}

#[test]
fn ziplist_test_16bit_int() {
    let body = entry_i16(0, -1000);
    let data = make_ziplist(&body, 1);
    let entries = decode(&data).unwrap();
    assert_eq!(entries[0], CompactEntry::Int(-1000));
}

#[test]
fn ziplist_test_24bit_int() {
    let mut body = Vec::new();
    let e1 = entry_i24(0, 100000);
    let e1_len = e1.len();
    body.extend_from_slice(&e1);
    body.extend_from_slice(&entry_i24(e1_len as u8, -100000));
    let data = make_ziplist(&body, 2);
    let entries = decode(&data).unwrap();
    assert_eq!(entries[0], CompactEntry::Int(100000));
    assert_eq!(entries[1], CompactEntry::Int(-100000));
}

#[test]
fn ziplist_test_32bit_int() {
    let body = entry_i32(0, i32::MIN);
    let data = make_ziplist(&body, 1);
    let entries = decode(&data).unwrap();
    assert_eq!(entries[0], CompactEntry::Int(i32::MIN as i64));
}

#[test]
fn ziplist_test_64bit_int() {
    let body = entry_i64(0, i64::MAX);
    let data = make_ziplist(&body, 1);
    let entries = decode(&data).unwrap();
    assert_eq!(entries[0], CompactEntry::Int(i64::MAX));
}

#[test]
fn test_5byte_prevlen() {
    // Simulate an entry whose prevlen >= 254 (5-byte encoding)
    let s = b"after-big";
    let mut entry = vec![0xFE]; // prevlen marker
    entry.extend_from_slice(&300u32.to_le_bytes()); // 4-byte LE prevlen
    entry.push(s.len() as u8); // 6-bit string encoding
    entry.extend_from_slice(s);
    let data = make_ziplist(&entry, 1);
    let entries = decode(&data).unwrap();
    assert_eq!(entries[0], CompactEntry::Str(s.to_vec()));
}

#[test]
fn ziplist_test_mixed_entries() {
    let mut body = Vec::new();
    let e1 = entry_str6(0, b"key");
    let e1_len = e1.len();
    body.extend_from_slice(&e1);
    let e2 = entry_i16(e1_len as u8, 42);
    let e2_len = e2.len();
    body.extend_from_slice(&e2);
    body.extend_from_slice(&entry_imm(e2_len as u8, 7));
    let data = make_ziplist(&body, 3);
    let entries = decode(&data).unwrap();
    assert_eq!(entries.len(), 3);
    assert_eq!(entries[0], CompactEntry::Str(b"key".to_vec()));
    assert_eq!(entries[1], CompactEntry::Int(42));
    assert_eq!(entries[2], CompactEntry::Int(7));
}

#[test]
fn ziplist_test_32bit_string() {
    // 0x80 + 4 bytes BE length
    let s = vec![b'A'; 200];
    let mut entry = vec![0u8]; // prevlen=0
    entry.push(0x80); // ZIP_STR_32B
    entry.extend_from_slice(&(200u32).to_be_bytes()); // big endian length
    entry.extend_from_slice(&s);
    let data = make_ziplist(&entry, 1);
    let entries = decode(&data).unwrap();
    assert_eq!(entries.len(), 1);
    assert_eq!(entries[0], CompactEntry::Str(s));
}

#[test]
fn test_empty_string() {
    let body = entry_str6(0, b"");
    let data = make_ziplist(&body, 1);
    let entries = decode(&data).unwrap();
    assert_eq!(entries.len(), 1);
    assert_eq!(entries[0], CompactEntry::Str(b"".to_vec()));
}

#[test]
fn test_truncated_entry_data() {
    // 14-bit string header claiming 1000 bytes, but only 5 available
    let mut entry = vec![0u8]; // prevlen=0
    entry.push(0x40 | ((1000 >> 8) as u8)); // 01xxxxxx
    entry.push((1000 & 0xFF) as u8);
    entry.extend_from_slice(&[0; 5]); // only 5 data bytes, not 1000
    let data = make_ziplist(&entry, 1);
    assert!(decode(&data).is_err());
}

#[test]
fn test_64bit_int_min() {
    let body = entry_i64(0, i64::MIN);
    let data = make_ziplist(&body, 1);
    let entries = decode(&data).unwrap();
    assert_eq!(entries[0], CompactEntry::Int(i64::MIN));
}

#[test]
fn test_24bit_boundary_values() {
    let mut body = Vec::new();
    let e1 = entry_i24(0, 8388607); // 2^23 - 1 (max positive)
    let e1_len = e1.len();
    body.extend_from_slice(&e1);
    body.extend_from_slice(&entry_i24(e1_len as u8, -8388608)); // -2^23 (min negative)
    let data = make_ziplist(&body, 2);
    let entries = decode(&data).unwrap();
    assert_eq!(entries[0], CompactEntry::Int(8388607));
    assert_eq!(entries[1], CompactEntry::Int(-8388608));
}

#[test]
fn test_32bit_string_corrupt_low_bits() {
    // 0x81 instead of 0x80 — non-zero low bits should be rejected
    let mut entry = vec![0u8]; // prevlen=0
    entry.push(0x81); // corrupt: should be 0x80
    entry.extend_from_slice(&10u32.to_be_bytes());
    entry.extend_from_slice(&[0; 10]);
    let data = make_ziplist(&entry, 1);
    assert!(decode(&data).is_err());
}

#[test]
fn test_truncated_ziplist() {
    // Too short for header
    assert!(decode(&[0; 5]).is_err());
}

#[test]
fn test_missing_end_byte() {
    // Valid header but no end byte
    let mut data = vec![0; ZL_HDR_SIZE];
    let total = ZL_HDR_SIZE as u32;
    data[0..4].copy_from_slice(&total.to_le_bytes());
    assert!(decode(&data).is_err());
}
