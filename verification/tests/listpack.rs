//! Listpacks.

use valkey_rdb_tools::compact::CompactEntry;
use valkey_rdb_tools::listpack::{backlen_size, decode, decode_backlen, LP_EOF, LP_HDR_SIZE};
use valkey_rdb_tools::types::RdbError;

/// Build a minimal listpack blob: header + entries + 0xFF.
fn make_listpack(entries_bytes: &[u8], num_elements: u16) -> Vec<u8> {
    let total = (LP_HDR_SIZE + entries_bytes.len() + 1) as u32; // +1 for EOF
    let mut buf = Vec::new();
    buf.extend_from_slice(&total.to_le_bytes());
    buf.extend_from_slice(&num_elements.to_le_bytes());
    buf.extend_from_slice(entries_bytes);
    buf.push(LP_EOF);
    buf
}

/// Encode a 7-bit uint entry with backlen.
fn entry_7bit(val: u8) -> Vec<u8> {
    assert!(val < 128);
    vec![val, 1] // encoding=1 byte, backlen=1
}

/// Encode a 6-bit string entry with backlen.
fn entry_str6(s: &[u8]) -> Vec<u8> {
    assert!(s.len() < 64);
    let mut buf = vec![0x80 | s.len() as u8];
    buf.extend_from_slice(s);
    let entry_len = 1 + s.len();
    buf.push(entry_len as u8); // backlen (fits in 1 byte for small strings)
    buf
}

/// Encode a 13-bit signed int entry with backlen.
fn entry_13bit(val: i16) -> Vec<u8> {
    assert!((-4096..=4095).contains(&val));
    let uval = if val < 0 {
        ((1i32 << 13) + val as i32) as u16
    } else {
        val as u16
    };
    let b0 = ((uval >> 8) as u8) | 0xC0;
    let b1 = (uval & 0xFF) as u8;
    vec![b0, b1, 2] // encoding=2 bytes, backlen=1
}

/// Encode a 16-bit int entry with backlen.
fn entry_16bit(val: i16) -> Vec<u8> {
    let bytes = val.to_le_bytes();
    vec![0xF1, bytes[0], bytes[1], 3] // encoding=3 bytes, backlen=1
}

/// Encode a 24-bit int entry with backlen.
fn entry_24bit(val: i32) -> Vec<u8> {
    let uval = if val < 0 {
        ((1i64 << 24) + val as i64) as u32
    } else {
        val as u32
    };
    vec![
        0xF2,
        (uval & 0xFF) as u8,
        ((uval >> 8) & 0xFF) as u8,
        ((uval >> 16) & 0xFF) as u8,
        4, // backlen
    ]
}

/// Encode a 32-bit int entry with backlen.
fn entry_32bit(val: i32) -> Vec<u8> {
    let bytes = val.to_le_bytes();
    vec![0xF3, bytes[0], bytes[1], bytes[2], bytes[3], 5] // backlen=1
}

/// Encode a 64-bit int entry with backlen.
fn entry_64bit(val: i64) -> Vec<u8> {
    let bytes = val.to_le_bytes();
    let mut buf = vec![0xF4];
    buf.extend_from_slice(&bytes);
    buf.push(9); // backlen
    buf
}

#[test]
fn test_empty_listpack() {
    let data = make_listpack(&[], 0);
    let entries = decode(&data).unwrap();
    assert!(entries.is_empty());
}

#[test]
fn test_7bit_uint() {
    let mut body = Vec::new();
    body.extend_from_slice(&entry_7bit(0));
    body.extend_from_slice(&entry_7bit(42));
    body.extend_from_slice(&entry_7bit(127));
    let data = make_listpack(&body, 3);
    let entries = decode(&data).unwrap();
    assert_eq!(entries.len(), 3);
    assert_eq!(entries[0], CompactEntry::Int(0));
    assert_eq!(entries[1], CompactEntry::Int(42));
    assert_eq!(entries[2], CompactEntry::Int(127));
}

#[test]
fn test_6bit_string() {
    let mut body = Vec::new();
    body.extend_from_slice(&entry_str6(b"hello"));
    body.extend_from_slice(&entry_str6(b""));
    let data = make_listpack(&body, 2);
    let entries = decode(&data).unwrap();
    assert_eq!(entries.len(), 2);
    assert_eq!(entries[0], CompactEntry::Str(b"hello".to_vec()));
    assert_eq!(entries[1], CompactEntry::Str(b"".to_vec()));
}

#[test]
fn test_13bit_signed_int() {
    let mut body = Vec::new();
    body.extend_from_slice(&entry_13bit(200));
    body.extend_from_slice(&entry_13bit(-1));
    body.extend_from_slice(&entry_13bit(-4096));
    body.extend_from_slice(&entry_13bit(4095));
    let data = make_listpack(&body, 4);
    let entries = decode(&data).unwrap();
    assert_eq!(entries[0], CompactEntry::Int(200));
    assert_eq!(entries[1], CompactEntry::Int(-1));
    assert_eq!(entries[2], CompactEntry::Int(-4096));
    assert_eq!(entries[3], CompactEntry::Int(4095));
}

#[test]
fn listpack_test_16bit_int() {
    let mut body = Vec::new();
    body.extend_from_slice(&entry_16bit(-1000));
    body.extend_from_slice(&entry_16bit(32767));
    let data = make_listpack(&body, 2);
    let entries = decode(&data).unwrap();
    assert_eq!(entries[0], CompactEntry::Int(-1000));
    assert_eq!(entries[1], CompactEntry::Int(32767));
}

#[test]
fn listpack_test_24bit_int() {
    let mut body = Vec::new();
    body.extend_from_slice(&entry_24bit(100000));
    body.extend_from_slice(&entry_24bit(-100000));
    let data = make_listpack(&body, 2);
    let entries = decode(&data).unwrap();
    assert_eq!(entries[0], CompactEntry::Int(100000));
    assert_eq!(entries[1], CompactEntry::Int(-100000));
}

#[test]
fn listpack_test_32bit_int() {
    let mut body = Vec::new();
    body.extend_from_slice(&entry_32bit(i32::MAX));
    body.extend_from_slice(&entry_32bit(i32::MIN));
    let data = make_listpack(&body, 2);
    let entries = decode(&data).unwrap();
    assert_eq!(entries[0], CompactEntry::Int(i32::MAX as i64));
    assert_eq!(entries[1], CompactEntry::Int(i32::MIN as i64));
}

#[test]
fn listpack_test_64bit_int() {
    let mut body = Vec::new();
    body.extend_from_slice(&entry_64bit(i64::MAX));
    body.extend_from_slice(&entry_64bit(i64::MIN));
    let data = make_listpack(&body, 2);
    let entries = decode(&data).unwrap();
    assert_eq!(entries[0], CompactEntry::Int(i64::MAX));
    assert_eq!(entries[1], CompactEntry::Int(i64::MIN));
}

#[test]
fn test_12bit_string() {
    // Build a 12-bit string entry (length > 63)
    let s = vec![b'x'; 100];
    let mut entry = vec![0xE0 | ((100 >> 8) as u8), (100 & 0xFF) as u8];
    entry.extend_from_slice(&s);
    let entry_len = 2 + 100;
    entry.push(entry_len as u8); // backlen (102 < 128, fits in 1 byte)
    let data = make_listpack(&entry, 1);
    let entries = decode(&data).unwrap();
    assert_eq!(entries.len(), 1);
    assert_eq!(entries[0], CompactEntry::Str(s));
}

#[test]
fn listpack_test_mixed_entries() {
    let mut body = Vec::new();
    body.extend_from_slice(&entry_7bit(5));
    body.extend_from_slice(&entry_str6(b"field"));
    body.extend_from_slice(&entry_13bit(-42));
    body.extend_from_slice(&entry_16bit(10000));
    let data = make_listpack(&body, 4);
    let entries = decode(&data).unwrap();
    assert_eq!(entries.len(), 4);
    assert_eq!(entries[0], CompactEntry::Int(5));
    assert_eq!(entries[1], CompactEntry::Str(b"field".to_vec()));
    assert_eq!(entries[2], CompactEntry::Int(-42));
    assert_eq!(entries[3], CompactEntry::Int(10000));
}

#[test]
fn listpack_test_32bit_string() {
    // 0xF0 + 4-byte LE length + string data
    let s = b"hello world!";
    let mut entry = vec![0xF0];
    entry.extend_from_slice(&(s.len() as u32).to_le_bytes());
    entry.extend_from_slice(s);
    let entry_len = 5 + s.len(); // 1 encoding byte + 4 len bytes + data
    entry.push(entry_len as u8); // backlen
    let data = make_listpack(&entry, 1);
    let entries = decode(&data).unwrap();
    assert_eq!(entries.len(), 1);
    assert_eq!(entries[0], CompactEntry::Str(s.to_vec()));
}

#[test]
fn test_unknown_encoding_byte() {
    // 0xF5 is not a valid listpack encoding
    let entry = vec![0xF5, 1]; // encoding + dummy backlen
    let data = make_listpack(&entry, 1);
    assert!(decode(&data).is_err());
}

#[test]
fn test_truncated_listpack() {
    // Too short for header
    assert!(decode(&[0; 3]).is_err());
}

#[test]
fn test_multibyte_backlen() {
    // Build a 12-bit string entry with length 200 (> 127, so 2-byte backlen).
    // This exercises the decode_backlen reverse-iteration path.
    let s = vec![b'A'; 200];
    let mut entry = vec![0xE0 | ((200 >> 8) as u8), (200 & 0xFF) as u8];
    entry.extend_from_slice(&s);
    let entry_len = 2 + 200; // encoding header + string = 202
    // Encode backlen matching Valkey's lpEncodeBacklen for 202:
    // buf[0] = 202 >> 7 = 1, buf[1] = (202 & 127) | 128 = 75 | 128 = 203
    let bl0 = (entry_len >> 7) as u8;
    let bl1 = ((entry_len & 127) | 128) as u8;
    entry.push(bl0);
    entry.push(bl1);

    let data = make_listpack(&entry, 1);
    let entries = decode(&data).unwrap();
    assert_eq!(entries.len(), 1);
    assert_eq!(entries[0], CompactEntry::Str(s));
}

#[test]
fn test_missing_eof() {
    // Valid header but no EOF
    let mut data = vec![0; LP_HDR_SIZE];
    // Set total_bytes to just the header (no EOF)
    let total = LP_HDR_SIZE as u32;
    data[0..4].copy_from_slice(&total.to_le_bytes());
    assert!(decode(&data).is_err());
}

#[test]
fn backlen_size_boundaries() {
    // The width boundaries of `lpEncodeBacklen`: the comparisons are `<` at
    // 16383 and 2097151, as the server has them.
    let cases: &[(usize, usize)] = &[
        (0, 1),
        (1, 1),
        (127, 1),           // upper bound of 1-byte backlen
        (128, 2),           // first value requiring 2 bytes
        (16382, 2),         // still within 2-byte range
        (16383, 3),         // `<` not `<=`, so this is 3, not 2
        (16384, 3),
        (2097150, 3),       // upper bound of 3-byte backlen
        (2097151, 4),       // first value requiring 4 bytes
        (2097152, 4),
        (268435454, 4),     // upper bound of 4-byte backlen
        (268435455, 5),     // first value requiring 5 bytes
        (usize::MAX, 5),
    ];
    for &(entry_len, expected) in cases {
        assert_eq!(
            backlen_size(entry_len),
            expected,
            "backlen_size({entry_len}) should be {expected}"
        );
    }
}

#[test]
fn test_rejects_total_bytes_mismatch() {
    // Build a valid single-int listpack and then corrupt total_bytes
    // so it disagrees with the actual blob length. The decoder must
    // reject it rather than silently parsing the first N entries.
    let mut data = make_listpack(&entry_7bit(42), 1);
    data[0] = data[0].wrapping_add(1); // bump total_bytes by 1
    let err = decode(&data).unwrap_err();
    assert!(matches!(err, RdbError::CorruptData(ref m) if m.contains("total_bytes")));
}

#[test]
fn test_rejects_early_eof_with_trailing_bytes() {
    // Craft a blob whose EOF appears before the stated blob end —
    // hidden payload past EOF would otherwise be silently dropped
    // by the decoder and, for stream listpacks, bypass the
    // trailing-entry check that lives downstream.
    let entries = entry_7bit(1);
    let mut data = Vec::new();
    // total_bytes covers header + entries + EOF + one trailing byte.
    let total = (LP_HDR_SIZE + entries.len() + 1 + 1) as u32;
    data.extend_from_slice(&total.to_le_bytes());
    data.extend_from_slice(&1u16.to_le_bytes()); // num_elements
    data.extend_from_slice(&entries);
    data.push(LP_EOF); // early EOF — not at the final byte
    data.push(0x00); // trailing byte past EOF
    assert_eq!(data.len(), total as usize);
    let err = decode(&data).unwrap_err();
    assert!(matches!(err, RdbError::CorruptData(ref m) if m.contains("EOF")));
}

#[test]
fn decode_backlen_known_bit_patterns() {
    // decode_backlen reads `buf.iter().rev()` and OR-accumulates the low
    // 7 bits of each byte. These cases pin the wire format at the
    // boundaries the encoder produces.
    // 127 → single byte 0x7F.
    assert_eq!(decode_backlen(&[0x7F]).unwrap(), 127);
    // 128 → two bytes. High-order byte has bit 7 set (continuation),
    // first byte (forward / MSB) has bit 7 clear (terminator).
    // value = 128 = 0b1000_0000: low 7 bits = 0, next 1 bit = 1.
    assert_eq!(decode_backlen(&[0x01, 0x80]).unwrap(), 128);
    // 16384 → three bytes. 16384 = 0b100_0000000000000.
    // low 7 bits = 0, next 7 bits = 0, top bit = 1.
    assert_eq!(decode_backlen(&[0x01, 0x80, 0x80]).unwrap(), 16384);
}
