//! Intsets.

use valkey_rdb_tools::intset::decode;

const INTSET_ENC_INT16: u32 = 2;
const INTSET_ENC_INT32: u32 = 4;
const INTSET_ENC_INT64: u32 = 8;
const INTSET_HDR_SIZE: usize = 8;

fn make_intset_i16(values: &[i16]) -> Vec<u8> {
    let mut buf = Vec::new();
    buf.extend_from_slice(&INTSET_ENC_INT16.to_le_bytes());
    buf.extend_from_slice(&(values.len() as u32).to_le_bytes());
    for &v in values {
        buf.extend_from_slice(&v.to_le_bytes());
    }
    buf
}

fn make_intset_i32(values: &[i32]) -> Vec<u8> {
    let mut buf = Vec::new();
    buf.extend_from_slice(&INTSET_ENC_INT32.to_le_bytes());
    buf.extend_from_slice(&(values.len() as u32).to_le_bytes());
    for &v in values {
        buf.extend_from_slice(&v.to_le_bytes());
    }
    buf
}

fn make_intset_i64(values: &[i64]) -> Vec<u8> {
    let mut buf = Vec::new();
    buf.extend_from_slice(&INTSET_ENC_INT64.to_le_bytes());
    buf.extend_from_slice(&(values.len() as u32).to_le_bytes());
    for &v in values {
        buf.extend_from_slice(&v.to_le_bytes());
    }
    buf
}

#[test]
fn test_empty_intset() {
    let data = make_intset_i16(&[]);
    let members = decode(&data).unwrap();
    assert!(members.is_empty());
}

#[test]
fn test_int16() {
    let data = make_intset_i16(&[-100, 0, 42, 32767]);
    let members = decode(&data).unwrap();
    assert_eq!(
        members,
        vec![
            b"-100".to_vec(),
            b"0".to_vec(),
            b"42".to_vec(),
            b"32767".to_vec(),
        ]
    );
}

#[test]
fn test_int32() {
    let data = make_intset_i32(&[i32::MIN, -1, 0, 1, i32::MAX]);
    let members = decode(&data).unwrap();
    assert_eq!(
        members,
        vec![
            i32::MIN.to_string().into_bytes(),
            b"-1".to_vec(),
            b"0".to_vec(),
            b"1".to_vec(),
            i32::MAX.to_string().into_bytes(),
        ]
    );
}

#[test]
fn test_int64() {
    let data = make_intset_i64(&[i64::MIN, 0, i64::MAX]);
    let members = decode(&data).unwrap();
    assert_eq!(
        members,
        vec![
            i64::MIN.to_string().into_bytes(),
            b"0".to_vec(),
            i64::MAX.to_string().into_bytes(),
        ]
    );
}

#[test]
fn test_unknown_encoding() {
    let mut data = make_intset_i16(&[1]);
    data[0] = 3; // corrupt encoding
    assert!(decode(&data).is_err());
}

#[test]
fn test_truncated_header() {
    assert!(decode(&[0; 4]).is_err());
}

#[test]
fn test_truncated_data() {
    let mut data = make_intset_i32(&[1, 2, 3]);
    data.truncate(INTSET_HDR_SIZE + 4); // only 1 element instead of 3
    assert!(decode(&data).is_err());
}
