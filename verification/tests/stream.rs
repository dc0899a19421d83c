//! Listpacks of streams.

use valkey_rdb_tools::compact::CompactEntry;
use valkey_rdb_tools::stream::{
    decode_stream_listpack, lp_u32, lp_u64, lp_usize, MAX_STREAM_ENTRIES,
};
use valkey_rdb_tools::types::RdbError;

#[test]
fn lp_u64_accepts_non_negative() {
    assert_eq!(lp_u64(&CompactEntry::Int(0), "x").unwrap(), 0);
    assert_eq!(lp_u64(&CompactEntry::Int(42), "x").unwrap(), 42);
    assert_eq!(lp_u64(&CompactEntry::Int(i64::MAX), "x").unwrap(), i64::MAX as u64);
}

#[test]
fn lp_u64_rejects_negative() {
    assert!(matches!(
        lp_u64(&CompactEntry::Int(-1), "x"),
        Err(RdbError::CorruptData(_))
    ));
}

#[test]
fn lp_u64_rejects_non_integer() {
    assert!(matches!(
        lp_u64(&CompactEntry::Str(b"nope".to_vec()), "x"),
        Err(RdbError::CorruptData(_))
    ));
}

#[test]
fn lp_u32_rejects_overflow() {
    // 2^32 does not fit in u32
    let big = CompactEntry::Int((u32::MAX as i64) + 1);
    assert!(matches!(
        lp_u32(&big, "flags"),
        Err(RdbError::CorruptData(_))
    ));
}

#[test]
fn lp_usize_accepts_small_values() {
    assert_eq!(lp_usize(&CompactEntry::Int(100), "n").unwrap(), 100);
}

#[test]
fn decode_rejects_truncated_listpack_blob() {
    // Fewer than 4 bytes is not a valid listpack — decode() fails first.
    let err = decode_stream_listpack(0, 0, &[0u8; 3], MAX_STREAM_ENTRIES).unwrap_err();
    assert!(matches!(err, RdbError::CorruptData(_)));
}

/// Build a listpack of small non-negative integer entries.
/// Header = `[u32 total_bytes][u16 num_entries]`, each entry = `[value][backlen=1]`,
/// trailing `0xFF` EOF byte. Values must be in `0..=127`.
fn build_small_int_listpack(values: &[u8]) -> Vec<u8> {
    let header = 6;
    let entries_len = values.len() * 2;
    let total = header + entries_len + 1;
    let mut out = Vec::with_capacity(total);
    out.extend_from_slice(&(total as u32).to_le_bytes());
    out.extend_from_slice(&(values.len() as u16).to_le_bytes());
    for &v in values {
        assert!(v <= 127, "test helper only handles small non-negative ints");
        out.push(v);
        out.push(1);
    }
    out.push(0xFF);
    out
}

#[test]
fn decode_accepts_empty_stream_listpack() {
    // Minimal valid empty stream listpack:
    // [count=0, deleted=0, num_fields=0, terminator=0]
    let lp = build_small_int_listpack(&[0, 0, 0, 0]);
    let entries = decode_stream_listpack(0, 0, &lp, MAX_STREAM_ENTRIES).unwrap();
    assert!(entries.is_empty());
}

#[test]
fn decode_rejects_trailing_listpack_entries() {
    // Empty-stream header promises 0 records after the terminator; any
    // extra entry past that is a corruption signal the decoder must flag.
    // Without this check a crafted listpack could quietly drop real rows.
    let lp = build_small_int_listpack(&[0, 0, 0, 0, 42]);
    let err = decode_stream_listpack(0, 0, &lp, MAX_STREAM_ENTRIES).unwrap_err();
    let RdbError::CorruptData(msg) = err else {
        panic!("expected CorruptData, got {err:?}");
    };
    assert!(
        msg.contains("trailing entries"),
        "error message should mention trailing entries: {msg}"
    );
}

/// A number or a string of a listpack.
enum Item {
    N(u8),
    S(&'static [u8]),
}

fn listpack(items: &[Item]) -> Vec<u8> {
    let mut body = Vec::new();
    for item in items {
        match item {
            Item::N(n) => body.extend_from_slice(&[*n, 1]),
            Item::S(s) => {
                body.push(0x80 | s.len() as u8);
                body.extend_from_slice(s);
                body.push(s.len() as u8 + 1);
            }
        }
    }
    let mut out = (body.len() as u32 + 7).to_le_bytes().to_vec();
    out.extend_from_slice(&(items.len() as u16).to_le_bytes());
    out.extend(body);
    out.push(0xff);
    out
}

#[test]
fn streams_read_back() {
    let lp = listpack(&[
        // two records, one more deleted, one master field
        Item::N(2),
        Item::N(1),
        Item::N(1),
        Item::S(b"name"),
        Item::N(0),
        // the fields of the master entry
        Item::N(2),
        Item::N(0),
        Item::N(1),
        Item::S(b"ann"),
        Item::N(4),
        // deleted
        Item::N(3),
        Item::N(1),
        Item::N(0),
        Item::S(b"bob"),
        Item::N(4),
        // fields of its own
        Item::N(0),
        Item::N(5),
        Item::N(7),
        Item::N(2),
        Item::S(b"a"),
        Item::S(b"1"),
        Item::S(b""),
        Item::S(b"2"),
        Item::N(8),
    ]);
    let entries = decode_stream_listpack(100, 20, &lp, 2).unwrap();
    assert_eq!(entries.len(), 2);
    assert_eq!(entries[0].id, "100-21");
    assert_eq!(entries[0].fields, vec![(b"name".to_vec(), b"ann".to_vec())]);
    assert_eq!(entries[1].id, "105-27");
    assert_eq!(
        entries[1].fields,
        vec![(b"a".to_vec(), b"1".to_vec()), (vec![], b"2".to_vec())]
    );
    assert!(decode_stream_listpack(100, 20, &lp, 1).is_err());
}
