//! Summaries.

use valkey_rdb_tools::opcodes::{
    RDB_OPCODE_EOF, RDB_OPCODE_SELECTDB, RDB_TYPE_LIST, RDB_TYPE_STRING, RDB_TYPE_ZSET_2,
};
use valkey_rdb_tools::reader::RdbReader;
use valkey_rdb_tools::schema::{HeuristicSet, TypeTag};
use valkey_rdb_tools::summarize::summarize_entries;
use valkey_rdb_tools::types::RdbError;
use valkey_rdb_tools::wire::Source;

fn rdb_len(n: u64) -> Vec<u8> {
    if n < 64 {
        vec![n as u8]
    } else {
        // 14-bit encoding: top 2 bits = 01, next 14 bits = length.
        vec![0x40 | ((n >> 8) as u8 & 0x3F), (n & 0xFF) as u8]
    }
}
fn rdb_string(s: &[u8]) -> Vec<u8> {
    let mut out = rdb_len(s.len() as u64);
    out.extend_from_slice(s);
    out
}

/// An RDB without entries.
fn empty_rdb_bytes() -> Vec<u8> {
    let mut data = Vec::new();
    data.extend_from_slice(b"VALKEY080");
    data.push(RDB_OPCODE_EOF);
    data.extend_from_slice(&[0u8; 8]);
    data
}

#[test]
fn empty_rdb_summary_is_zero() {
    let bytes = empty_rdb_bytes();
    let mut reader = RdbReader::new(Source::new(bytes)).unwrap();
    let summary = summarize_entries(&mut reader, &HeuristicSet::none()).unwrap();
    assert_eq!(summary.total_keys, 0);
    assert!(summary.totals.is_empty());
    assert!(summary.per_db.is_empty());
    assert_eq!(summary.header.version, 80);
}

/// A sorted set of geohashes counts under both `SortedSet` and `Geo`.
#[test]
fn summarize_geo_additive_under_heuristic() {
    // Build a ZSET_2 payload: member count + (member, f64 score) pairs.
    // Two members with valid 52-bit geohash scores.
    let mut payload = rdb_len(2);
    payload.extend_from_slice(&rdb_string(b"A"));
    payload.extend_from_slice(&3_479_099_956_230_698.0f64.to_le_bytes());
    payload.extend_from_slice(&rdb_string(b"B"));
    payload.extend_from_slice(&3_663_941_556_696_959.0f64.to_le_bytes());

    let mut data = Vec::new();
    data.extend_from_slice(b"VALKEY080");
    data.push(RDB_OPCODE_SELECTDB);
    data.push(0);
    data.push(RDB_TYPE_ZSET_2);
    data.extend_from_slice(&rdb_string(b"places"));
    data.extend_from_slice(&payload);
    data.push(RDB_OPCODE_EOF);
    data.extend_from_slice(&[0u8; 8]); // CRC placeholder

    // With Geo heuristic: zset counts toward both SortedSet and Geo.
    let mut reader_with = RdbReader::new(Source::new(data.clone())).unwrap();
    let s_with = summarize_entries(&mut reader_with, &HeuristicSet::all()).unwrap();
    assert_eq!(s_with.totals.get(TypeTag::SortedSet).map(|t| t.keys), Some(1));
    assert_eq!(s_with.totals.get(TypeTag::Geo).map(|t| t.keys), Some(1));
    assert_eq!(s_with.total_keys, 1, "distinct key count excludes the additive geo bucket");

    // Without any heuristic: Geo bucket must be absent.
    let mut reader_without = RdbReader::new(Source::new(data)).unwrap();
    let s_without = summarize_entries(&mut reader_without, &HeuristicSet::none()).unwrap();
    assert_eq!(
        s_without.totals.get(TypeTag::SortedSet).map(|t| t.keys),
        Some(1)
    );
    assert!(!s_without.totals.contains_key(TypeTag::Geo));
}

/// A list of eight, a string in another database, and a string without an end.
fn two_databases() -> Vec<u8> {
    let mut data = Vec::new();
    data.extend_from_slice(b"VALKEY080");
    data.push(RDB_OPCODE_SELECTDB);
    data.push(0);
    data.push(RDB_TYPE_LIST);
    data.extend_from_slice(&rdb_string(b"list"));
    data.extend_from_slice(&rdb_len(8));
    for i in 0..8 {
        data.extend_from_slice(&rdb_string(format!("item_{i}").as_bytes()));
    }
    data.push(RDB_OPCODE_SELECTDB);
    data.push(3);
    data.push(RDB_TYPE_STRING);
    data.extend_from_slice(&rdb_string(b"s"));
    data.extend_from_slice(&rdb_string(b"v"));
    data.push(RDB_OPCODE_EOF);
    data.extend_from_slice(&[0u8; 8]);
    data
}

#[test]
fn chunks_count_once_and_databases_add_up() {
    let whole = RdbReader::new(Source::new(two_databases())).unwrap().without_chunking();
    let cut = RdbReader::new(Source::new(two_databases())).unwrap().with_max_key_elements(3);
    for mut reader in [whole, cut] {
        let s = summarize_entries(&mut reader, &HeuristicSet::all()).unwrap();
        assert_eq!(s.total_keys, 2);
        let list = s.totals.get(TypeTag::List).unwrap();
        assert_eq!((list.keys, list.rows), (1, 8));
        let string = s.totals.get(TypeTag::String).unwrap();
        assert_eq!((string.keys, string.rows), (1, 1));
        assert_eq!(s.per_db_keys.get(&0).copied(), Some(1));
        assert_eq!(s.per_db_keys.get(&3).copied(), Some(1));
        assert_eq!(s.per_db_keys.values().sum::<u64>(), s.total_keys);
        assert_eq!(s.per_db.len(), 2);
        assert_eq!(s.per_db[&0].get(TypeTag::List), Some(1));
        assert_eq!(s.per_db[&3].get(TypeTag::String), Some(1));
        assert_eq!(s.per_db[&3].get(TypeTag::List), None);
        assert!(!s.crc_verified);
    }
}

#[test]
fn errors_end_a_summary() {
    let mut data = two_databases();
    data.truncate(data.len() - 11);
    let mut reader = RdbReader::new(Source::new(data)).unwrap();
    let result = summarize_entries(&mut reader, &HeuristicSet::all());
    assert!(matches!(result, Err(RdbError::Io(_))));
}
