//! The batcher.

use valkey_rdb_tools::batcher::{
    estimate_entry_bytes, ArrowBatcher, BatchIterator, BatcherConfig, TypedBatch,
};
use valkey_rdb_tools::entries::EntryQueue;
use valkey_rdb_tools::error::ArrowConvertError;
use valkey_rdb_tools::schema::{HeuristicSet, TypeTag};
use valkey_rdb_tools::types::{Double, RdbEntry, RdbError, RdbValue};

fn test_entry(key: &[u8], value: RdbValue) -> RdbEntry {
    test_entry_typed(key, value, 0)
}

fn test_entry_typed(key: &[u8], value: RdbValue, type_code: u8) -> RdbEntry {
    RdbEntry::new(key.to_vec(), value, type_code)
}

/// A sorted set of members and scores.
fn sorted_set(members: Vec<(Vec<u8>, f64)>) -> RdbValue {
    RdbValue::SortedSet(
        members
            .into_iter()
            .map(|(m, s)| (m, Double { bits: s.to_bits() }))
            .collect(),
    )
}

/// A HyperLogLog header.
fn make_hll(encoding: u8, cardinality: u64) -> Vec<u8> {
    let mut data = vec![0u8; 16];
    data[0..4].copy_from_slice(b"HYLL");
    data[4] = encoding;
    data[8..16].copy_from_slice(&cardinality.to_le_bytes());
    data
}

/// All batches, or the first error.
fn drain(mut iter: BatchIterator<EntryQueue>) -> Result<Vec<TypedBatch>, ArrowConvertError> {
    let mut out = Vec::new();
    while let Some(item) = iter.next() {
        out.push(item?);
    }
    Ok(out)
}

fn string_entry(key: &[u8], val: &[u8]) -> RdbEntry {
    test_entry(key, RdbValue::String(val.to_vec()))
}

fn list_entry(key: &[u8], elems: Vec<Vec<u8>>) -> RdbEntry {
    test_entry_typed(key, RdbValue::List(elems), 1) // RDB_TYPE_LIST
}

fn config(batch_size: usize) -> BatcherConfig {
    BatcherConfig { batch_size, ..Default::default() }
}

#[test]
fn push_below_threshold_no_batches() {
    let mut batcher = ArrowBatcher::new(config(100));
    let batches = batcher.push(&string_entry(b"k", b"v")).unwrap();
    assert!(batches.is_empty());
}

#[test]
fn push_crosses_threshold() {
    let mut batcher = ArrowBatcher::new(config(3));
    for i in 0..3 {
        let key = format!("k{i}");
        let batches = batcher
            .push(&string_entry(key.as_bytes(), b"v"))
            .unwrap();
        if i < 2 {
            assert!(batches.is_empty());
        } else {
            assert_eq!(batches.len(), 1);
            assert_eq!(batches[0].tag, TypeTag::String);
            assert_eq!(batches[0].batch.inner.num_rows(), 3);
        }
    }
}

#[test]
fn flush_returns_partial() {
    let mut batcher = ArrowBatcher::new(config(100));
    batcher.push(&string_entry(b"a", b"1")).unwrap();
    batcher.push(&string_entry(b"b", b"2")).unwrap();
    let batches = batcher.flush().unwrap();
    assert_eq!(batches.len(), 1);
    assert_eq!(batches[0].batch.inner.num_rows(), 2);
}

#[test]
fn list_explodes_rows() {
    let mut batcher = ArrowBatcher::new(config(5));
    // A list with 3 elements produces 3 rows.
    let batches = batcher
        .push(&list_entry(
            b"mylist",
            vec![b"a".to_vec(), b"b".to_vec(), b"c".to_vec()],
        ))
        .unwrap();
    assert!(batches.is_empty()); // 3 < 5
    let batches = batcher.flush().unwrap();
    assert_eq!(batches.len(), 1);
    assert_eq!(batches[0].tag, TypeTag::List);
    assert_eq!(batches[0].batch.inner.num_rows(), 3);
}

#[test]
fn batch_iterator_adapter() {
    let entries: Vec<Result<RdbEntry, RdbError>> = (0..5)
        .map(|i| {
            let key = format!("k{i}");
            Ok(string_entry(key.as_bytes(), b"v"))
        })
        .collect();

    let batcher = ArrowBatcher::new(config(3));
    let batches: Vec<_> = drain(batcher.process(EntryQueue::new(entries)))
        .unwrap();

    // 5 entries with batch_size=3 → 1 batch of 3 + 1 batch of 2
    assert_eq!(batches.len(), 2);
    assert_eq!(batches[0].batch.inner.num_rows(), 3);
    assert_eq!(batches[1].batch.inner.num_rows(), 2);
}

#[test]
fn multiple_types_separate_batches() {
    let mut batcher = ArrowBatcher::new(config(100));
    batcher.push(&string_entry(b"s1", b"v1")).unwrap();
    batcher
        .push(&list_entry(b"l1", vec![b"a".to_vec()]))
        .unwrap();
    batcher.push(&string_entry(b"s2", b"v2")).unwrap();
    let batches = batcher.flush().unwrap();

    // Should have 2 batches: one for String (2 rows), one for List (1 row)
    assert_eq!(batches.len(), 2);
    let string_batch = batches.iter().find(|b| b.tag == TypeTag::String).unwrap();
    assert_eq!(string_batch.batch.inner.num_rows(), 2);
    let list_batch = batches.iter().find(|b| b.tag == TypeTag::List).unwrap();
    assert_eq!(list_batch.batch.inner.num_rows(), 1);
}

fn make_hll_entry(key: &[u8]) -> RdbEntry {
    test_entry(key, RdbValue::String(make_hll(0, 0)))
}

fn geo_entry(key: &[u8], members: Vec<(Vec<u8>, f64)>) -> RdbEntry {
    test_entry_typed(key, sorted_set(members), 5) // RDB_TYPE_ZSET_2
}

#[test]
fn hll_routes_to_hll_builder() {
    let mut batcher = ArrowBatcher::new(config(100));
    batcher.push(&make_hll_entry(b"hll1")).unwrap();
    batcher.push(&make_hll_entry(b"hll2")).unwrap();
    let batches = batcher.flush().unwrap();

    assert_eq!(batches.len(), 1);
    assert_eq!(batches[0].tag, TypeTag::HyperLogLog);
    assert_eq!(batches[0].batch.inner.num_rows(), 2);
}

#[test]
fn geo_additive_both_zset_and_geo() {
    // Valid geohash scores → produces both SortedSet and Geo batches (additive).
    let mut batcher = ArrowBatcher::new(config(100));
    batcher
        .push(&geo_entry(
            b"places",
            vec![
                (b"A".to_vec(), 3479099956230698.0),
                (b"B".to_vec(), 3663941556696959.0),
            ],
        ))
        .unwrap();
    let batches = batcher.flush().unwrap();

    assert_eq!(batches.len(), 2);
    let zset_b = batches.iter().find(|b| b.tag == TypeTag::SortedSet).unwrap();
    assert_eq!(zset_b.batch.inner.num_rows(), 2);
    let geo_b = batches.iter().find(|b| b.tag == TypeTag::Geo).unwrap();
    assert_eq!(geo_b.batch.inner.num_rows(), 2);
}

#[test]
fn geo_heuristic_disabled_no_geo_output() {
    // When geo heuristic is disabled, valid geohash scores produce only SortedSet.
    let mut batcher = ArrowBatcher::new(BatcherConfig {
        batch_size: 100,
        heuristics: HeuristicSet::none(), // no heuristics
        ..Default::default()
    });
    batcher
        .push(&geo_entry(
            b"places",
            vec![
                (b"A".to_vec(), 3479099956230698.0),
                (b"B".to_vec(), 3663941556696959.0),
            ],
        ))
        .unwrap();
    let batches = batcher.flush().unwrap();

    assert_eq!(batches.len(), 1);
    assert_eq!(batches[0].tag, TypeTag::SortedSet);
    assert_eq!(batches[0].batch.inner.num_rows(), 2);
}

#[test]
fn regular_string_not_hll() {
    let mut batcher = ArrowBatcher::new(config(100));
    batcher.push(&string_entry(b"s1", b"hello")).unwrap();
    let batches = batcher.flush().unwrap();

    assert_eq!(batches.len(), 1);
    assert_eq!(batches[0].tag, TypeTag::String);
}

#[test]
fn regular_zset_not_geo() {
    let mut batcher = ArrowBatcher::new(config(100));
    batcher
        .push(&geo_entry(
            b"zset",
            vec![(b"alice".to_vec(), 1.5), (b"bob".to_vec(), 2.7)],
        ))
        .unwrap();
    let batches = batcher.flush().unwrap();

    assert_eq!(batches.len(), 1);
    assert_eq!(batches[0].tag, TypeTag::SortedSet);
}

#[test]
fn batch_bytes_triggers_flush() {
    // Set batch_bytes low enough that a few entries trigger a flush before batch_size.
    let mut batcher = ArrowBatcher::new(BatcherConfig {
        batch_size: 1000, // high row limit — won't trigger
        batch_bytes: Some(20), // ~20 bytes budget
        max_entry_bytes: None,
        ..Default::default()
    });

    // Each string entry contributes key.len() + value.len() bytes.
    // "k0"(2) + "value"(5) = 7, "k1" = 7, "k2" = 7 → cumulative 21 ≥ 20 → flush.
    for i in 0..2 {
        let key = format!("k{i}");
        let batches = batcher.push(&string_entry(key.as_bytes(), b"value")).unwrap();
        assert!(batches.is_empty(), "no flush yet at entry {i}");
    }
    // Third entry should trigger the flush
    let batches = batcher.push(&string_entry(b"k2", b"value")).unwrap();
    assert_eq!(batches.len(), 1);
    assert_eq!(batches[0].tag, TypeTag::String);
    assert_eq!(batches[0].batch.inner.num_rows(), 3);
}

#[test]
fn batch_bytes_resets_after_flush() {
    let mut batcher = ArrowBatcher::new(BatcherConfig {
        batch_size: 1000,
        batch_bytes: Some(15),
        max_entry_bytes: None,
        ..Default::default()
    });

    // Push 2 entries (~14 bytes), then a 3rd triggers flush (~21 bytes)
    batcher.push(&string_entry(b"k0", b"value")).unwrap();
    batcher.push(&string_entry(b"k1", b"value")).unwrap();
    let batches = batcher.push(&string_entry(b"k2", b"value")).unwrap();
    assert_eq!(batches.len(), 1);

    // After flush, byte counter resets. Push 2 more — should NOT flush.
    let batches = batcher.push(&string_entry(b"k3", b"value")).unwrap();
    assert!(batches.is_empty());
    let batches = batcher.flush().unwrap();
    assert_eq!(batches.len(), 1);
    assert_eq!(batches[0].batch.inner.num_rows(), 1);
}

#[test]
fn max_entry_bytes_skips_large_entries() {
    let mut batcher = ArrowBatcher::new(BatcherConfig {
        batch_size: 100,
        batch_bytes: None,
        max_entry_bytes: Some(50), // skip entries > 50 bytes
        ..Default::default()
    });

    // Small entry: key(2) + value(5) = 7 → allowed
    batcher.push(&string_entry(b"k1", b"hello")).unwrap();

    // Large entry: key(2) + value(100) = 102 → skipped
    let big_val = vec![b'x'; 100];
    batcher.push(&string_entry(b"k2", &big_val)).unwrap();

    let batches = batcher.flush().unwrap();
    assert_eq!(batches.len(), 1);
    assert_eq!(batches[0].batch.inner.num_rows(), 1); // only the small entry
}

#[test]
fn max_entry_bytes_allows_entries_at_threshold() {
    let mut batcher = ArrowBatcher::new(BatcherConfig {
        batch_size: 100,
        batch_bytes: None,
        max_entry_bytes: Some(10), // skip entries > 10 bytes
        ..Default::default()
    });

    // Exactly 10 bytes: key(2) + value(8) = 10 → allowed
    batcher.push(&string_entry(b"k1", b"12345678")).unwrap();

    // 11 bytes: key(2) + value(9) = 11 → skipped
    batcher.push(&string_entry(b"k2", b"123456789")).unwrap();

    let batches = batcher.flush().unwrap();
    assert_eq!(batches.len(), 1);
    assert_eq!(batches[0].batch.inner.num_rows(), 1);
}

#[test]
fn skipped_oversized_counter_tracks_dropped_entries() {
    let mut batcher = ArrowBatcher::new(BatcherConfig {
        batch_size: 100,
        batch_bytes: None,
        max_entry_bytes: Some(10),
        ..Default::default()
    });
    assert_eq!(batcher.skipped_oversized(), 0);

    batcher.push(&string_entry(b"ok", b"fits")).unwrap();
    assert_eq!(batcher.skipped_oversized(), 0, "small entry is not oversized");

    batcher.push(&string_entry(b"big", &[b'x'; 100])).unwrap();
    assert_eq!(batcher.skipped_oversized(), 1);

    batcher.push(&string_entry(b"huge", &[b'y'; 200])).unwrap();
    assert_eq!(batcher.skipped_oversized(), 2);
}

#[test]
fn batch_iterator_exposes_skipped_oversized_count() {
    let entries: Vec<Result<RdbEntry, RdbError>> = vec![
        Ok(string_entry(b"ok", b"fits")),
        Ok(string_entry(b"big", &[b'x'; 100])),
    ];
    let config = BatcherConfig {
        batch_size: 100,
        max_entry_bytes: Some(10),
        ..Default::default()
    };
    let mut iter = ArrowBatcher::new(config).process(EntryQueue::new(entries));
    while iter.next().is_some() {}
    assert_eq!(iter.skipped_oversized_count(), 1);
    // Unrelated counter is unaffected by oversize skips.
    assert_eq!(iter.skipped_count(), 0);
}

/// Three shapes: string (no expansion), list (key × rows + elements), and sorted
/// set (key × rows + members + 8 bytes for each score).
#[test]
fn estimate_entry_bytes_table() {
    let cases: Vec<(RdbEntry, usize)> = vec![
        (string_entry(b"mykey", b"myvalue"), 5 + 7),
        // list: key(2) × 2 rows + elem(3) + elem(2) = 9
        (
            list_entry(b"lk", vec![b"aaa".to_vec(), b"bb".to_vec()]),
            2 * 2 + 3 + 2,
        ),
        // sorted set: key(2) + member(6) + score(8) = 16
        (geo_entry(b"zk", vec![(b"member".to_vec(), 1.0)]), 2 + 6 + 8),
    ];
    for (entry, expected) in cases {
        assert_eq!(
            estimate_entry_bytes(&entry),
            expected,
            "unexpected estimate for {:?}",
            entry.key
        );
    }
}

#[test]
fn mixed_types_with_geo_and_hll() {
    let entries: Vec<Result<RdbEntry, RdbError>> = vec![
        Ok(string_entry(b"s1", b"val")),
        Ok(make_hll_entry(b"hll1")),
        Ok(geo_entry(
            b"geo1",
            vec![(b"P".to_vec(), 3479099956230698.0)],
        )),
        Ok(string_entry(b"s2", b"val2")),
    ];

    let batcher = ArrowBatcher::new(config(100));
    let batches: Vec<_> = drain(batcher.process(EntryQueue::new(entries)))
        .unwrap();

    // 4 batches: String(2), HyperLogLog(1), SortedSet(1), Geo(1)
    assert_eq!(batches.len(), 4);
    let string_b = batches.iter().find(|b| b.tag == TypeTag::String).unwrap();
    assert_eq!(string_b.batch.inner.num_rows(), 2);
    let hll_b = batches
        .iter()
        .find(|b| b.tag == TypeTag::HyperLogLog)
        .unwrap();
    assert_eq!(hll_b.batch.inner.num_rows(), 1);
    let zset_b = batches.iter().find(|b| b.tag == TypeTag::SortedSet).unwrap();
    assert_eq!(zset_b.batch.inner.num_rows(), 1);
    let geo_b = batches.iter().find(|b| b.tag == TypeTag::Geo).unwrap();
    assert_eq!(geo_b.batch.inner.num_rows(), 1);
}
