//! Builders of record batches.

use arrow::array::{Array, AsArray};
use arrow::datatypes::{Float64Type, Int64Type, UInt32Type, UInt64Type, UInt8Type};
use valkey_rdb_tools::builders::BatchBuilder;
use valkey_rdb_tools::rows::module_opcode;
use valkey_rdb_tools::schema::TypeTag;
use valkey_rdb_tools::types::{
    Double, HashField, ModuleData, ModuleValue, RdbEntry, RdbValue, Single, StreamData, StreamEntry,
};

fn test_entry(key: &[u8], value: RdbValue) -> RdbEntry {
    RdbEntry::new(key.to_vec(), value, 0)
}

/// A sorted set of members and scores.
fn sorted_set(members: Vec<(Vec<u8>, f64)>) -> RdbValue {
    RdbValue::SortedSet(
        members
            .into_iter()
            .map(|(m, s)| (m, Double { bits: s.to_bits() }))
            .collect(),
    )
}

fn interleave64(x: u32, y: u32) -> u64 {
    let mut x = x as u64;
    let mut y = y as u64;
    x = (x | (x << 16)) & 0x0000FFFF0000FFFF;
    y = (y | (y << 16)) & 0x0000FFFF0000FFFF;
    x = (x | (x << 8)) & 0x00FF00FF00FF00FF;
    y = (y | (y << 8)) & 0x00FF00FF00FF00FF;
    x = (x | (x << 4)) & 0x0F0F0F0F0F0F0F0F;
    y = (y | (y << 4)) & 0x0F0F0F0F0F0F0F0F;
    x = (x | (x << 2)) & 0x3333333333333333;
    y = (y | (y << 2)) & 0x3333333333333333;
    x = (x | (x << 1)) & 0x5555555555555555;
    y = (y | (y << 1)) & 0x5555555555555555;
    x | (y << 1)
}

/// Encode (longitude, latitude) to a Valkey geohash score (52-bit, step=26).
fn encode_geohash(lng: f64, lat: f64) -> f64 {
    const LAT_MIN: f64 = -85.05112878;
    const LAT_MAX: f64 = 85.05112878;
    const LONG_MIN: f64 = -180.0;
    const LONG_MAX: f64 = 180.0;
    const STEP: u32 = 26;
    let lat_norm = (lat - LAT_MIN) / (LAT_MAX - LAT_MIN);
    let lng_norm = (lng - LONG_MIN) / (LONG_MAX - LONG_MIN);
    let lat_bits = (lat_norm * (1u64 << STEP) as f64) as u32;
    let lng_bits = (lng_norm * (1u64 << STEP) as f64) as u32;
    interleave64(lat_bits, lng_bits) as f64
}

/// A HyperLogLog header.
fn make_hll(encoding: u8, cardinality: u64) -> Vec<u8> {
    let mut data = vec![0u8; 16];
    data[0..4].copy_from_slice(b"HYLL");
    data[4] = encoding;
    data[8..16].copy_from_slice(&cardinality.to_le_bytes());
    data
}

/// Entry with expiry + lfu set, for testing common column propagation.
fn make_entry(value: RdbValue) -> RdbEntry {
    let mut e = test_entry(b"mykey", value);
    e.expiry_ms = Some(1700000000000);
    e.lfu_frequency = Some(42);
    e
}

#[test]
fn string_builder_one_row() {
    let mut b = BatchBuilder::new(TypeTag::String);
    b.push(&make_entry(RdbValue::String(b"hello".to_vec()))).unwrap();
    assert_eq!(b.len(), 1);
    let batch = b.finish().unwrap().inner;
    assert_eq!(batch.num_rows(), 1);
    assert_eq!(batch.num_columns(), 9);

    // Check common columns
    let db = batch.column(0).as_primitive::<UInt32Type>();
    assert_eq!(db.value(0), 0);
    let key = batch.column(1).as_binary::<i32>();
    assert_eq!(key.value(0), b"mykey");
    let type_col = batch.column(2).as_string::<i32>();
    assert_eq!(type_col.value(0), "string");
    let expiry = batch.column(3).as_primitive::<Int64Type>();
    assert_eq!(expiry.value(0), 1700000000000);
    let lru = batch.column(4).as_primitive::<UInt64Type>();
    assert!(lru.is_null(0));
    let lfu = batch.column(5).as_primitive::<UInt8Type>();
    assert_eq!(lfu.value(0), 42);
    let num_elem = batch.column(7).as_primitive::<UInt64Type>();
    assert_eq!(num_elem.value(0), 1);

    // Type-specific
    let value = batch.column(8).as_binary::<i32>();
    assert_eq!(value.value(0), b"hello");
}

#[test]
fn list_builder_three_elements() {
    let mut b = BatchBuilder::new(TypeTag::List);
    let entry = make_entry(RdbValue::List(vec![
        b"a".to_vec(),
        b"b".to_vec(),
        b"c".to_vec(),
    ]));
    b.push(&entry).unwrap();
    assert_eq!(b.len(), 3);
    let batch = b.finish().unwrap().inner;
    assert_eq!(batch.num_rows(), 3);

    let indices = batch.column(8).as_primitive::<UInt64Type>();
    assert_eq!(indices.value(0), 0);
    assert_eq!(indices.value(1), 1);
    assert_eq!(indices.value(2), 2);

    let elements = batch.column(9).as_binary::<i32>();
    assert_eq!(elements.value(0), b"a");
    assert_eq!(elements.value(1), b"b");
    assert_eq!(elements.value(2), b"c");

    // num_elements should be 3 for all rows
    let num_elem = batch.column(7).as_primitive::<UInt64Type>();
    assert_eq!(num_elem.value(0), 3);
    assert_eq!(num_elem.value(2), 3);
}

#[test]
fn empty_set_emits_one_null_row() {
    let mut b = BatchBuilder::new(TypeTag::UnorderedSet);
    b.push(&make_entry(RdbValue::UnorderedSet(vec![]))).unwrap();
    assert_eq!(b.len(), 1);
    let batch = b.finish().unwrap().inner;
    assert_eq!(batch.num_rows(), 1);

    let member = batch.column(8).as_binary::<i32>();
    assert!(member.is_null(0));

    let num_elem = batch.column(7).as_primitive::<UInt64Type>();
    assert_eq!(num_elem.value(0), 0);
}

#[test]
fn sorted_set_builder() {
    let mut b = BatchBuilder::new(TypeTag::SortedSet);
    b.push(&make_entry(sorted_set(vec![
        (b"alice".to_vec(), 1.5),
        (b"bob".to_vec(), 2.7),
    ]))).unwrap();
    assert_eq!(b.len(), 2);
    let batch = b.finish().unwrap().inner;
    assert_eq!(batch.num_rows(), 2);

    let members = batch.column(8).as_binary::<i32>();
    assert_eq!(members.value(0), b"alice");
    assert_eq!(members.value(1), b"bob");

    let scores = batch.column(9).as_primitive::<Float64Type>();
    assert!((scores.value(0) - 1.5).abs() < f64::EPSILON);
    assert!((scores.value(1) - 2.7).abs() < f64::EPSILON);
}

#[test]
fn hash_builder_with_field_ttl() {
    let mut b = BatchBuilder::new(TypeTag::Hash);
    b.push(&make_entry(RdbValue::Hash(vec![
        HashField {
            field: b"name".to_vec(),
            value: b"valkey".to_vec(),
            expiry_ms: None,
        },
        HashField {
            field: b"session".to_vec(),
            value: b"abc123".to_vec(),
            expiry_ms: Some(9999999999999),
        },
    ]))).unwrap();
    assert_eq!(b.len(), 2);
    let batch = b.finish().unwrap().inner;
    assert_eq!(batch.num_rows(), 2);

    let fields = batch.column(8).as_binary::<i32>();
    assert_eq!(fields.value(0), b"name");
    assert_eq!(fields.value(1), b"session");

    let fv = batch.column(9).as_binary::<i32>();
    assert_eq!(fv.value(0), b"valkey");

    let fe = batch.column(10).as_primitive::<Int64Type>();
    assert!(fe.is_null(0));
    assert_eq!(fe.value(1), 9999999999999);
}

#[test]
fn finish_resets_builder() {
    let mut b = BatchBuilder::new(TypeTag::String);
    b.push(&make_entry(RdbValue::String(b"a".to_vec()))).unwrap();
    let batch1 = b.finish().unwrap().inner;
    assert_eq!(batch1.num_rows(), 1);
    assert!(b.is_empty());

    b.push(&make_entry(RdbValue::String(b"b".to_vec()))).unwrap();
    b.push(&make_entry(RdbValue::String(b"c".to_vec()))).unwrap();
    let batch2 = b.finish().unwrap().inner;
    assert_eq!(batch2.num_rows(), 2);
}

#[test]
fn geo_builder_decodes_coords() {
    let rome_score = encode_geohash(12.4923, 41.8902);
    let sf_score = encode_geohash(-122.4194, 37.7749);
    let mut b = BatchBuilder::new(TypeTag::Geo);
    b.push(&make_entry(sorted_set(vec![
        (b"Rome".to_vec(), rome_score),
        (b"SF".to_vec(), sf_score),
    ]))).unwrap();
    assert_eq!(b.len(), 2);
    let batch = b.finish().unwrap().inner;
    assert_eq!(batch.num_rows(), 2);
    assert_eq!(batch.num_columns(), 12);

    // type column should say "geo"
    let type_col = batch.column(2).as_string::<i32>();
    assert_eq!(type_col.value(0), "geo");

    let members = batch.column(8).as_binary::<i32>();
    assert_eq!(members.value(0), b"Rome");
    assert_eq!(members.value(1), b"SF");

    let lngs = batch.column(9).as_primitive::<Float64Type>();
    let lats = batch.column(10).as_primitive::<Float64Type>();
    assert!((lats.value(0) - 41.8902).abs() < 0.001);
    assert!((lngs.value(0) - 12.4923).abs() < 0.001);
    assert!((lats.value(1) - 37.7749).abs() < 0.001);
    assert!((lngs.value(1) - (-122.4194)).abs() < 0.001);

    let scores = batch.column(11).as_primitive::<Float64Type>();
    assert!((scores.value(0) - rome_score).abs() < f64::EPSILON);
}

#[test]
fn geo_builder_empty_set_null_row() {
    let mut b = BatchBuilder::new(TypeTag::Geo);
    b.push(&make_entry(sorted_set(vec![]))).unwrap();
    assert_eq!(b.len(), 1);
    let batch = b.finish().unwrap().inner;
    assert_eq!(batch.num_rows(), 1);

    let member = batch.column(8).as_binary::<i32>();
    assert!(member.is_null(0));
    let lng = batch.column(9).as_primitive::<Float64Type>();
    assert!(lng.is_null(0));
    let lat = batch.column(10).as_primitive::<Float64Type>();
    assert!(lat.is_null(0));
    let score = batch.column(11).as_primitive::<Float64Type>();
    assert!(score.is_null(0));
}

#[test]
fn hll_builder_extracts_header() {
    let hll_data = make_hll(1, 42);
    let mut b = BatchBuilder::new(TypeTag::HyperLogLog);
    b.push(&make_entry(RdbValue::String(hll_data.clone()))).unwrap();
    assert_eq!(b.len(), 1);
    let batch = b.finish().unwrap().inner;
    assert_eq!(batch.num_rows(), 1);
    assert_eq!(batch.num_columns(), 11);

    // type column should say "hyperloglog"
    let type_col = batch.column(2).as_string::<i32>();
    assert_eq!(type_col.value(0), "hyperloglog");

    let enc = batch.column(8).as_string::<i32>();
    assert_eq!(enc.value(0), "sparse");

    let card = batch.column(9).as_primitive::<Int64Type>();
    assert_eq!(card.value(0), 42);

    let raw = batch.column(10).as_binary::<i32>();
    assert_eq!(raw.value(0), &hll_data[..]);
}

#[test]
fn hll_builder_dense_encoding() {
    let hll_data = make_hll(0, 999);
    let mut b = BatchBuilder::new(TypeTag::HyperLogLog);
    b.push(&make_entry(RdbValue::String(hll_data))).unwrap();
    let batch = b.finish().unwrap().inner;

    let enc = batch.column(8).as_string::<i32>();
    assert_eq!(enc.value(0), "dense");
    let card = batch.column(9).as_primitive::<Int64Type>();
    assert_eq!(card.value(0), 999);
}

#[test]
fn test_list_builder_with_element_offset() {
    let mut b = BatchBuilder::new(TypeTag::List);
    let mut entry = make_entry(RdbValue::List(vec![
        b"x".to_vec(),
        b"y".to_vec(),
        b"z".to_vec(),
    ]));
    entry.total_elements = Some(300);
    entry.element_offset = Some(100);
    b.push(&entry).unwrap();
    assert_eq!(b.len(), 3);
    let batch = b.finish().unwrap().inner;

    let indices = batch.column(8).as_primitive::<UInt64Type>();
    assert_eq!(indices.value(0), 100);
    assert_eq!(indices.value(1), 101);
    assert_eq!(indices.value(2), 102);

    let num_elem = batch.column(7).as_primitive::<UInt64Type>();
    assert_eq!(num_elem.value(0), 300);
}

#[test]
fn test_num_elements_from_total_elements() {
    let mut b = BatchBuilder::new(TypeTag::Hash);
    let mut entry = make_entry(RdbValue::Hash(vec![
        HashField { field: b"f1".to_vec(), value: b"v1".to_vec(), expiry_ms: None },
        HashField { field: b"f2".to_vec(), value: b"v2".to_vec(), expiry_ms: None },
        HashField { field: b"f3".to_vec(), value: b"v3".to_vec(), expiry_ms: None },
    ]));
    entry.total_elements = Some(1000);
    b.push(&entry).unwrap();
    let batch = b.finish().unwrap().inner;

    // num_elements column should be 1000, not 3
    let num_elem = batch.column(7).as_primitive::<UInt64Type>();
    assert_eq!(num_elem.value(0), 1000);
    assert_eq!(num_elem.value(1), 1000);
    assert_eq!(num_elem.value(2), 1000);
}

#[test]
fn module_builder_mixed_values() {
    let mut b = BatchBuilder::new(TypeTag::Module);
    b.push(&make_entry(RdbValue::Module(ModuleData {
        module_name: "testmod".to_string(),
        module_version: 2,
        values: vec![
            ModuleValue::UnsignedInt(42),
            ModuleValue::SignedInt(-7),
            ModuleValue::Double(Double { bits: 1.234f64.to_bits() }),
            ModuleValue::String(b"hello".to_vec()),
        ],
    }))).unwrap();
    assert_eq!(b.len(), 4);
    let batch = b.finish().unwrap().inner;
    assert_eq!(batch.num_rows(), 4);
    assert_eq!(batch.num_columns(), 15);

    // module_name column (index 8)
    let names = batch.column(8).as_string::<i32>();
    assert_eq!(names.value(0), "testmod");

    // opcode column (index 11)
    let opcodes = batch.column(11).as_string::<i32>();
    assert_eq!(opcodes.value(0), "uint");
    assert_eq!(opcodes.value(1), "sint");
    assert_eq!(opcodes.value(2), "double");
    assert_eq!(opcodes.value(3), "string");

    // int_value column (index 12, UInt64) — both uint and sint produce values
    let ints = batch.column(12).as_primitive::<UInt64Type>();
    assert_eq!(ints.value(0), 42);
    // -7i64 reinterpreted as u64
    assert_eq!(ints.value(1), (-7i64) as u64);
    assert!(ints.is_null(2));
    assert!(ints.is_null(3));

    // string_value column (index 14) — only string row has value
    let strings = batch.column(14).as_binary::<i32>();
    assert!(strings.is_null(0));
    assert!(strings.is_null(1));
    assert!(strings.is_null(2));
    assert_eq!(strings.value(3), b"hello");
}

#[test]
fn module_builder_empty_module() {
    let mut b = BatchBuilder::new(TypeTag::Module);
    b.push(&make_entry(RdbValue::Module(ModuleData {
        module_name: "empty".to_string(),
        module_version: 0,
        values: vec![],
    }))).unwrap();
    assert_eq!(b.len(), 1);
    let batch = b.finish().unwrap().inner;
    assert_eq!(batch.num_rows(), 1);

    let opcodes = batch.column(11).as_string::<i32>();
    assert_eq!(opcodes.value(0), "eof");
}

#[test]
fn stream_builder_num_elements_is_entry_count_not_exploded_rows() {
    // 3 entries with 2 fields each → 6 exploded rows. The common
    // `num_elements` column must reflect the logical stream length (3),
    // not the exploded row count (6), so a stream of {3 entries × 2
    // fields} cannot be confused with a 6-entry stream.
    let data = StreamData {
        entries: vec![
            StreamEntry {
                id: "1-0".into(),
                fields: vec![(b"f1".to_vec(), b"v1".to_vec()), (b"f2".to_vec(), b"v2".to_vec())],
            },
            StreamEntry {
                id: "2-0".into(),
                fields: vec![(b"f1".to_vec(), b"v1".to_vec()), (b"f2".to_vec(), b"v2".to_vec())],
            },
            StreamEntry {
                id: "3-0".into(),
                fields: vec![(b"f1".to_vec(), b"v1".to_vec()), (b"f2".to_vec(), b"v2".to_vec())],
            },
        ],
        length: 3,
        last_id: "3-0".into(),
    };

    let mut b = BatchBuilder::new(TypeTag::Stream);
    b.push(&make_entry(RdbValue::Stream(data))).unwrap();
    let batch = b.finish().unwrap().inner;
    assert_eq!(batch.num_rows(), 6, "6 exploded rows (3 entries × 2 fields)");

    let num_elem = batch.column(7).as_primitive::<UInt64Type>();
    for row in 0..6 {
        assert_eq!(
            num_elem.value(row),
            3,
            "num_elements at row {row} should be stream entry count, not exploded row count"
        );
    }
}

#[test]
fn stream_builder_empty_stream_num_elements_is_zero() {
    let mut b = BatchBuilder::new(TypeTag::Stream);
    b.push(&make_entry(RdbValue::Stream(StreamData {
        entries: vec![],
        length: 0,
        last_id: "0-0".into(),
    }))).unwrap();
    let batch = b.finish().unwrap().inner;
    assert_eq!(batch.num_rows(), 1, "empty stream still emits one sentinel row");
    let num_elem = batch.column(7).as_primitive::<UInt64Type>();
    assert_eq!(num_elem.value(0), 0);
}

/// The opcode column shows what `module_opcode` names.
#[test]
fn module_opcode_string_appears_in_output() {
    let values = vec![
        ModuleValue::SignedInt(0),
        ModuleValue::UnsignedInt(0),
        ModuleValue::Float(Single { bits: 0.0f32.to_bits() }),
        ModuleValue::Double(Double { bits: 0.0f64.to_bits() }),
        ModuleValue::String(b"x".to_vec()),
    ];
    let mut b = BatchBuilder::new(TypeTag::Module);
    b.push(&make_entry(RdbValue::Module(ModuleData {
        module_name: "probe".into(),
        module_version: 1,
        values: values.clone(),
    }))).unwrap();
    let batch = b.finish().unwrap().inner;
    let opcodes = batch.column(11).as_string::<i32>();

    for (i, val) in values.iter().enumerate() {
        assert_eq!(
            opcodes.value(i),
            module_opcode(val),
            "opcode column row {i} disagrees with module_opcode() for {val:?}"
        );
    }
}
