//! Type tags and schemas.

use arrow::datatypes::DataType;
use valkey_rdb_tools::schema::{
    common_fields, is_geo_entry, schema_for, type_tag_for, TypeTag,
};
use valkey_rdb_tools::types::{Double, RdbEntry, RdbValue};

fn test_entry(key: &[u8], value: RdbValue) -> RdbEntry {
    test_entry_typed(key, value, 0)
}

fn test_entry_typed(key: &[u8], value: RdbValue, type_code: u8) -> RdbEntry {
    RdbEntry::new(key.to_vec(), value, type_code)
}

/// A sorted set of members and scores.
fn sorted_set(members: Vec<(Vec<u8>, f64)>) -> RdbValue {
    RdbValue::SortedSet(
        members
            .into_iter()
            .map(|(m, s)| (m, Double { bits: s.to_bits() }))
            .collect(),
    )
}

/// A HyperLogLog header.
fn make_hll(encoding: u8, cardinality: u64) -> Vec<u8> {
    let mut data = vec![0u8; 16];
    data[0..4].copy_from_slice(b"HYLL");
    data[4] = encoding;
    data[8..16].copy_from_slice(&cardinality.to_le_bytes());
    data
}

#[test]
fn common_fields_count_and_types() {
    let fields = common_fields();
    assert_eq!(fields.len(), 8);
    assert_eq!(fields[0].name(), "db");
    assert_eq!(fields[0].data_type(), &DataType::UInt32);
    assert!(!fields[0].is_nullable());
    assert_eq!(fields[1].name(), "key");
    assert_eq!(fields[1].data_type(), &DataType::Binary);
    assert_eq!(fields[3].name(), "expiry_ms");
    assert!(fields[3].is_nullable());
    assert_eq!(fields[7].name(), "num_elements");
    assert!(!fields[7].is_nullable());
}

/// Expected (total_columns, type-specific fields with (name, type, nullable)).
fn expected_schema(tag: TypeTag) -> (usize, Vec<(&'static str, DataType, bool)>) {
    match tag {
        TypeTag::String => (9, vec![
            ("value", DataType::Binary, false),
        ]),
        TypeTag::List => (10, vec![
            ("index", DataType::UInt64, true),
            ("element", DataType::Binary, true),
        ]),
        TypeTag::UnorderedSet => (9, vec![
            ("member", DataType::Binary, true),
        ]),
        TypeTag::SortedSet => (10, vec![
            ("member", DataType::Binary, true),
            ("score", DataType::Float64, true),
        ]),
        TypeTag::Hash => (11, vec![
            ("field", DataType::Binary, true),
            ("field_value", DataType::Binary, true),
            ("field_expiry_ms", DataType::Int64, true),
        ]),
        TypeTag::Geo => (12, vec![
            ("member", DataType::Binary, true),
            ("longitude", DataType::Float64, true),
            ("latitude", DataType::Float64, true),
            ("geohash_score", DataType::Float64, true),
        ]),
        TypeTag::HyperLogLog => (11, vec![
            ("hll_encoding", DataType::Utf8, false),
            ("cached_cardinality", DataType::Int64, false),
            ("raw_value", DataType::Binary, false),
        ]),
        TypeTag::Module => (15, vec![
            ("module_name", DataType::Utf8, false),
            ("module_version", DataType::UInt32, false),
            ("value_index", DataType::UInt32, false),
            ("opcode", DataType::Utf8, false),
            ("int_value", DataType::UInt64, true),
            ("double_value", DataType::Float64, true),
            ("string_value", DataType::Binary, true),
        ]),
        TypeTag::Stream => (11, vec![
            ("stream_id", DataType::Utf8, true),
            ("field", DataType::Binary, true),
            ("field_value", DataType::Binary, true),
        ]),
    }
}

#[test]
fn all_schemas_have_common_prefix_and_expected_columns() {
    let common = common_fields();
    for tag in TypeTag::all() {
        let schema = schema_for(tag);
        let (expected_cols, type_fields) = expected_schema(tag);

        // Column count
        assert_eq!(
            schema.fields().len(), expected_cols,
            "{}: expected {} columns, got {}",
            tag.as_str(), expected_cols, schema.fields().len()
        );

        // Common prefix
        for (i, cf) in common.iter().enumerate() {
            let sf = schema.field(i);
            assert_eq!(sf.name(), cf.name(), "{}: common field {i} name mismatch", tag.as_str());
            assert_eq!(sf.data_type(), cf.data_type(), "{}: common field {i} type mismatch", tag.as_str());
        }

        // Type-specific fields: name, type, nullability
        for (name, expected_type, expected_nullable) in &type_fields {
            let field = schema.field_with_name(name).unwrap_or_else(|_| {
                panic!("{}: missing type-specific field '{name}'", tag.as_str())
            });
            assert_eq!(
                field.data_type(), expected_type,
                "{}: field '{name}' type mismatch",
                tag.as_str()
            );
            assert_eq!(
                field.is_nullable(), *expected_nullable,
                "{}: field '{name}' nullability mismatch",
                tag.as_str()
            );
        }
    }
}

#[test]
fn type_tag_as_str_all() {
    for tag in TypeTag::all() {
        let s = tag.as_str();
        assert!(!s.is_empty(), "as_str should not be empty");
        assert_eq!(TypeTag::from_cli_name(s), Some(tag), "from_cli_name({s}) roundtrip failed");
    }
}

#[test]
fn type_tag_from_cli_name_aliases() {
    // HLL has an alias
    assert_eq!(TypeTag::from_cli_name("hll"), Some(TypeTag::HyperLogLog));
    assert_eq!(TypeTag::from_cli_name("hyperloglog"), Some(TypeTag::HyperLogLog));
    // Case insensitive
    assert_eq!(TypeTag::from_cli_name("STRING"), Some(TypeTag::String));
    assert_eq!(TypeTag::from_cli_name("Hash"), Some(TypeTag::Hash));
    // Unknown
    assert_eq!(TypeTag::from_cli_name("nope"), None);
}

#[test]
fn type_tag_for_detects_hll() {
    let entry = test_entry(b"myhll", RdbValue::String(make_hll(0, 0)));
    assert_eq!(type_tag_for(&entry), Some(TypeTag::HyperLogLog));
}

#[test]
fn type_tag_for_regular_string() {
    let entry = test_entry(b"mystr", RdbValue::String(b"hello".to_vec()));
    assert_eq!(type_tag_for(&entry), Some(TypeTag::String));
}

#[test]
fn type_tag_for_sorted_set_always_returns_zset() {
    // Even with valid geo scores, type_tag_for returns SortedSet (geo is additive)
    let entry = test_entry_typed(
        b"mygeo",
        sorted_set(vec![
            (b"Rome".to_vec(), 3479099956230698.0),
            (b"Paris".to_vec(), 3663941556696959.0),
        ]),
        5, // RDB_TYPE_ZSET_2
    );
    assert_eq!(type_tag_for(&entry), Some(TypeTag::SortedSet));
}

#[test]
fn type_tag_for_regular_sorted_set() {
    let entry = test_entry_typed(
        b"myzset",
        sorted_set(vec![
            (b"alice".to_vec(), 1.5),
            (b"bob".to_vec(), 2.7),
        ]),
        5, // RDB_TYPE_ZSET_2
    );
    assert_eq!(type_tag_for(&entry), Some(TypeTag::SortedSet));
}

#[test]
fn is_geo_entry_positive() {
    let entry = test_entry_typed(
        b"mygeo",
        sorted_set(vec![
            (b"Rome".to_vec(), 3479099956230698.0),
            (b"Paris".to_vec(), 3663941556696959.0),
        ]),
        5, // RDB_TYPE_ZSET_2
    );
    assert!(is_geo_entry(&entry));
}

#[test]
fn is_geo_entry_negative() {
    // Fractional scores are not valid geohashes
    let entry = test_entry_typed(
        b"myzset",
        sorted_set(vec![
            (b"alice".to_vec(), 1.5),
            (b"bob".to_vec(), 2.7),
        ]),
        5, // RDB_TYPE_ZSET_2
    );
    assert!(!is_geo_entry(&entry));
    // Non-sorted-set entry
    let str_entry = test_entry(b"s", RdbValue::String(b"hello".to_vec()));
    assert!(!is_geo_entry(&str_entry));
}

#[test]
fn is_geo_entry_rejects_chunked_zset() {
    // A chunk is only a window into the full key.
    let mut entry = test_entry_typed(
        b"mygeo",
        sorted_set(vec![
            (b"Rome".to_vec(), 3479099956230698.0),
            (b"Paris".to_vec(), 3663941556696959.0),
        ]),
        5, // RDB_TYPE_ZSET_2
    );
    entry.total_elements = Some(100);
    entry.element_offset = Some(0);
    assert!(
        !is_geo_entry(&entry),
        "chunked zset must not be classified as geo even if the chunk is all-geohash"
    );
}
