//! What holds of the library as a whole, on given values.

use arrow::array::{Array, AsArray};
use arrow::datatypes::{Float64Type, Int64Type, UInt32Type, UInt64Type};
use valkey_rdb_tools::batcher::{ArrowBatcher, BatchIterator, BatcherConfig, TypedBatch};
use valkey_rdb_tools::bindings::{
    arrow_to_py_err, check_row_group_size, make_batcher_config, rdb_to_py_err, ExceptionKind,
};
use valkey_rdb_tools::builders::BatchBuilder;
use valkey_rdb_tools::detect::deinterleave64;
use valkey_rdb_tools::entries::EntryQueue;
use valkey_rdb_tools::error::ArrowConvertError;
use valkey_rdb_tools::filter::EntryFilter;
use valkey_rdb_tools::lzf::decompress;
use valkey_rdb_tools::modules::decode_module_id;
use valkey_rdb_tools::opcodes::{
    encoding_name, is_object_type, logical_type_name, RDB_OPCODE_AUX, RDB_OPCODE_EOF,
    RDB_OPCODE_EXPIRETIME_MS, RDB_OPCODE_FREQ, RDB_OPCODE_IDLE, RDB_OPCODE_SELECTDB,
    RDB_TYPE_HASH, RDB_TYPE_HASH_LISTPACK, RDB_TYPE_HASH_ZIPMAP, RDB_TYPE_LIST, RDB_TYPE_MODULE_2,
    RDB_TYPE_STRING,
};
use valkey_rdb_tools::reader::RdbReader;
use valkey_rdb_tools::schema::{
    expected_row_count, schema_arc, schema_for, should_emit_geo, type_tag_for, Heuristic,
    HeuristicSet, TagSet, TypeTag,
};
use valkey_rdb_tools::summarize::{summarize_entries, TagMap};
use valkey_rdb_tools::types::{
    Double, HashField, IoError, ModuleData, ModuleValue, RdbEntry, RdbError, RdbValue, Single,
    StreamData, StreamEntry,
};
use valkey_rdb_tools::validate::{compare, verdict};
use valkey_rdb_tools::wire::{Cursor, Source};

fn double(x: f64) -> Double {
    Double { bits: x.to_bits() }
}

fn entry(key: &[u8], value: RdbValue, type_code: u8) -> RdbEntry {
    RdbEntry::new(key.to_vec(), value, type_code)
}

fn string(key: &str, value: &str) -> RdbEntry {
    entry(key.as_bytes(), RdbValue::String(value.as_bytes().to_vec()), 0)
}

/// One entry of each kind.
fn one_of_each() -> Vec<RdbEntry> {
    let bytes = |s: &str| s.as_bytes().to_vec();
    let mut hll = vec![0u8; 16];
    hll[0..4].copy_from_slice(b"HYLL");
    vec![
        string("s", "v"),
        entry(b"l", RdbValue::List(vec![bytes("a"), bytes("b")]), 1),
        entry(b"u", RdbValue::UnorderedSet(vec![]), 2),
        entry(b"z", RdbValue::SortedSet(vec![(bytes("m"), double(1.5))]), 5),
        entry(b"g", RdbValue::SortedSet(vec![(bytes("m"), double(3479099956230698.0))]), 5),
        entry(
            b"h",
            RdbValue::Hash(vec![HashField {
                field: bytes("f"),
                value: bytes("v"),
                expiry_ms: Some(7),
            }]),
            4,
        ),
        entry(b"y", RdbValue::String(hll), 0),
        entry(
            b"m",
            RdbValue::Module(ModuleData {
                module_name: "testAAAAA".to_string(),
                module_version: 1,
                values: vec![
                    ModuleValue::SignedInt(-1),
                    ModuleValue::Float(Single { bits: 1.5f32.to_bits() }),
                ],
            }),
            7,
        ),
        entry(
            b"x",
            RdbValue::Stream(StreamData {
                entries: vec![
                    StreamEntry { id: "1-0".to_string(), fields: vec![] },
                    StreamEntry {
                        id: "2-0".to_string(),
                        fields: vec![(bytes("a"), bytes("b")), (bytes("c"), bytes("d"))],
                    },
                ],
                length: 2,
                last_id: "2-0".to_string(),
            }),
            21,
        ),
    ]
}

fn queue(entries: Vec<RdbEntry>) -> EntryQueue {
    EntryQueue::new(entries.into_iter().map(Ok).collect())
}

fn drain(mut iter: BatchIterator<EntryQueue>) -> Vec<Result<TypedBatch, ArrowConvertError>> {
    let mut out = Vec::new();
    while let Some(item) = iter.next() {
        out.push(item);
    }
    out
}

fn rows_of(batches: &[TypedBatch], tag: TypeTag) -> usize {
    batches.iter().filter(|b| b.tag == tag).map(|b| b.batch.inner.num_rows()).sum()
}

#[test]
fn entries_make_the_rows_that_are_expected() {
    for e in one_of_each() {
        let tag = type_tag_for(&e).unwrap();
        let mut builder = BatchBuilder::new(tag);
        builder.push(&e).unwrap();
        assert_eq!(builder.len() as u64, expected_row_count(&e), "{tag:?}");
        let batch = builder.finish().unwrap().inner;
        assert_eq!(batch.schema().as_ref(), &schema_for(tag));
        assert_eq!(batch.schema(), schema_arc(tag));
        assert!(builder.is_empty());
        assert_eq!(builder.data_bytes(), 0);
    }
}

#[test]
fn builders_ignore_other_types() {
    let mut builder = BatchBuilder::new(TypeTag::Hash);
    for e in one_of_each() {
        if type_tag_for(&e) != Some(TypeTag::Hash) {
            builder.push(&e).unwrap();
        }
    }
    assert!(builder.is_empty());
}

#[test]
fn rows_weigh_what_they_hold() {
    let weights = [
        (TypeTag::String, 2),
        (TypeTag::List, 4),
        (TypeTag::UnorderedSet, 1),
        (TypeTag::SortedSet, 1 + 1 + 8),
        (TypeTag::Geo, 1 + 1 + 24),
        (TypeTag::Hash, 1 + 1 + 1),
        (TypeTag::HyperLogLog, 1 + 16),
        (TypeTag::Module, (1 + 9 + 8 + 4 + 8) + (1 + 9 + 8 + 5 + 8)),
        (TypeTag::Stream, (1 + 3) + 2 * (1 + 3 + 1 + 1)),
    ];
    for (e, (tag, weight)) in one_of_each().iter().zip(
        weights.iter().filter(|w| w.0 != TypeTag::Geo).take(4).chain(weights.iter().skip(4)),
    ) {
        let mut builder = BatchBuilder::new(*tag);
        builder.push(e).unwrap();
        assert_eq!(builder.data_bytes(), *weight, "{tag:?}");
    }
    let empty = RdbValue::Module(ModuleData {
        module_name: "testAAAAA".to_string(),
        module_version: 1,
        values: vec![],
    });
    let mut builder = BatchBuilder::new(TypeTag::Module);
    builder.push(&entry(b"m", empty, 7)).unwrap();
    assert_eq!(builder.data_bytes(), 1 + 9 + 8 + 3);
}

#[test]
fn cells_hold_what_the_entries_hold() {
    let all = one_of_each();
    let mut modules = BatchBuilder::new(TypeTag::Module);
    modules.push(&all[7]).unwrap();
    let batch = modules.finish().unwrap().inner;
    assert_eq!(batch.column(9).as_primitive::<UInt32Type>().value(1), 1);
    assert_eq!(batch.column(10).as_primitive::<UInt32Type>().value(1), 1);
    assert_eq!(batch.column(12).as_primitive::<UInt64Type>().value(0), u64::MAX);
    assert!(batch.column(12).is_null(1));
    assert_eq!(batch.column(13).as_primitive::<Float64Type>().value(1), 1.5);
    assert!(batch.column(14).is_null(0));

    let mut streams = BatchBuilder::new(TypeTag::Stream);
    streams.push(&all[8]).unwrap();
    let batch = streams.finish().unwrap().inner;
    let ids = batch.column(8).as_string::<i32>();
    assert_eq!((ids.value(0), ids.value(1), ids.value(2)), ("1-0", "2-0", "2-0"));
    assert!(batch.column(9).is_null(0));
    assert_eq!(batch.column(10).as_binary::<i32>().value(2), b"d");

    let mut hashes = BatchBuilder::new(TypeTag::Hash);
    hashes.push(&all[5].clone().with_db(4).with_lru_idle_secs(Some(60))).unwrap();
    let batch = hashes.finish().unwrap().inner;
    assert_eq!(batch.column(0).as_primitive::<UInt32Type>().value(0), 4);
    assert_eq!(batch.column(4).as_primitive::<UInt64Type>().value(0), 60);
    assert_eq!(batch.column(6).as_string::<i32>().value(0), encoding_name(4));
    assert_eq!(batch.column(10).as_primitive::<Int64Type>().value(0), 7);
}

#[test]
fn nothing_is_lost_whatever_the_thresholds() {
    let entries = || {
        let mut all = Vec::new();
        for i in 0..5 {
            for e in one_of_each() {
                all.push(e.with_db(i));
            }
        }
        all
    };
    let mut counts = Vec::new();
    for (batch_size, batch_bytes) in [(1, None), (3, Some(40)), (1000, Some(10)), (1000, None)] {
        let config = BatcherConfig { batch_size, batch_bytes, ..Default::default() };
        let batches: Vec<TypedBatch> = drain(ArrowBatcher::new(config).process(queue(entries())))
            .into_iter()
            .map(|b| b.unwrap())
            .collect();
        assert!(batches.iter().all(|b| b.batch.inner.num_rows() > 0));
        let rows: Vec<usize> =
            TypeTag::all().into_iter().map(|t| rows_of(&batches, t)).collect();
        counts.push(rows);
    }
    assert_eq!(counts[0], vec![5, 10, 5, 10, 5, 5, 5, 10, 15]);
    assert!(counts.iter().all(|c| *c == counts[0]));
}

#[test]
fn pushing_one_by_one_gives_the_batches_of_an_iteration() {
    let config = BatcherConfig { batch_size: 3, ..Default::default() };
    let mut batcher = ArrowBatcher::new(config);
    let mut by_hand = Vec::new();
    for e in one_of_each() {
        by_hand.extend(batcher.push(&e).unwrap());
    }
    by_hand.extend(batcher.flush().unwrap());
    let iterated = drain(ArrowBatcher::new(config).process(queue(one_of_each())));
    assert_eq!(by_hand.len(), iterated.len());
    for (a, b) in by_hand.iter().zip(iterated) {
        let b = b.unwrap();
        assert_eq!((a.tag, &a.batch.inner), (b.tag, &b.batch.inner));
    }
    assert!(batcher.flush().unwrap().is_empty());
}

#[test]
fn iterations_pass_over_unknown_types_and_hand_on_errors() {
    let items = vec![
        Ok(string("a", "1")),
        Err(RdbError::UnknownType(9)),
        Err(RdbError::CorruptData("x".to_string())),
        Ok(string("b", "2")),
    ];
    let mut iter = ArrowBatcher::new(BatcherConfig::default()).process(EntryQueue::new(items));
    let first = iter.next().unwrap().unwrap_err();
    assert_eq!(first.message(), "RDB parser error: corrupt RDB data: x");
    let batch = iter.next().unwrap().unwrap();
    assert_eq!(batch.batch.inner.num_rows(), 2);
    assert!(iter.next().is_none());
    assert_eq!(iter.skipped_count(), 1);
    assert_eq!(iter.skipped_oversized_count(), 0);
}

#[test]
fn feeds_take_items_one_by_one() {
    let config = BatcherConfig { batch_size: 2, ..Default::default() };
    let mut feed = ArrowBatcher::new(config).into_feed();
    assert!(feed.feed(Some(Ok(string("a", "1")))).is_none());
    assert!(feed.pop().is_none());
    assert!(feed.feed(Some(Err(RdbError::UnknownType(9)))).is_none());
    assert!(feed.feed(Some(Err(RdbError::InvalidMagic))).is_some());
    assert!(feed.feed(Some(Ok(string("b", "2")))).is_none());
    assert_eq!(feed.pop().unwrap().batch.inner.num_rows(), 2);
    assert!(feed.feed(Some(Ok(string("c", "3")))).is_none());
    assert!(!feed.is_finished());
    assert!(feed.feed(None).is_none());
    assert!(feed.is_finished());
    assert_eq!(feed.pop().unwrap().batch.inner.num_rows(), 1);
    assert!(feed.pop().is_none());
    assert_eq!((feed.skipped_count(), feed.skipped_oversized_count()), (1, 0));
}

#[test]
fn heuristics_only_add() {
    for e in one_of_each() {
        let tag = type_tag_for(&e).unwrap();
        assert_ne!(tag, TypeTag::Geo);
        let shown = should_emit_geo(&HeuristicSet::all(), tag, &e);
        assert_eq!(shown, e.key == b"g");
        assert!(!should_emit_geo(&HeuristicSet::none(), tag, &e));
        let chunk = e.with_chunking(Some(10), Some(0));
        assert!(!should_emit_geo(&HeuristicSet::all(), tag, &chunk));
    }
}

#[test]
fn heuristics_parse_back() {
    assert_eq!(Heuristic::all(), vec![Heuristic::Geo]);
    assert_eq!(Heuristic::from_name("GEO"), Some(Heuristic::Geo));
    assert_eq!(Heuristic::from_name("x"), None);
    assert_eq!(Heuristic::Geo.as_str(), "geo");
    for set in [HeuristicSet::none(), HeuristicSet::all()] {
        let text = Heuristic::format_set(&set);
        assert_eq!(Heuristic::parse_set(&text).unwrap(), set);
    }
    assert_eq!(Heuristic::parse_set("ALL").unwrap(), HeuristicSet::all());
    assert_eq!(Heuristic::parse_set("None").unwrap(), HeuristicSet::none());
    assert_eq!(Heuristic::parse_set(" geo , GEO").unwrap(), HeuristicSet::all());
    assert_eq!(Heuristic::parse_set("all,geo").unwrap(), HeuristicSet::all());
    assert_eq!(Heuristic::parse_set("None, All").unwrap(), HeuristicSet::all());
    assert_eq!(Heuristic::parse_set("none,none").unwrap(), HeuristicSet::none());
    assert_eq!(
        Heuristic::parse_set("geo, no").unwrap_err(),
        "unknown heuristic 'no'. Valid: all, geo, none"
    );
    assert!(HeuristicSet::none().is_empty());
}

#[test]
fn tags_parse_and_stand_in_order() {
    let all = TypeTag::all();
    for (i, tag) in all.iter().enumerate() {
        assert_eq!(tag.index(), i);
        let set = TypeTag::parse_set(&format!("{}, hll", tag.as_str().to_uppercase())).unwrap();
        assert!(set.contains(*tag));
        assert!(set.contains(TypeTag::HyperLogLog));
    }
    assert!(all.windows(2).all(|w| w[0] < w[1]));
    assert_eq!(
        TypeTag::parse_set("hash,,x").unwrap_err(),
        "unknown type ''. Valid: string, list, set, zset, hash, geo, hll, module, stream"
    );
}

#[test]
fn a_score_takes_its_bits_apart() {
    assert_eq!(deinterleave64(0b10_10_10), 0b111 << 32);
    assert_eq!(deinterleave64(0b01_01_01), 0b111);
    assert_eq!(deinterleave64(u64::MAX), u64::MAX);
}

#[test]
fn module_names_have_nine_characters_and_tell_ids_apart() {
    let mut seen = std::collections::HashSet::new();
    for id in [0, 1, 1024, 1023, u64::MAX, 13108620618415210497] {
        let (name, version) = decode_module_id(id);
        assert_eq!(name.len(), 9);
        assert!(seen.insert((name, version)));
    }
}

#[test]
fn lzf_output_has_the_stated_length() {
    assert_eq!(decompress(&[0, b'a', 0x40, 0], 5).unwrap(), b"aaaaa");
    for (bad, len) in [
        (vec![0u8, b'a', 0x40, 0], 6usize),
        (vec![5, b'a'], 6),
        (vec![0x20, 0], 3),
        (vec![0, b'a', 0x20], 4),
    ] {
        assert!(matches!(decompress(&bad, len), Err(RdbError::CorruptData(_))), "{bad:?}");
    }
}

fn rdb(parts: &[&[u8]]) -> Vec<u8> {
    let mut data = b"VALKEY080".to_vec();
    for p in parts {
        data.extend_from_slice(p);
    }
    data.push(RDB_OPCODE_EOF);
    data.extend_from_slice(&[0; 8]);
    data
}

fn items(bytes: Vec<u8>) -> Vec<Result<RdbEntry, RdbError>> {
    let mut reader = RdbReader::new(Source::new(bytes)).unwrap();
    let mut out = Vec::new();
    while let Some(item) = reader.next() {
        out.push(item);
    }
    out
}

#[test]
fn nothing_leaks_to_the_next_key() {
    let bytes = rdb(&[
        &[RDB_OPCODE_SELECTDB, 2],
        &[RDB_OPCODE_EXPIRETIME_MS],
        &999i64.to_le_bytes(),
        &[RDB_OPCODE_IDLE, 5, RDB_OPCODE_FREQ, 6],
        &[RDB_TYPE_STRING, 1, b'a', 1, b'1'],
        &[RDB_TYPE_STRING, 1, b'b', 1, b'2'],
    ]);
    let all: Vec<RdbEntry> = items(bytes).into_iter().map(|e| e.unwrap()).collect();
    assert_eq!(all[0].expiry_ms, Some(999));
    assert_eq!((all[0].lru_idle_secs, all[0].lfu_frequency, all[0].db), (Some(5), Some(6), 2));
    assert_eq!((all[1].expiry_ms, all[1].lru_idle_secs, all[1].lfu_frequency), (None, None, None));
    assert_eq!(all[1].db, 2);
}

#[test]
fn errors_are_last_but_unsupported_types_are_not() {
    let bytes = rdb(&[
        &[RDB_TYPE_HASH_ZIPMAP, 1, b'z', 2, 0, 0xff],
        &[RDB_TYPE_STRING, 1, b'a', 1, b'1'],
        &[200, 0],
        &[RDB_TYPE_STRING, 1, b'b', 1, b'2'],
    ]);
    let all = items(bytes);
    assert_eq!(all.len(), 3);
    assert!(matches!(all[0], Err(RdbError::UnknownType(9))));
    assert!(all[1].is_ok());
    assert!(matches!(all[2], Err(RdbError::CorruptData(_))));
}

#[test]
fn chunks_join_to_the_whole_key() {
    let mut payload = vec![RDB_TYPE_LIST, 1, b'k', 7];
    for i in 0..7u8 {
        payload.extend_from_slice(&[1, b'a' + i]);
    }
    let whole = {
        let mut reader =
            RdbReader::new(Source::new(rdb(&[&payload]))).unwrap().without_chunking();
        reader.next().unwrap().unwrap()
    };
    for max in 1..9 {
        let mut reader =
            RdbReader::new(Source::new(rdb(&[&payload]))).unwrap().with_max_key_elements(max);
        let mut joined: Vec<Vec<u8>> = Vec::new();
        let mut keys = 0;
        while let Some(item) = reader.next() {
            let e = item.unwrap();
            let offset = e.element_offset.unwrap_or(0);
            assert_eq!(offset as usize, joined.len());
            if max < 7 {
                assert_eq!(e.total_elements, Some(7));
            }
            keys += e.is_first_chunk() as usize;
            match e.value {
                RdbValue::List(part) => {
                    assert!(part.len() <= max);
                    joined.extend(part);
                }
                other => panic!("{other:?}"),
            }
        }
        assert_eq!(keys, 1);
        assert_eq!(RdbValue::List(joined), whole.value);
    }
}

#[test]
fn compact_hashes_are_never_chunked() {
    // total 15, two entries, "f" and 1
    let listpack = [12u8, 0, 0, 0, 2, 0, 0x81, b'f', 2, 1, 1, 0xff];
    let mut payload = vec![RDB_TYPE_HASH_LISTPACK, 1, b'h', listpack.len() as u8];
    payload.extend_from_slice(&listpack);
    let mut reader =
        RdbReader::new(Source::new(rdb(&[&payload]))).unwrap().with_max_key_elements(1);
    let e = reader.next().unwrap().unwrap();
    assert_eq!((e.total_elements, e.element_offset), (None, None));
    assert_eq!(e.logical_type_name(), "hash");
    assert_eq!(e.encoding_name(), "listpack");
    match &e.value {
        RdbValue::Hash(fields) => {
            assert_eq!((&fields[0].field[..], &fields[0].value[..]), (&b"f"[..], &b"1"[..]));
        }
        other => panic!("{other:?}"),
    }
    assert!(reader.next().is_none());
}

#[test]
fn aux_fields_are_kept_as_text() {
    let bytes = rdb(&[
        &[RDB_OPCODE_AUX, 3, b'k', b'e', b'y', 2, b'v', 0xff],
        &[RDB_TYPE_STRING, 1, b'a', 1, b'1'],
        &[RDB_OPCODE_AUX, 1, b'x', 1, b'y'],
    ]);
    let mut reader = RdbReader::new(Source::new(bytes)).unwrap();
    assert_eq!(reader.metadata().aux.get("key").unwrap(), "v\u{fffd}");
    assert!(reader.metadata().aux.get("x").is_none());
    while reader.next().is_some() {}
    assert_eq!(reader.metadata().aux.get("x").unwrap(), "y");

    let bad = rdb(&[&[RDB_OPCODE_AUX, 1, 0xff, 1, b'v']]);
    let err = RdbReader::new(Source::new(bad)).err().unwrap();
    assert_eq!(err.message(), "corrupt RDB data: AUX key is not valid UTF-8");
}

#[test]
fn checksums_are_checked() {
    let mut bytes = b"VALKEY080".to_vec();
    bytes.extend_from_slice(&[RDB_TYPE_STRING, 1, b'a', 1, b'1', RDB_OPCODE_EOF]);
    let sum = valkey_rdb_tools::crc64::Crc64Table::new().update(0, &bytes);
    bytes.extend_from_slice(&sum.to_le_bytes());
    let mut reader = RdbReader::new(Source::new(bytes)).unwrap();
    assert!(!reader.crc_checked());
    while let Some(item) = reader.next() {
        item.unwrap();
    }
    assert!(reader.crc_checked());
}

#[test]
fn skipping_a_module_ends_where_reading_it_does() {
    let mut data = vec![2, 42, 5, 2, b'h', b'i', 4];
    data.extend_from_slice(&1.5f64.to_le_bytes());
    data.push(3);
    data.extend_from_slice(&2.5f32.to_le_bytes());
    data.push(0);
    data.push(77);
    let mut a = Cursor::new(Source::new(data.clone()));
    let mut b = Cursor::new(Source::new(data));
    let values = a.read_module_data().unwrap();
    assert_eq!(
        values[3],
        ModuleValue::Float(Single { bits: 2.5f32.to_bits() })
    );
    b.skip_module_data().unwrap();
    assert_eq!(a.read_u8().unwrap(), 77);
    assert_eq!(b.read_u8().unwrap(), 77);
}

#[test]
fn object_types_are_decoded_or_refused_by_name() {
    for t in 0..=30u8 {
        let known = logical_type_name(t) != "unknown";
        assert_eq!(is_object_type(t), t <= 7 || (9..=22).contains(&t));
        if is_object_type(t) {
            assert!(known, "{t}");
            // The end of the input or a corrupt value, never an unhandled type.
            let mut cursor = Cursor::new(Source::new(vec![]));
            let text = cursor.read_value(t).unwrap_err().message();
            assert!(!text.contains("no decoder"), "{t}: {text}");
        }
    }
}

#[test]
fn summaries_agree_with_exports() {
    let mut parts: Vec<u8> = Vec::new();
    parts.extend_from_slice(&[RDB_TYPE_STRING, 1, b'a', 1, b'1']);
    parts.extend_from_slice(&[RDB_TYPE_HASH, 1, b'h', 2, 1, b'f', 1, b'v', 1, b'g', 1, b'w']);
    parts.extend_from_slice(&[RDB_TYPE_LIST, 1, b'l', 3, 1, b'x', 1, b'y', 1, b'z']);
    parts.extend_from_slice(&[RDB_TYPE_MODULE_2, 1, b'm', 5, 2, 1, 2, 2, 0]);
    let bytes = rdb(&[&parts]);
    let mut reader = RdbReader::new(Source::new(bytes.clone())).unwrap();
    let summary = summarize_entries(&mut reader, &HeuristicSet::all()).unwrap();
    let reader = RdbReader::new(Source::new(bytes)).unwrap().with_max_key_elements(2);
    let mut iter = ArrowBatcher::new(BatcherConfig::default()).process(reader);
    let mut batches = Vec::new();
    while let Some(item) = iter.next() {
        batches.push(item.unwrap());
    }
    for tag in TypeTag::all() {
        let counted = summary.totals.get(tag).map_or(0, |c| c.rows);
        assert_eq!(rows_of(&batches, tag) as u64, counted, "{tag:?}");
    }
    assert_eq!(summary.total_keys, 4);
}

#[test]
fn an_export_passes_validation() {
    let mut parts: Vec<u8> = Vec::new();
    parts.extend_from_slice(&[RDB_TYPE_STRING, 1, b'a', 1, b'1']);
    parts.extend_from_slice(&[RDB_TYPE_HASH, 1, b'h', 2, 1, b'f', 1, b'v', 1, b'g', 1, b'w']);
    let bytes = rdb(&[&parts]);
    let mut reader = RdbReader::new(Source::new(bytes.clone())).unwrap();
    let summary = summarize_entries(&mut reader, &HeuristicSet::all()).unwrap();
    let reader = RdbReader::new(Source::new(bytes)).unwrap();
    let mut iter = ArrowBatcher::new(BatcherConfig::default()).process(reader);
    let mut counts: TagMap<u64> = TagMap::new();
    while let Some(item) = iter.next() {
        let batch = item.unwrap();
        let rows = counts.get(batch.tag).unwrap_or(0) + batch.batch.inner.num_rows() as u64;
        counts.insert(batch.tag, rows);
    }
    assert!(verdict(&compare(&summary.totals, &counts)).is_ok());
    counts.insert(TypeTag::Hash, 1);
    assert!(verdict(&compare(&summary.totals, &counts)).is_err());
}

#[test]
fn a_filter_by_types_keeps_their_rows() {
    let rows = |filter: Option<&EntryFilter>| {
        let entries: Vec<RdbEntry> = one_of_each()
            .into_iter()
            .filter(|e| filter.map_or(true, |f| f.matches(e)))
            .collect();
        let batches: Vec<TypedBatch> =
            drain(ArrowBatcher::new(BatcherConfig::default()).process(queue(entries)))
                .into_iter()
                .map(|b| b.unwrap())
                .collect();
        batches
    };
    let all = rows(None);
    for tag in TypeTag::all() {
        let mut tags = TagSet::new();
        tags.insert(tag);
        let filter = EntryFilter {
            db: None,
            type_tags: Some(tags),
            key_pattern: None,
            heuristics: HeuristicSet::all(),
        };
        let some = rows(Some(&filter));
        assert_eq!(rows_of(&some, tag), rows_of(&all, tag), "{tag:?}");
    }
}

#[test]
fn options_of_the_bindings() {
    let config = make_batcher_config(10, None, Some(5), "geo").unwrap();
    assert_eq!((config.batch_size, config.batch_bytes), (10, Some(64 * 1024 * 1024)));
    assert_eq!(config.max_entry_bytes, Some(5));
    assert_eq!(make_batcher_config(0, None, None, "x").unwrap_err(), "batch_size must be > 0");
    assert!(make_batcher_config(1, None, None, "x").is_err());
    assert!(check_row_group_size(1).is_ok());
    assert_eq!(check_row_group_size(0).unwrap_err(), "row_group_size must be > 0");
}

#[test]
fn exceptions_of_the_bindings() {
    let io = || IoError::Failed("gone".to_string());
    assert_eq!(
        rdb_to_py_err(&RdbError::Io(io())),
        (ExceptionKind::OsError, "gone".to_string())
    );
    assert_eq!(
        rdb_to_py_err(&RdbError::UnsupportedVersion(99)),
        (ExceptionKind::ValueError, "unsupported RDB version: 99".to_string())
    );
    assert_eq!(
        arrow_to_py_err(&ArrowConvertError::Io(io())),
        (ExceptionKind::OsError, "gone".to_string())
    );
    assert_eq!(
        arrow_to_py_err(&ArrowConvertError::Parser(RdbError::UnknownType(9))),
        (ExceptionKind::ValueError, "unknown RDB type code: 9".to_string())
    );
    assert_eq!(
        arrow_to_py_err(&ArrowConvertError::Arrow("bad".to_string())),
        (ExceptionKind::RuntimeError, "Arrow error: bad".to_string())
    );
}
