//! Writing batches, and the metadata of files.

use arrow::array::RecordBatch;
use arrow::ipc::reader::FileReader as IpcFileReader;
use arrow::ipc::writer::FileWriter as IpcFileWriter;
use parquet::arrow::arrow_reader::ParquetRecordBatchReaderBuilder;
use parquet::arrow::ArrowWriter;
use std::cell::RefCell;
use std::collections::BTreeMap;
use std::io::Write;
use std::sync::Mutex;
use valkey_rdb_tools::batcher::TypedBatch;
use valkey_rdb_tools::builders::BatchBuilder;
use valkey_rdb_tools::error::ArrowConvertError;
use valkey_rdb_tools::schema::{schema_for, Heuristic, HeuristicSet, TypeTag};
use valkey_rdb_tools::types::{HashField, IoError, RdbEntry, RdbError, RdbMetadata, RdbValue};
use valkey_rdb_tools::writer::{
    metadata_from_rdb, parse_compression, Compression, ParquetConfig, WriterAction, WriterPipeline,
    RDB_EXPORTED_BY_KEY, RDB_EXPORTED_BY_VALUE, RDB_HEURISTICS_KEY,
};

type Items = Vec<Result<TypedBatch, ArrowConvertError>>;

fn batch_of(tag: TypeTag, entries: Vec<RdbEntry>) -> TypedBatch {
    let mut builder = BatchBuilder::new(tag);
    for entry in &entries {
        builder.push(entry).unwrap();
    }
    TypedBatch { tag, batch: builder.finish().unwrap() }
}

fn make_string_batch(count: usize) -> TypedBatch {
    let entries = (0..count)
        .map(|i| {
            RdbEntry::new(
                format!("key{i}").into_bytes(),
                RdbValue::String(format!("val{i}").into_bytes()),
                0,
            )
        })
        .collect();
    batch_of(TypeTag::String, entries)
}

fn list_batch(count: usize) -> TypedBatch {
    let entries = (0..count)
        .map(|i| {
            RdbEntry::new(
                format!("lk{i}").into_bytes(),
                RdbValue::List(vec![b"a".to_vec(), b"b".to_vec()]),
                1, // RDB_TYPE_LIST
            )
        })
        .collect();
    batch_of(TypeTag::List, entries)
}

fn hash_batch() -> TypedBatch {
    let fields = vec![HashField {
        field: b"f".to_vec(),
        value: b"v".to_vec(),
        expiry_ms: None,
    }];
    let entry = RdbEntry::new(b"h".to_vec(), RdbValue::Hash(fields), 4); // RDB_TYPE_HASH
    batch_of(TypeTag::Hash, vec![entry])
}

/// Does what the pipeline says, with the given ways to open, write and close.
fn run<W>(
    batches: Items,
    mut open: impl FnMut(TypeTag) -> Result<W, ArrowConvertError>,
    mut write: impl FnMut(&mut W, &RecordBatch) -> Result<(), ArrowConvertError>,
    mut close: impl FnMut(TypeTag, W) -> Result<(), ArrowConvertError>,
) -> Result<(), ArrowConvertError> {
    let mut source = batches.into_iter();
    let mut pipeline = WriterPipeline::new();
    let mut writers: BTreeMap<TypeTag, W> = BTreeMap::new();
    let mut current: Option<TypedBatch> = None;
    let mut action = WriterAction::Fetch;
    loop {
        action = match action {
            WriterAction::Fetch => match source.next() {
                None => pipeline.fetched(Ok(None)),
                Some(Err(e)) => pipeline.fetched(Err(e)),
                Some(Ok(batch)) => {
                    let tag = batch.tag;
                    current = Some(batch);
                    pipeline.fetched(Ok(Some(tag)))
                }
            },
            WriterAction::Open(tag) => match open(tag) {
                Ok(w) => {
                    writers.insert(tag, w);
                    pipeline.opened(tag, Ok(()))
                }
                Err(e) => pipeline.opened(tag, Err(e)),
            },
            WriterAction::Write(tag) => {
                let batch = current.take().unwrap();
                pipeline.written(write(writers.get_mut(&tag).unwrap(), &batch.batch.inner))
            }
            WriterAction::Close(tag) => {
                let writer = writers.remove(&tag).unwrap();
                pipeline.closed(close(tag, writer))
            }
            WriterAction::Done => return pipeline.outcome(),
        };
    }
}

fn arrow_error(e: arrow::error::ArrowError) -> ArrowConvertError {
    ArrowConvertError::Arrow(e.to_string())
}

fn parquet_error(e: parquet::errors::ParquetError) -> ArrowConvertError {
    ArrowConvertError::Parquet(e.to_string())
}

/// Writer that drops its bytes into a shared sink, by type.
struct SinkWriter<'a> {
    tag: TypeTag,
    sink: &'a Mutex<BTreeMap<TypeTag, Vec<u8>>>,
    buf: Vec<u8>,
}

impl Write for SinkWriter<'_> {
    fn write(&mut self, b: &[u8]) -> std::io::Result<usize> {
        self.buf.write(b)
    }

    fn flush(&mut self) -> std::io::Result<()> {
        Ok(())
    }
}

impl Drop for SinkWriter<'_> {
    fn drop(&mut self) {
        let mut sink = self.sink.lock().unwrap_or_else(|poisoned| poisoned.into_inner());
        sink.insert(self.tag, std::mem::take(&mut self.buf));
    }
}

#[test]
fn write_parquet_batches_per_tag() {
    let config = ParquetConfig {
        compression: Compression::Uncompressed,
        max_row_group_size: 1024,
        ..Default::default()
    };
    let sink: Mutex<BTreeMap<TypeTag, Vec<u8>>> = Mutex::new(BTreeMap::new());
    let batches: Items = vec![Ok(make_string_batch(5)), Ok(list_batch(3))];
    let props = parquet::file::properties::WriterProperties::builder()
        .set_compression(parquet::basic::Compression::UNCOMPRESSED)
        .set_max_row_group_size(config.max_row_group_size)
        .build();

    run(
        batches,
        |tag| {
            let raw = SinkWriter { tag, sink: &sink, buf: Vec::new() };
            let schema = std::sync::Arc::new(schema_for(tag));
            ArrowWriter::try_new(raw, schema, Some(props.clone())).map_err(parquet_error)
        },
        |w, batch| w.write(batch).map_err(parquet_error),
        |_, w| w.close().map(|_| ()).map_err(parquet_error),
    )
    .unwrap();

    let out = sink.into_inner().unwrap();
    assert_eq!(
        out.keys().copied().collect::<Vec<_>>(),
        vec![TypeTag::String, TypeTag::List],
        "factory invoked once per tag and closed in TypeTag order"
    );

    let string_read: Vec<_> = ParquetRecordBatchReaderBuilder::try_new(bytes::Bytes::from(
        out[&TypeTag::String].clone(),
    ))
    .unwrap()
    .build()
    .unwrap()
    .collect::<Result<Vec<_>, _>>()
    .unwrap();
    assert_eq!(string_read[0].num_rows(), 5);

    let list_read: Vec<_> = ParquetRecordBatchReaderBuilder::try_new(bytes::Bytes::from(
        out[&TypeTag::List].clone(),
    ))
    .unwrap()
    .build()
    .unwrap()
    .collect::<Result<Vec<_>, _>>()
    .unwrap();
    // 3 list entries × 2 elements each = 6 exploded rows
    assert_eq!(list_read[0].num_rows(), 6);
}

/// When the source fails partway through, writers that are open are still finished.
#[test]
fn ipc_finalizes_writers_even_on_upstream_error() {
    let sink: Mutex<BTreeMap<TypeTag, Vec<u8>>> = Mutex::new(BTreeMap::new());
    let batches: Items = vec![
        Ok(make_string_batch(2)),
        Err(ArrowConvertError::Parser(RdbError::CorruptData(
            "synthetic upstream error".into(),
        ))),
    ];

    let result = run(
        batches,
        |tag| {
            let raw = SinkWriter { tag, sink: &sink, buf: Vec::new() };
            IpcFileWriter::try_new(raw, &schema_for(tag)).map_err(arrow_error)
        },
        |w, batch| w.write(batch).map_err(arrow_error),
        |_, mut w| w.finish().map_err(arrow_error),
    );
    assert!(result.is_err(), "upstream error must still propagate");

    let out = sink.into_inner().unwrap();
    assert!(
        out.contains_key(&TypeTag::String),
        "writer must have been opened and its buffer flushed to sink"
    );

    let reader = IpcFileReader::try_new(std::io::Cursor::new(out[&TypeTag::String].clone()), None)
        .expect("IPC file should be properly finalized even though the stream errored");
    let read_batches: Vec<_> = reader.collect::<Result<Vec<_>, _>>().unwrap();
    assert_eq!(read_batches[0].num_rows(), 2);
}

#[test]
fn ipc_roundtrip() {
    let batch = make_string_batch(3);
    let mut buf = Vec::new();
    {
        let schema = schema_for(TypeTag::String);
        let mut writer = IpcFileWriter::try_new(&mut buf, &schema).unwrap();
        writer.write(&batch.batch.inner).unwrap();
        writer.finish().unwrap();
    }

    let cursor = std::io::Cursor::new(buf);
    let reader = IpcFileReader::try_new(cursor, None).unwrap();
    let read_batches: Vec<_> = reader.collect::<Result<Vec<_>, _>>().unwrap();
    assert_eq!(read_batches.len(), 1);
    assert_eq!(read_batches[0].num_rows(), 3);
}

/// Writer that drops its bytes into a shared sink, by type, on one thread.
struct CellSink<'a> {
    tag: TypeTag,
    sink: &'a RefCell<BTreeMap<TypeTag, Vec<u8>>>,
    buf: Vec<u8>,
}

impl Write for CellSink<'_> {
    fn write(&mut self, b: &[u8]) -> std::io::Result<usize> {
        self.buf.write(b)
    }

    fn flush(&mut self) -> std::io::Result<()> {
        Ok(())
    }
}

impl Drop for CellSink<'_> {
    fn drop(&mut self) {
        self.sink.borrow_mut().insert(self.tag, std::mem::take(&mut self.buf));
    }
}

#[test]
fn write_csv_roundtrip() {
    let sink: RefCell<BTreeMap<TypeTag, Vec<u8>>> = RefCell::new(BTreeMap::new());
    let batches: Items = vec![
        Ok(make_string_batch(3)),
        Ok(make_string_batch(2)), // two string batches collapse into one writer
    ];

    run(
        batches,
        |tag| Ok(arrow_csv::writer::Writer::new(CellSink { tag, sink: &sink, buf: Vec::new() })),
        |w, batch| w.write(batch).map_err(arrow_error),
        |_, w| {
            w.into_inner()
                .flush()
                .map_err(|e| ArrowConvertError::Io(IoError::Failed(e.to_string())))
        },
    )
    .unwrap();

    let out = sink.into_inner();
    let bytes = out.get(&TypeTag::String).expect("write_csv must emit a String file");
    let text = std::str::from_utf8(bytes).unwrap();
    let lines: Vec<&str> = text.lines().collect();
    // Header + 5 data rows (3 + 2, single writer reused across batches).
    assert_eq!(
        lines.len(),
        1 + 5,
        "expected header + 5 rows, got {} lines: {text}",
        lines.len()
    );
    assert!(
        lines[0].contains("db") && lines[0].contains("key"),
        "header should contain expected column names"
    );
}

#[test]
fn write_json_roundtrip() {
    let sink: RefCell<BTreeMap<TypeTag, Vec<u8>>> = RefCell::new(BTreeMap::new());
    let batches: Items = vec![Ok(make_string_batch(2)), Ok(hash_batch())];

    run(
        batches,
        |tag| {
            let raw = CellSink { tag, sink: &sink, buf: Vec::new() };
            Ok(arrow_json::writer::LineDelimitedWriter::new(raw))
        },
        |w, batch| w.write(batch).map_err(arrow_error),
        |_, mut w| w.finish().map_err(arrow_error),
    )
    .unwrap();

    let out = sink.into_inner();
    let string_bytes = out.get(&TypeTag::String).expect("write_json must emit a String file");
    let string_text = std::str::from_utf8(string_bytes).unwrap();
    let string_lines: Vec<&str> = string_text.lines().filter(|l| !l.is_empty()).collect();
    assert_eq!(string_lines.len(), 2, "expected 2 JSON rows: {string_text}");
    for line in &string_lines {
        let v: serde_json::Value = serde_json::from_str(line)
            .unwrap_or_else(|e| panic!("each line should parse as JSON ({e}): {line}"));
        assert!(v.get("db").is_some(), "db column expected in: {line}");
    }

    let hash_bytes = out.get(&TypeTag::Hash).expect("write_json must emit a Hash file");
    let hash_text = std::str::from_utf8(hash_bytes).unwrap();
    let hash_lines: Vec<&str> = hash_text.lines().filter(|l| !l.is_empty()).collect();
    assert_eq!(hash_lines.len(), 1, "hash payload has 1 field → 1 row");
}

#[test]
fn outputs_close_in_type_order_and_the_first_error_counts() {
    let closed: RefCell<Vec<TypeTag>> = RefCell::new(Vec::new());
    let batches: Items = vec![Ok(hash_batch()), Ok(list_batch(1)), Ok(make_string_batch(1))];
    let result = run(
        batches,
        |_| Ok(()),
        |_, _| Ok(()),
        |tag, _| {
            closed.borrow_mut().push(tag);
            if tag == TypeTag::String {
                Ok(())
            } else {
                Err(ArrowConvertError::Arrow(tag.as_str().to_string()))
            }
        },
    );
    assert_eq!(*closed.borrow(), vec![TypeTag::String, TypeTag::List, TypeTag::Hash]);
    assert_eq!(result.unwrap_err().message(), "Arrow error: list");
}

#[test]
fn a_failed_write_goes_before_a_failed_close() {
    let batches: Items = vec![Ok(make_string_batch(1)), Ok(list_batch(1))];
    let result = run(
        batches,
        |_| Ok(()),
        |_, _| Err(ArrowConvertError::Io(IoError::Failed("disk full".into()))),
        |_, _| Err(ArrowConvertError::Arrow("late".into())),
    );
    assert_eq!(result.unwrap_err().message(), "I/O error: disk full");
}

#[test]
fn a_failed_open_closes_what_is_open() {
    let mut closed = Vec::new();
    let batches: Items = vec![Ok(make_string_batch(1)), Ok(list_batch(1))];
    let result = run(
        batches,
        |tag| {
            if tag == TypeTag::String {
                Ok(())
            } else {
                Err(ArrowConvertError::Parquet("no".into()))
            }
        },
        |_, _| Ok(()),
        |tag, _| {
            closed.push(tag);
            Ok(())
        },
    );
    assert_eq!(closed, vec![TypeTag::String]);
    assert_eq!(result.unwrap_err().message(), "Parquet error: no");
}

#[test]
fn compression_names() {
    assert_eq!(parse_compression("zstd"), Ok(Compression::Zstd));
    assert_eq!(parse_compression("Snappy"), Ok(Compression::Snappy));
    assert_eq!(parse_compression("lz4"), Ok(Compression::Lz4));
    assert_eq!(parse_compression("lz4-raw"), Ok(Compression::Lz4Raw));
    assert_eq!(parse_compression("LZ4_RAW"), Ok(Compression::Lz4Raw));
    assert_eq!(parse_compression("gzip"), Ok(Compression::Gzip));
    assert_eq!(parse_compression("none"), Ok(Compression::Uncompressed));
    assert_eq!(
        parse_compression("Brotli").unwrap_err(),
        "unknown compression: 'brotli'. Valid: zstd, snappy, lz4, lz4-raw, gzip, none"
    );
}

#[test]
fn parquet_defaults() {
    let config = ParquetConfig::default();
    assert_eq!(config.compression, Compression::Zstd);
    assert_eq!(config.max_row_group_size, 1_048_576);
    assert_eq!(config.file_metadata.len(), 0);
}

#[test]
fn metadata_has_aux_fields_provenance_and_heuristics() {
    let mut meta = RdbMetadata::default();
    meta.aux.insert("valkey-ver".to_string(), "9.0.1".to_string());
    meta.aux.insert("exported_by".to_string(), "someone else".to_string());
    let all = metadata_from_rdb(&meta, &HeuristicSet::all());
    assert_eq!(all.len(), 3);
    assert_eq!(all.get("rdb.valkey-ver").unwrap(), "9.0.1");
    assert_eq!(all.get(RDB_EXPORTED_BY_KEY).unwrap(), RDB_EXPORTED_BY_VALUE);
    let text = all.get(RDB_HEURISTICS_KEY).unwrap();
    assert_eq!(text, "geo");
    assert_eq!(Heuristic::parse_set(text).unwrap(), HeuristicSet::all());
    assert!(all.get("valkey-ver").is_none());
    let none = metadata_from_rdb(&RdbMetadata::default(), &HeuristicSet::none());
    assert_eq!(none.get(RDB_HEURISTICS_KEY).unwrap(), "none");
}
