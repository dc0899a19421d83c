//! Whole files: what is read back, sections that are passed over, and keys in chunks.

use std::cell::Cell;
use std::rc::Rc;

use valkey_rdb_tools::batcher::{ArrowBatcher, BatcherConfig, TypedBatch};
use valkey_rdb_tools::crc64::Crc64Table;
use valkey_rdb_tools::opcodes::{
    RDB_OPCODE_AUX, RDB_OPCODE_EOF, RDB_OPCODE_EXPIRETIME_MS, RDB_OPCODE_FREQ,
    RDB_OPCODE_FUNCTION2, RDB_OPCODE_IDLE, RDB_OPCODE_MODULE_AUX, RDB_OPCODE_RESIZEDB,
    RDB_OPCODE_SELECTDB, RDB_OPCODE_SLOT_IMPORT, RDB_OPCODE_SLOT_INFO, RDB_TYPE_HASH,
    RDB_TYPE_HASH_2, RDB_TYPE_HASH_ZIPMAP, RDB_TYPE_LIST, RDB_TYPE_SET, RDB_TYPE_STRING,
    RDB_TYPE_ZSET, RDB_TYPE_ZSET_2,
};
use valkey_rdb_tools::reader::RdbReader;
use valkey_rdb_tools::schema::{HeuristicSet, TypeTag};
use valkey_rdb_tools::summarize::{summarize_entries, EntrySummary};
use valkey_rdb_tools::types::{Double, HashField, IoError, RdbEntry, RdbError, RdbValue};
use valkey_rdb_tools::wire::{ByteSource, Source, SourceV};

/// A file as the pieces that each start with an opcode.
fn pieces() -> Vec<Vec<u8>> {
    vec![
        vec![RDB_OPCODE_AUX, 1, b'x', 1, b'1'],
        vec![RDB_OPCODE_AUX, 1, b'y', 1, b'2'],
        vec![RDB_OPCODE_SELECTDB, 0],
        vec![RDB_TYPE_LIST, 1, b'l', 5, 1, b'a', 1, b'b', 1, b'c', 1, b'd', 1, b'e'],
        vec![RDB_OPCODE_EXPIRETIME_MS, 9, 0, 0, 0, 0, 0, 0, 0],
        vec![RDB_TYPE_SET, 1, b's', 3, 1, b'a', 1, b'b', 1, b'c'],
        vec![RDB_TYPE_HASH_ZIPMAP, 1, b'z', 2, 0, 0xff],
        vec![RDB_OPCODE_SELECTDB, 4],
        vec![RDB_TYPE_HASH, 1, b'h', 2, 1, b'f', 1, b'v', 1, b'g', 1, b'w'],
        vec![RDB_TYPE_ZSET, 1, b'q', 3, 1, b'a', 1, b'1', 1, b'b', 1, b'2', 1, b'c', 1, b'3'],
        vec![RDB_TYPE_LIST, 1, b'e', 0],
        vec![RDB_TYPE_STRING, 1, b't', 1, b'v'],
        vec![RDB_OPCODE_EOF, 0, 0, 0, 0, 0, 0, 0, 0],
    ]
}

fn file(parts: &[Vec<u8>]) -> Vec<u8> {
    let mut data = b"VALKEY080".to_vec();
    for p in parts {
        data.extend_from_slice(p);
    }
    data
}

fn reader(bytes: &[u8], max: usize) -> RdbReader<Source> {
    let reader = RdbReader::new(Source::new(bytes.to_vec())).unwrap();
    if max == 0 {
        reader.without_chunking()
    } else {
        reader.with_max_key_elements(max)
    }
}

fn items(bytes: &[u8], max: usize) -> Vec<Result<RdbEntry, RdbError>> {
    let mut reader = reader(bytes, max);
    let mut out = Vec::new();
    while let Some(item) = reader.next() {
        out.push(item);
    }
    out
}

fn shown(items: &[Result<RdbEntry, RdbError>]) -> Vec<String> {
    items.iter().map(|i| format!("{i:?}")).collect()
}

#[test]
fn sections_leave_the_entries_as_they_are() {
    let sections: Vec<Vec<u8>> = vec![
        vec![RDB_OPCODE_RESIZEDB, 9, 0x41, 2],
        vec![RDB_OPCODE_FUNCTION2, 4, b'c', b'o', b'd', b'e'],
        vec![RDB_OPCODE_MODULE_AUX, 7, 2, 1, 2, 5, 5, 1, b'm', 0],
        vec![RDB_OPCODE_SLOT_INFO, 1, 2, 3],
        vec![RDB_OPCODE_SLOT_IMPORT, 3, b'j', b'o', b'b', 2, 1, 2, 3, 4],
    ];
    let parts = pieces();
    for max in [0, 1, 2, 9] {
        let before = items(&file(&parts), max);
        assert!(before.iter().filter(|i| i.is_err()).count() == 1);
        for section in &sections {
            for place in 0..parts.len() {
                let mut more = parts.clone();
                more.insert(place, section.clone());
                assert_eq!(shown(&items(&file(&more), max)), shown(&before), "{section:?} {place}");
            }
        }
    }
}

fn joined(a: RdbValue, b: RdbValue) -> RdbValue {
    match (a, b) {
        (RdbValue::List(mut x), RdbValue::List(y)) => {
            x.extend(y);
            RdbValue::List(x)
        }
        (RdbValue::UnorderedSet(mut x), RdbValue::UnorderedSet(y)) => {
            x.extend(y);
            RdbValue::UnorderedSet(x)
        }
        (RdbValue::SortedSet(mut x), RdbValue::SortedSet(y)) => {
            x.extend(y);
            RdbValue::SortedSet(x)
        }
        (RdbValue::Hash(mut x), RdbValue::Hash(y)) => {
            x.extend(y);
            RdbValue::Hash(x)
        }
        (a, b) => panic!("{a:?} {b:?}"),
    }
}

fn size(v: &RdbValue) -> usize {
    match v {
        RdbValue::List(x) => x.len(),
        RdbValue::UnorderedSet(x) => x.len(),
        RdbValue::SortedSet(x) => x.len(),
        RdbValue::Hash(x) => x.len(),
        _ => 0,
    }
}

#[test]
fn chunks_rejoin_to_the_whole_file() {
    let bytes = file(&pieces());
    let whole = items(&bytes, 0);
    assert_eq!(whole.len(), 7);
    for item in whole.iter().flatten() {
        assert_eq!((item.total_elements, item.element_offset), (None, None));
    }
    for max in 1..7 {
        let mut rejoined: Vec<Result<RdbEntry, RdbError>> = Vec::new();
        for item in items(&bytes, max) {
            match item {
                Ok(e) if e.element_offset.unwrap_or(0) > 0 => {
                    let f = rejoined.pop().unwrap().unwrap();
                    assert_eq!(e.element_offset, Some(size(&f.value) as u64));
                    assert_eq!(
                        (e.db, &e.key, e.type_code, e.expiry_ms),
                        (f.db, &f.key, f.type_code, f.expiry_ms)
                    );
                    let f = f.clone();
                    rejoined.push(Ok(RdbEntry { value: joined(f.value, e.value), ..f }));
                }
                Ok(e) => rejoined.push(Ok(e.with_chunking(None, None))),
                Err(e) => rejoined.push(Err(e)),
            }
        }
        assert_eq!(shown(&rejoined), shown(&whole), "{max}");
    }
}

fn summary(bytes: &[u8], max: usize) -> EntrySummary {
    summarize_entries(&mut reader(bytes, max), &HeuristicSet::all()).unwrap()
}

#[test]
fn chunking_keeps_the_summary() {
    let bytes = file(&pieces());
    let whole = summary(&bytes, 0);
    assert_eq!(whole.total_keys, 6);
    for max in 1..7 {
        let cut = summary(&bytes, max);
        assert_eq!(cut.total_keys, whole.total_keys);
        assert_eq!(cut.per_db_keys, whole.per_db_keys);
        assert_eq!(
            cut.per_db.keys().collect::<Vec<_>>(),
            whole.per_db.keys().collect::<Vec<_>>()
        );
        for tag in TypeTag::all() {
            if tag != TypeTag::Geo {
                assert_eq!(cut.totals.get(tag), whole.totals.get(tag));
                for db in [0, 4] {
                    assert_eq!(cut.per_db[&db].get(tag), whole.per_db[&db].get(tag));
                }
            }
        }
    }
    let list = whole.totals.get(TypeTag::List).unwrap();
    assert_eq!((list.keys, list.rows), (2, 6));
}

/// Bytes that come a few at a time, and then a failure.
struct Trickle {
    bytes: Vec<u8>,
    step: usize,
}

impl ByteSource for Trickle {
    fn unread(&self) -> SourceV {
        unreachable!("never called")
    }

    fn next_bytes(&mut self) -> Result<Vec<u8>, IoError> {
        if self.bytes.is_empty() {
            return Err(IoError::Failed("unplugged".to_string()));
        }
        let n = self.step.min(self.bytes.len());
        let rest = self.bytes.split_off(n);
        Ok(std::mem::replace(&mut self.bytes, rest))
    }
}

#[test]
fn it_does_not_matter_in_what_steps_bytes_come() {
    let mut bytes = file(&pieces());
    let crc = Crc64Table::new().update(0, &bytes[..bytes.len() - 8]);
    let n = bytes.len();
    bytes[n - 8..].copy_from_slice(&crc.to_le_bytes());
    let whole = items(&bytes, 0);
    for step in [1, 2, 3, 7, 50, 1000] {
        let mut reader =
            RdbReader::new(Trickle { bytes: bytes.clone(), step }).unwrap().without_chunking();
        let mut out = Vec::new();
        while let Some(item) = reader.next() {
            out.push(item);
        }
        assert_eq!(shown(&out), shown(&whole));
        assert!(reader.crc_checked());
    }
    // What a read past the end reports is what the source reports.
    let mut cut = bytes.clone();
    cut.truncate(n - 20);
    let mut reader = RdbReader::new(Trickle { bytes: cut.clone(), step: 5 }).unwrap();
    let mut last = reader.next();
    while let Some(Ok(_)) | Some(Err(RdbError::UnknownType(_))) = last {
        last = reader.next();
    }
    assert!(matches!(last, Some(Err(RdbError::Io(IoError::Failed(ref m)))) if m == "unplugged"));
    assert!(reader.next().is_none());
    let end = IoError::Failed("gone".to_string());
    let mut reader = RdbReader::new(Source::ending(cut, end)).unwrap();
    let mut last = reader.next();
    while let Some(Ok(_)) | Some(Err(RdbError::UnknownType(_))) = last {
        last = reader.next();
    }
    assert!(matches!(last, Some(Err(RdbError::Io(IoError::Failed(ref m)))) if m == "gone"));
}

fn string_text(s: &[u8]) -> Vec<u8> {
    assert!(s.len() < 64);
    let mut out = vec![s.len() as u8];
    out.extend_from_slice(s);
    out
}

/// An entry in plain form.
fn entry_text(e: &RdbEntry) -> Vec<u8> {
    let mut out = vec![RDB_OPCODE_SELECTDB, e.db as u8];
    if let Some(ms) = e.expiry_ms {
        out.push(RDB_OPCODE_EXPIRETIME_MS);
        out.extend_from_slice(&ms.to_le_bytes());
    }
    if let Some(secs) = e.lru_idle_secs {
        out.extend_from_slice(&[RDB_OPCODE_IDLE, secs as u8]);
    }
    if let Some(n) = e.lfu_frequency {
        out.extend_from_slice(&[RDB_OPCODE_FREQ, n]);
    }
    out.push(e.type_code);
    out.extend(string_text(&e.key));
    if !matches!(e.value, RdbValue::String(_)) {
        out.push(size(&e.value) as u8);
    }
    match &e.value {
        RdbValue::String(v) => out.extend(string_text(v)),
        RdbValue::List(x) | RdbValue::UnorderedSet(x) => {
            for v in x {
                out.extend(string_text(v));
            }
        }
        RdbValue::SortedSet(x) => {
            for (m, d) in x {
                out.extend(string_text(m));
                out.extend_from_slice(&d.bits.to_le_bytes());
            }
        }
        RdbValue::Hash(x) => {
            for f in x {
                out.extend(string_text(&f.field));
                out.extend(string_text(&f.value));
                if e.type_code == RDB_TYPE_HASH_2 {
                    out.extend_from_slice(&f.expiry_ms.unwrap_or(-1).to_le_bytes());
                }
            }
        }
        other => panic!("{other:?}"),
    }
    out
}

fn written() -> Vec<RdbEntry> {
    let field = |f: &[u8], v: &[u8], expiry_ms: Option<i64>| HashField {
        field: f.to_vec(),
        value: v.to_vec(),
        expiry_ms,
    };
    let score = |x: f64| Double { bits: x.to_bits() };
    let list = RdbValue::List(vec![b"a".to_vec(), vec![], b"ccc".to_vec()]);
    let set = RdbValue::UnorderedSet(vec![b"x".to_vec(), b"y".to_vec()]);
    let zset = RdbValue::SortedSet(vec![(b"m".to_vec(), score(-0.5)), (vec![], score(7.0))]);
    let hash = RdbValue::Hash(vec![field(b"f", b"v", Some(-5)), field(b"g", b"", None)]);
    let plain = RdbValue::Hash(vec![field(b"f", b"v", None)]);
    let entry = |key: &[u8], value: RdbValue, t: u8| RdbEntry::new(key.to_vec(), value, t);
    vec![
        RdbEntry {
            expiry_ms: Some(-1),
            lru_idle_secs: Some(9),
            lfu_frequency: Some(255),
            ..entry(b"s", RdbValue::String(b"v".to_vec()), RDB_TYPE_STRING)
        },
        entry(b"l", list, RDB_TYPE_LIST).with_db(3),
        entry(b"u", set, RDB_TYPE_SET).with_db(3),
        RdbEntry { expiry_ms: Some(1 << 40), ..entry(b"z", zset, RDB_TYPE_ZSET_2) },
        entry(b"h", hash, RDB_TYPE_HASH_2),
        entry(b"", plain, RDB_TYPE_HASH).with_db(1),
        entry(b"e", RdbValue::List(vec![]), RDB_TYPE_LIST),
    ]
}

#[test]
fn files_read_back() {
    let entries = written();
    let mut parts: Vec<Vec<u8>> = entries.iter().map(entry_text).collect();
    parts.push(vec![RDB_OPCODE_EOF, 0, 0, 0, 0, 0, 0, 0, 0]);
    let read = items(&file(&parts), 0);
    let expected: Vec<Result<RdbEntry, RdbError>> = entries.into_iter().map(Ok).collect();
    assert_eq!(shown(&read), shown(&expected));
}

/// The one batch of each type.
fn exported(bytes: &[u8], max: usize) -> Vec<TypedBatch> {
    let config = BatcherConfig { heuristics: HeuristicSet::none(), ..Default::default() };
    let mut iter = ArrowBatcher::new(config).process(reader(bytes, max));
    let mut out = Vec::new();
    while let Some(batch) = iter.next() {
        out.push(batch.unwrap());
    }
    out
}

#[test]
fn chunking_keeps_the_rows() {
    let bytes = file(&pieces());
    let whole = exported(&bytes, 0);
    assert_eq!(whole.len(), 5);
    for max in 1..7 {
        let cut = exported(&bytes, max);
        assert_eq!(cut.len(), whole.len());
        for (a, b) in cut.iter().zip(&whole) {
            assert_eq!(a.tag, b.tag);
            assert_eq!(a.batch.inner, b.batch.inner);
        }
    }
}

/// Bytes that come at once, with a count of how often they were asked for.
struct Counted {
    bytes: Vec<u8>,
    asked: Rc<Cell<usize>>,
}

impl ByteSource for Counted {
    fn unread(&self) -> SourceV {
        unreachable!("never called")
    }

    fn next_bytes(&mut self) -> Result<Vec<u8>, IoError> {
        self.asked.set(self.asked.get() + 1);
        if self.bytes.is_empty() {
            return Err(IoError::UnexpectedEof);
        }
        Ok(std::mem::take(&mut self.bytes))
    }
}

#[test]
fn nothing_is_read_after_the_last_item() {
    let whole = file(&pieces());
    let mut cut = whole.clone();
    cut.truncate(whole.len() - 4);
    for bytes in [whole, cut] {
        let asked = Rc::new(Cell::new(0));
        let mut reader = RdbReader::new(Counted { bytes, asked: asked.clone() }).unwrap();
        loop {
            match reader.next() {
                Some(Ok(_)) | Some(Err(RdbError::UnknownType(_))) => {}
                _ => break,
            }
        }
        let before = asked.get();
        for _ in 0..3 {
            assert!(reader.next().is_none());
        }
        assert_eq!(asked.get(), before);
    }
}
