//! Files as they are written in plain form, and that they are read back as what was written.

use crate::bytes;
use crate::chunks::{law_chunks_rejoin, limited, no_failure, rejoined, unmarked};
use crate::entries::EntryItem;
use crate::opcodes;
use crate::opcodes::{
    RDB_OPCODE_AUX, RDB_OPCODE_EOF, RDB_OPCODE_EXPIRETIME_MS, RDB_OPCODE_FREQ, RDB_OPCODE_IDLE,
    RDB_OPCODE_SELECTDB, RDB_TYPE_HASH, RDB_TYPE_HASH_2, RDB_TYPE_LIST, RDB_TYPE_SET,
    RDB_TYPE_STRING, RDB_TYPE_ZSET_2,
};
use crate::reader::{
    directive, element_count, entry_of, header_at, is_directive, key_step, law_step,
    lemma_directive_moves_on, opened, preamble, scan, step, upcoming_from, ReaderV, StepV,
};
use crate::sections::at_start;
use crate::text;
use crate::types::{
    Double, HashFieldV, IoErrorV, RdbEntryV, RdbErrorV, RdbHeader, RdbMagic, RdbValueV,
};
use crate::values;
use crate::wire;
use crate::wire::{length_text, stands_at, string_text, Parsed, SourceV, MAX_ALLOC_BYTES};
use vstd::prelude::*;

verus! {

// ---- Bytes in a row ----

/// What is written for items in a row.
pub open spec fn texts<T>(f: spec_fn(T) -> Seq<u8>, items: Seq<T>) -> Seq<u8>
    decreases items.len(),
{
    if items.len() == 0 {
        Seq::empty()
    } else {
        f(items[0]) + texts(f, items.drop_first())
    }
}

pub proof fn lemma_stands_apart(s: SourceV, p: int, a: Seq<u8>, b: Seq<u8>)
    requires
        stands_at(s, p, a + b),
    ensures
        stands_at(s, p, a),
        stands_at(s, p + a.len(), b),
{
    let here = s.bytes.subrange(p, p + (a + b).len());
    assert(s.bytes.subrange(p, p + a.len()) == here.take(a.len() as int));
    assert(here.take(a.len() as int) == a);
    assert(s.bytes.subrange(p + a.len(), p + a.len() + b.len()) == here.skip(a.len() as int));
    assert(here.skip(a.len() as int) == b);
}

/// A byte that was written is the byte that is read.
pub proof fn lemma_byte_reads_back(s: SourceV, p: int, b: u8)
    requires
        stands_at(s, p, seq![b]),
    ensures
        wire::byte(s, p) == Ok::<(u8, int), RdbErrorV>((b, p + 1)),
{
    assert(s.bytes.subrange(p, p + 1)[0] == s.bytes[p]);
}

pub proof fn lemma_u64_reads_back(s: SourceV, p: int, n: u64)
    requires
        stands_at(s, p, bytes::le_bytes(n as nat, 8)),
    ensures
        wire::u64_le(s, p) == Ok::<(u64, int), RdbErrorV>((n, p + 8)),
{
    bytes::lemma_le_bytes(n as nat, 8);
    let b = s.bytes.subrange(p, p + 8);
    assert(b.subrange(0, 8) == b);
    bytes::law_le_reads_back(b, 0, n as nat);
}

pub proof fn lemma_i64_reads_back(s: SourceV, p: int, n: i64)
    requires
        stands_at(s, p, i64_text(n)),
    ensures
        i64_text(n).len() == 8,
        wire::i64_le(s, p) == Ok::<(i64, int), RdbErrorV>((n, p + 8)),
{
    let u = bytes::unsigned(n as int, 0x8000_0000_0000_0000);
    bytes::lemma_le_bytes(u, 8);
    let b = s.bytes.subrange(p, p + 8);
    assert(b.subrange(0, 8) == b);
    bytes::law_le_reads_back(b, 0, u);
}

pub proof fn lemma_repeat_reads_back<T>(
    s: SourceV,
    g: spec_fn(int) -> Parsed<T>,
    f: spec_fn(T) -> Seq<u8>,
    p: int,
    items: Seq<T>,
)
    requires
        stands_at(s, p, texts(f, items)),
        forall|q: int, i: int|
            0 <= i < items.len() && stands_at(s, q, f(#[trigger] items[i])) ==> #[trigger] g(q)
                == Ok::<(T, int), RdbErrorV>((items[i], q + f(items[i]).len())),
    ensures
        wire::repeat(g, p, items.len()) == Ok::<(Seq<T>, int), RdbErrorV>(
            (items, p + texts(f, items).len()),
        ),
    decreases items.len(),
{
    if items.len() == 0 {
        assert(items == Seq::<T>::empty());
    } else {
        let rest = items.drop_first();
        let n = rest.len();
        lemma_stands_apart(s, p, f(items[0]), texts(f, rest));
        let q = p + f(items[0]).len();
        assert(g(p) == Ok::<(T, int), RdbErrorV>((items[0], q)));
        assert forall|x: int, i: int|
            0 <= i < rest.len() && stands_at(s, x, f(#[trigger] rest[i])) implies #[trigger] g(x)
            == Ok::<(T, int), RdbErrorV>((rest[i], x + f(rest[i]).len())) by {
            assert(rest[i] == items[i + 1]);
        }
        lemma_repeat_reads_back(s, g, f, q, rest);
        wire::lemma_repeat_split(g, p, 1, n);
        reveal_with_fuel(wire::repeat, 2);
        let one = Seq::<T>::empty().push(items[0]);
        assert(one + rest == items);
    }
}

// ---- Collections ----

/// A signed 64-bit number, the lowest byte first.
pub open spec fn i64_text(n: i64) -> Seq<u8> {
    bytes::le_bytes(bytes::unsigned(n as int, 0x8000_0000_0000_0000), 8)
}

/// What is written for a string.
pub open spec fn string_writer() -> spec_fn(Seq<u8>) -> Seq<u8> {
    |v: Seq<u8>| string_text(v)
}

/// What is written for a member and its binary score.
pub open spec fn member_writer() -> spec_fn((Seq<u8>, Double)) -> Seq<u8> {
    |m: (Seq<u8>, Double)| string_text(m.0) + bytes::le_bytes(m.1.bits as nat, 8)
}

/// What is written for a hash field, with an expiry or without; -1 stands for none.
pub open spec fn field_writer(with_expiry: bool) -> spec_fn(HashFieldV) -> Seq<u8> {
    |f: HashFieldV|
        string_text(f.field) + (string_text(f.value) + if with_expiry {
            i64_text(
                match f.expiry_ms {
                    Some(n) => n,
                    None => -1i64,
                },
            )
        } else {
            Seq::empty()
        })
}

/// Whether a field can be written: its strings are within the limit, and its expiry can be
/// told from none, or there is none.
pub open spec fn field_fits(f: HashFieldV, with_expiry: bool) -> bool {
    &&& f.field.len() <= MAX_ALLOC_BYTES
    &&& f.value.len() <= MAX_ALLOC_BYTES
    &&& if with_expiry {
        f.expiry_ms != Some(-1i64)
    } else {
        f.expiry_ms is None
    }
}

/// Whether a value can be written in the plain form of a type.
pub open spec fn fits(t: u8, v: RdbValueV) -> bool {
    match v {
        RdbValueV::String(x) => t == RDB_TYPE_STRING && x.len() <= MAX_ALLOC_BYTES,
        RdbValueV::List(x) => t == RDB_TYPE_LIST && x.len() <= MAX_ALLOC_BYTES && forall|i: int|
            0 <= i < x.len() ==> (#[trigger] x[i]).len() <= MAX_ALLOC_BYTES,
        RdbValueV::UnorderedSet(x) => t == RDB_TYPE_SET && x.len() <= MAX_ALLOC_BYTES && forall|
            i: int,
        |
            0 <= i < x.len() ==> (#[trigger] x[i]).len() <= MAX_ALLOC_BYTES,
        RdbValueV::SortedSet(x) => t == RDB_TYPE_ZSET_2 && x.len() <= MAX_ALLOC_BYTES && forall|
            i: int,
        |
            0 <= i < x.len() ==> (#[trigger] x[i]).0.len() <= MAX_ALLOC_BYTES,
        RdbValueV::Hash(x) => (t == RDB_TYPE_HASH || t == RDB_TYPE_HASH_2) && x.len()
            <= MAX_ALLOC_BYTES && forall|i: int|
            0 <= i < x.len() ==> field_fits(#[trigger] x[i], t == RDB_TYPE_HASH_2),
        _ => false,
    }
}

/// The elements of a collection, one by one.
pub open spec fn elements_text(t: u8, v: RdbValueV) -> Seq<u8> {
    match v {
        RdbValueV::List(x) => texts(string_writer(), x),
        RdbValueV::UnorderedSet(x) => texts(string_writer(), x),
        RdbValueV::SortedSet(x) => texts(member_writer(), x),
        RdbValueV::Hash(x) => texts(field_writer(t == RDB_TYPE_HASH_2), x),
        _ => Seq::empty(),
    }
}

proof fn lemma_strings_read_back(s: SourceV, p: int, x: Seq<Seq<u8>>)
    requires
        stands_at(s, p, texts(string_writer(), x)),
        forall|i: int| 0 <= i < x.len() ==> (#[trigger] x[i]).len() <= MAX_ALLOC_BYTES,
    ensures
        wire::repeat(values::string_fn(s), p, x.len()) == Ok::<(Seq<Seq<u8>>, int), RdbErrorV>(
            (x, p + texts(string_writer(), x).len()),
        ),
{
    let f = string_writer();
    let g = values::string_fn(s);
    assert forall|q: int, i: int|
        0 <= i < x.len() && stands_at(s, q, f(#[trigger] x[i])) implies #[trigger] g(q) == Ok::<
        (Seq<u8>, int),
        RdbErrorV,
    >((x[i], q + f(x[i]).len())) by {
        wire::law_string_reads_back(s, q, x[i]);
    }
    lemma_repeat_reads_back(s, g, f, p, x);
}

proof fn lemma_members_read_back(s: SourceV, p: int, x: Seq<(Seq<u8>, Double)>)
    requires
        stands_at(s, p, texts(member_writer(), x)),
        forall|i: int| 0 <= i < x.len() ==> (#[trigger] x[i]).0.len() <= MAX_ALLOC_BYTES,
    ensures
        wire::repeat(values::member_fn(s, true), p, x.len()) == Ok::<
            (Seq<(Seq<u8>, Double)>, int),
            RdbErrorV,
        >((x, p + texts(member_writer(), x).len())),
{
    let f = member_writer();
    let g = values::member_fn(s, true);
    assert forall|q: int, i: int|
        0 <= i < x.len() && stands_at(s, q, f(#[trigger] x[i])) implies #[trigger] g(q) == Ok::<
        ((Seq<u8>, Double), int),
        RdbErrorV,
    >((x[i], q + f(x[i]).len())) by {
        let name = string_text(x[i].0);
        let score = bytes::le_bytes(x[i].1.bits as nat, 8);
        bytes::lemma_le_bytes(x[i].1.bits as nat, 8);
        lemma_stands_apart(s, q, name, score);
        wire::law_string_reads_back(s, q, x[i].0);
        lemma_u64_reads_back(s, q + name.len(), x[i].1.bits);
    }
    lemma_repeat_reads_back(s, g, f, p, x);
}

proof fn lemma_field_reads_back(s: SourceV, q: int, f: HashFieldV, with_expiry: bool)
    requires
        field_fits(f, with_expiry),
        stands_at(s, q, field_writer(with_expiry)(f)),
    ensures
        values::field(s, q, with_expiry) == Ok::<(HashFieldV, int), RdbErrorV>(
            (f, q + field_writer(with_expiry)(f).len()),
        ),
{
    let name = string_text(f.field);
    let value = string_text(f.value);
    let ttl: i64 = match f.expiry_ms {
        Some(n) => n,
        None => -1i64,
    };
    let end = if with_expiry {
        i64_text(ttl)
    } else {
        Seq::empty()
    };
    lemma_stands_apart(s, q, name, value + end);
    lemma_stands_apart(s, q + name.len(), value, end);
    wire::law_string_reads_back(s, q, f.field);
    wire::law_string_reads_back(s, q + name.len(), f.value);
    if with_expiry {
        lemma_i64_reads_back(s, q + name.len() + value.len(), ttl);
    }
}

proof fn lemma_fields_read_back(s: SourceV, p: int, x: Seq<HashFieldV>, with_expiry: bool)
    requires
        stands_at(s, p, texts(field_writer(with_expiry), x)),
        forall|i: int| 0 <= i < x.len() ==> field_fits(#[trigger] x[i], with_expiry),
    ensures
        wire::repeat(values::field_fn(s, with_expiry), p, x.len()) == Ok::<
            (Seq<HashFieldV>, int),
            RdbErrorV,
        >((x, p + texts(field_writer(with_expiry), x).len())),
{
    let f = field_writer(with_expiry);
    let g = values::field_fn(s, with_expiry);
    assert forall|q: int, i: int|
        0 <= i < x.len() && stands_at(s, q, f(#[trigger] x[i])) implies #[trigger] g(q) == Ok::<
        (HashFieldV, int),
        RdbErrorV,
    >((x[i], q + f(x[i]).len())) by {
        lemma_field_reads_back(s, q, x[i], with_expiry);
    }
    lemma_repeat_reads_back(s, g, f, p, x);
}

/// The elements of a collection that were written one by one are the elements that are read.
pub proof fn law_elements_read_back(s: SourceV, t: u8, p: int, v: RdbValueV)
    requires
        fits(t, v),
        !(v is String),
        stands_at(s, p, elements_text(t, v)),
    ensures
        values::elements(s, t, p, element_count(v)) == Ok::<(RdbValueV, int), RdbErrorV>(
            (v, p + elements_text(t, v).len()),
        ),
{
    reveal(values::elements);
    match v {
        RdbValueV::List(x) => {
            lemma_strings_read_back(s, p, x);
        },
        RdbValueV::UnorderedSet(x) => {
            lemma_strings_read_back(s, p, x);
        },
        RdbValueV::SortedSet(x) => {
            lemma_members_read_back(s, p, x);
        },
        RdbValueV::Hash(x) => {
            lemma_fields_read_back(s, p, x, t == RDB_TYPE_HASH_2);
        },
        _ => {},
    }
}

/// A value: a string, or a number of elements and the elements.
pub open spec fn value_text(t: u8, v: RdbValueV) -> Seq<u8> {
    match v {
        RdbValueV::String(x) => string_text(x),
        _ => length_text(element_count(v) as u64) + elements_text(t, v),
    }
}

/// A value that was written in plain form is the value that is read.
pub proof fn law_value_reads_back(s: SourceV, t: u8, p: int, v: RdbValueV)
    requires
        fits(t, v),
        stands_at(s, p, value_text(t, v)),
    ensures
        values::value(s, t, p) == Ok::<(Option<RdbValueV>, int), RdbErrorV>(
            (Some(v), p + value_text(t, v).len()),
        ),
{
    match v {
        RdbValueV::String(x) => {
            wire::law_string_reads_back(s, p, x);
        },
        _ => {
            let n = element_count(v) as u64;
            lemma_stands_apart(s, p, length_text(n), elements_text(t, v));
            wire::law_length_reads_back(s, p, n);
            law_elements_read_back(s, t, p + length_text(n).len(), v);
        },
    }
}

// ---- Entries ----

/// The database of a key.
pub open spec fn db_text(db: u32) -> Seq<u8> {
    seq![RDB_OPCODE_SELECTDB] + length_text(db as u64)
}

/// The expiry of a key, if it has one.
pub open spec fn expiry_text(ms: Option<i64>) -> Seq<u8> {
    match ms {
        None => Seq::empty(),
        Some(n) => seq![RDB_OPCODE_EXPIRETIME_MS] + i64_text(n),
    }
}

/// The idle time of a key, if it is known.
pub open spec fn idle_text(secs: Option<u64>) -> Seq<u8> {
    match secs {
        None => Seq::empty(),
        Some(n) => seq![RDB_OPCODE_IDLE] + length_text(n),
    }
}

/// The access frequency of a key, if it is known.
pub open spec fn frequency_text(frequency: Option<u8>) -> Seq<u8> {
    match frequency {
        None => Seq::empty(),
        Some(n) => seq![RDB_OPCODE_FREQ] + seq![n],
    }
}

/// A key and its value.
pub open spec fn key_text(e: RdbEntryV) -> Seq<u8> {
    seq![e.type_code] + (string_text(e.key) + value_text(e.type_code, e.value))
}

/// An entry: what belongs to the key, the key and its value.
pub open spec fn entry_text(e: RdbEntryV) -> Seq<u8> {
    db_text(e.db) + (expiry_text(e.expiry_ms) + (idle_text(e.lru_idle_secs) + (frequency_text(
        e.lfu_frequency,
    ) + key_text(e))))
}

/// Whether an entry can be written in plain form: it is a whole key, and its strings are
/// within the limit.
pub open spec fn entry_fits(e: RdbEntryV) -> bool {
    e == unmarked(e) && e.key.len() <= MAX_ALLOC_BYTES && fits(e.type_code, e.value)
}

/// A directive is carried out on the way to the next key.
pub proof fn lemma_scan_directive(r: ReaderV, b: u8, r2: ReaderV)
    requires
        r.pos >= 0,
        wire::byte(r.source, r.pos) == Ok::<(u8, int), RdbErrorV>((b, r.pos + 1)),
        is_directive(b),
        directive(r.at(r.pos + 1), b) == Ok::<ReaderV, RdbErrorV>(r2),
    ensures
        scan(r) == scan(r2),
{
    lemma_directive_moves_on(r.at(r.pos + 1), b);
}

proof fn lemma_db_reads_back(r: ReaderV, db: u32)
    requires
        r.pos >= 0,
        stands_at(r.source, r.pos, db_text(db)),
    ensures
        scan(r) == scan(ReaderV { db, ..r.at(r.pos + db_text(db).len()) }),
{
    let op = seq![RDB_OPCODE_SELECTDB];
    lemma_stands_apart(r.source, r.pos, op, length_text(db as u64));
    lemma_byte_reads_back(r.source, r.pos, RDB_OPCODE_SELECTDB);
    wire::law_length_reads_back(r.source, r.pos + 1, db as u64);
    let r2 = ReaderV { db, ..r.at(r.pos + db_text(db).len()) };
    reveal(directive);
    lemma_scan_directive(r, RDB_OPCODE_SELECTDB, r2);
}

proof fn lemma_expiry_reads_back(r: ReaderV, ms: Option<i64>)
    requires
        r.pos >= 0,
        r.expiry_ms is None,
        stands_at(r.source, r.pos, expiry_text(ms)),
    ensures
        scan(r) == scan(ReaderV { expiry_ms: ms, ..r.at(r.pos + expiry_text(ms).len()) }),
{
    let r2 = ReaderV { expiry_ms: ms, ..r.at(r.pos + expiry_text(ms).len()) };
    if let Some(n) = ms {
        lemma_stands_apart(r.source, r.pos, seq![RDB_OPCODE_EXPIRETIME_MS], i64_text(n));
        lemma_byte_reads_back(r.source, r.pos, RDB_OPCODE_EXPIRETIME_MS);
        lemma_i64_reads_back(r.source, r.pos + 1, n);
        reveal(directive);
        lemma_scan_directive(r, RDB_OPCODE_EXPIRETIME_MS, r2);
    } else {
        assert(r2 == r);
    }
}

proof fn lemma_idle_reads_back(r: ReaderV, secs: Option<u64>)
    requires
        r.pos >= 0,
        r.lru_idle_secs is None,
        stands_at(r.source, r.pos, idle_text(secs)),
    ensures
        scan(r) == scan(ReaderV { lru_idle_secs: secs, ..r.at(r.pos + idle_text(secs).len()) }),
{
    let r2 = ReaderV { lru_idle_secs: secs, ..r.at(r.pos + idle_text(secs).len()) };
    if let Some(n) = secs {
        lemma_stands_apart(r.source, r.pos, seq![RDB_OPCODE_IDLE], length_text(n));
        lemma_byte_reads_back(r.source, r.pos, RDB_OPCODE_IDLE);
        wire::law_length_reads_back(r.source, r.pos + 1, n);
        reveal(directive);
        lemma_scan_directive(r, RDB_OPCODE_IDLE, r2);
    } else {
        assert(r2 == r);
    }
}

proof fn lemma_frequency_reads_back(r: ReaderV, frequency: Option<u8>)
    requires
        r.pos >= 0,
        r.lfu_frequency is None,
        stands_at(r.source, r.pos, frequency_text(frequency)),
    ensures
        scan(r) == scan(
            ReaderV { lfu_frequency: frequency, ..r.at(r.pos + frequency_text(frequency).len()) },
        ),
{
    let r2 = ReaderV {
        lfu_frequency: frequency,
        ..r.at(r.pos + frequency_text(frequency).len())
    };
    if let Some(n) = frequency {
        lemma_stands_apart(r.source, r.pos, seq![RDB_OPCODE_FREQ], seq![n]);
        lemma_byte_reads_back(r.source, r.pos, RDB_OPCODE_FREQ);
        lemma_byte_reads_back(r.source, r.pos + 1, n);
        reveal(directive);
        lemma_scan_directive(r, RDB_OPCODE_FREQ, r2);
    } else {
        assert(r2 == r);
    }
}

proof fn lemma_key_reads_back(r: ReaderV, e: RdbEntryV)
    requires
        r.max is None,
        entry_fits(e),
        stands_at(r.source, r.pos, key_text(e)),
    ensures
        scan(r) == (
            StepV::Entry(entry_of(r, e.type_code, e.key, e.value)),
            r.cleared().at(r.pos + key_text(e).len()),
        ),
{
    let t = e.type_code;
    let key = string_text(e.key);
    let value = value_text(t, e.value);
    lemma_stands_apart(r.source, r.pos, seq![t], key + value);
    lemma_stands_apart(r.source, r.pos + 1, key, value);
    lemma_byte_reads_back(r.source, r.pos, t);
    wire::law_string_reads_back(r.source, r.pos + 1, e.key);
    law_value_reads_back(r.source, t, r.pos + 1 + key.len(), e.value);
    reveal(key_step);
    assert(opcodes::object_type(t) && !is_directive(t));
    assert(r.at(r.pos + 1).cleared().at(r.pos + key_text(e).len()) == r.cleared().at(
        r.pos + key_text(e).len(),
    ));
    assert(key_step(r.at(r.pos + 1), t) == (
        StepV::Entry(entry_of(r, t, e.key, e.value)),
        r.cleared().at(r.pos + key_text(e).len()),
    ));
}

/// An entry that was written in plain form is the entry that is read: with its database,
/// expiry, idle time and frequency, which do not stay for the next one, but for the database.
pub proof fn law_entry_reads_back(r: ReaderV, e: RdbEntryV)
    requires
        r.valid(),
        r.max is None,
        r.chunked is None,
        r.nothing_waits(),
        entry_fits(e),
        stands_at(r.source, r.pos, entry_text(e)),
    ensures
        step(r) == (
            StepV::Entry(e),
            ReaderV { db: e.db, ..r.at(r.pos + entry_text(e).len()) },
        ),
{
    reveal(step);
    let s = r.source;
    let db = db_text(e.db);
    let expiry = expiry_text(e.expiry_ms);
    let idle = idle_text(e.lru_idle_secs);
    let frequency = frequency_text(e.lfu_frequency);
    let key = key_text(e);
    let p1 = r.pos + db.len();
    let p2 = p1 + expiry.len();
    let p3 = p2 + idle.len();
    let p4 = p3 + frequency.len();
    lemma_stands_apart(s, r.pos, db, expiry + (idle + (frequency + key)));
    lemma_stands_apart(s, p1, expiry, idle + (frequency + key));
    lemma_stands_apart(s, p2, idle, frequency + key);
    lemma_stands_apart(s, p3, frequency, key);
    lemma_db_reads_back(r, e.db);
    let r1 = ReaderV { db: e.db, ..r.at(p1) };
    lemma_expiry_reads_back(r1, e.expiry_ms);
    let r2 = ReaderV { expiry_ms: e.expiry_ms, ..r1.at(p2) };
    lemma_idle_reads_back(r2, e.lru_idle_secs);
    let r3 = ReaderV { lru_idle_secs: e.lru_idle_secs, ..r2.at(p3) };
    lemma_frequency_reads_back(r3, e.lfu_frequency);
    let r4 = ReaderV { lfu_frequency: e.lfu_frequency, ..r3.at(p4) };
    lemma_key_reads_back(r4, e);
    assert(entry_of(r4, e.type_code, e.key, e.value) == e);
    assert(r4.cleared().at(p4 + key.len()) == ReaderV {
        db: e.db,
        ..r.at(r.pos + entry_text(e).len())
    });
}

// ---- Files ----

/// What is written for an entry.
pub open spec fn entry_writer() -> spec_fn(RdbEntryV) -> Seq<u8> {
    |e: RdbEntryV| entry_text(e)
}

/// The magic `VALKEY` and the version `080`.
pub open spec fn header_text() -> Seq<u8> {
    seq![86u8, 65, 76, 75, 69, 89, 48, 56, 48]
}

/// The end of a file without a checksum.
pub open spec fn end_text() -> Seq<u8> {
    seq![RDB_OPCODE_EOF] + bytes::le_bytes(0, 8)
}

/// A file in plain form: the header, the entries, and the end without a checksum.
pub open spec fn file_text(entries: Seq<RdbEntryV>) -> Seq<u8> {
    header_text() + (texts(entry_writer(), entries) + end_text())
}

/// Entries as the items of a source.
pub open spec fn as_items(entries: Seq<RdbEntryV>) -> Seq<EntryItem> {
    entries.map_values(|e: RdbEntryV| Ok::<RdbEntryV, RdbErrorV>(e))
}

proof fn lemma_end_reads_back(r: ReaderV)
    requires
        r.valid(),
        !r.finished,
        r.chunked is None,
        stands_at(r.source, r.pos, end_text()),
    ensures
        upcoming_from(r) == Seq::<EntryItem>::empty(),
{
    lemma_stands_apart(r.source, r.pos, seq![RDB_OPCODE_EOF], bytes::le_bytes(0, 8));
    lemma_byte_reads_back(r.source, r.pos, RDB_OPCODE_EOF);
    lemma_u64_reads_back(r.source, r.pos + 1, 0);
    reveal(step);
    reveal(upcoming_from);
}

proof fn lemma_entries_read_back(r: ReaderV, entries: Seq<RdbEntryV>)
    requires
        r.valid(),
        !r.finished,
        r.max is None,
        r.chunked is None,
        r.nothing_waits(),
        forall|i: int| 0 <= i < entries.len() ==> entry_fits(#[trigger] entries[i]),
        stands_at(r.source, r.pos, texts(entry_writer(), entries) + end_text()),
    ensures
        upcoming_from(r) == as_items(entries),
    decreases entries.len(),
{
    if entries.len() == 0 {
        assert(texts(entry_writer(), entries) + end_text() == end_text());
        lemma_end_reads_back(r);
        assert(as_items(entries) == Seq::<EntryItem>::empty());
    } else {
        let e = entries[0];
        let rest = entries.drop_first();
        let after = texts(entry_writer(), rest) + end_text();
        assert(texts(entry_writer(), entries) + end_text() == entry_text(e) + after);
        lemma_stands_apart(r.source, r.pos, entry_text(e), after);
        law_entry_reads_back(r, e);
        law_step(r);
        let r2 = step(r).1;
        assert forall|i: int| 0 <= i < rest.len() implies entry_fits(#[trigger] rest[i]) by {
            assert(rest[i] == entries[i + 1]);
        }
        lemma_entries_read_back(r2, rest);
        reveal(upcoming_from);
        assert(as_items(entries) == seq![Ok::<RdbEntryV, RdbErrorV>(e)] + as_items(rest));
    }
}

proof fn lemma_version()
    ensures
        text::unsigned_text(text::ascii_text(seq![48u8, 56, 48]), u32::MAX as nat) == Some(80nat),
{
    let b = seq![48u8, 56, 48];
    let t = text::ascii_text(b);
    assert(t[0] == '0' && t[1] == '8' && t[2] == '0');
    reveal_with_fuel(text::digits_value, 4);
    assert(t.drop_last().drop_last().drop_last().len() == 0);
}

proof fn lemma_header_reads_back(s: SourceV)
    requires
        stands_at(s, 0, header_text()),
    ensures
        header_at(s, 0) == Ok::<(RdbHeader, int), RdbErrorV>(
            (RdbHeader { magic: RdbMagic::Valkey, version: 80 }, 9),
        ),
{
    let b = s.bytes.subrange(0, 9);
    assert(b == header_text());
    assert(b.take(6) == seq![86u8, 65, 76, 75, 69, 89]);
    assert(b.take(6)[0] == 86);
    assert(seq![82u8, 69, 68, 73, 83, 48][0] == 82);
    let v = b.subrange(6, 9);
    assert(v == seq![48u8, 56, 48]);
    assert(forall|i: int| 0 <= i < v.len() ==> #[trigger] v[i] < 128);
    lemma_version();
}

/// The first byte behind the header is not that of an AUX field.
proof fn lemma_no_preamble(entries: Seq<RdbEntryV>)
    ensures
        ({
            let body = texts(entry_writer(), entries) + end_text();
            body.len() > 0 && (body[0] == RDB_OPCODE_SELECTDB || body[0] == RDB_OPCODE_EOF)
        }),
{
    if entries.len() == 0 {
        assert(texts(entry_writer(), entries) + end_text() == end_text());
        assert(end_text()[0] == RDB_OPCODE_EOF);
    } else {
        let first = entry_text(entries[0]);
        assert(db_text(entries[0].db)[0] == RDB_OPCODE_SELECTDB);
        assert(first[0] == RDB_OPCODE_SELECTDB);
        assert(texts(entry_writer(), entries)[0] == first[0]);
    }
}

proof fn lemma_opened(s: SourceV, header: RdbHeader, b: u8, max: Option<nat>)
    requires
        header_at(s, 0) == Ok::<(RdbHeader, int), RdbErrorV>((header, 9)),
        wire::byte(s, 9) == Ok::<(u8, int), RdbErrorV>((b, 10)),
        b != RDB_OPCODE_AUX,
    ensures
        opened(s) matches Ok(r) && limited(r, max) == at_start(s, header, max),
{
    assert(preamble(s, 9, Map::empty()) == Ok::<(Map<Seq<char>, Seq<char>>, int), RdbErrorV>(
        (Map::empty(), 9),
    ));
}

/// The header of a file in plain form.
spec fn plain_header() -> RdbHeader {
    RdbHeader { magic: RdbMagic::Valkey, version: 80 }
}

proof fn lemma_behind_header(s: SourceV, body: Seq<u8>)
    requires
        s.bytes == header_text() + body,
        body.len() > 0,
    ensures
        stands_at(s, 0, header_text()),
        stands_at(s, 9, body),
        wire::byte(s, 9) == Ok::<(u8, int), RdbErrorV>((body[0], 10)),
{
    let h = header_text();
    assert(h.len() == 9);
    assert(s.bytes.subrange(0, 9) == h);
    assert(s.bytes.subrange(9, 9 + body.len() as int) == body);
    assert(s.bytes[9] == body[0]);
}

proof fn lemma_file_opens(s: SourceV, body: Seq<u8>, max: Option<nat>)
    requires
        s.bytes == header_text() + body,
        body.len() > 0,
        body[0] != RDB_OPCODE_AUX,
    ensures
        opened(s) matches Ok(r) && limited(r, max) == at_start(s, plain_header(), max),
        stands_at(s, 9, body),
{
    lemma_behind_header(s, body);
    lemma_header_reads_back(s);
    lemma_opened(s, plain_header(), body[0], max);
}

proof fn lemma_items_hold_no_failure(entries: Seq<RdbEntryV>)
    ensures
        no_failure(as_items(entries)),
{
}

/// A file that was written in plain form is read back as it was written: it opens, and yields
/// exactly its entries, in order, at once or in chunks that join to them.
pub proof fn law_file_reads_back(entries: Seq<RdbEntryV>, end: IoErrorV, m: nat)
    requires
        forall|i: int| 0 <= i < entries.len() ==> entry_fits(#[trigger] entries[i]),
        m > 0,
    ensures
        opened(SourceV { bytes: file_text(entries), end }) matches Ok(r) && {
            &&& upcoming_from(limited(r, None)) == as_items(entries)
            &&& rejoined(upcoming_from(limited(r, Some(m)))) == as_items(entries)
        },
{
    let s = SourceV { bytes: file_text(entries), end };
    let start = at_start(s, plain_header(), None);
    let body = texts(entry_writer(), entries) + end_text();
    lemma_no_preamble(entries);
    lemma_file_opens(s, body, None);
    lemma_file_opens(s, body, Some(m));
    lemma_entries_read_back(start, entries);
    lemma_items_hold_no_failure(entries);
    assert(limited(start, None) == start);
    assert(limited(start, Some(m)) == at_start(s, plain_header(), Some(m)));
    law_chunks_rejoin(start, m);
}

} // verus!
