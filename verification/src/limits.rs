//! The limits of a batcher: when rows are handed out, what a row weighs, and which entries are
//! too large.

use crate::batcher::{content_size, entry_size, run, BatcherV, TableV};
use crate::builders::{column_of, table_fits, total_weight};
use crate::columns::{lemma_total_size_concat, total_size, Cell};
use crate::rows::{
    common_cells, module_value_cells, opcode_label, rows_of, saturated, stream_entry_rows,
    stream_table, text_size, RowV,
};
use crate::schema::{columns_of, emits_geo, law_geo_is_additive, row_count, tag_of, TypeTag};
use crate::types::{
    Double, HashFieldV, ModuleDataV, ModuleValueV, RdbEntryV, RdbValueV, StreamDataV, StreamEntryV,
};
use vstd::prelude::*;

verus! {

// ---- Thresholds ----

/// The weights of rows in two parts add up, and that of one row is its own.
pub proof fn law_weights_add_up(a: Seq<RowV>, b: Seq<RowV>, row: RowV)
    ensures
        total_weight(a + b) == total_weight(a) + total_weight(b),
        total_weight(seq![row]) == row.weight,
        total_weight(Seq::empty()) == 0,
    decreases b.len(),
{
    assert(seq![row].drop_last() == Seq::<RowV>::empty());
    reveal_with_fuel(total_weight, 2);
    if b.len() == 0 {
        assert(a + b == a);
    } else {
        law_weights_add_up(a, b.drop_last(), row);
        assert((a + b).drop_last() == a + b.drop_last());
        assert((a + b).last() == b.last());
    }
}

/// Whether rows are fewer than a batch has and lighter than it may be.
pub open spec fn below_thresholds(b: BatcherV, rows: Seq<RowV>) -> bool {
    &&& rows.len() < b.config.batch_size
    &&& b.config.batch_bytes is Some ==> total_weight(rows) < b.config.batch_bytes->0
}

proof fn lemma_flush_due(b: BatcherV, tag: TypeTag, other: TypeTag)
    requires
        b.tables.len() == 9,
    ensures
        ({
            let (after, out) = b.flush_due(tag);
            &&& after.tables.len() == 9
            &&& after.config == b.config
            &&& after.skipped == b.skipped
            &&& after.table(tag).len() == 0 || below_thresholds(b, after.table(tag))
            &&& other != tag ==> after.table(other) == b.table(other)
            &&& out.len() <= 1
            &&& out.len() == 1 ==> out[0].tag == tag && out[0].rows == b.table(tag)
                && !below_thresholds(b, out[0].rows)
        }),
{
    if other != tag {
        assert(tag.rank() != other.rank());
    }
}

/// After an entry has been taken, the rows that wait are below both thresholds, if they were
/// before. What was handed out had reached one of them. At most one batch of each type is
/// handed out, and only of the type of the entry and of geo data.
pub proof fn law_thresholds(b: BatcherV, e: RdbEntryV, tag: TypeTag)
    requires
        b.tables.len() == 9,
        b.push(e).1 is Some,
        b.table(tag).len() == 0 || below_thresholds(b, b.table(tag)),
    ensures
        ({
            let after = b.push(e).0;
            let out = b.push(e).1->0;
            &&& after.table(tag).len() == 0 || below_thresholds(b, after.table(tag))
            &&& forall|i: int|
                0 <= i < out.len() ==> !below_thresholds(b, (#[trigger] out[i]).rows)
                    && out[i].rows.len() > 0 && (out[i].tag == tag_of(e) || (out[i].tag
                    == TypeTag::Geo && emits_geo(b.config.heuristics@, e)))
            &&& forall|i: int, j: int|
                0 <= i < j < out.len() ==> (#[trigger] out[i]).tag != (#[trigger] out[j]).tag
        }),
{
    if !b.oversized(e) {
        let own = tag_of(e);
        law_geo_is_additive(b.config.heuristics@, e);
        let one = b.add_entry(own, e)->0;
        assert(tag != own ==> one.table(tag) == b.table(tag)) by {
            if tag != own {
                assert(tag.rank() != own.rank());
            }
        }
        if emits_geo(b.config.heuristics@, e) {
            let two = one.add_entry(TypeTag::Geo, e)->0;
            assert(tag != TypeTag::Geo ==> two.table(tag) == one.table(tag)) by {
                if tag != TypeTag::Geo {
                    assert(tag.rank() != TypeTag::Geo.rank());
                }
            }
            lemma_flush_due(two, own, tag);
            lemma_flush_due(two, own, TypeTag::Geo);
            let (three, first) = two.flush_due(own);
            lemma_flush_due(three, TypeTag::Geo, tag);
            lemma_flush_due(three, TypeTag::Geo, own);
        } else {
            lemma_flush_due(one, own, tag);
        }
    }
}

// ---- Entries that are too large ----

/// The size of what a collection holds is that of its elements together. A number counts for
/// eight bytes.
pub proof fn law_strings_size(a: Seq<Seq<u8>>, b: Seq<Seq<u8>>, x: Seq<u8>)
    ensures
        content_size(RdbValueV::String(x)) == x.len(),
        content_size(RdbValueV::List(Seq::empty())) == 0,
        content_size(RdbValueV::List(seq![x])) == x.len(),
        content_size(RdbValueV::List(a + b)) == content_size(RdbValueV::List(a)) + content_size(
            RdbValueV::List(b),
        ),
        content_size(RdbValueV::UnorderedSet(a)) == content_size(RdbValueV::List(a)),
    decreases b.len(),
{
    assert(seq![x].drop_last() == Seq::<Seq<u8>>::empty());
    reveal_with_fuel(crate::batcher::strings_size, 2);
    if b.len() == 0 {
        assert(a + b == a);
    } else {
        law_strings_size(a, b.drop_last(), x);
        assert((a + b).drop_last() == a + b.drop_last());
        assert((a + b).last() == b.last());
    }
}

/// The size of a sorted set is that of its members together, with eight bytes for each score.
pub proof fn law_members_size(
    a: Seq<(Seq<u8>, Double)>,
    b: Seq<(Seq<u8>, Double)>,
    x: (Seq<u8>, Double),
)
    ensures
        content_size(RdbValueV::SortedSet(Seq::empty())) == 0,
        content_size(RdbValueV::SortedSet(seq![x])) == x.0.len() + 8,
        content_size(RdbValueV::SortedSet(a + b)) == content_size(RdbValueV::SortedSet(a))
            + content_size(RdbValueV::SortedSet(b)),
    decreases b.len(),
{
    assert(seq![x].drop_last() == Seq::<(Seq<u8>, Double)>::empty());
    reveal_with_fuel(crate::batcher::members_size, 2);
    if b.len() == 0 {
        assert(a + b == a);
    } else {
        law_members_size(a, b.drop_last(), x);
        assert((a + b).drop_last() == a + b.drop_last());
        assert((a + b).last() == b.last());
    }
}

/// The size of a hash is that of its fields and values together.
pub proof fn law_fields_size(a: Seq<HashFieldV>, b: Seq<HashFieldV>, x: HashFieldV)
    ensures
        content_size(RdbValueV::Hash(Seq::empty())) == 0,
        content_size(RdbValueV::Hash(seq![x])) == x.field.len() + x.value.len(),
        content_size(RdbValueV::Hash(a + b)) == content_size(RdbValueV::Hash(a)) + content_size(
            RdbValueV::Hash(b),
        ),
    decreases b.len(),
{
    assert(seq![x].drop_last() == Seq::<HashFieldV>::empty());
    reveal_with_fuel(crate::batcher::fields_size, 2);
    if b.len() == 0 {
        assert(a + b == a);
    } else {
        law_fields_size(a, b.drop_last(), x);
        assert((a + b).drop_last() == a + b.drop_last());
        assert((a + b).last() == b.last());
    }
}

/// A stream with other entries.
pub open spec fn stream_of(data: StreamDataV, entries: Seq<StreamEntryV>) -> RdbValueV {
    RdbValueV::Stream(StreamDataV { entries, ..data })
}

/// A module value with other values.
pub open spec fn module_of(data: ModuleDataV, values: Seq<ModuleValueV>) -> RdbValueV {
    RdbValueV::Module(ModuleDataV { values, ..data })
}

/// The size of a stream is that of the fields and values of its entries together.
pub proof fn law_stream_size(
    data: StreamDataV,
    a: Seq<StreamEntryV>,
    b: Seq<StreamEntryV>,
    id: Seq<char>,
    fields: Seq<(Seq<u8>, Seq<u8>)>,
    x: (Seq<u8>, Seq<u8>),
)
    ensures
        content_size(stream_of(data, Seq::empty())) == 0,
        content_size(stream_of(data, seq![StreamEntryV { id, fields: Seq::empty() }])) == 0,
        content_size(stream_of(data, seq![StreamEntryV { id, fields: fields.push(x) }]))
            == content_size(stream_of(data, seq![StreamEntryV { id, fields }])) + x.0.len()
            + x.1.len(),
        content_size(stream_of(data, a + b)) == content_size(stream_of(data, a)) + content_size(
            stream_of(data, b),
        ),
    decreases b.len(),
{
    reveal_with_fuel(crate::batcher::stream_size, 2);
    assert(fields.push(x).drop_last() == fields);
    let none = StreamEntryV { id, fields: Seq::empty() };
    let some = StreamEntryV { id, fields };
    let more = StreamEntryV { id, fields: fields.push(x) };
    assert(seq![none].drop_last() == Seq::<StreamEntryV>::empty());
    assert(seq![some].drop_last() == Seq::<StreamEntryV>::empty());
    assert(seq![more].drop_last() == Seq::<StreamEntryV>::empty());
    if b.len() == 0 {
        assert(a + b == a);
    } else {
        law_stream_size(data, a, b.drop_last(), id, fields, x);
        assert((a + b).drop_last() == a + b.drop_last());
        assert((a + b).last() == b.last());
    }
}

/// The size of a module value is that of its strings, with eight bytes for each number.
pub proof fn law_module_size(
    data: ModuleDataV,
    a: Seq<ModuleValueV>,
    b: Seq<ModuleValueV>,
    x: ModuleValueV,
)
    ensures
        content_size(module_of(data, Seq::empty())) == 0,
        x is String ==> content_size(module_of(data, seq![x])) == x->String_0.len(),
        !(x is String) ==> content_size(module_of(data, seq![x])) == 8,
        content_size(module_of(data, a + b)) == content_size(module_of(data, a)) + content_size(
            module_of(data, b),
        ),
    decreases b.len(),
{
    reveal_with_fuel(crate::batcher::values_size, 2);
    assert(seq![x].drop_last() == Seq::<ModuleValueV>::empty());
    if b.len() == 0 {
        assert(a + b == a);
    } else {
        law_module_size(data, a, b.drop_last(), x);
        assert((a + b).drop_last() == a + b.drop_last());
        assert((a + b).last() == b.last());
    }
}

/// The size of an entry is that of what it holds, and that of its key for each row that it
/// makes.
pub proof fn law_entry_size(e: RdbEntryV)
    ensures
        entry_size(e) == content_size(e.value) + e.key.len() * rows_of(tag_of(e), e).len(),
{
    crate::rows::law_expected_rows(e);
    assert(e.key.len() * row_count(e.value) == e.key.len() * rows_of(tag_of(e), e).len());
}

/// Whether an entry is larger than a batcher takes.
pub open spec fn too_large(b: BatcherV, e: RdbEntryV) -> bool {
    b.config.max_entry_bytes is Some && entry_size(e) > b.config.max_entry_bytes->0
}

/// An entry that is larger than the limit is left out and counted: nothing else changes, and
/// nothing is handed out. One that is not is not counted. Sizes stop at the largest `usize`,
/// which no entry is larger than.
pub proof fn law_large_entries_are_left_out(b: BatcherV, e: RdbEntryV)
    requires
        b.config.max_entry_bytes is Some ==> b.config.max_entry_bytes->0 < usize::MAX,
        b.tables.len() == 9,
    ensures
        too_large(b, e) ==> b.push(e).0.tables == b.tables && b.push(e).0.config == b.config
            && b.push(e).1 == Some(Seq::<TableV>::empty()),
        too_large(b, e) && b.skipped < u64::MAX ==> b.push(e).0.skipped == b.skipped + 1,
        !too_large(b, e) ==> b.push(e).0.skipped == b.skipped,
        b.push(e).0.config == b.config,
        b.push(e).0.tables.len() == 9,
{
    if !b.oversized(e) {
        let own = tag_of(e);
        if let Some(one) = b.add_entry(own, e) {
            if emits_geo(b.config.heuristics@, e) {
                if let Some(two) = one.add_entry(TypeTag::Geo, e) {
                    lemma_flush_due(two, own, own);
                    lemma_flush_due(two.flush_due(own).0, TypeTag::Geo, own);
                }
            } else {
                lemma_flush_due(one, own, own);
            }
        }
    }
}

/// The number that a batcher gives for the entries that it left out is the number of those
/// among them that are too large.
pub proof fn law_large_entries_are_counted(b: BatcherV, entries: Seq<RdbEntryV>)
    requires
        b.config.max_entry_bytes is Some ==> b.config.max_entry_bytes->0 < usize::MAX,
        b.tables.len() == 9,
        run(b, entries) is Some,
        b.skipped + entries.len() <= u64::MAX,
    ensures
        ({
            let (after, out) = run(b, entries)->0;
            &&& after.skipped == b.skipped + entries.filter(
                |e: RdbEntryV| too_large(b, e),
            ).len()
            &&& after.config == b.config
            &&& after.tables.len() == 9
        }),
    decreases entries.len(),
{
    reveal(Seq::filter);
    let p = |e: RdbEntryV| too_large(b, e);
    if entries.len() > 0 {
        let front = entries.drop_last();
        law_large_entries_are_counted(b, front);
        front.lemma_filter_len(p);
        let (before, _) = run(b, front)->0;
        law_large_entries_are_left_out(before, entries.last());
        assert(too_large(before, entries.last()) == too_large(b, entries.last()));
    }
}

// ---- Row weights ----

/// The bytes of the byte strings among cells.
pub open spec fn binary_bytes(cells: Seq<Cell>) -> nat
    decreases cells.len(),
{
    if cells.len() == 0 {
        0
    } else {
        binary_bytes(cells.drop_last()) + (match cells.last() {
            Cell::Binary(b) => b.len(),
            _ => 0,
        })
    }
}

proof fn lemma_binary_concat(a: Seq<Cell>, b: Seq<Cell>)
    ensures
        binary_bytes(a + b) == binary_bytes(a) + binary_bytes(b),
    decreases b.len(),
{
    if b.len() == 0 {
        assert(a + b == a);
    } else {
        lemma_binary_concat(a, b.drop_last());
        assert((a + b).drop_last() == a + b.drop_last());
        assert((a + b).last() == b.last());
    }
}

proof fn lemma_binary_common(e: RdbEntryV, label: Seq<char>, count: u64)
    ensures
        binary_bytes(common_cells(e, label, count)) == e.key.len(),
{
    let c = common_cells(e, label, count);
    reveal_with_fuel(binary_bytes, 9);
    assert(c.take(8) == c);
    assert(c.take(0).len() == 0);
    assert(c.take(8).drop_last() == c.take(7) && c.take(7).drop_last() == c.take(6)
        && c.take(6).drop_last() == c.take(5) && c.take(5).drop_last() == c.take(4)
        && c.take(4).drop_last() == c.take(3) && c.take(3).drop_last() == c.take(2)
        && c.take(2).drop_last() == c.take(1) && c.take(1).drop_last() == c.take(0));
    assert(c[0] is UInt32 && c[1] == Cell::Binary(e.key) && c[2] is Utf8);
    assert(!(c[3] is Binary) && !(c[4] is Binary) && !(c[5] is Binary));
}

/// What a row of each type weighs beside the bytes of its byte strings: eight for a score, 24
/// for a position and its score, and in the rows of modules and streams their texts and
/// numbers too.
pub open spec fn weight_beside(tag: TypeTag, e: RdbEntryV, i: int) -> nat {
    match (tag, e.value) {
        (TypeTag::SortedSet, RdbValueV::SortedSet(pairs)) => if pairs.len() == 0 {
            0
        } else {
            8
        },
        (TypeTag::Geo, RdbValueV::SortedSet(pairs)) => if pairs.len() == 0 {
            0
        } else {
            24
        },
        (TypeTag::Module, RdbValueV::Module(data)) => text_size(data.module_name) + 8 + (
        if data.values.len() == 0 {
            text_size("eof"@)
        } else {
            text_size(opcode_label(data.values[i])) + if data.values[i] is String {
                0nat
            } else {
                8
            }
        }),
        _ => 0,
    }
}

/// A row weighs as much as the byte strings that it shows, its key among them, and the fixed
/// part of its type; in all at most the largest `usize`.
pub proof fn law_row_weights(tag: TypeTag, e: RdbEntryV, i: int)
    requires
        tag != TypeTag::Stream,
        0 <= i < rows_of(tag, e).len(),
    ensures
        ({
            let row = rows_of(tag, e)[i];
            let weight = binary_bytes(row.cells) + weight_beside(tag, e, i);
            &&& weight <= usize::MAX ==> row.weight == weight
            &&& weight > usize::MAX ==> row.weight == usize::MAX
        }),
{
    let row = rows_of(tag, e)[i];
    let common = row.cells.take(8);
    let own = row.cells.skip(8);
    assert(row.cells == common + own);
    lemma_binary_concat(common, own);
    assert(exists|label: Seq<char>, count: u64| common == #[trigger] common_cells(e, label, count))
        by {
        lemma_common(tag, e, i);
    }
    let (label, count) = choose|label: Seq<char>, count: u64|
        common == #[trigger] common_cells(e, label, count);
    lemma_binary_common(e, label, count);
    lemma_own(tag, e, i);
}

proof fn lemma_common(tag: TypeTag, e: RdbEntryV, i: int)
    requires
        tag != TypeTag::Stream,
        0 <= i < rows_of(tag, e).len(),
    ensures
        exists|label: Seq<char>, count: u64|
            rows_of(tag, e)[i].cells.take(8) == #[trigger] common_cells(e, label, count),
{
    let c = rows_of(tag, e)[i].cells;
    let label = match c[2] {
        Cell::Utf8(label) => label,
        _ => Seq::empty(),
    };
    let count = match c[7] {
        Cell::UInt64(count) => count,
        _ => 0,
    };
    assert(c.take(8) == common_cells(e, label, count));
}

#[verifier::spinoff_prover]
proof fn lemma_own(tag: TypeTag, e: RdbEntryV, i: int)
    requires
        tag != TypeTag::Stream,
        0 <= i < rows_of(tag, e).len(),
    ensures
        rows_of(tag, e)[i].weight == saturated(
            e.key.len() + binary_bytes(rows_of(tag, e)[i].cells.skip(8)) + weight_beside(
                tag,
                e,
                i,
            ),
        ),
{
    let cells = rows_of(tag, e)[i].cells;
    let own = cells.skip(8);
    assert(own.len() == cells.len() - 8);
    assert(forall|j: int| 0 <= j < own.len() ==> #[trigger] own[j] == cells[8 + j]);
    lemma_takes(own);
    match (tag, e.value) {
        (TypeTag::Module, RdbValueV::Module(data)) => {
            if data.values.len() > 0 {
                let v = module_value_cells(data.values[i]);
                assert(own.len() == 7);
                assert(own[4] == v[0] && own[5] == v[1] && own[6] == v[2]);
            }
        },
        _ => {},
    }
}

/// A row of a stream weighs as much as the byte strings that it shows, its key among them, and
/// the ID of its entry; in all at most the largest `usize`.
pub proof fn law_stream_row_weights(e: RdbEntryV, data: StreamDataV, i: int)
    requires
        e.value == RdbValueV::Stream(data),
        data.entries.len() > 0,
        0 <= i < rows_of(TypeTag::Stream, e).len(),
    ensures
        ({
            let row = rows_of(TypeTag::Stream, e)[i];
            &&& row.cells[8] is Utf8
            &&& ({
                let weight = binary_bytes(row.cells) + text_size(row.cells[8]->Utf8_0);
                &&& weight <= usize::MAX ==> row.weight == weight
                &&& weight > usize::MAX ==> row.weight == usize::MAX
            })
        }),
{
    let count = if data.length > 0 {
        data.length
    } else {
        data.entries.len() as u64
    };
    lemma_stream_row_weights(e, count, data.entries, i);
}

proof fn lemma_stream_row_weights(
    e: RdbEntryV,
    count: u64,
    entries: Seq<StreamEntryV>,
    i: int,
)
    requires
        0 <= i < stream_table(e, count, entries).len(),
    ensures
        ({
            let row = stream_table(e, count, entries)[i];
            &&& row.cells[8] is Utf8
            &&& row.weight == saturated(binary_bytes(row.cells) + text_size(row.cells[8]->Utf8_0))
        }),
    decreases entries.len(),
{
    let before = stream_table(e, count, entries.drop_last());
    if i < before.len() {
        lemma_stream_row_weights(e, count, entries.drop_last(), i);
    } else {
        let last = entries.last();
        let k = i - before.len();
        let row = stream_entry_rows(e, count, last)[k];
        assert(stream_table(e, count, entries)[i] == row);
        let own = row.cells.skip(8);
        assert(row.cells == common_cells(e, "stream"@, count) + own);
        lemma_binary_concat(common_cells(e, "stream"@, count), own);
        lemma_binary_common(e, "stream"@, count);
        assert(own.len() == 3);
        assert(own[0] == row.cells[8] && own[1] == row.cells[9] && own[2] == row.cells[10]);
        lemma_takes(own);
    }
}

proof fn lemma_takes(own: Seq<Cell>)
    requires
        own.len() <= 7,
    ensures
        binary_bytes(own) == one(own, 0) + one(own, 1) + one(own, 2) + one(own, 3) + one(own, 4)
            + one(own, 5) + one(own, 6),
    decreases own.len(),
{
    if own.len() > 0 {
        let front = own.drop_last();
        lemma_takes(front);
        let n = own.len() - 1;
        assert(forall|j: int| 0 <= j < n ==> one(front, j) == #[trigger] one(own, j));
        assert(one(front, n) == 0);
        assert(one(front, 0) == if n > 0 { one(own, 0) } else { 0 });
        assert(one(front, 1) == if n > 1 { one(own, 1) } else { 0 });
        assert(one(front, 2) == if n > 2 { one(own, 2) } else { 0 });
        assert(one(front, 3) == if n > 3 { one(own, 3) } else { 0 });
        assert(one(front, 4) == if n > 4 { one(own, 4) } else { 0 });
        assert(one(front, 5) == if n > 5 { one(own, 5) } else { 0 });
    }
}

/// The bytes of one cell, if it is there and is a byte string.
spec fn one(cells: Seq<Cell>, j: int) -> nat {
    if 0 <= j < cells.len() {
        match cells[j] {
            Cell::Binary(b) => b.len(),
            _ => 0,
        }
    } else {
        0
    }
}

// ---- What a batch can hold ----

/// The bytes of a column are those of its byte strings and texts together.
pub proof fn law_column_bytes(a: Seq<Cell>, b: Seq<Cell>, c: Cell)
    ensures
        total_size(Seq::empty()) == 0,
        total_size(a + b) == total_size(a) + total_size(b),
        c is Binary ==> total_size(seq![c]) == c->Binary_0.len(),
        c is Utf8 ==> total_size(seq![c]) == text_size(c->Utf8_0),
        !(c is Binary) && !(c is Utf8) ==> total_size(seq![c]) == 0,
{
    lemma_total_size_concat(a, b);
    reveal_with_fuel(total_size, 2);
    assert(seq![c].drop_last() == Seq::<Cell>::empty());
}

/// A batch takes rows as long as no column has more bytes than 32-bit offsets can tell apart.
/// A billion bytes in each column and 60 million rows always fit.
pub proof fn law_batch_limits(tag: TypeTag, rows: Seq<RowV>)
    ensures
        table_fits(tag, rows) ==> forall|j: int|
            0 <= j < columns_of(tag).len() ==> #[trigger] total_size(column_of(rows, j))
                <= 0x7fff_ffff,
        rows.len() <= 60_000_000 && (forall|j: int|
            0 <= j < columns_of(tag).len() ==> #[trigger] total_size(column_of(rows, j))
                <= 1_000_000_000) ==> table_fits(tag, rows),
{
    assert(isize::MAX >= 0x7fff_ffff);
}

} // verus!
