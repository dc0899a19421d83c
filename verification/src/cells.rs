//! What the rows of an entry show, column by column: all that the entry holds can be read off
//! them by the names of the columns.

use crate::columns::Cell;
use crate::detect::{cached_cardinality, position_of};
use crate::double::widened;
use crate::rows::{
    module_value_cells, opcode_label, rows_of, stream_entry_rows, stream_table, unsigned_bits, RowV,
};
use crate::schema::{columns_of, stream_rows, TypeTag};
use crate::types::{
    Double, HashFieldV, ModuleDataV, ModuleValueV, RdbEntryV, RdbValueV, StreamDataV, StreamEntryV,
};
use crate::values::kind_of;
use vstd::prelude::*;

verus! {

/// Whether a row of the table of a type holds a cell in the column of the given name.
pub open spec fn shows(tag: TypeTag, row: RowV, name: Seq<char>, cell: Cell) -> bool {
    exists|j: int|
        0 <= j < columns_of(tag).len() && j < row.cells.len() && (#[trigger] columns_of(tag)[j]).name
            == name && row.cells[j] == cell
}

proof fn lemma_shows(tag: TypeTag, row: RowV, j: int)
    requires
        0 <= j < columns_of(tag).len(),
        j < row.cells.len(),
    ensures
        shows(tag, row, columns_of(tag)[j].name, row.cells[j]),
{
}

/// No two columns of a table have the same name, so a row shows one cell for a name.
pub proof fn law_column_names_differ(tag: TypeTag, i: int, j: int)
    requires
        0 <= i < j < columns_of(tag).len(),
    ensures
        columns_of(tag)[i].name != columns_of(tag)[j].name,
{
    reveal_strlit("db");
    reveal_strlit("key");
    reveal_strlit("type");
    reveal_strlit("expiry_ms");
    reveal_strlit("lru_idle_secs");
    reveal_strlit("lfu_frequency");
    reveal_strlit("encoding");
    reveal_strlit("num_elements");
    reveal_strlit("value");
    reveal_strlit("index");
    reveal_strlit("element");
    reveal_strlit("member");
    reveal_strlit("score");
    reveal_strlit("field");
    reveal_strlit("field_value");
    reveal_strlit("field_expiry_ms");
    reveal_strlit("longitude");
    reveal_strlit("latitude");
    reveal_strlit("geohash_score");
    reveal_strlit("hll_encoding");
    reveal_strlit("cached_cardinality");
    reveal_strlit("raw_value");
    reveal_strlit("module_name");
    reveal_strlit("module_version");
    reveal_strlit("value_index");
    reveal_strlit("opcode");
    reveal_strlit("int_value");
    reveal_strlit("double_value");
    reveal_strlit("string_value");
    reveal_strlit("stream_id");
    let c = columns_of(tag);
    let name = c[i].name;
    let other = c[j].name;
    // Names that differ in length, or in one of their first characters.
    assert(name.len() != other.len() || name[0] != other[0] || name[1] != other[1] || name[2]
        != other[2] || name[4] != other[4]);
}

/// Every row that comes of an entry, whatever its type, shows the database, the key, the
/// expiry, the idle time and the frequency of the entry.
pub proof fn law_rows_show_the_key(tag: TypeTag, e: RdbEntryV, i: int)
    requires
        0 <= i < rows_of(tag, e).len(),
    ensures
        ({
            let row = rows_of(tag, e)[i];
            &&& shows(tag, row, "db"@, Cell::UInt32(e.db))
            &&& shows(tag, row, "key"@, Cell::Binary(e.key))
            &&& shows(
                tag,
                row,
                "expiry_ms"@,
                match e.expiry_ms {
                    Some(ms) => Cell::Int64(ms),
                    None => Cell::Null,
                },
            )
            &&& shows(
                tag,
                row,
                "lru_idle_secs"@,
                match e.lru_idle_secs {
                    Some(secs) => Cell::UInt64(secs),
                    None => Cell::Null,
                },
            )
            &&& shows(
                tag,
                row,
                "lfu_frequency"@,
                match e.lfu_frequency {
                    Some(n) => Cell::UInt8(n),
                    None => Cell::Null,
                },
            )
        }),
{
    if let (TypeTag::Stream, RdbValueV::Stream(data)) = (tag, e.value) {
        lemma_stream_common(e, data, i);
    }
    let row = rows_of(tag, e)[i];
    let c = columns_of(tag);
    assert(row.cells[0] == Cell::UInt32(e.db));
    assert(row.cells[1] == Cell::Binary(e.key));
    assert(c[0].name == "db"@ && c[1].name == "key"@ && c[3].name == "expiry_ms"@ && c[4].name
        == "lru_idle_secs"@ && c[5].name == "lfu_frequency"@);
    lemma_shows(tag, row, 0);
    lemma_shows(tag, row, 1);
    lemma_shows(tag, row, 3);
    lemma_shows(tag, row, 4);
    lemma_shows(tag, row, 5);
}

/// The first cells of the rows of a stream.
proof fn lemma_stream_common(e: RdbEntryV, data: StreamDataV, i: int)
    requires
        e.value == RdbValueV::Stream(data),
        0 <= i < rows_of(TypeTag::Stream, e).len(),
    ensures
        rows_of(TypeTag::Stream, e)[i].cells.len() == 11,
        rows_of(TypeTag::Stream, e)[i].cells.take(8) == crate::rows::common_cells(
            e,
            "stream"@,
            stream_count(data),
        ),
{
    let count = stream_count(data);
    if data.entries.len() > 0 {
        lemma_table_common(e, count, data.entries, i);
    } else {
        let cells = rows_of(TypeTag::Stream, e)[i].cells;
        assert(cells.take(8) == crate::rows::common_cells(e, "stream"@, count));
    }
}

/// The number of entries that a stream states, or else has.
spec fn stream_count(data: StreamDataV) -> u64 {
    if data.length > 0 {
        data.length
    } else {
        data.entries.len() as u64
    }
}

proof fn lemma_table_common(e: RdbEntryV, count: u64, entries: Seq<StreamEntryV>, i: int)
    requires
        0 <= i < stream_table(e, count, entries).len(),
    ensures
        stream_table(e, count, entries)[i].cells.len() == 11,
        stream_table(e, count, entries)[i].cells.take(8) == crate::rows::common_cells(
            e,
            "stream"@,
            count,
        ),
    decreases entries.len(),
{
    let front = stream_table(e, count, entries.drop_last());
    let all = stream_table(e, count, entries);
    if i < front.len() {
        lemma_table_common(e, count, entries.drop_last(), i);
        assert(all[i] == front[i]);
    } else {
        let last = stream_entry_rows(e, count, entries.last());
        assert(all[i] == last[i - front.len()]);
        assert(all[i].cells.take(8) == crate::rows::common_cells(e, "stream"@, count));
    }
}

/// Every row that comes of an entry shows the type of its table and the encoding that the
/// type code of the entry stands for, if the value is of the kind that the type code says.
pub proof fn law_rows_show_the_type(tag: TypeTag, e: RdbEntryV, i: int)
    requires
        0 <= i < rows_of(tag, e).len(),
        kind_of(e.type_code, e.value),
    ensures
        shows(tag, rows_of(tag, e)[i], "type"@, Cell::Utf8(tag.label())),
        shows(
            tag,
            rows_of(tag, e)[i],
            "encoding"@,
            Cell::Utf8(crate::opcodes::encoding_label(e.type_code)),
        ),
{
    if let (TypeTag::Stream, RdbValueV::Stream(data)) = (tag, e.value) {
        lemma_stream_common(e, data, i);
        let cells = rows_of(tag, e)[i].cells;
        assert(cells.take(8)[2] == cells[2] && cells.take(8)[6] == cells[6]);
    }
    let row = rows_of(tag, e)[i];
    assert(row.cells[2] == Cell::Utf8(tag.label()));
    assert(columns_of(tag)[2].name == "type"@ && columns_of(tag)[6].name == "encoding"@);
    lemma_shows(tag, row, 2);
    lemma_shows(tag, row, 6);
}

/// The number of elements that a collection states, or else has.
pub open spec fn stated_count(e: RdbEntryV, n: nat) -> Cell {
    match e.total_elements {
        Some(total) => Cell::UInt64(total),
        None => Cell::UInt64(n as u64),
    }
}

/// A string makes one row, which shows its bytes.
pub proof fn law_string_row(e: RdbEntryV, v: Seq<u8>)
    requires
        e.value == RdbValueV::String(v),
    ensures
        rows_of(TypeTag::String, e).len() == 1,
        shows(TypeTag::String, rows_of(TypeTag::String, e)[0], "value"@, Cell::Binary(v)),
        shows(TypeTag::String, rows_of(TypeTag::String, e)[0], "num_elements"@, Cell::UInt64(1)),
{
    let row = rows_of(TypeTag::String, e)[0];
    lemma_shows(TypeTag::String, row, 7);
    lemma_shows(TypeTag::String, row, 8);
}

/// A HyperLogLog makes one row, which shows its bytes, the name of its encoding byte, and the
/// cardinality of its header.
pub proof fn law_hyperloglog_row(e: RdbEntryV, v: Seq<u8>)
    requires
        e.value == RdbValueV::String(v),
    ensures
        ({
            let tag = TypeTag::HyperLogLog;
            let row = rows_of(tag, e)[0];
            &&& rows_of(tag, e).len() == 1
            &&& shows(tag, row, "raw_value"@, Cell::Binary(v))
            &&& shows(tag, row, "num_elements"@, Cell::UInt64(1))
            &&& v.len() >= 16 && v[4] == 0 ==> shows(
                tag,
                row,
                "hll_encoding"@,
                Cell::Utf8("dense"@),
            )
            &&& v.len() >= 16 && v[4] == 1 ==> shows(
                tag,
                row,
                "hll_encoding"@,
                Cell::Utf8("sparse"@),
            )
            &&& shows(
                tag,
                row,
                "cached_cardinality"@,
                Cell::Int64(cached_cardinality(v) as i64),
            )
        }),
{
    let tag = TypeTag::HyperLogLog;
    let row = rows_of(tag, e)[0];
    lemma_shows(tag, row, 7);
    lemma_shows(tag, row, 8);
    lemma_shows(tag, row, 9);
    lemma_shows(tag, row, 10);
}

/// The cardinality that was written into the header of a HyperLogLog is the one that is read,
/// unless its top bit marks it as out of date.
pub proof fn law_cardinality_reads_back(v: Seq<u8>, n: nat)
    requires
        v.len() >= 16,
        n < 0x1_0000_0000_0000_0000,
        v.subrange(8, 16) == crate::bytes::le_bytes(n, 8),
    ensures
        cached_cardinality(v) == if n < 0x8000_0000_0000_0000 {
            n as int
        } else {
            -1
        },
{
    crate::bytes::law_le_reads_back(v, 8, n);
}

/// A list that is not empty makes a row for each element, in order, which shows the element
/// and its index in the whole list.
pub proof fn law_list_rows(e: RdbEntryV, x: Seq<Seq<u8>>, i: int)
    requires
        e.value == RdbValueV::List(x),
        0 <= i < x.len(),
        (match e.element_offset {
            Some(offset) => offset as int,
            None => 0,
        }) + i <= u64::MAX,
    ensures
        ({
            let tag = TypeTag::List;
            let row = rows_of(tag, e)[i];
            let before: int = match e.element_offset {
                Some(offset) => offset as int,
                None => 0,
            };
            &&& rows_of(tag, e).len() == x.len()
            &&& shows(tag, row, "element"@, Cell::Binary(x[i]))
            &&& shows(tag, row, "index"@, Cell::UInt64((before + i) as u64))
            &&& shows(tag, row, "num_elements"@, stated_count(e, x.len()))
        }),
{
    let row = rows_of(TypeTag::List, e)[i];
    lemma_shows(TypeTag::List, row, 7);
    lemma_shows(TypeTag::List, row, 8);
    lemma_shows(TypeTag::List, row, 9);
}

/// A set that is not empty makes a row for each member, in order, which shows the member.
pub proof fn law_set_rows(e: RdbEntryV, x: Seq<Seq<u8>>, i: int)
    requires
        e.value == RdbValueV::UnorderedSet(x),
        0 <= i < x.len(),
    ensures
        ({
            let tag = TypeTag::UnorderedSet;
            let row = rows_of(tag, e)[i];
            &&& rows_of(tag, e).len() == x.len()
            &&& shows(tag, row, "member"@, Cell::Binary(x[i]))
            &&& shows(tag, row, "num_elements"@, stated_count(e, x.len()))
        }),
{
    let row = rows_of(TypeTag::UnorderedSet, e)[i];
    lemma_shows(TypeTag::UnorderedSet, row, 7);
    lemma_shows(TypeTag::UnorderedSet, row, 8);
}

/// A sorted set that is not empty makes a row for each member, in order, which shows the
/// member and its score.
pub proof fn law_sorted_set_rows(e: RdbEntryV, x: Seq<(Seq<u8>, Double)>, i: int)
    requires
        e.value == RdbValueV::SortedSet(x),
        0 <= i < x.len(),
    ensures
        ({
            let tag = TypeTag::SortedSet;
            let row = rows_of(tag, e)[i];
            &&& rows_of(tag, e).len() == x.len()
            &&& shows(tag, row, "member"@, Cell::Binary(x[i].0))
            &&& shows(tag, row, "score"@, Cell::Float64(x[i].1))
            &&& shows(tag, row, "num_elements"@, stated_count(e, x.len()))
        }),
{
    let row = rows_of(TypeTag::SortedSet, e)[i];
    lemma_shows(TypeTag::SortedSet, row, 7);
    lemma_shows(TypeTag::SortedSet, row, 8);
    lemma_shows(TypeTag::SortedSet, row, 9);
}

/// In the table of geo data, a row shows the member, its score, and the longitude and the
/// latitude that the score stands for.
pub proof fn law_geo_rows(e: RdbEntryV, x: Seq<(Seq<u8>, Double)>, i: int)
    requires
        e.value == RdbValueV::SortedSet(x),
        0 <= i < x.len(),
    ensures
        ({
            let tag = TypeTag::Geo;
            let row = rows_of(tag, e)[i];
            &&& rows_of(tag, e).len() == x.len()
            &&& shows(tag, row, "member"@, Cell::Binary(x[i].0))
            &&& shows(tag, row, "geohash_score"@, Cell::Float64(x[i].1))
            &&& shows(tag, row, "num_elements"@, stated_count(e, x.len()))
            &&& match position_of(x[i].1) {
                Some((longitude, latitude)) => shows(
                    tag,
                    row,
                    "longitude"@,
                    Cell::Float64(longitude),
                ) && shows(tag, row, "latitude"@, Cell::Float64(latitude)),
                None => shows(tag, row, "longitude"@, Cell::Null) && shows(
                    tag,
                    row,
                    "latitude"@,
                    Cell::Null,
                ),
            }
        }),
{
    let row = rows_of(TypeTag::Geo, e)[i];
    lemma_shows(TypeTag::Geo, row, 7);
    lemma_shows(TypeTag::Geo, row, 8);
    lemma_shows(TypeTag::Geo, row, 9);
    lemma_shows(TypeTag::Geo, row, 10);
    lemma_shows(TypeTag::Geo, row, 11);
}

/// A hash that is not empty makes a row for each field, in order, which shows the field, its
/// value and its expiry.
pub proof fn law_hash_rows(e: RdbEntryV, x: Seq<HashFieldV>, i: int)
    requires
        e.value == RdbValueV::Hash(x),
        0 <= i < x.len(),
    ensures
        ({
            let tag = TypeTag::Hash;
            let row = rows_of(tag, e)[i];
            &&& rows_of(tag, e).len() == x.len()
            &&& shows(tag, row, "field"@, Cell::Binary(x[i].field))
            &&& shows(tag, row, "field_value"@, Cell::Binary(x[i].value))
            &&& shows(
                tag,
                row,
                "field_expiry_ms"@,
                match x[i].expiry_ms {
                    Some(ms) => Cell::Int64(ms),
                    None => Cell::Null,
                },
            )
            &&& shows(tag, row, "num_elements"@, stated_count(e, x.len()))
        }),
{
    let row = rows_of(TypeTag::Hash, e)[i];
    lemma_shows(TypeTag::Hash, row, 7);
    lemma_shows(TypeTag::Hash, row, 8);
    lemma_shows(TypeTag::Hash, row, 9);
    lemma_shows(TypeTag::Hash, row, 10);
}

/// A module value that holds values makes a row for each of them, in order, which shows the
/// module, the index of the value, its kind, and the value in the one column for its kind.
pub proof fn law_module_rows(e: RdbEntryV, data: ModuleDataV, i: int)
    requires
        e.value == RdbValueV::Module(data),
        0 <= i < data.values.len() <= u32::MAX,
    ensures
        ({
            let tag = TypeTag::Module;
            let row = rows_of(tag, e)[i];
            &&& rows_of(tag, e).len() == data.values.len()
            &&& shows(tag, row, "module_name"@, Cell::Utf8(data.module_name))
            &&& shows(tag, row, "module_version"@, Cell::UInt32(data.module_version))
            &&& shows(tag, row, "value_index"@, Cell::UInt32(i as u32))
            &&& shows(tag, row, "num_elements"@, stated_count(e, data.values.len()))
            &&& match data.values[i] {
                ModuleValueV::SignedInt(n) => shows(tag, row, "opcode"@, Cell::Utf8("sint"@))
                    && exists|bits: u64|
                    (bits as int == n || bits as int == n + 0x1_0000_0000_0000_0000) && #[trigger]
                        shows(tag, row, "int_value"@, Cell::UInt64(bits)),
                ModuleValueV::UnsignedInt(n) => shows(tag, row, "opcode"@, Cell::Utf8("uint"@))
                    && shows(tag, row, "int_value"@, Cell::UInt64(n)),
                ModuleValueV::Float(x) => shows(tag, row, "opcode"@, Cell::Utf8("float"@))
                    && shows(tag, row, "double_value"@, Cell::Float64(widened(x))),
                ModuleValueV::Double(x) => shows(tag, row, "opcode"@, Cell::Utf8("double"@))
                    && shows(tag, row, "double_value"@, Cell::Float64(x)),
                ModuleValueV::String(b) => shows(tag, row, "opcode"@, Cell::Utf8("string"@))
                    && shows(tag, row, "string_value"@, Cell::Binary(b)),
            }
            &&& !(data.values[i] is SignedInt || data.values[i] is UnsignedInt) ==> shows(
                tag,
                row,
                "int_value"@,
                Cell::Null,
            )
            &&& !(data.values[i] is Float || data.values[i] is Double) ==> shows(
                tag,
                row,
                "double_value"@,
                Cell::Null,
            )
            &&& !(data.values[i] is String) ==> shows(tag, row, "string_value"@, Cell::Null)
        }),
{
    let tag = TypeTag::Module;
    let row = rows_of(tag, e)[i];
    let v = data.values[i];
    let own = seq![
        Cell::Utf8(data.module_name),
        Cell::UInt32(data.module_version),
        Cell::UInt32((i % 0x1_0000_0000) as u32),
        Cell::Utf8(opcode_label(v)),
    ] + module_value_cells(v);
    let common = crate::rows::common_cells(e, "module"@, crate::rows::element_count(e, data.values.len()));
    assert(row.cells == common + own);
    assert(forall|j: int| 0 <= j < 7 ==> #[trigger] own[j] == row.cells[8 + j]);
    assert(row.cells[7] == common[7]);
    assert(row.cells[8] == own[0] && row.cells[9] == own[1] && row.cells[10] == own[2]
        && row.cells[11] == own[3]);
    assert(row.cells[12] == module_value_cells(v)[0]);
    assert(row.cells[13] == module_value_cells(v)[1]);
    assert(row.cells[14] == module_value_cells(v)[2]);
    lemma_shows(tag, row, 7);
    lemma_shows(tag, row, 8);
    lemma_shows(tag, row, 9);
    lemma_shows(tag, row, 10);
    lemma_shows(tag, row, 11);
    lemma_shows(tag, row, 12);
    lemma_shows(tag, row, 13);
    lemma_shows(tag, row, 14);
    assert(columns_of(tag)[11].name == "opcode"@);
    assert(columns_of(tag)[12].name == "int_value"@);
    assert(columns_of(tag)[13].name == "double_value"@);
    assert(columns_of(tag)[14].name == "string_value"@);
    if let ModuleValueV::SignedInt(n) = v {
        assert(shows(tag, row, "int_value"@, Cell::UInt64(unsigned_bits(n))));
    }
}

/// The rows of stream entries come in order: those of entry `k` stand behind those of the
/// entries before it.
proof fn lemma_stream_place(e: RdbEntryV, count: u64, entries: Seq<StreamEntryV>, k: int, j: int)
    requires
        0 <= k < entries.len(),
        0 <= j < stream_entry_rows(e, count, entries[k]).len(),
    ensures
        stream_rows(entries.take(k)) + j < stream_table(e, count, entries).len(),
        stream_table(e, count, entries)[stream_rows(entries.take(k)) + j] == stream_entry_rows(
            e,
            count,
            entries[k],
        )[j],
    decreases entries.len(),
{
    let front = entries.drop_last();
    let table = stream_table(e, count, front);
    let all = stream_table(e, count, entries);
    lemma_table_size(e, count, front);
    if k < front.len() {
        lemma_stream_place(e, count, front, k, j);
        assert(front.take(k) == entries.take(k));
        let at = stream_rows(entries.take(k)) + j;
        assert(all[at] == table[at]);
    } else {
        assert(entries.take(k) == front);
    }
}

proof fn lemma_table_size(e: RdbEntryV, count: u64, entries: Seq<StreamEntryV>)
    ensures
        stream_table(e, count, entries).len() == stream_rows(entries),
    decreases entries.len(),
{
    if entries.len() > 0 {
        lemma_table_size(e, count, entries.drop_last());
    }
}

/// The rows of a stream show its entries in order: an entry makes a row for each of its
/// fields, which shows the ID of the entry, the field and its value. One without fields makes a
/// row with its ID alone.
pub proof fn law_stream_rows(e: RdbEntryV, data: StreamDataV, k: int, j: int)
    requires
        e.value == RdbValueV::Stream(data),
        0 <= k < data.entries.len(),
        0 <= j < data.entries[k].fields.len() || (j == 0 && data.entries[k].fields.len() == 0),
    ensures
        ({
            let tag = TypeTag::Stream;
            let at = stream_rows(data.entries.take(k)) + j;
            let row = rows_of(tag, e)[at];
            let fields = data.entries[k].fields;
            &&& at < rows_of(tag, e).len()
            &&& shows(tag, row, "stream_id"@, Cell::Utf8(data.entries[k].id))
            &&& fields.len() == 0 ==> shows(tag, row, "field"@, Cell::Null) && shows(
                tag,
                row,
                "field_value"@,
                Cell::Null,
            )
            &&& fields.len() > 0 ==> shows(tag, row, "field"@, Cell::Binary(fields[j].0)) && shows(
                tag,
                row,
                "field_value"@,
                Cell::Binary(fields[j].1),
            )
        }),
{
    let tag = TypeTag::Stream;
    let count = stream_count(data);
    lemma_stream_place(e, count, data.entries, k, j);
    let row = stream_entry_rows(e, count, data.entries[k])[j];
    assert(rows_of(tag, e) == stream_table(e, count, data.entries));
    lemma_shows(tag, row, 8);
    lemma_shows(tag, row, 9);
    lemma_shows(tag, row, 10);
}

/// How many rows stream entries make: one for each field, and one for an entry without any.
pub proof fn law_stream_row_count(entries: Seq<StreamEntryV>, s: StreamEntryV)
    ensures
        stream_rows(Seq::empty()) == 0,
        stream_rows(entries.push(s)) == stream_rows(entries) + if s.fields.len() == 0 {
            1
        } else {
            s.fields.len()
        },
{
    assert(entries.push(s).drop_last() == entries);
}

/// An empty collection makes one row, which shows that it has no elements and is null in the
/// columns of its type.
pub proof fn law_empty_collection_row(tag: TypeTag, e: RdbEntryV, j: int)
    requires
        (match (tag, e.value) {
            (TypeTag::List, RdbValueV::List(x)) => x.len() == 0,
            (TypeTag::UnorderedSet, RdbValueV::UnorderedSet(x)) => x.len() == 0,
            (TypeTag::SortedSet, RdbValueV::SortedSet(x)) => x.len() == 0,
            (TypeTag::Geo, RdbValueV::SortedSet(x)) => x.len() == 0,
            (TypeTag::Hash, RdbValueV::Hash(x)) => x.len() == 0,
            _ => false,
        }),
        8 <= j < columns_of(tag).len(),
    ensures
        rows_of(tag, e).len() == 1,
        shows(tag, rows_of(tag, e)[0], "num_elements"@, Cell::UInt64(0)),
        shows(tag, rows_of(tag, e)[0], columns_of(tag)[j].name, Cell::Null),
{
    let row = rows_of(tag, e)[0];
    lemma_shows(tag, row, 7);
    lemma_shows(tag, row, j);
}

/// An entry makes no rows in the table of another kind of value.
pub proof fn law_no_rows_elsewhere(tag: TypeTag, e: RdbEntryV)
    requires
        (match e.value {
            RdbValueV::String(_) => tag != TypeTag::String && tag != TypeTag::HyperLogLog,
            RdbValueV::List(_) => tag != TypeTag::List,
            RdbValueV::UnorderedSet(_) => tag != TypeTag::UnorderedSet,
            RdbValueV::SortedSet(_) => tag != TypeTag::SortedSet && tag != TypeTag::Geo,
            RdbValueV::Hash(_) => tag != TypeTag::Hash,
            RdbValueV::Module(_) => tag != TypeTag::Module,
            RdbValueV::Stream(_) => tag != TypeTag::Stream,
        }),
    ensures
        rows_of(tag, e).len() == 0,
{
}

} // verus!
