//! The rows that an entry makes in the table of its type.

use crate::columns::{Cell, CellRef, ColumnV};
use crate::detect;
use crate::double;
use crate::opcodes;
use crate::schema::{at_least_one, columns_of, common_columns, own_columns, row_count, stream_rows, tag_of, TypeTag};
use crate::types::{
    Double, HashField, HashFieldV, ModuleData, ModuleDataV, ModuleValue, ModuleValueV, RdbEntry,
    RdbEntryV, RdbValue, RdbValueV, StreamData, StreamEntry, StreamEntryV,
};
use vstd::prelude::*;

verus! {

/// One row: its cells, and the bytes that it counts for in a byte budget.
#[verifier::ext_equal]
pub struct RowV {
    pub cells: Seq<Cell>,
    pub weight: usize,
}

/// One row, ready to be appended.
#[derive(Debug)]
pub struct Row<'a> {
    pub cells: Vec<CellRef<'a>>,
    pub weight: usize,
}

/// Cells, each by what it holds.
pub open spec fn cells_of(cells: Seq<CellRef>) -> Seq<Cell> {
    Seq::new(cells.len(), |i: int| cells[i]@)
}

impl<'a> View for Row<'a> {
    type V = RowV;

    open spec fn view(&self) -> RowV {
        RowV { cells: cells_of(self.cells@), weight: self.weight }
    }
}

/// Rows, each by what it holds.
pub open spec fn shown(rows: Seq<Row>) -> Seq<RowV> {
    Seq::new(rows.len(), |i: int| rows[i]@)
}

/// A number of bytes that stops at the largest `usize`.
pub open spec fn saturated(n: nat) -> usize {
    if n > usize::MAX {
        usize::MAX
    } else {
        n as usize
    }
}

/// The length of a text in UTF-8.
pub open spec fn text_size(s: Seq<char>) -> nat {
    vstd::utf8::encode_utf8(s).len()
}

/// A 64-bit number that may be missing.
pub open spec fn u64_cell(v: Option<u64>) -> Cell {
    match v {
        None => Cell::Null,
        Some(x) => Cell::UInt64(x),
    }
}

/// A signed 64-bit number that may be missing.
pub open spec fn i64_cell(v: Option<i64>) -> Cell {
    match v {
        None => Cell::Null,
        Some(x) => Cell::Int64(x),
    }
}

/// An 8-bit number that may be missing.
pub open spec fn u8_cell(v: Option<u8>) -> Cell {
    match v {
        None => Cell::Null,
        Some(x) => Cell::UInt8(x),
    }
}

/// The cells of the common columns.
pub open spec fn common_cells(e: RdbEntryV, label: Seq<char>, count: u64) -> Seq<Cell> {
    seq![
        Cell::UInt32(e.db),
        Cell::Binary(e.key),
        Cell::Utf8(label),
        i64_cell(e.expiry_ms),
        u64_cell(e.lru_idle_secs),
        u8_cell(e.lfu_frequency),
        Cell::Utf8(opcodes::encoding_label(e.type_code)),
        Cell::UInt64(count),
    ]
}

/// A row: the common columns, those of the type, and the weight of the key and of the rest.
pub open spec fn row_of(
    e: RdbEntryV,
    label: Seq<char>,
    count: u64,
    own: Seq<Cell>,
    extra: nat,
) -> RowV {
    RowV { cells: common_cells(e, label, count) + own, weight: saturated(e.key.len() + extra) }
}

/// The number of elements that an entry states, or else has.
pub open spec fn element_count(e: RdbEntryV, n: nat) -> u64 {
    match e.total_elements {
        Some(total) => total,
        None => n as u64,
    }
}

/// The index of element `i` of an entry in the whole collection.
pub open spec fn element_index(e: RdbEntryV, i: int) -> u64 {
    let offset = match e.element_offset {
        Some(offset) => offset as int,
        None => 0,
    };
    if offset + i > u64::MAX {
        u64::MAX
    } else {
        (offset + i) as u64
    }
}

/// The row of a list element.
pub open spec fn list_row(e: RdbEntryV, items: Seq<Seq<u8>>, i: int) -> RowV {
    row_of(
        e,
        opcodes::type_label(e.type_code),
        element_count(e, items.len()),
        seq![Cell::UInt64(element_index(e, i)), Cell::Binary(items[i])],
        items[i].len(),
    )
}

/// The row of a set member.
pub open spec fn set_row(e: RdbEntryV, items: Seq<Seq<u8>>, i: int) -> RowV {
    row_of(
        e,
        opcodes::type_label(e.type_code),
        element_count(e, items.len()),
        seq![Cell::Binary(items[i])],
        items[i].len(),
    )
}

/// The row of a sorted-set member.
pub open spec fn sorted_set_row(e: RdbEntryV, pairs: Seq<(Seq<u8>, Double)>, i: int) -> RowV {
    row_of(
        e,
        opcodes::type_label(e.type_code),
        element_count(e, pairs.len()),
        seq![Cell::Binary(pairs[i].0), Cell::Float64(pairs[i].1)],
        pairs[i].0.len() + 8,
    )
}

/// The row of a hash field.
pub open spec fn hash_row(e: RdbEntryV, fields: Seq<HashFieldV>, i: int) -> RowV {
    row_of(
        e,
        opcodes::type_label(e.type_code),
        element_count(e, fields.len()),
        seq![
            Cell::Binary(fields[i].field),
            Cell::Binary(fields[i].value),
            i64_cell(fields[i].expiry_ms),
        ],
        fields[i].field.len() + fields[i].value.len(),
    )
}

/// The row of a sorted-set member whose score is a position.
pub open spec fn geo_row(e: RdbEntryV, pairs: Seq<(Seq<u8>, Double)>, i: int) -> RowV {
    let place = detect::position_of(pairs[i].1);
    row_of(
        e,
        "geo"@,
        element_count(e, pairs.len()),
        seq![
            Cell::Binary(pairs[i].0),
            match place {
                Some(p) => Cell::Float64(p.0),
                None => Cell::Null,
            },
            match place {
                Some(p) => Cell::Float64(p.1),
                None => Cell::Null,
            },
            Cell::Float64(pairs[i].1),
        ],
        pairs[i].0.len() + 24,
    )
}

/// The name of the kind of a module value.
pub open spec fn opcode_label(v: ModuleValueV) -> Seq<char> {
    match v {
        ModuleValueV::SignedInt(_) => "sint"@,
        ModuleValueV::UnsignedInt(_) => "uint"@,
        ModuleValueV::Float(_) => "float"@,
        ModuleValueV::Double(_) => "double"@,
        ModuleValueV::String(_) => "string"@,
    }
}

/// The bytes that a module value takes in its column.
pub open spec fn module_value_size(v: ModuleValueV) -> nat {
    match v {
        ModuleValueV::String(s) => s.len(),
        _ => 8,
    }
}

/// The 64 bits of a signed number, as an unsigned one.
pub open spec fn unsigned_bits(n: i64) -> u64 {
    if n < 0 {
        (n + 0x1_0000_0000_0000_0000) as u64
    } else {
        n as u64
    }
}

/// The cells of the three value columns of a module value. At most one is not null.
pub open spec fn module_value_cells(v: ModuleValueV) -> Seq<Cell> {
    match v {
        ModuleValueV::SignedInt(n) => seq![Cell::UInt64(unsigned_bits(n)), Cell::Null, Cell::Null],
        ModuleValueV::UnsignedInt(n) => seq![Cell::UInt64(n), Cell::Null, Cell::Null],
        ModuleValueV::Float(x) => seq![Cell::Null, Cell::Float64(double::widened(x)), Cell::Null],
        ModuleValueV::Double(x) => seq![Cell::Null, Cell::Float64(x), Cell::Null],
        ModuleValueV::String(s) => seq![Cell::Null, Cell::Null, Cell::Binary(s)],
    }
}

/// The row of a module value.
pub open spec fn module_row(e: RdbEntryV, data: ModuleDataV, i: int) -> RowV {
    row_of(
        e,
        "module"@,
        element_count(e, data.values.len()),
        seq![
            Cell::Utf8(data.module_name),
            Cell::UInt32(data.module_version),
            Cell::UInt32((i % 0x1_0000_0000) as u32),
            Cell::Utf8(opcode_label(data.values[i])),
        ] + module_value_cells(data.values[i]),
        text_size(data.module_name) + 8 + text_size(opcode_label(data.values[i]))
            + module_value_size(data.values[i]),
    )
}

/// The row of a module without values.
pub open spec fn empty_module_row(e: RdbEntryV, data: ModuleDataV) -> RowV {
    row_of(
        e,
        "module"@,
        0,
        seq![
            Cell::Utf8(data.module_name),
            Cell::UInt32(data.module_version),
            Cell::UInt32(0),
            Cell::Utf8("eof"@),
            Cell::Null,
            Cell::Null,
            Cell::Null,
        ],
        text_size(data.module_name) + 8 + text_size("eof"@),
    )
}

/// The rows of one stream entry: one for each field, one for an entry without fields.
pub open spec fn stream_entry_rows(e: RdbEntryV, count: u64, s: StreamEntryV) -> Seq<RowV> {
    if s.fields.len() == 0 {
        seq![
            row_of(
                e,
                "stream"@,
                count,
                seq![Cell::Utf8(s.id), Cell::Null, Cell::Null],
                text_size(s.id),
            ),
        ]
    } else {
        Seq::new(
            s.fields.len(),
            |i: int|
                row_of(
                    e,
                    "stream"@,
                    count,
                    seq![
                        Cell::Utf8(s.id),
                        Cell::Binary(s.fields[i].0),
                        Cell::Binary(s.fields[i].1),
                    ],
                    text_size(s.id) + s.fields[i].0.len() + s.fields[i].1.len(),
                ),
        )
    }
}

/// The rows of stream entries.
pub open spec fn stream_table(e: RdbEntryV, count: u64, entries: Seq<StreamEntryV>) -> Seq<RowV>
    decreases entries.len(),
{
    if entries.len() == 0 {
        Seq::empty()
    } else {
        stream_table(e, count, entries.drop_last()) + stream_entry_rows(e, count, entries.last())
    }
}

/// The row of an empty collection: nulls in the columns of its type.
pub open spec fn null_row(e: RdbEntryV, label: Seq<char>, count: u64, width: nat) -> RowV {
    row_of(e, label, count, Seq::new(width, |i: int| Cell::Null), 0)
}

/// The rows that an entry makes in the table of a type. An entry whose value is not of that
/// type makes none.
pub open spec fn rows_of(tag: TypeTag, e: RdbEntryV) -> Seq<RowV> {
    let label = opcodes::type_label(e.type_code);
    match (tag, e.value) {
        (TypeTag::String, RdbValueV::String(v)) => seq![
            row_of(e, label, 1, seq![Cell::Binary(v)], v.len()),
        ],
        (TypeTag::HyperLogLog, RdbValueV::String(v)) => seq![
            row_of(
                e,
                "hyperloglog"@,
                1,
                seq![
                    Cell::Utf8(detect::hll_encoding_name(v)),
                    Cell::Int64(detect::cached_cardinality(v) as i64),
                    Cell::Binary(v),
                ],
                v.len(),
            ),
        ],
        (TypeTag::List, RdbValueV::List(items)) => if items.len() == 0 {
            seq![null_row(e, label, 0, 2)]
        } else {
            Seq::new(items.len(), |i: int| list_row(e, items, i))
        },
        (TypeTag::UnorderedSet, RdbValueV::UnorderedSet(items)) => if items.len() == 0 {
            seq![null_row(e, label, 0, 1)]
        } else {
            Seq::new(items.len(), |i: int| set_row(e, items, i))
        },
        (TypeTag::SortedSet, RdbValueV::SortedSet(pairs)) => if pairs.len() == 0 {
            seq![null_row(e, label, 0, 2)]
        } else {
            Seq::new(pairs.len(), |i: int| sorted_set_row(e, pairs, i))
        },
        (TypeTag::Hash, RdbValueV::Hash(fields)) => if fields.len() == 0 {
            seq![null_row(e, label, 0, 3)]
        } else {
            Seq::new(fields.len(), |i: int| hash_row(e, fields, i))
        },
        (TypeTag::Geo, RdbValueV::SortedSet(pairs)) => if pairs.len() == 0 {
            seq![null_row(e, "geo"@, 0, 4)]
        } else {
            Seq::new(pairs.len(), |i: int| geo_row(e, pairs, i))
        },
        (TypeTag::Module, RdbValueV::Module(data)) => if data.values.len() == 0 {
            seq![empty_module_row(e, data)]
        } else {
            Seq::new(data.values.len(), |i: int| module_row(e, data, i))
        },
        (TypeTag::Stream, RdbValueV::Stream(data)) => {
            let count = if data.length > 0 {
                data.length
            } else {
                data.entries.len() as u64
            };
            if data.entries.len() == 0 {
                seq![null_row(e, "stream"@, count, 3)]
            } else {
                stream_table(e, count, data.entries)
            }
        },
        _ => Seq::empty(),
    }
}

// ---- Laws ----

/// Whether the cells of a row fit the columns of a table: as many as there are columns, each
/// of the kind of its column, and no null in a column without nulls.
pub open spec fn conforms(cells: Seq<Cell>, columns: Seq<ColumnV>) -> bool {
    &&& cells.len() == columns.len()
    &&& forall|j: int|
        0 <= j < columns.len() ==> (#[trigger] cells[j]).is_of(columns[j].kind) && (
        columns[j].nullable || cells[j] != Cell::Null)
}

proof fn lemma_row_conforms(
    e: RdbEntryV,
    label: Seq<char>,
    count: u64,
    own: Seq<Cell>,
    extra: nat,
    tag: TypeTag,
)
    requires
        conforms(own, own_columns(tag)),
    ensures
        conforms(row_of(e, label, count, own, extra).cells, columns_of(tag)),
{
    let cells = common_cells(e, label, count);
    assert(conforms(cells, common_columns()));
    let all = cells + own;
    assert forall|j: int| 0 <= j < columns_of(tag).len() implies (#[trigger] all[j]).is_of(
        columns_of(tag)[j].kind,
    ) && (columns_of(tag)[j].nullable || all[j] != Cell::Null) by {
        if j < 8 {
            assert(all[j] == cells[j]);
        } else {
            assert(all[j] == own[j - 8]);
        }
    }
}

proof fn lemma_stream_conforms(e: RdbEntryV, count: u64, entries: Seq<StreamEntryV>)
    ensures
        stream_table(e, count, entries).len() == stream_rows(entries),
        forall|i: int|
            0 <= i < stream_table(e, count, entries).len() ==> conforms(
                (#[trigger] stream_table(e, count, entries)[i]).cells,
                columns_of(TypeTag::Stream),
            ),
    decreases entries.len(),
{
    if entries.len() > 0 {
        lemma_stream_conforms(e, count, entries.drop_last());
        let before = stream_table(e, count, entries.drop_last());
        let s = entries.last();
        let last = stream_entry_rows(e, count, s);
        let all = stream_table(e, count, entries);
        assert(all == before + last);
        assert(last.len() == at_least_one(s.fields.len()));
        assert forall|k: int| 0 <= k < last.len() implies conforms(
            (#[trigger] last[k]).cells,
            columns_of(TypeTag::Stream),
        ) by {
            if s.fields.len() == 0 {
                let own = seq![Cell::Utf8(s.id), Cell::Null, Cell::Null];
                lemma_row_conforms(e, "stream"@, count, own, text_size(s.id), TypeTag::Stream);
            } else {
                let own = seq![
                    Cell::Utf8(s.id),
                    Cell::Binary(s.fields[k].0),
                    Cell::Binary(s.fields[k].1),
                ];
                lemma_row_conforms(
                    e,
                    "stream"@,
                    count,
                    own,
                    text_size(s.id) + s.fields[k].0.len() + s.fields[k].1.len(),
                    TypeTag::Stream,
                );
            }
        }
        assert forall|i: int| 0 <= i < all.len() implies conforms(
            (#[trigger] all[i]).cells,
            columns_of(TypeTag::Stream),
        ) by {
            if i < before.len() {
                assert(all[i] == before[i]);
            } else {
                assert(all[i] == last[i - before.len()]);
            }
        }
    }
}

/// Every row that an entry makes in the table of a type fits the columns of that type.
pub proof fn law_rows_conform(tag: TypeTag, e: RdbEntryV)
    ensures
        forall|i: int|
            0 <= i < rows_of(tag, e).len() ==> conforms(
                (#[trigger] rows_of(tag, e)[i]).cells,
                columns_of(tag),
            ),
{
    let rows = rows_of(tag, e);
    let columns = columns_of(tag);
    let label = opcodes::type_label(e.type_code);
    lemma_null_rows_conform(e, label);
    match e.value {
        RdbValueV::String(v) => {
            lemma_string_row_conforms(e, label, v);
            let own = seq![
                Cell::Utf8(detect::hll_encoding_name(v)),
                Cell::Int64(detect::cached_cardinality(v) as i64),
                Cell::Binary(v),
            ];
            lemma_hll_row_conforms(e, own, v.len());
        },
        RdbValueV::List(items) => {
            assert forall|i: int| 0 <= i < rows.len() implies conforms(
                (#[trigger] rows[i]).cells,
                columns,
            ) by {
                lemma_list_row_conforms(e, items, i);
            }
        },
        RdbValueV::UnorderedSet(items) => {
            assert forall|i: int| 0 <= i < rows.len() implies conforms(
                (#[trigger] rows[i]).cells,
                columns,
            ) by {
                lemma_set_row_conforms(e, items, i);
            }
        },
        RdbValueV::SortedSet(pairs) => {
            assert forall|i: int| 0 <= i < rows.len() implies conforms(
                (#[trigger] rows[i]).cells,
                columns,
            ) by {
                lemma_sorted_set_row_conforms(e, pairs, i);
            }
        },
        RdbValueV::Hash(fields) => {
            assert forall|i: int| 0 <= i < rows.len() implies conforms(
                (#[trigger] rows[i]).cells,
                columns,
            ) by {
                lemma_hash_row_conforms(e, fields, i);
            }
        },
        RdbValueV::Module(data) => {
            assert forall|i: int| 0 <= i < rows.len() implies conforms(
                (#[trigger] rows[i]).cells,
                columns,
            ) by {
                lemma_module_row_conforms(e, data, i);
            }
        },
        RdbValueV::Stream(data) => {
            let count = if data.length > 0 {
                data.length
            } else {
                data.entries.len() as u64
            };
            lemma_stream_conforms(e, count, data.entries);
            lemma_null_row_conforms(TypeTag::Stream, e, "stream"@, count, 3);
        },
    }
}

/// Nulls fit the columns of a type whose columns all may hold nulls.
proof fn lemma_null_row_conforms(tag: TypeTag, e: RdbEntryV, label: Seq<char>, count: u64, width: nat)
    requires
        width == own_columns(tag).len(),
        forall|j: int| 0 <= j < width ==> (#[trigger] own_columns(tag)[j]).nullable,
    ensures
        conforms(null_row(e, label, count, width).cells, columns_of(tag)),
{
    lemma_row_conforms(e, label, count, Seq::new(width, |i: int| Cell::Null), 0, tag);
}

proof fn lemma_string_row_conforms(e: RdbEntryV, label: Seq<char>, v: Seq<u8>)
    ensures
        conforms(
            row_of(e, label, 1, seq![Cell::Binary(v)], v.len()).cells,
            columns_of(TypeTag::String),
        ),
{
    lemma_row_conforms(e, label, 1, seq![Cell::Binary(v)], v.len(), TypeTag::String);
}

proof fn lemma_hll_row_conforms(e: RdbEntryV, own: Seq<Cell>, extra: nat)
    requires
        own.len() == 3,
        own[0] is Utf8,
        own[1] is Int64,
        own[2] is Binary,
    ensures
        conforms(
            row_of(e, "hyperloglog"@, 1, own, extra).cells,
            columns_of(TypeTag::HyperLogLog),
        ),
{
    lemma_row_conforms(e, "hyperloglog"@, 1, own, extra, TypeTag::HyperLogLog);
}

proof fn lemma_list_row_conforms(e: RdbEntryV, items: Seq<Seq<u8>>, i: int)
    ensures
        conforms(list_row(e, items, i).cells, columns_of(TypeTag::List)),
{
    let own = seq![Cell::UInt64(element_index(e, i)), Cell::Binary(items[i])];
    let label = opcodes::type_label(e.type_code);
    let count = element_count(e, items.len());
    lemma_row_conforms(e, label, count, own, items[i].len(), TypeTag::List);
}

proof fn lemma_set_row_conforms(e: RdbEntryV, items: Seq<Seq<u8>>, i: int)
    ensures
        conforms(set_row(e, items, i).cells, columns_of(TypeTag::UnorderedSet)),
{
    let own = seq![Cell::Binary(items[i])];
    let label = opcodes::type_label(e.type_code);
    let count = element_count(e, items.len());
    lemma_row_conforms(e, label, count, own, items[i].len(), TypeTag::UnorderedSet);
}

proof fn lemma_sorted_set_row_conforms(e: RdbEntryV, pairs: Seq<(Seq<u8>, Double)>, i: int)
    ensures
        conforms(sorted_set_row(e, pairs, i).cells, columns_of(TypeTag::SortedSet)),
        conforms(geo_row(e, pairs, i).cells, columns_of(TypeTag::Geo)),
{
    let own = seq![Cell::Binary(pairs[i].0), Cell::Float64(pairs[i].1)];
    let label = opcodes::type_label(e.type_code);
    let count = element_count(e, pairs.len());
    lemma_row_conforms(e, label, count, own, pairs[i].0.len() + 8, TypeTag::SortedSet);
    let place = detect::position_of(pairs[i].1);
    let own = seq![
        Cell::Binary(pairs[i].0),
        match place {
            Some(p) => Cell::Float64(p.0),
            None => Cell::Null,
        },
        match place {
            Some(p) => Cell::Float64(p.1),
            None => Cell::Null,
        },
        Cell::Float64(pairs[i].1),
    ];
    lemma_row_conforms(e, "geo"@, count, own, pairs[i].0.len() + 24, TypeTag::Geo);
}

proof fn lemma_hash_row_conforms(e: RdbEntryV, fields: Seq<HashFieldV>, i: int)
    ensures
        conforms(hash_row(e, fields, i).cells, columns_of(TypeTag::Hash)),
{
    let own = seq![
        Cell::Binary(fields[i].field),
        Cell::Binary(fields[i].value),
        i64_cell(fields[i].expiry_ms),
    ];
    let label = opcodes::type_label(e.type_code);
    let count = element_count(e, fields.len());
    let extra = fields[i].field.len() + fields[i].value.len();
    lemma_row_conforms(e, label, count, own, extra, TypeTag::Hash);
}

proof fn lemma_null_rows_conform(e: RdbEntryV, label: Seq<char>)
    ensures
        conforms(null_row(e, label, 0, 2).cells, columns_of(TypeTag::List)),
        conforms(null_row(e, label, 0, 1).cells, columns_of(TypeTag::UnorderedSet)),
        conforms(null_row(e, label, 0, 2).cells, columns_of(TypeTag::SortedSet)),
        conforms(null_row(e, label, 0, 3).cells, columns_of(TypeTag::Hash)),
        conforms(null_row(e, "geo"@, 0, 4).cells, columns_of(TypeTag::Geo)),
{
    lemma_null_row_conforms(TypeTag::List, e, label, 0, 2);
    lemma_null_row_conforms(TypeTag::UnorderedSet, e, label, 0, 1);
    lemma_null_row_conforms(TypeTag::SortedSet, e, label, 0, 2);
    lemma_null_row_conforms(TypeTag::Hash, e, label, 0, 3);
    lemma_null_row_conforms(TypeTag::Geo, e, "geo"@, 0, 4);
}

proof fn lemma_module_row_conforms(e: RdbEntryV, data: ModuleDataV, i: int)
    ensures
        conforms(empty_module_row(e, data).cells, columns_of(TypeTag::Module)),
        0 <= i < data.values.len() ==> conforms(
            module_row(e, data, i).cells,
            columns_of(TypeTag::Module),
        ),
{
    let empty = seq![
        Cell::Utf8(data.module_name),
        Cell::UInt32(data.module_version),
        Cell::UInt32(0),
        Cell::Utf8("eof"@),
        Cell::Null,
        Cell::Null,
        Cell::Null,
    ];
    let extra = text_size(data.module_name) + 8 + text_size("eof"@);
    lemma_row_conforms(e, "module"@, 0, empty, extra, TypeTag::Module);
    if 0 <= i < data.values.len() {
        let head = seq![
            Cell::Utf8(data.module_name),
            Cell::UInt32(data.module_version),
            Cell::UInt32((i % 0x1_0000_0000) as u32),
            Cell::Utf8(opcode_label(data.values[i])),
        ];
        let own = head + module_value_cells(data.values[i]);
        assert(own.len() == 7);
        assert(own[0] == head[0] && own[1] == head[1] && own[2] == head[2] && own[3] == head[3]);
        assert(own[4] == module_value_cells(data.values[i])[0]);
        assert(own[5] == module_value_cells(data.values[i])[1]);
        assert(own[6] == module_value_cells(data.values[i])[2]);
        let extra = text_size(data.module_name) + 8 + text_size(opcode_label(data.values[i]))
            + module_value_size(data.values[i]);
        let count = element_count(e, data.values.len());
        lemma_row_conforms(e, "module"@, count, own, extra, TypeTag::Module);
    }
}

/// An entry makes, in the table of its type, as many rows as are expected of it. A sorted set
/// makes as many in the table of geo data.
pub proof fn law_expected_rows(e: RdbEntryV)
    ensures
        rows_of(tag_of(e), e).len() == row_count(e.value),
        tag_of(e) == TypeTag::SortedSet ==> rows_of(TypeTag::Geo, e).len() == row_count(e.value),
        row_count(e.value) > 0,
{
    match e.value {
        RdbValueV::Stream(data) => {
            let count = if data.length > 0 {
                data.length
            } else {
                data.entries.len() as u64
            };
            lemma_stream_conforms(e, count, data.entries);
            if data.entries.len() > 0 {
                assert(stream_rows(data.entries) > 0);
            }
        },
        _ => {},
    }
}

// ---- Making the rows ----

/// The bytes of three parts together, up to the largest `usize`.
fn sum3(a: usize, b: usize, c: usize) -> (r: usize)
    ensures
        r == saturated((a + b + c) as nat),
{
    a.saturating_add(b).saturating_add(c)
}

fn text_bytes(s: &str) -> (r: usize)
    ensures
        r == text_size(s@),
{
    s.as_bytes().len()
}

/// Makes one row.
fn make_row<'a>(
    e: &'a RdbEntry,
    label: &'a str,
    count: u64,
    own: Vec<CellRef<'a>>,
    extra: usize,
) -> (r: Row<'a>)
    ensures
        r@ == row_of(e@, label@, count, cells_of(own@), extra as nat),
{
    let expiry = match e.expiry_ms {
        None => CellRef::Null,
        Some(x) => CellRef::Int64(x),
    };
    let idle = match e.lru_idle_secs {
        None => CellRef::Null,
        Some(x) => CellRef::UInt64(x),
    };
    let frequency = match e.lfu_frequency {
        None => CellRef::Null,
        Some(x) => CellRef::UInt8(x),
    };
    let mut cells: Vec<CellRef<'a>> = vec![
        CellRef::UInt32(e.db),
        CellRef::Binary(e.key.as_slice()),
        CellRef::Utf8(label),
        expiry,
        idle,
        frequency,
        CellRef::Utf8(e.encoding_name()),
        CellRef::UInt64(count),
    ];
    assert(cells_of(cells@) == common_cells(e@, label@, count));
    let ghost common = cells@;
    let mut i: usize = 0;
    while i < own.len()
        invariant
            i <= own@.len(),
            cells@ == common + own@.take(i as int),
        decreases own@.len() - i,
    {
        cells.push(own[i]);
        i += 1;
        assert(cells@ == common + own@.take(i as int));
    }
    assert(own@.take(i as int) == own@);
    assert(cells_of(cells@) == common_cells(e@, label@, count) + cells_of(own@));
    Row { cells, weight: e.key.len().saturating_add(extra) }
}

fn nulls<'a>(width: usize) -> (r: Vec<CellRef<'a>>)
    ensures
        cells_of(r@) == Seq::new(width as nat, |i: int| Cell::Null),
{
    let mut v: Vec<CellRef<'a>> = Vec::new();
    while v.len() < width
        invariant
            v@.len() <= width,
            forall|k: int| 0 <= k < v@.len() ==> (#[trigger] v@[k])@ == Cell::Null,
        decreases width - v@.len(),
    {
        v.push(CellRef::Null);
    }
    assert(cells_of(v@) == Seq::new(width as nat, |i: int| Cell::Null));
    v
}

/// The only row of an entry.
fn single<'a>(row: Row<'a>) -> (r: Vec<Row<'a>>)
    ensures
        shown(r@) == seq![row@],
{
    let r = vec![row];
    assert(shown(r@) == seq![row@]);
    r
}

fn count_for(e: &RdbEntry, n: usize) -> (r: u64)
    ensures
        r == element_count(e@, n as nat),
{
    match e.total_elements {
        Some(total) => total,
        None => n as u64,
    }
}

fn list_rows<'a>(e: &'a RdbEntry, items: &'a Vec<Vec<u8>>) -> (r: Vec<Row<'a>>)
    requires
        e.value == RdbValue::List(*items),
    ensures
        shown(r@) == rows_of(TypeTag::List, e@),
{
    let label: &'a str = e.logical_type_name();
    if items.len() == 0 {
        return single(make_row(e, label, 0, nulls(2), 0));
    }
    let count: u64 = count_for(e, items.len());
    let offset: u64 = match e.element_offset {
        Some(offset) => offset,
        None => 0,
    };
    let mut rows: Vec<Row<'a>> = Vec::new();
    let ghost all = rows_of(TypeTag::List, e@);
    while rows.len() < items.len()
        invariant
            rows@.len() <= items@.len(),
            items@.len() > 0,
            e.value == RdbValue::List(*items),
            all == rows_of(TypeTag::List, e@),
            label@ == opcodes::type_label(e.type_code),
            count == element_count(e@, items@.len()),
            offset == (match e.element_offset {
                Some(offset) => offset,
                None => 0,
            }),
            shown(rows@) == all.take(rows@.len() as int),
        decreases items@.len() - rows@.len(),
    {
        let i: usize = rows.len();
        let own = vec![
            CellRef::UInt64(offset.saturating_add(i as u64)),
            CellRef::Binary(items[i].as_slice()),
        ];
        let row = make_row(e, label, count, own, items[i].len());
        assert(e@.value->List_0[i as int] == items@[i as int]@);
        assert(cells_of(own@) == seq![
            Cell::UInt64(element_index(e@, i as int)),
            Cell::Binary(items@[i as int]@),
        ]);
        assert(row@ == all[i as int]);
        rows.push(row);
        assert(shown(rows@) == all.take(rows@.len() as int));
    }
    assert(all.take(rows@.len() as int) == all);
    rows
}

fn set_rows<'a>(e: &'a RdbEntry, items: &'a Vec<Vec<u8>>) -> (r: Vec<Row<'a>>)
    requires
        e.value == RdbValue::UnorderedSet(*items),
    ensures
        shown(r@) == rows_of(TypeTag::UnorderedSet, e@),
{
    let label: &'a str = e.logical_type_name();
    if items.len() == 0 {
        return single(make_row(e, label, 0, nulls(1), 0));
    }
    let count: u64 = count_for(e, items.len());
    let mut rows: Vec<Row<'a>> = Vec::new();
    let ghost all = rows_of(TypeTag::UnorderedSet, e@);
    while rows.len() < items.len()
        invariant
            rows@.len() <= items@.len(),
            items@.len() > 0,
            e.value == RdbValue::UnorderedSet(*items),
            all == rows_of(TypeTag::UnorderedSet, e@),
            label@ == opcodes::type_label(e.type_code),
            count == element_count(e@, items@.len()),
            shown(rows@) == all.take(rows@.len() as int),
        decreases items@.len() - rows@.len(),
    {
        let i: usize = rows.len();
        let own = vec![CellRef::Binary(items[i].as_slice())];
        let row = make_row(e, label, count, own, items[i].len());
        assert(e@.value->UnorderedSet_0[i as int] == items@[i as int]@);
        assert(cells_of(own@) == seq![Cell::Binary(items@[i as int]@)]);
        assert(row@ == all[i as int]);
        rows.push(row);
        assert(shown(rows@) == all.take(rows@.len() as int));
    }
    assert(all.take(rows@.len() as int) == all);
    rows
}

fn sorted_set_rows<'a>(e: &'a RdbEntry, pairs: &'a Vec<(Vec<u8>, Double)>) -> (r: Vec<Row<'a>>)
    requires
        e.value == RdbValue::SortedSet(*pairs),
    ensures
        shown(r@) == rows_of(TypeTag::SortedSet, e@),
{
    let label: &'a str = e.logical_type_name();
    if pairs.len() == 0 {
        return single(make_row(e, label, 0, nulls(2), 0));
    }
    let count: u64 = count_for(e, pairs.len());
    let mut rows: Vec<Row<'a>> = Vec::new();
    let ghost all = rows_of(TypeTag::SortedSet, e@);
    while rows.len() < pairs.len()
        invariant
            rows@.len() <= pairs@.len(),
            pairs@.len() > 0,
            e.value == RdbValue::SortedSet(*pairs),
            all == rows_of(TypeTag::SortedSet, e@),
            label@ == opcodes::type_label(e.type_code),
            count == element_count(e@, pairs@.len()),
            shown(rows@) == all.take(rows@.len() as int),
        decreases pairs@.len() - rows@.len(),
    {
        let i: usize = rows.len();
        let own = vec![CellRef::Binary(pairs[i].0.as_slice()), CellRef::Float64(pairs[i].1)];
        let row = make_row(e, label, count, own, pairs[i].0.len().saturating_add(8));
        assert(e@.value->SortedSet_0[i as int] == (pairs@[i as int].0@, pairs@[i as int].1));
        assert(cells_of(own@) == seq![
            Cell::Binary(pairs@[i as int].0@),
            Cell::Float64(pairs@[i as int].1),
        ]);
        assert(row@ == all[i as int]);
        rows.push(row);
        assert(shown(rows@) == all.take(rows@.len() as int));
    }
    assert(all.take(rows@.len() as int) == all);
    rows
}

fn geo_rows<'a>(e: &'a RdbEntry, pairs: &'a Vec<(Vec<u8>, Double)>) -> (r: Vec<Row<'a>>)
    requires
        e.value == RdbValue::SortedSet(*pairs),
    ensures
        shown(r@) == rows_of(TypeTag::Geo, e@),
{
    if pairs.len() == 0 {
        return single(make_row(e, "geo", 0, nulls(4), 0));
    }
    let count: u64 = count_for(e, pairs.len());
    let mut rows: Vec<Row<'a>> = Vec::new();
    let ghost all = rows_of(TypeTag::Geo, e@);
    while rows.len() < pairs.len()
        invariant
            rows@.len() <= pairs@.len(),
            pairs@.len() > 0,
            e.value == RdbValue::SortedSet(*pairs),
            all == rows_of(TypeTag::Geo, e@),
            count == element_count(e@, pairs@.len()),
            shown(rows@) == all.take(rows@.len() as int),
        decreases pairs@.len() - rows@.len(),
    {
        let i: usize = rows.len();
        let place = detect::geohash_decode(pairs[i].1);
        let (longitude, latitude) = match place {
            Some((x, y)) => (CellRef::Float64(x), CellRef::Float64(y)),
            None => (CellRef::Null, CellRef::Null),
        };
        let own = vec![
            CellRef::Binary(pairs[i].0.as_slice()),
            longitude,
            latitude,
            CellRef::Float64(pairs[i].1),
        ];
        let row = make_row(e, "geo", count, own, pairs[i].0.len().saturating_add(24));
        assert(e@.value->SortedSet_0[i as int] == (pairs@[i as int].0@, pairs@[i as int].1));
        assert(cells_of(own@) == seq![
            Cell::Binary(pairs@[i as int].0@),
            longitude@,
            latitude@,
            Cell::Float64(pairs@[i as int].1),
        ]);
        assert(row@ == all[i as int]);
        rows.push(row);
        assert(shown(rows@) == all.take(rows@.len() as int));
    }
    assert(all.take(rows@.len() as int) == all);
    rows
}

fn hash_rows<'a>(e: &'a RdbEntry, fields: &'a Vec<HashField>) -> (r: Vec<Row<'a>>)
    requires
        e.value == RdbValue::Hash(*fields),
    ensures
        shown(r@) == rows_of(TypeTag::Hash, e@),
{
    let label: &'a str = e.logical_type_name();
    if fields.len() == 0 {
        return single(make_row(e, label, 0, nulls(3), 0));
    }
    let count: u64 = count_for(e, fields.len());
    let mut rows: Vec<Row<'a>> = Vec::new();
    let ghost all = rows_of(TypeTag::Hash, e@);
    while rows.len() < fields.len()
        invariant
            rows@.len() <= fields@.len(),
            fields@.len() > 0,
            e.value == RdbValue::Hash(*fields),
            all == rows_of(TypeTag::Hash, e@),
            label@ == opcodes::type_label(e.type_code),
            count == element_count(e@, fields@.len()),
            shown(rows@) == all.take(rows@.len() as int),
        decreases fields@.len() - rows@.len(),
    {
        let i: usize = rows.len();
        let field = &fields[i];
        let expiry = match field.expiry_ms {
            None => CellRef::Null,
            Some(x) => CellRef::Int64(x),
        };
        let own = vec![
            CellRef::Binary(field.field.as_slice()),
            CellRef::Binary(field.value.as_slice()),
            expiry,
        ];
        let row = make_row(e, label, count, own, field.field.len().saturating_add(field.value.len()));
        assert(e@.value->Hash_0[i as int] == fields@[i as int]@);
        assert(cells_of(own@) == seq![
            Cell::Binary(field.field@),
            Cell::Binary(field.value@),
            i64_cell(field.expiry_ms),
        ]);
        assert(row@ == all[i as int]);
        rows.push(row);
        assert(shown(rows@) == all.take(rows@.len() as int));
    }
    assert(all.take(rows@.len() as int) == all);
    rows
}

/// The `opcode` column of a module value.
pub fn module_opcode(v: &ModuleValue) -> (r: &'static str)
    ensures
        r@ == opcode_label(v@),
{
    match v {
        ModuleValue::SignedInt(_) => "sint",
        ModuleValue::UnsignedInt(_) => "uint",
        ModuleValue::Float(_) => "float",
        ModuleValue::Double(_) => "double",
        ModuleValue::String(_) => "string",
    }
}

/// The bytes of the value column of a module value. Floats of either width are stored as
/// 64-bit floats.
fn module_value_bytes(v: &ModuleValue) -> (r: usize)
    ensures
        r == module_value_size(v@),
{
    match v {
        ModuleValue::String(s) => s.len(),
        _ => 8,
    }
}

/// The bytes of a module row in the columns of its type: the module name, the version and
/// the index with four bytes each, the opcode name and the value.
fn module_row_bytes(data: &ModuleData, v: &ModuleValue) -> (r: usize)
    ensures
        r == saturated(
            text_size(data.module_name@) + 8 + text_size(opcode_label(v@)) + module_value_size(v@),
        ),
{
    let name: usize = text_bytes(data.module_name.as_str());
    let opcode: usize = text_bytes(module_opcode(v));
    sum3(name, 8, opcode).saturating_add(module_value_bytes(v))
}

/// The bytes of the row of a module without values.
fn empty_module_row_bytes(data: &ModuleData) -> (r: usize)
    ensures
        r == saturated(text_size(data.module_name@) + 8 + text_size("eof"@)),
{
    let name: usize = text_bytes(data.module_name.as_str());
    sum3(name, 8, text_bytes("eof"))
}

fn module_rows<'a>(e: &'a RdbEntry, data: &'a ModuleData) -> (r: Vec<Row<'a>>)
    requires
        e.value == RdbValue::Module(*data),
    ensures
        shown(r@) == rows_of(TypeTag::Module, e@),
{
    let name: &'a str = data.module_name.as_str();
    if data.values.len() == 0 {
        let own = vec![
            CellRef::Utf8(name),
            CellRef::UInt32(data.module_version),
            CellRef::UInt32(0),
            CellRef::Utf8("eof"),
            CellRef::Null,
            CellRef::Null,
            CellRef::Null,
        ];
        let row = make_row(e, "module", 0, own, empty_module_row_bytes(data));
        assert(cells_of(own@) == seq![
            Cell::Utf8(name@),
            Cell::UInt32(data.module_version),
            Cell::UInt32(0),
            Cell::Utf8("eof"@),
            Cell::Null,
            Cell::Null,
            Cell::Null,
        ]);
        assert(row@ == empty_module_row(e@, data@));
        return single(row);
    }
    let count: u64 = count_for(e, data.values.len());
    let mut rows: Vec<Row<'a>> = Vec::new();
    let ghost all = rows_of(TypeTag::Module, e@);
    while rows.len() < data.values.len()
        invariant
            rows@.len() <= data.values@.len(),
            data.values@.len() > 0,
            e.value == RdbValue::Module(*data),
            all == rows_of(TypeTag::Module, e@),
            name@ == data.module_name@,
            count == element_count(e@, data.values@.len()),
            shown(rows@) == all.take(rows@.len() as int),
        decreases data.values@.len() - rows@.len(),
    {
        let i: usize = rows.len();
        let value = &data.values[i];
        let (int_value, double_value, string_value) = match value {
            ModuleValue::SignedInt(n) => (
                CellRef::UInt64(bits_of(*n)),
                CellRef::Null,
                CellRef::Null,
            ),
            ModuleValue::UnsignedInt(n) => (CellRef::UInt64(*n), CellRef::Null, CellRef::Null),
            ModuleValue::Float(x) => (
                CellRef::Null,
                CellRef::Float64(Double::from_single(*x)),
                CellRef::Null,
            ),
            ModuleValue::Double(x) => (CellRef::Null, CellRef::Float64(*x), CellRef::Null),
            ModuleValue::String(s) => (
                CellRef::Null,
                CellRef::Null,
                CellRef::Binary(s.as_slice()),
            ),
        };
        assert(module_value_cells(value@) == seq![int_value@, double_value@, string_value@]);
        let own = vec![
            CellRef::Utf8(name),
            CellRef::UInt32(data.module_version),
            CellRef::UInt32((i as u64 % 0x1_0000_0000) as u32),
            CellRef::Utf8(module_opcode(value)),
            int_value,
            double_value,
            string_value,
        ];
        let row = make_row(e, "module", count, own, module_row_bytes(data, value));
        assert(e@.value->Module_0.values[i as int] == data.values@[i as int]@);
        assert(cells_of(own@) == seq![
            Cell::Utf8(name@),
            Cell::UInt32(data.module_version),
            Cell::UInt32((i as int % 0x1_0000_0000) as u32),
            Cell::Utf8(opcode_label(value@)),
        ] + module_value_cells(value@));
        assert(row@ == module_row(e@, data@, i as int));
        assert(row@ == all[i as int]);
        rows.push(row);
        assert(shown(rows@) == all.take(rows@.len() as int));
    }
    assert(all.take(rows@.len() as int) == all);
    rows
}

fn bits_of(n: i64) -> (r: u64)
    ensures
        r == unsigned_bits(n),
{
    if n >= 0 {
        n as u64
    } else {
        (0x1_0000_0000_0000_0000i128 + n as i128) as u64
    }
}

/// Adds the rows of one stream entry.
fn push_stream_entry<'a>(
    e: &'a RdbEntry,
    count: u64,
    s: &'a StreamEntry,
    rows: &mut Vec<Row<'a>>,
)
    ensures
        shown(final(rows)@) == shown(old(rows)@) + stream_entry_rows(e@, count, s@),
{
    let id: &'a str = s.id.as_str();
    let id_bytes: usize = text_bytes(id);
    let ghost before = shown(rows@);
    let ghost all = stream_entry_rows(e@, count, s@);
    if s.fields.len() == 0 {
        let own = vec![CellRef::Utf8(id), CellRef::Null, CellRef::Null];
        let row = make_row(e, "stream", count, own, id_bytes);
        assert(cells_of(own@) == seq![Cell::Utf8(id@), Cell::Null, Cell::Null]);
        assert(row@ == all[0]);
        rows.push(row);
        assert(shown(rows@) == before + all);
        return;
    }
    let mut i: usize = 0;
    assert(shown(rows@) == before + all.take(0));
    while i < s.fields.len()
        invariant
            i <= s.fields@.len(),
            s.fields@.len() > 0,
            id@ == s.id@,
            id_bytes == text_size(id@),
            all == stream_entry_rows(e@, count, s@),
            shown(rows@) == before + all.take(i as int),
        decreases s.fields@.len() - i,
    {
        let pair = &s.fields[i];
        let own = vec![
            CellRef::Utf8(id),
            CellRef::Binary(pair.0.as_slice()),
            CellRef::Binary(pair.1.as_slice()),
        ];
        let row = make_row(e, "stream", count, own, sum3(id_bytes, pair.0.len(), pair.1.len()));
        assert(s@.fields[i as int] == (pair.0@, pair.1@));
        assert(cells_of(own@) == seq![
            Cell::Utf8(id@),
            Cell::Binary(pair.0@),
            Cell::Binary(pair.1@),
        ]);
        assert(row@ == all[i as int]);
        let ghost prior = shown(rows@);
        rows.push(row);
        assert(shown(rows@) == prior.push(row@));
        i += 1;
        assert(shown(rows@) == before + all.take(i as int));
    }
    assert(all.take(i as int) == all);
}

fn stream_rows_for<'a>(e: &'a RdbEntry, data: &'a StreamData) -> (r: Vec<Row<'a>>)
    requires
        e.value == RdbValue::Stream(*data),
    ensures
        shown(r@) == rows_of(TypeTag::Stream, e@),
{
    let count: u64 = if data.length > 0 {
        data.length
    } else {
        data.entries.len() as u64
    };
    if data.entries.len() == 0 {
        return single(make_row(e, "stream", count, nulls(3), 0));
    }
    let mut rows: Vec<Row<'a>> = Vec::new();
    let ghost entries = data@.entries;
    let mut i: usize = 0;
    assert(entries.take(0) == Seq::<StreamEntryV>::empty());
    assert(shown(rows@) == stream_table(e@, count, entries.take(0)));
    while i < data.entries.len()
        invariant
            i <= data.entries@.len(),
            entries == data@.entries,
            shown(rows@) == stream_table(e@, count, entries.take(i as int)),
        decreases data.entries@.len() - i,
    {
        assert(entries.take(i + 1).drop_last() == entries.take(i as int));
        assert(entries.take(i + 1).last() == data.entries@[i as int]@);
        push_stream_entry(e, count, &data.entries[i], &mut rows);
        i += 1;
    }
    assert(entries.take(i as int) == entries);
    rows
}

/// Makes the rows of an entry in the table of a type.
pub fn make_rows<'a>(tag: TypeTag, e: &'a RdbEntry) -> (r: Vec<Row<'a>>)
    ensures
        shown(r@) == rows_of(tag, e@),
{
    match (tag, &e.value) {
        (TypeTag::String, RdbValue::String(v)) => {
            let own = vec![CellRef::Binary(v.as_slice())];
            assert(cells_of(own@) == seq![Cell::Binary(v@)]);
            single(make_row(e, e.logical_type_name(), 1, own, v.len()))
        },
        (TypeTag::HyperLogLog, RdbValue::String(v)) => {
            let own = vec![
                CellRef::Utf8(detect::hll_encoding(v.as_slice())),
                CellRef::Int64(detect::hll_cached_cardinality(v.as_slice())),
                CellRef::Binary(v.as_slice()),
            ];
            assert(cells_of(own@) == seq![
                Cell::Utf8(detect::hll_encoding_name(v@)),
                Cell::Int64(detect::cached_cardinality(v@) as i64),
                Cell::Binary(v@),
            ]);
            single(make_row(e, "hyperloglog", 1, own, v.len()))
        },
        (TypeTag::List, RdbValue::List(items)) => list_rows(e, items),
        (TypeTag::UnorderedSet, RdbValue::UnorderedSet(items)) => set_rows(e, items),
        (TypeTag::SortedSet, RdbValue::SortedSet(pairs)) => sorted_set_rows(e, pairs),
        (TypeTag::Hash, RdbValue::Hash(fields)) => hash_rows(e, fields),
        (TypeTag::Geo, RdbValue::SortedSet(pairs)) => geo_rows(e, pairs),
        (TypeTag::Module, RdbValue::Module(data)) => module_rows(e, data),
        (TypeTag::Stream, RdbValue::Stream(data)) => stream_rows_for(e, data),
        _ => {
            let r: Vec<Row<'a>> = Vec::new();
            assert(shown(r@) == rows_of(tag, e@));
            r
        },
    }
}

} // verus!
