//! Arrow columns and the builders that fill them.

use crate::types::Double;
use arrow::array::{
    ArrayRef, BinaryBuilder, Float64Builder, Int64Builder, RecordBatch, StringBuilder,
    UInt32Builder, UInt64Builder, UInt8Builder,
};
use arrow::datatypes::{ArrowPrimitiveType, DataType, Field, Float64Type, Schema};
use arrow::error::ArrowError;
use std::sync::Arc;
use vstd::prelude::*;

verus! {

/// What a column holds.
#[derive(Debug, Clone, Copy, PartialEq, Eq, Structural)]
pub enum ColumnKind {
    UInt8,
    UInt32,
    UInt64,
    Int64,
    Float64,
    Binary,
    Utf8,
}

impl ColumnKind {
    /// The name of the kind.
    pub open spec fn label(self) -> Seq<char> {
        match self {
            ColumnKind::UInt8 => "UInt8"@,
            ColumnKind::UInt32 => "UInt32"@,
            ColumnKind::UInt64 => "UInt64"@,
            ColumnKind::Int64 => "Int64"@,
            ColumnKind::Float64 => "Float64"@,
            ColumnKind::Binary => "Binary"@,
            ColumnKind::Utf8 => "Utf8"@,
        }
    }

    /// The name of the kind.
    pub fn as_str(self) -> (r: &'static str)
        ensures
            r@ == self.label(),
    {
        match self {
            ColumnKind::UInt8 => "UInt8",
            ColumnKind::UInt32 => "UInt32",
            ColumnKind::UInt64 => "UInt64",
            ColumnKind::Int64 => "Int64",
            ColumnKind::Float64 => "Float64",
            ColumnKind::Binary => "Binary",
            ColumnKind::Utf8 => "Utf8",
        }
    }
}

/// The value of one column in one row.
#[verifier::ext_equal]
pub enum Cell {
    Null,
    UInt8(u8),
    UInt32(u32),
    UInt64(u64),
    Int64(i64),
    Float64(Double),
    Binary(Seq<u8>),
    Utf8(Seq<char>),
}

impl Cell {
    /// Whether the cell can stand in a column of the given kind, nulls apart.
    pub open spec fn is_of(self, kind: ColumnKind) -> bool {
        match self {
            Cell::Null => true,
            Cell::UInt8(_) => kind == ColumnKind::UInt8,
            Cell::UInt32(_) => kind == ColumnKind::UInt32,
            Cell::UInt64(_) => kind == ColumnKind::UInt64,
            Cell::Int64(_) => kind == ColumnKind::Int64,
            Cell::Float64(_) => kind == ColumnKind::Float64,
            Cell::Binary(_) => kind == ColumnKind::Binary,
            Cell::Utf8(_) => kind == ColumnKind::Utf8,
        }
    }

    /// The number of bytes of variable length.
    pub open spec fn size(self) -> nat {
        match self {
            Cell::Binary(b) => b.len(),
            Cell::Utf8(s) => vstd::utf8::encode_utf8(s).len(),
            _ => 0,
        }
    }
}

/// A cell to be appended.
#[derive(Debug, Clone, Copy)]
pub enum CellRef<'a> {
    Null,
    UInt8(u8),
    UInt32(u32),
    UInt64(u64),
    Int64(i64),
    Float64(Double),
    Binary(&'a [u8]),
    Utf8(&'a str),
}

impl<'a> View for CellRef<'a> {
    type V = Cell;

    open spec fn view(&self) -> Cell {
        match *self {
            CellRef::Null => Cell::Null,
            CellRef::UInt8(n) => Cell::UInt8(n),
            CellRef::UInt32(n) => Cell::UInt32(n),
            CellRef::UInt64(n) => Cell::UInt64(n),
            CellRef::Int64(n) => Cell::Int64(n),
            CellRef::Float64(d) => Cell::Float64(d),
            CellRef::Binary(b) => Cell::Binary(b@),
            CellRef::Utf8(s) => Cell::Utf8(s@),
        }
    }
}

/// Whether one more row can be held after `rows`. The buffers of a builder grow by doubling
/// and have to stay within the address space.
pub open spec fn room_for_row(rows: int) -> bool {
    (rows + 16) * 32 <= isize::MAX
}

/// Whether a column can hold that many bytes of variable length. Their offsets are signed
/// 32-bit numbers.
pub open spec fn room_for_bytes(total: int) -> bool {
    total <= i32::MAX && 2 * total + 256 <= isize::MAX
}

/// The bytes of variable length that cells have together.
pub open spec fn total_size(cells: Seq<Cell>) -> nat
    decreases cells.len(),
{
    if cells.len() == 0 {
        0
    } else {
        total_size(cells.drop_last()) + cells.last().size()
    }
}

/// The first of the cells have no more bytes than all of them.
pub proof fn lemma_total_size_take(cells: Seq<Cell>, n: int)
    requires
        0 <= n <= cells.len(),
    ensures
        total_size(cells.take(n)) <= total_size(cells),
    decreases cells.len() - n,
{
    if n < cells.len() {
        assert(cells.take(n + 1).drop_last() == cells.take(n));
        lemma_total_size_take(cells, n + 1);
    } else {
        assert(cells.take(n) == cells);
    }
}

/// Two runs of cells have their bytes together.
pub proof fn lemma_total_size_concat(a: Seq<Cell>, b: Seq<Cell>)
    ensures
        total_size(a + b) == total_size(a) + total_size(b),
    decreases b.len(),
{
    if b.len() == 0 {
        assert(a + b == a);
    } else {
        assert((a + b).drop_last() == a + b.drop_last());
        lemma_total_size_concat(a, b.drop_last());
    }
}

// ---- Outside types ----

/// A collection of 8-bit integers and nulls: an `arrow::array::UInt8Builder`.
#[verifier::external_body]
#[derive(Debug)]
pub struct U8Builder {
    inner: UInt8Builder,
}

/// A collection of 32-bit integers and nulls: an `arrow::array::UInt32Builder`.
#[verifier::external_body]
#[derive(Debug)]
pub struct U32Builder {
    inner: UInt32Builder,
}

/// A collection of 64-bit integers and nulls: an `arrow::array::UInt64Builder`.
#[verifier::external_body]
#[derive(Debug)]
pub struct U64Builder {
    inner: UInt64Builder,
}

/// A collection of signed 64-bit integers and nulls: an `arrow::array::Int64Builder`.
#[verifier::external_body]
#[derive(Debug)]
pub struct I64Builder {
    inner: Int64Builder,
}

/// A collection of binary64 numbers and nulls: an `arrow::array::Float64Builder`.
#[verifier::external_body]
#[derive(Debug)]
pub struct DoubleBuilder {
    inner: Float64Builder,
}

/// A collection of byte strings and nulls: an `arrow::array::BinaryBuilder`.
#[verifier::external_body]
#[derive(Debug)]
pub struct BytesBuilder {
    inner: BinaryBuilder,
}

/// A collection of texts and nulls: an `arrow::array::StringBuilder`.
#[verifier::external_body]
#[derive(Debug)]
pub struct TextBuilder {
    inner: StringBuilder,
}

/// `arrow::datatypes::Field`, the description of a column.
#[verifier::external_type_specification]
#[verifier::external_body]
pub struct ExField(arrow::datatypes::Field);

/// `arrow::datatypes::Schema`, the descriptions of all columns.
#[verifier::external_type_specification]
#[verifier::external_body]
pub struct ExSchema(arrow::datatypes::Schema);

/// `arrow::error::ArrowError`, what Arrow operations fail with.
#[verifier::external_type_specification]
#[verifier::external_body]
pub struct ExArrowError(arrow::error::ArrowError);

/// A finished column: an `arrow::array::ArrayRef`.
#[verifier::external_body]
#[derive(Debug)]
pub struct Column {
    inner: ArrayRef,
}

/// A batch of rows: an `arrow::array::RecordBatch`.
#[verifier::external_body]
#[derive(Debug)]
pub struct Batch {
    pub inner: RecordBatch,
}

// ---- Contents ----

/// What a builder of 8-bit integers has collected.
pub uninterp spec fn u8_cells(b: U8Builder) -> Seq<Option<u8>>;

/// What a builder of 32-bit integers has collected.
pub uninterp spec fn u32_cells(b: U32Builder) -> Seq<Option<u32>>;

/// What a builder of 64-bit integers has collected.
pub uninterp spec fn u64_cells(b: U64Builder) -> Seq<Option<u64>>;

/// What a builder of signed 64-bit integers has collected.
pub uninterp spec fn i64_cells(b: I64Builder) -> Seq<Option<i64>>;

/// What a builder of binary64 numbers has collected.
pub uninterp spec fn double_cells(b: DoubleBuilder) -> Seq<Option<Double>>;

/// What a builder of byte strings has collected.
pub uninterp spec fn binary_cells(b: BytesBuilder) -> Seq<Option<Seq<u8>>>;

/// What a builder of texts has collected.
pub uninterp spec fn text_cells(b: TextBuilder) -> Seq<Option<Seq<char>>>;

/// The cells of a finished column.
pub uninterp spec fn column_cells(c: Column) -> Seq<Cell>;

/// The kind of a finished column.
pub uninterp spec fn column_kind(c: Column) -> ColumnKind;

/// Name, kind and nullability of a column.
#[verifier::ext_equal]
pub struct ColumnV {
    pub name: Seq<char>,
    pub kind: ColumnKind,
    pub nullable: bool,
}

/// What a field says, if it is of one of the kinds here.
pub uninterp spec fn field_column(f: Field) -> Option<ColumnV>;

/// The fields of a schema, in order, if all are of one of the kinds here.
pub uninterp spec fn schema_columns(s: Schema) -> Option<Seq<ColumnV>>;

/// The schema of a batch.
pub uninterp spec fn batch_schema(b: Batch) -> Seq<ColumnV>;

/// The columns of a batch, in the order of its schema.
pub uninterp spec fn batch_columns(b: Batch) -> Seq<Seq<Cell>>;

// ---- Calls ----

/// Calls `UInt8Builder::new`, which gives a builder with nothing in it.
#[verifier::external_body]
fn u8_new() -> (r: U8Builder)
    ensures
        u8_cells(r) == Seq::<Option<u8>>::empty(),
{
    U8Builder { inner: UInt8Builder::new() }
}

/// Calls `append_option`, which adds a value or a null at the end. It panics if the buffer
/// would outgrow the address space.
#[verifier::external_body]
fn u8_append(b: &mut U8Builder, v: Option<u8>)
    requires
        room_for_row(u8_cells(*old(b)).len() as int),
    ensures
        u8_cells(*final(b)) == u8_cells(*old(b)).push(v),
{
    b.inner.append_option(v)
}

/// Calls `finish`, which turns what has been collected into a column and empties the
/// builder.
#[verifier::external_body]
fn u8_finish(b: &mut U8Builder) -> (r: Column)
    ensures
        u8_cells(*final(b)) == Seq::<Option<u8>>::empty(),
        column_kind(r) == ColumnKind::UInt8,
        column_cells(r) == u8_cells(*old(b)).map_values(
            |v: Option<u8>|
                match v {
                    None => Cell::Null,
                    Some(x) => Cell::UInt8(x),
                },
        ),
{
    Column { inner: Arc::new(b.inner.finish()) }
}

/// Calls `UInt32Builder::new`, which gives a builder with nothing in it.
#[verifier::external_body]
fn u32_new() -> (r: U32Builder)
    ensures
        u32_cells(r) == Seq::<Option<u32>>::empty(),
{
    U32Builder { inner: UInt32Builder::new() }
}

/// Calls `append_option`, which adds a value or a null at the end. It panics if the buffer
/// would outgrow the address space.
#[verifier::external_body]
fn u32_append(b: &mut U32Builder, v: Option<u32>)
    requires
        room_for_row(u32_cells(*old(b)).len() as int),
    ensures
        u32_cells(*final(b)) == u32_cells(*old(b)).push(v),
{
    b.inner.append_option(v)
}

/// Calls `finish`, which turns what has been collected into a column and empties the
/// builder.
#[verifier::external_body]
fn u32_finish(b: &mut U32Builder) -> (r: Column)
    ensures
        u32_cells(*final(b)) == Seq::<Option<u32>>::empty(),
        column_kind(r) == ColumnKind::UInt32,
        column_cells(r) == u32_cells(*old(b)).map_values(
            |v: Option<u32>|
                match v {
                    None => Cell::Null,
                    Some(x) => Cell::UInt32(x),
                },
        ),
{
    Column { inner: Arc::new(b.inner.finish()) }
}

/// Calls `UInt64Builder::new`, which gives a builder with nothing in it.
#[verifier::external_body]
fn u64_new() -> (r: U64Builder)
    ensures
        u64_cells(r) == Seq::<Option<u64>>::empty(),
{
    U64Builder { inner: UInt64Builder::new() }
}

/// Calls `append_option`, which adds a value or a null at the end. It panics if the buffer
/// would outgrow the address space.
#[verifier::external_body]
fn u64_append(b: &mut U64Builder, v: Option<u64>)
    requires
        room_for_row(u64_cells(*old(b)).len() as int),
    ensures
        u64_cells(*final(b)) == u64_cells(*old(b)).push(v),
{
    b.inner.append_option(v)
}

/// Calls `finish`, which turns what has been collected into a column and empties the
/// builder.
#[verifier::external_body]
fn u64_finish(b: &mut U64Builder) -> (r: Column)
    ensures
        u64_cells(*final(b)) == Seq::<Option<u64>>::empty(),
        column_kind(r) == ColumnKind::UInt64,
        column_cells(r) == u64_cells(*old(b)).map_values(
            |v: Option<u64>|
                match v {
                    None => Cell::Null,
                    Some(x) => Cell::UInt64(x),
                },
        ),
{
    Column { inner: Arc::new(b.inner.finish()) }
}

/// Calls `Int64Builder::new`, which gives a builder with nothing in it.
#[verifier::external_body]
fn i64_new() -> (r: I64Builder)
    ensures
        i64_cells(r) == Seq::<Option<i64>>::empty(),
{
    I64Builder { inner: Int64Builder::new() }
}

/// Calls `append_option`, which adds a value or a null at the end. It panics if the buffer
/// would outgrow the address space.
#[verifier::external_body]
fn i64_append(b: &mut I64Builder, v: Option<i64>)
    requires
        room_for_row(i64_cells(*old(b)).len() as int),
    ensures
        i64_cells(*final(b)) == i64_cells(*old(b)).push(v),
{
    b.inner.append_option(v)
}

/// Calls `finish`, which turns what has been collected into a column and empties the
/// builder.
#[verifier::external_body]
fn i64_finish(b: &mut I64Builder) -> (r: Column)
    ensures
        i64_cells(*final(b)) == Seq::<Option<i64>>::empty(),
        column_kind(r) == ColumnKind::Int64,
        column_cells(r) == i64_cells(*old(b)).map_values(
            |v: Option<i64>|
                match v {
                    None => Cell::Null,
                    Some(x) => Cell::Int64(x),
                },
        ),
{
    Column { inner: Arc::new(b.inner.finish()) }
}

/// Calls `Float64Builder::new`, which gives a builder with nothing in it.
#[verifier::external_body]
fn double_new() -> (r: DoubleBuilder)
    ensures
        double_cells(r) == Seq::<Option<Double>>::empty(),
{
    DoubleBuilder { inner: Float64Builder::new() }
}

/// Calls `append_option`, which adds the number of the given bits or a null at the end. It
/// panics if the buffer would outgrow the address space.
#[verifier::external_body]
fn double_append(b: &mut DoubleBuilder, v: Option<Double>)
    requires
        room_for_row(double_cells(*old(b)).len() as int),
    ensures
        double_cells(*final(b)) == double_cells(*old(b)).push(v),
{
    b.inner.append_option(v.map(|d| <<Float64Type as ArrowPrimitiveType>::Native>::from_bits(d.bits)))
}

/// Calls `finish`, which turns what has been collected into a column and empties the
/// builder.
#[verifier::external_body]
fn double_finish(b: &mut DoubleBuilder) -> (r: Column)
    ensures
        double_cells(*final(b)) == Seq::<Option<Double>>::empty(),
        column_kind(r) == ColumnKind::Float64,
        column_cells(r) == double_cells(*old(b)).map_values(
            |v: Option<Double>|
                match v {
                    None => Cell::Null,
                    Some(x) => Cell::Float64(x),
                },
        ),
{
    Column { inner: Arc::new(b.inner.finish()) }
}

/// Calls `BinaryBuilder::new`, which gives a builder with nothing in it.
#[verifier::external_body]
fn binary_new() -> (r: BytesBuilder)
    ensures
        binary_cells(r) == Seq::<Option<Seq<u8>>>::empty(),
{
    BytesBuilder { inner: BinaryBuilder::new() }
}

/// The cells of a builder of byte strings.
pub open spec fn binary_as_cells(cells: Seq<Option<Seq<u8>>>) -> Seq<Cell> {
    cells.map_values(
        |v: Option<Seq<u8>>|
            match v {
                None => Cell::Null,
                Some(x) => Cell::Binary(x),
            },
    )
}

/// Calls `append_option`, which adds a byte string or a null at the end. It panics if all
/// byte strings together exceed a signed 32-bit offset, or if a buffer would outgrow the
/// address space.
#[verifier::external_body]
fn binary_append(b: &mut BytesBuilder, v: Option<&[u8]>)
    requires
        room_for_row(binary_cells(*old(b)).len() as int),
        room_for_bytes(
            total_size(binary_as_cells(binary_cells(*old(b)))) + (match v {
                None => 0,
                Some(x) => x@.len() as int,
            }),
        ),
    ensures
        binary_cells(*final(b)) == binary_cells(*old(b)).push(
            match v {
                None => None,
                Some(x) => Some(x@),
            },
        ),
{
    b.inner.append_option(v)
}

/// Calls `finish`, which turns what has been collected into a column and empties the
/// builder.
#[verifier::external_body]
fn binary_finish(b: &mut BytesBuilder) -> (r: Column)
    ensures
        binary_cells(*final(b)) == Seq::<Option<Seq<u8>>>::empty(),
        column_kind(r) == ColumnKind::Binary,
        column_cells(r) == binary_as_cells(binary_cells(*old(b))),
{
    Column { inner: Arc::new(b.inner.finish()) }
}

/// Calls `StringBuilder::new`, which gives a builder with nothing in it.
#[verifier::external_body]
fn text_new() -> (r: TextBuilder)
    ensures
        text_cells(r) == Seq::<Option<Seq<char>>>::empty(),
{
    TextBuilder { inner: StringBuilder::new() }
}

/// The cells of a builder of texts.
pub open spec fn text_as_cells(cells: Seq<Option<Seq<char>>>) -> Seq<Cell> {
    cells.map_values(
        |v: Option<Seq<char>>|
            match v {
                None => Cell::Null,
                Some(x) => Cell::Utf8(x),
            },
    )
}

/// Calls `append_option`, which adds a text or a null at the end. It panics if all texts
/// together exceed a signed 32-bit offset, or if a buffer would outgrow the address space.
#[verifier::external_body]
fn text_append(b: &mut TextBuilder, v: Option<&str>)
    requires
        room_for_row(text_cells(*old(b)).len() as int),
        room_for_bytes(
            total_size(text_as_cells(text_cells(*old(b)))) + (match v {
                None => 0,
                Some(x) => vstd::utf8::encode_utf8(x@).len() as int,
            }),
        ),
    ensures
        text_cells(*final(b)) == text_cells(*old(b)).push(
            match v {
                None => None,
                Some(x) => Some(x@),
            },
        ),
{
    b.inner.append_option(v)
}

/// Calls `finish`, which turns what has been collected into a column and empties the
/// builder.
#[verifier::external_body]
fn text_finish(b: &mut TextBuilder) -> (r: Column)
    ensures
        text_cells(*final(b)) == Seq::<Option<Seq<char>>>::empty(),
        column_kind(r) == ColumnKind::Utf8,
        column_cells(r) == text_as_cells(text_cells(*old(b))),
{
    Column { inner: Arc::new(b.inner.finish()) }
}

/// Calls `Field::new`, which describes a column by name, type and nullability.
#[verifier::external_body]
pub(crate) fn new_field(name: &str, kind: ColumnKind, nullable: bool) -> (r: Field)
    ensures
        field_column(r) == Some(ColumnV { name: name@, kind, nullable }),
{
    let data_type = match kind {
        ColumnKind::UInt8 => DataType::UInt8,
        ColumnKind::UInt32 => DataType::UInt32,
        ColumnKind::UInt64 => DataType::UInt64,
        ColumnKind::Int64 => DataType::Int64,
        ColumnKind::Float64 => DataType::Float64,
        ColumnKind::Binary => DataType::Binary,
        ColumnKind::Utf8 => DataType::Utf8,
    };
    Field::new(name, data_type, nullable)
}

/// What a list of fields says.
pub open spec fn field_columns(fields: Seq<Field>) -> Seq<Option<ColumnV>> {
    Seq::new(fields.len(), |i: int| field_column(fields[i]))
}

/// Columns that are all known.
pub open spec fn known(columns: Seq<ColumnV>) -> Seq<Option<ColumnV>> {
    columns.map_values(|c: ColumnV| Some(c))
}

/// Calls `Schema::new`, which keeps the fields in their order.
#[verifier::external_body]
pub(crate) fn new_schema(fields: Vec<Field>) -> (r: Schema)
    ensures
        forall|columns: Seq<ColumnV>|
            field_columns(fields@) == #[trigger] known(columns) ==> schema_columns(r) == Some(
                columns,
            ),
{
    Schema::new(fields)
}

/// Whether columns make up a batch of a schema: as many as there are fields, and at least
/// one; each of the kind of its field, without nulls where the field has none; all of one
/// length.
pub open spec fn columns_match(schema: Seq<ColumnV>, columns: Seq<Column>) -> bool {
    &&& schema.len() == columns.len()
    &&& columns.len() > 0
    &&& forall|i: int|
        0 <= i < columns.len() ==> {
            &&& column_kind(#[trigger] columns[i]) == schema[i].kind
            &&& column_cells(columns[i]).len() == column_cells(columns[0]).len()
            &&& !schema[i].nullable ==> !column_cells(columns[i]).contains(Cell::Null)
        }
}

/// Calls `RecordBatch::try_new`, which makes a batch of columns that match the schema and
/// fails for any others.
#[verifier::external_body]
pub(crate) fn new_batch(schema: Arc<Schema>, columns: Vec<Column>) -> (r: Result<Batch, ArrowError>)
    requires
        schema_columns(*schema) is Some,
    ensures
        r is Ok <==> columns_match(schema_columns(*schema)->0, columns@),
        r matches Ok(b) ==> batch_schema(b) == schema_columns(*schema)->0 && batch_columns(b)
            == Seq::new(columns@.len(), |i: int| column_cells(columns@[i])),
{
    let arrays: Vec<ArrayRef> = columns.into_iter().map(|c| c.inner).collect();
    RecordBatch::try_new(schema, arrays).map(|inner| Batch { inner })
}

// ---- Column builders ----

/// The builder of one column.
#[derive(Debug)]
enum ColumnData {
    UInt8(U8Builder),
    UInt32(U32Builder),
    UInt64(U64Builder),
    Int64(I64Builder),
    Float64(DoubleBuilder),
    Binary(BytesBuilder),
    Utf8(TextBuilder),
}

impl ColumnData {
    spec fn kind(self) -> ColumnKind {
        match self {
            ColumnData::UInt8(_) => ColumnKind::UInt8,
            ColumnData::UInt32(_) => ColumnKind::UInt32,
            ColumnData::UInt64(_) => ColumnKind::UInt64,
            ColumnData::Int64(_) => ColumnKind::Int64,
            ColumnData::Float64(_) => ColumnKind::Float64,
            ColumnData::Binary(_) => ColumnKind::Binary,
            ColumnData::Utf8(_) => ColumnKind::Utf8,
        }
    }

    spec fn cells(self) -> Seq<Cell> {
        match self {
            ColumnData::UInt8(b) => u8_cells(b).map_values(
                |v: Option<u8>|
                    match v {
                        None => Cell::Null,
                        Some(x) => Cell::UInt8(x),
                    },
            ),
            ColumnData::UInt32(b) => u32_cells(b).map_values(
                |v: Option<u32>|
                    match v {
                        None => Cell::Null,
                        Some(x) => Cell::UInt32(x),
                    },
            ),
            ColumnData::UInt64(b) => u64_cells(b).map_values(
                |v: Option<u64>|
                    match v {
                        None => Cell::Null,
                        Some(x) => Cell::UInt64(x),
                    },
            ),
            ColumnData::Int64(b) => i64_cells(b).map_values(
                |v: Option<i64>|
                    match v {
                        None => Cell::Null,
                        Some(x) => Cell::Int64(x),
                    },
            ),
            ColumnData::Float64(b) => double_cells(b).map_values(
                |v: Option<Double>|
                    match v {
                        None => Cell::Null,
                        Some(x) => Cell::Float64(x),
                    },
            ),
            ColumnData::Binary(b) => binary_as_cells(binary_cells(b)),
            ColumnData::Utf8(b) => text_as_cells(text_cells(b)),
        }
    }
}

/// Collects the cells of one column.
#[derive(Debug)]
pub struct ColumnBuilder {
    data: ColumnData,
    rows: usize,
    used: usize,
}

impl ColumnBuilder {
    /// The kind of the column.
    pub closed spec fn kind(self) -> ColumnKind {
        self.data.kind()
    }

    /// What has been collected.
    pub closed spec fn cells(self) -> Seq<Cell> {
        self.data.cells()
    }

    /// Whether the counters agree with what has been collected.
    pub closed spec fn valid(self) -> bool {
        self.rows == self.cells().len() && self.used == total_size(self.cells())
    }

    /// Whether there is room for one more cell.
    pub open spec fn has_room(self, cell: Cell) -> bool {
        room_for_row(self.cells().len() as int) && room_for_bytes(
            (total_size(self.cells()) + cell.size()) as int,
        )
    }

    /// A builder with nothing in it.
    pub fn new(kind: ColumnKind) -> (r: Self)
        ensures
            r.valid(),
            r.kind() == kind,
            r.cells() == Seq::<Cell>::empty(),
    {
        let data = match kind {
            ColumnKind::UInt8 => ColumnData::UInt8(u8_new()),
            ColumnKind::UInt32 => ColumnData::UInt32(u32_new()),
            ColumnKind::UInt64 => ColumnData::UInt64(u64_new()),
            ColumnKind::Int64 => ColumnData::Int64(i64_new()),
            ColumnKind::Float64 => ColumnData::Float64(double_new()),
            ColumnKind::Binary => ColumnData::Binary(binary_new()),
            ColumnKind::Utf8 => ColumnData::Utf8(text_new()),
        };
        assert(data.cells() == Seq::<Cell>::empty());
        ColumnBuilder { data, rows: 0, used: 0 }
    }

    /// The bytes of variable length that have been collected.
    pub fn used(&self) -> (r: usize)
        requires
            self.valid(),
        ensures
            r as nat == total_size(self.cells()),
    {
        self.used
    }

    /// Appends a cell of the column's kind.
    pub fn append(&mut self, cell: &CellRef)
        requires
            old(self).valid(),
            cell@.is_of(old(self).kind()),
            old(self).has_room(cell@),
        ensures
            final(self).valid(),
            final(self).kind() == old(self).kind(),
            final(self).cells() == old(self).cells().push(cell@),
    {
        let size: usize = cell_size(cell);
        let ghost before = self.data.cells();
        match &mut self.data {
            ColumnData::UInt8(b) => {
                let v = match cell {
                    CellRef::UInt8(x) => Some(*x),
                    _ => None,
                };
                u8_append(b, v);
            },
            ColumnData::UInt32(b) => {
                let v = match cell {
                    CellRef::UInt32(x) => Some(*x),
                    _ => None,
                };
                u32_append(b, v);
            },
            ColumnData::UInt64(b) => {
                let v = match cell {
                    CellRef::UInt64(x) => Some(*x),
                    _ => None,
                };
                u64_append(b, v);
            },
            ColumnData::Int64(b) => {
                let v = match cell {
                    CellRef::Int64(x) => Some(*x),
                    _ => None,
                };
                i64_append(b, v);
            },
            ColumnData::Float64(b) => {
                let v = match cell {
                    CellRef::Float64(x) => Some(*x),
                    _ => None,
                };
                double_append(b, v);
            },
            ColumnData::Binary(b) => {
                let v = match cell {
                    CellRef::Binary(x) => Some(*x),
                    _ => None,
                };
                binary_append(b, v);
            },
            ColumnData::Utf8(b) => {
                let v = match cell {
                    CellRef::Utf8(x) => Some(*x),
                    _ => None,
                };
                text_append(b, v);
            },
        }
        assert(self.data.cells() == before.push(cell@));
        assert(before.push(cell@).drop_last() == before);
        self.rows = self.rows + 1;
        self.used = self.used + size;
    }

    /// Turns what has been collected into a column and starts anew.
    pub fn finish(&mut self) -> (r: Column)
        requires
            old(self).valid(),
        ensures
            final(self).valid(),
            final(self).kind() == old(self).kind(),
            final(self).cells() == Seq::<Cell>::empty(),
            column_kind(r) == old(self).kind(),
            column_cells(r) == old(self).cells(),
    {
        self.rows = 0;
        self.used = 0;
        let r = match &mut self.data {
            ColumnData::UInt8(b) => u8_finish(b),
            ColumnData::UInt32(b) => u32_finish(b),
            ColumnData::UInt64(b) => u64_finish(b),
            ColumnData::Int64(b) => i64_finish(b),
            ColumnData::Float64(b) => double_finish(b),
            ColumnData::Binary(b) => binary_finish(b),
            ColumnData::Utf8(b) => text_finish(b),
        };
        assert(self.data.cells() == Seq::<Cell>::empty());
        r
    }
}

/// The number of bytes of variable length of a cell.
pub(crate) fn cell_size(cell: &CellRef) -> (r: usize)
    ensures
        r as nat == cell@.size(),
{
    match cell {
        CellRef::Binary(b) => b.len(),
        CellRef::Utf8(s) => s.as_bytes().len(),
        _ => 0,
    }
}

} // verus!
