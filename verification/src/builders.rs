//! Builders of record batches.

use crate::columns::{
    batch_columns, batch_schema, cell_size, column_cells, column_kind, columns_match,
    lemma_total_size_concat, lemma_total_size_take, new_batch, room_for_bytes, room_for_row,
    total_size, Batch, Cell, Column, ColumnBuilder,
};
use crate::error::{arrow_message, ArrowConvertError};
use crate::rows::{conforms, law_rows_conform, make_rows, rows_of, saturated, shown, Row, RowV};
use crate::schema;
use crate::schema::{columns_for, columns_of, schema_arc, TypeTag};
use crate::types::RdbEntry;
use vstd::prelude::*;

verus! {

/// Column `j` of a table of rows.
pub open spec fn column_of(rows: Seq<RowV>, j: int) -> Seq<Cell> {
    Seq::new(rows.len(), |i: int| rows[i].cells[j])
}

/// The weights of rows together.
pub open spec fn total_weight(rows: Seq<RowV>) -> nat
    decreases rows.len(),
{
    if rows.len() == 0 {
        0
    } else {
        total_weight(rows.drop_last()) + rows.last().weight as nat
    }
}

/// Whether the columns of one batch can hold the rows.
pub open spec fn table_fits(tag: TypeTag, rows: Seq<RowV>) -> bool {
    &&& rows.len() == 0 || room_for_row(rows.len() - 1)
    &&& forall|j: int|
        0 <= j < columns_of(tag).len() ==> room_for_bytes(
            #[trigger] total_size(column_of(rows, j)) as int,
        )
}

/// Whether a batch is the table of the given rows.
pub open spec fn is_table(b: Batch, tag: TypeTag, rows: Seq<RowV>) -> bool {
    &&& batch_schema(b) == columns_of(tag)
    &&& batch_columns(b) == Seq::new(columns_of(tag).len(), |j: int| column_of(rows, j))
}

/// A table within which others fit has room for each of them.
proof fn lemma_prefix_fits(tag: TypeTag, rows: Seq<RowV>, n: int)
    requires
        table_fits(tag, rows),
        0 <= n <= rows.len(),
    ensures
        table_fits(tag, rows.take(n)),
    decreases rows.len() - n,
{
    if n < rows.len() {
        lemma_prefix_fits(tag, rows, n + 1);
        assert forall|j: int| 0 <= j < columns_of(tag).len() implies room_for_bytes(
            #[trigger] total_size(column_of(rows.take(n), j)) as int,
        ) by {
            assert(column_of(rows.take(n + 1), j).drop_last() == column_of(rows.take(n), j));
            assert(room_for_bytes(total_size(column_of(rows.take(n + 1), j)) as int));
        }
    } else {
        assert(rows.take(n) == rows);
    }
}

/// Collects rows of one type and turns them into record batches.
pub struct BatchBuilder {
    tag: TypeTag,
    columns: Vec<ColumnBuilder>,
    len: usize,
    data_bytes: usize,
    rows: Ghost<Seq<RowV>>,
}

/// Whether the bytes of column `j` of the rows fit after those already in use.
fn bytes_fit(used: usize, rows: &Vec<Row>, j: usize) -> (r: bool)
    requires
        used <= i32::MAX,
        forall|i: int| 0 <= i < rows@.len() ==> j < (#[trigger] rows@[i]).cells@.len(),
    ensures
        r == room_for_bytes((used + total_size(column_of(shown(rows@), j as int))) as int),
{
    let ghost cells = column_of(shown(rows@), j as int);
    let mut total: u128 = used as u128;
    let mut i: usize = 0;
    assert(cells.take(0) == Seq::<Cell>::empty());
    while i < rows.len()
        invariant
            i <= rows@.len(),
            total as nat == used + total_size(cells.take(i as int)),
            total <= i32::MAX,
            cells == column_of(shown(rows@), j as int),
            forall|i: int| 0 <= i < rows@.len() ==> j < (#[trigger] rows@[i]).cells@.len(),
        decreases rows@.len() - i,
    {
        let size: usize = cell_size(&rows[i].cells[j]);
        assert(shown(rows@)[i as int] == rows@[i as int]@);
        assert(cells[i as int] == rows@[i as int].cells@[j as int]@);
        assert(cells.take(i + 1).drop_last() == cells.take(i as int));
        total = total + size as u128;
        i += 1;
        if total > i32::MAX as u128 {
            proof {
                lemma_total_size_take(cells, i as int);
            }
            return false;
        }
    }
    assert(cells.take(i as int) == cells);
    2 * total + 256 <= isize::MAX as u128
}

impl BatchBuilder {
    /// The type whose rows are collected.
    pub closed spec fn tag(&self) -> TypeTag {
        self.tag
    }

    /// The rows that have been collected.
    pub closed spec fn rows(&self) -> Seq<RowV> {
        self.rows@
    }

    /// Whether the columns and counters agree with the rows.
    pub closed spec fn valid(&self) -> bool {
        &&& self.columns@.len() == columns_of(self.tag).len()
        &&& self.len == self.rows@.len()
        &&& self.data_bytes == saturated(total_weight(self.rows@))
        &&& table_fits(self.tag, self.rows@)
        &&& forall|j: int| #![trigger self.columns@[j]]
            0 <= j < self.columns@.len() ==> {
                &&& self.columns@[j].valid()
                &&& self.columns@[j].kind() == columns_of(self.tag)[j].kind
                &&& self.columns@[j].cells() == column_of(self.rows@, j)
            }
        &&& forall|i: int| 0 <= i < self.rows@.len() ==> conforms(
            (#[trigger] self.rows@[i]).cells,
            columns_of(self.tag),
        )
    }

    /// A builder without rows.
    pub fn new(tag: TypeTag) -> (r: Self)
        ensures
            r.valid(),
            r.tag() == tag,
            r.rows() == Seq::<RowV>::empty(),
    {
        let infos = columns_for(tag);
        let mut columns: Vec<ColumnBuilder> = Vec::new();
        let ghost none = Seq::<RowV>::empty();
        while columns.len() < infos.len()
            invariant
                columns@.len() <= infos@.len(),
                schema::infos(infos@) == columns_of(tag),
                none == Seq::<RowV>::empty(),
                forall|j: int| #![trigger columns@[j]]
                    0 <= j < columns@.len() ==> {
                        &&& columns@[j].valid()
                        &&& columns@[j].kind() == columns_of(tag)[j].kind
                        &&& columns@[j].cells() == column_of(none, j)
                    },
            decreases infos@.len() - columns@.len(),
        {
            let j: usize = columns.len();
            let column = ColumnBuilder::new(infos[j].kind);
            assert(schema::infos(infos@)[j as int] == infos@[j as int]@);
            assert(column.cells() == column_of(none, j as int));
            columns.push(column);
        }
        assert(table_fits(tag, none)) by {
            assert forall|j: int| 0 <= j < columns_of(tag).len() implies room_for_bytes(
                #[trigger] total_size(column_of(none, j)) as int,
            ) by {
                assert(column_of(none, j).len() == 0);
            }
        }
        BatchBuilder { tag, columns, len: 0, data_bytes: 0, rows: Ghost(none) }
    }

    /// Number of rows currently buffered.
    pub fn len(&self) -> (r: usize)
        requires
            self.valid(),
        ensures
            r == self.rows().len(),
    {
        self.len
    }

    /// Whether there are no rows.
    pub fn is_empty(&self) -> (r: bool)
        requires
            self.valid(),
        ensures
            r == (self.rows().len() == 0),
    {
        self.len == 0
    }

    /// Approximate bytes of variable-length data buffered, for the byte-budget flush policy.
    pub fn data_bytes(&self) -> (r: usize)
        requires
            self.valid(),
        ensures
            r == saturated(total_weight(self.rows())),
    {
        self.data_bytes
    }

    /// Whether the rows can be appended.
    fn can_take(&self, rows: &Vec<Row>) -> (r: bool)
        requires
            self.valid(),
            forall|i: int| 0 <= i < rows@.len() ==> (#[trigger] rows@[i]).cells@.len() == columns_of(
                self.tag(),
            ).len(),
        ensures
            r == table_fits(self.tag(), self.rows() + shown(rows@)),
    {
        let ghost all = self.rows@ + shown(rows@);
        if rows.len() == 0 {
            assert(all == self.rows@);
            return true;
        }
        if (self.len as u128 + rows.len() as u128 + 15) * 32 > isize::MAX as u128 {
            assert(!room_for_row(all.len() - 1));
            return false;
        }
        let mut j: usize = 0;
        while j < self.columns.len()
            invariant
                self.valid(),
                j <= self.columns@.len(),
                all == self.rows@ + shown(rows@),
                forall|i: int|
                    0 <= i < rows@.len() ==> (#[trigger] rows@[i]).cells@.len() == columns_of(
                        self.tag,
                    ).len(),
                forall|k: int|
                    0 <= k < j ==> room_for_bytes(#[trigger] total_size(column_of(all, k)) as int),
            decreases self.columns@.len() - j,
        {
            let ghost more = column_of(shown(rows@), j as int);
            assert(self.columns@[j as int].cells() + more == column_of(all, j as int));
            proof {
                lemma_total_size_concat(self.columns@[j as int].cells(), more);
            }
            if !bytes_fit(self.columns[j].used(), rows, j) {
                return false;
            }
            j += 1;
        }
        true
    }

    /// Appends one row.
    fn append(&mut self, row: &Row)
        requires
            old(self).valid(),
            conforms(row@.cells, columns_of(old(self).tag())),
            table_fits(old(self).tag(), old(self).rows().push(row@)),
        ensures
            final(self).valid(),
            final(self).tag() == old(self).tag(),
            final(self).rows() == old(self).rows().push(row@),
    {
        let ghost before = self.rows@;
        let ghost after = before.push(row@);
        let mut j: usize = 0;
        while j < self.columns.len()
            invariant
                j <= self.columns@.len(),
                self.columns@.len() == columns_of(self.tag).len(),
                self.tag == old(self).tag,
                self.len == old(self).len,
                self.data_bytes == old(self).data_bytes,
                before == old(self).rows@,
                after == before.push(row@),
                conforms(row@.cells, columns_of(self.tag)),
                table_fits(self.tag, after),
                forall|k: int| #![trigger self.columns@[k]]
                    0 <= k < self.columns@.len() ==> {
                        &&& self.columns@[k].valid()
                        &&& self.columns@[k].kind() == columns_of(self.tag)[k].kind
                        &&& self.columns@[k].cells() == column_of(
                            if k < j {
                                after
                            } else {
                                before
                            },
                            k,
                        )
                    },
            decreases self.columns@.len() - j,
        {
            let ghost cells = column_of(before, j as int);
            let ghost cell = row@.cells[j as int];
            assert(column_of(after, j as int) == cells.push(cell));
            assert(cells.push(cell).drop_last() == cells);
            assert(room_for_bytes(total_size(column_of(after, j as int)) as int));
            assert(row.cells@[j as int]@ == cell);
            assert(self.columns@[j as int].has_room(cell));
            self.columns[j].append(&row.cells[j]);
            j += 1;
        }
        self.rows = Ghost(after);
        self.len = self.len + 1;
        self.data_bytes = self.data_bytes.saturating_add(row.weight);
        assert(after.drop_last() == before);
        assert forall|i: int| 0 <= i < after.len() implies conforms(
            (#[trigger] after[i]).cells,
            columns_of(self.tag),
        ) by {
            if i < before.len() {
                assert(after[i] == before[i]);
            }
        }
    }

    /// Appends the rows of an entry. If they do not fit, it fails and appends none.
    ///
    /// An entry whose value is not of the builder's type has no rows.
    pub fn push(&mut self, entry: &RdbEntry) -> (r: Result<(), ArrowConvertError>)
        requires
            old(self).valid(),
        ensures
            final(self).valid(),
            final(self).tag() == old(self).tag(),
            ({
                let all = old(self).rows() + rows_of(old(self).tag(), entry@);
                if table_fits(old(self).tag(), all) {
                    r is Ok && final(self).rows() == all
                } else {
                    r == Err::<(), ArrowConvertError>(ArrowConvertError::BatchFull)
                        && final(self).rows() == old(self).rows()
                }
            }),
    {
        let rows = make_rows(self.tag, entry);
        let ghost new = rows_of(self.tag, entry@);
        let ghost before = self.rows@;
        proof {
            law_rows_conform(self.tag, entry@);
            assert forall|i: int| 0 <= i < rows@.len() implies conforms(
                (#[trigger] rows@[i])@.cells,
                columns_of(self.tag),
            ) by {
                assert(shown(rows@)[i] == new[i]);
            }
        }
        if !self.can_take(&rows) {
            return Err(ArrowConvertError::BatchFull);
        }
        let mut i: usize = 0;
        assert(before + new.take(0) == before);
        while i < rows.len()
            invariant
                i <= rows@.len(),
                self.valid(),
                self.tag == old(self).tag,
                new == shown(rows@),
                table_fits(self.tag, before + new),
                self.rows@ == before + new.take(i as int),
                forall|i: int|
                    0 <= i < rows@.len() ==> conforms(
                        (#[trigger] rows@[i])@.cells,
                        columns_of(self.tag),
                    ),
            decreases rows@.len() - i,
        {
            proof {
                lemma_prefix_fits(self.tag, before + new, before.len() + i + 1);
                assert((before + new).take(before.len() + i + 1) == self.rows@.push(new[i as int]));
                assert(new[i as int] == rows@[i as int]@);
            }
            let ghost prior = self.rows@;
            self.append(&rows[i]);
            assert(self.rows@ == prior.push(new[i as int]));
            assert(new.take(i + 1) == new.take(i as int).push(new[i as int]));
            i += 1;
            assert(self.rows@ == before + new.take(i as int));
        }
        assert(new.take(i as int) == new);
        Ok(())
    }

    /// Turns the rows into a record batch and starts anew.
    pub fn finish(&mut self) -> (r: Result<Batch, ArrowConvertError>)
        requires
            old(self).valid(),
        ensures
            final(self).valid(),
            final(self).tag() == old(self).tag(),
            final(self).rows() == Seq::<RowV>::empty(),
            r matches Ok(b) && is_table(b, old(self).tag(), old(self).rows()),
    {
        let ghost rows = self.rows@;
        let ghost none = Seq::<RowV>::empty();
        let mut columns: Vec<Column> = Vec::new();
        let mut j: usize = 0;
        while j < self.columns.len()
            invariant
                j <= self.columns@.len(),
                columns@.len() == j,
                self.columns@.len() == columns_of(self.tag).len(),
                self.tag == old(self).tag,
                none == Seq::<RowV>::empty(),
                forall|k: int| #![trigger self.columns@[k]]
                    0 <= k < self.columns@.len() ==> {
                        &&& self.columns@[k].valid()
                        &&& self.columns@[k].kind() == columns_of(self.tag)[k].kind
                        &&& self.columns@[k].cells() == column_of(
                            if k < j {
                                none
                            } else {
                                rows
                            },
                            k,
                        )
                    },
                forall|k: int| #![trigger columns@[k]]
                    0 <= k < j ==> {
                        &&& column_kind(columns@[k]) == columns_of(self.tag)[k].kind
                        &&& column_cells(columns@[k]) == column_of(rows, k)
                    },
            decreases self.columns@.len() - j,
        {
            columns.push(self.columns[j].finish());
            assert(column_of(none, j as int) == Seq::<Cell>::empty());
            j += 1;
        }
        self.rows = Ghost(none);
        self.len = 0;
        self.data_bytes = 0;
        assert(table_fits(self.tag, none)) by {
            assert forall|j: int| 0 <= j < columns_of(self.tag).len() implies room_for_bytes(
                #[trigger] total_size(column_of(none, j)) as int,
            ) by {
                assert(column_of(none, j).len() == 0);
            }
        }
        let schema = schema_arc(self.tag);
        assert(columns_match(columns_of(self.tag), columns@)) by {
            assert forall|k: int| 0 <= k < columns@.len() implies {
                &&& column_kind(#[trigger] columns@[k]) == columns_of(self.tag)[k].kind
                &&& column_cells(columns@[k]).len() == column_cells(columns@[0]).len()
                &&& !columns_of(self.tag)[k].nullable ==> !column_cells(columns@[k]).contains(
                    Cell::Null,
                )
            } by {
                assert(column_cells(columns@[0]) == column_of(rows, 0));
                if !columns_of(self.tag)[k].nullable {
                    assert forall|i: int| 0 <= i < rows.len() implies #[trigger] column_of(rows, k)[i]
                        != Cell::Null by {
                        assert(conforms(rows[i].cells, columns_of(self.tag)));
                        assert(column_of(rows, k)[i] == rows[i].cells[k]);
                    }
                }
            }
        }
        match new_batch(schema, columns) {
            Ok(b) => {
                assert(batch_columns(b) == Seq::new(
                    columns_of(self.tag).len(),
                    |j: int| column_of(rows, j),
                ));
                Ok(b)
            },
            Err(e) => Err(ArrowConvertError::Arrow(arrow_message(&e))),
        }
    }
}

} // verus!
