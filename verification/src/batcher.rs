//! Groups entries by logical type and hands out record batches.

use crate::builders::{is_table, table_fits, total_weight, BatchBuilder};
use crate::columns::Batch;
use crate::entries::{into_queue, item_of, EntryItem, EntrySource};
use crate::error::{ArrowConvertError, ArrowConvertErrorV};
use crate::rows::{rows_of, saturated, RowV};
use crate::schema::{
    all_heuristics, all_tags, emits_geo, law_geo_is_additive, row_count,
    should_emit_geo, stream_rows, tag_of, type_tag_for, HeuristicSet, TypeTag,
};
use crate::types::{
    Double, HashField, HashFieldV, ModuleValue, ModuleValueV, RdbEntry, RdbEntryV, RdbError,
    RdbErrorV, RdbValue, RdbValueV, StreamEntry, StreamEntryV,
};
use std::collections::VecDeque;
use vstd::prelude::*;

verus! {

/// Configuration for the Arrow batcher.
#[derive(Debug, Clone, Copy)]
pub struct BatcherConfig {
    /// Approximate row threshold per batch. A flush is triggered after pushing an entry that
    /// causes a builder to reach this count. Collections make one row per element, so a
    /// single large collection may give a batch larger than this value.
    pub batch_size: usize,
    /// Byte budget per builder. When a builder's accumulated variable-length data reaches
    /// this threshold, it is flushed. `None` leaves only the row threshold.
    pub batch_bytes: Option<usize>,
    /// Skip entries whose estimated size exceeds this threshold. `None` skips none.
    pub max_entry_bytes: Option<usize>,
    /// Active heuristic detectors for virtual types.
    pub heuristics: HeuristicSet,
}

impl Default for BatcherConfig {
    /// 65,536 rows, 64 MB, entries of every size, all heuristics.
    fn default() -> (r: Self)
        ensures
            r.batch_size == 65_536,
            r.batch_bytes == Some(67_108_864usize),
            r.max_entry_bytes == None::<usize>,
            r.heuristics@ == all_heuristics(),
    {
        BatcherConfig {
            batch_size: 65_536,
            batch_bytes: Some(67_108_864),
            max_entry_bytes: None,
            heuristics: HeuristicSet::all(),
        }
    }
}

// ---- Estimated size ----

/// The bytes of byte strings together.
pub open spec fn strings_size(items: Seq<Seq<u8>>) -> nat
    decreases items.len(),
{
    if items.len() == 0 {
        0
    } else {
        strings_size(items.drop_last()) + items.last().len()
    }
}

/// The bytes of members with eight bytes for each score.
pub open spec fn members_size(pairs: Seq<(Seq<u8>, Double)>) -> nat
    decreases pairs.len(),
{
    if pairs.len() == 0 {
        0
    } else {
        members_size(pairs.drop_last()) + pairs.last().0.len() + 8
    }
}

/// The bytes of hash fields with their values.
pub open spec fn fields_size(fields: Seq<HashFieldV>) -> nat
    decreases fields.len(),
{
    if fields.len() == 0 {
        0
    } else {
        fields_size(fields.drop_last()) + fields.last().field.len() + fields.last().value.len()
    }
}

/// The bytes of pairs of byte strings.
pub open spec fn pairs_size(pairs: Seq<(Seq<u8>, Seq<u8>)>) -> nat
    decreases pairs.len(),
{
    if pairs.len() == 0 {
        0
    } else {
        pairs_size(pairs.drop_last()) + pairs.last().0.len() + pairs.last().1.len()
    }
}

/// The bytes of the fields and values of stream entries.
pub open spec fn stream_size(entries: Seq<StreamEntryV>) -> nat
    decreases entries.len(),
{
    if entries.len() == 0 {
        0
    } else {
        stream_size(entries.drop_last()) + pairs_size(entries.last().fields)
    }
}

/// The bytes of module values: eight for each number.
pub open spec fn values_size(values: Seq<ModuleValueV>) -> nat
    decreases values.len(),
{
    if values.len() == 0 {
        0
    } else {
        values_size(values.drop_last()) + (match values.last() {
            ModuleValueV::String(s) => s.len(),
            _ => 8,
        })
    }
}

/// The bytes of what a value holds.
pub open spec fn content_size(v: RdbValueV) -> nat {
    match v {
        RdbValueV::String(s) => s.len(),
        RdbValueV::List(items) => strings_size(items),
        RdbValueV::UnorderedSet(items) => strings_size(items),
        RdbValueV::SortedSet(pairs) => members_size(pairs),
        RdbValueV::Hash(fields) => fields_size(fields),
        RdbValueV::Stream(data) => stream_size(data.entries),
        RdbValueV::Module(data) => values_size(data.values),
    }
}

/// The size of an entry in the Arrow output: what it holds, and its key once for each row.
pub open spec fn entry_size(e: RdbEntryV) -> nat {
    e.key.len() * row_count(e.value) + content_size(e.value)
}

fn strings_bytes(items: &Vec<Vec<u8>>) -> (r: usize)
    ensures
        r == saturated(strings_size(crate::types::byte_strings(items@))),
{
    let ghost all = crate::types::byte_strings(items@);
    let mut total: usize = 0;
    let mut i: usize = 0;
    assert(all.take(0) == Seq::<Seq<u8>>::empty());
    while i < items.len()
        invariant
            i <= items@.len(),
            all == crate::types::byte_strings(items@),
            total == saturated(strings_size(all.take(i as int))),
        decreases items@.len() - i,
    {
        assert(all.take(i + 1).drop_last() == all.take(i as int));
        assert(all.take(i + 1).last() == items@[i as int]@);
        total = total.saturating_add(items[i].len());
        i += 1;
    }
    assert(all.take(i as int) == all);
    total
}

fn members_bytes(pairs: &Vec<(Vec<u8>, Double)>) -> (r: usize)
    ensures
        r == saturated(members_size(crate::types::scored_members(pairs@))),
{
    let ghost all = crate::types::scored_members(pairs@);
    let mut total: usize = 0;
    let mut i: usize = 0;
    assert(all.take(0) == Seq::<(Seq<u8>, Double)>::empty());
    while i < pairs.len()
        invariant
            i <= pairs@.len(),
            all == crate::types::scored_members(pairs@),
            total == saturated(members_size(all.take(i as int))),
        decreases pairs@.len() - i,
    {
        assert(all.take(i + 1).drop_last() == all.take(i as int));
        assert(all.take(i + 1).last() == (pairs@[i as int].0@, pairs@[i as int].1));
        total = total.saturating_add(pairs[i].0.len()).saturating_add(8);
        i += 1;
    }
    assert(all.take(i as int) == all);
    total
}

fn fields_bytes(fields: &Vec<HashField>) -> (r: usize)
    ensures
        r == saturated(fields_size(crate::types::hash_fields(fields@))),
{
    let ghost all = crate::types::hash_fields(fields@);
    let mut total: usize = 0;
    let mut i: usize = 0;
    assert(all.take(0) == Seq::<HashFieldV>::empty());
    while i < fields.len()
        invariant
            i <= fields@.len(),
            all == crate::types::hash_fields(fields@),
            total == saturated(fields_size(all.take(i as int))),
        decreases fields@.len() - i,
    {
        assert(all.take(i + 1).drop_last() == all.take(i as int));
        assert(all.take(i + 1).last() == fields@[i as int]@);
        total = total.saturating_add(fields[i].field.len()).saturating_add(fields[i].value.len());
        i += 1;
    }
    assert(all.take(i as int) == all);
    total
}

fn pairs_bytes(pairs: &Vec<(Vec<u8>, Vec<u8>)>) -> (r: usize)
    ensures
        r == saturated(pairs_size(crate::types::byte_pairs(pairs@))),
{
    let ghost all = crate::types::byte_pairs(pairs@);
    let mut total: usize = 0;
    let mut i: usize = 0;
    assert(all.take(0) == Seq::<(Seq<u8>, Seq<u8>)>::empty());
    while i < pairs.len()
        invariant
            i <= pairs@.len(),
            all == crate::types::byte_pairs(pairs@),
            total == saturated(pairs_size(all.take(i as int))),
        decreases pairs@.len() - i,
    {
        assert(all.take(i + 1).drop_last() == all.take(i as int));
        assert(all.take(i + 1).last() == (pairs@[i as int].0@, pairs@[i as int].1@));
        total = total.saturating_add(pairs[i].0.len()).saturating_add(pairs[i].1.len());
        i += 1;
    }
    assert(all.take(i as int) == all);
    total
}

/// The rows and the bytes of stream entries.
fn stream_extent(entries: &Vec<StreamEntry>) -> (r: (usize, usize))
    ensures
        r.0 == saturated(stream_rows(crate::types::stream_entries(entries@))),
        r.1 == saturated(stream_size(crate::types::stream_entries(entries@))),
{
    let ghost all = crate::types::stream_entries(entries@);
    let mut rows: usize = 0;
    let mut total: usize = 0;
    let mut i: usize = 0;
    assert(all.take(0) == Seq::<StreamEntryV>::empty());
    while i < entries.len()
        invariant
            i <= entries@.len(),
            all == crate::types::stream_entries(entries@),
            rows == saturated(stream_rows(all.take(i as int))),
            total == saturated(stream_size(all.take(i as int))),
        decreases entries@.len() - i,
    {
        assert(all.take(i + 1).drop_last() == all.take(i as int));
        assert(all.take(i + 1).last() == entries@[i as int]@);
        let n: usize = entries[i].fields.len();
        rows = rows.saturating_add(
            if n == 0 {
                1
            } else {
                n
            },
        );
        total = total.saturating_add(pairs_bytes(&entries[i].fields));
        i += 1;
    }
    assert(all.take(i as int) == all);
    (rows, total)
}

fn values_bytes(values: &Vec<ModuleValue>) -> (r: usize)
    ensures
        r == saturated(values_size(crate::types::module_values(values@))),
{
    let ghost all = crate::types::module_values(values@);
    let mut total: usize = 0;
    let mut i: usize = 0;
    assert(all.take(0) == Seq::<ModuleValueV>::empty());
    while i < values.len()
        invariant
            i <= values@.len(),
            all == crate::types::module_values(values@),
            total == saturated(values_size(all.take(i as int))),
        decreases values@.len() - i,
    {
        assert(all.take(i + 1).drop_last() == all.take(i as int));
        assert(all.take(i + 1).last() == values@[i as int]@);
        let n: usize = match &values[i] {
            ModuleValue::String(s) => s.len(),
            _ => 8,
        };
        total = total.saturating_add(n);
        i += 1;
    }
    assert(all.take(i as int) == all);
    total
}

/// The rows and the bytes of the content of a value, up to the largest `usize`.
fn extent(value: &RdbValue) -> (r: (usize, usize))
    ensures
        r.0 == saturated(row_count(value@)),
        r.1 == saturated(content_size(value@)),
{
    let (count, content): (usize, usize) = match value {
        RdbValue::String(v) => (1, v.len()),
        RdbValue::List(items) => (items.len(), strings_bytes(items)),
        RdbValue::UnorderedSet(items) => (items.len(), strings_bytes(items)),
        RdbValue::SortedSet(pairs) => (pairs.len(), members_bytes(pairs)),
        RdbValue::Hash(fields) => (fields.len(), fields_bytes(fields)),
        RdbValue::Stream(data) => stream_extent(&data.entries),
        RdbValue::Module(data) => (data.values.len(), values_bytes(&data.values)),
    };
    if count == 0 {
        (1, content)
    } else {
        (count, content)
    }
}

/// Estimates the variable-length data size of an entry in the Arrow output.
///
/// Each element of a collection becomes a row with a copy of the key.
pub fn estimate_entry_bytes(entry: &RdbEntry) -> (r: usize)
    ensures
        r == saturated(entry_size(entry@)),
{
    let (rows, content) = extent(&entry.value);
    let key: usize = entry.key.len();
    assert(key as int * rows as int <= u128::MAX) by (nonlinear_arith)
        requires
            0 <= key <= 0xffff_ffff_ffff_ffff,
            0 <= rows <= 0xffff_ffff_ffff_ffff,
    ;
    let keys: u128 = key as u128 * rows as u128;
    proof {
        let exact = row_count(entry@.value);
        let product = entry@.key.len() * exact;
        assert(key as int * rows as int <= product) by (nonlinear_arith)
            requires
                rows as int <= exact,
                product == key as int * exact,
                key >= 0,
        ;
        if rows as nat != exact {
            if key == 0 {
                assert(product == 0) by (nonlinear_arith)
                    requires
                        product == key as int * exact,
                        key == 0,
                ;
                assert(keys == 0) by (nonlinear_arith)
                    requires
                        keys == key as int * rows as int,
                        key == 0,
                ;
            } else {
                assert(key as int * rows as int >= rows as int) by (nonlinear_arith)
                    requires
                        key >= 1,
                        rows >= 0,
                ;
            }
        }
    }
    if keys > usize::MAX as u128 {
        usize::MAX
    } else {
        (keys as usize).saturating_add(content)
    }
}

// ---- Model ----

/// A count with one more, up to the largest number.
pub open spec fn one_more(n: u64) -> u64 {
    if n == u64::MAX {
        n
    } else {
        (n + 1) as u64
    }
}

/// A batch that has been handed out: the rows of one type.
#[verifier::ext_equal]
pub struct TableV {
    pub tag: TypeTag,
    pub rows: Seq<RowV>,
}

/// The state of a batcher: its configuration, the rows that are waiting, by the place of
/// their type among all types, and how many entries were too large.
#[verifier::ext_equal]
pub struct BatcherV {
    pub config: BatcherConfig,
    pub tables: Seq<Seq<RowV>>,
    pub skipped: u64,
}

impl BatcherV {
    /// The rows of a type that are waiting.
    pub open spec fn table(self, tag: TypeTag) -> Seq<RowV> {
        self.tables[tag.rank()]
    }

    /// The state with other rows of a type.
    pub open spec fn with_table(self, tag: TypeTag, rows: Seq<RowV>) -> BatcherV {
        BatcherV { tables: self.tables.update(tag.rank(), rows), ..self }
    }

    /// Whether an entry is too large to be taken.
    pub open spec fn oversized(self, e: RdbEntryV) -> bool {
        match self.config.max_entry_bytes {
            Some(max) => saturated(entry_size(e)) > max,
            None => false,
        }
    }

    /// Whether the rows of a type have reached a threshold.
    pub open spec fn due(self, tag: TypeTag) -> bool {
        ||| self.table(tag).len() >= self.config.batch_size
        ||| match self.config.batch_bytes {
            Some(max) => saturated(total_weight(self.table(tag))) >= max,
            None => false,
        }
    }

    /// Hands out the rows of a type, if there are any.
    pub open spec fn flush_tag(self, tag: TypeTag) -> (BatcherV, Seq<TableV>) {
        if self.table(tag).len() == 0 {
            (self, Seq::empty())
        } else {
            (
                self.with_table(tag, Seq::empty()),
                seq![TableV { tag, rows: self.table(tag) }],
            )
        }
    }

    /// Hands out the rows of a type if they have reached a threshold.
    pub open spec fn flush_due(self, tag: TypeTag) -> (BatcherV, Seq<TableV>) {
        if self.due(tag) {
            self.flush_tag(tag)
        } else {
            (self, Seq::empty())
        }
    }

    /// Adds the rows of an entry to a type, or nothing if they do not fit.
    pub open spec fn add_entry(self, tag: TypeTag, e: RdbEntryV) -> Option<BatcherV> {
        let rows = self.table(tag) + rows_of(tag, e);
        if table_fits(tag, rows) {
            Some(self.with_table(tag, rows))
        } else {
            None
        }
    }

    /// Takes an entry: adds its rows to its type, and to geo data if it is shown there too,
    /// and hands out what is due. An entry that is too large is counted and left out.
    pub open spec fn push(self, e: RdbEntryV) -> (BatcherV, Option<Seq<TableV>>) {
        if self.oversized(e) {
            (
                BatcherV { skipped: one_more(self.skipped), ..self },
                Some(Seq::empty()),
            )
        } else {
            let tag = tag_of(e);
            match self.add_entry(tag, e) {
                None => (self, None),
                Some(one) => if emits_geo(self.config.heuristics@, e) {
                    match one.add_entry(TypeTag::Geo, e) {
                        None => (one, None),
                        Some(two) => {
                            let (three, first) = two.flush_due(tag);
                            let (four, second) = three.flush_due(TypeTag::Geo);
                            (four, Some(first + second))
                        },
                    }
                } else {
                    let (two, first) = one.flush_due(tag);
                    (two, Some(first))
                },
            }
        }
    }

    /// Hands out the rows of the first `n` types.
    pub open spec fn flush_first(self, n: nat) -> (BatcherV, Seq<TableV>)
        decreases n,
    {
        if n == 0 {
            (self, Seq::empty())
        } else {
            let (before, out) = self.flush_first((n - 1) as nat);
            let (after, more) = before.flush_tag(all_tags()[n - 1]);
            (after, out + more)
        }
    }

    /// Hands out all rows, type by type.
    pub open spec fn flush(self) -> (BatcherV, Seq<TableV>) {
        self.flush_first(9)
    }
}

/// A record batch tagged with its logical type.
#[derive(Debug)]
pub struct TypedBatch {
    /// The logical type of the rows.
    pub tag: TypeTag,
    /// The record batch, with the columns of that type.
    pub batch: Batch,
}

/// Whether batches are the given tables, one by one.
pub open spec fn are_tables(batches: Seq<TypedBatch>, tables: Seq<TableV>) -> bool {
    &&& batches.len() == tables.len()
    &&& forall|i: int| #![trigger batches[i]]
        0 <= i < batches.len() ==> batches[i].tag == tables[i].tag && is_table(
            batches[i].batch,
            tables[i].tag,
            tables[i].rows,
        )
}

// ---- The batcher ----

/// Accumulates entries into record batches of each type.
///
/// Call [`push`](Self::push) for each entry. When a builder reaches a threshold, the
/// returned batches are those that were flushed. Call [`flush`](Self::flush) at the end for
/// the remaining rows.
pub struct ArrowBatcher {
    config: BatcherConfig,
    builders: Vec<BatchBuilder>,
    skipped_oversized: u64,
}

impl View for ArrowBatcher {
    type V = BatcherV;

    closed spec fn view(&self) -> BatcherV {
        BatcherV {
            config: self.config,
            tables: Seq::new(self.builders@.len(), |i: int| self.builders@[i].rows()),
            skipped: self.skipped_oversized,
        }
    }
}

impl ArrowBatcher {
    /// Whether there is one builder for each type.
    pub closed spec fn valid(&self) -> bool {
        &&& self.builders@.len() == 9
        &&& forall|i: int| #![trigger self.builders@[i]]
            0 <= i < 9 ==> self.builders@[i].valid() && self.builders@[i].tag() == all_tags()[i]
    }

    /// A batcher without rows.
    pub fn new(config: BatcherConfig) -> (r: Self)
        ensures
            r.valid(),
            r@ == (BatcherV {
                config,
                tables: Seq::new(9, |i: int| Seq::<RowV>::empty()),
                skipped: 0,
            }),
    {
        let tags = TypeTag::all();
        let mut builders: Vec<BatchBuilder> = Vec::new();
        while builders.len() < tags.len()
            invariant
                tags@ == all_tags(),
                builders@.len() <= 9,
                forall|i: int| #![trigger builders@[i]]
                    0 <= i < builders@.len() ==> builders@[i].valid() && builders@[i].tag()
                        == all_tags()[i] && builders@[i].rows() == Seq::<RowV>::empty(),
            decreases 9 - builders@.len(),
        {
            let i: usize = builders.len();
            builders.push(BatchBuilder::new(tags[i]));
        }
        let r = ArrowBatcher { config, builders, skipped_oversized: 0 };
        assert(r@.tables == Seq::new(9, |i: int| Seq::<RowV>::empty()));
        r
    }

    /// Number of entries left out because their estimated size exceeded
    /// [`BatcherConfig::max_entry_bytes`].
    pub fn skipped_oversized(&self) -> (r: u64)
        ensures
            r == self@.skipped,
    {
        self.skipped_oversized
    }

    /// Adds the rows of an entry to a type.
    fn add_entry(&mut self, tag: TypeTag, entry: &RdbEntry) -> (r: Result<(), ArrowConvertError>)
        requires
            old(self).valid(),
        ensures
            final(self).valid(),
            match old(self)@.add_entry(tag, entry@) {
                Some(after) => r is Ok && final(self)@ == after,
                None => r == Err::<(), ArrowConvertError>(ArrowConvertError::BatchFull)
                    && final(self)@ == old(self)@,
            },
    {
        let i: usize = tag.index();
        assert(all_tags()[i as int] == tag);
        let ghost before = self@;
        let r = self.builders[i].push(entry);
        proof {
            match before.add_entry(tag, entry@) {
                Some(after) => {
                    assert(self@.tables == after.tables);
                },
                None => {
                    assert(self@.tables == before.tables);
                },
            }
        }
        r
    }

    /// Takes an entry. Returns the batches that reached a threshold.
    ///
    /// A sorted set always goes to the sorted sets. If it looks like geo data, it goes to
    /// the geo data as well.
    pub fn push(&mut self, entry: &RdbEntry) -> (r: Result<Vec<TypedBatch>, ArrowConvertError>)
        requires
            old(self).valid(),
        ensures
            final(self).valid(),
            ({
                let (after, out) = old(self)@.push(entry@);
                final(self)@ == after && match out {
                    Some(tables) => r matches Ok(batches) && are_tables(batches@, tables),
                    None => r == Err::<Vec<TypedBatch>, ArrowConvertError>(
                        ArrowConvertError::BatchFull,
                    ),
                }
            }),
    {
        let tag = match type_tag_for(entry) {
            Some(t) => t,
            None => {
                return Ok(Vec::new());
            },
        };
        if let Some(max) = self.config.max_entry_bytes {
            if estimate_entry_bytes(entry) > max {
                self.skipped_oversized = self.skipped_oversized.saturating_add(1);
                let out: Vec<TypedBatch> = Vec::new();
                assert(are_tables(out@, Seq::empty()));
                return Ok(out);
            }
        }
        match self.add_entry(tag, entry) {
            Ok(_) => {},
            Err(e) => {
                return Err(e);
            },
        }
        let also_geo = should_emit_geo(&self.config.heuristics, tag, entry);
        proof {
            law_geo_is_additive(self.config.heuristics@, entry@);
        }
        if also_geo {
            match self.add_entry(TypeTag::Geo, entry) {
                Ok(_) => {},
                Err(e) => {
                    return Err(e);
                },
            }
        }
        let mut out: Vec<TypedBatch> = Vec::new();
        let ghost none = Seq::<TableV>::empty();
        let ghost two = self@;
        match self.maybe_flush_tag(tag, &mut out, Ghost(none)) {
            Ok(_) => {},
            Err(e) => {
                return Err(e);
            },
        }
        let ghost first = two.flush_due(tag).1;
        assert(none + first == first);
        if also_geo {
            match self.maybe_flush_tag(TypeTag::Geo, &mut out, Ghost(first)) {
                Ok(_) => {},
                Err(e) => {
                    return Err(e);
                },
            }
        }
        Ok(out)
    }

    /// Flushes all remaining rows.
    pub fn flush(&mut self) -> (r: Result<Vec<TypedBatch>, ArrowConvertError>)
        requires
            old(self).valid(),
        ensures
            final(self).valid(),
            final(self)@ == old(self)@.flush().0,
            r matches Ok(batches) && are_tables(batches@, old(self)@.flush().1),
    {
        let tags = TypeTag::all();
        let mut out: Vec<TypedBatch> = Vec::new();
        let ghost start = self@;
        let mut i: usize = 0;
        while i < tags.len()
            invariant
                tags@ == all_tags(),
                i <= 9,
                self.valid(),
                self@ == start.flush_first(i as nat).0,
                are_tables(out@, start.flush_first(i as nat).1),
            decreases 9 - i,
        {
            let ghost tables = start.flush_first(i as nat).1;
            match self.flush_tag(tags[i], &mut out, Ghost(tables)) {
                Ok(_) => {},
                Err(e) => {
                    return Err(e);
                },
            }
            i += 1;
        }
        Ok(out)
    }

    /// An iterator over the batches of what a source yields.
    pub fn process<I: EntrySource>(self, iter: I) -> (r: BatchIterator<I>)
        requires
            self.valid(),
            iter.valid(),
        ensures
            r.valid(),
            r@ == (IterV { feed: self@.as_feed(), upcoming: iter.upcoming() }),
    {
        BatchIterator { feed: self.into_feed(), iter }
    }

    /// A feed that takes items one by one.
    pub fn into_feed(self) -> (r: BatchFeed)
        requires
            self.valid(),
        ensures
            r.valid(),
            r@ == self@.as_feed(),
    {
        BatchFeed {
            batcher: self,
            pending: VecDeque::new(),
            tables: Ghost(Seq::empty()),
            finished: false,
            skipped: 0,
        }
    }

    /// Flushes the rows of a type if they have reached a threshold.
    fn maybe_flush_tag(
        &mut self,
        tag: TypeTag,
        out: &mut Vec<TypedBatch>,
        tables: Ghost<Seq<TableV>>,
    ) -> (r: Result<(), ArrowConvertError>)
        requires
            old(self).valid(),
            are_tables(old(out)@, tables@),
        ensures
            final(self).valid(),
            r is Ok,
            final(self)@ == old(self)@.flush_due(tag).0,
            are_tables(final(out)@, tables@ + old(self)@.flush_due(tag).1),
    {
        let i: usize = tag.index();
        assert(all_tags()[i as int] == tag);
        assert(self@.table(tag) == self.builders@[i as int].rows());
        let rows: usize = self.builders[i].len();
        let bytes: usize = self.builders[i].data_bytes();
        let row_exceeded = rows >= self.config.batch_size;
        let bytes_exceeded = match self.config.batch_bytes {
            Some(max) => bytes >= max,
            None => false,
        };
        if row_exceeded || bytes_exceeded {
            self.flush_tag(tag, out, tables)
        } else {
            assert(tables@ + Seq::<TableV>::empty() == tables@);
            Ok(())
        }
    }

    /// Flushes the rows of a type.
    fn flush_tag(
        &mut self,
        tag: TypeTag,
        out: &mut Vec<TypedBatch>,
        tables: Ghost<Seq<TableV>>,
    ) -> (r: Result<(), ArrowConvertError>)
        requires
            old(self).valid(),
            are_tables(old(out)@, tables@),
        ensures
            final(self).valid(),
            r is Ok,
            final(self)@ == old(self)@.flush_tag(tag).0,
            are_tables(final(out)@, tables@ + old(self)@.flush_tag(tag).1),
    {
        let i: usize = tag.index();
        assert(all_tags()[i as int] == tag);
        assert(self@.table(tag) == self.builders@[i as int].rows());
        if self.builders[i].is_empty() {
            assert(tables@ + Seq::<TableV>::empty() == tables@);
            return Ok(());
        }
        let ghost before = self@;
        match self.builders[i].finish() {
            Ok(batch) => {
                out.push(TypedBatch { tag, batch });
                assert(self@.tables == before.flush_tag(tag).0.tables);
                Ok(())
            },
            Err(e) => Err(e),
        }
    }
}

// ---- Iteration ----

/// The state of a feed.
#[verifier::ext_equal]
pub struct FeedV {
    pub batcher: BatcherV,
    pub pending: Seq<TableV>,
    pub finished: bool,
    pub skipped: u64,
}

impl BatcherV {
    /// A feed that has taken nothing yet.
    pub open spec fn as_feed(self) -> FeedV {
        FeedV { batcher: self, pending: Seq::empty(), finished: false, skipped: 0 }
    }
}

impl FeedV {
    /// Takes an item, or `None` for the end, and gives the error that it leads to, if any.
    /// An entry of an unknown type is counted and passed over; any other error is handed on,
    /// and so is an entry that does not fit. At the end the remaining rows are flushed.
    pub open spec fn feed(self, item: Option<EntryItem>) -> (FeedV, Option<ArrowConvertErrorV>) {
        match item {
            Some(Ok(e)) => {
                let (batcher, out) = self.batcher.push(e);
                match out {
                    Some(tables) => (
                        FeedV { batcher, pending: self.pending + tables, ..self },
                        None,
                    ),
                    None => (FeedV { batcher, ..self }, Some(ArrowConvertErrorV::BatchFull)),
                }
            },
            Some(Err(RdbErrorV::UnknownType(_))) => (
                FeedV { skipped: one_more(self.skipped), ..self },
                None,
            ),
            Some(Err(e)) => (self, Some(ArrowConvertErrorV::Parser(e))),
            None => {
                let (batcher, tables) = self.batcher.flush();
                (
                    FeedV { batcher, pending: self.pending + tables, finished: true, ..self },
                    None,
                )
            },
        }
    }
}

/// Turns items of a source into batches.
pub struct BatchFeed {
    batcher: ArrowBatcher,
    pending: VecDeque<TypedBatch>,
    tables: Ghost<Seq<TableV>>,
    finished: bool,
    skipped: u64,
}

impl View for BatchFeed {
    type V = FeedV;

    closed spec fn view(&self) -> FeedV {
        FeedV {
            batcher: self.batcher@,
            pending: self.tables@,
            finished: self.finished,
            skipped: self.skipped,
        }
    }
}

impl BatchFeed {
    /// Whether the batcher is in order, and the pending batches are known.
    pub closed spec fn valid(&self) -> bool {
        &&& self.batcher.valid()
        &&& are_tables(self.pending@, self.tables@)
    }

    /// The next pending batch.
    pub fn pop(&mut self) -> (r: Option<TypedBatch>)
        requires
            old(self).valid(),
        ensures
            final(self).valid(),
            match r {
                Some(b) => {
                    let t = old(self)@.pending[0];
                    &&& old(self)@.pending.len() > 0
                    &&& b.tag == t.tag
                    &&& is_table(b.batch, t.tag, t.rows)
                    &&& final(self)@ == FeedV { pending: old(self)@.pending.drop_first(), ..old(self)@ }
                },
                None => old(self)@.pending.len() == 0 && final(self)@ == old(self)@,
            },
    {
        let ghost before = self@;
        let ghost queue = self.pending@;
        let r = self.pending.pop_front();
        proof {
            if r is Some {
                self.tables = Ghost(before.pending.drop_first());
                assert(self.pending@ == queue.drop_first());
            }
        }
        r
    }

    /// Takes an item, or `None` for the end. Returns the error that it leads to, if any.
    pub fn feed(&mut self, item: Option<Result<RdbEntry, RdbError>>) -> (r: Option<
        ArrowConvertError,
    >)
        requires
            old(self).valid(),
        ensures
            final(self).valid(),
            ({
                let (after, error) = old(self)@.feed(
                    match item {
                        Some(x) => Some(item_of(x)),
                        None => None,
                    },
                );
                &&& final(self)@ == after
                &&& match (r, error) {
                    (None, None) => true,
                    (Some(e), Some(v)) => e@ == v,
                    _ => false,
                }
            }),
    {
        let ghost before = self@;
        match item {
            Some(Ok(entry)) => match self.batcher.push(&entry) {
                Ok(batches) => {
                    self.enqueue(batches, Ghost(before.batcher.push(entry@).1->0));
                    None
                },
                Err(e) => Some(e),
            },
            Some(Err(RdbError::UnknownType(_))) => {
                self.skipped = self.skipped.saturating_add(1);
                None
            },
            Some(Err(e)) => Some(ArrowConvertError::Parser(e)),
            None => {
                self.finished = true;
                match self.batcher.flush() {
                    Ok(batches) => {
                        self.enqueue(batches, Ghost(before.batcher.flush().1));
                        None
                    },
                    Err(e) => Some(e),
                }
            },
        }
    }

    /// Adds batches to those that are pending.
    fn enqueue(&mut self, batches: Vec<TypedBatch>, tables: Ghost<Seq<TableV>>)
        requires
            old(self).valid(),
            are_tables(batches@, tables@),
        ensures
            final(self).valid(),
            final(self)@ == (FeedV { pending: old(self)@.pending + tables@, ..old(self)@ }),
    {
        let mut queue = into_queue(batches);
        let ghost all = self.pending@ + queue@;
        while queue.len() > 0
            invariant
                self.pending@ + queue@ == all,
                self.batcher == old(self).batcher,
                self.tables == old(self).tables,
                self.finished == old(self).finished,
                self.skipped == old(self).skipped,
            decreases queue@.len(),
        {
            let ghost before = queue@;
            match queue.pop_front() {
                Some(b) => {
                    let ghost prior = self.pending@;
                    self.pending.push_back(b);
                    assert(before == seq![b] + queue@);
                    assert(self.pending@ + queue@ == prior + before);
                },
                None => {},
            }
        }
        assert(self.pending@ + queue@ == self.pending@);
        proof {
            self.tables = Ghost(self.tables@ + tables@);
        }
    }

    /// Whether the end has been taken.
    pub fn is_finished(&self) -> (r: bool)
        ensures
            r == self@.finished,
    {
        self.finished
    }

    /// The number of entries passed over because of their type.
    pub fn skipped_count(&self) -> (r: u64)
        ensures
            r == self@.skipped,
    {
        self.skipped
    }

    /// The number of entries left out because their estimated size exceeded
    /// [`BatcherConfig::max_entry_bytes`].
    pub fn skipped_oversized_count(&self) -> (r: u64)
        ensures
            r == self@.batcher.skipped,
    {
        self.batcher.skipped_oversized()
    }
}

/// The state of an iteration over batches.
#[verifier::ext_equal]
pub struct IterV {
    pub feed: FeedV,
    pub upcoming: Seq<EntryItem>,
}

impl IterV {
    /// What comes next. Items are taken until a batch is pending or an error comes up; at the
    /// end of the source the remaining rows are flushed.
    pub open spec fn next(self) -> (IterV, Option<Result<TableV, ArrowConvertErrorV>>)
        decreases
            self.upcoming.len(),
            if self.feed.finished {
                0int
            } else {
                1
            },
    {
        if self.feed.pending.len() > 0 {
            let rest = FeedV { pending: self.feed.pending.drop_first(), ..self.feed };
            (IterV { feed: rest, ..self }, Some(Ok(self.feed.pending[0])))
        } else if self.feed.finished {
            (self, None)
        } else if self.upcoming.len() == 0 {
            (IterV { feed: self.feed.feed(None).0, ..self }).next()
        } else {
            let (feed, error) = self.feed.feed(Some(self.upcoming[0]));
            let after = IterV { feed, upcoming: self.upcoming.drop_first() };
            match error {
                Some(e) => (after, Some(Err(e))),
                None => after.next(),
            }
        }
    }
}

/// Yields the batches of what a source of entries yields.
pub struct BatchIterator<I: EntrySource> {
    feed: BatchFeed,
    iter: I,
}

impl<I: EntrySource> View for BatchIterator<I> {
    type V = IterV;

    closed spec fn view(&self) -> IterV {
        IterV { feed: self.feed@, upcoming: self.iter.upcoming() }
    }
}

impl<I: EntrySource> BatchIterator<I> {
    /// Whether feed and source are in order.
    pub closed spec fn valid(&self) -> bool {
        self.feed.valid() && self.iter.valid()
    }

    /// The number of entries passed over because of their type.
    pub fn skipped_count(&self) -> (r: u64)
        ensures
            r == self@.feed.skipped,
    {
        self.feed.skipped_count()
    }

    /// The number of entries left out because their estimated size exceeded
    /// [`BatcherConfig::max_entry_bytes`].
    pub fn skipped_oversized_count(&self) -> (r: u64)
        ensures
            r == self@.feed.batcher.skipped,
    {
        self.feed.skipped_oversized_count()
    }

    /// The next batch or error, or `None` at the end.
    pub fn next(&mut self) -> (r: Option<Result<TypedBatch, ArrowConvertError>>)
        requires
            old(self).valid(),
        ensures
            final(self).valid(),
            final(self)@ == old(self)@.next().0,
            match (r, old(self)@.next().1) {
                (None, None) => true,
                (Some(Ok(b)), Some(Ok(t))) => b.tag == t.tag && is_table(b.batch, t.tag, t.rows),
                (Some(Err(e)), Some(Err(v))) => e@ == v,
                _ => false,
            },
    {
        loop
            invariant
                self.valid(),
                self@.next() == old(self)@.next(),
            decreases
                self@.upcoming.len(),
                if self@.feed.finished {
                    0int
                } else {
                    1int
                },
        {
            let ghost before = self@;
            match self.feed.pop() {
                Some(batch) => {
                    return Some(Ok(batch));
                },
                None => {},
            }
            if self.feed.is_finished() {
                return None;
            }
            let item = self.iter.next_entry();
            assert(item is None ==> self.iter.upcoming() == before.upcoming);
            match self.feed.feed(item) {
                Some(e) => {
                    return Some(Err(e));
                },
                None => {},
            }
        }
    }
}

// ---- Laws ----

/// The rows of a type in tables that were handed out, in order.
pub open spec fn rows_in(tables: Seq<TableV>, tag: TypeTag) -> Seq<RowV>
    decreases tables.len(),
{
    if tables.len() == 0 {
        Seq::empty()
    } else if tables.last().tag == tag {
        rows_in(tables.drop_last(), tag) + tables.last().rows
    } else {
        rows_in(tables.drop_last(), tag)
    }
}

/// The rows of a type that a batcher takes from an entry.
pub open spec fn taken(b: BatcherV, e: RdbEntryV, tag: TypeTag) -> Seq<RowV> {
    if b.oversized(e) {
        Seq::empty()
    } else if tag == tag_of(e) || (tag == TypeTag::Geo && emits_geo(b.config.heuristics@, e)) {
        rows_of(tag, e)
    } else {
        Seq::empty()
    }
}

/// The rows of a type that a batcher takes from entries, in order.
pub open spec fn all_taken(b: BatcherV, entries: Seq<RdbEntryV>, tag: TypeTag) -> Seq<RowV>
    decreases entries.len(),
{
    if entries.len() == 0 {
        Seq::empty()
    } else {
        all_taken(b, entries.drop_last(), tag) + taken(b, entries.last(), tag)
    }
}

/// The state and the tables after pushing entries, or `None` once one does not fit.
pub open spec fn run(b: BatcherV, entries: Seq<RdbEntryV>) -> Option<(BatcherV, Seq<TableV>)>
    decreases entries.len(),
{
    if entries.len() == 0 {
        Some((b, Seq::empty()))
    } else {
        match run(b, entries.drop_last()) {
            None => None,
            Some((before, out)) => {
                let (after, more) = before.push(entries.last());
                match more {
                    None => None,
                    Some(tables) => Some((after, out + tables)),
                }
            },
        }
    }
}

/// Whether no table is empty.
pub open spec fn none_empty(tables: Seq<TableV>) -> bool {
    forall|i: int| 0 <= i < tables.len() ==> (#[trigger] tables[i]).rows.len() > 0
}

proof fn lemma_rows_in_concat(a: Seq<TableV>, b: Seq<TableV>, tag: TypeTag)
    ensures
        rows_in(a + b, tag) == rows_in(a, tag) + rows_in(b, tag),
    decreases b.len(),
{
    if b.len() == 0 {
        assert(a + b == a);
        assert(rows_in(a, tag) + rows_in(b, tag) == rows_in(a, tag));
    } else {
        assert((a + b).drop_last() == a + b.drop_last());
        lemma_rows_in_concat(a, b.drop_last(), tag);
        assert((a + b).last() == b.last());
        assert(rows_in(a + b, tag) == rows_in(a, tag) + rows_in(b, tag));
    }
}

proof fn lemma_flush_tag_keeps_rows(b: BatcherV, flushed: TypeTag, tag: TypeTag)
    requires
        b.tables.len() == 9,
    ensures
        b.flush_tag(flushed).0.tables.len() == 9,
        b.flush_tag(flushed).0.config == b.config,
        none_empty(b.flush_tag(flushed).1),
        b.table(tag) == rows_in(b.flush_tag(flushed).1, tag) + b.flush_tag(flushed).0.table(tag),
        tag == flushed ==> b.flush_tag(flushed).0.table(tag) == Seq::<RowV>::empty(),
        tag != flushed ==> rows_in(b.flush_tag(flushed).1, tag) == Seq::<RowV>::empty(),
{
    let (after, out) = b.flush_tag(flushed);
    if b.table(flushed).len() == 0 {
        assert(b.table(flushed) == Seq::<RowV>::empty());
        assert(rows_in(out, tag) == Seq::<RowV>::empty());
    } else {
        assert(out.drop_last() == Seq::<TableV>::empty());
        assert(out.last().tag == flushed);
        assert(rows_in(out.drop_last(), tag) == Seq::<RowV>::empty());
        if tag == flushed {
            assert(rows_in(out, tag) == b.table(flushed));
        } else {
            assert(tag.rank() != flushed.rank());
            assert(rows_in(out, tag) == Seq::<RowV>::empty());
        }
    }
    assert(b.table(tag) == rows_in(out, tag) + after.table(tag));
}

/// Taking an entry loses no rows and makes up none: for every type, what was waiting and what
/// the entry adds is what is handed out and what is then waiting. No batch that is handed out
/// is empty.
pub proof fn law_push_keeps_rows(b: BatcherV, e: RdbEntryV, tag: TypeTag)
    requires
        b.tables.len() == 9,
        b.push(e).1 is Some,
    ensures
        b.push(e).0.tables.len() == 9,
        b.push(e).0.config == b.config,
        b.table(tag) + taken(b, e, tag) == rows_in(b.push(e).1->0, tag) + b.push(e).0.table(tag),
        none_empty(b.push(e).1->0),
{
    let (after, out) = b.push(e);
    let tables = out->0;
    if b.oversized(e) {
        assert(rows_in(tables, tag) == Seq::<RowV>::empty());
        assert(b.table(tag) + taken(b, e, tag) == rows_in(tables, tag) + after.table(tag));
    } else {
        let own = tag_of(e);
        let one = b.add_entry(own, e)->0;
        law_geo_is_additive(b.config.heuristics@, e);
        assert(one.table(tag) == if tag == own {
            b.table(tag) + rows_of(tag, e)
        } else {
            b.table(tag)
        });
        if emits_geo(b.config.heuristics@, e) {
            let two = one.add_entry(TypeTag::Geo, e)->0;
            assert(two.table(tag) == b.table(tag) + taken(b, e, tag));
            let (three, first) = two.flush_due(own);
            let (four, second) = three.flush_due(TypeTag::Geo);
            lemma_flush_tag_keeps_rows(two, own, tag);
            lemma_flush_tag_keeps_rows(three, TypeTag::Geo, tag);
            assert(rows_in(Seq::<TableV>::empty(), tag) == Seq::<RowV>::empty());
            assert(two.table(tag) == rows_in(first, tag) + three.table(tag));
            assert(three.table(tag) == rows_in(second, tag) + four.table(tag));
            lemma_rows_in_concat(first, second, tag);
            assert(rows_in(first, tag) + (rows_in(second, tag) + four.table(tag)) == rows_in(
                first + second,
                tag,
            ) + four.table(tag));
            assert forall|i: int| 0 <= i < tables.len() implies (#[trigger] tables[i]).rows.len()
                > 0 by {
                if i < first.len() {
                    assert(tables[i] == first[i]);
                } else {
                    assert(tables[i] == second[i - first.len()]);
                }
            }
        } else {
            assert(one.table(tag) == b.table(tag) + taken(b, e, tag));
            lemma_flush_tag_keeps_rows(one, own, tag);
            assert(rows_in(Seq::<TableV>::empty(), tag) == Seq::<RowV>::empty());
            assert(one.table(tag) == rows_in(tables, tag) + after.table(tag));
        }
    }
}

proof fn lemma_flush_first(b: BatcherV, n: nat, tag: TypeTag)
    requires
        b.tables.len() == 9,
        n <= 9,
    ensures
        b.flush_first(n).0.tables.len() == 9,
        none_empty(b.flush_first(n).1),
        tag.rank() < n ==> b.flush_first(n).0.table(tag) == Seq::<RowV>::empty() && rows_in(
            b.flush_first(n).1,
            tag,
        ) == b.table(tag),
        tag.rank() >= n ==> b.flush_first(n).0.table(tag) == b.table(tag) && rows_in(
            b.flush_first(n).1,
            tag,
        ) == Seq::<RowV>::empty(),
    decreases n,
{
    if n > 0 {
        let (before, out) = b.flush_first((n - 1) as nat);
        lemma_flush_first(b, (n - 1) as nat, tag);
        let flushed = all_tags()[n - 1];
        assert(flushed.rank() == n - 1);
        let (after, more) = before.flush_tag(flushed);
        lemma_flush_tag_keeps_rows(before, flushed, tag);
        lemma_rows_in_concat(out, more, tag);
        if tag.rank() == n - 1 {
            assert(tag == flushed);
            assert(rows_in(more, tag) + after.table(tag) == rows_in(more, tag));
            assert(rows_in(out, tag) + rows_in(more, tag) == rows_in(more, tag));
        } else {
            assert(after.table(tag) == before.table(tag)) by {
                assert(rows_in(more, tag) + after.table(tag) == after.table(tag));
            }
            assert(rows_in(out, tag) + rows_in(more, tag) == rows_in(out, tag));
        }
        let all = out + more;
        assert forall|i: int| 0 <= i < all.len() implies (#[trigger] all[i]).rows.len() > 0 by {
            if i < out.len() {
                assert(all[i] == out[i]);
            } else {
                assert(all[i] == more[i - out.len()]);
            }
        }
    }
}

/// A flush hands out exactly the waiting rows of every type, in batches that are not empty,
/// and leaves none.
pub proof fn law_flush_hands_out_all(b: BatcherV, tag: TypeTag)
    requires
        b.tables.len() == 9,
    ensures
        b.flush().0.tables.len() == 9,
        rows_in(b.flush().1, tag) == b.table(tag),
        b.flush().0.table(tag) == Seq::<RowV>::empty(),
        none_empty(b.flush().1),
{
    lemma_flush_first(b, 9, tag);
}

proof fn lemma_run(b: BatcherV, entries: Seq<RdbEntryV>, tag: TypeTag)
    requires
        b.tables.len() == 9,
        run(b, entries) is Some,
    ensures
        ({
            let (after, out) = run(b, entries)->0;
            &&& after.tables.len() == 9
            &&& after.config == b.config
            &&& b.table(tag) + all_taken(b, entries, tag) == rows_in(out, tag) + after.table(tag)
        }),
    decreases entries.len(),
{
    if entries.len() == 0 {
        assert(b.table(tag) + all_taken(b, entries, tag) == rows_in(Seq::<TableV>::empty(), tag)
            + b.table(tag));
    } else {
        let front = entries.drop_last();
        let e = entries.last();
        lemma_run(b, front, tag);
        let (before, out) = run(b, front)->0;
        law_push_keeps_rows(before, e, tag);
        let (after, more) = before.push(e);
        lemma_rows_in_concat(out, more->0, tag);
        lemma_regroup(
            b.table(tag),
            all_taken(b, front, tag),
            rows_in(out, tag),
            before.table(tag),
            taken(b, e, tag),
            rows_in(more->0, tag),
            after.table(tag),
        );
    }
}

/// If `start + front` is `out + waiting`, and `waiting + new` is `more + left`, then
/// `start + (front + new)` is `(out + more) + left`.
proof fn lemma_regroup(
    start: Seq<RowV>,
    front: Seq<RowV>,
    out: Seq<RowV>,
    waiting: Seq<RowV>,
    new: Seq<RowV>,
    more: Seq<RowV>,
    left: Seq<RowV>,
)
    requires
        start + front == out + waiting,
        waiting + new == more + left,
    ensures
        start + (front + new) == (out + more) + left,
{
    assert(start + (front + new) == (start + front) + new);
    assert((out + waiting) + new == out + (waiting + new));
    assert(out + (more + left) == (out + more) + left);
}

/// Whatever the thresholds: pushing entries and flushing at the end hands out, for every type,
/// exactly the rows of the entries, in their order.
pub proof fn law_nothing_is_lost(b: BatcherV, entries: Seq<RdbEntryV>, tag: TypeTag)
    requires
        b.tables == Seq::new(9, |i: int| Seq::<RowV>::empty()),
        run(b, entries) is Some,
    ensures
        ({
            let (after, out) = run(b, entries)->0;
            rows_in(out + after.flush().1, tag) == all_taken(b, entries, tag)
        }),
{
    lemma_run(b, entries, tag);
    let (after, out) = run(b, entries)->0;
    law_flush_hands_out_all(after, tag);
    lemma_rows_in_concat(out, after.flush().1, tag);
    assert(b.table(tag) == Seq::<RowV>::empty());
    assert(b.table(tag) + all_taken(b, entries, tag) == all_taken(b, entries, tag));
}

/// What an iteration yields.
pub type BatchItem = Result<TableV, ArrowConvertErrorV>;

/// Tables as items of an iteration.
pub open spec fn as_items(tables: Seq<TableV>) -> Seq<BatchItem> {
    tables.map_values(|t: TableV| Ok::<TableV, ArrowConvertErrorV>(t))
}

/// Entries as items of a source.
pub open spec fn as_entries(entries: Seq<RdbEntryV>) -> Seq<EntryItem> {
    entries.map_values(|e: RdbEntryV| Ok::<RdbEntryV, RdbErrorV>(e))
}

/// An error as an item of an iteration, if there is one.
pub open spec fn error_item(error: Option<ArrowConvertErrorV>) -> Seq<BatchItem> {
    match error {
        Some(e) => seq![Err(e)],
        None => Seq::empty(),
    }
}

/// All that a feed is going to yield from the items of a source, if nothing is pending.
pub open spec fn yet_to_come(f: FeedV, upcoming: Seq<EntryItem>) -> Seq<BatchItem>
    decreases upcoming.len(),
{
    let empty = FeedV { pending: Seq::empty(), ..f };
    if upcoming.len() == 0 {
        as_items(empty.feed(None).0.pending)
    } else {
        let (after, error) = empty.feed(Some(upcoming[0]));
        error_item(error) + as_items(after.pending) + yet_to_come(after, upcoming.drop_first())
    }
}

/// All that an iteration is going to yield.
pub open spec fn remaining(s: IterV) -> Seq<BatchItem> {
    if s.feed.finished {
        as_items(s.feed.pending)
    } else {
        as_items(s.feed.pending) + yet_to_come(s.feed, s.upcoming)
    }
}

/// What is pending does not matter for what is yet to come.
pub proof fn lemma_pending_aside(f: FeedV, pending: Seq<TableV>, upcoming: Seq<EntryItem>)
    ensures
        yet_to_come(FeedV { pending, ..f }, upcoming) == yet_to_come(f, upcoming),
{
    assert((FeedV { pending: Seq::empty(), ..(FeedV { pending, ..f }) }) == (FeedV {
        pending: Seq::empty(),
        ..f
    }));
}

/// Calling `next` until it gives `None` yields exactly what is remaining, in order: the
/// batches as they fall due, every error but those of unknown types, and at the end what was
/// waiting.
pub proof fn law_iteration_yields_all(s: IterV)
    ensures
        match s.next() {
            (after, Some(x)) => remaining(s) == seq![x] + remaining(after),
            (after, None) => remaining(s) == Seq::<BatchItem>::empty(),
        },
    decreases
            s.upcoming.len(),
            if s.feed.finished {
                0int
            } else {
                1
            },
{
    let f = s.feed;
    let items = as_items(f.pending);
    if f.pending.len() > 0 {
        let rest = f.pending.drop_first();
        let first = seq![Ok::<TableV, ArrowConvertErrorV>(f.pending[0])];
        assert(items == first + as_items(rest));
        lemma_pending_aside(f, rest, s.upcoming);
        let more = yet_to_come(f, s.upcoming);
        assert(items + more == first + (as_items(rest) + more));
    } else {
        assert(items == Seq::<BatchItem>::empty());
        assert(f.pending == Seq::<TableV>::empty());
        if !f.finished {
            let more = yet_to_come(f, s.upcoming);
            assert(remaining(s) == more);
            assert((FeedV { pending: Seq::empty(), ..f }) == f);
            if s.upcoming.len() == 0 {
                law_iteration_yields_all(IterV { feed: f.feed(None).0, ..s });
            } else {
                let (feed, error) = f.feed(Some(s.upcoming[0]));
                let after = IterV { feed, upcoming: s.upcoming.drop_first() };
                match error {
                    Some(e) => {
                        assert(feed.pending == Seq::<TableV>::empty());
                        let one = seq![Err::<TableV, ArrowConvertErrorV>(e)];
                        let rest = yet_to_come(feed, after.upcoming);
                        assert(as_items(feed.pending) == Seq::<BatchItem>::empty());
                        assert(one + as_items(feed.pending) + rest == one + (as_items(feed.pending)
                            + rest));
                    },
                    None => {
                        law_iteration_yields_all(after);
                        let rest = yet_to_come(feed, after.upcoming);
                        assert(Seq::<BatchItem>::empty() + as_items(feed.pending) + rest
                            == as_items(feed.pending) + rest);
                    },
                }
            }
        }
    }
}

proof fn lemma_entries_first(f: FeedV, entries: Seq<RdbEntryV>, upcoming: Seq<EntryItem>)
    requires
        run(f.batcher, entries) is Some,
    ensures
        ({
            let (after, out) = run(f.batcher, entries)->0;
            yet_to_come(f, as_entries(entries) + upcoming) == as_items(out) + yet_to_come(
                FeedV { batcher: after, ..f },
                upcoming,
            )
        }),
    decreases entries.len(),
{
    if entries.len() == 0 {
        assert(as_entries(entries) + upcoming == upcoming);
        assert(as_items(Seq::<TableV>::empty()) + yet_to_come(f, upcoming) == yet_to_come(
            f,
            upcoming,
        ));
    } else {
        let front = entries.drop_last();
        let e = entries.last();
        let last = seq![Ok::<RdbEntryV, RdbErrorV>(e)] + upcoming;
        assert(as_entries(entries) + upcoming == as_entries(front) + last);
        lemma_entries_first(f, front, last);
        let (before, out) = run(f.batcher, front)->0;
        let (after, more) = before.push(e);
        let fed = FeedV { batcher: before, pending: Seq::empty(), ..f };
        assert(last[0] == Ok::<RdbEntryV, RdbErrorV>(e));
        assert(last.drop_first() == upcoming);
        let (next, error) = fed.feed(Some(last[0]));
        assert(error is None);
        assert(next.pending == more->0);
        let end = FeedV { batcher: after, ..f };
        assert(next == (FeedV { pending: next.pending, ..end }));
        lemma_pending_aside(end, next.pending, upcoming);
        let rest = yet_to_come(end, upcoming);
        assert(Seq::<BatchItem>::empty() + as_items(more->0) + rest == as_items(more->0) + rest);
        lemma_item_groups(out, more->0, rest);
    }
}

pub proof fn lemma_item_groups(a: Seq<TableV>, b: Seq<TableV>, rest: Seq<BatchItem>)
    ensures
        as_items(a) + (as_items(b) + rest) == as_items(a + b) + rest,
{
    assert(as_items(a + b) == as_items(a) + as_items(b));
    assert(as_items(a) + (as_items(b) + rest) == as_items(a) + as_items(b) + rest);
}

/// An iteration over entries yields the batches of pushing them one by one, and then those of
/// a flush.
pub proof fn law_iteration_is_a_run(b: BatcherV, entries: Seq<RdbEntryV>)
    requires
        run(b, entries) is Some,
    ensures
        ({
            let (after, out) = run(b, entries)->0;
            remaining(IterV { feed: b.as_feed(), upcoming: as_entries(entries) }) == as_items(
                out + after.flush().1,
            )
        }),
{
    let f = b.as_feed();
    lemma_entries_first(f, entries, Seq::empty());
    assert(as_entries(entries) + Seq::<EntryItem>::empty() == as_entries(entries));
    let (after, out) = run(b, entries)->0;
    let end = FeedV { batcher: after, ..f };
    assert((FeedV { pending: Seq::empty(), ..end }) == end);
    assert(end.feed(None).0.pending == after.flush().1);
    assert(as_items(out) + as_items(after.flush().1) == as_items(out + after.flush().1));
    assert(as_items(f.pending) == Seq::<BatchItem>::empty());
    assert(as_items(f.pending) + yet_to_come(f, as_entries(entries)) == yet_to_come(
        f,
        as_entries(entries),
    ));
}

} // verus!
