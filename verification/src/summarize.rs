//! Single-pass aggregation over an RDB reader.

use crate::batcher::{all_taken, law_nothing_is_lost, one_more, rows_in, run, taken, BatcherV};
use crate::chunks::{
    goes_on, joined_onto, law_chunks_rejoin, law_whole_without_chunking, limited, no_failure,
    rejoined, settled, unmarked, with_chunk,
};
use crate::entries::{EntryItem, EntrySource};
use crate::reader::{drained, upcoming_from, RdbReader, ReaderV};
use crate::rows::{law_expected_rows, rows_of, RowV};
use crate::schema::{
    capped, emits_geo, expected_row_count, law_geo_is_additive, row_count, should_emit_geo, tag_of,
    type_tag_for, Heuristic, HeuristicSet, TypeTag,
};
use crate::types::{
    RdbEntry, RdbEntryV, RdbError, RdbErrorV, RdbHeader, RdbMetadata, RdbValueV,
};
use crate::values;
use crate::wire::ByteSource;
use std::collections::BTreeMap;
use vstd::prelude::*;

verus! {

/// Aggregate counts for one logical type.
#[derive(Debug, Clone, Copy, PartialEq, Eq, Structural)]
pub struct TypeCount {
    /// Number of distinct keys: the chunks of a collection count once.
    pub keys: u64,
    /// Number of rows once the keys are expanded into Arrow rows.
    pub rows: u64,
}

/// A map from type tags.
#[derive(Debug, Clone)]
pub struct TagMap<V> {
    slots: Vec<Option<V>>,
}

impl<V> TagMap<V> {
    /// The value of a tag.
    pub closed spec fn at(&self, tag: TypeTag) -> Option<V> {
        if tag.rank() < self.slots@.len() {
            self.slots@[tag.rank()]
        } else {
            None
        }
    }

    /// The map without values.
    pub fn new() -> (r: Self)
        ensures
            forall|t: TypeTag| #[trigger] r.at(t) == None::<V>,
    {
        TagMap { slots: Vec::new() }
    }

    /// Whether a tag has a value.
    pub fn contains_key(&self, tag: TypeTag) -> (r: bool)
        ensures
            r == (self.at(tag) is Some),
    {
        let i: usize = tag.index();
        i < self.slots.len() && self.slots[i].is_some()
    }

    /// Whether no tag has a value.
    pub fn is_empty(&self) -> (r: bool)
        ensures
            r == (forall|t: TypeTag| #[trigger] self.at(t) is None),
    {
        let tags = TypeTag::all();
        let mut i: usize = 0;
        while i < tags.len()
            invariant
                tags@ == crate::schema::all_tags(),
                i <= 9,
                forall|t: TypeTag| t.rank() < i ==> #[trigger] self.at(t) is None,
            decreases 9 - i,
        {
            if self.contains_key(tags[i]) {
                assert(self.at(tags@[i as int]) is Some);
                return false;
            }
            assert forall|t: TypeTag| t.rank() < i + 1 implies #[trigger] self.at(t) is None by {
                if t.rank() == i {
                    assert(t == tags@[i as int]);
                }
            }
            i += 1;
        }
        true
    }

    /// Sets the value of a tag.
    pub fn insert(&mut self, tag: TypeTag, v: V)
        ensures
            final(self).at(tag) == Some(v),
            forall|t: TypeTag| t != tag ==> #[trigger] final(self).at(t) == old(self).at(t),
    {
        let i: usize = tag.index();
        while self.slots.len() <= i
            invariant
                i < 9,
                forall|t: TypeTag| #[trigger] self.at(t) == old(self).at(t),
            decreases 9 - self.slots@.len(),
        {
            let ghost before = *self;
            self.slots.push(None);
            assert forall|t: TypeTag| #[trigger] self.at(t) == old(self).at(t) by {
                assert(before.at(t) == old(self).at(t));
            }
        }
        let ghost before = *self;
        self.slots.set(i, Some(v));
        assert forall|t: TypeTag| t != tag implies #[trigger] self.at(t) == old(self).at(t) by {
            assert(before.at(t) == old(self).at(t));
            assert(t.rank() != tag.rank());
        }
    }
}

impl<V: Copy> TagMap<V> {
    /// The value of a tag.
    pub fn get(&self, tag: TypeTag) -> (r: Option<V>)
        ensures
            r == self.at(tag),
    {
        let i: usize = tag.index();
        if i < self.slots.len() {
            self.slots[i]
        } else {
            None
        }
    }
}

// ---- Counting ----

/// Whether an entry is counted under a tag: its own, and Geo if it is shown there too.
pub open spec fn under(h: Set<Heuristic>, e: RdbEntryV, tag: TypeTag) -> bool {
    tag == tag_of(e) || (tag == TypeTag::Geo && emits_geo(h, e))
}

/// Whether there is an entry under a tag.
pub open spec fn seen(h: Set<Heuristic>, entries: Seq<RdbEntryV>, tag: TypeTag) -> bool {
    exists|i: int| 0 <= i < entries.len() && under(h, #[trigger] entries[i], tag)
}

/// One if a condition holds.
pub open spec fn one_if(b: bool) -> nat {
    if b {
        1
    } else {
        0
    }
}

/// The keys under a tag.
pub open spec fn key_count(h: Set<Heuristic>, entries: Seq<RdbEntryV>, tag: TypeTag) -> nat
    decreases entries.len(),
{
    if entries.len() == 0 {
        0
    } else {
        let e = entries.last();
        key_count(h, entries.drop_last(), tag) + one_if(e.first_chunk() && under(h, e, tag))
    }
}

/// The keys of a database under a tag.
pub open spec fn db_key_count(
    h: Set<Heuristic>,
    entries: Seq<RdbEntryV>,
    db: u32,
    tag: TypeTag,
) -> nat
    decreases entries.len(),
{
    if entries.len() == 0 {
        0
    } else {
        let e = entries.last();
        db_key_count(h, entries.drop_last(), db, tag) + one_if(
            e.first_chunk() && e.db == db && under(h, e, tag),
        )
    }
}

/// The keys of a database.
pub open spec fn db_keys(entries: Seq<RdbEntryV>, db: u32) -> nat
    decreases entries.len(),
{
    if entries.len() == 0 {
        0
    } else {
        let e = entries.last();
        db_keys(entries.drop_last(), db) + one_if(e.first_chunk() && e.db == db)
    }
}

/// All keys.
pub open spec fn all_keys(entries: Seq<RdbEntryV>) -> nat
    decreases entries.len(),
{
    if entries.len() == 0 {
        0
    } else {
        all_keys(entries.drop_last()) + one_if(entries.last().first_chunk())
    }
}

/// The rows under a tag.
pub open spec fn row_total(h: Set<Heuristic>, entries: Seq<RdbEntryV>, tag: TypeTag) -> nat
    decreases entries.len(),
{
    if entries.len() == 0 {
        0
    } else {
        let e = entries.last();
        row_total(h, entries.drop_last(), tag) + if under(h, e, tag) {
            row_count(e.value)
        } else {
            0
        }
    }
}

/// The counts that a summary shows for a tag. Counts stop at the largest 64-bit number.
pub open spec fn type_count(h: Set<Heuristic>, entries: Seq<RdbEntryV>, tag: TypeTag) -> Option<
    TypeCount,
> {
    if seen(h, entries, tag) {
        Some(
            TypeCount {
                keys: capped(key_count(h, entries, tag)) as u64,
                rows: capped(row_total(h, entries, tag)) as u64,
            },
        )
    } else {
        None
    }
}

/// A count that a summary shows if it is not zero.
pub open spec fn shown_count(n: nat) -> Option<u64> {
    if n > 0 {
        Some(capped(n) as u64)
    } else {
        None
    }
}

/// The value of a key of a map.
pub open spec fn value_at<V>(m: Map<u32, V>, db: u32) -> Option<V> {
    if m.contains_key(db) {
        Some(m[db])
    } else {
        None
    }
}

/// The counts of a summary.
#[derive(Debug, Clone)]
pub struct Tally {
    /// Total distinct keys across all types and databases.
    pub total_keys: u64,
    /// Aggregate counts of each type.
    pub totals: TagMap<TypeCount>,
    /// Key counts of each type in each database.
    pub per_db: BTreeMap<u32, TagMap<u64>>,
    /// Distinct keys in each database.
    pub per_db_keys: BTreeMap<u32, u64>,
}

impl Tally {
    /// Whether these are the counts of the entries. A type is listed if an entry is under
    /// it; in a database, it is listed if a key is.
    pub open spec fn counts(&self, h: Set<Heuristic>, entries: Seq<RdbEntryV>) -> bool {
        &&& self.total_keys as nat == capped(all_keys(entries))
        &&& forall|t: TypeTag| #[trigger] self.totals.at(t) == type_count(h, entries, t)
        &&& forall|db: u32| #[trigger] value_at(self.per_db_keys@, db) == shown_count(
            db_keys(entries, db),
        )
        &&& forall|db: u32| #[trigger]
            self.per_db@.contains_key(db) <==> db_keys(entries, db) > 0
        &&& forall|db: u32, t: TypeTag|
            self.per_db@.contains_key(db) ==> #[trigger] self.per_db@[db].at(t) == shown_count(
                db_key_count(h, entries, db, t),
            )
    }
}

/// Counts with one more entry.
pub open spec fn bumped(c: Option<TypeCount>, first: bool, rows: nat) -> TypeCount {
    let (keys, before) = match c {
        Some(c) => (c.keys, c.rows),
        None => (0u64, 0u64),
    };
    TypeCount {
        keys: if first {
            one_more(keys)
        } else {
            keys
        },
        rows: capped((before + rows) as nat) as u64,
    }
}

proof fn lemma_unseen(h: Set<Heuristic>, entries: Seq<RdbEntryV>, tag: TypeTag)
    requires
        !seen(h, entries, tag),
    ensures
        key_count(h, entries, tag) == 0,
        row_total(h, entries, tag) == 0,
    decreases entries.len(),
{
    if entries.len() > 0 {
        let front = entries.drop_last();
        assert(!seen(h, front, tag)) by {
            if seen(h, front, tag) {
                let i = choose|i: int| 0 <= i < front.len() && under(h, #[trigger] front[i], tag);
                assert(under(h, entries[i], tag));
            }
        }
        lemma_unseen(h, front, tag);
        assert(!under(h, entries[entries.len() - 1], tag));
    }
}

/// A type that is not listed has no keys and no rows.
pub proof fn lemma_unseen_counts(h: Set<Heuristic>, entries: Seq<RdbEntryV>, tag: TypeTag)
    ensures
        type_count(h, entries, tag) is None ==> key_count(h, entries, tag) == 0 && row_total(
            h,
            entries,
            tag,
        ) == 0,
{
    if !seen(h, entries, tag) {
        lemma_unseen(h, entries, tag);
    }
}

/// How one more entry changes the counts of a type.
proof fn lemma_type_count(h: Set<Heuristic>, entries: Seq<RdbEntryV>, e: RdbEntryV, tag: TypeTag)
    ensures
        type_count(h, entries.push(e), tag) == if under(h, e, tag) {
            Some(bumped(type_count(h, entries, tag), e.first_chunk(), row_count(e.value)))
        } else {
            type_count(h, entries, tag)
        },
{
    let all = entries.push(e);
    assert(all.drop_last() == entries);
    if under(h, e, tag) {
        assert(under(h, all[entries.len() as int], tag));
        assert(seen(h, all, tag));
    }
    if seen(h, entries, tag) {
        let i = choose|i: int| 0 <= i < entries.len() && under(h, #[trigger] entries[i], tag);
        assert(under(h, all[i], tag));
        assert(seen(h, all, tag));
    } else {
        lemma_unseen(h, entries, tag);
        if seen(h, all, tag) && !under(h, e, tag) {
            let i = choose|i: int| 0 <= i < all.len() && under(h, #[trigger] all[i], tag);
            assert(under(h, entries[i], tag));
        }
    }
}

proof fn lemma_db_key_count(h: Set<Heuristic>, entries: Seq<RdbEntryV>, db: u32, tag: TypeTag)
    ensures
        db_key_count(h, entries, db, tag) <= db_keys(entries, db),
    decreases entries.len(),
{
    if entries.len() > 0 {
        lemma_db_key_count(h, entries.drop_last(), db, tag);
    }
}

/// How one more entry changes the key counts.
proof fn lemma_key_counts(h: Set<Heuristic>, entries: Seq<RdbEntryV>, e: RdbEntryV)
    ensures
        all_keys(entries.push(e)) == all_keys(entries) + one_if(e.first_chunk()),
        forall|db: u32| #[trigger]
            db_keys(entries.push(e), db) == db_keys(entries, db) + one_if(
                e.first_chunk() && e.db == db,
            ),
        forall|db: u32, t: TypeTag| #[trigger]
            db_key_count(h, entries.push(e), db, t) == db_key_count(h, entries, db, t) + one_if(
                e.first_chunk() && e.db == db && under(h, e, t),
            ),
{
    assert(entries.push(e).drop_last() == entries);
}

impl Tally {
    /// No counts.
    fn new(h: Ghost<Set<Heuristic>>) -> (r: Self)
        ensures
            r.counts(h@, Seq::empty()),
    {
        broadcast use vstd::std_specs::btree::group_btree_axioms;

        Tally {
            total_keys: 0,
            totals: TagMap::new(),
            per_db: BTreeMap::new(),
            per_db_keys: BTreeMap::new(),
        }
    }

    /// Counts an entry under a tag.
    fn bump(&mut self, tag: TypeTag, first: bool, rows: u64)
        ensures
            final(self).total_keys == old(self).total_keys,
            final(self).per_db == old(self).per_db,
            final(self).per_db_keys == old(self).per_db_keys,
            final(self).totals.at(tag) == Some(bumped(old(self).totals.at(tag), first, rows as nat)),
            forall|t: TypeTag|
                t != tag ==> #[trigger] final(self).totals.at(t) == old(self).totals.at(t),
    {
        let mut count = match self.totals.get(tag) {
            Some(c) => c,
            None => TypeCount { keys: 0, rows: 0 },
        };
        if first {
            count.keys = count.keys.saturating_add(1);
        }
        count.rows = count.rows.saturating_add(rows);
        self.totals.insert(tag, count);
    }

    /// Counts a key.
    fn bump_keys(&mut self, db: u32)
        ensures
            final(self).total_keys == one_more(old(self).total_keys),
            final(self).per_db == old(self).per_db,
            final(self).totals == old(self).totals,
            final(self).per_db_keys@ == old(self).per_db_keys@.insert(
                db,
                match value_at(old(self).per_db_keys@, db) {
                    Some(n) => one_more(n),
                    None => 1,
                },
            ),
    {
        broadcast use vstd::std_specs::btree::group_btree_axioms;

        self.total_keys = self.total_keys.saturating_add(1);
        let n: u64 = match self.per_db_keys.get(&db) {
            Some(n) => n.saturating_add(1),
            None => 1,
        };
        self.per_db_keys.insert(db, n);
    }

    /// Counts a key of a database under a tag.
    fn bump_db(&mut self, db: u32, tag: TypeTag)
        ensures
            final(self).total_keys == old(self).total_keys,
            final(self).per_db_keys == old(self).per_db_keys,
            final(self).totals == old(self).totals,
            forall|d: u32| #[trigger]
                final(self).per_db@.contains_key(d) == (d == db || old(self).per_db@.contains_key(
                    d,
                )),
            forall|d: u32|
                d != db && old(self).per_db@.contains_key(d) ==> #[trigger] final(self).per_db@[d]
                    == old(self).per_db@[d],
            forall|t: TypeTag| #[trigger]
                final(self).per_db@[db].at(t) == ({
                    let before = match value_at(old(self).per_db@, db) {
                        Some(m) => m.at(t),
                        None => None,
                    };
                    if t == tag {
                        match before {
                            Some(n) => Some(one_more(n)),
                            None => Some(1u64),
                        }
                    } else {
                        before
                    }
                }),
    {
        broadcast use vstd::std_specs::btree::group_btree_axioms;

        let mut counts = match self.per_db.remove(&db) {
            Some(m) => m,
            None => TagMap::new(),
        };
        let n: u64 = match counts.get(tag) {
            Some(n) => n.saturating_add(1),
            None => 1,
        };
        counts.insert(tag, n);
        self.per_db.insert(db, counts);
    }

    /// Counts an entry.
    fn add_entry(&mut self, heuristics: &HeuristicSet, entry: &RdbEntry, entries: Ghost<Seq<RdbEntryV>>)
        requires
            old(self).counts(heuristics@, entries@),
        ensures
            final(self).counts(heuristics@, entries@.push(entry@)),
    {
        let ghost h = heuristics@;
        let ghost e = entry@;
        let ghost all = entries@.push(e);
        let tag = match type_tag_for(entry) {
            Some(t) => t,
            None => {
                return;
            },
        };
        let first = entry.is_first_chunk();
        let rows: u64 = expected_row_count(entry);
        let also_geo = should_emit_geo(heuristics, tag, entry);
        proof {
            law_geo_is_additive(h, e);
            lemma_key_counts(h, entries@, e);
            assert forall|t: TypeTag| #[trigger] type_count(h, all, t) == if under(h, e, t) {
                Some(bumped(type_count(h, entries@, t), e.first_chunk(), rows as nat))
            } else {
                type_count(h, entries@, t)
            } by {
                lemma_type_count(h, entries@, e, t);
            }
            assert forall|db: u32, t: TypeTag| #[trigger]
                db_key_count(h, entries@, db, t) <= db_keys(entries@, db) by {
                lemma_db_key_count(h, entries@, db, t);
            }
        }
        self.bump(tag, first, rows);
        if also_geo {
            self.bump(TypeTag::Geo, first, rows);
        }
        if first {
            self.bump_keys(entry.db);
            self.bump_db(entry.db, tag);
            if also_geo {
                self.bump_db(entry.db, TypeTag::Geo);
            }
        }
        assert forall|t: TypeTag| #[trigger] self.totals.at(t) == type_count(h, all, t) by {
            assert(old(self).totals.at(t) == type_count(h, entries@, t));
        }
        assert forall|db: u32| #[trigger] value_at(self.per_db_keys@, db) == shown_count(
            db_keys(all, db),
        ) by {
            assert(value_at(old(self).per_db_keys@, db) == shown_count(db_keys(entries@, db)));
        }
        assert forall|db: u32| #[trigger] self.per_db@.contains_key(db) <==> db_keys(all, db) > 0 by {
            assert(old(self).per_db@.contains_key(db) <==> db_keys(entries@, db) > 0);
        }
        assert forall|db: u32, t: TypeTag|
            self.per_db@.contains_key(db) implies #[trigger] self.per_db@[db].at(t) == shown_count(
            db_key_count(h, all, db, t),
        ) by {
            assert(old(self).per_db@.contains_key(db) <==> db_keys(entries@, db) > 0);
            if old(self).per_db@.contains_key(db) {
                assert(old(self).per_db@[db].at(t) == shown_count(
                    db_key_count(h, entries@, db, t),
                ));
            }
        }
    }
}

// ---- Summary ----

/// What a pass over a reader finds.
#[derive(Debug)]
pub struct EntrySummary {
    /// Header from the RDB file (magic and version).
    pub header: RdbHeader,
    /// AUX metadata accumulated during iteration.
    pub metadata: RdbMetadata,
    /// Whether the trailing CRC was checked.
    pub crc_verified: bool,
    /// Total distinct keys across all types and databases.
    pub total_keys: u64,
    /// Aggregate counts of each type. Geo is additive: with the Geo heuristic, a sorted set
    /// that looks like geo data is counted under both `SortedSet` and `Geo`.
    pub totals: TagMap<TypeCount>,
    /// Key counts of each type in each database, Geo again being additive.
    pub per_db: BTreeMap<u32, TagMap<u64>>,
    /// Distinct keys in each database, each counted once.
    pub per_db_keys: BTreeMap<u32, u64>,
}

impl EntrySummary {
    /// Whether the summary shows the counts of the entries.
    pub open spec fn counts(&self, h: Set<Heuristic>, entries: Seq<RdbEntryV>) -> bool {
        (Tally {
            total_keys: self.total_keys,
            totals: self.totals,
            per_db: self.per_db,
            per_db_keys: self.per_db_keys,
        }).counts(h, entries)
    }
}

/// The entries among the items of a source, unknown types left out, or the first error of
/// another kind.
pub open spec fn entries_in(items: Seq<EntryItem>) -> Result<Seq<RdbEntryV>, RdbErrorV>
    decreases items.len(),
{
    if items.len() == 0 {
        Ok(Seq::empty())
    } else {
        match entries_in(items.drop_last()) {
            Err(e) => Err(e),
            Ok(entries) => match items.last() {
                Ok(e) => Ok(entries.push(e)),
                Err(RdbErrorV::UnknownType(_)) => Ok(entries),
                Err(e) => Err(e),
            },
        }
    }
}

proof fn lemma_first_error(items: Seq<EntryItem>, n: int)
    requires
        0 <= n <= items.len(),
        entries_in(items.take(n)) is Err,
    ensures
        entries_in(items) == entries_in(items.take(n)),
    decreases items.len() - n,
{
    if n == items.len() {
        assert(items.take(n) == items);
    } else {
        assert(items.take(n + 1).drop_last() == items.take(n));
        lemma_first_error(items, n + 1);
    }
}

/// Walks the reader once and returns aggregate statistics.
///
/// Entries of unsupported types are passed over; any other error ends the walk and is
/// returned.
pub fn summarize_entries<R: ByteSource>(
    reader: &mut RdbReader<R>,
    heuristics: &HeuristicSet,
) -> (r: Result<EntrySummary, RdbError>)
    requires
        old(reader).valid(),
    ensures
        final(reader)@ == drained(old(reader)@),
        match (r, entries_in(upcoming_from(old(reader)@))) {
            (Ok(s), Ok(entries)) => {
                &&& s.header == old(reader)@.header
                &&& s.metadata.aux@ == final(reader)@.aux
                &&& s.crc_verified == final(reader)@.crc_checked
                &&& s.counts(heuristics@, entries)
            },
            (Err(e), Err(v)) => e@ == v,
            _ => false,
        },
{
    let header = *reader.header();
    let ghost items = upcoming_from(reader@);
    let mut tally = Tally::new(Ghost(heuristics@));
    let ghost mut n: int = 0;
    let ghost mut entries: Seq<RdbEntryV> = Seq::empty();
    assert(items.take(0) == Seq::<EntryItem>::empty());
    assert(items.skip(0) == items);
    loop
        invariant
            reader.valid(),
            items == upcoming_from(old(reader)@),
            0 <= n <= items.len(),
            items.skip(n) == upcoming_from(reader@),
            drained(reader@) == drained(old(reader)@),
            entries_in(items.take(n)) == Ok::<Seq<RdbEntryV>, RdbErrorV>(entries),
            tally.counts(heuristics@, entries),
        ensures
            reader@ == drained(old(reader)@),
            entries_in(items) == Ok::<Seq<RdbEntryV>, RdbErrorV>(entries),
        decreases items.len() - n,
    {
        proof {
            if n < items.len() {
                assert(items.take(n + 1).drop_last() == items.take(n));
                assert(items.take(n + 1).last() == items[n]);
                assert(items.skip(n)[0] == items[n]);
                assert(items.skip(n).drop_first() == items.skip(n + 1));
            }
            assert(items.skip(n).len() == items.len() - n);
        }
        let next = reader.advance();
        match next {
            None => {
                assert(items.take(n) == items);
                break ;
            },
            Some(Ok(entry)) => {
                tally.add_entry(heuristics, &entry, Ghost(entries));
                proof {
                    entries = entries.push(entry@);
                    n = n + 1;
                }
            },
            Some(Err(RdbError::UnknownType(_))) => {
                proof {
                    n = n + 1;
                }
            },
            Some(Err(e)) => {
                proof {
                    lemma_first_error(items, n + 1);
                }
                return Err(e);
            },
        }
    }
    let metadata = RdbMetadata { aux: reader.metadata().aux.copy() };
    Ok(
        EntrySummary {
            header,
            metadata,
            crc_verified: reader.crc_checked(),
            total_keys: tally.total_keys,
            totals: tally.totals,
            per_db: tally.per_db,
            per_db_keys: tally.per_db_keys,
        },
    )
}

// ---- Laws ----

/// The keys of several databases together.
pub open spec fn keys_in_dbs(entries: Seq<RdbEntryV>, dbs: Seq<u32>) -> nat
    decreases dbs.len(),
{
    if dbs.len() == 0 {
        0
    } else {
        keys_in_dbs(entries, dbs.drop_last()) + db_keys(entries, dbs.last())
    }
}

proof fn lemma_one_key_in_dbs(entries: Seq<RdbEntryV>, e: RdbEntryV, dbs: Seq<u32>)
    requires
        dbs.no_duplicates(),
    ensures
        keys_in_dbs(entries.push(e), dbs) == keys_in_dbs(entries, dbs) + one_if(
            e.first_chunk() && dbs.contains(e.db),
        ),
    decreases dbs.len(),
{
    if dbs.len() > 0 {
        let front = dbs.drop_last();
        lemma_one_key_in_dbs(entries, e, front);
        assert(entries.push(e).drop_last() == entries);
        if dbs.last() == e.db {
            assert(dbs[dbs.len() - 1] == e.db);
            assert(!front.contains(e.db));
        } else if dbs.contains(e.db) {
            let i = dbs.index_of(e.db);
            assert(front[i] == e.db);
        } else if front.contains(e.db) {
            let i = front.index_of(e.db);
            assert(dbs[i] == e.db);
        }
    }
}

/// The distinct keys of the databases add up to the distinct keys of the file.
pub proof fn law_database_keys_add_up(entries: Seq<RdbEntryV>, dbs: Seq<u32>)
    requires
        dbs.no_duplicates(),
        forall|i: int| 0 <= i < entries.len() ==> dbs.contains((#[trigger] entries[i]).db),
    ensures
        keys_in_dbs(entries, dbs) == all_keys(entries),
    decreases entries.len(),
{
    if entries.len() == 0 {
        lemma_no_keys(entries, dbs);
    } else {
        let front = entries.drop_last();
        assert forall|i: int| 0 <= i < front.len() implies dbs.contains(
            (#[trigger] front[i]).db,
        ) by {
            assert(front[i] == entries[i]);
        }
        law_database_keys_add_up(front, dbs);
        lemma_one_key_in_dbs(front, entries.last(), dbs);
        assert(front.push(entries.last()) == entries);
        assert(dbs.contains(entries[entries.len() - 1].db));
    }
}

proof fn lemma_no_keys(entries: Seq<RdbEntryV>, dbs: Seq<u32>)
    requires
        entries.len() == 0,
    ensures
        keys_in_dbs(entries, dbs) == 0,
    decreases dbs.len(),
{
    if dbs.len() > 0 {
        lemma_no_keys(entries, dbs.drop_last());
    }
}

/// Heuristics only add: the counts of every other type are the same with and without them,
/// and without the Geo heuristic nothing is counted as geo data.
pub proof fn law_heuristics_only_add(h: Set<Heuristic>, entries: Seq<RdbEntryV>, tag: TypeTag)
    requires
        tag != TypeTag::Geo || !h.contains(Heuristic::Geo),
    ensures
        type_count(h, entries, tag) == type_count(Set::empty(), entries, tag),
        tag == TypeTag::Geo ==> type_count(h, entries, tag) is None,
    decreases entries.len(),
{
    let none = Set::<Heuristic>::empty();
    if entries.len() == 0 {
        assert(!seen(h, entries, tag));
        assert(!seen(none, entries, tag));
    } else {
        let front = entries.drop_last();
        let e = entries.last();
        law_heuristics_only_add(h, front, tag);
        assert(front.push(e) == entries);
        lemma_type_count(h, front, e, tag);
        lemma_type_count(none, front, e, tag);
        law_geo_is_additive(h, e);
    }
}

/// The chunks of one key count as one key.
pub proof fn law_chunks_count_once(entries: Seq<RdbEntryV>)
    requires
        entries.len() > 0,
        entries[0].first_chunk(),
        forall|i: int| 1 <= i < entries.len() ==> !(#[trigger] entries[i]).first_chunk(),
    ensures
        all_keys(entries) == 1,
    decreases entries.len(),
{
    let front = entries.drop_last();
    if entries.len() == 1 {
        assert(all_keys(front) == 0);
    } else {
        assert forall|i: int| 1 <= i < front.len() implies !(#[trigger] front[i]).first_chunk() by {
            assert(front[i] == entries[i]);
        }
        law_chunks_count_once(front);
        assert(!entries[entries.len() - 1].first_chunk());
    }
}

proof fn lemma_taken_rows(b: BatcherV, entries: Seq<RdbEntryV>, tag: TypeTag)
    requires
        b.config.max_entry_bytes is None,
    ensures
        all_taken(b, entries, tag).len() == row_total(b.config.heuristics@, entries, tag),
    decreases entries.len(),
{
    if entries.len() > 0 {
        let e = entries.last();
        lemma_taken_rows(b, entries.drop_last(), tag);
        law_expected_rows(e);
        law_geo_is_additive(b.config.heuristics@, e);
    }
}

/// The summary of a file agrees with its export: unless entries are left out for their size,
/// the batches of a type have together as many rows as the summary counts for it.
pub proof fn law_summary_agrees_with_export(b: BatcherV, entries: Seq<RdbEntryV>, tag: TypeTag)
    requires
        b.config.max_entry_bytes is None,
        b.tables == Seq::new(9, |i: int| Seq::<RowV>::empty()),
        run(b, entries) is Some,
    ensures
        ({
            let (after, out) = run(b, entries)->0;
            rows_in(out + after.flush().1, tag).len() == row_total(
                b.config.heuristics@,
                entries,
                tag,
            )
        }),
{
    law_nothing_is_lost(b, entries, tag);
    lemma_taken_rows(b, entries, tag);
}

/// Whether two rows of entries have the same counts, those of geo data aside.
pub open spec fn count_alike(h: Set<Heuristic>, a: Seq<RdbEntryV>, b: Seq<RdbEntryV>) -> bool {
    &&& all_keys(a) == all_keys(b)
    &&& forall|db: u32| #[trigger] db_keys(a, db) == db_keys(b, db)
    &&& forall|t: TypeTag| t != TypeTag::Geo ==> #[trigger] seen(h, a, t) == seen(h, b, t)
    &&& forall|t: TypeTag|
        t != TypeTag::Geo ==> #[trigger] key_count(h, a, t) == key_count(h, b, t)
    &&& forall|t: TypeTag|
        t != TypeTag::Geo ==> #[trigger] row_total(h, a, t) == row_total(h, b, t)
    &&& forall|db: u32, t: TypeTag|
        t != TypeTag::Geo ==> #[trigger] db_key_count(h, a, db, t) == db_key_count(h, b, db, t)
}

proof fn lemma_seen(h: Set<Heuristic>, entries: Seq<RdbEntryV>, e: RdbEntryV, tag: TypeTag)
    ensures
        seen(h, entries.push(e), tag) == (seen(h, entries, tag) || under(h, e, tag)),
{
    let all = entries.push(e);
    if under(h, e, tag) {
        assert(under(h, all[entries.len() as int], tag));
    }
    if seen(h, entries, tag) {
        let i = choose|i: int| 0 <= i < entries.len() && under(h, #[trigger] entries[i], tag);
        assert(under(h, all[i], tag));
    }
    if seen(h, all, tag) && !under(h, e, tag) {
        let i = choose|i: int| 0 <= i < all.len() && under(h, #[trigger] all[i], tag);
        assert(under(h, entries[i], tag));
    }
}

/// An entry with the elements of a later chunk.
spec fn grown(f: RdbEntryV, e: RdbEntryV) -> RdbEntryV {
    RdbEntryV { value: values::joined(f.value, e.value), ..f }
}

/// An entry counts the same with and without the marks of a first chunk.
proof fn lemma_first_counts_alike(
    h: Set<Heuristic>,
    a: Seq<RdbEntryV>,
    b: Seq<RdbEntryV>,
    e: RdbEntryV,
    f: RdbEntryV,
)
    requires
        count_alike(h, a, b),
        e.first_chunk(),
        f == e || f == unmarked(e),
    ensures
        count_alike(h, a.push(e), b.push(f)),
{
    assert(a.push(e).drop_last() == a);
    assert(b.push(f).drop_last() == b);
    assert forall|t: TypeTag| t != TypeTag::Geo implies #[trigger] seen(h, a.push(e), t) == seen(
        h,
        b.push(f),
        t,
    ) by {
        lemma_seen(h, a, e, t);
        lemma_seen(h, b, f, t);
    }
    assert forall|db: u32| #[trigger] db_keys(a.push(e), db) == db_keys(b.push(f), db) by {
        assert(db_keys(a, db) == db_keys(b, db));
    }
    assert forall|t: TypeTag| t != TypeTag::Geo implies #[trigger] key_count(h, a.push(e), t)
        == key_count(h, b.push(f), t) by {
        assert(key_count(h, a, t) == key_count(h, b, t));
    }
    assert forall|t: TypeTag| t != TypeTag::Geo implies #[trigger] row_total(h, a.push(e), t)
        == row_total(h, b.push(f), t) by {
        assert(row_total(h, a, t) == row_total(h, b, t));
    }
    assert forall|db: u32, t: TypeTag| t != TypeTag::Geo implies #[trigger] db_key_count(
        h,
        a.push(e),
        db,
        t,
    ) == db_key_count(h, b.push(f), db, t) by {
        assert(db_key_count(h, a, db, t) == db_key_count(h, b, db, t));
    }
}

/// A later chunk counts what it adds to the entry that it is joined to.
proof fn lemma_later_counts_alike(
    h: Set<Heuristic>,
    a: Seq<RdbEntryV>,
    b: Seq<RdbEntryV>,
    f: RdbEntryV,
    e: RdbEntryV,
)
    requires
        count_alike(h, a, b.push(f)),
        goes_on(Ok(f), e),
    ensures
        count_alike(h, a.push(e), b.push(settled(grown(f, e)))),
{
    let g = settled(grown(f, e));
    assert(a.push(e).drop_last() == a);
    assert(b.push(f).drop_last() == b);
    assert(b.push(g).drop_last() == b);
    assert(tag_of(g) == tag_of(f) && tag_of(e) == tag_of(f));
    assert(row_count(g.value) == row_count(f.value) + row_count(e.value));
    assert forall|t: TypeTag| t != TypeTag::Geo implies #[trigger] seen(h, a.push(e), t) == seen(
        h,
        b.push(g),
        t,
    ) by {
        lemma_seen(h, a, e, t);
        lemma_seen(h, b, f, t);
        lemma_seen(h, b, g, t);
        assert(seen(h, a, t) == seen(h, b.push(f), t));
    }
    assert forall|t: TypeTag| t != TypeTag::Geo implies #[trigger] row_total(h, a.push(e), t)
        == row_total(h, b.push(g), t) by {
        assert(row_total(h, a, t) == row_total(h, b.push(f), t));
    }
    assert forall|db: u32| #[trigger] db_keys(a.push(e), db) == db_keys(b.push(g), db) by {
        assert(db_keys(a, db) == db_keys(b.push(f), db));
    }
    assert forall|t: TypeTag| t != TypeTag::Geo implies #[trigger] key_count(h, a.push(e), t)
        == key_count(h, b.push(g), t) by {
        assert(key_count(h, a, t) == key_count(h, b.push(f), t));
    }
    assert forall|db: u32, t: TypeTag| t != TypeTag::Geo implies #[trigger] db_key_count(
        h,
        a.push(e),
        db,
        t,
    ) == db_key_count(h, b.push(g), db, t) by {
        assert(db_key_count(h, a, db, t) == db_key_count(h, b.push(f), db, t));
    }
}

/// Whether an item stays as it is, whatever is joined after it: an error, or a chunk that is
/// not the first of its key.
spec fn stays(x: EntryItem) -> bool {
    match x {
        Ok(e) => !e.first_chunk(),
        Err(_) => true,
    }
}

proof fn lemma_stays(before: Seq<EntryItem>, items: Seq<EntryItem>, i: int)
    requires
        0 <= i < before.len(),
        stays(before[i]),
    ensures
        joined_onto(before, items).len() > i,
        joined_onto(before, items)[i] == before[i],
    decreases items.len(),
{
    if items.len() > 0 {
        let next = with_chunk(before, items[0]);
        assert(next.len() > i && next[i] == before[i]);
        lemma_stays(next, items.drop_first(), i);
    }
}

/// The entries among items that hold no failure can be told.
proof fn lemma_entries_in(items: Seq<EntryItem>)
    ensures
        no_failure(items) == (entries_in(items) is Ok),
    decreases items.len(),
{
    if items.len() > 0 {
        let front = items.drop_last();
        lemma_entries_in(front);
        if no_failure(items) {
            assert forall|i: int| 0 <= i < front.len() implies ((#[trigger] front[i]) matches Err(e)
                ==> e is UnknownType) by {
                assert(front[i] == items[i]);
            }
            assert(items[items.len() - 1] == items.last());
        } else if no_failure(front) {
            let i = choose|i: int|
                0 <= i < items.len() && !((#[trigger] items[i]) matches Err(e) ==> e is UnknownType);
            assert(i < front.len() ==> front[i] == items[i]);
        }
    }
}

proof fn lemma_rejoined_counts_alike(
    h: Set<Heuristic>,
    done: Seq<EntryItem>,
    before: Seq<EntryItem>,
    items: Seq<EntryItem>,
)
    requires
        entries_in(done) is Ok,
        entries_in(before) is Ok,
        count_alike(h, entries_in(done)->Ok_0, entries_in(before)->Ok_0),
        no_failure(joined_onto(before, items)),
        forall|i: int|
            0 <= i < joined_onto(before, items).len() ==> ((#[trigger] joined_onto(
                before,
                items,
            )[i]) matches Ok(e) ==> e == unmarked(e)),
    ensures
        entries_in(done + items) is Ok,
        entries_in(joined_onto(before, items)) is Ok,
        count_alike(
            h,
            entries_in(done + items)->Ok_0,
            entries_in(joined_onto(before, items))->Ok_0,
        ),
    decreases items.len(),
{
    if items.len() == 0 {
        assert(done + items == done);
    } else {
        let x = items[0];
        let next = with_chunk(before, x);
        let rest = items.drop_first();
        let a = entries_in(done)->Ok_0;
        let b = entries_in(before)->Ok_0;
        assert(done.push(x) + rest == done + items);
        assert(done.push(x).drop_last() == done);
        assert(before.push(x).drop_last() == before);
        match x {
            Err(_) => {
                lemma_stays(next, rest, before.len() as int);
            },
            Ok(e) => {
                if e.element_offset == Some(0u64) {
                    assert(before.push(Ok(settled(e))).drop_last() == before);
                    lemma_first_counts_alike(h, a, b, e, settled(e));
                } else if before.len() > 0 && goes_on(before.last(), e) {
                    let f = before.last()->Ok_0;
                    let g = settled(grown(f, e));
                    let front = before.drop_last();
                    assert(front.push(Ok(g)).drop_last() == front);
                    lemma_later_counts_alike(h, a, entries_in(front)->Ok_0, f, e);
                } else {
                    if e.element_offset is Some {
                        lemma_stays(next, rest, before.len() as int);
                    }
                    lemma_first_counts_alike(h, a, b, e, e);
                }
            },
        }
        lemma_rejoined_counts_alike(h, done.push(x), next, rest);
    }
}

proof fn lemma_chunked_counts_alike(r: ReaderV, m: nat, h: Set<Heuristic>)
    requires
        r.valid(),
        r.chunked is None,
        m > 0,
        entries_in(upcoming_from(limited(r, None))) is Ok,
    ensures
        rejoined(upcoming_from(limited(r, Some(m)))) == upcoming_from(limited(r, None)),
        entries_in(upcoming_from(limited(r, Some(m)))) is Ok,
        count_alike(
            h,
            entries_in(upcoming_from(limited(r, Some(m))))->Ok_0,
            entries_in(upcoming_from(limited(r, None)))->Ok_0,
        ),
{
    let u = limited(r, None);
    let items = upcoming_from(limited(r, Some(m)));
    lemma_entries_in(upcoming_from(u));
    law_chunks_rejoin(r, m);
    assert forall|i: int| 0 <= i < rejoined(items).len() implies ((#[trigger] rejoined(
        items,
    )[i]) matches Ok(e) ==> e == unmarked(e)) by {
        law_whole_without_chunking(u, i);
    }
    let none = Seq::<EntryItem>::empty();
    lemma_rejoined_counts_alike(h, none, none, items);
    assert(none + items == items);
}

/// Chunking does not change what a summary counts: a file that can be read without chunking
/// can be read in chunks, and both summaries show the same keys, in all and in each
/// database, and for every type but Geo the same keys and rows. (A chunk is never taken for
/// geo data.)
pub proof fn law_chunking_keeps_the_summary(
    r: ReaderV,
    m: nat,
    h: Set<Heuristic>,
    whole: EntrySummary,
    cut: EntrySummary,
)
    requires
        r.valid(),
        r.chunked is None,
        m > 0,
        entries_in(upcoming_from(limited(r, None))) matches Ok(entries) && whole.counts(h, entries),
        entries_in(upcoming_from(limited(r, Some(m)))) matches Ok(entries) ==> cut.counts(
            h,
            entries,
        ),
    ensures
        entries_in(upcoming_from(limited(r, Some(m)))) is Ok,
        cut.total_keys == whole.total_keys,
        forall|db: u32| #[trigger]
            value_at(cut.per_db_keys@, db) == value_at(whole.per_db_keys@, db),
        forall|t: TypeTag|
            t != TypeTag::Geo ==> #[trigger] cut.totals.at(t) == whole.totals.at(t),
        forall|db: u32| #[trigger]
            cut.per_db@.contains_key(db) == whole.per_db@.contains_key(db),
        forall|db: u32, t: TypeTag|
            t != TypeTag::Geo && cut.per_db@.contains_key(db) ==> #[trigger] cut.per_db@[db].at(t)
                == whole.per_db@[db].at(t),
{
    lemma_chunked_counts_alike(r, m, h);
    let a = entries_in(upcoming_from(limited(r, Some(m))))->Ok_0;
    let b = entries_in(upcoming_from(limited(r, None)))->Ok_0;
    assert(count_alike(h, a, b));
    assert forall|db: u32| #[trigger]
        value_at(cut.per_db_keys@, db) == value_at(whole.per_db_keys@, db) by {
        assert(db_keys(a, db) == db_keys(b, db));
    }
    assert forall|t: TypeTag| t != TypeTag::Geo implies #[trigger] cut.totals.at(t)
        == whole.totals.at(t) by {
        assert(seen(h, a, t) == seen(h, b, t));
        assert(key_count(h, a, t) == key_count(h, b, t));
        assert(row_total(h, a, t) == row_total(h, b, t));
        assert(whole.totals.at(t) == type_count(h, b, t));
    }
    assert forall|db: u32| #[trigger]
        cut.per_db@.contains_key(db) == whole.per_db@.contains_key(db) by {
        assert(db_keys(a, db) == db_keys(b, db));
    }
    assert forall|db: u32, t: TypeTag|
        t != TypeTag::Geo && cut.per_db@.contains_key(db) implies #[trigger] cut.per_db@[db].at(t)
        == whole.per_db@[db].at(t) by {
        assert(db_keys(a, db) == db_keys(b, db));
        assert(db_key_count(h, a, db, t) == db_key_count(h, b, db, t));
        assert(whole.per_db@.contains_key(db));
    }
}

/// A collection that has all elements that it states makes the same rows without the marks of
/// a chunk.
proof fn lemma_settled_rows(e: RdbEntryV, tag: TypeTag)
    requires
        e.element_offset == Some(0u64),
    ensures
        rows_of(tag, settled(e)) == rows_of(tag, e),
{
    let f = settled(e);
    if f != e {
        match e.value {
            RdbValueV::List(_) => {
                assert(rows_of(TypeTag::List, f) == rows_of(TypeTag::List, e));
            },
            RdbValueV::UnorderedSet(_) => {
                assert(rows_of(TypeTag::UnorderedSet, f) == rows_of(TypeTag::UnorderedSet, e));
            },
            RdbValueV::SortedSet(_) => {
                assert(rows_of(TypeTag::SortedSet, f) == rows_of(TypeTag::SortedSet, e));
                assert(rows_of(TypeTag::Geo, f) == rows_of(TypeTag::Geo, e));
            },
            RdbValueV::Hash(_) => {
                assert(rows_of(TypeTag::Hash, f) == rows_of(TypeTag::Hash, e));
            },
            _ => {},
        }
    }
}

/// The rows of a key that has grown by a chunk are its rows before, and those of the chunk.
proof fn lemma_grown_rows(f: RdbEntryV, e: RdbEntryV, tag: TypeTag)
    requires
        goes_on(Ok(f), e),
    ensures
        rows_of(tag, grown(f, e)) == rows_of(tag, f) + rows_of(tag, e),
{
    let g = grown(f, e);
    match (f.value, e.value) {
        (RdbValueV::List(_), RdbValueV::List(_)) => {
            assert(rows_of(TypeTag::List, g) == rows_of(TypeTag::List, f) + rows_of(
                TypeTag::List,
                e,
            ));
        },
        (RdbValueV::UnorderedSet(_), RdbValueV::UnorderedSet(_)) => {
            let t = TypeTag::UnorderedSet;
            assert(rows_of(t, g) == rows_of(t, f) + rows_of(t, e));
        },
        (RdbValueV::SortedSet(_), RdbValueV::SortedSet(_)) => {
            let t = TypeTag::SortedSet;
            assert(rows_of(t, g) == rows_of(t, f) + rows_of(t, e));
            let t = TypeTag::Geo;
            assert(rows_of(t, g) == rows_of(t, f) + rows_of(t, e));
        },
        (RdbValueV::Hash(_), RdbValueV::Hash(_)) => {
            let t = TypeTag::Hash;
            assert(rows_of(t, g) == rows_of(t, f) + rows_of(t, e));
        },
        _ => {},
    }
    let none = Seq::<RowV>::empty();
    assert(none + none == none);
}

proof fn lemma_rejoined_rows_alike(
    b: BatcherV,
    done: Seq<EntryItem>,
    before: Seq<EntryItem>,
    items: Seq<EntryItem>,
    tag: TypeTag,
)
    requires
        b.config.max_entry_bytes is None,
        tag != TypeTag::Geo,
        entries_in(done) is Ok,
        entries_in(before) is Ok,
        entries_in(done + items) is Ok,
        all_taken(b, entries_in(done)->Ok_0, tag) == all_taken(b, entries_in(before)->Ok_0, tag),
        entries_in(joined_onto(before, items)) is Ok,
    ensures
        all_taken(b, entries_in(done + items)->Ok_0, tag) == all_taken(
            b,
            entries_in(joined_onto(before, items))->Ok_0,
            tag,
        ),
    decreases items.len(),
{
    if items.len() == 0 {
        assert(done + items == done);
    } else {
        let x = items[0];
        let next = with_chunk(before, x);
        let rest = items.drop_first();
        let prior = entries_in(before)->Ok_0;
        assert(done.push(x) + rest == done + items);
        assert(done.push(x).drop_last() == done);
        assert(before.push(x).drop_last() == before);
        lemma_front_readable(done.push(x), rest);
        match x {
            Err(_) => {},
            Ok(e) => {
                let a = entries_in(done)->Ok_0;
                assert(a.push(e).drop_last() == a);
                if e.element_offset == Some(0u64) {
                    assert(before.push(Ok(settled(e))).drop_last() == before);
                    assert(prior.push(settled(e)).drop_last() == prior);
                    lemma_settled_rows(e, tag);
                } else if before.len() > 0 && goes_on(before.last(), e) {
                    let f = before.last()->Ok_0;
                    let g = grown(f, e);
                    let front = before.drop_last();
                    let c = entries_in(front)->Ok_0;
                    assert(front.push(Ok(settled(g))).drop_last() == front);
                    assert(c.push(f).drop_last() == c);
                    assert(c.push(settled(g)).drop_last() == c);
                    lemma_settled_rows(g, tag);
                    lemma_grown_rows(f, e, tag);
                    assert(taken(b, settled(g), tag) == taken(b, f, tag) + taken(b, e, tag));
                    let all = all_taken(b, c, tag);
                    assert(all + taken(b, f, tag) + taken(b, e, tag) == all + (taken(b, f, tag)
                        + taken(b, e, tag)));
                } else {
                    assert(prior.push(e).drop_last() == prior);
                }
            },
        }
        lemma_rejoined_rows_alike(b, done.push(x), next, rest, tag);
    }
}

proof fn lemma_front_readable(front: Seq<EntryItem>, rest: Seq<EntryItem>)
    requires
        entries_in(front + rest) is Ok,
    ensures
        entries_in(front) is Ok,
{
    lemma_entries_in(front + rest);
    lemma_entries_in(front);
    assert forall|i: int| 0 <= i < front.len() implies ((#[trigger] front[i]) matches Err(e)
        ==> e is UnknownType) by {
        assert((front + rest)[i] == front[i]);
    }
}

/// Chunking does not change what an export writes: unless entries are left out for their size,
/// the rows of every type but Geo are the same, in the same order, whatever the limit is. The
/// rows of a chunk number its elements from where they stand in the whole key, and state the
/// number of all of them.
pub proof fn law_chunking_keeps_the_rows(r: ReaderV, m: nat, b: BatcherV, tag: TypeTag)
    requires
        r.valid(),
        r.chunked is None,
        m > 0,
        b.config.max_entry_bytes is None,
        tag != TypeTag::Geo,
        entries_in(upcoming_from(limited(r, None))) is Ok,
    ensures
        ({
            let whole = entries_in(upcoming_from(limited(r, None)))->Ok_0;
            entries_in(upcoming_from(limited(r, Some(m)))) matches Ok(cut) && all_taken(b, cut, tag)
                == all_taken(b, whole, tag)
        }),
{
    let h = b.config.heuristics@;
    let items = upcoming_from(limited(r, Some(m)));
    lemma_chunked_counts_alike(r, m, h);
    let none = Seq::<EntryItem>::empty();
    assert(none + items == items);
    lemma_rejoined_rows_alike(b, none, none, items, tag);
}

} // verus!
