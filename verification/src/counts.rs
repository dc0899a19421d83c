//! What the numbers of a summary are the numbers of.

use crate::rows::{law_expected_rows, rows_of};
use crate::schema::{emits_geo, law_geo_is_additive, tag_of, Heuristic, TypeTag};
use crate::summarize::{
    all_keys, db_key_count, db_keys, key_count, row_total, type_count, value_at, EntrySummary,
};
use crate::types::{RdbEntryV, RdbValueV};
use vstd::prelude::*;

verus! {

/// Whether an entry is the first or only one of its key.
pub open spec fn starts_a_key(e: RdbEntryV) -> bool {
    match e.element_offset {
        None => true,
        Some(offset) => offset == 0,
    }
}

/// Whether an entry is of a type: its own, or Geo if it is shown there too.
pub open spec fn is_of_type(h: Set<Heuristic>, e: RdbEntryV, tag: TypeTag) -> bool {
    if tag == TypeTag::Geo {
        emits_geo(h, e)
    } else {
        tag == tag_of(e)
    }
}

/// The count of all keys is the number of entries that start one.
pub proof fn law_keys_are_counted(entries: Seq<RdbEntryV>)
    ensures
        all_keys(entries) == entries.filter(|e: RdbEntryV| starts_a_key(e)).len(),
    decreases entries.len(),
{
    reveal(Seq::filter);
    if entries.len() > 0 {
        law_keys_are_counted(entries.drop_last());
    }
}

/// The key count of a database is the number of its entries that start a key.
pub proof fn law_database_keys_are_counted(entries: Seq<RdbEntryV>, db: u32)
    ensures
        db_keys(entries, db) == entries.filter(|e: RdbEntryV| starts_a_key(e) && e.db == db).len(),
    decreases entries.len(),
{
    reveal(Seq::filter);
    if entries.len() > 0 {
        law_database_keys_are_counted(entries.drop_last(), db);
    }
}

/// The key count of a type is the number of its entries that start a key.
pub proof fn law_type_keys_are_counted(h: Set<Heuristic>, entries: Seq<RdbEntryV>, tag: TypeTag)
    ensures
        key_count(h, entries, tag) == entries.filter(
            |e: RdbEntryV| starts_a_key(e) && is_of_type(h, e, tag),
        ).len(),
    decreases entries.len(),
{
    reveal(Seq::filter);
    if entries.len() > 0 {
        law_type_keys_are_counted(h, entries.drop_last(), tag);
        law_geo_is_additive(h, entries.last());
    }
}

/// The key count of a type in a database is the number of its entries there that start a key.
pub proof fn law_database_type_keys_are_counted(
    h: Set<Heuristic>,
    entries: Seq<RdbEntryV>,
    db: u32,
    tag: TypeTag,
)
    ensures
        db_key_count(h, entries, db, tag) == entries.filter(
            |e: RdbEntryV| starts_a_key(e) && e.db == db && is_of_type(h, e, tag),
        ).len(),
    decreases entries.len(),
{
    reveal(Seq::filter);
    if entries.len() > 0 {
        law_database_type_keys_are_counted(h, entries.drop_last(), db, tag);
        law_geo_is_additive(h, entries.last());
    }
}

/// The row count of a type is the number of all rows that its entries make in its table.
pub proof fn law_type_rows_are_counted(h: Set<Heuristic>, entries: Seq<RdbEntryV>, tag: TypeTag)
    ensures
        row_total(h, entries, tag) == entries.filter(
            |e: RdbEntryV| is_of_type(h, e, tag),
        ).fold_left(0nat, |n: nat, e: RdbEntryV| n + rows_of(tag, e).len()),
    decreases entries.len(),
{
    reveal(Seq::filter);
    let p = |e: RdbEntryV| is_of_type(h, e, tag);
    let f = |n: nat, e: RdbEntryV| n + rows_of(tag, e).len();
    if entries.len() > 0 {
        let e = entries.last();
        let front = entries.drop_last().filter(p);
        law_type_rows_are_counted(h, entries.drop_last(), tag);
        law_geo_is_additive(h, e);
        law_expected_rows(e);
        if p(e) {
            assert(entries.filter(p) == front.push(e));
            assert(front.push(e).drop_last() == front);
        }
    }
}

/// Geo aside, every key is of one type: the key counts of the types add up to the count of all
/// keys, in all and in each database.
pub proof fn law_type_keys_add_up(h: Set<Heuristic>, entries: Seq<RdbEntryV>, db: u32)
    ensures
        key_count(h, entries, TypeTag::String) + key_count(h, entries, TypeTag::List) + key_count(
            h,
            entries,
            TypeTag::UnorderedSet,
        ) + key_count(h, entries, TypeTag::SortedSet) + key_count(h, entries, TypeTag::Hash)
            + key_count(h, entries, TypeTag::HyperLogLog) + key_count(h, entries, TypeTag::Module)
            + key_count(h, entries, TypeTag::Stream) == all_keys(entries),
        db_key_count(h, entries, db, TypeTag::String) + db_key_count(h, entries, db, TypeTag::List)
            + db_key_count(h, entries, db, TypeTag::UnorderedSet) + db_key_count(
            h,
            entries,
            db,
            TypeTag::SortedSet,
        ) + db_key_count(h, entries, db, TypeTag::Hash) + db_key_count(
            h,
            entries,
            db,
            TypeTag::HyperLogLog,
        ) + db_key_count(h, entries, db, TypeTag::Module) + db_key_count(
            h,
            entries,
            db,
            TypeTag::Stream,
        ) == db_keys(entries, db),
    decreases entries.len(),
{
    if entries.len() > 0 {
        law_type_keys_add_up(h, entries.drop_last(), db);
    }
}

/// The type of an entry goes by its value alone, and a string is a HyperLogLog exactly if it
/// starts with `HYLL` and an encoding of 0 or 1, and is as long as a header.
pub proof fn law_type_of_an_entry(e: RdbEntryV)
    ensures
        match e.value {
            RdbValueV::String(b) => tag_of(e) == if b.len() >= 16 && b[0] == 72 && b[1] == 89 && b[2]
                == 76 && b[3] == 76 && (b[4] == 0 || b[4] == 1) {
                TypeTag::HyperLogLog
            } else {
                TypeTag::String
            },
            RdbValueV::List(_) => tag_of(e) == TypeTag::List,
            RdbValueV::UnorderedSet(_) => tag_of(e) == TypeTag::UnorderedSet,
            RdbValueV::SortedSet(_) => tag_of(e) == TypeTag::SortedSet,
            RdbValueV::Hash(_) => tag_of(e) == TypeTag::Hash,
            RdbValueV::Module(_) => tag_of(e) == TypeTag::Module,
            RdbValueV::Stream(_) => tag_of(e) == TypeTag::Stream,
        },
        rows_of(tag_of(e), e).len() > 0,
{
    law_expected_rows(e);
    if let RdbValueV::String(b) = e.value {
        if b.len() >= 16 {
            let four = b.take(4);
            assert(four[0] == b[0] && four[1] == b[1] && four[2] == b[2] && four[3] == b[3]);
            if b[0] == 72 && b[1] == 89 && b[2] == 76 && b[3] == 76 {
                assert(four == seq![72u8, 89, 76, 76]);
            }
        }
    }
}

/// The numbers of a summary are these counts, as long as they fit.
pub proof fn law_summary_numbers(
    s: EntrySummary,
    h: Set<Heuristic>,
    entries: Seq<RdbEntryV>,
    db: u32,
    tag: TypeTag,
)
    requires
        s.counts(h, entries),
        entries.len() <= u64::MAX,
    ensures
        s.total_keys == entries.filter(|e: RdbEntryV| starts_a_key(e)).len(),
        ({
            let n = entries.filter(|e: RdbEntryV| starts_a_key(e) && e.db == db).len();
            value_at(s.per_db_keys@, db) == if n > 0 {
                Some(n as u64)
            } else {
                None
            }
        }),
        s.per_db@.contains_key(db) <==> entries.filter(
            |e: RdbEntryV| starts_a_key(e) && e.db == db,
        ).len() > 0,
        ({
            let n = entries.filter(
                |e: RdbEntryV| starts_a_key(e) && is_of_type(h, e, tag),
            ).len();
            let rows = entries.filter(|e: RdbEntryV| is_of_type(h, e, tag)).fold_left(
                0nat,
                |n: nat, e: RdbEntryV| n + rows_of(tag, e).len(),
            );
            match s.totals.at(tag) {
                Some(c) => c.keys == n && (rows <= u64::MAX ==> c.rows == rows),
                None => n == 0 && rows == 0,
            }
        }),
        ({
            let n = entries.filter(
                |e: RdbEntryV| starts_a_key(e) && e.db == db && is_of_type(h, e, tag),
            ).len();
            s.per_db@.contains_key(db) ==> s.per_db@[db].at(tag) == if n > 0 {
                Some(n as u64)
            } else {
                None
            }
        }),
{
    law_keys_are_counted(entries);
    law_database_keys_are_counted(entries, db);
    law_type_keys_are_counted(h, entries, tag);
    law_database_type_keys_are_counted(h, entries, db, tag);
    law_type_rows_are_counted(h, entries, tag);
    entries.lemma_filter_len(|e: RdbEntryV| starts_a_key(e));
    entries.lemma_filter_len(|e: RdbEntryV| starts_a_key(e) && e.db == db);
    entries.lemma_filter_len(|e: RdbEntryV| starts_a_key(e) && is_of_type(h, e, tag));
    entries.lemma_filter_len(
        |e: RdbEntryV| starts_a_key(e) && e.db == db && is_of_type(h, e, tag),
    );
    assert(s.totals.at(tag) == type_count(h, entries, tag));
    crate::summarize::lemma_unseen_counts(h, entries, tag);
}

} // verus!
