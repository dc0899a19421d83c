//! The batches that `export` writes: those of the entries that pass a filter, as far as their
//! types are asked for.

use crate::batcher::{
    all_taken, as_items, error_item, law_flush_hands_out_all, law_iteration_yields_all,
    law_nothing_is_lost, law_push_keeps_rows, lemma_item_groups, lemma_pending_aside, none_empty,
    remaining, rows_in, run, yet_to_come, ArrowBatcher, BatchFeed, BatchItem, BatcherConfig,
    BatcherV, FeedV, IterV, TableV, TypedBatch,
};
use crate::builders::is_table;
use crate::entries::{item_of, EntryItem, EntrySource};
use crate::error::{ArrowConvertError, ArrowConvertErrorV};
use crate::export::{tags_view, wants_output, ExportPlan};
use crate::filter::{
    cannot_be_matched, law_filter_decides, may_skip, may_yield, passes_on, EntryFilter,
    FilteredEntries,
};
use crate::rows::RowV;
use crate::schema::{TagSet, TypeTag};
use crate::summarize::entries_in;
use crate::types::{RdbEntry, RdbEntryV, RdbError, RdbErrorV};
use crate::utf8::lossy_text;
use crate::writer::{law_outputs_are_the_types, with_batches, PipelineV};
use vstd::prelude::*;

verus! {

/// Whether a filter may let `passed` through, in order, of the items of a source, and leave
/// `rest`.
pub open spec fn lets_through(
    filter: EntryFilter,
    items: Seq<EntryItem>,
    passed: Seq<EntryItem>,
    rest: Seq<EntryItem>,
) -> bool
    decreases passed.len(),
{
    if passed.len() == 0 {
        rest == items
    } else {
        exists|mid: Seq<EntryItem>|
            {
                &&& lets_through(filter, items, passed.drop_last(), mid)
                &&& #[trigger] passes_on(filter, mid, Some(passed.last()), rest)
            }
    }
}

/// Whether a filter may let `passed` through and then come to the end of the source.
pub open spec fn lets_through_all(
    filter: EntryFilter,
    items: Seq<EntryItem>,
    passed: Seq<EntryItem>,
    rest: Seq<EntryItem>,
) -> bool {
    exists|mid: Seq<EntryItem>|
        {
            &&& #[trigger] lets_through(filter, items, passed, mid)
            &&& passes_on(filter, mid, None, rest)
        }
}

/// A batcher that has taken no entry.
pub open spec fn no_rows_yet(config: BatcherConfig) -> BatcherV {
    BatcherV { config, tables: Seq::new(9, |i: int| Seq::<RowV>::empty()), skipped: 0 }
}

/// Whether tables of a type are handed out; all are if no type is named.
pub open spec fn is_wanted(tags: Option<Set<TypeTag>>, tag: TypeTag) -> bool {
    match tags {
        Some(tags) => tags.contains(tag),
        None => true,
    }
}

/// The next table that is wanted, from the items that a feed is still going to take: items
/// are taken one by one until such a table is pending or an error comes up, and other tables
/// are dropped. At the end of the items the remaining rows are flushed.
pub open spec fn next_wanted(feed: FeedV, items: Seq<EntryItem>, tags: Option<Set<TypeTag>>) -> (
    FeedV,
    Seq<EntryItem>,
    Option<Result<TableV, ArrowConvertErrorV>>,
)
    decreases
        items.len(),
        if feed.finished {
            0int
        } else {
            1
        },
        feed.pending.len(),
{
    if feed.pending.len() > 0 {
        let rest = FeedV { pending: feed.pending.drop_first(), ..feed };
        if is_wanted(tags, feed.pending[0].tag) {
            (rest, items, Some(Ok(feed.pending[0])))
        } else {
            next_wanted(rest, items, tags)
        }
    } else if feed.finished {
        (feed, items, None)
    } else if items.len() == 0 {
        next_wanted(feed.feed(None).0, items, tags)
    } else {
        let (after, error) = feed.feed(Some(items[0]));
        match error {
            Some(e) => (after, items.drop_first(), Some(Err(e))),
            None => next_wanted(after, items.drop_first(), tags),
        }
    }
}

/// The outcome of asking for a batch, by what it holds.
pub open spec fn shows(
    r: Option<Result<TypedBatch, ArrowConvertError>>,
    v: Option<Result<TableV, ArrowConvertErrorV>>,
) -> bool {
    match (r, v) {
        (None, None) => true,
        (Some(Ok(b)), Some(Ok(t))) => b.tag == t.tag && is_table(b.batch, t.tag, t.rows),
        (Some(Err(e)), Some(Err(x))) => e@ == x,
        _ => false,
    }
}

/// The batches of the entries that pass a filter, as far as their types are asked for.
pub struct ExportBatches<I: EntrySource> {
    entries: FilteredEntries<I>,
    feed: BatchFeed,
    output_tags: Option<TagSet>,
}

impl<I: EntrySource> ExportBatches<I> {
    /// Where the entries come from.
    pub closed spec fn source(&self) -> I {
        self.entries.inner()
    }

    /// What they are held against.
    pub closed spec fn filter(&self) -> EntryFilter {
        self.entries.filter()
    }

    /// What has become of them so far.
    pub closed spec fn fed(&self) -> FeedV {
        self.feed@
    }

    /// The types whose batches are handed out.
    pub closed spec fn tags(&self) -> Option<Set<TypeTag>> {
        tags_view(self.output_tags)
    }

    /// Whether source and feed are in order.
    pub closed spec fn valid(&self) -> bool {
        self.entries.inner().valid() && self.feed.valid()
    }

    /// Whether, if the filter lets `passed` through, `r` is handed out and `after` is left: all
    /// of `passed` is taken, and the source has come to its end if the feed has.
    pub open spec fn hands_out(
        self,
        passed: Seq<EntryItem>,
        after: Self,
        r: Option<Result<TypedBatch, ArrowConvertError>>,
    ) -> bool {
        let (fed, left, table) = next_wanted(self.fed(), passed, self.tags());
        let items = self.source().upcoming();
        let rest = after.source().upcoming();
        &&& if fed.finished && !self.fed().finished {
            lets_through_all(self.filter(), items, passed, rest)
        } else {
            lets_through(self.filter(), items, passed, rest)
        }
        &&& after.fed() == fed
        &&& left.len() == 0
        &&& shows(r, table)
    }

    /// The batches of what a source yields, as a plan says.
    pub fn new(source: I, plan: ExportPlan) -> (r: Self)
        requires
            source.valid(),
        ensures
            r.valid(),
            r.source() == source,
            r.filter() == plan.filter,
            r.tags() == tags_view(plan.output_tags),
            r.fed() == no_rows_yet(plan.config).as_feed(),
    {
        ExportBatches {
            entries: FilteredEntries::new(source, plan.filter),
            feed: ArrowBatcher::new(plan.config).into_feed(),
            output_tags: plan.output_tags,
        }
    }

    /// The next batch of a type that is asked for, or the next error, or `None` at the end.
    pub fn next(&mut self) -> (r: Option<Result<TypedBatch, ArrowConvertError>>)
        requires
            old(self).valid(),
        ensures
            final(self).valid(),
            final(self).filter() == old(self).filter(),
            final(self).tags() == old(self).tags(),
            exists|passed: Seq<EntryItem>| #[trigger]
                old(self).hands_out(passed, *final(self), r),
    {
        let ghost fed0 = self.feed@;
        let ghost items = self.entries.inner().upcoming();
        let ghost filter = self.entries.filter();
        let ghost tags = tags_view(self.output_tags);
        let ghost mut passed: Seq<EntryItem> = Seq::empty();
        proof {
            assert forall|later: Seq<EntryItem>| #[trigger]
                next_wanted(fed0, passed + later, tags) == next_wanted(fed0, later, tags) by {
                assert(passed + later == later);
            }
        }
        loop
            invariant
                self.entries.inner().valid(),
                self.feed.valid(),
                fed0 == old(self).feed@,
                items == old(self).entries.inner().upcoming(),
                filter == old(self).entries.filter(),
                tags == tags_view(old(self).output_tags),
                self.output_tags == old(self).output_tags,
                self.entries.filter() == filter,
                fed0.finished ==> self.feed@.finished,
                comes_from(
                    filter,
                    items,
                    passed,
                    self.entries.inner().upcoming(),
                    self.feed@.finished && !fed0.finished,
                ),
                if self.feed@.finished && !fed0.finished {
                    next_wanted(fed0, passed, tags) == next_wanted(self.feed@, Seq::empty(), tags)
                } else {
                    continues(fed0, passed, self.feed@, tags)
                },
            decreases
                self.entries.inner().upcoming().len(),
                if self.feed@.finished {
                    0int
                } else {
                    1int
                },
                self.feed@.pending.len(),
        {
            let ghost before = self.feed@;
            let ghost mid = self.entries.inner().upcoming();
            proof {
                if !(before.finished && !fed0.finished) {
                    lemma_continues(fed0, passed, before, tags);
                }
            }
            match self.feed.pop() {
                Some(batch) => {
                    if wants_output(&self.output_tags, batch.tag) {
                        assert(old(self).hands_out(passed, *self, Some(Ok(batch))));
                        return Some(Ok(batch));
                    }
                },
                None => {
                    if self.feed.is_finished() {
                        assert(old(self).hands_out(passed, *self, None));
                        return None;
                    }
                    let item = self.entries.next();
                    let ghost seen = held(item);
                    let error = self.feed.feed(item);
                    proof {
                        match seen {
                            None => {},
                            Some(x) => {
                                lemma_one_more(
                                    filter,
                                    items,
                                    passed,
                                    mid,
                                    x,
                                    self.entries.inner().upcoming(),
                                );
                                lemma_taken(fed0, passed, before, x, tags);
                                passed = passed.push(x);
                            },
                        }
                    }
                    match error {
                        Some(e) => {
                            assert(old(self).hands_out(passed, *self, Some(Err(e))));
                            return Some(Err(e));
                        },
                        None => {},
                    }
                },
            }
        }
    }
}

/// An item that may be missing, by what it holds.
spec fn held(item: Option<Result<RdbEntry, RdbError>>) -> Option<EntryItem> {
    match item {
        Some(x) => Some(item_of(x)),
        None => None,
    }
}

/// Whether `passed` is what came through the filter, up to the end of the source or so far.
spec fn comes_from(
    filter: EntryFilter,
    items: Seq<EntryItem>,
    passed: Seq<EntryItem>,
    rest: Seq<EntryItem>,
    ended: bool,
) -> bool {
    if ended {
        lets_through_all(filter, items, passed, rest)
    } else {
        lets_through(filter, items, passed, rest)
    }
}

/// Whether a feed that takes `passed` goes on as `now` does.
spec fn continues(
    fed0: FeedV,
    passed: Seq<EntryItem>,
    now: FeedV,
    tags: Option<Set<TypeTag>>,
) -> bool {
    forall|later: Seq<EntryItem>| #[trigger]
        next_wanted(fed0, passed + later, tags) == next_wanted(now, later, tags)
}

proof fn lemma_continues(
    fed0: FeedV,
    passed: Seq<EntryItem>,
    now: FeedV,
    tags: Option<Set<TypeTag>>,
)
    requires
        continues(fed0, passed, now, tags),
    ensures
        next_wanted(fed0, passed, tags) == next_wanted(now, Seq::empty(), tags),
{
    assert(passed + Seq::<EntryItem>::empty() == passed);
}

/// How one more item changes what a feed goes on with.
proof fn lemma_taken(
    fed0: FeedV,
    passed: Seq<EntryItem>,
    now: FeedV,
    x: EntryItem,
    tags: Option<Set<TypeTag>>,
)
    requires
        continues(fed0, passed, now, tags),
        now.pending.len() == 0,
        !now.finished,
    ensures
        match now.feed(Some(x)) {
            (after, None) => continues(fed0, passed.push(x), after, tags),
            (after, Some(e)) => next_wanted(fed0, passed.push(x), tags) == (
                after,
                Seq::<EntryItem>::empty(),
                Some(Err::<TableV, ArrowConvertErrorV>(e)),
            ),
        },
{
    let (after, error) = now.feed(Some(x));
    assert forall|later: Seq<EntryItem>| #[trigger]
        next_wanted(fed0, passed.push(x) + later, tags) == (match error {
            None => next_wanted(after, later, tags),
            Some(e) => (after, later, Some(Err::<TableV, ArrowConvertErrorV>(e))),
        }) by {
        let all = seq![x] + later;
        assert(passed.push(x) + later == passed + all);
        assert(all[0] == x && all.drop_first() == later);
        assert(next_wanted(fed0, passed + all, tags) == next_wanted(now, all, tags));
    }
    assert(passed.push(x) + Seq::<EntryItem>::empty() == passed.push(x));
}

proof fn lemma_one_more(
    filter: EntryFilter,
    items: Seq<EntryItem>,
    passed: Seq<EntryItem>,
    mid: Seq<EntryItem>,
    x: EntryItem,
    rest: Seq<EntryItem>,
)
    requires
        lets_through(filter, items, passed, mid),
        passes_on(filter, mid, Some(x), rest),
    ensures
        lets_through(filter, items, passed.push(x), rest),
        rest.len() < mid.len(),
{
    assert(passed.push(x).drop_last() == passed);
    assert(passes_on(filter, mid, Some(passed.push(x).last()), rest));
}

// ---- Laws ----

/// Where no type is named, the batches of an export are those of a plain iteration.
pub proof fn law_all_types_wanted(it: IterV)
    ensures
        ({
            let (feed, rest, r) = next_wanted(it.feed, it.upcoming, None);
            it.next() == (IterV { feed, upcoming: rest }, r)
        }),
    decreases
        it.upcoming.len(),
        if it.feed.finished {
            0int
        } else {
            1
        },
{
    if it.feed.pending.len() == 0 && !it.feed.finished {
        if it.upcoming.len() == 0 {
            law_all_types_wanted(IterV { feed: it.feed.feed(None).0, ..it });
        } else {
            let (feed, error) = it.feed.feed(Some(it.upcoming[0]));
            if error is None {
                law_all_types_wanted(IterV { feed, upcoming: it.upcoming.drop_first() });
            }
        }
    }
}

/// Whether a filter decides about an item: there is no key pattern, or the key has no
/// backslash.
pub open spec fn decided(filter: EntryFilter, item: EntryItem) -> bool {
    item matches Ok(e) ==> (filter.key_pattern is Some ==> !lossy_text(e.key).contains('\\'))
}

/// What a filter makes of an item that it decides about: the entry if it passes, or an error,
/// or nothing.
pub open spec fn let_pass(filter: EntryFilter, item: EntryItem) -> Seq<EntryItem> {
    match item {
        Err(_) => seq![item],
        Ok(e) => if !filter.can_match(e) {
            seq![Err(RdbErrorV::CorruptData(cannot_be_matched()))]
        } else if filter.may_select(e) {
            seq![item]
        } else {
            Seq::empty()
        },
    }
}

/// What a filter makes of items that it decides about, in order.
pub open spec fn all_let_pass(filter: EntryFilter, items: Seq<EntryItem>) -> Seq<EntryItem>
    decreases items.len(),
{
    if items.len() == 0 {
        Seq::empty()
    } else {
        all_let_pass(filter, items.drop_last()) + let_pass(filter, items.last())
    }
}

proof fn lemma_skipped(filter: EntryFilter, items: Seq<EntryItem>, from: int, to: int)
    requires
        0 <= from <= to <= items.len(),
        forall|k: int| 0 <= k < items.len() ==> decided(filter, #[trigger] items[k]),
        forall|k: int| from <= k < to ==> may_skip(filter, #[trigger] items[k]),
    ensures
        all_let_pass(filter, items.take(to)) == all_let_pass(filter, items.take(from)),
    decreases to - from,
{
    if from < to {
        lemma_skipped(filter, items, from, to - 1);
        assert(items.take(to).drop_last() == items.take(to - 1));
        assert(items.take(to).last() == items[to - 1]);
        assert(may_skip(filter, items[to - 1]) && decided(filter, items[to - 1]));
        law_filter_decides(filter, items[to - 1]->Ok_0);
        let before = all_let_pass(filter, items.take(to - 1));
        assert(before + Seq::<EntryItem>::empty() == before);
    }
}

proof fn lemma_let_through(
    filter: EntryFilter,
    items: Seq<EntryItem>,
    passed: Seq<EntryItem>,
    rest: Seq<EntryItem>,
) -> (n: int)
    requires
        forall|k: int| 0 <= k < items.len() ==> decided(filter, #[trigger] items[k]),
        lets_through(filter, items, passed, rest),
    ensures
        0 <= n <= items.len(),
        rest == items.skip(n),
        passed == all_let_pass(filter, items.take(n)),
    decreases passed.len(),
{
    if passed.len() == 0 {
        assert(items.skip(0) == items);
        assert(passed == all_let_pass(filter, items.take(0)));
        0
    } else {
        let x = passed.last();
        let mid = choose|mid: Seq<EntryItem>|
            {
                &&& lets_through(filter, items, passed.drop_last(), mid)
                &&& #[trigger] passes_on(filter, mid, Some(x), rest)
            };
        let from = lemma_let_through(filter, items, passed.drop_last(), mid);
        let k = choose|k: int|
            {
                &&& 0 <= k < mid.len()
                &&& forall|j: int| 0 <= j < k ==> may_skip(filter, #[trigger] mid[j])
                &&& may_yield(filter, #[trigger] mid[k], x)
                &&& rest == mid.skip(k + 1)
            };
        let n = from + k;
        assert(mid[k] == items[n]);
        assert forall|j: int| from <= j < n implies may_skip(filter, #[trigger] items[j]) by {
            assert(mid[j - from] == items[j]);
        }
        lemma_skipped(filter, items, from, n);
        assert(items.take(n + 1).drop_last() == items.take(n));
        assert(items.take(n + 1).last() == items[n]);
        assert(decided(filter, items[n]));
        assert(let_pass(filter, items[n]) == seq![x]);
        assert(passed == passed.drop_last() + seq![x]);
        assert(items.skip(n + 1) == mid.skip(k + 1));
        n + 1
    }
}

/// An export takes exactly the entries that its filter selects, in the order of the source,
/// and every error.
pub proof fn law_filter_lets_through(
    filter: EntryFilter,
    items: Seq<EntryItem>,
    passed: Seq<EntryItem>,
    rest: Seq<EntryItem>,
)
    requires
        forall|k: int| 0 <= k < items.len() ==> decided(filter, #[trigger] items[k]),
        lets_through_all(filter, items, passed, rest),
    ensures
        passed == all_let_pass(filter, items),
        rest.len() == 0,
{
    let mid = choose|mid: Seq<EntryItem>|
        {
            &&& #[trigger] lets_through(filter, items, passed, mid)
            &&& passes_on(filter, mid, None, rest)
        };
    let n = lemma_let_through(filter, items, passed, mid);
    let end = items.len() as int;
    assert forall|j: int| n <= j < end implies may_skip(filter, #[trigger] items[j]) by {
        assert(mid[j - n] == items[j]);
    }
    lemma_skipped(filter, items, n, end);
    assert(items.take(end) == items);
}

/// Only tables of types that are asked for are handed out.
pub proof fn law_only_wanted(feed: FeedV, items: Seq<EntryItem>, tags: Option<Set<TypeTag>>)
    ensures
        next_wanted(feed, items, tags).2 matches Some(Ok(t)) ==> is_wanted(tags, t.tag),
    decreases
        items.len(),
        if feed.finished {
            0int
        } else {
            1
        },
        feed.pending.len(),
{
    if feed.pending.len() > 0 {
        law_only_wanted(
            FeedV { pending: feed.pending.drop_first(), ..feed },
            items,
            tags,
        );
    } else if !feed.finished {
        if items.len() == 0 {
            law_only_wanted(feed.feed(None).0, items, tags);
        } else {
            law_only_wanted(feed.feed(Some(items[0])).0, items.drop_first(), tags);
        }
    }
}

// ---- Whole exports ----

/// Whether an export hands out an item of an iteration: a table of a wanted type, or an error.
pub open spec fn is_kept(tags: Option<Set<TypeTag>>, x: BatchItem) -> bool {
    match x {
        Ok(t) => is_wanted(tags, t.tag),
        Err(_) => true,
    }
}

/// The items of an iteration that an export hands out, in order.
pub open spec fn kept(tags: Option<Set<TypeTag>>, items: Seq<BatchItem>) -> Seq<BatchItem>
    decreases items.len(),
{
    if items.len() == 0 {
        Seq::empty()
    } else {
        let front = kept(tags, items.drop_last());
        if is_kept(tags, items.last()) {
            front.push(items.last())
        } else {
            front
        }
    }
}

/// The tables of wanted types, in order.
pub open spec fn wanted_tables(tags: Option<Set<TypeTag>>, tables: Seq<TableV>) -> Seq<TableV>
    decreases tables.len(),
{
    if tables.len() == 0 {
        Seq::empty()
    } else {
        let front = wanted_tables(tags, tables.drop_last());
        if is_wanted(tags, tables.last().tag) {
            front.push(tables.last())
        } else {
            front
        }
    }
}

/// All that an export hands out, from a feed and the items that it is still going to take.
pub open spec fn all_handed_out(
    feed: FeedV,
    items: Seq<EntryItem>,
    tags: Option<Set<TypeTag>>,
) -> Seq<BatchItem> {
    kept(tags, remaining(IterV { feed, upcoming: items }))
}

proof fn lemma_kept_concat(tags: Option<Set<TypeTag>>, a: Seq<BatchItem>, b: Seq<BatchItem>)
    ensures
        kept(tags, a + b) == kept(tags, a) + kept(tags, b),
    decreases b.len(),
{
    if b.len() == 0 {
        assert(a + b == a);
        assert(kept(tags, a) + kept(tags, b) == kept(tags, a));
    } else {
        assert((a + b).drop_last() == a + b.drop_last());
        assert((a + b).last() == b.last());
        lemma_kept_concat(tags, a, b.drop_last());
        assert(kept(tags, a + b) == kept(tags, a) + kept(tags, b));
    }
}

proof fn lemma_kept_first(tags: Option<Set<TypeTag>>, x: BatchItem, rest: Seq<BatchItem>)
    ensures
        kept(tags, seq![x] + rest) == if is_kept(tags, x) {
            seq![x] + kept(tags, rest)
        } else {
            kept(tags, rest)
        },
{
    lemma_kept_concat(tags, seq![x], rest);
    assert(seq![x].drop_last() == Seq::<BatchItem>::empty());
    assert(kept(tags, seq![x].drop_last()) == Seq::<BatchItem>::empty());
    if is_kept(tags, x) {
        assert(kept(tags, seq![x]) == seq![x]);
    } else {
        assert(kept(tags, seq![x]) + kept(tags, rest) == kept(tags, rest));
    }
}

proof fn lemma_kept_tables(tags: Option<Set<TypeTag>>, tables: Seq<TableV>)
    ensures
        kept(tags, as_items(tables)) == as_items(wanted_tables(tags, tables)),
    decreases tables.len(),
{
    let items = as_items(tables);
    if tables.len() == 0 {
        assert(as_items(wanted_tables(tags, tables)) == Seq::<BatchItem>::empty());
    } else {
        let front = tables.drop_last();
        lemma_kept_tables(tags, front);
        assert(items.drop_last() == as_items(front));
        let t = wanted_tables(tags, front);
        assert(as_items(t.push(tables.last())) == as_items(t).push(Ok(tables.last())));
    }
}

/// Asking for batches until there are none hands out everything, in order, and nothing else:
/// each call gives the first of what is still to be handed out.
pub proof fn law_export_hands_out_all(
    feed: FeedV,
    items: Seq<EntryItem>,
    tags: Option<Set<TypeTag>>,
)
    ensures
        ({
            let (after, rest, r) = next_wanted(feed, items, tags);
            match r {
                Some(x) => all_handed_out(feed, items, tags) == seq![x] + all_handed_out(
                    after,
                    rest,
                    tags,
                ),
                None => all_handed_out(feed, items, tags) == Seq::<BatchItem>::empty(),
            }
        }),
    decreases
        items.len(),
        if feed.finished {
            0int
        } else {
            1
        },
        feed.pending.len(),
{
    let s = IterV { feed, upcoming: items };
    if feed.pending.len() > 0 {
        law_iteration_yields_all(s);
        let rest = FeedV { pending: feed.pending.drop_first(), ..feed };
        let x: BatchItem = Ok(feed.pending[0]);
        lemma_kept_first(tags, x, remaining(IterV { feed: rest, upcoming: items }));
        if !is_wanted(tags, feed.pending[0].tag) {
            law_export_hands_out_all(rest, items, tags);
        }
    } else {
        assert(as_items(feed.pending) == Seq::<BatchItem>::empty());
        if !feed.finished {
            assert((FeedV { pending: Seq::empty(), ..feed }) == feed);
            assert(remaining(s) == yet_to_come(feed, items));
            if items.len() == 0 {
                law_export_hands_out_all(feed.feed(None).0, items, tags);
            } else {
                let (after, error) = feed.feed(Some(items[0]));
                let rest = items.drop_first();
                let later = as_items(after.pending) + yet_to_come(after, rest);
                assert(!after.finished);
                assert(remaining(IterV { feed: after, upcoming: rest }) == later);
                assert(error_item(error) + as_items(after.pending) + yet_to_come(after, rest)
                    == error_item(error) + later);
                match error {
                    Some(e) => {
                        lemma_kept_first(tags, Err(e), later);
                    },
                    None => {
                        assert(error_item(error) + later == later);
                        law_export_hands_out_all(after, rest, tags);
                    },
                }
            }
        }
    }
}

proof fn lemma_stays_finished(feed: FeedV, items: Seq<EntryItem>, tags: Option<Set<TypeTag>>)
    ensures
        feed.finished ==> next_wanted(feed, items, tags).0.finished,
    decreases
        items.len(),
        if feed.finished {
            0int
        } else {
            1
        },
        feed.pending.len(),
{
    if feed.pending.len() > 0 {
        lemma_stays_finished(
            FeedV { pending: feed.pending.drop_first(), ..feed },
            items,
            tags,
        );
    }
}

proof fn lemma_later_items_wait(
    feed: FeedV,
    passed: Seq<EntryItem>,
    later: Seq<EntryItem>,
    tags: Option<Set<TypeTag>>,
)
    requires
        next_wanted(feed, passed, tags).1.len() == 0,
        next_wanted(feed, passed, tags).0.finished == feed.finished,
        !feed.finished,
    ensures
        next_wanted(feed, passed + later, tags) == (
            next_wanted(feed, passed, tags).0,
            later,
            next_wanted(feed, passed, tags).2,
        ),
    decreases
        passed.len(),
        if feed.finished {
            0int
        } else {
            1
        },
        feed.pending.len(),
{
    let all = passed + later;
    if feed.pending.len() > 0 {
        if is_wanted(tags, feed.pending[0].tag) {
            assert(all == later);
        } else {
            let rest = FeedV { pending: feed.pending.drop_first(), ..feed };
            lemma_later_items_wait(rest, passed, later, tags);
        }
    } else if passed.len() == 0 {
        lemma_stays_finished(feed.feed(None).0, passed, tags);
    } else {
        let (after, error) = feed.feed(Some(passed[0]));
        assert(all[0] == passed[0]);
        assert(all.drop_first() == passed.drop_first() + later);
        match error {
            Some(_) => {
                assert(passed.drop_first() + later == later);
            },
            None => {
                lemma_later_items_wait(after, passed.drop_first(), later, tags);
            },
        }
    }
}

/// Calls follow on each other: what a call hands out, having taken `passed`, comes before what
/// the next ones hand out from `later`. Nothing comes later once the feed has come to its end.
pub proof fn law_export_calls_follow_on(
    feed: FeedV,
    passed: Seq<EntryItem>,
    later: Seq<EntryItem>,
    tags: Option<Set<TypeTag>>,
)
    requires
        next_wanted(feed, passed, tags).1.len() == 0,
        next_wanted(feed, passed, tags).0.finished ==> later.len() == 0,
    ensures
        ({
            let (after, _, r) = next_wanted(feed, passed, tags);
            match r {
                Some(x) => all_handed_out(feed, passed + later, tags) == seq![x] + all_handed_out(
                    after,
                    later,
                    tags,
                ),
                None => all_handed_out(feed, passed + later, tags) == Seq::<BatchItem>::empty(),
            }
        }),
{
    let (after, left, r) = next_wanted(feed, passed, tags);
    law_export_hands_out_all(feed, passed + later, tags);
    if after.finished {
        assert(passed + later == passed);
        assert(left == later);
    } else {
        lemma_stays_finished(feed, passed, tags);
        lemma_later_items_wait(feed, passed, later, tags);
    }
}

/// How many entries were passed over does not matter for what is yet to come.
proof fn lemma_skipped_aside(f: FeedV, skipped: u64, upcoming: Seq<EntryItem>)
    ensures
        yet_to_come(FeedV { skipped, ..f }, upcoming) == yet_to_come(f, upcoming),
    decreases upcoming.len(),
{
    let g = FeedV { skipped, ..f };
    let f0 = FeedV { pending: Seq::empty(), ..f };
    let g0 = FeedV { pending: Seq::empty(), ..g };
    if upcoming.len() > 0 {
        let (a, _) = f0.feed(Some(upcoming[0]));
        let (b, _) = g0.feed(Some(upcoming[0]));
        assert(b == (FeedV { skipped: b.skipped, ..a }));
        lemma_skipped_aside(a, b.skipped, upcoming.drop_first());
    }
}

proof fn lemma_items_first(f: FeedV, items: Seq<EntryItem>, upcoming: Seq<EntryItem>)
    requires
        entries_in(items) is Ok,
        run(f.batcher, entries_in(items)->Ok_0) is Some,
    ensures
        ({
            let (after, out) = run(f.batcher, entries_in(items)->Ok_0)->0;
            yet_to_come(f, items + upcoming) == as_items(out) + yet_to_come(
                FeedV { batcher: after, ..f },
                upcoming,
            )
        }),
    decreases items.len(),
{
    if items.len() == 0 {
        assert(items + upcoming == upcoming);
        assert(as_items(Seq::<TableV>::empty()) + yet_to_come(f, upcoming) == yet_to_come(
            f,
            upcoming,
        ));
    } else {
        let front = items.drop_last();
        let x = items.last();
        let entries = entries_in(front)->Ok_0;
        let last = seq![x] + upcoming;
        assert(items + upcoming == front + last);
        assert(last[0] == x);
        assert(last.drop_first() == upcoming);
        match x {
            Ok(e) => {
                assert(entries.push(e).drop_last() == entries);
                lemma_items_first(f, front, last);
                let (before, out) = run(f.batcher, entries)->0;
                let (after, more) = before.push(e);
                let fed = FeedV { batcher: before, pending: Seq::empty(), ..f };
                let (next, error) = fed.feed(Some(x));
                assert(error is None);
                assert(next.pending == more->0);
                let end = FeedV { batcher: after, ..f };
                assert(next == (FeedV { pending: next.pending, ..end }));
                lemma_pending_aside(end, next.pending, upcoming);
                let rest = yet_to_come(end, upcoming);
                assert(Seq::<BatchItem>::empty() + as_items(more->0) + rest == as_items(more->0)
                    + rest);
                lemma_item_groups(out, more->0, rest);
            },
            Err(_) => {
                lemma_items_first(f, front, last);
                let (before, out) = run(f.batcher, entries)->0;
                let end = FeedV { batcher: before, ..f };
                let fed = FeedV { pending: Seq::empty(), ..end };
                let (next, error) = fed.feed(Some(x));
                assert(next == (FeedV { skipped: next.skipped, ..fed }));
                lemma_skipped_aside(fed, next.skipped, upcoming);
                lemma_pending_aside(end, Seq::empty(), upcoming);
                let rest = yet_to_come(end, upcoming);
                let none = Seq::<BatchItem>::empty();
                assert(as_items(next.pending) == none);
                assert(none + none + rest == rest);
            },
        }
    }
}

proof fn lemma_wanted_rows(tags: Option<Set<TypeTag>>, tables: Seq<TableV>, tag: TypeTag)
    ensures
        rows_in(wanted_tables(tags, tables), tag) == if is_wanted(tags, tag) {
            rows_in(tables, tag)
        } else {
            Seq::empty()
        },
        none_empty(tables) ==> none_empty(wanted_tables(tags, tables)),
    decreases tables.len(),
{
    if tables.len() > 0 {
        let front = tables.drop_last();
        let t = tables.last();
        lemma_wanted_rows(tags, front, tag);
        let w = wanted_tables(tags, front);
        assert(w.push(t).drop_last() == w);
        if none_empty(tables) {
            assert forall|i: int| 0 <= i < front.len() implies (#[trigger] front[i]).rows.len() > 0 by {
                assert(front[i] == tables[i]);
            }
            assert(tables[tables.len() - 1].rows.len() > 0);
        }
    }
}

proof fn lemma_run_none_empty(b: BatcherV, entries: Seq<RdbEntryV>)
    requires
        b.tables.len() == 9,
        run(b, entries) is Some,
    ensures
        ({
            let (after, out) = run(b, entries)->0;
            after.tables.len() == 9 && none_empty(out)
        }),
    decreases entries.len(),
{
    if entries.len() > 0 {
        let front = entries.drop_last();
        lemma_run_none_empty(b, front);
        let (before, out) = run(b, front)->0;
        law_push_keeps_rows(before, entries.last(), TypeTag::String);
        lemma_none_empty_concat(out, before.push(entries.last()).1->0);
    }
}

proof fn lemma_none_empty_concat(a: Seq<TableV>, b: Seq<TableV>)
    requires
        none_empty(a),
        none_empty(b),
    ensures
        none_empty(a + b),
{
    assert forall|i: int| 0 <= i < (a + b).len() implies (#[trigger] (a + b)[i]).rows.len() > 0 by {
        if i < a.len() {
            assert((a + b)[i] == a[i]);
        } else {
            assert((a + b)[i] == b[i - a.len()]);
        }
    }
}

/// The tables that an export hands out, from the start to the end, if nothing fails.
pub open spec fn exported_tables(
    config: BatcherConfig,
    entries: Seq<RdbEntryV>,
    tags: Option<Set<TypeTag>>,
) -> Seq<TableV> {
    let (after, out) = run(no_rows_yet(config), entries)->0;
    wanted_tables(tags, out + after.flush().1)
}

/// An export writes the rows of the entries that were let through, and no others: for each
/// wanted type all of them, in order, and nothing for any other type. No table is empty, so a
/// type has one exactly if it has rows. Items without an entry are of unsupported types.
pub proof fn law_export_writes_the_rows(
    config: BatcherConfig,
    passed: Seq<EntryItem>,
    tags: Option<Set<TypeTag>>,
    tag: TypeTag,
)
    requires
        entries_in(passed) is Ok,
        run(no_rows_yet(config), entries_in(passed)->Ok_0) is Some,
    ensures
        ({
            let entries = entries_in(passed)->Ok_0;
            let tables = exported_tables(config, entries, tags);
            &&& all_handed_out(no_rows_yet(config).as_feed(), passed, tags) == as_items(tables)
            &&& none_empty(tables)
            &&& rows_in(tables, tag) == if is_wanted(tags, tag) {
                all_taken(no_rows_yet(config), entries, tag)
            } else {
                Seq::empty()
            }
        }),
{
    let b = no_rows_yet(config);
    let f = b.as_feed();
    let entries = entries_in(passed)->Ok_0;
    let (after, out) = run(b, entries)->0;
    let all = out + after.flush().1;
    lemma_items_first(f, passed, Seq::empty());
    assert(passed + Seq::<EntryItem>::empty() == passed);
    let end = FeedV { batcher: after, ..f };
    assert((FeedV { pending: Seq::empty(), ..end }) == end);
    assert(end.feed(None).0.pending == after.flush().1);
    assert(as_items(out) + as_items(after.flush().1) == as_items(all));
    assert(as_items(f.pending) == Seq::<BatchItem>::empty());
    assert(as_items(f.pending) + yet_to_come(f, passed) == yet_to_come(f, passed));
    lemma_kept_tables(tags, all);
    law_nothing_is_lost(b, entries, tag);
    lemma_run_none_empty(b, entries);
    law_flush_hands_out_all(after, tag);
    lemma_none_empty_concat(out, after.flush().1);
    lemma_wanted_rows(tags, all, tag);
}

/// What a filter lets through in two goes is what it lets through in one.
pub proof fn law_filtering_goes_on(
    filter: EntryFilter,
    items: Seq<EntryItem>,
    first: Seq<EntryItem>,
    mid: Seq<EntryItem>,
    second: Seq<EntryItem>,
    rest: Seq<EntryItem>,
)
    requires
        lets_through(filter, items, first, mid),
        lets_through(filter, mid, second, rest),
    ensures
        lets_through(filter, items, first + second, rest),
    decreases second.len(),
{
    if second.len() == 0 {
        assert(first + second == first);
    } else {
        let x = second.last();
        let before = choose|before: Seq<EntryItem>|
            {
                &&& lets_through(filter, mid, second.drop_last(), before)
                &&& #[trigger] passes_on(filter, before, Some(x), rest)
            };
        law_filtering_goes_on(filter, items, first, mid, second.drop_last(), before);
        lemma_one_more(filter, items, first + second.drop_last(), before, x, rest);
        assert((first + second.drop_last()).push(x) == first + second);
    }
}

/// An export of a source, from its start to its end, writes the rows of the entries that the
/// filter selects, and no others: for each wanted type all of them, in order.
pub proof fn law_export_writes_what_is_selected(
    filter: EntryFilter,
    items: Seq<EntryItem>,
    passed: Seq<EntryItem>,
    rest: Seq<EntryItem>,
    config: BatcherConfig,
    tags: Option<Set<TypeTag>>,
    tag: TypeTag,
)
    requires
        forall|k: int| 0 <= k < items.len() ==> decided(filter, #[trigger] items[k]),
        lets_through_all(filter, items, passed, rest),
        entries_in(all_let_pass(filter, items)) is Ok,
        run(no_rows_yet(config), entries_in(all_let_pass(filter, items))->Ok_0) is Some,
    ensures
        ({
            let selected = entries_in(all_let_pass(filter, items))->Ok_0;
            let tables = exported_tables(config, selected, tags);
            &&& all_handed_out(no_rows_yet(config).as_feed(), passed, tags) == as_items(tables)
            &&& none_empty(tables)
            &&& rows_in(tables, tag) == if is_wanted(tags, tag) {
                all_taken(no_rows_yet(config), selected, tag)
            } else {
                Seq::empty()
            }
        }),
{
    law_filter_lets_through(filter, items, passed, rest);
    law_export_writes_the_rows(config, passed, tags, tag);
}

/// The types of tables, in order.
pub open spec fn table_tags(tables: Seq<TableV>) -> Seq<TypeTag> {
    tables.map_values(|t: TableV| t.tag)
}

proof fn lemma_tags_with_rows(tables: Seq<TableV>, tag: TypeTag)
    requires
        none_empty(tables),
    ensures
        table_tags(tables).contains(tag) <==> rows_in(tables, tag).len() > 0,
    decreases tables.len(),
{
    let all = table_tags(tables);
    if tables.len() > 0 {
        let front = tables.drop_last();
        let some = table_tags(front);
        assert forall|i: int| 0 <= i < front.len() implies (#[trigger] front[i]).rows.len() > 0 by {
            assert(front[i] == tables[i]);
        }
        lemma_tags_with_rows(front, tag);
        assert(tables[tables.len() - 1].rows.len() > 0);
        assert(all[tables.len() - 1] == tables.last().tag);
        if some.contains(tag) {
            let i = some.index_of(tag);
            assert(all[i] == tag);
        }
        if all.contains(tag) && tables.last().tag != tag {
            let i = all.index_of(tag);
            assert(some[i] == tag);
        }
    }
}

/// An export in which nothing fails creates one output for each wanted type that has rows
/// among the entries that were let through, and no other.
pub proof fn law_export_outputs(
    config: BatcherConfig,
    passed: Seq<EntryItem>,
    tags: Option<Set<TypeTag>>,
    tag: TypeTag,
)
    requires
        entries_in(passed) is Ok,
        run(no_rows_yet(config), entries_in(passed)->Ok_0) is Some,
    ensures
        ({
            let entries = entries_in(passed)->Ok_0;
            let start = PipelineV { open: Set::empty(), error: None, close_error: None };
            let after = with_batches(start, table_tags(exported_tables(config, entries, tags)));
            after.open.contains(tag) <==> is_wanted(tags, tag) && all_taken(
                no_rows_yet(config),
                entries,
                tag,
            ).len() > 0
        }),
{
    let entries = entries_in(passed)->Ok_0;
    let tables = exported_tables(config, entries, tags);
    let start = PipelineV { open: Set::empty(), error: None, close_error: None };
    law_export_writes_the_rows(config, passed, tags, tag);
    lemma_tags_with_rows(tables, tag);
    law_outputs_are_the_types(start, table_tags(tables), tag);
}

} // verus!
