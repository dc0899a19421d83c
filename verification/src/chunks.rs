//! Joining the chunks of large keys, and what reading in chunks keeps.

use crate::entries::EntryItem;
use crate::locality::law_failures_are_known;
use crate::opcodes;
use crate::opcodes::{
    RDB_TYPE_HASH, RDB_TYPE_HASH_2, RDB_TYPE_LIST, RDB_TYPE_SET, RDB_TYPE_ZSET, RDB_TYPE_ZSET_2,
};
use crate::reader::{
    chunk_step, directive, drained, element_count, is_directive, key_step, law_element_count,
    law_step, law_steps_in_order, lemma_directive_moves_on, scan, step, upcoming_from, ChunkV,
    ReaderV, StepV,
};
use crate::sections::expects_opcode;
use crate::types::{RdbEntryV, RdbErrorV, RdbValueV};
use crate::values;
use crate::wire;
use crate::wire::SourceV;
use vstd::prelude::*;

verus! {

/// An entry without the marks of a chunk.
pub open spec fn unmarked(e: RdbEntryV) -> RdbEntryV {
    RdbEntryV { total_elements: None, element_offset: None, ..e }
}

/// Whether a value is a collection of the kind that a plain type holds.
pub open spec fn plain_kind(t: u8, v: RdbValueV) -> bool {
    match v {
        RdbValueV::List(_) => t == RDB_TYPE_LIST,
        RdbValueV::UnorderedSet(_) => t == RDB_TYPE_SET,
        RdbValueV::SortedSet(_) => t == RDB_TYPE_ZSET || t == RDB_TYPE_ZSET_2,
        RdbValueV::Hash(_) => t == RDB_TYPE_HASH || t == RDB_TYPE_HASH_2,
        _ => false,
    }
}

/// An entry, without the marks of a chunk if it is a collection that has all elements that it
/// states.
pub open spec fn settled(e: RdbEntryV) -> RdbEntryV {
    if plain_kind(e.type_code, e.value) && (e.total_elements matches Some(total) && total
        == element_count(e.value)) {
        unmarked(e)
    } else {
        e
    }
}

/// Whether an entry is a later chunk of the key that an item holds so far: it has all in
/// common with it but the elements, and its offset is the number of elements before it.
pub open spec fn goes_on(before: EntryItem, e: RdbEntryV) -> bool {
    match (before, e.element_offset, e.total_elements) {
        (Ok(f), Some(offset), Some(total)) => {
            &&& f == (RdbEntryV { value: f.value, element_offset: Some(0), ..e })
            &&& plain_kind(e.type_code, f.value)
            &&& plain_kind(e.type_code, e.value)
            &&& 0 < offset == element_count(f.value)
            &&& 0 < element_count(e.value)
            &&& offset + element_count(e.value) <= total
        },
        _ => false,
    }
}

/// Items with one more, which starts a key or is a later chunk of the last one. A key that has
/// all its elements loses the marks of a chunk; whatever is no chunk stays as it is.
pub open spec fn with_chunk(items: Seq<EntryItem>, x: EntryItem) -> Seq<EntryItem> {
    match x {
        Err(_) => items.push(x),
        Ok(e) => if e.element_offset == Some(0u64) {
            items.push(Ok(settled(e)))
        } else if items.len() > 0 && goes_on(items.last(), e) {
            let f = items.last()->Ok_0;
            items.drop_last().push(
                Ok(settled(RdbEntryV { value: values::joined(f.value, e.value), ..f })),
            )
        } else {
            items.push(x)
        },
    }
}

/// Items followed by others, each run of chunks of one key joined in order.
pub open spec fn joined_onto(before: Seq<EntryItem>, items: Seq<EntryItem>) -> Seq<EntryItem>
    decreases items.len(),
{
    if items.len() == 0 {
        before
    } else {
        joined_onto(with_chunk(before, items[0]), items.drop_first())
    }
}

/// Items, each run of chunks of one key joined in order.
pub open spec fn rejoined(items: Seq<EntryItem>) -> Seq<EntryItem> {
    joined_onto(Seq::empty(), items)
}

/// Whether items hold no error but that for an unsupported type.
pub open spec fn no_failure(items: Seq<EntryItem>) -> bool {
    forall|i: int|
        0 <= i < items.len() ==> ((#[trigger] items[i]) matches Err(e) ==> e is UnknownType)
}

proof fn lemma_plain_kind(s: SourceV, t: u8, p: int, n: nat)
    ensures
        values::elements(s, t, p, n) matches Ok((v, _)) ==> plain_kind(t, v),
{
    reveal(values::elements);
}

proof fn lemma_joined_again(t: u8, a: RdbValueV, b: RdbValueV, c: RdbValueV)
    requires
        plain_kind(t, a),
        plain_kind(t, b),
        plain_kind(t, c),
    ensures
        values::joined(values::joined(a, b), c) == values::joined(a, values::joined(b, c)),
        plain_kind(t, values::joined(a, b)),
        element_count(values::joined(a, b)) == element_count(a) + element_count(b),
{
    match (a, b, c) {
        (RdbValueV::List(x), RdbValueV::List(y), RdbValueV::List(z)) => {
            assert(x + y + z == x + (y + z));
        },
        (RdbValueV::UnorderedSet(x), RdbValueV::UnorderedSet(y), RdbValueV::UnorderedSet(z)) => {
            assert(x + y + z == x + (y + z));
        },
        (RdbValueV::SortedSet(x), RdbValueV::SortedSet(y), RdbValueV::SortedSet(z)) => {
            assert(x + y + z == x + (y + z));
        },
        (RdbValueV::Hash(x), RdbValueV::Hash(y), RdbValueV::Hash(z)) => {
            assert(x + y + z == x + (y + z));
        },
        _ => {},
    }
}

/// The state with the given limit.
pub open spec fn limited(r: ReaderV, max: Option<nat>) -> ReaderV {
    ReaderV { max, ..r }
}

/// A directive does the same whatever the limit is.
proof fn lemma_directive_limited(r: ReaderV, b: u8, max: Option<nat>)
    ensures
        directive(limited(r, max), b) == (match directive(r, b) {
            Ok(r2) => Ok::<ReaderV, RdbErrorV>(limited(r2, max)),
            Err(e) => Err(e),
        }),
{
    reveal(directive);
}

/// Whether `part` is the first chunk of the entry that `whole` gives, and leaves the rest of
/// it to be read.
pub open spec fn first_of(whole: (StepV, ReaderV), part: (StepV, ReaderV), m: nat) -> bool {
    match (whole.0, part.0, part.1.chunked) {
        (StepV::Entry(e), StepV::Entry(f), Some(c)) => {
            &&& c == (ChunkV {
                db: e.db,
                key: e.key,
                type_code: e.type_code,
                expiry_ms: e.expiry_ms,
                lru_idle_secs: e.lru_idle_secs,
                lfu_frequency: e.lfu_frequency,
                total: c.total,
                remaining: c.remaining,
                offset: m as u64,
            })
            &&& part.1 == (ReaderV {
                pos: part.1.pos,
                chunked: Some(c),
                max: Some(m),
                ..whole.1
            })
            &&& f == (RdbEntryV {
                value: f.value,
                total_elements: Some(c.total),
                element_offset: Some(0),
                ..e
            })
            &&& plain_kind(e.type_code, f.value)
            &&& element_count(f.value) == m <= u64::MAX
            &&& rest_of(part.1, c, f.value, e.value, whole.1.pos)
        },
        _ => false,
    }
}

/// Whether what is left of a key joins with `v` to `all`, and ends at `q`.
pub open spec fn rest_of(r: ReaderV, c: ChunkV, v: RdbValueV, all: RdbValueV, q: int) -> bool {
    values::elements(r.source, c.type_code, r.pos, c.remaining) matches Ok((w, end)) && end == q
        && all == values::joined(v, w)
}

/// Whether a step with a limit gives what the step without one gives, or its first chunk.
pub open spec fn matched(whole: (StepV, ReaderV), part: (StepV, ReaderV), m: nat) -> bool {
    &&& whole.0 matches StepV::Entry(e) ==> e == unmarked(e)
    &&& part == (whole.0, limited(whole.1, Some(m))) || first_of(whole, part, m)
}

proof fn lemma_key_step_matched(r: ReaderV, t: u8, m: nat)
    requires
        r.max is None,
        m > 0,
        !(key_step(r, t).0 is Fail),
    ensures
        matched(key_step(r, t), key_step(limited(r, Some(m)), t), m),
{
    reveal(key_step);
    let s = r.source;
    if let Ok((_, q)) = wire::string(s, r.pos) {
        if values::plain_type(t) {
            if let Ok((n, q2)) = wire::size(s, q, "element count"@) {
                if n > m {
                    values::law_chunks_join(s, t, q2, m, (n - m) as nat);
                    law_element_count(s, t, q2, m);
                    lemma_plain_kind(s, t, q2, m);
                }
            }
        }
    }
}

proof fn lemma_scan_matched(r: ReaderV, m: nat)
    requires
        r.max is None,
        m > 0,
        !(scan(r).0 is Fail),
    ensures
        matched(scan(r), scan(limited(r, Some(m))), m),
    decreases r.source.bytes.len() - r.pos,
{
    let l = limited(r, Some(m));
    if let Ok((b, q)) = wire::byte(r.source, r.pos) {
        assert(l.at(q) == limited(r.at(q), Some(m)));
        if is_directive(b) {
            lemma_directive_moves_on(r.at(q), b);
            lemma_directive_limited(r.at(q), b, Some(m));
            if let Ok(r2) = directive(r.at(q), b) {
                lemma_scan_matched(r2, m);
            }
        } else if opcodes::object_type(b) {
            lemma_key_step_matched(r.at(q), b, m);
        }
    }
}

proof fn lemma_no_failure_after(x: EntryItem, rest: Seq<EntryItem>)
    requires
        no_failure(seq![x] + rest),
    ensures
        no_failure(rest),
        x matches Err(e) ==> e is UnknownType,
{
    let all = seq![x] + rest;
    assert(all[0] == x);
    assert forall|i: int| 0 <= i < rest.len() implies ((#[trigger] rest[i]) matches Err(e)
        ==> e is UnknownType) by {
        assert(all[i + 1] == rest[i]);
    }
}

proof fn lemma_joined_onto(before: Seq<EntryItem>, x: EntryItem, rest: Seq<EntryItem>)
    ensures
        joined_onto(before, seq![x] + rest) == joined_onto(with_chunk(before, x), rest),
{
    assert((seq![x] + rest).drop_first() == rest);
}

proof fn lemma_scan_unchunked(r: ReaderV)
    requires
        r.max is None,
        r.chunked is None,
    ensures
        scan(r).1.chunked is None,
    decreases r.source.bytes.len() - r.pos,
{
    reveal(key_step);
    if let Ok((b, q)) = wire::byte(r.source, r.pos) {
        if is_directive(b) {
            lemma_directive_moves_on(r.at(q), b);
            if let Ok(r2) = directive(r.at(q), b) {
                lemma_scan_unchunked(r2);
            }
        }
    }
}

/// Whether `part` reads the rest of `e`, of which it has `v`, and then stands where `whole`
/// does.
spec fn within(part: ReaderV, whole: ReaderV, e: RdbEntryV, v: RdbValueV, m: nat) -> bool {
    match part.chunked {
        None => false,
        Some(c) => {
            &&& c == (ChunkV {
                db: e.db,
                key: e.key,
                type_code: e.type_code,
                expiry_ms: e.expiry_ms,
                lru_idle_secs: e.lru_idle_secs,
                lfu_frequency: e.lfu_frequency,
                total: c.total,
                remaining: c.remaining,
                offset: c.offset,
            })
            &&& part == (ReaderV { pos: part.pos, chunked: Some(c), max: Some(m), ..whole })
            &&& plain_kind(e.type_code, v)
            &&& 0 < element_count(v) == c.offset
            &&& rest_of(part, c, v, e.value, whole.pos)
        },
    }
}

/// The part of an entry that has been read, with the marks of a first chunk.
spec fn part_of(part: ReaderV, e: RdbEntryV, v: RdbValueV) -> RdbEntryV {
    RdbEntryV {
        value: v,
        total_elements: Some(part.chunked->Some_0.total),
        element_offset: Some(0),
        ..e
    }
}

/// The next chunk of a key is the last, or leaves a shorter rest to be read.
proof fn lemma_next_chunk(part: ReaderV, whole: ReaderV, e: RdbEntryV, v: RdbValueV, m: nat)
    requires
        part.valid(),
        whole.chunked is None,
        e == unmarked(e),
        within(part, whole, e, v, m),
    ensures
        step(part).0 matches StepV::Entry(f) && goes_on(Ok(part_of(part, e, v)), f) && ({
            let joint = values::joined(v, f.value);
            let have = settled(part_of(part, e, joint));
            ||| step(part).1 == limited(whole, Some(m)) && have == e
            ||| within(step(part).1, whole, e, joint, m) && have == part_of(
                step(part).1,
                e,
                joint,
            )
        }),
{
    reveal(step);
    let c = part.chunked->Some_0;
    let t = e.type_code;
    let n = if m < c.remaining {
        m
    } else {
        c.remaining
    };
    let left = (c.remaining - n) as nat;
    values::law_chunks_join(part.source, t, part.pos, n, left);
    law_element_count(part.source, t, part.pos, n);
    lemma_plain_kind(part.source, t, part.pos, n);
    if let Ok((v1, q)) = values::elements(part.source, t, part.pos, n) {
        lemma_plain_kind(part.source, t, q, left);
        if let Ok((w1, _)) = values::elements(part.source, t, q, left) {
            lemma_joined_again(t, v, v1, w1);
        }
    }
}

proof fn lemma_rest_rejoined(
    part: ReaderV,
    whole: ReaderV,
    e: RdbEntryV,
    v: RdbValueV,
    m: nat,
    before: Seq<EntryItem>,
)
    requires
        part.valid(),
        !part.finished,
        whole.valid(),
        whole.max is None,
        whole.chunked is None,
        m > 0,
        e == unmarked(e),
        within(part, whole, e, v, m),
        no_failure(upcoming_from(whole)),
    ensures
        joined_onto(before.push(Ok(part_of(part, e, v))), upcoming_from(part)) == before.push(Ok(e))
            + upcoming_from(whole),
    decreases part.source.bytes.len() - part.pos,
{
    reveal(upcoming_from);
    law_step(part);
    lemma_next_chunk(part, whole, e, v, m);
    let (st, next) = step(part);
    let f = st->Entry_0;
    let joint = values::joined(v, f.value);
    let have = before.push(Ok(part_of(part, e, v)));
    lemma_joined_onto(have, Ok(f), upcoming_from(next));
    assert(have.drop_last() == before);
    let now = settled(part_of(part, e, joint));
    assert(with_chunk(have, Ok(f)) == before.push(Ok(now)));
    if next == limited(whole, Some(m)) && now == e {
        lemma_rejoined(whole, m, before.push(Ok(e)));
    } else {
        lemma_rest_rejoined(next, whole, e, joint, m, before);
    }
}

proof fn lemma_rejoined(r: ReaderV, m: nat, before: Seq<EntryItem>)
    requires
        r.valid(),
        r.max is None,
        r.chunked is None,
        m > 0,
        no_failure(upcoming_from(r)),
    ensures
        joined_onto(before, upcoming_from(limited(r, Some(m)))) == before + upcoming_from(r),
    decreases r.source.bytes.len() - r.pos,
{
    reveal(upcoming_from);
    reveal(step);
    let l = limited(r, Some(m));
    if r.finished {
        assert(before + upcoming_from(r) == before);
    } else {
        law_step(r);
        law_step(l);
        let (st, r2) = step(r);
        let (lst, l2) = step(l);
        match st {
            StepV::Fail(e) => {
                law_failures_are_known(r);
                assert(upcoming_from(r)[0] == Err::<RdbEntryV, RdbErrorV>(e));
            },
            StepV::End => {
                lemma_scan_matched(r, m);
                assert(before + upcoming_from(r) == before);
            },
            StepV::Unsupported(t) => {
                let x: EntryItem = Err(RdbErrorV::UnknownType(t));
                lemma_scan_matched(r, m);
                lemma_no_failure_after(x, upcoming_from(r2));
                lemma_scan_unchunked(r);
                lemma_joined_onto(before, x, upcoming_from(l2));
                lemma_rejoined(r2, m, before.push(x));
                assert(before.push(x) + upcoming_from(r2) == before + upcoming_from(r));
            },
            StepV::Entry(e) => {
                let x: EntryItem = Ok(e);
                lemma_scan_matched(r, m);
                lemma_no_failure_after(x, upcoming_from(r2));
                lemma_scan_unchunked(r);
                assert(before.push(x) + upcoming_from(r2) == before + upcoming_from(r));
                let f = lst->Entry_0;
                lemma_joined_onto(before, Ok(f), upcoming_from(l2));
                if l2 == limited(r2, Some(m)) {
                    lemma_rejoined(r2, m, before.push(x));
                } else {
                    assert(settled(f) == f && f == part_of(l2, e, f.value));
                    lemma_rest_rejoined(l2, r2, e, f.value, m, before);
                }
            },
        }
    }
}

/// Reading a file in chunks loses nothing and makes nothing up: joining each run of chunks in
/// order gives exactly the entries that are read without chunking, in the same order, with
/// the same database, key, type code, expiry, idle time and frequency. No chunk is left over:
/// each one has the number of elements before it as its offset, and all of a key state the
/// number of elements that they have together.
pub proof fn law_chunks_rejoin(r: ReaderV, m: nat)
    requires
        r.valid(),
        r.chunked is None,
        m > 0,
        no_failure(upcoming_from(limited(r, None))),
    ensures
        rejoined(upcoming_from(limited(r, Some(m)))) == upcoming_from(limited(r, None)),
{
    let whole = limited(r, None);
    lemma_rejoined(whole, m, Seq::empty());
    assert(limited(whole, Some(m)) == limited(r, Some(m)));
    assert(Seq::empty() + upcoming_from(whole) == upcoming_from(whole));
}

/// Without chunking every entry is a whole key.
pub proof fn law_whole_without_chunking(r: ReaderV, i: int)
    requires
        r.valid(),
        r.chunked is None,
        r.max is None,
        0 <= i < upcoming_from(r).len(),
    ensures
        upcoming_from(r)[i] matches Ok(e) ==> e.total_elements is None && e.element_offset is None,
    decreases r.source.bytes.len() - r.pos,
{
    reveal(upcoming_from);
    reveal(step);
    if !r.finished {
        law_step(r);
        lemma_scan_unchunked(r);
        let (st, r2) = step(r);
        match st {
            StepV::Entry(e) => {
                lemma_scan_matched(r, 1);
                let rest = upcoming_from(r2);
                assert(i > 0 ==> (seq![Ok::<RdbEntryV, RdbErrorV>(e)] + rest)[i] == rest[i - 1]);
                if i > 0 {
                    law_whole_without_chunking(r2, i - 1);
                }
            },
            StepV::Unsupported(t) => {
                let rest = upcoming_from(r2);
                let x = Err::<RdbEntryV, RdbErrorV>(RdbErrorV::UnknownType(t));
                assert(i > 0 ==> (seq![x] + rest)[i] == rest[i - 1]);
                if i > 0 {
                    law_whole_without_chunking(r2, i - 1);
                }
            },
            _ => {},
        }
    }
}

proof fn lemma_no_failure_before(x: EntryItem, rest: Seq<EntryItem>)
    requires
        no_failure(rest),
        x matches Err(e) ==> e is UnknownType,
    ensures
        no_failure(seq![x] + rest),
{
    let all = seq![x] + rest;
    assert forall|i: int| 0 <= i < all.len() implies ((#[trigger] all[i]) matches Err(e)
        ==> e is UnknownType) by {
        if i > 0 {
            assert(all[i] == rest[i - 1]);
        }
    }
}

proof fn lemma_rest_readable(part: ReaderV, whole: ReaderV, e: RdbEntryV, v: RdbValueV, m: nat)
    requires
        part.valid(),
        !part.finished,
        whole.valid(),
        whole.max is None,
        whole.chunked is None,
        m > 0,
        e == unmarked(e),
        within(part, whole, e, v, m),
        no_failure(upcoming_from(whole)),
    ensures
        no_failure(upcoming_from(part)),
        drained(part) == limited(drained(whole), Some(m)),
    decreases part.source.bytes.len() - part.pos,
{
    reveal(drained);
    law_step(part);
    law_steps_in_order(part);
    lemma_next_chunk(part, whole, e, v, m);
    let (st, next) = step(part);
    let f = st->Entry_0;
    let joint = values::joined(v, f.value);
    if next == limited(whole, Some(m)) {
        law_readable_in_chunks(whole, m);
        assert(limited(whole, None) == whole);
    } else {
        lemma_rest_readable(next, whole, e, joint, m);
    }
    lemma_no_failure_before(Ok(f), upcoming_from(next));
}

/// A file that can be read without chunking can be read in chunks, and the reader ends in the
/// same state: with the same metadata, and its checksum checked or not.
pub proof fn law_readable_in_chunks(r: ReaderV, m: nat)
    requires
        r.valid(),
        r.chunked is None,
        m > 0,
        no_failure(upcoming_from(limited(r, None))),
    ensures
        no_failure(upcoming_from(limited(r, Some(m)))),
        drained(limited(r, Some(m))) == limited(drained(limited(r, None)), Some(m)),
    decreases r.source.bytes.len() - r.pos,
{
    let w = limited(r, None);
    let l = limited(r, Some(m));
    assert(limited(w, Some(m)) == l);
    reveal(drained);
    if r.finished {
        reveal(upcoming_from);
    } else {
        law_step(w);
        law_step(l);
        law_steps_in_order(w);
        law_steps_in_order(l);
        let (st, w2) = step(w);
        let (lst, l2) = step(l);
        assert(step(w) == scan(w) && step(l) == scan(l)) by {
            reveal(step);
        }
        match st {
            StepV::Fail(e) => {
                law_failures_are_known(w);
                assert(upcoming_from(w)[0] == Err::<RdbEntryV, RdbErrorV>(e));
            },
            StepV::End => {
                lemma_scan_matched(w, m);
            },
            StepV::Unsupported(t) => {
                let x: EntryItem = Err(RdbErrorV::UnknownType(t));
                lemma_scan_matched(w, m);
                lemma_scan_unchunked(w);
                lemma_no_failure_after(x, upcoming_from(w2));
                assert(limited(w2, None) == w2);
                law_readable_in_chunks(w2, m);
                lemma_no_failure_before(x, upcoming_from(l2));
            },
            StepV::Entry(e) => {
                lemma_scan_matched(w, m);
                lemma_scan_unchunked(w);
                lemma_no_failure_after(Ok(e), upcoming_from(w2));
                assert(limited(w2, None) == w2);
                if l2 == limited(w2, Some(m)) {
                    law_readable_in_chunks(w2, m);
                } else {
                    lemma_rest_readable(l2, w2, e, lst->Entry_0.value, m);
                }
                lemma_no_failure_before(Ok(lst->Entry_0), upcoming_from(l2));
            },
        }
    }
}

proof fn lemma_rest_expects(
    part: ReaderV,
    whole: ReaderV,
    e: RdbEntryV,
    v: RdbValueV,
    m: nat,
    cut: int,
)
    requires
        part.valid(),
        whole.chunked is None,
        e == unmarked(e),
        within(part, whole, e, v, m),
        expects_opcode(limited(whole, Some(m)), cut),
    ensures
        expects_opcode(part, cut),
    decreases part.source.bytes.len() - part.pos,
{
    law_step(part);
    lemma_next_chunk(part, whole, e, v, m);
    assert(step(part) == chunk_step(part, part.chunked->Some_0)) by {
        reveal(step);
    }
    let (st, next) = step(part);
    if next != limited(whole, Some(m)) {
        lemma_rest_expects(next, whole, e, values::joined(v, st->Entry_0.value), m, cut);
    }
}

/// An opcode is expected at the same places whether a file is read in chunks or not.
pub proof fn law_chunks_keep_opcodes(r: ReaderV, m: nat, cut: int)
    requires
        r.valid(),
        r.chunked is None,
        m > 0,
        expects_opcode(limited(r, None), cut),
    ensures
        expects_opcode(limited(r, Some(m)), cut),
    decreases r.source.bytes.len() - r.pos,
{
    let w = limited(r, None);
    let l = limited(r, Some(m));
    if r.pos != cut {
        if let Ok((b, q)) = wire::byte(r.source, r.pos) {
            assert(limited(w.at(q), Some(m)) == l.at(q));
            if is_directive(b) {
                lemma_directive_moves_on(w.at(q), b);
                lemma_directive_limited(w.at(q), b, Some(m));
                if let Ok(w2) = directive(w.at(q), b) {
                    assert(limited(w2, None) == w2);
                    law_chunks_keep_opcodes(w2, m, cut);
                }
            } else if opcodes::object_type(b) {
                assert(step(w) == key_step(w.at(q), b) && step(l) == key_step(l.at(q), b)) by {
                    reveal(step);
                }
                law_step(w);
                law_step(l);
                lemma_key_step_matched(w.at(q), b, m);
                lemma_key_step_unchunked(w.at(q), b);
                let w2 = step(w).1;
                let l2 = step(l).1;
                assert(limited(w2, None) == w2);
                law_chunks_keep_opcodes(w2, m, cut);
                if l2 != limited(w2, Some(m)) {
                    let e = step(w).0->Entry_0;
                    lemma_rest_expects(l2, w2, e, step(l).0->Entry_0.value, m, cut);
                }
            }
        }
    }
}

proof fn lemma_key_step_unchunked(r: ReaderV, t: u8)
    requires
        r.max is None,
        r.chunked is None,
    ensures
        key_step(r, t).1.chunked is None,
{
    reveal(key_step);
}

} // verus!
