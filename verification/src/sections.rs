//! Sections that carry nothing for the entries: where they stand in a file does not matter.

use crate::chunks::{law_chunks_keep_opcodes, law_readable_in_chunks, limited, no_failure};
use crate::entries::EntryItem;
use crate::locality::{
    law_failures_are_known, lemma_aux, lemma_byte, lemma_chunk_step, lemma_directive,
    lemma_integers, lemma_key_step, lemma_take, shifted, Window,
};
use crate::modules;
use crate::opcodes;
use crate::opcodes::{
    RDB_OPCODE_AUX, RDB_OPCODE_EOF, RDB_OPCODE_FUNCTION2, RDB_OPCODE_MODULE_AUX,
    RDB_OPCODE_RESIZEDB, RDB_OPCODE_SLOT_IMPORT, RDB_OPCODE_SLOT_INFO,
};
use crate::reader::{
    aux_field, chunk_step, directive, drained, end_step, header_at, is_directive, key_step,
    law_step, lemma_aux_moves_on, lemma_directive_moves_on, opened, preamble, scan,
    step, upcoming_from, ReaderV, StepV,
};
use crate::streams;
use crate::types::{IoErrorV, RdbEntryV, RdbErrorV, RdbHeader};
use crate::wire;
use crate::wire::{Parsed, SourceV};
use vstd::prelude::*;

verus! {

/// The opcodes of sections that are passed over: table sizes, functions, module data, and
/// cluster slots.
pub open spec fn passed_over(b: u8) -> bool {
    b == RDB_OPCODE_RESIZEDB || b == RDB_OPCODE_FUNCTION2 || b == RDB_OPCODE_MODULE_AUX || b
        == RDB_OPCODE_SLOT_INFO || b == RDB_OPCODE_SLOT_IMPORT
}

/// Whether bytes are one section that is passed over: its opcode, and what a reader takes for
/// the rest of it.
pub open spec fn is_section(x: Seq<u8>) -> bool {
    x.len() > 0 && passed_over(x[0]) && section_end(
        SourceV { bytes: x, end: IoErrorV::UnexpectedEof },
        x[0],
        1,
    ) == Ok::<((), int), RdbErrorV>(((), x.len() as int))
}

/// The place after a section that is passed over, `p` being behind its opcode.
pub open spec fn section_end(s: SourceV, b: u8, p: int) -> Parsed<()> {
    let lengths = |q: int, n: nat| streams::passed(wire::repeat(streams::length_fn(s), q, n));
    if b == RDB_OPCODE_RESIZEDB {
        lengths(p, 2)
    } else if b == RDB_OPCODE_FUNCTION2 {
        streams::passed(wire::string(s, p))
    } else if b == RDB_OPCODE_MODULE_AUX {
        match lengths(p, 3) {
            Err(e) => Err(e),
            Ok((_, q)) => modules::module_skip(s, q),
        }
    } else if b == RDB_OPCODE_SLOT_INFO {
        lengths(p, 3)
    } else {
        match wire::string(s, p) {
            Err(e) => Err(e),
            Ok((_, q)) => match wire::size(s, q, "slot import range count"@) {
                Err(e) => Err(e),
                Ok((n, q2)) => lengths(q2, 2 * n),
            },
        }
    }
}

/// A section that is passed over changes nothing but the place.
pub proof fn law_sections_are_passed_over(r: ReaderV, b: u8)
    requires
        passed_over(b),
    ensures
        directive(r, b) == (match section_end(r.source, b, r.pos) {
            Err(e) => Err::<ReaderV, RdbErrorV>(e),
            Ok((_, q)) => Ok(r.at(q)),
        }),
{
    reveal(directive);
}

/// Whether a reader comes to stand at `cut` with an opcode to be read next.
pub open spec fn expects_opcode(r: ReaderV, cut: int) -> bool
    decreases r.source.bytes.len() - r.pos,
{
    match r.chunked {
        Some(c) => match chunk_step(r, c) {
            (StepV::Entry(_), r2) => r.pos < r2.pos <= r.source.bytes.len() && r2.source == r.source
                && expects_opcode(r2, cut),
            _ => false,
        },
        None => r.pos == cut || match wire::byte(r.source, r.pos) {
            Err(_) => false,
            Ok((b, q)) => if is_directive(b) {
                match directive(r.at(q), b) {
                    Err(_) => false,
                    Ok(r2) => r.pos < r2.pos <= r.source.bytes.len() && r2.source == r.source
                        && expects_opcode(r2, cut),
                }
            } else if opcodes::object_type(b) {
                match key_step(r.at(q), b) {
                    (StepV::Entry(_), r2) | (StepV::Unsupported(_), r2) => r.pos < r2.pos
                        <= r.source.bytes.len() && r2.source == r.source && expects_opcode(r2, cut),
                    _ => false,
                }
            } else {
                false
            },
        },
    }
}

/// The state of a reader right after the header, with the given limit.
pub open spec fn at_start(s: SourceV, header: RdbHeader, max: Option<nat>) -> ReaderV {
    ReaderV {
        source: s,
        pos: 9,
        header,
        aux: Map::empty(),
        db: 0,
        expiry_ms: None,
        lru_idle_secs: None,
        lfu_frequency: None,
        finished: false,
        max,
        chunked: None,
        crc_checked: false,
    }
}

/// An input with more bytes put in at `cut`.
pub open spec fn inserted(s: SourceV, cut: int, x: Seq<u8>) -> SourceV {
    SourceV { bytes: s.bytes.take(cut) + x + s.bytes.skip(cut), end: s.end }
}

// ---- One opcode at a time ----

/// A directive yields nothing: what comes is what comes after it.
proof fn lemma_after_directive(r: ReaderV, b: u8, q: int, r2: ReaderV)
    requires
        r.valid(),
        !r.finished,
        r.chunked is None,
        wire::byte(r.source, r.pos) == Ok::<(u8, int), RdbErrorV>((b, q)),
        is_directive(b),
        directive(r.at(q), b) == Ok::<ReaderV, RdbErrorV>(r2),
    ensures
        r2.valid(),
        !r2.finished,
        r2.chunked is None,
        r2.source == r.source,
        r2.header == r.header,
        r2.max == r.max,
        r.pos < r2.pos <= r.source.bytes.len(),
        upcoming_from(r) == upcoming_from(r2),
        drained(r) == drained(r2),
{
    lemma_directive_moves_on(r.at(q), b);
    reveal(step);
    assert(step(r) == step(r2));
    law_step(r);
    law_step(r2);
    reveal(upcoming_from);
    reveal(drained);
}

/// The item that a step yields.
spec fn yielded(st: StepV) -> EntryItem {
    match st {
        StepV::Entry(e) => Ok(e),
        StepV::Unsupported(t) => Err(RdbErrorV::UnknownType(t)),
        StepV::Fail(e) => Err(e),
        StepV::End => Err(RdbErrorV::InvalidMagic),
    }
}

/// A step that yields an item comes before all the others.
proof fn lemma_after_item(r: ReaderV)
    requires
        r.valid(),
        !r.finished,
        step(r).0 is Entry || step(r).0 is Unsupported,
    ensures
        step(r).1.valid(),
        !step(r).1.finished,
        step(r).1.source == r.source,
        r.pos < step(r).1.pos <= r.source.bytes.len(),
        upcoming_from(r) == seq![yielded(step(r).0)] + upcoming_from(step(r).1),
        drained(r) == drained(step(r).1),
        no_failure(upcoming_from(r)) ==> no_failure(upcoming_from(step(r).1)),
{
    law_step(r);
    reveal(upcoming_from);
    reveal(drained);
    let rest = upcoming_from(step(r).1);
    let all = upcoming_from(r);
    assert(all == seq![yielded(step(r).0)] + rest);
    assert(forall|i: int| 0 <= i < rest.len() ==> #[trigger] rest[i] == all[i + 1]);
}

/// Where nothing fails, the next step does not.
proof fn lemma_no_failure_next(r: ReaderV)
    requires
        r.valid(),
        !r.finished,
        no_failure(upcoming_from(r)),
    ensures
        !(step(r).0 is Fail),
{
    law_failures_are_known(r);
    reveal(upcoming_from);
    if let StepV::Fail(e) = step(r).0 {
        assert(upcoming_from(r)[0] == Err::<RdbEntryV, RdbErrorV>(e));
    }
}

proof fn lemma_key_step_goes_on(r: ReaderV, t: u8)
    ensures
        !(key_step(r, t).0 is End),
{
    reveal(key_step);
}

/// The bytes of a window that goes up to the end of both inputs yield the same items, unless
/// a checksum is stored, which covers the bytes before them.
proof fn lemma_suffix(w: Window, r: ReaderV)
    requires
        w.matches(),
        w.high == w.from.bytes.len(),
        r.source == w.from,
        w.low <= r.pos,
        r.valid(),
        !r.finished,
        no_failure(upcoming_from(r)),
        !drained(r).crc_checked,
    ensures
        upcoming_from(shifted(w, r)) == upcoming_from(r),
    decreases r.source.bytes.len() - r.pos,
{
    let r1 = shifted(w, r);
    assert(r1.valid());
    lemma_no_failure_next(r);
    match r.chunked {
        Some(c) => {
            assert(step(r) == chunk_step(r, c) && step(r1) == chunk_step(r1, c)) by {
                reveal(step);
            }
            lemma_chunk_step(w, r, c);
            lemma_after_item(r);
            lemma_after_item(r1);
            lemma_suffix(w, step(r).1);
        },
        None => {
            assert(step(r) == scan(r) && step(r1) == scan(r1)) by {
                reveal(step);
            }
            lemma_byte(w, r.pos);
            if let Ok((b, q)) = wire::byte(r.source, r.pos) {
                assert(shifted(w, r.at(q)) == r1.at(q + w.by));
                if is_directive(b) {
                    lemma_directive(w, r.at(q), b);
                    lemma_directive_moves_on(r.at(q), b);
                    if let Ok(r2) = directive(r.at(q), b) {
                        lemma_after_directive(r, b, q, r2);
                        lemma_after_directive(r1, b, q + w.by, shifted(w, r2));
                        lemma_suffix(w, r2);
                    }
                } else if b == RDB_OPCODE_EOF {
                    lemma_suffix_end(w, r, q);
                } else if opcodes::object_type(b) {
                    lemma_key_step(w, r.at(q), b);
                    lemma_key_step_goes_on(r.at(q), b);
                    lemma_after_item(r);
                    lemma_after_item(r1);
                    lemma_suffix(w, step(r).1);
                }
            }
        },
    }
}

proof fn lemma_suffix_end(w: Window, r: ReaderV, q: int)
    requires
        w.matches(),
        w.high == w.from.bytes.len(),
        r.source == w.from,
        w.low <= r.pos,
        r.valid(),
        !r.finished,
        r.chunked is None,
        !(step(r).0 is Fail),
        !drained(r).crc_checked,
        wire::byte(r.source, r.pos) == Ok::<(u8, int), RdbErrorV>((RDB_OPCODE_EOF, q)),
        wire::byte(w.to, r.pos + w.by) == Ok::<(u8, int), RdbErrorV>((RDB_OPCODE_EOF, q + w.by)),
    ensures
        upcoming_from(shifted(w, r)) == upcoming_from(r),
{
    let r1 = shifted(w, r);
    reveal(step);
    reveal(upcoming_from);
    reveal(drained);
    lemma_integers(w, q);
    assert(step(r) == end_step(r.at(q)));
    assert(step(r1) == end_step(r1.at(q + w.by)));
    law_step(r);
    law_step(r1);
    assert(upcoming_from(r) == Seq::<EntryItem>::empty());
    assert(upcoming_from(r1) == Seq::<EntryItem>::empty());
}

/// A reader that has come past a place does not come back to it.
proof fn lemma_expected_ahead(r: ReaderV, cut: int)
    requires
        expects_opcode(r, cut),
    ensures
        r.pos <= cut,
        r.pos <= r.source.bytes.len() ==> cut <= r.source.bytes.len(),
    decreases r.source.bytes.len() - r.pos,
{
    match r.chunked {
        Some(c) => {
            lemma_expected_ahead(chunk_step(r, c).1, cut);
        },
        None => {
            if r.pos != cut {
                if let Ok((b, q)) = wire::byte(r.source, r.pos) {
                    if is_directive(b) {
                        lemma_expected_ahead(directive(r.at(q), b)->Ok_0, cut);
                    } else if opcodes::object_type(b) {
                        lemma_expected_ahead(key_step(r.at(q), b).1, cut);
                    }
                }
            }
        },
    }
}

/// The bytes before `cut`, in an input and with more put in.
spec fn head(s: SourceV, cut: int, x: Seq<u8>) -> Window {
    Window { from: s, to: inserted(s, cut, x), low: 0, high: cut, by: 0 }
}

/// The bytes from `cut` on, in an input and with more put in.
spec fn tail(s: SourceV, cut: int, x: Seq<u8>) -> Window {
    Window {
        from: s,
        to: inserted(s, cut, x),
        low: cut,
        high: s.bytes.len() as int,
        by: x.len() as int,
    }
}

/// The bytes that are put in.
spec fn middle(s: SourceV, cut: int, x: Seq<u8>) -> Window {
    Window {
        from: SourceV { bytes: x, end: IoErrorV::UnexpectedEof },
        to: inserted(s, cut, x),
        low: 0,
        high: x.len() as int,
        by: cut,
    }
}

proof fn lemma_windows(s: SourceV, cut: int, x: Seq<u8>)
    requires
        0 <= cut <= s.bytes.len(),
    ensures
        head(s, cut, x).matches(),
        tail(s, cut, x).matches(),
        middle(s, cut, x).matches(),
{
    let all = inserted(s, cut, x).bytes;
    assert(all.len() == s.bytes.len() + x.len());
    assert forall|i: int| 0 <= i < cut implies #[trigger] s.bytes[i] == all[i + 0] by {}
    assert forall|i: int| cut <= i < s.bytes.len() implies #[trigger] s.bytes[i] == all[i
        + x.len()] by {}
    assert forall|i: int| 0 <= i < x.len() implies #[trigger] x[i] == all[i + cut] by {}
}

/// A reader that stands where a section was put in passes over it.
proof fn lemma_over_section(r: ReaderV, cut: int, x: Seq<u8>)
    requires
        0 <= cut <= r.source.bytes.len(),
        r.pos == cut,
        r.valid(),
        !r.finished,
        r.chunked is None,
        is_section(x),
    ensures
        upcoming_from(shifted(head(r.source, cut, x), r)) == upcoming_from(
            shifted(tail(r.source, cut, x), r),
        ),
{
    let s = r.source;
    let m = middle(s, cut, x);
    let alone = ReaderV { source: m.from, pos: 0, ..r };
    let r1 = shifted(head(s, cut, x), r);
    lemma_windows(s, cut, x);
    lemma_byte(m, 0);
    law_sections_are_passed_over(alone.at(1), x[0]);
    lemma_directive(m, alone.at(1), x[0]);
    assert(shifted(m, alone.at(1)) == r1.at(cut + 1));
    let r2 = shifted(m, alone.at(x.len() as int));
    lemma_after_directive(r1, x[0], cut + 1, r2);
    assert(r2 == shifted(tail(s, cut, x), r));
}

/// A section that is put in where an opcode is expected leaves what is yielded as it is.
proof fn lemma_section_inserted(r: ReaderV, cut: int, x: Seq<u8>)
    requires
        r.valid(),
        !r.finished,
        cut <= r.source.bytes.len(),
        expects_opcode(r, cut),
        is_section(x),
        no_failure(upcoming_from(r)),
        !drained(r).crc_checked,
    ensures
        upcoming_from(shifted(head(r.source, cut, x), r)) == upcoming_from(r),
    decreases r.source.bytes.len() - r.pos,
{
    let s = r.source;
    let w = head(s, cut, x);
    let r1 = shifted(w, r);
    lemma_expected_ahead(r, cut);
    lemma_windows(s, cut, x);
    assert(r1.valid());
    match r.chunked {
        Some(c) => {
            assert(step(r) == chunk_step(r, c) && step(r1) == chunk_step(r1, c)) by {
                reveal(step);
            }
            let r2 = step(r).1;
            lemma_expected_ahead(r2, cut);
            lemma_chunk_step(w, r, c);
            lemma_after_item(r);
            lemma_after_item(r1);
            lemma_section_inserted(r2, cut, x);
        },
        None => if r.pos == cut {
            lemma_over_section(r, cut, x);
            lemma_suffix(tail(s, cut, x), r);
        } else {
            assert(step(r) == scan(r) && step(r1) == scan(r1)) by {
                reveal(step);
            }
            lemma_byte(w, r.pos);
            if let Ok((b, q)) = wire::byte(s, r.pos) {
                assert(shifted(w, r.at(q)) == r1.at(q));
                if is_directive(b) {
                    lemma_directive(w, r.at(q), b);
                    if let Ok(r2) = directive(r.at(q), b) {
                        lemma_expected_ahead(r2, cut);
                        lemma_after_directive(r, b, q, r2);
                        lemma_after_directive(r1, b, q, shifted(w, r2));
                        lemma_section_inserted(r2, cut, x);
                    }
                } else if opcodes::object_type(b) {
                    let r2 = step(r).1;
                    lemma_expected_ahead(r2, cut);
                    lemma_key_step(w, r.at(q), b);
                    lemma_after_item(r);
                    lemma_after_item(r1);
                    lemma_section_inserted(r2, cut, x);
                }
            }
        },
    }
}

// ---- From the start of a file ----

/// The AUX fields at the start yield nothing: what comes is what comes after them.
proof fn lemma_after_preamble(r: ReaderV)
    requires
        r.valid(),
        !r.finished,
        r.chunked is None,
        preamble(r.source, r.pos, r.aux) is Ok,
    ensures
        ({
            let (aux, q) = preamble(r.source, r.pos, r.aux)->Ok_0;
            let r2 = ReaderV { aux, ..r.at(q) };
            &&& upcoming_from(r) == upcoming_from(r2)
            &&& drained(r) == drained(r2)
        }),
    decreases r.source.bytes.len() - r.pos,
{
    if let Ok((b, q)) = wire::byte(r.source, r.pos) {
        if b == RDB_OPCODE_AUX {
            lemma_aux_moves_on(r.source, q);
            if let Ok(((k, v), q2)) = aux_field(r.source, q) {
                let r2 = ReaderV { aux: r.aux.insert(k, v), ..r.at(q).at(q2) };
                assert(directive(r.at(q), b) == Ok::<ReaderV, RdbErrorV>(r2)) by {
                    reveal(directive);
                }
                lemma_after_directive(r, b, q, r2);
                lemma_after_preamble(r2);
                let (aux, end) = preamble(r2.source, r2.pos, r2.aux)->Ok_0;
                assert(ReaderV { aux, ..r2.at(end) } == ReaderV { aux, ..r.at(end) });
            }
        } else {
            assert(ReaderV { aux: r.aux, ..r.at(r.pos) } == r);
        }
    }
}

/// A section that is put in where an opcode is expected leaves the AUX fields readable.
proof fn lemma_preamble_inserted(r: ReaderV, cut: int, x: Seq<u8>)
    requires
        r.valid(),
        !r.finished,
        r.chunked is None,
        cut <= r.source.bytes.len(),
        expects_opcode(r, cut),
        is_section(x),
        preamble(r.source, r.pos, r.aux) is Ok,
    ensures
        preamble(inserted(r.source, cut, x), r.pos, r.aux) is Ok,
    decreases r.source.bytes.len() - r.pos,
{
    let s = r.source;
    let w = head(s, cut, x);
    lemma_expected_ahead(r, cut);
    lemma_windows(s, cut, x);
    if r.pos == cut {
        lemma_byte(middle(s, cut, x), 0);
    } else {
        lemma_byte(w, r.pos);
        if let Ok((b, q)) = wire::byte(s, r.pos) {
            if b == RDB_OPCODE_AUX {
                lemma_aux(w, q);
                lemma_aux_moves_on(s, q);
                if let Ok(((k, v), q2)) = aux_field(s, q) {
                    let r2 = ReaderV { aux: r.aux.insert(k, v), ..r.at(q).at(q2) };
                    assert(directive(r.at(q), b) == Ok::<ReaderV, RdbErrorV>(r2)) by {
                        reveal(directive);
                    }
                    lemma_expected_ahead(r2, cut);
                    lemma_aux_moves_on(w.to, q);
                    lemma_preamble_inserted(r2, cut, x);
                }
            }
        }
    }
}

proof fn lemma_sections_limited(s: SourceV, cut: int, x: Seq<u8>, max: Option<nat>)
    requires
        is_section(x),
        max matches Some(m) ==> m > 0,
        opened(s) matches Ok(r) && {
            &&& expects_opcode(at_start(s, r.header, max), cut)
            &&& no_failure(upcoming_from(limited(r, max)))
            &&& !drained(limited(r, max)).crc_checked
        },
    ensures
        opened(inserted(s, cut, x)) matches Ok(r) && {
            &&& r.header == opened(s)->Ok_0.header
            &&& upcoming_from(limited(r, max)) == upcoming_from(limited(opened(s)->Ok_0, max))
        },
{
    let r = opened(s)->Ok_0;
    let start = at_start(s, r.header, max);
    let to = inserted(s, cut, x);
    let w = head(s, cut, x);
    lemma_expected_ahead(start, cut);
    lemma_windows(s, cut, x);
    lemma_take(w, 0, 9);
    assert(header_at(to, 0) == header_at(s, 0));
    lemma_after_preamble(start);
    lemma_preamble_inserted(start, cut, x);
    lemma_section_inserted(start, cut, x);
    let start2 = at_start(to, r.header, max);
    assert(shifted(w, start) == start2);
    lemma_after_preamble(start2);
    let (aux, q) = preamble(s, 9, Map::empty())->Ok_0;
    assert(ReaderV { aux, ..start.at(q) } == limited(r, max));
    let r2 = opened(to)->Ok_0;
    let (aux2, q2) = preamble(to, 9, Map::empty())->Ok_0;
    assert(ReaderV { aux: aux2, ..start2.at(q2) } == limited(r2, max));
}

proof fn lemma_opened_valid(s: SourceV)
    ensures
        opened(s) matches Ok(r) ==> r.valid() && r.chunked is None,
{
    if let Ok((header, p)) = header_at(s, 0) {
        lemma_preamble_ahead(s, p, Map::empty());
    }
}

proof fn lemma_preamble_ahead(s: SourceV, p: int, aux: Map<Seq<char>, Seq<char>>)
    requires
        p >= 0,
    ensures
        preamble(s, p, aux) matches Ok((_, q)) ==> q >= 0,
    decreases s.bytes.len() - p,
{
    if let Ok((b, q)) = wire::byte(s, p) {
        lemma_aux_moves_on(s, q);
        if let Ok(((k, v), q2)) = aux_field(s, q) {
            lemma_preamble_ahead(s, q2, aux.insert(k, v));
        }
    }
}

/// What holds of a file without chunking holds of it with any limit.
proof fn lemma_any_limit(start: ReaderV, r: ReaderV, max: Option<nat>, cut: int)
    requires
        start.valid(),
        start.chunked is None,
        start.max is None,
        r.valid(),
        r.chunked is None,
        max matches Some(m) ==> m > 0,
        expects_opcode(start, cut),
        no_failure(upcoming_from(limited(r, None))),
        !drained(limited(r, None)).crc_checked,
    ensures
        expects_opcode(limited(start, max), cut),
        no_failure(upcoming_from(limited(r, max))),
        !drained(limited(r, max)).crc_checked,
{
    assert(limited(start, None) == start);
    if let Some(m) = max {
        law_chunks_keep_opcodes(start, m, cut);
        law_readable_in_chunks(r, m);
    }
}

/// Table sizes, functions, module data and cluster slots are passed over wherever they stand:
/// a section of theirs, put into a readable file at any place where an opcode is expected,
/// leaves the items that are read as they are, in chunks of any size or in none. (A stored
/// checksum covers the bytes of the section too, so the file has none, or is too old to have
/// one.)
pub proof fn law_sections_leave_the_entries(s: SourceV, cut: int, x: Seq<u8>, max: Option<nat>)
    requires
        is_section(x),
        max matches Some(m) ==> m > 0,
        opened(s) matches Ok(r) && {
            &&& expects_opcode(at_start(s, r.header, None), cut)
            &&& no_failure(upcoming_from(limited(r, None)))
            &&& !drained(limited(r, None)).crc_checked
        },
    ensures
        opened(inserted(s, cut, x)) matches Ok(r) && {
            &&& r.header == opened(s)->Ok_0.header
            &&& upcoming_from(limited(r, max)) == upcoming_from(limited(opened(s)->Ok_0, max))
        },
{
    let r = opened(s)->Ok_0;
    lemma_opened_valid(s);
    lemma_any_limit(at_start(s, r.header, None), r, max, cut);
    assert(limited(at_start(s, r.header, None), max) == at_start(s, r.header, max));
    lemma_sections_limited(s, cut, x, max);
}

} // verus!
