//! Sections that are passed over as they are written, and that reading goes on behind them;
//! and the opcodes that are refused.

use crate::module_text::{
    item_fits, item_writer, length_writer, lemma_item_reads_back, lemma_lengths_read_back,
    lengths_read,
};
use crate::modules;
use crate::opcodes::object_type;
use crate::reader::{directive, key_step, scan, skip_lengths, ReaderV, StepV};
use crate::readback::{lemma_byte_reads_back, lemma_scan_directive, lemma_stands_apart, texts};
use crate::text;
use crate::types::{ModuleValueV, RdbErrorV, RdbValueV};
use crate::values;
use crate::wire;
use crate::wire::{length_text, stands_at, string_text, SourceV, MAX_ALLOC_BYTES};
use vstd::prelude::*;

verus! {

/// A section that is passed over.
pub enum Section {
    /// The sizes of the tables of a database.
    TableSizes(u64, u64),
    /// A library of functions.
    Function(Seq<u8>),
    /// Data of a module: an ID, when it was saved, and values.
    ModuleData(Seq<u64>, Seq<ModuleValueV>),
    /// A cluster slot and the sizes of its tables.
    SlotInfo(Seq<u64>),
    /// The name of a slot import and its ranges, of two numbers each.
    SlotImport(Seq<u8>, Seq<u64>),
}

impl Section {
    /// The opcode of the section.
    pub open spec fn opcode(self) -> u8 {
        match self {
            Section::TableSizes(_, _) => 0xfb,
            Section::Function(_) => 0xf5,
            Section::ModuleData(_, _) => 0xf7,
            Section::SlotInfo(_) => 0xf4,
            Section::SlotImport(_, _) => 0xf3,
        }
    }

    /// What is written behind the opcode.
    pub open spec fn body(self) -> Seq<u8> {
        match self {
            Section::TableSizes(a, b) => texts(length_writer(), seq![a, b]),
            Section::Function(code) => string_text(code),
            Section::ModuleData(lengths, items) => texts(length_writer(), lengths) + (texts(
                item_writer(),
                items,
            ) + length_text(0)),
            Section::SlotInfo(lengths) => texts(length_writer(), lengths),
            Section::SlotImport(name, bounds) => string_text(name) + (length_text(
                (bounds.len() / 2) as u64,
            ) + texts(length_writer(), bounds)),
        }
    }

    /// Whether the section can be written.
    pub open spec fn fits(self) -> bool {
        match self {
            Section::TableSizes(_, _) => true,
            Section::Function(code) => code.len() <= MAX_ALLOC_BYTES,
            Section::ModuleData(lengths, items) => lengths.len() == 3 && forall|i: int|
                0 <= i < items.len() ==> item_fits(#[trigger] items[i]),
            Section::SlotInfo(lengths) => lengths.len() == 3,
            Section::SlotImport(name, bounds) => name.len() <= MAX_ALLOC_BYTES && bounds.len() % 2
                == 0 && bounds.len() / 2 <= MAX_ALLOC_BYTES,
        }
    }
}

proof fn lemma_items_skipped(s: SourceV, p: int, items: Seq<ModuleValueV>)
    requires
        forall|i: int| 0 <= i < items.len() ==> item_fits(#[trigger] items[i]),
        stands_at(s, p, texts(item_writer(), items) + length_text(0)),
    ensures
        modules::module_skip(s, p) == Ok::<((), int), RdbErrorV>(
            ((), p + (texts(item_writer(), items) + length_text(0)).len()),
        ),
    decreases items.len(),
{
    if items.len() == 0 {
        assert(texts(item_writer(), items) + length_text(0) == length_text(0));
        wire::law_length_reads_back(s, p, 0);
        assert(modules::module_item(s, p) == Ok::<(Option<ModuleValueV>, int), RdbErrorV>(
            (None, p + length_text(0).len()),
        ));
    } else {
        let v = items[0];
        let later = items.drop_first();
        let w = item_writer()(v);
        let tail = texts(item_writer(), later) + length_text(0);
        assert(texts(item_writer(), items) + length_text(0) == w + tail);
        lemma_stands_apart(s, p, w, tail);
        assert(item_fits(items[0]));
        lemma_item_reads_back(s, p, v);
        assert forall|i: int| 0 <= i < later.len() implies item_fits(#[trigger] later[i]) by {
            assert(later[i] == items[i + 1]);
        }
        lemma_items_skipped(s, p + w.len(), later);
        lemma_skip_one(s, p, v, p + w.len());
    }
}

proof fn lemma_skip_one(s: SourceV, p: int, v: ModuleValueV, q: int)
    requires
        modules::module_item(s, p) == Ok::<(Option<ModuleValueV>, int), RdbErrorV>((Some(v), q)),
    ensures
        modules::module_skip(s, p) == modules::module_skip(s, q),
{
    modules::lemma_module_item_moves_on(s, p);
}

proof fn lemma_lengths_skipped(r: ReaderV, lengths: Seq<u64>)
    requires
        stands_at(r.source, r.pos, texts(length_writer(), lengths)),
    ensures
        skip_lengths(r, lengths.len()) == Ok::<ReaderV, RdbErrorV>(
            r.at(r.pos + texts(length_writer(), lengths).len()),
        ),
{
    lemma_lengths_read_back(r.source, r.pos, lengths);
    reveal(lengths_read);
}

#[verifier::spinoff_prover]
proof fn lemma_lengths_directive(r: ReaderV, b: u8, lengths: Seq<u64>)
    requires
        stands_at(r.source, r.pos, texts(length_writer(), lengths)),
        (b == 0xfb && lengths.len() == 2) || (b == 0xf4 && lengths.len() == 3),
    ensures
        directive(r, b) == Ok::<ReaderV, RdbErrorV>(
            r.at(r.pos + texts(length_writer(), lengths).len()),
        ),
{
    lemma_lengths_skipped(r, lengths);
    reveal(directive);
}

#[verifier::spinoff_prover]
proof fn lemma_function_directive(r: ReaderV, code: Seq<u8>)
    requires
        code.len() <= MAX_ALLOC_BYTES,
        stands_at(r.source, r.pos, string_text(code)),
    ensures
        directive(r, 0xf5) == Ok::<ReaderV, RdbErrorV>(r.at(r.pos + string_text(code).len())),
{
    wire::law_string_reads_back(r.source, r.pos, code);
    reveal(directive);
}

#[verifier::spinoff_prover]
proof fn lemma_module_directive(r: ReaderV, lengths: Seq<u64>, items: Seq<ModuleValueV>)
    requires
        lengths.len() == 3,
        forall|i: int| 0 <= i < items.len() ==> item_fits(#[trigger] items[i]),
        stands_at(
            r.source,
            r.pos,
            texts(length_writer(), lengths) + (texts(item_writer(), items) + length_text(0)),
        ),
    ensures
        directive(r, 0xf7) == Ok::<ReaderV, RdbErrorV>(
            r.at(
                r.pos + (texts(length_writer(), lengths) + (texts(item_writer(), items)
                    + length_text(0))).len(),
            ),
        ),
{
    let head = texts(length_writer(), lengths);
    let tail = texts(item_writer(), items) + length_text(0);
    lemma_stands_apart(r.source, r.pos, head, tail);
    lemma_lengths_skipped(r, lengths);
    lemma_items_skipped(r.source, r.pos + head.len(), items);
    lemma_module_steps(r, r.pos + head.len(), r.pos + head.len() + tail.len());
}

proof fn lemma_module_steps(r: ReaderV, p: int, q: int)
    requires
        skip_lengths(r, 3) == Ok::<ReaderV, RdbErrorV>(r.at(p)),
        modules::module_skip(r.source, p) == Ok::<((), int), RdbErrorV>(((), q)),
    ensures
        directive(r, 0xf7) == Ok::<ReaderV, RdbErrorV>(r.at(q)),
{
    reveal(directive);
}

#[verifier::spinoff_prover]
proof fn lemma_import_directive(r: ReaderV, name: Seq<u8>, bounds: Seq<u64>)
    requires
        (Section::SlotImport(name, bounds)).fits(),
        stands_at(r.source, r.pos, (Section::SlotImport(name, bounds)).body()),
    ensures
        directive(r, 0xf3) == Ok::<ReaderV, RdbErrorV>(
            r.at(r.pos + (Section::SlotImport(name, bounds)).body().len()),
        ),
{
    let s = r.source;
    let head = string_text(name);
    let count = (bounds.len() / 2) as u64;
    let n = length_text(count);
    let tail = texts(length_writer(), bounds);
    let p1 = r.pos + head.len();
    let p2 = p1 + n.len();
    lemma_stands_apart(s, r.pos, head, n + tail);
    lemma_stands_apart(s, p1, n, tail);
    assert(wire::string(s, r.pos) == Ok::<(Seq<u8>, int), RdbErrorV>((name, p1))) by {
        wire::law_string_reads_back(s, r.pos, name);
    }
    assert(wire::size(s, p1, "slot import range count"@) == Ok::<(nat, int), RdbErrorV>(
        (bounds.len() / 2, p2),
    )) by {
        wire::law_length_reads_back(s, p1, count);
    }
    lemma_lengths_skipped(r.at(p2), bounds);
    lemma_import_steps(r, name, bounds.len() / 2, p1, p2, p2 + tail.len());
}

proof fn lemma_import_steps(r: ReaderV, name: Seq<u8>, n: nat, p1: int, p2: int, q: int)
    requires
        wire::string(r.source, r.pos) == Ok::<(Seq<u8>, int), RdbErrorV>((name, p1)),
        wire::size(r.source, p1, "slot import range count"@) == Ok::<(nat, int), RdbErrorV>(
            (n, p2),
        ),
        skip_lengths(r.at(p2), 2 * n) == Ok::<ReaderV, RdbErrorV>(r.at(p2).at(q)),
    ensures
        directive(r, 0xf3) == Ok::<ReaderV, RdbErrorV>(r.at(q)),
{
    reveal(directive);
}

proof fn lemma_section_directive(r: ReaderV, x: Section)
    requires
        x.fits(),
        stands_at(r.source, r.pos, x.body()),
    ensures
        directive(r, x.opcode()) == Ok::<ReaderV, RdbErrorV>(r.at(r.pos + x.body().len())),
{
    match x {
        Section::TableSizes(a, b) => {
            lemma_lengths_directive(r, 0xfb, seq![a, b]);
        },
        Section::Function(code) => {
            lemma_function_directive(r, code);
        },
        Section::ModuleData(lengths, items) => {
            lemma_module_directive(r, lengths, items);
        },
        Section::SlotInfo(lengths) => {
            lemma_lengths_directive(r, 0xf4, lengths);
        },
        Section::SlotImport(name, bounds) => {
            lemma_import_directive(r, name, bounds);
        },
    }
}

/// Reading goes on behind a section that is passed over, as if it were not there.
pub proof fn law_section_is_passed_over(r: ReaderV, x: Section)
    requires
        x.fits(),
        stands_at(r.source, r.pos, seq![x.opcode()] + x.body()),
    ensures
        scan(r) == scan(r.at(r.pos + 1 + x.body().len())),
{
    lemma_stands_apart(r.source, r.pos, seq![x.opcode()], x.body());
    lemma_byte_reads_back(r.source, r.pos, x.opcode());
    let behind = r.at(r.pos + 1);
    lemma_section_directive(behind, x);
    let r2 = r.at(r.pos + 1 + x.body().len());
    assert(behind.at(r.pos + 1 + x.body().len()) == r2);
    lemma_scan_directive(r, x.opcode(), r2);
}

/// The type codes are 0 to 22, but for 8. What is neither one of them nor an opcode is refused
/// with its number, and so are functions of the time before they were settled.
pub proof fn law_other_opcodes_are_refused(r: ReaderV, b: u8)
    requires
        stands_at(r.source, r.pos, seq![b]),
    ensures
        object_type(b) <==> b <= 22 && b != 8,
        b == 8 || 22 < b < 0xf3 ==> scan(r).0 == StepV::Fail(
            RdbErrorV::CorruptData(
                "unexpected byte 0x"@ + text::hex(b as nat, 2) + " in opcode position"@,
            ),
        ),
        b == 0xf6 ==> scan(r).0 is Fail,
{
    lemma_byte_reads_back(r.source, r.pos, b);
}

/// A hash in the oldest compact form is passed over whole and reported by its code. What waited
/// for it does not stay for the next key.
pub proof fn law_zipmaps_are_reported(r: ReaderV, key: Seq<u8>, blob: Seq<u8>)
    requires
        key.len() <= MAX_ALLOC_BYTES,
        blob.len() <= MAX_ALLOC_BYTES,
        stands_at(r.source, r.pos, seq![9u8] + (string_text(key) + string_text(blob))),
    ensures
        scan(r) == (
            StepV::Unsupported(9),
            ReaderV {
                pos: r.pos + 1 + string_text(key).len() + string_text(blob).len(),
                expiry_ms: None,
                lru_idle_secs: None,
                lfu_frequency: None,
                ..r
            },
        ),
{
    let s = r.source;
    let k = string_text(key);
    let b = string_text(blob);
    lemma_stands_apart(s, r.pos, seq![9u8], k + b);
    lemma_stands_apart(s, r.pos + 1, k, b);
    lemma_byte_reads_back(s, r.pos, 9);
    let p1 = r.pos + 1 + k.len();
    assert(wire::string(s, r.pos + 1) == Ok::<(Seq<u8>, int), RdbErrorV>((key, p1))) by {
        wire::law_string_reads_back(s, r.pos + 1, key);
    }
    assert(values::value(s, 9, p1) == Ok::<(Option<RdbValueV>, int), RdbErrorV>(
        (None, p1 + b.len()),
    )) by {
        wire::law_string_reads_back(s, p1, blob);
    }
    lemma_unsupported_key(r, key, p1, p1 + b.len());
}

proof fn lemma_unsupported_key(r: ReaderV, key: Seq<u8>, p1: int, q: int)
    requires
        wire::byte(r.source, r.pos) == Ok::<(u8, int), RdbErrorV>((9u8, r.pos + 1)),
        wire::string(r.source, r.pos + 1) == Ok::<(Seq<u8>, int), RdbErrorV>((key, p1)),
        values::value(r.source, 9, p1) == Ok::<(Option<RdbValueV>, int), RdbErrorV>((None, q)),
    ensures
        scan(r) == (StepV::Unsupported(9), r.cleared().at(q)),
{
    reveal(key_step);
    assert(r.at(r.pos + 1).cleared().at(q) == r.cleared().at(q));
}

} // verus!
