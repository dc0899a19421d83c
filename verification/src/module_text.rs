//! Module values and whole streams as they are written, and that they are read back as what
//! was written.

use crate::bytes::{be64, law_le_reads_back, le_bytes, lemma_le_bytes, unsigned};
use crate::modules;
use crate::modules::{
    module_item, module_list, module_name, module_version, string_size, MAX_MODULE_STRING_BYTES,
    MAX_MODULE_VALUES,
};
use crate::numerals::digit;
use crate::opcodes::{
    RDB_TYPE_MODULE_2, RDB_TYPE_STREAM_LISTPACKS, RDB_TYPE_STREAM_LISTPACKS_2,
    RDB_TYPE_STREAM_LISTPACKS_3,
};
use crate::readback::{
    i64_text, lemma_i64_reads_back, lemma_stands_apart, lemma_u64_reads_back, texts,
};
use crate::stream::{stream_id, stream_listpack, MAX_STREAM_ENTRIES};
use crate::streams;
use crate::types::{
    ModuleDataV, ModuleValueV, RdbErrorV, RdbValueV, StreamDataV, StreamEntryV,
};
use crate::values;
use crate::wire;
use crate::wire::{length_text, stands_at, string_text, Parsed, SourceV, MAX_ALLOC_BYTES};
use vstd::prelude::*;

verus! {

// ---- Modules ----

/// The name of a module is nine characters of six bits each, the highest first, above the ten
/// bits of the version. They stand for the letters, the digits, a hyphen and an underscore.
pub proof fn law_module_name(id: u64, i: int)
    requires
        0 <= i < 9,
    ensures
        module_name(id).len() == 9,
        module_version(id) == id % 1024,
        ({
            let d = digit((id / 1024) as int, 64, (8 - i) as nat);
            module_name(id)[i] as int == if d < 26 {
                'A' as int + d
            } else if d < 52 {
                'a' as int + d - 26
            } else if d < 62 {
                '0' as int + d - 52
            } else if d == 62 {
                '-' as int
            } else {
                '_' as int
            }
        }),
{
    lemma_name_chars((id / 1024) as nat, 9, i);
}

proof fn lemma_name_chars(id: nat, n: nat, i: int)
    requires
        0 <= i < n,
    ensures
        modules::name_chars(id, n).len() == n,
        modules::name_chars(id, n)[i] == modules::name_char(
            digit(id as int, 64, (n - 1 - i) as nat),
        ),
    decreases n,
{
    vstd::arithmetic::power::lemma_pow0(64);
    if n > 1 {
        lemma_name_chars(
            id / 64,
            (n - 1) as nat,
            if i < n - 1 {
                i
            } else {
                0
            },
        );
        if i < n - 1 {
            crate::numerals::lemma_digit_above(id as int, 64, (n - 2 - i) as nat);
        }
    } else {
        assert(modules::name_chars(id / 64, 0).len() == 0);
    }
    crate::numerals::lemma_digit_above(id as int, 64, 0);
}

/// What is written for a value of a module: a number that tells its kind, and the value.
pub open spec fn item_writer() -> spec_fn(ModuleValueV) -> Seq<u8> {
    |v: ModuleValueV|
        match v {
            ModuleValueV::SignedInt(n) => length_text(1) + length_text(
                unsigned(n as int, 0x8000_0000_0000_0000) as u64,
            ),
            ModuleValueV::UnsignedInt(n) => length_text(2) + length_text(n),
            ModuleValueV::Float(x) => length_text(3) + le_bytes(x.bits as nat, 4),
            ModuleValueV::Double(x) => length_text(4) + le_bytes(x.bits as nat, 8),
            ModuleValueV::String(b) => length_text(5) + string_text(b),
        }
}

/// Whether a value can be written: a string has to be within the limit.
pub open spec fn item_fits(v: ModuleValueV) -> bool {
    v matches ModuleValueV::String(b) ==> b.len() <= MAX_ALLOC_BYTES
}

/// The bytes of the strings among values.
pub open spec fn strings_size(values: Seq<ModuleValueV>) -> nat
    decreases values.len(),
{
    if values.len() == 0 {
        0
    } else {
        (match values[0] {
            ModuleValueV::String(b) => b.len(),
            _ => 0,
        }) + strings_size(values.drop_first())
    }
}

#[verifier::spinoff_prover]
pub proof fn lemma_item_reads_back(s: SourceV, p: int, v: ModuleValueV)
    requires
        item_fits(v),
        stands_at(s, p, item_writer()(v)),
    ensures
        module_item(s, p) == Ok::<(Option<ModuleValueV>, int), RdbErrorV>(
            (Some(v), p + item_writer()(v).len()),
        ),
{
    match v {
        ModuleValueV::SignedInt(n) => {
            let bits = unsigned(n as int, 0x8000_0000_0000_0000) as u64;
            lemma_stands_apart(s, p, length_text(1), length_text(bits));
            wire::law_length_reads_back(s, p, 1);
            wire::law_length_reads_back(s, p + length_text(1).len(), bits);
        },
        ModuleValueV::UnsignedInt(n) => {
            lemma_stands_apart(s, p, length_text(2), length_text(n));
            wire::law_length_reads_back(s, p, 2);
            wire::law_length_reads_back(s, p + length_text(2).len(), n);
        },
        ModuleValueV::Float(x) => {
            let b = le_bytes(x.bits as nat, 4);
            lemma_le_bytes(x.bits as nat, 4);
            lemma_stands_apart(s, p, length_text(3), b);
            wire::law_length_reads_back(s, p, 3);
            let q = p + length_text(3).len();
            let here = s.bytes.subrange(q, q + 4);
            assert(here.subrange(0, 4) == b);
            law_le_reads_back(here, 0, x.bits as nat);
        },
        ModuleValueV::Double(x) => {
            lemma_le_bytes(x.bits as nat, 8);
            lemma_stands_apart(s, p, length_text(4), le_bytes(x.bits as nat, 8));
            wire::law_length_reads_back(s, p, 4);
            lemma_u64_reads_back(s, p + length_text(4).len(), x.bits);
        },
        ModuleValueV::String(b) => {
            lemma_stands_apart(s, p, length_text(5), string_text(b));
            wire::law_length_reads_back(s, p, 5);
            wire::law_string_reads_back(s, p + length_text(5).len(), b);
        },
    }
}

#[verifier::spinoff_prover]
#[verifier::rlimit(40)]
proof fn lemma_items_read_back(
    s: SourceV,
    p: int,
    acc: Seq<ModuleValueV>,
    used: nat,
    rest: Seq<ModuleValueV>,
)
    requires
        forall|i: int| 0 <= i < rest.len() ==> item_fits(#[trigger] rest[i]),
        acc.len() + rest.len() <= MAX_MODULE_VALUES,
        used + strings_size(rest) <= MAX_MODULE_STRING_BYTES,
        stands_at(s, p, texts(item_writer(), rest) + length_text(0)),
    ensures
        module_list(s, p, acc, used) == Ok::<(Seq<ModuleValueV>, int), RdbErrorV>(
            (acc + rest, p + (texts(item_writer(), rest) + length_text(0)).len()),
        ),
    decreases rest.len(),
{
    if rest.len() == 0 {
        assert(texts(item_writer(), rest) + length_text(0) == length_text(0));
        wire::law_length_reads_back(s, p, 0);
        assert(acc + rest == acc);
    } else {
        let v = rest[0];
        let later = rest.drop_first();
        let w = item_writer()(v);
        let tail = texts(item_writer(), later) + length_text(0);
        assert(texts(item_writer(), rest) + length_text(0) == w + tail);
        lemma_stands_apart(s, p, w, tail);
        assert(item_fits(rest[0]));
        lemma_item_reads_back(s, p, v);
        modules::lemma_module_item_moves_on(s, p);
        assert forall|i: int| 0 <= i < later.len() implies item_fits(#[trigger] later[i]) by {
            assert(later[i] == rest[i + 1]);
        }
        lemma_items_read_back(s, p + w.len(), acc.push(v), used + string_size(v), later);
        assert(acc.push(v) + later == acc + rest);
    }
}

/// A module value that was written is read back: the name and the version of its ID, and its
/// values, of which each has the kind and the content that was written.
pub proof fn law_module_reads_back(s: SourceV, p: int, id: u64, items: Seq<ModuleValueV>)
    requires
        forall|i: int| 0 <= i < items.len() ==> item_fits(#[trigger] items[i]),
        items.len() <= MAX_MODULE_VALUES,
        strings_size(items) <= MAX_MODULE_STRING_BYTES,
        stands_at(s, p, length_text(id) + (texts(item_writer(), items) + length_text(0))),
    ensures
        values::value(s, RDB_TYPE_MODULE_2, p) == Ok::<(Option<RdbValueV>, int), RdbErrorV>(
            (
                Some(
                    RdbValueV::Module(
                        ModuleDataV {
                            module_name: module_name(id),
                            module_version: module_version(id),
                            values: items,
                        },
                    ),
                ),
                p + (length_text(id) + (texts(item_writer(), items) + length_text(0))).len(),
            ),
        ),
{
    let tail = texts(item_writer(), items) + length_text(0);
    lemma_module_value(s, p, id, items);
    lemma_as_module(
        s,
        p,
        ModuleDataV {
            module_name: module_name(id),
            module_version: module_version(id),
            values: items,
        },
        p + (length_text(id) + tail).len(),
    );
}

proof fn lemma_module_value(s: SourceV, p: int, id: u64, items: Seq<ModuleValueV>)
    requires
        forall|i: int| 0 <= i < items.len() ==> item_fits(#[trigger] items[i]),
        items.len() <= MAX_MODULE_VALUES,
        strings_size(items) <= MAX_MODULE_STRING_BYTES,
        stands_at(s, p, length_text(id) + (texts(item_writer(), items) + length_text(0))),
    ensures
        values::module_value(s, p) == Ok::<(ModuleDataV, int), RdbErrorV>(
            (
                ModuleDataV {
                    module_name: module_name(id),
                    module_version: module_version(id),
                    values: items,
                },
                p + (length_text(id) + (texts(item_writer(), items) + length_text(0))).len(),
            ),
        ),
{
    let tail = texts(item_writer(), items) + length_text(0);
    lemma_stands_apart(s, p, length_text(id), tail);
    wire::law_length_reads_back(s, p, id);
    lemma_items_read_back(s, p + length_text(id).len(), Seq::empty(), 0, items);
    assert(Seq::<ModuleValueV>::empty() + items == items);
}

proof fn lemma_as_module(s: SourceV, p: int, m: ModuleDataV, q: int)
    requires
        values::module_value(s, p) == Ok::<(ModuleDataV, int), RdbErrorV>((m, q)),
    ensures
        values::value(s, RDB_TYPE_MODULE_2, p) == Ok::<(Option<RdbValueV>, int), RdbErrorV>(
            (Some(RdbValueV::Module(m)), q),
        ),
{
}

// ---- Rows of readings ----

/// Readings in a row, each of which reads back what was written for an item.
proof fn lemma_row_reads_back<T, U>(
    s: SourceV,
    g: spec_fn(int) -> Parsed<T>,
    f: spec_fn(U) -> Seq<u8>,
    v: spec_fn(U) -> T,
    p: int,
    items: Seq<U>,
)
    requires
        stands_at(s, p, texts(f, items)),
        forall|q: int, i: int|
            0 <= i < items.len() && stands_at(s, q, f(#[trigger] items[i])) ==> #[trigger] g(q)
                == Ok::<(T, int), RdbErrorV>((v(items[i]), q + f(items[i]).len())),
    ensures
        wire::repeat(g, p, items.len()) == Ok::<(Seq<T>, int), RdbErrorV>(
            (items.map_values(v), p + texts(f, items).len()),
        ),
    decreases items.len(),
{
    if items.len() == 0 {
        assert(items.map_values(v) == Seq::<T>::empty());
    } else {
        let rest = items.drop_first();
        lemma_stands_apart(s, p, f(items[0]), texts(f, rest));
        let q = p + f(items[0]).len();
        assert(g(p) == Ok::<(T, int), RdbErrorV>((v(items[0]), q)));
        assert forall|x: int, i: int|
            0 <= i < rest.len() && stands_at(s, x, f(#[trigger] rest[i])) implies #[trigger] g(x)
            == Ok::<(T, int), RdbErrorV>((v(rest[i]), x + f(rest[i]).len())) by {
            assert(rest[i] == items[i + 1]);
        }
        lemma_row_reads_back(s, g, f, v, q, rest);
        wire::lemma_repeat_split(g, p, 1, rest.len());
        reveal_with_fuel(wire::repeat, 2);
        let one = Seq::<T>::empty().push(v(items[0]));
        assert(one + rest.map_values(v) == items.map_values(v));
    }
}

/// What is written for a plain length.
pub open spec fn length_writer() -> spec_fn(u64) -> Seq<u8> {
    |n: u64| length_text(n)
}

pub proof fn lemma_lengths_read_back(s: SourceV, p: int, lengths: Seq<u64>)
    requires
        stands_at(s, p, texts(length_writer(), lengths)),
    ensures
        lengths_read(s, p, lengths, p + texts(length_writer(), lengths).len()),
{
    reveal(lengths_read);
    let g = streams::length_fn(s);
    let f = length_writer();
    let v = |n: u64| n;
    assert forall|q: int, i: int|
        0 <= i < lengths.len() && stands_at(s, q, f(#[trigger] lengths[i])) implies #[trigger] g(q)
        == Ok::<(u64, int), RdbErrorV>((v(lengths[i]), q + f(lengths[i]).len())) by {
        wire::law_length_reads_back(s, q, lengths[i]);
    }
    lemma_row_reads_back(s, g, f, v, p, lengths);
    assert(lengths.map_values(v) == lengths);
}

// ---- Consumer groups ----

/// A consumer: its name, when it was seen and when it was active, and the IDs of what is
/// pending with it.
pub struct ConsumerText {
    pub name: Seq<u8>,
    pub seen: i64,
    pub active: i64,
    pub pending: Seq<Seq<u8>>,
}

/// A consumer group: its name, the last ID, how much it has read, what is pending (an ID, a
/// time and a count), and its consumers.
pub struct GroupText {
    pub name: Seq<u8>,
    pub lengths: Seq<u64>,
    pub pending: Seq<(Seq<u8>, i64, u64)>,
    pub consumers: Seq<ConsumerText>,
}

/// What is written for an ID of sixteen bytes.
pub open spec fn id_writer() -> spec_fn(Seq<u8>) -> Seq<u8> {
    |b: Seq<u8>| b
}

/// What is written for a pending entry.
pub open spec fn pending_writer() -> spec_fn((Seq<u8>, i64, u64)) -> Seq<u8> {
    |x: (Seq<u8>, i64, u64)| x.0 + (i64_text(x.1) + length_text(x.2))
}

/// What is written for a consumer; the time when it was active from the third version on.
#[verifier::opaque]
pub open spec fn consumer_text(c: ConsumerText, t: u8) -> Seq<u8> {
    string_text(c.name) + (i64_text(c.seen) + ((if t >= RDB_TYPE_STREAM_LISTPACKS_3 {
        i64_text(c.active)
    } else {
        Seq::empty()
    }) + (length_text(c.pending.len() as u64) + texts(id_writer(), c.pending))))
}

/// Writing consumers.
pub open spec fn consumer_writer(t: u8) -> spec_fn(ConsumerText) -> Seq<u8> {
    |c: ConsumerText| consumer_text(c, t)
}

/// What is written for a consumer group.
#[verifier::opaque]
pub open spec fn group_text(g: GroupText, t: u8) -> Seq<u8> {
    string_text(g.name) + (texts(length_writer(), g.lengths) + (length_text(
        g.pending.len() as u64,
    ) + (texts(pending_writer(), g.pending) + (length_text(g.consumers.len() as u64) + texts(
        consumer_writer(t),
        g.consumers,
    )))))
}

/// Writing consumer groups.
pub open spec fn group_writer(t: u8) -> spec_fn(GroupText) -> Seq<u8> {
    |g: GroupText| group_text(g, t)
}

/// Whether a consumer can be written.
pub open spec fn consumer_fits(c: ConsumerText) -> bool {
    &&& c.name.len() <= MAX_ALLOC_BYTES
    &&& c.pending.len() <= MAX_ALLOC_BYTES
    &&& forall|i: int| 0 <= i < c.pending.len() ==> (#[trigger] c.pending[i]).len() == 16
}

/// Whether a consumer group can be written: it has two lengths, or three from the second
/// version on.
#[verifier::opaque]
pub open spec fn group_fits(g: GroupText, t: u8) -> bool {
    &&& g.name.len() <= MAX_ALLOC_BYTES
    &&& g.lengths.len() == if t >= RDB_TYPE_STREAM_LISTPACKS_2 {
        3nat
    } else {
        2
    }
    &&& g.pending.len() <= MAX_ALLOC_BYTES
    &&& forall|i: int| 0 <= i < g.pending.len() ==> (#[trigger] g.pending[i]).0.len() == 16
    &&& g.consumers.len() <= MAX_ALLOC_BYTES
    &&& forall|i: int| 0 <= i < g.consumers.len() ==> consumer_fits(#[trigger] g.consumers[i])
}

proof fn lemma_consumer_reads_back(s: SourceV, p: int, t: u8, c: ConsumerText)
    requires
        consumer_fits(c),
        stands_at(s, p, consumer_text(c, t)),
    ensures
        streams::consumer(s, t, p) == Ok::<((), int), RdbErrorV>(
            ((), p + consumer_text(c, t).len()),
        ),
{
    reveal(consumer_text);
    let active = if t >= RDB_TYPE_STREAM_LISTPACKS_3 {
        i64_text(c.active)
    } else {
        Seq::empty()
    };
    let ids = texts(id_writer(), c.pending);
    let n = length_text(c.pending.len() as u64);
    let p1 = p + string_text(c.name).len();
    let p2 = p1 + i64_text(c.seen).len();
    let p3 = p2 + active.len();
    let p4 = p3 + n.len();
    lemma_stands_apart(s, p, string_text(c.name), i64_text(c.seen) + (active + (n + ids)));
    lemma_stands_apart(s, p1, i64_text(c.seen), active + (n + ids));
    lemma_stands_apart(s, p2, active, n + ids);
    lemma_stands_apart(s, p3, n, ids);
    wire::law_string_reads_back(s, p, c.name);
    lemma_i64_reads_back(s, p1, c.seen);
    if t >= RDB_TYPE_STREAM_LISTPACKS_3 {
        lemma_i64_reads_back(s, p2, c.active);
    }
    wire::law_length_reads_back(s, p3, c.pending.len() as u64);
    let g = streams::id_fn(s);
    let f = id_writer();
    assert forall|q: int, i: int|
        0 <= i < c.pending.len() && stands_at(s, q, f(#[trigger] c.pending[i])) implies #[trigger] g(
        q,
    ) == Ok::<(Seq<u8>, int), RdbErrorV>((c.pending[i], q + f(c.pending[i]).len())) by {}
    lemma_row_reads_back(s, g, f, |b: Seq<u8>| b, p4, c.pending);
}

proof fn lemma_pending_reads_back(s: SourceV, p: int, pending: Seq<(Seq<u8>, i64, u64)>)
    requires
        forall|i: int| 0 <= i < pending.len() ==> (#[trigger] pending[i]).0.len() == 16,
        stands_at(s, p, texts(pending_writer(), pending)),
    ensures
        wire::repeat(streams::pending_fn(s), p, pending.len()) matches Ok((_, q)) && q == p + texts(
            pending_writer(),
            pending,
        ).len(),
{
    let g = streams::pending_fn(s);
    let f = pending_writer();
    let v = |x: (Seq<u8>, i64, u64)| ();
    assert forall|q: int, i: int|
        0 <= i < pending.len() && stands_at(s, q, f(#[trigger] pending[i])) implies #[trigger] g(q)
        == Ok::<((), int), RdbErrorV>((v(pending[i]), q + f(pending[i]).len())) by {
        let x = pending[i];
        let time = i64_text(x.1);
        lemma_stands_apart(s, q, x.0, time + length_text(x.2));
        lemma_stands_apart(s, q + 16, time, length_text(x.2));
        lemma_i64_reads_back(s, q + 16, x.1);
        wire::law_length_reads_back(s, q + 24, x.2);
    }
    lemma_row_reads_back(s, g, f, v, p, pending);
}

#[verifier::spinoff_prover]
proof fn lemma_group_reads_back(s: SourceV, p: int, t: u8, x: GroupText)
    requires
        group_fits(x, t),
        stands_at(s, p, group_text(x, t)),
    ensures
        streams::group(s, t, p) == Ok::<((), int), RdbErrorV>(((), p + group_text(x, t).len())),
{
    reveal(group_text);
    reveal(group_fits);
    reveal(lengths_read);
    let name = string_text(x.name);
    let lengths = texts(length_writer(), x.lengths);
    let n = length_text(x.pending.len() as u64);
    let pending = texts(pending_writer(), x.pending);
    let m = length_text(x.consumers.len() as u64);
    let consumers = texts(consumer_writer(t), x.consumers);
    let p1 = p + name.len();
    let p2 = p1 + lengths.len();
    let p3 = p2 + n.len();
    let p4 = p3 + pending.len();
    let p5 = p4 + m.len();
    lemma_stands_apart(s, p, name, lengths + (n + (pending + (m + consumers))));
    lemma_stands_apart(s, p1, lengths, n + (pending + (m + consumers)));
    lemma_stands_apart(s, p2, n, pending + (m + consumers));
    lemma_stands_apart(s, p3, pending, m + consumers);
    lemma_stands_apart(s, p4, m, consumers);
    wire::law_string_reads_back(s, p, x.name);
    lemma_lengths_read_back(s, p1, x.lengths);
    wire::law_length_reads_back(s, p2, x.pending.len() as u64);
    lemma_pending_reads_back(s, p3, x.pending);
    wire::law_length_reads_back(s, p4, x.consumers.len() as u64);
    let g = streams::consumer_fn(s, t);
    let f = consumer_writer(t);
    let v = |c: ConsumerText| ();
    assert forall|q: int, i: int|
        0 <= i < x.consumers.len() && stands_at(s, q, f(#[trigger] x.consumers[i]))
            implies #[trigger] g(q) == Ok::<((), int), RdbErrorV>(
        (v(x.consumers[i]), q + f(x.consumers[i]).len()),
    ) by {
        lemma_consumer_reads_back(s, q, t, x.consumers[i]);
    }
    lemma_row_reads_back(s, g, f, v, p5, x.consumers);
}

/// What is written for the consumer groups of a stream: their number, and each.
#[verifier::opaque]
pub open spec fn groups_text(t: u8, gs: Seq<GroupText>) -> Seq<u8> {
    length_text(gs.len() as u64) + texts(group_writer(t), gs)
}

#[verifier::spinoff_prover]
proof fn lemma_groups_read_back(s: SourceV, p: int, t: u8, gs: Seq<GroupText>)
    requires
        gs.len() <= MAX_ALLOC_BYTES,
        forall|i: int| 0 <= i < gs.len() ==> group_fits(#[trigger] gs[i], t),
        stands_at(s, p, groups_text(t, gs)),
    ensures
        groups_read(s, t, p, p + groups_text(t, gs).len()),
{
    reveal(groups_read);
    reveal(groups_text);
    let n = length_text(gs.len() as u64);
    lemma_stands_apart(s, p, n, texts(group_writer(t), gs));
    wire::law_length_reads_back(s, p, gs.len() as u64);
    let g = streams::group_fn(s, t);
    let f = group_writer(t);
    let v = |x: GroupText| ();
    assert forall|q: int, i: int|
        0 <= i < gs.len() && stands_at(s, q, f(#[trigger] gs[i])) implies #[trigger] g(q) == Ok::<
        ((), int),
        RdbErrorV,
    >((v(gs[i]), q + f(gs[i]).len())) by {
        lemma_group_reads_back(s, q, t, gs[i]);
    }
    lemma_row_reads_back(s, g, f, v, p + n.len(), gs);
}

// ---- Streams ----

/// What is written for a listpack of a stream: its master ID and its blob.
pub open spec fn pair_writer() -> spec_fn((Seq<u8>, Seq<u8>)) -> Seq<u8> {
    |x: (Seq<u8>, Seq<u8>)| string_text(x.0) + string_text(x.1)
}

/// The entries of listpacks in a row.
pub open spec fn all_entries(lists: Seq<Seq<StreamEntryV>>) -> Seq<StreamEntryV>
    decreases lists.len(),
{
    if lists.len() == 0 {
        Seq::empty()
    } else {
        all_entries(lists.drop_last()) + lists.last()
    }
}

/// Whether the listpacks of a stream, behind their master IDs, hold the given entries.
#[verifier::opaque]
pub open spec fn listpacks_hold(
    pairs: Seq<(Seq<u8>, Seq<u8>)>,
    lists: Seq<Seq<StreamEntryV>>,
) -> bool {
    &&& pairs.len() == lists.len()
    &&& all_entries(lists).len() <= MAX_STREAM_ENTRIES
    &&& forall|i: int|
        0 <= i < pairs.len() ==> (#[trigger] pairs[i]).0.len() == 16 && pairs[i].0.len()
            <= MAX_ALLOC_BYTES && pairs[i].1.len() <= MAX_ALLOC_BYTES && forall|budget: int|
            budget >= lists[i].len() ==> #[trigger] stream_listpack(
                be64(pairs[i].0, 0) as u64,
                be64(pairs[i].0, 8) as u64,
                pairs[i].1,
                budget,
            ) == Ok::<Seq<StreamEntryV>, RdbErrorV>(lists[i])
}

proof fn lemma_decoded(pairs: Seq<(Seq<u8>, Seq<u8>)>, lists: Seq<Seq<StreamEntryV>>)
    requires
        listpacks_hold(pairs, lists),
    ensures
        entries_read(pairs, all_entries(lists)),
        all_entries(lists).len() <= MAX_STREAM_ENTRIES,
    decreases pairs.len(),
{
    reveal(listpacks_hold);
    reveal(entries_read);
    if pairs.len() > 0 {
        let front = pairs.drop_last();
        let some = lists.drop_last();
        assert(listpacks_hold(front, some)) by {
            assert forall|i: int| 0 <= i < front.len() implies (#[trigger] front[i]).0.len() == 16
                && front[i].0.len() <= MAX_ALLOC_BYTES && front[i].1.len() <= MAX_ALLOC_BYTES
                && forall|budget: int|
                budget >= some[i].len() ==> #[trigger] stream_listpack(
                    be64(front[i].0, 0) as u64,
                    be64(front[i].0, 8) as u64,
                    front[i].1,
                    budget,
                ) == Ok::<Seq<StreamEntryV>, RdbErrorV>(some[i]) by {
                assert(front[i] == pairs[i] && some[i] == lists[i]);
            }
        }
        lemma_decoded(front, some);
        let k = pairs.len() - 1;
        assert(pairs[k].0.len() == 16);
        let acc = all_entries(some);
        let budget = MAX_STREAM_ENTRIES - acc.len();
        assert(stream_listpack(
            be64(pairs[k].0, 0) as u64,
            be64(pairs[k].0, 8) as u64,
            pairs[k].1,
            budget,
        ) == Ok::<Seq<StreamEntryV>, RdbErrorV>(lists[k]));
    } else {
        assert(all_entries(lists) == Seq::<StreamEntryV>::empty());
    }
}

/// What is written for a stream: its listpacks, the number of its entries, the last ID, five
/// more lengths from the second version on, and its consumer groups.
pub open spec fn stream_text(
    t: u8,
    pairs: Seq<(Seq<u8>, Seq<u8>)>,
    count: u64,
    ms: u64,
    seq: u64,
    more: Seq<u64>,
    gs: Seq<GroupText>,
) -> Seq<u8> {
    length_text(pairs.len() as u64) + (texts(pair_writer(), pairs) + (texts(
        length_writer(),
        seq![count, ms, seq],
    ) + (texts(length_writer(), more) + groups_text(t, gs))))
}

/// A stream that was written, of any version, is read back: the entries of its listpacks in
/// order, their number and the last ID. Its consumer groups are passed over.
pub proof fn law_stream_value_reads_back(
    s: SourceV,
    p: int,
    t: u8,
    pairs: Seq<(Seq<u8>, Seq<u8>)>,
    lists: Seq<Seq<StreamEntryV>>,
    ms: u64,
    seq: u64,
    more: Seq<u64>,
    gs: Seq<GroupText>,
)
    requires
        t == RDB_TYPE_STREAM_LISTPACKS || t == RDB_TYPE_STREAM_LISTPACKS_2 || t
            == RDB_TYPE_STREAM_LISTPACKS_3,
        pairs.len() <= MAX_ALLOC_BYTES,
        listpacks_hold(pairs, lists),
        more.len() == if t == RDB_TYPE_STREAM_LISTPACKS {
            0nat
        } else {
            5
        },
        gs.len() <= MAX_ALLOC_BYTES,
        forall|i: int| 0 <= i < gs.len() ==> group_fits(#[trigger] gs[i], t),
        stands_at(
            s,
            p,
            stream_text(t, pairs, all_entries(lists).len() as u64, ms, seq, more, gs),
        ),
    ensures
        values::value(s, t, p) == Ok::<(Option<RdbValueV>, int), RdbErrorV>(
            (
                Some(
                    RdbValueV::Stream(
                        StreamDataV {
                            entries: all_entries(lists),
                            length: all_entries(lists).len() as u64,
                            last_id: crate::text::dec(ms as int) + "-"@ + crate::text::dec(
                                seq as int,
                            ),
                        },
                    ),
                ),
                p + stream_text(
                    t,
                    pairs,
                    all_entries(lists).len() as u64,
                    ms,
                    seq,
                    more,
                    gs,
                ).len(),
            ),
        ),
{
    let count = all_entries(lists).len() as u64;
    let d = StreamDataV {
        entries: all_entries(lists),
        length: count,
        last_id: stream_id(ms as int, seq as int),
    };
    lemma_stream_value(s, p, t, pairs, lists, ms, seq, more, gs);
    lemma_as_stream(s, p, t, d, p + stream_text(t, pairs, count, ms, seq, more, gs).len());
}

proof fn lemma_as_stream(s: SourceV, p: int, t: u8, d: StreamDataV, q: int)
    requires
        t == RDB_TYPE_STREAM_LISTPACKS || t == RDB_TYPE_STREAM_LISTPACKS_2 || t
            == RDB_TYPE_STREAM_LISTPACKS_3,
        stream_reads(s, t, p, q, d),
    ensures
        values::value(s, t, p) == Ok::<(Option<RdbValueV>, int), RdbErrorV>(
            (Some(RdbValueV::Stream(d)), q),
        ),
{
    reveal(stream_reads);
}

/// Whether a size stands at `p` and ends at `q`.
#[verifier::opaque]
spec fn size_reads(s: SourceV, p: int, what: Seq<char>, n: nat, q: int) -> bool {
    wire::size(s, p, what) == Ok::<(nat, int), RdbErrorV>((n, q))
}

/// Whether listpacks behind their master IDs stand at `p` and end at `q`.
#[verifier::opaque]
spec fn pairs_read(s: SourceV, p: int, pairs: Seq<(Seq<u8>, Seq<u8>)>, q: int) -> bool {
    wire::repeat(streams::pair_fn(s), p, pairs.len()) == Ok::<
        (Seq<(Seq<u8>, Seq<u8>)>, int),
        RdbErrorV,
    >((pairs, q))
}

/// Whether lengths stand at `p` and end at `q`.
#[verifier::opaque]
pub open spec fn lengths_read(s: SourceV, p: int, lengths: Seq<u64>, q: int) -> bool {
    wire::repeat(streams::length_fn(s), p, lengths.len()) == Ok::<(Seq<u64>, int), RdbErrorV>(
        (lengths, q),
    )
}

/// Whether consumer groups stand at `p` and end at `q`.
#[verifier::opaque]
spec fn groups_read(s: SourceV, t: u8, p: int, q: int) -> bool {
    streams::groups(s, t, p) == Ok::<((), int), RdbErrorV>(((), q))
}

/// Whether listpacks decode to the given entries.
#[verifier::opaque]
spec fn entries_read(pairs: Seq<(Seq<u8>, Seq<u8>)>, entries: Seq<StreamEntryV>) -> bool {
    streams::decoded(pairs) == Ok::<Seq<StreamEntryV>, RdbErrorV>(entries)
}

/// Whether the stream at `p` is `d` and ends at `q`.
#[verifier::opaque]
spec fn stream_reads(s: SourceV, t: u8, p: int, q: int, d: StreamDataV) -> bool {
    streams::stream_value(s, t, p) == Ok::<(StreamDataV, int), RdbErrorV>((d, q))
}

#[verifier::spinoff_prover]
proof fn lemma_stream_steps(
    s: SourceV,
    t: u8,
    p: int,
    q: Seq<int>,
    pairs: Seq<(Seq<u8>, Seq<u8>)>,
    meta: Seq<u64>,
    more: Seq<u64>,
    entries: Seq<StreamEntryV>,
)
    requires
        size_reads(s, p, "stream listpack count"@, pairs.len(), q[0]),
        pairs_read(s, q[0], pairs, q[1]),
        meta.len() == 3,
        lengths_read(s, q[1], meta, q[2]),
        more.len() == if t >= RDB_TYPE_STREAM_LISTPACKS_2 {
            5nat
        } else {
            0
        },
        lengths_read(s, q[2], more, q[3]),
        groups_read(s, t, q[3], q[4]),
        entries_read(pairs, entries),
        meta[0] == entries.len(),
    ensures
        stream_reads(
            s,
            t,
            p,
            q[4],
            StreamDataV {
                entries,
                length: meta[0],
                last_id: stream_id(meta[1] as int, meta[2] as int),
            },
        ),
{
    reveal(size_reads);
    reveal(pairs_read);
    reveal(lengths_read);
    reveal(groups_read);
    reveal(entries_read);
    reveal(stream_reads);
}

proof fn lemma_five_apart(
    s: SourceV,
    p: int,
    a: Seq<u8>,
    b: Seq<u8>,
    c: Seq<u8>,
    d: Seq<u8>,
    e: Seq<u8>,
)
    requires
        stands_at(s, p, a + (b + (c + (d + e)))),
    ensures
        stands_at(s, p, a),
        stands_at(s, p + a.len(), b),
        stands_at(s, p + a.len() + b.len(), c),
        stands_at(s, p + a.len() + b.len() + c.len(), d),
        stands_at(s, p + a.len() + b.len() + c.len() + d.len(), e),
        p + (a + (b + (c + (d + e)))).len() == p + a.len() + b.len() + c.len() + d.len() + e.len(),
{
    lemma_stands_apart(s, p, a, b + (c + (d + e)));
    lemma_stands_apart(s, p + a.len(), b, c + (d + e));
    lemma_stands_apart(s, p + a.len() + b.len(), c, d + e);
    lemma_stands_apart(s, p + a.len() + b.len() + c.len(), d, e);
}

proof fn lemma_size_reads_back(s: SourceV, p: int, n: nat, what: Seq<char>)
    requires
        n <= MAX_ALLOC_BYTES,
        stands_at(s, p, length_text(n as u64)),
    ensures
        size_reads(s, p, what, n, p + length_text(n as u64).len()),
{
    reveal(size_reads);
    wire::law_length_reads_back(s, p, n as u64);
}

#[verifier::spinoff_prover]
proof fn lemma_stream_value(
    s: SourceV,
    p: int,
    t: u8,
    pairs: Seq<(Seq<u8>, Seq<u8>)>,
    lists: Seq<Seq<StreamEntryV>>,
    ms: u64,
    seq: u64,
    more: Seq<u64>,
    gs: Seq<GroupText>,
)
    requires
        t == RDB_TYPE_STREAM_LISTPACKS || t == RDB_TYPE_STREAM_LISTPACKS_2 || t
            == RDB_TYPE_STREAM_LISTPACKS_3,
        pairs.len() <= MAX_ALLOC_BYTES,
        listpacks_hold(pairs, lists),
        more.len() == if t == RDB_TYPE_STREAM_LISTPACKS {
            0nat
        } else {
            5
        },
        gs.len() <= MAX_ALLOC_BYTES,
        forall|i: int| 0 <= i < gs.len() ==> group_fits(#[trigger] gs[i], t),
        stands_at(
            s,
            p,
            stream_text(t, pairs, all_entries(lists).len() as u64, ms, seq, more, gs),
        ),
    ensures
        stream_reads(
            s,
            t,
            p,
            p + stream_text(t, pairs, all_entries(lists).len() as u64, ms, seq, more, gs).len(),
            StreamDataV {
                entries: all_entries(lists),
                length: all_entries(lists).len() as u64,
                last_id: stream_id(ms as int, seq as int),
            },
        ),
{
    let count = all_entries(lists).len() as u64;
    let n = length_text(pairs.len() as u64);
    let listpacks = texts(pair_writer(), pairs);
    let three = seq![count, ms, seq];
    let meta = texts(length_writer(), three);
    let extra = texts(length_writer(), more);
    let tail = groups_text(t, gs);
    let p1 = p + n.len();
    let p2 = p1 + listpacks.len();
    let p3 = p2 + meta.len();
    let p4 = p3 + extra.len();
    let p5 = p4 + tail.len();
    lemma_five_apart(s, p, n, listpacks, meta, extra, tail);
    lemma_decoded(pairs, lists);
    lemma_size_reads_back(s, p, pairs.len(), "stream listpack count"@);
    lemma_pairs_read_back(s, p1, pairs, lists);
    lemma_lengths_read_back(s, p2, three);
    lemma_lengths_read_back(s, p3, more);
    lemma_groups_read_back(s, p4, t, gs);
    let q = seq![p1, p2, p3, p4, p5];
    assert(q[0] == p1 && q[1] == p2 && q[2] == p3 && q[3] == p4 && q[4] == p5);
    assert(three.len() == 3 && three[0] == count && three[1] == ms && three[2] == seq);
    lemma_stream_steps(s, t, p, q, pairs, three, more, all_entries(lists));
}

proof fn lemma_pair_sizes(
    pairs: Seq<(Seq<u8>, Seq<u8>)>,
    lists: Seq<Seq<StreamEntryV>>,
    i: int,
)
    requires
        listpacks_hold(pairs, lists),
        0 <= i < pairs.len(),
    ensures
        pairs[i].0.len() <= MAX_ALLOC_BYTES,
        pairs[i].1.len() <= MAX_ALLOC_BYTES,
{
    reveal(listpacks_hold);
}

#[verifier::spinoff_prover]
proof fn lemma_pair_reads_back(s: SourceV, p: int, id: Seq<u8>, blob: Seq<u8>)
    requires
        id.len() <= MAX_ALLOC_BYTES,
        blob.len() <= MAX_ALLOC_BYTES,
        stands_at(s, p, string_text(id) + string_text(blob)),
    ensures
        streams::listpack_pair(s, p) == Ok::<((Seq<u8>, Seq<u8>), int), RdbErrorV>(
            ((id, blob), p + (string_text(id) + string_text(blob)).len()),
        ),
{
    let q = p + string_text(id).len();
    let end = q + string_text(blob).len();
    lemma_stands_apart(s, p, string_text(id), string_text(blob));
    assert(wire::string(s, p) == Ok::<(Seq<u8>, int), RdbErrorV>((id, q))) by {
        wire::law_string_reads_back(s, p, id);
    }
    assert(wire::string(s, q) == Ok::<(Seq<u8>, int), RdbErrorV>((blob, end))) by {
        wire::law_string_reads_back(s, q, blob);
    }
}

#[verifier::spinoff_prover]
proof fn lemma_pairs_read_back(
    s: SourceV,
    p: int,
    pairs: Seq<(Seq<u8>, Seq<u8>)>,
    lists: Seq<Seq<StreamEntryV>>,
)
    requires
        listpacks_hold(pairs, lists),
        stands_at(s, p, texts(pair_writer(), pairs)),
    ensures
        pairs_read(s, p, pairs, p + texts(pair_writer(), pairs).len()),
{
    reveal(pairs_read);
    let g = streams::pair_fn(s);
    let f = pair_writer();
    let v = |x: (Seq<u8>, Seq<u8>)| x;
    assert forall|q: int, i: int|
        0 <= i < pairs.len() && stands_at(s, q, f(#[trigger] pairs[i])) implies #[trigger] g(q)
        == Ok::<((Seq<u8>, Seq<u8>), int), RdbErrorV>((v(pairs[i]), q + f(pairs[i]).len())) by {
        lemma_pair_sizes(pairs, lists, i);
        lemma_pair_reads_back(s, q, pairs[i].0, pairs[i].1);
    }
    lemma_row_reads_back(s, g, f, v, p, pairs);
    assert(pairs.map_values(v) == pairs);
}

} // verus!
