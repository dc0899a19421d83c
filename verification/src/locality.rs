//! What is read depends on the bytes that are read, and on nothing else: bytes that stand
//! elsewhere in another input are read in the same way there.

use crate::compact::CompactEntryV;
use crate::listpack;
use crate::lzf;
use crate::modules;
use crate::opcodes;
use crate::reader::{
    aux_field, chunk_step, directive, is_directive, key_step, lemma_directive_moves_on,
    scan, step, ChunkV, ReaderV, StepV,
};
use crate::stream;
use crate::stream::StreamContext;
use crate::streams;
use crate::types::{ModuleValueV, RdbErrorV, StreamEntryV};
use crate::values;
use crate::wire;
use crate::wire::{Parsed, SourceV};
use crate::ziplist;
use vstd::prelude::*;

verus! {

/// Bytes of one input, from `low` up to `high`, that stand `by` places further in another.
pub struct Window {
    pub from: SourceV,
    pub to: SourceV,
    pub low: int,
    pub high: int,
    pub by: int,
}

impl Window {
    /// Whether the bytes are the same in both inputs.
    pub open spec fn matches(self) -> bool {
        &&& 0 <= self.low <= self.high <= self.from.bytes.len()
        &&& 0 <= self.low + self.by
        &&& self.high + self.by <= self.to.bytes.len()
        &&& forall|i: int|
            self.low <= i < self.high ==> #[trigger] self.from.bytes[i] == self.to.bytes[i
                + self.by]
    }
}

/// Whether a result is no error for an unsupported type.
pub open spec fn known<T>(r: Result<T, RdbErrorV>) -> bool {
    r matches Err(e) ==> !(e is UnknownType)
}

/// Whether a reading at `p` that ends within the window is `other` where the bytes stand in
/// the other input, and in no case goes back or fails for an unsupported type.
pub open spec fn moved<T>(w: Window, p: int, r: Parsed<T>, other: Parsed<T>) -> bool {
    &&& known(r)
    &&& r matches Ok((v, q)) ==> p <= q && (q <= w.high ==> other == Ok::<(T, int), RdbErrorV>(
        (v, q + w.by),
    ))
}

pub proof fn lemma_byte(w: Window, p: int)
    requires
        w.matches(),
        w.low <= p,
    ensures
        moved(w, p, wire::byte(w.from, p), wire::byte(w.to, p + w.by)),
{
}

pub proof fn lemma_take(w: Window, p: int, n: int)
    requires
        w.matches(),
        w.low <= p,
    ensures
        moved(w, p, wire::take(w.from, p, n), wire::take(w.to, p + w.by, n)),
{
    if 0 <= n && p + n <= w.high {
        let a = w.from.bytes.subrange(p, p + n);
        let b = w.to.bytes.subrange(p + w.by, p + w.by + n);
        assert forall|i: int| 0 <= i < n implies a[i] == b[i] by {
            assert(w.from.bytes[p + i] == w.to.bytes[p + i + w.by]);
        }
        assert(a == b);
    }
}

pub proof fn lemma_integers(w: Window, p: int)
    requires
        w.matches(),
        w.low <= p,
    ensures
        moved(w, p, wire::i32_le(w.from, p), wire::i32_le(w.to, p + w.by)),
        moved(w, p, wire::u64_le(w.from, p), wire::u64_le(w.to, p + w.by)),
        moved(w, p, wire::i64_le(w.from, p), wire::i64_le(w.to, p + w.by)),
{
    lemma_take(w, p, 4);
    lemma_take(w, p, 8);
}

proof fn lemma_length(w: Window, p: int)
    requires
        w.matches(),
        w.low <= p,
    ensures
        moved(w, p, wire::length(w.from, p), wire::length(w.to, p + w.by)),
        moved(w, p, wire::plain_length(w.from, p), wire::plain_length(w.to, p + w.by)),
        forall|ctx: Seq<char>|
            moved(w, p, #[trigger] wire::size(w.from, p, ctx), wire::size(w.to, p + w.by, ctx)),
{
    lemma_byte(w, p);
    lemma_byte(w, p + 1);
    lemma_take(w, p + 1, 4);
    lemma_take(w, p + 1, 8);
    assert(moved(w, p, wire::length(w.from, p), wire::length(w.to, p + w.by)));
    assert(moved(w, p, wire::plain_length(w.from, p), wire::plain_length(w.to, p + w.by)));
    assert forall|ctx: Seq<char>|
        moved(w, p, #[trigger] wire::size(w.from, p, ctx), wire::size(w.to, p + w.by, ctx)) by {}
}

proof fn lemma_expanded_known(c: Seq<u8>, i: int, out: Seq<u8>, expected: int)
    ensures
        known(lzf::expand(c, i, out, expected)),
    decreases c.len() - i,
{
    if i < c.len() {
        if c[i] < 32 {
            let len = c[i] + 1;
            if i + 1 + len <= c.len() && out.len() + len <= expected {
                lemma_expanded_known(
                    c,
                    i + 1 + len,
                    out + c.subrange(i + 1, i + 1 + len),
                    expected,
                );
            }
        } else if !(c[i] / 32 == 7 && i + 1 >= c.len()) {
            let (len, j) = if c[i] / 32 == 7 {
                (c[i + 1] + 9, i + 2)
            } else {
                (c[i] / 32 + 2, i + 1)
            };
            if j < c.len() {
                let offset = (c[i] % 32) * 256 + c[j] + 1;
                lemma_expanded_known(c, j + 1, lzf::copy_back(out, offset, len as nat), expected);
            }
        }
    }
}

proof fn lemma_lzf_string(w: Window, p: int)
    requires
        w.matches(),
        w.low <= p,
    ensures
        moved(w, p, wire::lzf_string(w.from, p), wire::lzf_string(w.to, p + w.by)),
{
    lemma_length(w, p);
    if let Ok((packed, q)) = wire::size(w.from, p, "LZF compressed length"@) {
        lemma_length(w, q);
        if let Ok((unpacked, q2)) = wire::size(w.from, q, "LZF uncompressed length"@) {
            lemma_take(w, q2, packed as int);
            if let Ok((data, _)) = wire::take(w.from, q2, packed as int) {
                lemma_expanded_known(data, 0, Seq::empty(), unpacked as int);
            }
        }
    }
}

proof fn lemma_string(w: Window, p: int)
    requires
        w.matches(),
        w.low <= p,
    ensures
        moved(w, p, wire::string(w.from, p), wire::string(w.to, p + w.by)),
{
    lemma_length(w, p);
    if let Ok((n, q)) = wire::length(w.from, p) {
        lemma_byte(w, q);
        lemma_take(w, q, 2);
        lemma_integers(w, q);
        lemma_lzf_string(w, q);
        if let wire::LenResult::Len(len) = n {
            lemma_take(w, q, len as int);
        }
    }
}

proof fn lemma_scores(w: Window, p: int)
    requires
        w.matches(),
        w.low <= p,
    ensures
        moved(w, p, wire::text_score(w.from, p), wire::text_score(w.to, p + w.by)),
        moved(w, p, wire::binary_score(w.from, p), wire::binary_score(w.to, p + w.by)),
{
    lemma_byte(w, p);
    lemma_integers(w, p);
    if let Ok((n, q)) = wire::byte(w.from, p) {
        lemma_take(w, q, n as int);
    }
}

proof fn lemma_repeat<T>(
    w: Window,
    f: spec_fn(int) -> Parsed<T>,
    g: spec_fn(int) -> Parsed<T>,
    p: int,
    n: nat,
)
    requires
        w.matches(),
        w.low <= p,
        forall|q: int| w.low <= q ==> moved(w, q, #[trigger] f(q), g(q + w.by)),
    ensures
        moved(w, p, wire::repeat(f, p, n), wire::repeat(g, p + w.by, n)),
    decreases n,
{
    if n > 0 {
        lemma_repeat(w, f, g, p, (n - 1) as nat);
        if let Ok((_, q)) = wire::repeat(f, p, (n - 1) as nat) {
            assert(moved(w, q, f(q), g(q + w.by)));
        }
    }
}

proof fn lemma_lengths(w: Window, p: int, n: nat)
    requires
        w.matches(),
        w.low <= p,
    ensures
        moved(
            w,
            p,
            wire::repeat(streams::length_fn(w.from), p, n),
            wire::repeat(streams::length_fn(w.to), p + w.by, n),
        ),
{
    let f = streams::length_fn(w.from);
    let g = streams::length_fn(w.to);
    assert forall|q: int| w.low <= q implies moved(w, q, #[trigger] f(q), g(q + w.by)) by {
        lemma_length(w, q);
    }
    lemma_repeat(w, f, g, p, n);
}

pub proof fn lemma_aux(w: Window, p: int)
    requires
        w.matches(),
        w.low <= p,
    ensures
        moved(w, p, aux_field(w.from, p), aux_field(w.to, p + w.by)),
{
    lemma_string(w, p);
    if let Ok((_, q)) = wire::string(w.from, p) {
        lemma_string(w, q);
    }
}

// ---- Plain collections ----

proof fn lemma_strings(w: Window, p: int, n: nat)
    requires
        w.matches(),
        w.low <= p,
    ensures
        moved(
            w,
            p,
            wire::repeat(values::string_fn(w.from), p, n),
            wire::repeat(values::string_fn(w.to), p + w.by, n),
        ),
{
    let f = values::string_fn(w.from);
    let g = values::string_fn(w.to);
    assert forall|q: int| w.low <= q implies moved(w, q, #[trigger] f(q), g(q + w.by)) by {
        lemma_string(w, q);
    }
    lemma_repeat(w, f, g, p, n);
}

proof fn lemma_members(w: Window, p: int, n: nat, binary: bool)
    requires
        w.matches(),
        w.low <= p,
    ensures
        moved(
            w,
            p,
            wire::repeat(values::member_fn(w.from, binary), p, n),
            wire::repeat(values::member_fn(w.to, binary), p + w.by, n),
        ),
{
    let f = values::member_fn(w.from, binary);
    let g = values::member_fn(w.to, binary);
    assert forall|q: int| w.low <= q implies moved(w, q, #[trigger] f(q), g(q + w.by)) by {
        lemma_string(w, q);
        if let Ok((_, q2)) = wire::string(w.from, q) {
            lemma_scores(w, q2);
        }
    }
    lemma_repeat(w, f, g, p, n);
}

proof fn lemma_fields(w: Window, p: int, n: nat, with_expiry: bool)
    requires
        w.matches(),
        w.low <= p,
    ensures
        moved(
            w,
            p,
            wire::repeat(values::field_fn(w.from, with_expiry), p, n),
            wire::repeat(values::field_fn(w.to, with_expiry), p + w.by, n),
        ),
{
    let f = values::field_fn(w.from, with_expiry);
    let g = values::field_fn(w.to, with_expiry);
    assert forall|q: int| w.low <= q implies moved(w, q, #[trigger] f(q), g(q + w.by)) by {
        lemma_string(w, q);
        if let Ok((_, q2)) = wire::string(w.from, q) {
            lemma_string(w, q2);
            if let Ok((_, q3)) = wire::string(w.from, q2) {
                lemma_integers(w, q3);
            }
        }
    }
    lemma_repeat(w, f, g, p, n);
}

pub proof fn lemma_elements(w: Window, t: u8, p: int, n: nat)
    requires
        w.matches(),
        w.low <= p,
    ensures
        moved(w, p, values::elements(w.from, t, p, n), values::elements(w.to, t, p + w.by, n)),
{
    reveal(values::elements);
    lemma_strings(w, p, n);
    lemma_members(w, p, n, t == opcodes::RDB_TYPE_ZSET_2);
    lemma_fields(w, p, n, t == opcodes::RDB_TYPE_HASH_2);
}

// ---- Compact collections ----

proof fn lemma_listpack_known(data: Seq<u8>, pos: int)
    ensures
        known(listpack::entries_from(data, pos)),
    decreases data.len() - pos,
{
    if 0 <= pos < data.len() {
        if let Ok((_, n)) = listpack::first_entry(data.skip(pos)) {
            let next = pos + n + listpack::backlen_bytes(n);
            if pos < next <= data.len() {
                lemma_listpack_known(data, next);
            }
        }
    }
}

proof fn lemma_ziplist_known(data: Seq<u8>, pos: int)
    ensures
        known(ziplist::entries_from(data, pos)),
    decreases data.len() - pos,
{
    if 0 <= pos < data.len() {
        if let Ok((_, n)) = ziplist::first_entry(data.skip(pos)) {
            if 0 < n {
                lemma_ziplist_known(data, pos + n);
            }
        }
    }
}

proof fn lemma_scored_known(es: Seq<CompactEntryV>, n: nat)
    ensures
        known(values::scored_pairs(es, n)),
    decreases n,
{
    if n > 0 {
        lemma_scored_known(es, (n - 1) as nat);
    }
}

proof fn lemma_blob_value(w: Window, t: u8, p: int)
    requires
        w.matches(),
        w.low <= p,
    ensures
        moved(w, p, values::blob_value(w.from, t, p), values::blob_value(w.to, t, p + w.by)),
{
    lemma_string(w, p);
    if let Ok((blob, _)) = wire::string(w.from, p) {
        lemma_listpack_known(blob, 6);
        lemma_ziplist_known(blob, 10);
        if let Ok(es) = listpack::entries(blob) {
            lemma_scored_known(es, es.len() / 2);
        }
        if let Ok(es) = ziplist::entries(blob) {
            lemma_scored_known(es, es.len() / 2);
        }
    }
}

proof fn lemma_node(w: Window, p: int, v2: bool)
    requires
        w.matches(),
        w.low <= p,
    ensures
        moved(w, p, values::node(w.from, p, v2), values::node(w.to, p + w.by, v2)),
{
    reveal(values::node);
    lemma_string(w, p);
    lemma_length(w, p);
    if let Ok((blob, _)) = wire::string(w.from, p) {
        lemma_ziplist_known(blob, 10);
    }
    if let Ok((_, q)) = wire::plain_length(w.from, p) {
        lemma_string(w, q);
        if let Ok((blob, _)) = wire::string(w.from, q) {
            lemma_listpack_known(blob, 6);
        }
    }
}

proof fn lemma_quicklist(w: Window, p: int, v2: bool)
    requires
        w.matches(),
        w.low <= p,
    ensures
        moved(w, p, values::quicklist(w.from, p, v2), values::quicklist(w.to, p + w.by, v2)),
{
    lemma_length(w, p);
    if let Ok((n, q)) = wire::size(w.from, p, "element count"@) {
        let f = values::node_fn(w.from, v2);
        let g = values::node_fn(w.to, v2);
        assert forall|x: int| w.low <= x implies moved(w, x, #[trigger] f(x), g(x + w.by)) by {
            lemma_node(w, x, v2);
        }
        lemma_repeat(w, f, g, q, n);
    }
}

// ---- Streams ----

proof fn lemma_records_known(
    es: Seq<CompactEntryV>,
    p: int,
    total: nat,
    c: StreamContext,
    budget: int,
    acc: Seq<StreamEntryV>,
)
    ensures
        known(stream::records(es, p, total, c, budget, acc)),
    decreases total,
{
    if total > 0 {
        match stream::record(es, p, c) {
            Ok((None, q)) => {
                lemma_records_known(es, q, (total - 1) as nat, c, budget, acc);
            },
            Ok((Some(entry), q)) => {
                lemma_records_known(es, q, (total - 1) as nat, c, budget, acc.push(entry));
            },
            Err(_) => {},
        }
    }
}

proof fn lemma_stream_known(master_ms: u64, master_seq: u64, lp: Seq<u8>, budget: int)
    ensures
        known(stream::stream_listpack(master_ms, master_seq, lp, budget)),
{
    lemma_listpack_known(lp, 6);
    assert forall|es: Seq<CompactEntryV>, p: int, total: nat, c: StreamContext| known(
        #[trigger] stream::records(es, p, total, c, budget, Seq::empty()),
    ) by {
        lemma_records_known(es, p, total, c, budget, Seq::empty());
    }
}

proof fn lemma_decoded_known(pairs: Seq<(Seq<u8>, Seq<u8>)>)
    ensures
        known(streams::decoded(pairs)),
    decreases pairs.len(),
{
    if pairs.len() > 0 {
        lemma_decoded_known(pairs.drop_last());
        assert forall|ms: u64, seq: u64, lp: Seq<u8>, budget: int| known(
            #[trigger] stream::stream_listpack(ms, seq, lp, budget),
        ) by {
            lemma_stream_known(ms, seq, lp, budget);
        }
    }
}

proof fn lemma_pairs(w: Window, p: int, n: nat)
    requires
        w.matches(),
        w.low <= p,
    ensures
        moved(
            w,
            p,
            wire::repeat(streams::pair_fn(w.from), p, n),
            wire::repeat(streams::pair_fn(w.to), p + w.by, n),
        ),
{
    let f = streams::pair_fn(w.from);
    let g = streams::pair_fn(w.to);
    assert forall|q: int| w.low <= q implies moved(w, q, #[trigger] f(q), g(q + w.by)) by {
        lemma_string(w, q);
        if let Ok((_, q2)) = wire::string(w.from, q) {
            lemma_string(w, q2);
        }
    }
    lemma_repeat(w, f, g, p, n);
}

proof fn lemma_consumer(w: Window, t: u8, p: int)
    requires
        w.matches(),
        w.low <= p,
    ensures
        moved(w, p, streams::consumer(w.from, t, p), streams::consumer(w.to, t, p + w.by)),
{
    lemma_string(w, p);
    if let Ok((_, q)) = wire::string(w.from, p) {
        lemma_integers(w, q);
        if let Ok((_, q2)) = wire::i64_le(w.from, q) {
            lemma_integers(w, q2);
            let r: Parsed<()> = if t >= opcodes::RDB_TYPE_STREAM_LISTPACKS_3 {
                streams::passed(wire::i64_le(w.from, q2))
            } else {
                Ok(((), q2))
            };
            if let Ok((_, q3)) = r {
                lemma_length(w, q3);
                if let Ok((n, q4)) = wire::size(w.from, q3, "stream consumer PEL count"@) {
                    let f = streams::id_fn(w.from);
                    let g = streams::id_fn(w.to);
                    assert forall|x: int| w.low <= x implies moved(
                        w,
                        x,
                        #[trigger] f(x),
                        g(x + w.by),
                    ) by {
                        lemma_take(w, x, 16);
                    }
                    lemma_repeat(w, f, g, q4, n);
                }
            }
        }
    }
}

proof fn lemma_pending(w: Window, p: int, n: nat)
    requires
        w.matches(),
        w.low <= p,
    ensures
        moved(
            w,
            p,
            wire::repeat(streams::pending_fn(w.from), p, n),
            wire::repeat(streams::pending_fn(w.to), p + w.by, n),
        ),
{
    let f = streams::pending_fn(w.from);
    let g = streams::pending_fn(w.to);
    assert forall|q: int| w.low <= q implies moved(w, q, #[trigger] f(q), g(q + w.by)) by {
        lemma_take(w, q, 16);
        if let Ok((_, q2)) = wire::take(w.from, q, 16) {
            lemma_integers(w, q2);
            if let Ok((_, q3)) = wire::i64_le(w.from, q2) {
                lemma_length(w, q3);
            }
        }
    }
    lemma_repeat(w, f, g, p, n);
}

proof fn lemma_group_consumers(w: Window, t: u8, p: int)
    requires
        w.matches(),
        w.low <= p,
    ensures
        moved(
            w,
            p,
            streams::group_consumers(w.from, t, p),
            streams::group_consumers(w.to, t, p + w.by),
        ),
{
    lemma_length(w, p);
    if let Ok((n, q)) = wire::size(w.from, p, "stream consumer count"@) {
        let f = streams::consumer_fn(w.from, t);
        let g = streams::consumer_fn(w.to, t);
        assert forall|x: int| w.low <= x implies moved(w, x, #[trigger] f(x), g(x + w.by)) by {
            lemma_consumer(w, t, x);
        }
        lemma_repeat(w, f, g, q, n);
    }
}

proof fn lemma_group(w: Window, t: u8, p: int)
    requires
        w.matches(),
        w.low <= p,
    ensures
        moved(w, p, streams::group(w.from, t, p), streams::group(w.to, t, p + w.by)),
{
    lemma_string(w, p);
    if let Ok((_, q)) = wire::string(w.from, p) {
        let k: nat = if t >= opcodes::RDB_TYPE_STREAM_LISTPACKS_2 {
            3
        } else {
            2
        };
        lemma_lengths(w, q, k);
        if let Ok((_, q2)) = wire::repeat(streams::length_fn(w.from), q, k) {
            lemma_length(w, q2);
            if let Ok((n, q3)) = wire::size(w.from, q2, "stream PEL count"@) {
                lemma_pending(w, q3, n);
                if let Ok((_, q4)) = wire::repeat(streams::pending_fn(w.from), q3, n) {
                    lemma_group_consumers(w, t, q4);
                }
            }
        }
    }
}

proof fn lemma_groups(w: Window, t: u8, p: int)
    requires
        w.matches(),
        w.low <= p,
    ensures
        moved(w, p, streams::groups(w.from, t, p), streams::groups(w.to, t, p + w.by)),
{
    lemma_length(w, p);
    if let Ok((n, q)) = wire::size(w.from, p, "stream cgroup count"@) {
        let f = streams::group_fn(w.from, t);
        let g = streams::group_fn(w.to, t);
        assert forall|x: int| w.low <= x implies moved(w, x, #[trigger] f(x), g(x + w.by)) by {
            lemma_group(w, t, x);
        }
        lemma_repeat(w, f, g, q, n);
    }
}

proof fn lemma_stream_value(w: Window, t: u8, p: int)
    requires
        w.matches(),
        w.low <= p,
    ensures
        moved(w, p, streams::stream_value(w.from, t, p), streams::stream_value(w.to, t, p + w.by)),
{
    lemma_length(w, p);
    if let Ok((n, q)) = wire::size(w.from, p, "stream listpack count"@) {
        lemma_pairs(w, q, n);
        if let Ok((pairs, q2)) = wire::repeat(streams::pair_fn(w.from), q, n) {
            lemma_decoded_known(pairs);
            lemma_lengths(w, q2, 3);
            if let Ok((_, q3)) = wire::repeat(streams::length_fn(w.from), q2, 3) {
                let k: nat = if t >= opcodes::RDB_TYPE_STREAM_LISTPACKS_2 {
                    5
                } else {
                    0
                };
                lemma_lengths(w, q3, k);
                if let Ok((_, q4)) = wire::repeat(streams::length_fn(w.from), q3, k) {
                    lemma_groups(w, t, q4);
                }
            }
        }
    }
}

// ---- Modules ----

proof fn lemma_module_item(w: Window, p: int)
    requires
        w.matches(),
        w.low <= p,
    ensures
        moved(w, p, modules::module_item(w.from, p), modules::module_item(w.to, p + w.by)),
{
    lemma_length(w, p);
    if let Ok((_, q)) = wire::plain_length(w.from, p) {
        lemma_length(w, q);
        lemma_take(w, q, 4);
        lemma_integers(w, q);
        lemma_string(w, q);
    }
}

proof fn lemma_module_list(w: Window, p: int, acc: Seq<ModuleValueV>, used: nat)
    requires
        w.matches(),
        w.low <= p,
    ensures
        moved(
            w,
            p,
            modules::module_list(w.from, p, acc, used),
            modules::module_list(w.to, p + w.by, acc, used),
        ),
    decreases w.from.bytes.len() - p,
{
    lemma_module_item(w, p);
    modules::lemma_module_item_moves_on(w.from, p);
    if let Ok((Some(v), q)) = modules::module_item(w.from, p) {
        lemma_module_list(w, q, acc.push(v), used + modules::string_size(v));
    }
}

pub proof fn lemma_module_skip(w: Window, p: int)
    requires
        w.matches(),
        w.low <= p,
    ensures
        moved(w, p, modules::module_skip(w.from, p), modules::module_skip(w.to, p + w.by)),
    decreases w.from.bytes.len() - p,
{
    lemma_module_item(w, p);
    modules::lemma_module_item_moves_on(w.from, p);
    if let Ok((Some(_), q)) = modules::module_item(w.from, p) {
        lemma_module_skip(w, q);
    }
}

// ---- All types ----

proof fn lemma_module_value(w: Window, p: int)
    requires
        w.matches(),
        w.low <= p,
    ensures
        moved(w, p, values::module_value(w.from, p), values::module_value(w.to, p + w.by)),
{
    lemma_length(w, p);
    if let Ok((_, q)) = wire::plain_length(w.from, p) {
        lemma_module_list(w, q, Seq::empty(), 0);
    }
}

/// A value is read in the same way wherever its bytes stand, and no value fails to be read
/// for an unsupported type.
pub proof fn lemma_value(w: Window, t: u8, p: int)
    requires
        w.matches(),
        w.low <= p,
    ensures
        moved(w, p, values::value(w.from, t, p), values::value(w.to, t, p + w.by)),
{
    lemma_string(w, p);
    lemma_blob_value(w, t, p);
    lemma_length(w, p);
    lemma_quicklist(w, p, t == opcodes::RDB_TYPE_LIST_QUICKLIST_2);
    lemma_stream_value(w, t, p);
    lemma_module_value(w, p);
    if let Ok((n, q)) = wire::size(w.from, p, "element count"@) {
        lemma_elements(w, t, q, n);
    }
}

// ---- Steps of a reader ----

/// The reader where the bytes of a window stand in the other input.
pub open spec fn shifted(w: Window, r: ReaderV) -> ReaderV {
    ReaderV { source: w.to, pos: r.pos + w.by, ..r }
}

/// Whether a step that ends within the window is `other` where the bytes stand in the other
/// input. No step fails for an unsupported type.
pub open spec fn step_moved(w: Window, st: (StepV, ReaderV), other: (StepV, ReaderV)) -> bool {
    match st.0 {
        StepV::Entry(_) | StepV::Unsupported(_) => st.1.pos <= w.high ==> other == (
            st.0,
            shifted(w, st.1),
        ),
        StepV::Fail(e) => !(e is UnknownType),
        StepV::End => true,
    }
}

pub proof fn lemma_directive(w: Window, r: ReaderV, b: u8)
    requires
        w.matches(),
        r.source == w.from,
        w.low <= r.pos,
        is_directive(b),
    ensures
        known(directive(r, b)),
        directive(r, b) matches Ok(r2) ==> r2.pos <= w.high ==> directive(shifted(w, r), b) == Ok::<
            ReaderV,
            RdbErrorV,
        >(shifted(w, r2)),
{
    reveal(directive);
    let s = r.source;
    let p = r.pos;
    lemma_aux(w, p);
    lemma_length(w, p);
    lemma_integers(w, p);
    lemma_byte(w, p);
    lemma_string(w, p);
    lemma_lengths(w, p, 2);
    lemma_lengths(w, p, 3);
    if let Ok((_, q)) = wire::repeat(streams::length_fn(s), p, 3) {
        lemma_module_skip(w, q);
    }
    if let Ok((_, q)) = wire::string(s, p) {
        lemma_length(w, q);
        if let Ok((n, q2)) = wire::size(s, q, "slot import range count"@) {
            lemma_lengths(w, q2, 2 * n);
        }
    }
}

pub proof fn lemma_key_step(w: Window, r: ReaderV, t: u8)
    requires
        w.matches(),
        r.source == w.from,
        w.low <= r.pos,
    ensures
        step_moved(w, key_step(r, t), key_step(shifted(w, r), t)),
{
    reveal(key_step);
    let s = r.source;
    lemma_string(w, r.pos);
    if let Ok((_, q)) = wire::string(s, r.pos) {
        lemma_length(w, q);
        lemma_value(w, t, q);
        if let Ok((n, q2)) = wire::size(s, q, "element count"@) {
            lemma_elements(w, t, q2, n);
            if r.max is Some {
                lemma_elements(w, t, q2, r.max->Some_0);
            }
        }
    }
}

pub proof fn lemma_chunk_step(w: Window, r: ReaderV, c: ChunkV)
    requires
        w.matches(),
        r.source == w.from,
        w.low <= r.pos,
    ensures
        step_moved(w, chunk_step(r, c), chunk_step(shifted(w, r), c)),
{
    if let Some(max) = r.max {
        let n = if max < c.remaining {
            max
        } else {
            c.remaining
        };
        lemma_elements(w, c.type_code, r.pos, n);
    }
}

proof fn lemma_scan_known(r: ReaderV)
    requires
        r.pos >= 0,
    ensures
        scan(r).0 matches StepV::Fail(e) ==> !(e is UnknownType),
    decreases r.source.bytes.len() - r.pos,
{
    let w = here(r.source);
    if let Ok((b, q)) = wire::byte(r.source, r.pos) {
        if is_directive(b) {
            lemma_directive(w, r.at(q), b);
            lemma_directive_moves_on(r.at(q), b);
            if let Ok(r2) = directive(r.at(q), b) {
                lemma_scan_known(r2);
            }
        } else if b == opcodes::RDB_OPCODE_EOF {
            lemma_integers(w, q);
        } else if opcodes::object_type(b) {
            lemma_key_step(w, r.at(q), b);
        }
    }
}

/// All of an input, where it stands.
spec fn here(s: SourceV) -> Window {
    Window { from: s, to: s, low: 0, high: s.bytes.len() as int, by: 0 }
}

/// The error for an unsupported type is that for a key that is passed over: nothing fails
/// with it.
pub proof fn law_failures_are_known(r: ReaderV)
    requires
        r.valid(),
    ensures
        step(r).0 matches StepV::Fail(e) ==> !(e is UnknownType),
{
    reveal(step);
    match r.chunked {
        None => {
            lemma_scan_known(r);
        },
        Some(c) => {
            lemma_chunk_step(here(r.source), r, c);
        },
    }
}

} // verus!
