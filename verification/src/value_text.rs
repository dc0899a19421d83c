//! Strings, scores and compact values as they are written, and that they are read back as what
//! was written.

use crate::bytes::{law_le_reads_back, le_bytes, lemma_le_bytes, unsigned};
use crate::compact::CompactEntryV;
use crate::compact_text::{half_range, signed_bytes};
use crate::double;
use crate::intset;
use crate::listpack;
use crate::lzf::{all_applied, all_fit, all_written, law_lzf_reads_back, Token};
use crate::opcodes::{
    RDB_TYPE_HASH_LISTPACK, RDB_TYPE_HASH_ZIPLIST, RDB_TYPE_LIST_QUICKLIST,
    RDB_TYPE_LIST_QUICKLIST_2, RDB_TYPE_LIST_ZIPLIST, RDB_TYPE_SET_INTSET, RDB_TYPE_SET_LISTPACK,
    RDB_TYPE_ZSET_LISTPACK, RDB_TYPE_ZSET_ZIPLIST,
};
use crate::readback::{lemma_byte_reads_back, lemma_stands_apart, texts};
use crate::text::decimal_int;
use crate::types::{Double, HashFieldV, RdbErrorV, RdbValueV};
use crate::values;
use crate::wire;
use crate::wire::{length_text, stands_at, string_text, SourceV, MAX_ALLOC_BYTES};
use crate::ziplist;
use vstd::prelude::*;

verus! {

// ---- Strings ----

/// A string that was written as a number of one, two or four bytes is the number in decimal.
pub proof fn law_integer_string_reads_back(s: SourceV, p: int, n: int, size: nat)
    requires
        size == 1 || size == 2 || size == 4,
        -half_range(size) <= n < half_range(size),
        stands_at(
            s,
            p,
            seq![
                if size == 1 {
                    0xc0u8
                } else if size == 2 {
                    0xc1
                } else {
                    0xc2
                },
            ] + signed_bytes(n, size),
        ),
    ensures
        wire::string(s, p) == Ok::<(Seq<u8>, int), RdbErrorV>((decimal_int(n), p + 1 + size)),
{
    let op: u8 = if size == 1 {
        0xc0u8
    } else if size == 2 {
        0xc1
    } else {
        0xc2
    };
    let b = signed_bytes(n, size);
    let u = unsigned(n, half_range(size));
    lemma_le_bytes(u, size);
    lemma_stands_apart(s, p, seq![op], b);
    lemma_byte_reads_back(s, p, op);
    let here = s.bytes.subrange(p + 1, p + 1 + size);
    assert(here == b);
    if size == 1 {
        reveal_with_fuel(le_bytes, 2);
        assert(b[0] == (u % 0x100) as u8);
        assert(here[0] == s.bytes[p + 1]);
    } else {
        assert(here.subrange(0, size as int) == b);
        law_le_reads_back(here, 0, u);
    }
}

/// A string that was written in compressed form is what the compressed steps stand for.
pub proof fn law_compressed_string_reads_back(s: SourceV, p: int, tokens: Seq<Token>)
    requires
        all_fit(tokens, Seq::empty()),
        all_written(tokens).len() <= MAX_ALLOC_BYTES,
        all_applied(tokens, Seq::empty()).len() <= MAX_ALLOC_BYTES,
        stands_at(
            s,
            p,
            seq![0xc3u8] + (length_text(all_written(tokens).len() as u64) + (length_text(
                all_applied(tokens, Seq::empty()).len() as u64,
            ) + all_written(tokens))),
        ),
    ensures
        wire::string(s, p) matches Ok((v, _)) && v == all_applied(tokens, Seq::empty()),
{
    let c = all_written(tokens);
    let out = all_applied(tokens, Seq::empty());
    let a = length_text(c.len() as u64);
    let b = length_text(out.len() as u64);
    lemma_stands_apart(s, p, seq![0xc3u8], a + (b + c));
    lemma_byte_reads_back(s, p, 0xc3);
    lemma_stands_apart(s, p + 1, a, b + c);
    lemma_stands_apart(s, p + 1 + a.len(), b, c);
    wire::law_length_reads_back(s, p + 1, c.len() as u64);
    wire::law_length_reads_back(s, p + 1 + a.len(), out.len() as u64);
    law_lzf_reads_back(tokens);
}

// ---- Scores ----

/// A score that was written as text, behind its length, is the number that the text stands
/// for. Three lengths that no text has stand for a NaN and the infinities.
pub proof fn law_text_score_reads_back(s: SourceV, p: int, b: Seq<u8>, d: Double)
    ensures
        b.len() < 253 && vstd::utf8::valid_utf8(b) && double::number_text(
            vstd::utf8::decode_utf8(b),
        ) == Some(d) && stands_at(s, p, seq![b.len() as u8] + b) ==> wire::text_score(s, p) == Ok::<
            (Double, int),
            RdbErrorV,
        >((d, p + 1 + b.len())),
        stands_at(s, p, seq![253u8]) ==> wire::text_score(s, p) == Ok::<(Double, int), RdbErrorV>(
            (Double { bits: double::NAN_BITS }, p + 1),
        ),
        stands_at(s, p, seq![254u8]) ==> wire::text_score(s, p) == Ok::<(Double, int), RdbErrorV>(
            (Double { bits: double::INFINITY_BITS }, p + 1),
        ),
        stands_at(s, p, seq![255u8]) ==> wire::text_score(s, p) == Ok::<(Double, int), RdbErrorV>(
            (Double { bits: (double::SIGN_BIT + double::INFINITY_BITS) as u64 }, p + 1),
        ),
{
    if stands_at(s, p, seq![b.len() as u8] + b) {
        lemma_stands_apart(s, p, seq![b.len() as u8], b);
        lemma_byte_reads_back(s, p, b.len() as u8);
    }
    if stands_at(s, p, seq![253u8]) {
        lemma_byte_reads_back(s, p, 253);
    }
    if stands_at(s, p, seq![254u8]) {
        lemma_byte_reads_back(s, p, 254);
    }
    if stands_at(s, p, seq![255u8]) {
        lemma_byte_reads_back(s, p, 255);
    }
}

// ---- Compact values ----

/// The bytes that a compact entry stands for: a string as it is, a number in decimal.
pub open spec fn bytes_of(e: CompactEntryV) -> Seq<u8> {
    match e {
        CompactEntryV::Int(n) => decimal_int(n as int),
        CompactEntryV::Str(b) => b,
    }
}

/// Whether a blob that stands at a place, up to `q`, holds compact entries, as a ziplist or as
/// a listpack.
pub open spec fn blob_holds(
    s: SourceV,
    p: int,
    q: int,
    es: Seq<CompactEntryV>,
    zip: bool,
) -> bool {
    wire::string(s, p) matches Ok((blob, end)) && end == q && (if zip {
        ziplist::entries(blob)
    } else {
        listpack::entries(blob)
    }) == Ok::<Seq<CompactEntryV>, RdbErrorV>(es)
}

/// A set in a listpack, and a list in a ziplist, hold the entries in their order.
pub proof fn law_compact_elements(s: SourceV, p: int, q: int, es: Seq<CompactEntryV>)
    ensures
        blob_holds(s, p, q, es, false) ==> values::value(s, RDB_TYPE_SET_LISTPACK, p) == Ok::<
            (Option<RdbValueV>, int),
            RdbErrorV,
        >((Some(RdbValueV::UnorderedSet(es.map_values(|e: CompactEntryV| bytes_of(e)))), q)),
        blob_holds(s, p, q, es, true) ==> values::value(s, RDB_TYPE_LIST_ZIPLIST, p) == Ok::<
            (Option<RdbValueV>, int),
            RdbErrorV,
        >((Some(RdbValueV::List(es.map_values(|e: CompactEntryV| bytes_of(e)))), q)),
{
    assert(crate::compact::entry_bytes(es) == es.map_values(|e: CompactEntryV| bytes_of(e)));
}

/// A hash in a listpack or ziplist holds a field and its value in each two entries.
pub proof fn law_compact_hash(
    s: SourceV,
    p: int,
    q: int,
    pairs: Seq<(CompactEntryV, CompactEntryV)>,
    zip: bool,
)
    requires
        blob_holds(s, p, q, in_turn(pairs), zip),
    ensures
        values::value(
            s,
            if zip {
                RDB_TYPE_HASH_ZIPLIST
            } else {
                RDB_TYPE_HASH_LISTPACK
            },
            p,
        ) == Ok::<(Option<RdbValueV>, int), RdbErrorV>(
            (
                Some(
                    RdbValueV::Hash(
                        pairs.map_values(
                            |x: (CompactEntryV, CompactEntryV)|
                                HashFieldV {
                                    field: bytes_of(x.0),
                                    value: bytes_of(x.1),
                                    expiry_ms: None,
                                },
                        ),
                    ),
                ),
                q,
            ),
        ),
{
    let es = in_turn(pairs);
    let fields = pairs.map_values(
        |x: (CompactEntryV, CompactEntryV)|
            HashFieldV { field: bytes_of(x.0), value: bytes_of(x.1), expiry_ms: None },
    );
    let ctx = if zip {
        "hash ziplist"@
    } else {
        "hash listpack"@
    };
    let got = values::hash_pairs(es, ctx)->Ok_0;
    assert(es.len() % 2 == 0 && es.len() / 2 == pairs.len());
    assert forall|i: int| 0 <= i < pairs.len() implies #[trigger] got[i] == fields[i] by {
        assert(es[2 * i] == pairs[i].0 && es[2 * i + 1] == pairs[i].1);
    }
    assert(got == fields);
}

/// Pairs as entries that follow on each other.
pub open spec fn in_turn(pairs: Seq<(CompactEntryV, CompactEntryV)>) -> Seq<CompactEntryV> {
    Seq::new(
        2 * pairs.len(),
        |j: int|
            if j % 2 == 0 {
                pairs[j / 2].0
            } else {
                pairs[j / 2].1
            },
    )
}

/// Whether a compact entry stands for a score: a number for the nearest one, text for the one
/// that it spells.
pub open spec fn is_score(e: CompactEntryV, d: Double) -> bool {
    match e {
        CompactEntryV::Int(n) => d == double::rounded(n as int, 1),
        CompactEntryV::Str(b) => vstd::utf8::valid_utf8(b) && double::number_text(
            vstd::utf8::decode_utf8(b),
        ) == Some(d),
    }
}

proof fn lemma_scores(
    pairs: Seq<(CompactEntryV, CompactEntryV)>,
    scores: Seq<Double>,
    n: nat,
)
    requires
        n <= pairs.len(),
        scores.len() == pairs.len(),
        forall|i: int| 0 <= i < pairs.len() ==> is_score((#[trigger] pairs[i]).1, scores[i]),
    ensures
        values::scored_pairs(in_turn(pairs), n) == Ok::<Seq<(Seq<u8>, Double)>, RdbErrorV>(
            Seq::new(n, |i: int| (bytes_of(pairs[i].0), scores[i])),
        ),
    decreases n,
{
    let all = Seq::new(n, |i: int| (bytes_of(pairs[i].0), scores[i]));
    if n == 0 {
        assert(all == Seq::<(Seq<u8>, Double)>::empty());
    } else {
        let k = n - 1;
        lemma_scores(pairs, scores, k as nat);
        let es = in_turn(pairs);
        assert(es[2 * n - 2] == pairs[k].0 && es[2 * n - 1] == pairs[k].1);
        assert(is_score(pairs[k].1, scores[k]));
        let front = Seq::new(k as nat, |i: int| (bytes_of(pairs[i].0), scores[i]));
        assert(front.push((bytes_of(pairs[k].0), scores[k])) == all);
    }
}

/// A sorted set in a listpack or ziplist holds a member and its score in each two entries.
#[verifier::spinoff_prover]
#[verifier::rlimit(50)]
pub proof fn law_compact_sorted_set(
    s: SourceV,
    p: int,
    q: int,
    pairs: Seq<(CompactEntryV, CompactEntryV)>,
    scores: Seq<Double>,
    zip: bool,
)
    requires
        blob_holds(s, p, q, in_turn(pairs), zip),
        scores.len() == pairs.len(),
        forall|i: int| 0 <= i < pairs.len() ==> is_score((#[trigger] pairs[i]).1, scores[i]),
    ensures
        values::value(
            s,
            if zip {
                RDB_TYPE_ZSET_ZIPLIST
            } else {
                RDB_TYPE_ZSET_LISTPACK
            },
            p,
        ) == Ok::<(Option<RdbValueV>, int), RdbErrorV>(
            (
                Some(
                    RdbValueV::SortedSet(
                        Seq::new(pairs.len(), |i: int| (bytes_of(pairs[i].0), scores[i])),
                    ),
                ),
                q,
            ),
        ),
{
    let es = in_turn(pairs);
    assert(es.len() % 2 == 0 && es.len() / 2 == pairs.len());
    lemma_scores(pairs, scores, pairs.len());
    lemma_blob_entries(s, p, q, es, zip);
    let members = Seq::new(pairs.len(), |i: int| (bytes_of(pairs[i].0), scores[i]));
    lemma_blob_sorted_set(s, p, q, es, members, zip);
}

proof fn lemma_blob_entries(s: SourceV, p: int, q: int, es: Seq<CompactEntryV>, zip: bool)
    requires
        blob_holds(s, p, q, es, zip),
    ensures
        values::blob_entries(s, p, zip) == Ok::<(Seq<CompactEntryV>, int), RdbErrorV>((es, q)),
{
}

#[verifier::spinoff_prover]
proof fn lemma_blob_sorted_set(
    s: SourceV,
    p: int,
    q: int,
    es: Seq<CompactEntryV>,
    members: Seq<(Seq<u8>, Double)>,
    zip: bool,
)
    requires
        values::blob_entries(s, p, zip) == Ok::<(Seq<CompactEntryV>, int), RdbErrorV>((es, q)),
        es.len() % 2 == 0,
        values::scored_pairs(es, es.len() / 2) == Ok::<Seq<(Seq<u8>, Double)>, RdbErrorV>(members),
    ensures
        values::value(
            s,
            if zip {
                RDB_TYPE_ZSET_ZIPLIST
            } else {
                RDB_TYPE_ZSET_LISTPACK
            },
            p,
        ) == Ok::<(Option<RdbValueV>, int), RdbErrorV>((Some(RdbValueV::SortedSet(members)), q)),
{
}

/// A hash or sorted set with an odd number of entries is refused.
pub proof fn law_odd_pairs_are_refused(s: SourceV, p: int, q: int, es: Seq<CompactEntryV>, zip: bool)
    requires
        blob_holds(s, p, q, es, zip),
        es.len() % 2 == 1,
    ensures
        zip ==> values::value(s, RDB_TYPE_HASH_ZIPLIST, p) is Err && values::value(
            s,
            RDB_TYPE_ZSET_ZIPLIST,
            p,
        ) is Err,
        !zip ==> values::value(s, RDB_TYPE_HASH_LISTPACK, p) is Err && values::value(
            s,
            RDB_TYPE_ZSET_LISTPACK,
            p,
        ) is Err,
{
}

/// A set in an intset holds its numbers in decimal, in their order.
pub proof fn law_intset_value(s: SourceV, p: int, q: int, numbers: Seq<int>, width: nat)
    requires
        width == 2 || width == 4 || width == 8,
        numbers.len() <= intset::MAX_INTSET_ELEMENTS,
        forall|i: int|
            0 <= i < numbers.len() ==> -half_range(width) <= #[trigger] numbers[i] < half_range(
                width,
            ),
        wire::string(s, p) == Ok::<(Seq<u8>, int), RdbErrorV>(
            (intset::intset_of(numbers, width), q),
        ),
    ensures
        values::value(s, RDB_TYPE_SET_INTSET, p) == Ok::<(Option<RdbValueV>, int), RdbErrorV>(
            (Some(RdbValueV::UnorderedSet(numbers.map_values(|n: int| decimal_int(n)))), q),
        ),
{
    intset::law_intset_reads_back(numbers, width);
    assert(numbers.map_values(|n: int| decimal_int(n)) == numbers.map_values(
        |v: int| decimal_int(v),
    ));
}

// ---- Quicklists ----

/// Whether a blob holds compact entries, as a listpack or as a ziplist.
#[verifier::opaque]
pub open spec fn packs(blob: Seq<u8>, es: Seq<CompactEntryV>, as_listpack: bool) -> bool {
    (if as_listpack {
        listpack::entries(blob)
    } else {
        ziplist::entries(blob)
    }) == Ok::<Seq<CompactEntryV>, RdbErrorV>(es)
}

/// A node of a quicklist: one element by itself, or a blob with the entries that it holds.
pub enum NodeText {
    Plain(Seq<u8>),
    Packed(Seq<u8>, Seq<CompactEntryV>),
}

impl NodeText {
    /// Whether the node can be written: in the first version, as a ziplist; in the second, by
    /// itself or as a listpack.
    pub open spec fn fits(self, v2: bool) -> bool {
        match self {
            NodeText::Plain(b) => v2 && b.len() <= MAX_ALLOC_BYTES,
            NodeText::Packed(blob, es) => blob.len() <= MAX_ALLOC_BYTES && packs(blob, es, v2),
        }
    }

    /// The elements of the node.
    pub open spec fn elements(self) -> Seq<Seq<u8>> {
        match self {
            NodeText::Plain(b) => seq![b],
            NodeText::Packed(_, es) => es.map_values(|e: CompactEntryV| bytes_of(e)),
        }
    }
}

/// The bytes of a node. The second version says first how the node is stored.
pub open spec fn node_writer(v2: bool) -> spec_fn(NodeText) -> Seq<u8> {
    |n: NodeText|
        match n {
            NodeText::Plain(b) => length_text(1) + string_text(b),
            NodeText::Packed(blob, _) => if v2 {
                length_text(2) + string_text(blob)
            } else {
                string_text(blob)
            },
        }
}

/// The elements of nodes in a row.
pub open spec fn all_elements(nodes: Seq<NodeText>) -> Seq<Seq<u8>>
    decreases nodes.len(),
{
    if nodes.len() == 0 {
        Seq::empty()
    } else {
        all_elements(nodes.drop_last()) + nodes.last().elements()
    }
}

#[verifier::spinoff_prover]
proof fn lemma_packed_node(
    s: SourceV,
    p: int,
    blob: Seq<u8>,
    es: Seq<CompactEntryV>,
    q: int,
    end: int,
    v2: bool,
)
    requires
        packs(blob, es, v2),
        v2 ==> wire::plain_length(s, p) == Ok::<(u64, int), RdbErrorV>((2, q)),
        !v2 ==> q == p,
        wire::string(s, q) == Ok::<(Seq<u8>, int), RdbErrorV>((blob, end)),
    ensures
        values::node(s, p, v2) == Ok::<(Seq<Seq<u8>>, int), RdbErrorV>(
            (crate::compact::entry_bytes(es), end),
        ),
{
    reveal(values::node);
    reveal(packs);
}

#[verifier::spinoff_prover]
proof fn lemma_plain_node(s: SourceV, p: int, b: Seq<u8>, q: int, end: int)
    requires
        wire::plain_length(s, p) == Ok::<(u64, int), RdbErrorV>((1, q)),
        wire::string(s, q) == Ok::<(Seq<u8>, int), RdbErrorV>((b, end)),
    ensures
        values::node(s, p, true) == Ok::<(Seq<Seq<u8>>, int), RdbErrorV>((seq![b], end)),
{
    reveal(values::node);
}

#[verifier::spinoff_prover]
proof fn lemma_plain_node_text(s: SourceV, p: int, b: Seq<u8>)
    requires
        b.len() <= MAX_ALLOC_BYTES,
        stands_at(s, p, length_text(1) + string_text(b)),
    ensures
        values::node(s, p, true) == Ok::<(Seq<Seq<u8>>, int), RdbErrorV>(
            (seq![b], p + (length_text(1) + string_text(b)).len()),
        ),
{
    let q = p + length_text(1).len();
    lemma_stands_apart(s, p, length_text(1), string_text(b));
    assert(wire::plain_length(s, p) == Ok::<(u64, int), RdbErrorV>((1, q))) by {
        wire::law_length_reads_back(s, p, 1);
    }
    assert(wire::string(s, q) == Ok::<(Seq<u8>, int), RdbErrorV>((b, q + string_text(b).len())))
        by {
        wire::law_string_reads_back(s, q, b);
    }
    lemma_plain_node(s, p, b, q, q + string_text(b).len());
}

#[verifier::spinoff_prover]
proof fn lemma_packed_node_text(s: SourceV, p: int, blob: Seq<u8>, es: Seq<CompactEntryV>)
    requires
        blob.len() <= MAX_ALLOC_BYTES,
        packs(blob, es, true),
        stands_at(s, p, length_text(2) + string_text(blob)),
    ensures
        values::node(s, p, true) == Ok::<(Seq<Seq<u8>>, int), RdbErrorV>(
            (crate::compact::entry_bytes(es), p + (length_text(2) + string_text(blob)).len()),
        ),
{
    let q = p + length_text(2).len();
    let end = q + string_text(blob).len();
    lemma_stands_apart(s, p, length_text(2), string_text(blob));
    assert(wire::plain_length(s, p) == Ok::<(u64, int), RdbErrorV>((2, q))) by {
        wire::law_length_reads_back(s, p, 2);
    }
    assert(wire::string(s, q) == Ok::<(Seq<u8>, int), RdbErrorV>((blob, end))) by {
        wire::law_string_reads_back(s, q, blob);
    }
    lemma_packed_node(s, p, blob, es, q, end, true);
}

#[verifier::spinoff_prover]
proof fn lemma_first_node_text(s: SourceV, p: int, blob: Seq<u8>, es: Seq<CompactEntryV>)
    requires
        blob.len() <= MAX_ALLOC_BYTES,
        packs(blob, es, false),
        stands_at(s, p, string_text(blob)),
    ensures
        values::node(s, p, false) == Ok::<(Seq<Seq<u8>>, int), RdbErrorV>(
            (crate::compact::entry_bytes(es), p + string_text(blob).len()),
        ),
{
    let end = p + string_text(blob).len();
    assert(wire::string(s, p) == Ok::<(Seq<u8>, int), RdbErrorV>((blob, end))) by {
        wire::law_string_reads_back(s, p, blob);
    }
    lemma_packed_node(s, p, blob, es, p, end, false);
}

#[verifier::spinoff_prover]
proof fn lemma_node_reads_back(s: SourceV, p: int, n: NodeText, v2: bool)
    requires
        n.fits(v2),
        stands_at(s, p, node_writer(v2)(n)),
    ensures
        values::node(s, p, v2) == Ok::<(Seq<Seq<u8>>, int), RdbErrorV>(
            (n.elements(), p + node_writer(v2)(n).len()),
        ),
{
    match n {
        NodeText::Plain(b) => {
            lemma_plain_node_text(s, p, b);
        },
        NodeText::Packed(blob, es) => {
            assert(crate::compact::entry_bytes(es) == es.map_values(
                |e: CompactEntryV| bytes_of(e),
            ));
            if v2 {
                lemma_packed_node_text(s, p, blob, es);
            } else {
                lemma_first_node_text(s, p, blob, es);
            }
        },
    }
}

proof fn lemma_nodes_read_back(s: SourceV, p: int, nodes: Seq<NodeText>, v2: bool)
    requires
        forall|i: int| 0 <= i < nodes.len() ==> (#[trigger] nodes[i]).fits(v2),
        stands_at(s, p, texts(node_writer(v2), nodes)),
    ensures
        wire::repeat(values::node_fn(s, v2), p, nodes.len()) == Ok::<
            (Seq<Seq<Seq<u8>>>, int),
            RdbErrorV,
        >(
            (
                nodes.map_values(|n: NodeText| n.elements()),
                p + texts(node_writer(v2), nodes).len(),
            ),
        ),
    decreases nodes.len(),
{
    let f = node_writer(v2);
    let g = values::node_fn(s, v2);
    let all = nodes.map_values(|n: NodeText| n.elements());
    if nodes.len() == 0 {
        assert(all == Seq::<Seq<Seq<u8>>>::empty());
    } else {
        let rest = nodes.drop_first();
        lemma_stands_apart(s, p, f(nodes[0]), texts(f, rest));
        assert(nodes[0].fits(v2));
        lemma_node_reads_back(s, p, nodes[0], v2);
        assert forall|i: int| 0 <= i < rest.len() implies (#[trigger] rest[i]).fits(v2) by {
            assert(rest[i] == nodes[i + 1]);
        }
        lemma_nodes_read_back(s, p + f(nodes[0]).len(), rest, v2);
        wire::lemma_repeat_split(g, p, 1, rest.len());
        reveal_with_fuel(wire::repeat, 2);
        let one = Seq::<Seq<Seq<u8>>>::empty().push(nodes[0].elements());
        assert(one + rest.map_values(|n: NodeText| n.elements()) == all);
    }
}

proof fn lemma_flat(nodes: Seq<NodeText>)
    ensures
        values::flat(nodes.map_values(|n: NodeText| n.elements())) == all_elements(nodes),
    decreases nodes.len(),
{
    let all = nodes.map_values(|n: NodeText| n.elements());
    if nodes.len() > 0 {
        lemma_flat(nodes.drop_last());
        assert(all.drop_last() == nodes.drop_last().map_values(|n: NodeText| n.elements()));
    }
}

/// A quicklist that was written, of either version, is the list of the elements of its nodes,
/// in order.
pub proof fn law_quicklist_reads_back(s: SourceV, p: int, nodes: Seq<NodeText>, v2: bool)
    requires
        nodes.len() <= MAX_ALLOC_BYTES,
        forall|i: int| 0 <= i < nodes.len() ==> (#[trigger] nodes[i]).fits(v2),
        stands_at(s, p, length_text(nodes.len() as u64) + texts(node_writer(v2), nodes)),
    ensures
        values::value(
            s,
            if v2 {
                RDB_TYPE_LIST_QUICKLIST_2
            } else {
                RDB_TYPE_LIST_QUICKLIST
            },
            p,
        ) == Ok::<(Option<RdbValueV>, int), RdbErrorV>(
            (
                Some(RdbValueV::List(all_elements(nodes))),
                p + (length_text(nodes.len() as u64) + texts(node_writer(v2), nodes)).len(),
            ),
        ),
{
    let n = length_text(nodes.len() as u64);
    lemma_stands_apart(s, p, n, texts(node_writer(v2), nodes));
    wire::law_length_reads_back(s, p, nodes.len() as u64);
    lemma_nodes_read_back(s, p + n.len(), nodes, v2);
    lemma_flat(nodes);
}

} // verus!
