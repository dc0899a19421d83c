//! Values that are read are values that were written: what compact values, nodes of lists,
//! module values and streams have to be, and their limits.

use crate::compact::CompactEntryV;
use crate::listpack;
use crate::module_text::strings_size;
use crate::modules;
use crate::modules::{module_item, module_list, string_size};
use crate::streams;
use crate::types::{Double, ModuleValueV, RdbErrorV};
use crate::value_text::{blob_holds, bytes_of, is_score};
use crate::values;
use crate::wire;
use crate::wire::SourceV;
use crate::ziplist;
use vstd::prelude::*;

verus! {

// ---- Compact values ----

/// Whether a type code is one of the compact types of a listpack or a ziplist.
pub open spec fn compact_type(t: u8, zip: bool) -> bool {
    if zip {
        t == 10 || t == 12 || t == 13
    } else {
        t == 16 || t == 17 || t == 20
    }
}

/// A compact value that is read has been written as a blob of entries, of a ziplist or of a
/// listpack as its type says; a hash and a sorted set as an even number of them.
pub proof fn law_compact_values_read_nothing_else(s: SourceV, t: u8, p: int, zip: bool) -> (es: Seq<
    CompactEntryV,
>)
    requires
        compact_type(t, zip),
        values::value(s, t, p) is Ok,
    ensures
        ({
            let (v, q) = values::value(s, t, p)->Ok_0;
            &&& blob_holds(s, p, q, es, zip)
            &&& v is Some
            &&& v->0 is List ==> v->0->List_0.len() == es.len()
            &&& v->0 is UnorderedSet ==> v->0->UnorderedSet_0.len() == es.len()
            &&& v->0 is Hash ==> 2 * v->0->Hash_0.len() == es.len()
            &&& v->0 is SortedSet ==> 2 * v->0->SortedSet_0.len() == es.len() && forall|i: int|
                0 <= i < v->0->SortedSet_0.len() ==> (#[trigger] v->0->SortedSet_0[i]).0
                    == bytes_of(es[2 * i]) && is_score(es[2 * i + 1], v->0->SortedSet_0[i].1)
        }),
{
    let (v, q) = values::value(s, t, p)->Ok_0;
    let (blob, end) = wire::string(s, p)->Ok_0;
    let es = if zip {
        ziplist::entries(blob)->Ok_0
    } else {
        listpack::entries(blob)->Ok_0
    };
    if t == 12 || t == 17 {
        lemma_scored(es, es.len() / 2);
    }
    es
}

proof fn lemma_scored(es: Seq<CompactEntryV>, n: nat)
    requires
        values::scored_pairs(es, n) is Ok,
    ensures
        ({
            let v = values::scored_pairs(es, n)->Ok_0;
            &&& v.len() == n
            &&& forall|i: int|
                0 <= i < n ==> (#[trigger] v[i]).0 == bytes_of(es[2 * i]) && is_score(
                    es[2 * i + 1],
                    v[i].1,
                )
        }),
    decreases n,
{
    if n > 0 {
        lemma_scored(es, (n - 1) as nat);
        let v = values::scored_pairs(es, n)->Ok_0;
        let front = values::scored_pairs(es, (n - 1) as nat)->Ok_0;
        assert forall|i: int| 0 <= i < n implies (#[trigger] v[i]).0 == bytes_of(es[2 * i])
            && is_score(es[2 * i + 1], v[i].1) by {
            if i < n - 1 {
                assert(v[i] == front[i]);
            }
        }
    }
}

/// A node of a list is a ziplist; from the second version on it says of itself that it is one
/// element or a listpack, and nothing else.
pub proof fn law_list_node_reads_nothing_else(s: SourceV, p: int, v2: bool)
    requires
        values::node(s, p, v2) is Ok,
    ensures
        ({
            let (elements, q) = values::node(s, p, v2)->Ok_0;
            &&& !v2 ==> exists|es: Seq<CompactEntryV>| #[trigger] blob_holds(s, p, q, es, true)
            &&& v2 ==> wire::plain_length(s, p) is Ok && ({
                let (container, p1) = wire::plain_length(s, p)->Ok_0;
                ||| container == 1 && wire::string(s, p1) == Ok::<(Seq<u8>, int), RdbErrorV>(
                    (elements[0], q),
                ) && elements.len() == 1
                ||| container == 2 && exists|es: Seq<CompactEntryV>| #[trigger]
                    blob_holds(s, p1, q, es, false)
            })
        }),
{
    reveal(values::node);
    let (elements, q) = values::node(s, p, v2)->Ok_0;
    if v2 {
        let (container, p1) = wire::plain_length(s, p)->Ok_0;
        let (blob, _) = wire::string(s, p1)->Ok_0;
        if container == 2 {
            assert(blob_holds(s, p1, q, listpack::entries(blob)->Ok_0, false));
        }
    } else {
        let (blob, _) = wire::string(s, p)->Ok_0;
        assert(blob_holds(s, p, q, ziplist::entries(blob)->Ok_0, true));
    }
}

// ---- Modules ----

/// A value of a module has the kind that the number in front of it says. Other numbers are
/// refused.
pub proof fn law_module_item_reads_nothing_else(s: SourceV, p: int)
    requires
        module_item(s, p) is Ok,
    ensures
        wire::plain_length(s, p) is Ok,
        ({
            let (v, q) = module_item(s, p)->Ok_0;
            let (kind, p1) = wire::plain_length(s, p)->Ok_0;
            &&& kind <= 5
            &&& v is None <==> kind == 0
            &&& v is Some && v->0 is SignedInt <==> kind == 1
            &&& v is Some && v->0 is UnsignedInt <==> kind == 2
            &&& v is Some && v->0 is Float <==> kind == 3
            &&& v is Some && v->0 is Double <==> kind == 4
            &&& v is Some && v->0 is String <==> kind == 5
            &&& kind == 0 ==> q == p1
            &&& kind == 3 ==> q == p1 + 4
            &&& kind == 4 ==> q == p1 + 8
        }),
{
}

proof fn lemma_module_limits(s: SourceV, p: int, acc: Seq<ModuleValueV>, used: nat)
    requires
        module_list(s, p, acc, used) is Ok,
        acc.len() <= 5_000_000,
        used <= 256 * 1024 * 1024,
        used == strings_size(acc),
    ensures
        ({
            let (values, q) = module_list(s, p, acc, used)->Ok_0;
            &&& values.len() <= 5_000_000
            &&& strings_size(values) <= 256 * 1024 * 1024
        }),
    decreases s.bytes.len() - p,
{
    modules::lemma_module_item_moves_on(s, p);
    if let Ok((Some(v), q)) = module_item(s, p) {
        lemma_strings_push(acc, v);
        lemma_module_limits(s, q, acc.push(v), used + string_size(v));
    }
}

proof fn lemma_strings_push(acc: Seq<ModuleValueV>, v: ModuleValueV)
    ensures
        strings_size(acc.push(v)) == strings_size(acc) + string_size(v),
    decreases acc.len(),
{
    if acc.len() > 0 {
        assert(acc.push(v).drop_first() == acc.drop_first().push(v));
        lemma_strings_push(acc.drop_first(), v);
    } else {
        assert(acc.push(v).drop_first() == Seq::<ModuleValueV>::empty());
        reveal_with_fuel(strings_size, 2);
    }
}

/// No module value has more than 5 million values or 256 MiB of strings.
pub proof fn law_module_limits(s: SourceV, p: int)
    requires
        module_list(s, p, Seq::empty(), 0) is Ok,
    ensures
        ({
            let (values, q) = module_list(s, p, Seq::empty(), 0)->Ok_0;
            &&& values.len() <= 5_000_000
            &&& strings_size(values) <= 256 * 1024 * 1024
        }),
{
    lemma_module_limits(s, p, Seq::empty(), 0);
}

// ---- Streams ----

/// A stream states how many entries it has, which are at most 5 million.
pub proof fn law_stream_length_is_checked(s: SourceV, t: u8, p: int)
    requires
        streams::stream_value(s, t, p) is Ok,
    ensures
        ({
            let (d, q) = streams::stream_value(s, t, p)->Ok_0;
            &&& d.length == d.entries.len()
            &&& d.entries.len() <= 5_000_000
        }),
{
    let (n, p1) = wire::size(s, p, "stream listpack count"@)->Ok_0;
    let (pairs, p2) = wire::repeat(streams::pair_fn(s), p1, n)->Ok_0;
    streams::law_stream_limit(pairs);
}

/// Listpacks of a stream decode only with master IDs of sixteen bytes.
pub proof fn law_master_ids(pairs: Seq<(Seq<u8>, Seq<u8>)>, i: int)
    requires
        streams::decoded(pairs) is Ok,
        0 <= i < pairs.len(),
    ensures
        pairs[i].0.len() == 16,
    decreases pairs.len(),
{
    if i < pairs.len() - 1 {
        law_master_ids(pairs.drop_last(), i);
        assert(pairs.drop_last()[i] == pairs[i]);
    }
}

} // verus!
