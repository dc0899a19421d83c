//! Decoding of values: the bytes that follow a key, by type code.

use crate::compact;
use crate::compact::{CompactEntry, CompactEntryV};
use crate::intset;
use crate::listpack;
use crate::modules;
use crate::opcodes;
use crate::opcodes::{
    RDB_TYPE_HASH, RDB_TYPE_HASH_2, RDB_TYPE_HASH_LISTPACK, RDB_TYPE_HASH_ZIPLIST,
    RDB_TYPE_HASH_ZIPMAP, RDB_TYPE_LIST, RDB_TYPE_LIST_QUICKLIST, RDB_TYPE_LIST_QUICKLIST_2,
    RDB_TYPE_LIST_ZIPLIST, RDB_TYPE_MODULE_2, RDB_TYPE_MODULE_PRE_GA, RDB_TYPE_SET,
    RDB_TYPE_SET_INTSET, RDB_TYPE_SET_LISTPACK, RDB_TYPE_STREAM_LISTPACKS,
    RDB_TYPE_STREAM_LISTPACKS_2, RDB_TYPE_STREAM_LISTPACKS_3, RDB_TYPE_STRING, RDB_TYPE_ZSET,
    RDB_TYPE_ZSET_2, RDB_TYPE_ZSET_LISTPACK, RDB_TYPE_ZSET_ZIPLIST,
};
use crate::streams;
use crate::text;
use crate::text::{join2, with_number};
use crate::types;
use crate::types::{
    corrupt, Double, HashField, HashFieldV, ModuleData, ModuleDataV, RdbError, RdbErrorV, RdbValue,
    RdbValueV,
};
use crate::wire;
use crate::wire::{ByteSource, Cursor, Parsed, SourceV};
use crate::ziplist;
use vstd::prelude::*;

verus! {

// ---- Plain collections ----

/// The type codes whose values list their elements one by one, and can be read in chunks.
pub open spec fn plain_type(t: u8) -> bool {
    t == RDB_TYPE_LIST || t == RDB_TYPE_SET || t == RDB_TYPE_ZSET || t == RDB_TYPE_HASH || t
        == RDB_TYPE_ZSET_2 || t == RDB_TYPE_HASH_2
}

/// Returns true if the type code is a plain-encoded type that can be chunked.
pub fn is_plain_type(type_code: u8) -> (r: bool)
    ensures
        r == plain_type(type_code),
{
    type_code == RDB_TYPE_LIST || type_code == RDB_TYPE_SET || type_code == RDB_TYPE_ZSET
        || type_code == RDB_TYPE_HASH || type_code == RDB_TYPE_ZSET_2 || type_code
        == RDB_TYPE_HASH_2
}

/// Reading a string.
pub open spec fn string_fn(s: SourceV) -> spec_fn(int) -> Parsed<Seq<u8>> {
    |q: int| wire::string(s, q)
}

/// A sorted-set member and its score.
pub open spec fn member(s: SourceV, p: int, binary: bool) -> Parsed<(Seq<u8>, Double)> {
    match wire::string(s, p) {
        Err(e) => Err(e),
        Ok((m, q)) => match (if binary {
            wire::binary_score(s, q)
        } else {
            wire::text_score(s, q)
        }) {
            Err(e) => Err(e),
            Ok((d, q2)) => Ok(((m, d), q2)),
        },
    }
}

/// Reading a sorted-set member and its score.
pub open spec fn member_fn(s: SourceV, binary: bool) -> spec_fn(int) -> Parsed<(Seq<u8>, Double)> {
    |q: int| member(s, q, binary)
}

/// A hash field and its value, with an expiry after them or without; an expiry of -1 is none.
pub open spec fn field(s: SourceV, p: int, with_expiry: bool) -> Parsed<HashFieldV> {
    match wire::string(s, p) {
        Err(e) => Err(e),
        Ok((f, q)) => match wire::string(s, q) {
            Err(e) => Err(e),
            Ok((v, q2)) => if with_expiry {
                match wire::i64_le(s, q2) {
                    Err(e) => Err(e),
                    Ok((ttl, q3)) => Ok(
                        (
                            HashFieldV {
                                field: f,
                                value: v,
                                expiry_ms: if ttl == -1 {
                                    None
                                } else {
                                    Some(ttl)
                                },
                            },
                            q3,
                        ),
                    ),
                }
            } else {
                Ok((HashFieldV { field: f, value: v, expiry_ms: None }, q2))
            },
        },
    }
}

/// Reading a hash field.
pub open spec fn field_fn(s: SourceV, with_expiry: bool) -> spec_fn(int) -> Parsed<HashFieldV> {
    |q: int| field(s, q, with_expiry)
}

/// The value made of the `n` elements at `p`, for a plain type.
#[verifier::opaque]
pub open spec fn elements(s: SourceV, t: u8, p: int, n: nat) -> Parsed<RdbValueV> {
    if t == RDB_TYPE_LIST {
        match wire::repeat(string_fn(s), p, n) {
            Ok((v, q)) => Ok((RdbValueV::List(v), q)),
            Err(e) => Err(e),
        }
    } else if t == RDB_TYPE_SET {
        match wire::repeat(string_fn(s), p, n) {
            Ok((v, q)) => Ok((RdbValueV::UnorderedSet(v), q)),
            Err(e) => Err(e),
        }
    } else if t == RDB_TYPE_ZSET || t == RDB_TYPE_ZSET_2 {
        match wire::repeat(member_fn(s, t == RDB_TYPE_ZSET_2), p, n) {
            Ok((v, q)) => Ok((RdbValueV::SortedSet(v), q)),
            Err(e) => Err(e),
        }
    } else if t == RDB_TYPE_HASH || t == RDB_TYPE_HASH_2 {
        match wire::repeat(field_fn(s, t == RDB_TYPE_HASH_2), p, n) {
            Ok((v, q)) => Ok((RdbValueV::Hash(v), q)),
            Err(e) => Err(e),
        }
    } else {
        Err(
            RdbErrorV::CorruptData(
                "read_n_elements called with non-plain type code "@ + text::dec(t as int) + ""@,
            ),
        )
    }
}

/// Two collections of one kind in a row.
pub open spec fn joined(a: RdbValueV, b: RdbValueV) -> RdbValueV {
    match (a, b) {
        (RdbValueV::List(x), RdbValueV::List(y)) => RdbValueV::List(x + y),
        (RdbValueV::UnorderedSet(x), RdbValueV::UnorderedSet(y)) => RdbValueV::UnorderedSet(x + y),
        (RdbValueV::SortedSet(x), RdbValueV::SortedSet(y)) => RdbValueV::SortedSet(x + y),
        (RdbValueV::Hash(x), RdbValueV::Hash(y)) => RdbValueV::Hash(x + y),
        _ => a,
    }
}

/// Reading a collection in two chunks reads the same elements, up to the same place, as
/// reading it at once; and it fails in the same way.
pub proof fn law_chunks_join(s: SourceV, t: u8, p: int, a: nat, b: nat)
    requires
        plain_type(t),
    ensures
        elements(s, t, p, a + b) == (match elements(s, t, p, a) {
            Err(e) => Err::<(RdbValueV, int), RdbErrorV>(e),
            Ok((v, q)) => match elements(s, t, q, b) {
                Err(e) => Err(e),
                Ok((w, q2)) => Ok((joined(v, w), q2)),
            },
        }),
{
    reveal(elements);
    wire::lemma_repeat_split(string_fn(s), p, a, b);
    wire::lemma_repeat_split(member_fn(s, t == RDB_TYPE_ZSET_2), p, a, b);
    wire::lemma_repeat_split(field_fn(s, t == RDB_TYPE_HASH_2), p, a, b);
}

impl<R: ByteSource> Cursor<R> {
    fn read_strings(&mut self, n: usize) -> (r: Result<Vec<Vec<u8>>, RdbError>)
        requires
            old(self).ready(),
        ensures
            final(self).ready(),
            final(self).source() == old(self).source(),
            wire::reading(r, |v: Vec<Vec<u8>>| types::byte_strings(v@), final(self).pos())
                == wire::repeat(string_fn(old(self).source()), old(self).pos(), n as nat),
    {
        let ghost s = self.source();
        let ghost p = self.pos();
        let mut out: Vec<Vec<u8>> = Vec::new();
        let mut i: usize = 0;
        assert(types::byte_strings(out@) == Seq::<Seq<u8>>::empty());
        while i < n
            invariant
                i <= n,
                self.ready(),
                self.source() == old(self).source(),
                s == old(self).source(),
                p == old(self).pos(),
                wire::repeat(string_fn(s), p, i as nat) == Ok::<(Seq<Seq<u8>>, int), RdbErrorV>(
                    (types::byte_strings(out@), self.pos()),
                ),
            decreases n - i,
        {
            match self.read_string() {
                Ok(v) => {
                    let ghost before = out@;
                    let ghost x = v@;
                    out.push(v);
                    assert(types::byte_strings(out@) == types::byte_strings(before).push(x));
                },
                Err(e) => {
                    proof {
                        wire::lemma_repeat_fails(string_fn(s), p, (i + 1) as nat, n as nat);
                    }
                    return Err(e);
                },
            }
            i += 1;
        }
        Ok(out)
    }

    fn read_members(&mut self, n: usize, binary: bool) -> (r: Result<
        Vec<(Vec<u8>, Double)>,
        RdbError,
    >)
        requires
            old(self).ready(),
        ensures
            final(self).ready(),
            final(self).source() == old(self).source(),
            wire::reading(
                r,
                |v: Vec<(Vec<u8>, Double)>| types::scored_members(v@),
                final(self).pos(),
            ) == wire::repeat(
                member_fn(old(self).source(), binary),
                old(self).pos(),
                n as nat,
            ),
    {
        let ghost s = self.source();
        let ghost p = self.pos();
        let mut out: Vec<(Vec<u8>, Double)> = Vec::new();
        let mut i: usize = 0;
        assert(types::scored_members(out@) == Seq::<(Seq<u8>, Double)>::empty());
        while i < n
            invariant
                i <= n,
                self.ready(),
                self.source() == old(self).source(),
                s == old(self).source(),
                p == old(self).pos(),
                wire::repeat(member_fn(s, binary), p, i as nat) == Ok::<
                    (Seq<(Seq<u8>, Double)>, int),
                    RdbErrorV,
                >((types::scored_members(out@), self.pos())),
            decreases n - i,
        {
            let m = match self.read_string() {
                Ok(v) => v,
                Err(e) => {
                    proof {
                        wire::lemma_repeat_fails(member_fn(s, binary), p, (i + 1) as nat, n as nat);
                    }
                    return Err(e);
                },
            };
            let score = if binary {
                match self.read_u64_le() {
                    Ok(bits) => Ok(Double { bits }),
                    Err(e) => Err(e),
                }
            } else {
                self.read_double_value()
            };
            match score {
                Ok(d) => {
                    let ghost before = out@;
                    let ghost x = (m@, d);
                    out.push((m, d));
                    assert(types::scored_members(out@) == types::scored_members(before).push(x));
                },
                Err(e) => {
                    proof {
                        wire::lemma_repeat_fails(member_fn(s, binary), p, (i + 1) as nat, n as nat);
                    }
                    return Err(e);
                },
            }
            i += 1;
        }
        Ok(out)
    }

    fn read_field(&mut self, with_expiry: bool) -> (r: Result<HashField, RdbError>)
        requires
            old(self).ready(),
        ensures
            final(self).ready(),
            final(self).source() == old(self).source(),
            wire::reading(r, |f: HashField| f@, final(self).pos()) == field(
                old(self).source(),
                old(self).pos(),
                with_expiry,
            ),
    {
        let field = match self.read_string() {
            Ok(v) => v,
            Err(e) => {
                return Err(e);
            },
        };
        let value = match self.read_string() {
            Ok(v) => v,
            Err(e) => {
                return Err(e);
            },
        };
        if !with_expiry {
            return Ok(HashField { field, value, expiry_ms: None });
        }
        match self.read_i64_le() {
            Ok(ttl) => Ok(
                HashField {
                    field,
                    value,
                    expiry_ms: if ttl == -1 {
                        None
                    } else {
                        Some(ttl)
                    },
                },
            ),
            Err(e) => Err(e),
        }
    }

    fn read_fields(&mut self, n: usize, with_expiry: bool) -> (r: Result<Vec<HashField>, RdbError>)
        requires
            old(self).ready(),
        ensures
            final(self).ready(),
            final(self).source() == old(self).source(),
            wire::reading(r, |v: Vec<HashField>| types::hash_fields(v@), final(self).pos())
                == wire::repeat(
                field_fn(old(self).source(), with_expiry),
                old(self).pos(),
                n as nat,
            ),
    {
        let ghost s = self.source();
        let ghost p = self.pos();
        let mut out: Vec<HashField> = Vec::new();
        let mut i: usize = 0;
        assert(types::hash_fields(out@) == Seq::<HashFieldV>::empty());
        while i < n
            invariant
                i <= n,
                self.ready(),
                self.source() == old(self).source(),
                s == old(self).source(),
                p == old(self).pos(),
                wire::repeat(field_fn(s, with_expiry), p, i as nat) == Ok::<
                    (Seq<HashFieldV>, int),
                    RdbErrorV,
                >((types::hash_fields(out@), self.pos())),
            decreases n - i,
        {
            match self.read_field(with_expiry) {
                Ok(f) => {
                    let ghost before = out@;
                    let ghost x = f@;
                    out.push(f);
                    assert(types::hash_fields(out@) == types::hash_fields(before).push(x));
                },
                Err(e) => {
                    proof {
                        wire::lemma_repeat_fails(
                            field_fn(s, with_expiry),
                            p,
                            (i + 1) as nat,
                            n as nat,
                        );
                    }
                    return Err(e);
                },
            }
            i += 1;
        }
        Ok(out)
    }

    /// Reads exactly `n` elements of a plain-encoded type.
    pub fn read_n_elements(&mut self, type_code: u8, n: usize) -> (r: Result<RdbValue, RdbError>)
        requires
            old(self).ready(),
        ensures
            final(self).ready(),
            final(self).source() == old(self).source(),
            wire::reading(r, |v: RdbValue| v@, final(self).pos()) == elements(
                old(self).source(),
                type_code,
                old(self).pos(),
                n as nat,
            ),
    {
        proof {
            reveal(elements);
        }
        if type_code == RDB_TYPE_LIST {
            return match self.read_strings(n) {
                Ok(v) => Ok(RdbValue::List(v)),
                Err(e) => Err(e),
            };
        }
        if type_code == RDB_TYPE_SET {
            return match self.read_strings(n) {
                Ok(v) => Ok(RdbValue::UnorderedSet(v)),
                Err(e) => Err(e),
            };
        }
        if type_code == RDB_TYPE_ZSET || type_code == RDB_TYPE_ZSET_2 {
            return match self.read_members(n, type_code == RDB_TYPE_ZSET_2) {
                Ok(v) => Ok(RdbValue::SortedSet(v)),
                Err(e) => Err(e),
            };
        }
        if type_code == RDB_TYPE_HASH || type_code == RDB_TYPE_HASH_2 {
            return match self.read_fields(n, type_code == RDB_TYPE_HASH_2) {
                Ok(v) => Ok(RdbValue::Hash(v)),
                Err(e) => Err(e),
            };
        }
        Err(
            RdbError::CorruptData(
                with_number(
                    "read_n_elements called with non-plain type code ",
                    type_code as u64,
                    "",
                ),
            ),
        )
    }
}

// ---- Compact collections ----

/// The error for compact entries that do not come in pairs.
pub open spec fn odd_error(ctx: Seq<char>) -> RdbErrorV {
    RdbErrorV::CorruptData(ctx + " has odd number of entries"@)
}

/// Compact entries as hash fields: field, value, field, value, and so on.
pub open spec fn hash_pairs(es: Seq<CompactEntryV>, ctx: Seq<char>) -> Result<
    Seq<HashFieldV>,
    RdbErrorV,
> {
    if es.len() % 2 != 0 {
        Err(odd_error(ctx))
    } else {
        Ok(
            Seq::new(
                es.len() / 2,
                |i: int|
                    HashFieldV {
                        field: es[2 * i].as_bytes(),
                        value: es[2 * i + 1].as_bytes(),
                        expiry_ms: None,
                    },
            ),
        )
    }
}

/// The first `n` pairs of compact entries as members and scores.
pub open spec fn scored_pairs(es: Seq<CompactEntryV>, n: nat) -> Result<
    Seq<(Seq<u8>, Double)>,
    RdbErrorV,
>
    decreases n,
{
    if n == 0 {
        Ok(Seq::empty())
    } else {
        match scored_pairs(es, (n - 1) as nat) {
            Err(e) => Err(e),
            Ok(v) => match es[2 * n - 1].score() {
                Err(e) => Err(e),
                Ok(d) => Ok(v.push((es[2 * n - 2].as_bytes(), d))),
            },
        }
    }
}

/// Compact entries as a sorted set: member, score, member, score, and so on.
pub open spec fn zset_pairs(es: Seq<CompactEntryV>, ctx: Seq<char>) -> Result<
    Seq<(Seq<u8>, Double)>,
    RdbErrorV,
> {
    if es.len() % 2 != 0 {
        Err(odd_error(ctx))
    } else {
        scored_pairs(es, es.len() / 2)
    }
}

proof fn lemma_scored_pairs_fail(es: Seq<CompactEntryV>, i: nat, n: nat)
    requires
        i <= n,
        scored_pairs(es, i) is Err,
    ensures
        scored_pairs(es, n) == scored_pairs(es, i),
    decreases n - i,
{
    if i < n {
        lemma_scored_pairs_fail(es, i, (n - 1) as nat);
    }
}

/// Turns compact entries into hash fields.
pub fn decode_hash_pairs(entries: Vec<CompactEntry>, ctx: &str) -> (r: Result<
    Vec<HashField>,
    RdbError,
>)
    ensures
        (match r {
            Ok(v) => Ok(types::hash_fields(v@)),
            Err(e) => Err(e@),
        }) == hash_pairs(compact::compact_entries(entries@), ctx@),
{
    if entries.len() % 2 != 0 {
        return Err(RdbError::CorruptData(join2(ctx, " has odd number of entries")));
    }
    let ghost es = compact::compact_entries(entries@);
    let count: usize = entries.len() / 2;
    let mut out: Vec<HashField> = Vec::with_capacity(count);
    let mut i: usize = 0;
    let ghost pair = |k: int|
        HashFieldV { field: es[2 * k].as_bytes(), value: es[2 * k + 1].as_bytes(), expiry_ms: None };
    while i < count
        invariant
            i <= count,
            2 * count == entries.len(),
            es == compact::compact_entries(entries@),
            pair == (|k: int|
                HashFieldV {
                    field: es[2 * k].as_bytes(),
                    value: es[2 * k + 1].as_bytes(),
                    expiry_ms: None,
                }),
            types::hash_fields(out@) == Seq::new(i as nat, pair),
        decreases count - i,
    {
        let field = entries[2 * i].to_bytes();
        let value = entries[2 * i + 1].to_bytes();
        let ghost before = out@;
        out.push(HashField { field, value, expiry_ms: None });
        assert(types::hash_fields(out@) == types::hash_fields(before).push(pair(i as int)));
        i += 1;
        assert(types::hash_fields(out@) == Seq::new(i as nat, pair));
    }
    Ok(out)
}

/// Turns compact entries into sorted-set members and scores.
pub fn decode_zset_pairs(entries: Vec<CompactEntry>, ctx: &str) -> (r: Result<
    Vec<(Vec<u8>, Double)>,
    RdbError,
>)
    ensures
        (match r {
            Ok(v) => Ok(types::scored_members(v@)),
            Err(e) => Err(e@),
        }) == zset_pairs(compact::compact_entries(entries@), ctx@),
{
    if entries.len() % 2 != 0 {
        return Err(RdbError::CorruptData(join2(ctx, " has odd number of entries")));
    }
    let ghost es = compact::compact_entries(entries@);
    let count: usize = entries.len() / 2;
    let mut out: Vec<(Vec<u8>, Double)> = Vec::with_capacity(count);
    let mut i: usize = 0;
    assert(types::scored_members(out@) == Seq::<(Seq<u8>, Double)>::empty());
    while i < count
        invariant
            i <= count,
            2 * count == entries.len(),
            es == compact::compact_entries(entries@),
            scored_pairs(es, i as nat) == Ok::<Seq<(Seq<u8>, Double)>, RdbErrorV>(
                types::scored_members(out@),
            ),
        decreases count - i,
    {
        match entries[2 * i + 1].to_f64() {
            Ok(d) => {
                let m = entries[2 * i].to_bytes();
                let ghost before = out@;
                let ghost x = (m@, d);
                out.push((m, d));
                assert(types::scored_members(out@) == types::scored_members(before).push(x));
            },
            Err(e) => {
                proof {
                    lemma_scored_pairs_fail(es, (i + 1) as nat, count as nat);
                }
                return Err(e);
            },
        }
        i += 1;
    }
    Ok(out)
}

/// Turns compact entries into byte strings.
fn entries_to_bytes(entries: &Vec<CompactEntry>) -> (r: Vec<Vec<u8>>)
    ensures
        types::byte_strings(r@) == compact::entry_bytes(compact::compact_entries(entries@)),
{
    let ghost es = compact::compact_entries(entries@);
    let mut out: Vec<Vec<u8>> = Vec::with_capacity(entries.len());
    let mut i: usize = 0;
    while i < entries.len()
        invariant
            i <= entries@.len(),
            es == compact::compact_entries(entries@),
            types::byte_strings(out@) == compact::entry_bytes(es).take(i as int),
        decreases entries@.len() - i,
    {
        let ghost before = out@;
        out.push(entries[i].to_bytes());
        assert(types::byte_strings(out@) == types::byte_strings(before).push(
            es[i as int].as_bytes(),
        ));
        i += 1;
        assert(types::byte_strings(out@) == compact::entry_bytes(es).take(i as int));
    }
    assert(compact::entry_bytes(es).take(i as int) == compact::entry_bytes(es));
    out
}

// ---- Quicklists ----

/// The elements of one quicklist node: a ziplist blob.
pub open spec fn quicklist_node(s: SourceV, p: int) -> Parsed<Seq<Seq<u8>>> {
    match wire::string(s, p) {
        Err(e) => Err(e),
        Ok((blob, q)) => match ziplist::entries(blob) {
            Err(e) => Err(e),
            Ok(es) => Ok((compact::entry_bytes(es), q)),
        },
    }
}

/// The elements of one node of a version 2 quicklist: a container kind, and a blob that is
/// one element (1) or a listpack (2).
pub open spec fn quicklist2_node(s: SourceV, p: int) -> Parsed<Seq<Seq<u8>>> {
    match wire::plain_length(s, p) {
        Err(e) => Err(e),
        Ok((container, q)) => match wire::string(s, q) {
            Err(e) => Err(e),
            Ok((blob, q2)) => if container == 1 {
                Ok((seq![blob], q2))
            } else if container == 2 {
                match listpack::entries(blob) {
                    Err(e) => Err(e),
                    Ok(es) => Ok((compact::entry_bytes(es), q2)),
                }
            } else {
                Err(
                    RdbErrorV::CorruptData(
                        "quicklist2 unknown container type: "@ + text::dec(container as int) + ""@,
                    ),
                )
            },
        },
    }
}

/// A quicklist node, of version 2 or 1.
#[verifier::opaque]
pub open spec fn node(s: SourceV, p: int, v2: bool) -> Parsed<Seq<Seq<u8>>> {
    if v2 {
        quicklist2_node(s, p)
    } else {
        quicklist_node(s, p)
    }
}

/// Reading a quicklist node, of version 2 or 1.
pub open spec fn node_fn(s: SourceV, v2: bool) -> spec_fn(int) -> Parsed<Seq<Seq<u8>>> {
    |q: int| node(s, q, v2)
}

/// The elements of several nodes in a row.
pub open spec fn flat(nodes: Seq<Seq<Seq<u8>>>) -> Seq<Seq<u8>>
    decreases nodes.len(),
{
    if nodes.len() == 0 {
        Seq::empty()
    } else {
        flat(nodes.drop_last()) + nodes.last()
    }
}

/// The elements of a quicklist: a node count and the nodes.
pub open spec fn quicklist(s: SourceV, p: int, v2: bool) -> Parsed<Seq<Seq<u8>>> {
    match wire::size(s, p, "element count"@) {
        Err(e) => Err(e),
        Ok((n, q)) => match wire::repeat(node_fn(s, v2), q, n) {
            Err(e) => Err(e),
            Ok((nodes, q2)) => Ok((flat(nodes), q2)),
        },
    }
}

impl<R: ByteSource> Cursor<R> {
    fn read_node(&mut self, v2: bool) -> (r: Result<Vec<Vec<u8>>, RdbError>)
        requires
            old(self).ready(),
        ensures
            final(self).ready(),
            final(self).source() == old(self).source(),
            wire::reading(r, |v: Vec<Vec<u8>>| types::byte_strings(v@), final(self).pos())
                == node(old(self).source(), old(self).pos(), v2),
    {
        proof {
            reveal(node);
        }
        if v2 {
            let container = match self.read_length_value() {
                Ok(n) => n,
                Err(e) => {
                    return Err(e);
                },
            };
            let blob = match self.read_string() {
                Ok(v) => v,
                Err(e) => {
                    return Err(e);
                },
            };
            if container == 1 {
                let mut out: Vec<Vec<u8>> = Vec::new();
                let ghost x = blob@;
                out.push(blob);
                assert(types::byte_strings(out@) == seq![x]);
                return Ok(out);
            }
            if container == 2 {
                return match listpack::decode(blob.as_slice()) {
                    Ok(es) => Ok(entries_to_bytes(&es)),
                    Err(e) => Err(e),
                };
            }
            return Err(
                RdbError::CorruptData(
                    with_number("quicklist2 unknown container type: ", container, ""),
                ),
            );
        }
        let blob = match self.read_string() {
            Ok(v) => v,
            Err(e) => {
                return Err(e);
            },
        };
        match ziplist::decode(blob.as_slice()) {
            Ok(es) => Ok(entries_to_bytes(&es)),
            Err(e) => Err(e),
        }
    }

    fn read_quicklist(&mut self, v2: bool) -> (r: Result<Vec<Vec<u8>>, RdbError>)
        requires
            old(self).ready(),
        ensures
            final(self).ready(),
            final(self).source() == old(self).source(),
            wire::reading(r, |v: Vec<Vec<u8>>| types::byte_strings(v@), final(self).pos())
                == quicklist(old(self).source(), old(self).pos(), v2),
    {
        let n = match self.read_size("element count") {
            Ok(n) => n,
            Err(e) => {
                return Err(e);
            },
        };
        let ghost s = self.source();
        let ghost p = self.pos();
        let ghost mut nodes: Seq<Seq<Seq<u8>>> = Seq::empty();
        let mut out: Vec<Vec<u8>> = Vec::new();
        let mut i: usize = 0;
        assert(types::byte_strings(out@) == flat(nodes));
        while i < n
            invariant
                i <= n,
                self.ready(),
                self.source() == old(self).source(),
                s == old(self).source(),
                wire::size(s, old(self).pos(), "element count"@) == Ok::<
                    (nat, int),
                    RdbErrorV,
                >((n as nat, p)),
                wire::repeat(node_fn(s, v2), p, i as nat) == Ok::<
                    (Seq<Seq<Seq<u8>>>, int),
                    RdbErrorV,
                >((nodes, self.pos())),
                types::byte_strings(out@) == flat(nodes),
            decreases n - i,
        {
            match self.read_node(v2) {
                Ok(mut node) => {
                    let ghost before = out@;
                    let ghost x = types::byte_strings(node@);
                    let ghost added = node@;
                    out.append(&mut node);
                    proof {
                        assert(out@ == before + added);
                        assert(types::byte_strings(out@) == types::byte_strings(before) + x);
                        assert(nodes.push(x).drop_last() == nodes);
                        nodes = nodes.push(x);
                    }
                },
                Err(e) => {
                    proof {
                        wire::lemma_repeat_fails(node_fn(s, v2), p, (i + 1) as nat, n as nat);
                    }
                    return Err(e);
                },
            }
            i += 1;
        }
        Ok(out)
    }
}

// ---- All types ----

/// Compact entries in a blob: a listpack or a ziplist.
pub open spec fn blob_entries(s: SourceV, p: int, zip: bool) -> Parsed<Seq<CompactEntryV>> {
    match wire::string(s, p) {
        Err(e) => Err(e),
        Ok((blob, q)) => match (if zip {
            ziplist::entries(blob)
        } else {
            listpack::entries(blob)
        }) {
            Err(e) => Err(e),
            Ok(es) => Ok((es, q)),
        },
    }
}

/// A list, set, hash or sorted set that is stored as one blob.
pub open spec fn blob_value(s: SourceV, t: u8, p: int) -> Parsed<RdbValueV> {
    if t == RDB_TYPE_SET_INTSET {
        match wire::string(s, p) {
            Err(e) => Err(e),
            Ok((blob, q)) => match intset::members(blob) {
                Err(e) => Err(e),
                Ok(v) => Ok((RdbValueV::UnorderedSet(v), q)),
            },
        }
    } else {
        let zip = t == RDB_TYPE_LIST_ZIPLIST || t == RDB_TYPE_HASH_ZIPLIST || t
            == RDB_TYPE_ZSET_ZIPLIST;
        match blob_entries(s, p, zip) {
            Err(e) => Err(e),
            Ok((es, q)) => if t == RDB_TYPE_SET_LISTPACK {
                Ok((RdbValueV::UnorderedSet(compact::entry_bytes(es)), q))
            } else if t == RDB_TYPE_LIST_ZIPLIST {
                Ok((RdbValueV::List(compact::entry_bytes(es)), q))
            } else if t == RDB_TYPE_HASH_LISTPACK || t == RDB_TYPE_HASH_ZIPLIST {
                match hash_pairs(
                    es,
                    if zip {
                        "hash ziplist"@
                    } else {
                        "hash listpack"@
                    },
                ) {
                    Err(e) => Err(e),
                    Ok(v) => Ok((RdbValueV::Hash(v), q)),
                }
            } else {
                match zset_pairs(
                    es,
                    if zip {
                        "zset ziplist"@
                    } else {
                        "zset listpack"@
                    },
                ) {
                    Err(e) => Err(e),
                    Ok(v) => Ok((RdbValueV::SortedSet(v), q)),
                }
            },
        }
    }
}

/// The type codes that `blob_value` is about.
pub open spec fn blob_type(t: u8) -> bool {
    t == RDB_TYPE_SET_INTSET || t == RDB_TYPE_SET_LISTPACK || t == RDB_TYPE_HASH_LISTPACK || t
        == RDB_TYPE_ZSET_LISTPACK || t == RDB_TYPE_LIST_ZIPLIST || t == RDB_TYPE_HASH_ZIPLIST || t
        == RDB_TYPE_ZSET_ZIPLIST
}

/// The module value at `p`: a type ID and a stream of values.
pub open spec fn module_value(s: SourceV, p: int) -> Parsed<ModuleDataV> {
    match wire::plain_length(s, p) {
        Err(e) => Err(e),
        Ok((id, q)) => match modules::module_list(s, q, Seq::empty(), 0) {
            Err(e) => Err(e),
            Ok((values, q2)) => Ok(
                (
                    ModuleDataV {
                        module_name: modules::module_name(id),
                        module_version: modules::module_version(id),
                        values,
                    },
                    q2,
                ),
            ),
        },
    }
}

/// The value of type `t` at `p`. A zipmap hash is passed over and gives `None`.
pub open spec fn value(s: SourceV, t: u8, p: int) -> Parsed<Option<RdbValueV>> {
    if t == RDB_TYPE_STRING {
        match wire::string(s, p) {
            Err(e) => Err(e),
            Ok((v, q)) => Ok((Some(RdbValueV::String(v)), q)),
        }
    } else if blob_type(t) {
        match blob_value(s, t, p) {
            Err(e) => Err(e),
            Ok((v, q)) => Ok((Some(v), q)),
        }
    } else if t == RDB_TYPE_HASH_ZIPMAP {
        match wire::string(s, p) {
            Err(e) => Err(e),
            Ok((_, q)) => Ok((None, q)),
        }
    } else if plain_type(t) {
        match wire::size(s, p, "element count"@) {
            Err(e) => Err(e),
            Ok((n, q)) => match elements(s, t, q, n) {
                Err(e) => Err(e),
                Ok((v, q2)) => Ok((Some(v), q2)),
            },
        }
    } else if t == RDB_TYPE_LIST_QUICKLIST || t == RDB_TYPE_LIST_QUICKLIST_2 {
        match quicklist(s, p, t == RDB_TYPE_LIST_QUICKLIST_2) {
            Err(e) => Err(e),
            Ok((v, q)) => Ok((Some(RdbValueV::List(v)), q)),
        }
    } else if t == RDB_TYPE_STREAM_LISTPACKS || t == RDB_TYPE_STREAM_LISTPACKS_2 || t
        == RDB_TYPE_STREAM_LISTPACKS_3 {
        match streams::stream_value(s, t, p) {
            Err(e) => Err(e),
            Ok((d, q)) => Ok((Some(RdbValueV::Stream(d)), q)),
        }
    } else if t == RDB_TYPE_MODULE_2 {
        match module_value(s, p) {
            Err(e) => Err(e),
            Ok((m, q)) => Ok((Some(RdbValueV::Module(m)), q)),
        }
    } else if t == RDB_TYPE_MODULE_PRE_GA {
        Err(RdbErrorV::CorruptData("MODULE_PRE_GA (type 6) is not supported"@))
    } else {
        Err(
            RdbErrorV::CorruptData(
                "type "@ + text::dec(t as int)
                    + " recognized as object type but has no decoder or skip logic"@,
            ),
        )
    }
}

/// Every type code that stands for a value is decoded, passed over, or the one that is
/// refused: none falls through to the last error of `value`.
pub proof fn law_object_types_are_covered(t: u8)
    requires
        opcodes::object_type(t),
    ensures
        t == RDB_TYPE_STRING || blob_type(t) || t == RDB_TYPE_HASH_ZIPMAP || plain_type(t) || t
            == RDB_TYPE_LIST_QUICKLIST || t == RDB_TYPE_LIST_QUICKLIST_2 || t
            == RDB_TYPE_STREAM_LISTPACKS || t == RDB_TYPE_STREAM_LISTPACKS_2 || t
            == RDB_TYPE_STREAM_LISTPACKS_3 || t == RDB_TYPE_MODULE_2 || t
            == RDB_TYPE_MODULE_PRE_GA,
{
}

/// The kind of value that a type code is decoded to.
pub open spec fn kind_of(t: u8, v: RdbValueV) -> bool {
    match v {
        RdbValueV::String(_) => opcodes::type_label(t) == "string"@,
        RdbValueV::List(_) => opcodes::type_label(t) == "list"@,
        RdbValueV::UnorderedSet(_) => opcodes::type_label(t) == "set"@,
        RdbValueV::SortedSet(_) => opcodes::type_label(t) == "zset"@,
        RdbValueV::Hash(_) => opcodes::type_label(t) == "hash"@,
        RdbValueV::Module(_) => opcodes::type_label(t) == "module"@,
        RdbValueV::Stream(_) => opcodes::type_label(t) == "stream"@,
    }
}

proof fn lemma_elements_kind(s: SourceV, t: u8, p: int, n: nat)
    requires
        plain_type(t),
    ensures
        elements(s, t, p, n) matches Ok((v, _)) ==> kind_of(t, v),
{
    reveal(elements);
}

proof fn lemma_blob_kind(s: SourceV, t: u8, p: int)
    requires
        blob_type(t),
    ensures
        blob_value(s, t, p) matches Ok((v, _)) ==> kind_of(t, v),
{
}

/// A decoded value is of the kind that the name of its type code says.
pub proof fn law_value_kind(s: SourceV, t: u8, p: int)
    ensures
        value(s, t, p) matches Ok((Some(v), _)) ==> kind_of(t, v),
{
    if blob_type(t) {
        lemma_blob_kind(s, t, p);
    } else if plain_type(t) {
        if let Ok((n, q)) = wire::size(s, p, "element count"@) {
            lemma_elements_kind(s, t, q, n);
        }
    }
}

impl<R: ByteSource> Cursor<R> {
    fn read_blob_entries(&mut self, zip: bool) -> (r: Result<Vec<CompactEntry>, RdbError>)
        requires
            old(self).ready(),
        ensures
            final(self).ready(),
            final(self).source() == old(self).source(),
            wire::reading(
                r,
                |v: Vec<CompactEntry>| compact::compact_entries(v@),
                final(self).pos(),
            ) == blob_entries(old(self).source(), old(self).pos(), zip),
    {
        let blob = match self.read_string() {
            Ok(v) => v,
            Err(e) => {
                return Err(e);
            },
        };
        if zip {
            ziplist::decode(blob.as_slice())
        } else {
            listpack::decode(blob.as_slice())
        }
    }

    fn read_blob_value(&mut self, type_code: u8) -> (r: Result<RdbValue, RdbError>)
        requires
            old(self).ready(),
        ensures
            final(self).ready(),
            final(self).source() == old(self).source(),
            wire::reading(r, |v: RdbValue| v@, final(self).pos()) == blob_value(
                old(self).source(),
                type_code,
                old(self).pos(),
            ),
    {
        if type_code == RDB_TYPE_SET_INTSET {
            let blob = match self.read_string() {
                Ok(v) => v,
                Err(e) => {
                    return Err(e);
                },
            };
            return match intset::decode(blob.as_slice()) {
                Ok(v) => Ok(RdbValue::UnorderedSet(v)),
                Err(e) => Err(e),
            };
        }
        let zip = type_code == RDB_TYPE_LIST_ZIPLIST || type_code == RDB_TYPE_HASH_ZIPLIST
            || type_code == RDB_TYPE_ZSET_ZIPLIST;
        let es = match self.read_blob_entries(zip) {
            Ok(v) => v,
            Err(e) => {
                return Err(e);
            },
        };
        if type_code == RDB_TYPE_SET_LISTPACK {
            return Ok(RdbValue::UnorderedSet(entries_to_bytes(&es)));
        }
        if type_code == RDB_TYPE_LIST_ZIPLIST {
            return Ok(RdbValue::List(entries_to_bytes(&es)));
        }
        if type_code == RDB_TYPE_HASH_LISTPACK || type_code == RDB_TYPE_HASH_ZIPLIST {
            let ctx = if zip {
                "hash ziplist"
            } else {
                "hash listpack"
            };
            return match decode_hash_pairs(es, ctx) {
                Ok(v) => Ok(RdbValue::Hash(v)),
                Err(e) => Err(e),
            };
        }
        let ctx = if zip {
            "zset ziplist"
        } else {
            "zset listpack"
        };
        match decode_zset_pairs(es, ctx) {
            Ok(v) => Ok(RdbValue::SortedSet(v)),
            Err(e) => Err(e),
        }
    }

    fn read_module(&mut self) -> (r: Result<ModuleData, RdbError>)
        requires
            old(self).ready(),
        ensures
            final(self).ready(),
            final(self).source() == old(self).source(),
            wire::reading(r, |m: ModuleData| m@, final(self).pos()) == module_value(
                old(self).source(),
                old(self).pos(),
            ),
    {
        let id = match self.read_length_value() {
            Ok(n) => n,
            Err(e) => {
                return Err(e);
            },
        };
        let (module_name, module_version) = modules::decode_module_id(id);
        match self.read_module_data() {
            Ok(values) => Ok(ModuleData { module_name, module_version, values }),
            Err(e) => Err(e),
        }
    }

    /// Reads the value for a type code. `None` is a value of an unsupported type, which has
    /// been passed over.
    pub fn read_value(&mut self, type_code: u8) -> (r: Result<Option<RdbValue>, RdbError>)
        requires
            old(self).ready(),
        ensures
            final(self).ready(),
            final(self).source() == old(self).source(),
            wire::reading(
                r,
                |v: Option<RdbValue>|
                    match v {
                        None => None,
                        Some(x) => Some(x@),
                    },
                final(self).pos(),
            ) == value(old(self).source(), type_code, old(self).pos()),
    {
        if type_code == RDB_TYPE_STRING {
            return match self.read_string() {
                Ok(v) => Ok(Some(RdbValue::String(v))),
                Err(e) => Err(e),
            };
        }
        if type_code == RDB_TYPE_SET_INTSET || type_code == RDB_TYPE_SET_LISTPACK || type_code
            == RDB_TYPE_HASH_LISTPACK || type_code == RDB_TYPE_ZSET_LISTPACK || type_code
            == RDB_TYPE_LIST_ZIPLIST || type_code == RDB_TYPE_HASH_ZIPLIST || type_code
            == RDB_TYPE_ZSET_ZIPLIST {
            return match self.read_blob_value(type_code) {
                Ok(v) => Ok(Some(v)),
                Err(e) => Err(e),
            };
        }
        if type_code == RDB_TYPE_HASH_ZIPMAP {
            return match self.read_string() {
                Ok(_) => Ok(None),
                Err(e) => Err(e),
            };
        }
        if is_plain_type(type_code) {
            return match self.read_size("element count") {
                Ok(n) => match self.read_n_elements(type_code, n) {
                    Ok(v) => Ok(Some(v)),
                    Err(e) => Err(e),
                },
                Err(e) => Err(e),
            };
        }
        if type_code == RDB_TYPE_LIST_QUICKLIST || type_code == RDB_TYPE_LIST_QUICKLIST_2 {
            return match self.read_quicklist(type_code == RDB_TYPE_LIST_QUICKLIST_2) {
                Ok(v) => Ok(Some(RdbValue::List(v))),
                Err(e) => Err(e),
            };
        }
        if type_code == RDB_TYPE_STREAM_LISTPACKS || type_code == RDB_TYPE_STREAM_LISTPACKS_2
            || type_code == RDB_TYPE_STREAM_LISTPACKS_3 {
            return match self.read_stream(type_code) {
                Ok(d) => Ok(Some(RdbValue::Stream(d))),
                Err(e) => Err(e),
            };
        }
        if type_code == RDB_TYPE_MODULE_2 {
            return match self.read_module() {
                Ok(m) => Ok(Some(RdbValue::Module(m))),
                Err(e) => Err(e),
            };
        }
        if type_code == RDB_TYPE_MODULE_PRE_GA {
            return Err(corrupt("MODULE_PRE_GA (type 6) is not supported"));
        }
        Err(
            RdbError::CorruptData(
                with_number(
                    "type ",
                    type_code as u64,
                    " recognized as object type but has no decoder or skip logic",
                ),
            ),
        )
    }
}

} // verus!
