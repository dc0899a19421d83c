//! Streams as they are written, and that they are decoded to what was written.

use crate::compact::CompactEntryV;
use crate::stream::{record, records, stream_id, stream_of, StreamContext};
use crate::types::{RdbErrorV, StreamEntryV};
use vstd::prelude::*;

verus! {

/// A record of a stream: what its ID adds to the master ID, whether it is deleted, and whether
/// it has the fields of the master entry, which are then left out.
pub struct Record {
    pub ms_delta: u64,
    pub seq_delta: u64,
    pub deleted: bool,
    pub same_fields: bool,
    pub fields: Seq<(Seq<u8>, Seq<u8>)>,
    pub lp_count: u64,
}

/// A number as a listpack entry.
pub open spec fn number(n: int) -> CompactEntryV {
    CompactEntryV::Int(n as i64)
}

impl Record {
    /// The flags of the record.
    pub open spec fn flags(self) -> int {
        (if self.deleted {
            1int
        } else {
            0
        }) + if self.same_fields {
            2int
        } else {
            0
        }
    }

    /// The fields, as listpack entries: the values alone, or how many fields there are and
    /// then each field and its value.
    pub open spec fn body(self) -> Seq<CompactEntryV> {
        let n = self.fields.len();
        if self.same_fields {
            Seq::new(n, |i: int| CompactEntryV::Str(self.fields[i].1))
        } else {
            seq![number(n as int)] + Seq::new(
                2 * n,
                |j: int|
                    CompactEntryV::Str(
                        if j % 2 == 0 {
                            self.fields[j / 2].0
                        } else {
                            self.fields[j / 2].1
                        },
                    ),
            )
        }
    }

    /// The record as listpack entries.
    pub open spec fn written(self) -> Seq<CompactEntryV> {
        seq![
            number(self.flags()),
            number(self.ms_delta as int),
            number(self.seq_delta as int),
        ] + (self.body() + seq![number(self.lp_count as int)])
    }

    /// The stream entry that the record stands for, unless it is deleted.
    pub open spec fn entry(self, c: StreamContext) -> Option<StreamEntryV> {
        if self.deleted {
            None
        } else {
            Some(
                StreamEntryV {
                    id: stream_id(c.master_ms + self.ms_delta, c.master_seq + self.seq_delta),
                    fields: self.fields,
                },
            )
        }
    }

    /// Whether the record can be written: its numbers can, and fields that are left out are
    /// those of the master entry.
    pub open spec fn fits(self, c: StreamContext) -> bool {
        &&& self.ms_delta <= i64::MAX
        &&& self.seq_delta <= i64::MAX
        &&& self.lp_count <= i64::MAX
        &&& self.fields.len() <= i64::MAX
        &&& self.fields.len() <= usize::MAX
        &&& c.master_ms + self.ms_delta <= u64::MAX
        &&& c.master_seq + self.seq_delta <= u64::MAX
        &&& self.same_fields ==> self.fields.len() == c.fields.len() && forall|i: int|
            0 <= i < c.fields.len() ==> (#[trigger] self.fields[i]).0 == c.fields[i]
    }
}

/// The stream entries of records, those that are deleted left out.
pub open spec fn entries_of(rs: Seq<Record>, c: StreamContext) -> Seq<StreamEntryV>
    decreases rs.len(),
{
    if rs.len() == 0 {
        Seq::empty()
    } else {
        match rs[0].entry(c) {
            None => entries_of(rs.drop_first(), c),
            Some(e) => seq![e] + entries_of(rs.drop_first(), c),
        }
    }
}

/// Records in a row, as listpack entries.
pub open spec fn all_written(rs: Seq<Record>) -> Seq<CompactEntryV>
    decreases rs.len(),
{
    if rs.len() == 0 {
        Seq::empty()
    } else {
        rs[0].written() + all_written(rs.drop_first())
    }
}

/// A stream listpack, as listpack entries: how many records there are and how many of them
/// are deleted, the fields of the master entry, and the records.
pub open spec fn listpack_of(fields: Seq<Seq<u8>>, rs: Seq<Record>, deleted: nat) -> Seq<
    CompactEntryV,
> {
    seq![
        number(rs.len() - deleted),
        number(deleted as int),
        number(fields.len() as int),
    ] + (Seq::new(fields.len(), |i: int| CompactEntryV::Str(fields[i])) + (seq![number(0)]
        + all_written(rs)))
}

proof fn lemma_record(es: Seq<CompactEntryV>, p: int, c: StreamContext, r: Record)
    requires
        0 <= p,
        p + r.written().len() <= es.len(),
        es.subrange(p, p + r.written().len()) == r.written(),
        r.fits(c),
    ensures
        record(es, p, c) == Ok::<(Option<StreamEntryV>, int), RdbErrorV>(
            (r.entry(c), p + r.written().len()),
        ),
{
    let w = r.written();
    let body = r.body();
    let n = r.fields.len() as int;
    assert(forall|i: int| 0 <= i < w.len() ==> w[i] == #[trigger] es.subrange(p, p + w.len())[i]);
    assert forall|i: int| 0 <= i < w.len() implies #[trigger] es[p + i] == w[i] by {
        assert(es.subrange(p, p + w.len())[i] == es[p + i]);
    }
    assert(es[p + 0] == number(r.flags()));
    assert(es[p + 1] == number(r.ms_delta as int));
    assert(es[p + 2] == number(r.seq_delta as int));
    let q = p + 3 + body.len();
    assert(w.len() == 4 + body.len());
    assert(es[p + (3 + body.len())] == number(r.lp_count as int));
    assert forall|j: int| 0 <= j < body.len() implies #[trigger] es[p + 3 + j] == body[j] by {
        assert(es[p + (3 + j)] == w[3 + j]);
    }
    if r.same_fields {
        let got = Seq::new(c.fields.len(), |i: int| (c.fields[i], es[p + 3 + i].as_bytes()));
        assert forall|i: int| 0 <= i < n implies #[trigger] got[i] == r.fields[i] by {
            assert(es[p + 3 + i] == body[i]);
        }
        assert(got == r.fields);
    } else {
        assert(es[p + 3 + 0] == body[0]);
        let got = Seq::new(
            n as nat,
            |i: int| (es[p + 3 + 1 + 2 * i].as_bytes(), es[p + 3 + 2 + 2 * i].as_bytes()),
        );
        assert forall|i: int| 0 <= i < n implies #[trigger] got[i] == r.fields[i] by {
            assert(es[p + 3 + (1 + 2 * i)] == body[1 + 2 * i]);
            assert(es[p + 3 + (2 + 2 * i)] == body[2 + 2 * i]);
        }
        assert(got == r.fields);
    }
}

proof fn lemma_records(
    es: Seq<CompactEntryV>,
    p: int,
    rs: Seq<Record>,
    c: StreamContext,
    budget: int,
    acc: Seq<StreamEntryV>,
)
    requires
        0 <= p <= es.len(),
        es.skip(p) == all_written(rs),
        forall|i: int| 0 <= i < rs.len() ==> (#[trigger] rs[i]).fits(c),
        acc.len() + entries_of(rs, c).len() <= budget,
    ensures
        records(es, p, rs.len(), c, budget, acc) == Ok::<Seq<StreamEntryV>, RdbErrorV>(
            acc + entries_of(rs, c),
        ),
    decreases rs.len(),
{
    if rs.len() == 0 {
        assert(es.skip(p).len() == 0);
        assert(acc + entries_of(rs, c) == acc);
    } else {
        let r = rs[0];
        let rest = rs.drop_first();
        let w = r.written();
        let all = es.skip(p);
        assert(all.len() == es.len() - p);
        assert(es.subrange(p, p + w.len()) == all.take(w.len() as int));
        assert(all.take(w.len() as int) == w);
        assert(es.skip(p + w.len()) == all.skip(w.len() as int));
        assert(all.skip(w.len() as int) == all_written(rest));
        assert(r.fits(c));
        lemma_record(es, p, c, r);
        assert forall|i: int| 0 <= i < rest.len() implies (#[trigger] rest[i]).fits(c) by {
            assert(rest[i] == rs[i + 1]);
        }
        match r.entry(c) {
            None => {
                lemma_records(es, p + w.len(), rest, c, budget, acc);
            },
            Some(e) => {
                lemma_records(es, p + w.len(), rest, c, budget, acc.push(e));
                assert(acc.push(e) + entries_of(rest, c) == acc + entries_of(rs, c));
            },
        }
    }
}

/// A stream listpack that was written is decoded to the entries that were written, in order,
/// those that are marked as deleted left out.
pub proof fn law_stream_reads_back(
    c: StreamContext,
    rs: Seq<Record>,
    deleted: nat,
    budget: int,
)
    requires
        forall|i: int| 0 <= i < rs.len() ==> (#[trigger] rs[i]).fits(c),
        deleted <= rs.len() <= i64::MAX,
        c.fields.len() <= i64::MAX,
        c.fields.len() <= usize::MAX,
        entries_of(rs, c).len() <= budget,
    ensures
        stream_of(listpack_of(c.fields, rs, deleted), c.master_ms, c.master_seq, budget) == Ok::<
            Seq<StreamEntryV>,
            RdbErrorV,
        >(entries_of(rs, c)),
{
    let es = listpack_of(c.fields, rs, deleted);
    let n = c.fields.len() as int;
    let head = seq![number(rs.len() - deleted), number(deleted as int), number(n)];
    let names = Seq::new(c.fields.len(), |i: int| CompactEntryV::Str(c.fields[i]));
    let tail = seq![number(0)] + all_written(rs);
    assert(es == head + (names + tail));
    assert(es[0] == head[0] && es[1] == head[1] && es[2] == head[2]);
    assert(es[3 + n] == tail[0]);
    let fields = Seq::new(n as nat, |i: int| es[3 + i].as_bytes());
    assert forall|i: int| 0 <= i < n implies #[trigger] fields[i] == c.fields[i] by {
        assert(es[3 + i] == names[i]);
    }
    assert(fields == c.fields);
    assert(es.skip(4 + n) == all_written(rs)) by {
        let all = all_written(rs);
        assert(es.len() == 4 + n + all.len());
        assert forall|i: int| 0 <= i < all.len() implies #[trigger] es.skip(4 + n)[i] == all[i] by {
            assert(es[4 + n + i] == tail[1 + i]);
        }
    }
    lemma_records(es, 4 + n, rs, c, budget, Seq::empty());
    assert(Seq::empty() + entries_of(rs, c) == entries_of(rs, c));
}

// ---- Nothing else ----

/// Whether a listpack entry is the given number.
pub open spec fn is_number(e: CompactEntryV, n: int) -> bool {
    e matches CompactEntryV::Int(v) && v == n && n >= 0
}

/// A record that is read has flags, what its ID adds to the master ID, its fields and a count.
/// The lowest flag says that it is deleted, the next that it has the fields of the master
/// entry.
pub proof fn law_record_reads_nothing_else(es: Seq<CompactEntryV>, p: int, c: StreamContext) -> (r: (
    int,
    int,
    int,
))
    requires
        0 <= p,
        record(es, p, c) is Ok,
    ensures
        ({
            let (flags, ms, seq) = r;
            let (entry, q) = record(es, p, c)->Ok_0;
            &&& p + 3 < q <= es.len()
            &&& is_number(es[p], flags) && is_number(es[p + 1], ms) && is_number(es[p + 2], seq)
            &&& flags <= u32::MAX
            &&& c.master_ms + ms <= u64::MAX && c.master_seq + seq <= u64::MAX
            &&& es[q - 1] is Int && es[q - 1]->Int_0 >= 0
            &&& entry is None <==> flags % 2 == 1
            &&& entry is Some ==> entry->0.id == stream_id(c.master_ms + ms, c.master_seq + seq)
            &&& flags / 2 % 2 == 1 ==> q == p + 4 + c.fields.len()
            &&& flags / 2 % 2 == 0 ==> is_number(es[p + 3], (q - p - 5) / 2) && (q - p - 5) % 2
                == 0
            &&& entry is Some && flags / 2 % 2 == 1 ==> entry->0.fields.len() == c.fields.len()
                && forall|i: int|
                0 <= i < c.fields.len() ==> #[trigger] entry->0.fields[i] == (
                    c.fields[i],
                    es[p + 3 + i].as_bytes(),
                )
            &&& entry is Some && flags / 2 % 2 == 0 ==> 2 * entry->0.fields.len() == q - p - 5
                && forall|i: int|
                0 <= i < entry->0.fields.len() ==> #[trigger] entry->0.fields[i] == (
                    es[p + 4 + 2 * i].as_bytes(),
                    es[p + 5 + 2 * i].as_bytes(),
                )
        }),
{
    let flags = es[p]->Int_0 as int;
    let ms = es[p + 1]->Int_0 as int;
    let seq = es[p + 2]->Int_0 as int;
    (flags, ms, seq)
}

/// The entries among what records came to.
pub open spec fn present(outs: Seq<Option<StreamEntryV>>) -> Seq<StreamEntryV>
    decreases outs.len(),
{
    if outs.len() == 0 {
        Seq::empty()
    } else {
        match outs[0] {
            None => present(outs.drop_first()),
            Some(e) => seq![e] + present(outs.drop_first()),
        }
    }
}

/// Whether records stand one after the other, each as it is read, up to the end.
pub open spec fn records_laid_out(
    es: Seq<CompactEntryV>,
    ps: Seq<int>,
    outs: Seq<Option<StreamEntryV>>,
    c: StreamContext,
) -> bool {
    &&& ps.len() == outs.len() + 1
    &&& ps.last() == es.len()
    &&& forall|i: int|
        0 <= i < outs.len() ==> record(es, #[trigger] ps[i], c) == Ok::<
            (Option<StreamEntryV>, int),
            RdbErrorV,
        >((outs[i], ps[i + 1]))
}

proof fn lemma_records_layout(
    es: Seq<CompactEntryV>,
    p: int,
    total: nat,
    c: StreamContext,
    budget: int,
    acc: Seq<StreamEntryV>,
) -> (r: (Seq<int>, Seq<Option<StreamEntryV>>))
    requires
        records(es, p, total, c, budget, acc) is Ok,
    ensures
        records_laid_out(es, r.0, r.1, c),
        r.0[0] == p,
        r.1.len() == total,
        records(es, p, total, c, budget, acc)->Ok_0 == acc + present(r.1),
    decreases total,
{
    if total == 0 {
        assert(acc + present(Seq::empty()) == acc);
        (seq![p], Seq::empty())
    } else {
        let (out, q) = record(es, p, c)->Ok_0;
        let more = match out {
            None => acc,
            Some(e) => acc.push(e),
        };
        let (ps, outs) = lemma_records_layout(es, q, (total - 1) as nat, c, budget, more);
        let all = seq![p] + ps;
        let each = seq![out] + outs;
        assert(each.drop_first() == outs);
        assert(more + present(outs) == acc + present(each));
        assert forall|i: int| 0 <= i < each.len() implies record(es, #[trigger] all[i], c) == Ok::<
            (Option<StreamEntryV>, int),
            RdbErrorV,
        >((each[i], all[i + 1])) by {
            if i > 0 {
                assert(all[i] == ps[i - 1] && all[i + 1] == ps[i] && each[i] == outs[i - 1]);
            }
        }
        assert(all.last() == ps.last());
        (all, each)
    }
}

/// A stream listpack that is read states how many records it has, deleted ones among them, and
/// the fields of the master entry behind their number, with a zero after them. From there on
/// the records stand one after the other up to the end. What is read are those that are not
/// deleted.
pub proof fn law_stream_reads_nothing_else(
    es: Seq<CompactEntryV>,
    master_ms: u64,
    master_seq: u64,
    budget: int,
) -> (r: (StreamContext, Seq<int>, Seq<Option<StreamEntryV>>))
    requires
        stream_of(es, master_ms, master_seq, budget) is Ok,
    ensures
        ({
            let (c, ps, outs) = r;
            &&& c.master_ms == master_ms && c.master_seq == master_seq
            &&& es.len() >= 4 + c.fields.len()
            &&& exists|count: int, deleted: int| #[trigger]
                is_number(es[0], count) && #[trigger] is_number(es[1], deleted) && outs.len()
                    == count + deleted
            &&& is_number(es[2], c.fields.len() as int)
            &&& forall|i: int|
                0 <= i < c.fields.len() ==> #[trigger] c.fields[i] == es[3 + i].as_bytes()
            &&& is_number(es[3 + c.fields.len() as int], 0)
            &&& ps[0] == 4 + c.fields.len()
            &&& records_laid_out(es, ps, outs, c)
            &&& stream_of(es, master_ms, master_seq, budget)->Ok_0 == present(outs)
        }),
{
    let n = es[2]->Int_0 as int;
    let count = es[0]->Int_0 as int;
    let deleted = es[1]->Int_0 as int;
    let fields = Seq::new(n as nat, |i: int| es[3 + i].as_bytes());
    let c = StreamContext { master_ms, master_seq, fields };
    let (ps, outs) = lemma_records_layout(
        es,
        4 + n,
        (count + deleted) as nat,
        c,
        budget,
        Seq::empty(),
    );
    assert(Seq::<StreamEntryV>::empty() + present(outs) == present(outs));
    assert(is_number(es[0], count) && is_number(es[1], deleted));
    (c, ps, outs)
}

} // verus!
