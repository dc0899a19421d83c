//! Stream listpack decoding.
//!
//! A stream listpack holds, as listpack entries, a header
//! `[count][deleted][num_fields][field]...[0]` and then for each record
//! `[flags][ms_delta][seq_delta][field-value pairs][lp_count]`. Record IDs are deltas from
//! the ID under which the listpack is stored. A record with the same-fields flag lists only
//! values, for the fields named in the header.

use crate::bytes;
use crate::compact;
use crate::compact::{CompactEntry, CompactEntryV};
use crate::listpack;
use crate::text;
use crate::text::{dec_string, dec_string_signed, join2, join3, with_number};
use crate::types;
use crate::types::{corrupt, RdbError, RdbErrorV, StreamEntry, StreamEntryV};
use vstd::prelude::*;

verus! {

/// Largest number of stream entries that one stream may decode to.
pub const MAX_STREAM_ENTRIES: usize = 5_000_000;

/// The non-negative integer that an entry holds.
pub open spec fn natural(e: CompactEntryV, ctx: Seq<char>) -> Result<u64, RdbErrorV> {
    match e {
        CompactEntryV::Int(n) => if n >= 0 {
            Ok(n as u64)
        } else {
            Err(
                RdbErrorV::CorruptData(
                    "stream "@ + ctx + ": expected non-negative integer, got "@ + text::dec(
                        n as int,
                    ),
                ),
            )
        },
        CompactEntryV::Str(_) => Err(
            RdbErrorV::CorruptData("stream "@ + ctx + ": expected integer"@),
        ),
    }
}

/// The non-negative integer that an entry holds, if it is at most `max`.
pub open spec fn natural_up_to(
    e: CompactEntryV,
    ctx: Seq<char>,
    max: int,
    width: Seq<char>,
) -> Result<u64, RdbErrorV> {
    match natural(e, ctx) {
        Ok(n) => if n <= max {
            Ok(n)
        } else {
            Err(
                RdbErrorV::CorruptData(
                    "stream "@ + ctx + (": value "@ + text::dec(n as int) + " overflows "@)
                        + width,
                ),
            )
        },
        Err(e) => Err(e),
    }
}

/// A stream ID: milliseconds, a hyphen, and a sequence number.
pub open spec fn stream_id(ms: int, seq: int) -> Seq<char> {
    text::dec(ms) + "-"@ + text::dec(seq)
}

/// What the records of a listpack share.
pub struct StreamContext {
    pub master_ms: u64,
    pub master_seq: u64,
    pub fields: Seq<Seq<u8>>,
}

/// The field-value pairs of a record that start at `p`, and where they end.
pub open spec fn record_fields(
    es: Seq<CompactEntryV>,
    p: int,
    same_fields: bool,
    fields: Seq<Seq<u8>>,
) -> Result<(Seq<(Seq<u8>, Seq<u8>)>, int), RdbErrorV> {
    if same_fields {
        if p + fields.len() > es.len() {
            Err(RdbErrorV::CorruptData("stream: truncated SAMEFIELDS entry"@))
        } else {
            Ok(
                (
                    Seq::new(fields.len(), |i: int| (fields[i], es[p + i].as_bytes())),
                    p + fields.len() as int,
                ),
            )
        }
    } else if p >= es.len() {
        Err(RdbErrorV::CorruptData("stream: truncated entry num_fields"@))
    } else {
        match natural_up_to(es[p], "entry num_fields"@, usize::MAX as int, "usize"@) {
            Err(e) => Err(e),
            Ok(n) => if p + 1 + 2 * n > es.len() {
                Err(RdbErrorV::CorruptData("stream: truncated field-value pair"@))
            } else {
                Ok(
                    (
                        Seq::new(
                            n as nat,
                            |i: int|
                                (es[p + 1 + 2 * i].as_bytes(), es[p + 2 + 2 * i].as_bytes()),
                        ),
                        p + 1 + 2 * n,
                    ),
                )
            },
        }
    }
}

/// The record at `p`: the entry, unless it is marked as deleted, and where it ends.
pub open spec fn record(es: Seq<CompactEntryV>, p: int, c: StreamContext) -> Result<
    (Option<StreamEntryV>, int),
    RdbErrorV,
> {
    if p + 2 >= es.len() {
        Err(RdbErrorV::CorruptData("stream listpack truncated mid-entry"@))
    } else {
        match natural_up_to(es[p], "flags"@, u32::MAX as int, "u32"@) {
            Err(e) => Err(e),
            Ok(flags) => match natural(es[p + 1], "ms_delta"@) {
                Err(e) => Err(e),
                Ok(ms_delta) => match natural(es[p + 2], "seq_delta"@) {
                    Err(e) => Err(e),
                    Ok(seq_delta) => {
                        let ms = c.master_ms + ms_delta;
                        let seq = c.master_seq + seq_delta;
                        if ms > u64::MAX {
                            Err(RdbErrorV::CorruptData("stream: ms overflow"@))
                        } else if seq > u64::MAX {
                            Err(RdbErrorV::CorruptData("stream: seq overflow"@))
                        } else {
                            match record_fields(es, p + 3, flags / 2 % 2 == 1, c.fields) {
                                Err(e) => Err(e),
                                Ok((fields, q)) => if q >= es.len() {
                                    Err(
                                        RdbErrorV::CorruptData(
                                            "stream: missing lp_count after entry"@,
                                        ),
                                    )
                                } else {
                                    match natural(es[q], "lp_count"@) {
                                        Err(e) => Err(e),
                                        Ok(_) => Ok(
                                            (
                                                if flags % 2 == 1 {
                                                    None
                                                } else {
                                                    Some(
                                                        StreamEntryV {
                                                            id: stream_id(ms, seq),
                                                            fields,
                                                        },
                                                    )
                                                },
                                                q + 1,
                                            ),
                                        ),
                                    }
                                },
                            }
                        }
                    },
                },
            },
        }
    }
}

/// The entries of the `total` records from `p` on, after the entries in `acc`; no more than
/// `budget` of them, and nothing may follow the last record.
pub open spec fn records(
    es: Seq<CompactEntryV>,
    p: int,
    total: nat,
    c: StreamContext,
    budget: int,
    acc: Seq<StreamEntryV>,
) -> Result<Seq<StreamEntryV>, RdbErrorV>
    decreases total,
{
    if total == 0 {
        if p != es.len() {
            Err(
                RdbErrorV::CorruptData(
                    "stream listpack has "@ + text::dec(es.len() - p)
                        + " trailing entries beyond count+deleted header"@,
                ),
            )
        } else {
            Ok(acc)
        }
    } else {
        match record(es, p, c) {
            Err(e) => Err(e),
            Ok((None, q)) => records(es, q, (total - 1) as nat, c, budget, acc),
            Ok((Some(entry), q)) => if acc.len() >= budget {
                Err(RdbErrorV::CorruptData("stream exceeds 5000000 entry limit"@))
            } else {
                records(es, q, (total - 1) as nat, c, budget, acc.push(entry))
            },
        }
    }
}

/// The stream entries that listpack entries hold.
pub open spec fn stream_of(
    es: Seq<CompactEntryV>,
    master_ms: u64,
    master_seq: u64,
    budget: int,
) -> Result<Seq<StreamEntryV>, RdbErrorV> {
    if es.len() < 3 {
        Err(RdbErrorV::CorruptData("stream listpack too short for header"@))
    } else {
        match natural(es[0], "count"@) {
            Err(e) => Err(e),
            Ok(count) => match natural(es[1], "deleted"@) {
                Err(e) => Err(e),
                Ok(deleted) => match natural_up_to(
                    es[2],
                    "num_fields"@,
                    usize::MAX as int,
                    "usize"@,
                ) {
                    Err(e) => Err(e),
                    Ok(n) => if 3 + n > es.len() {
                        Err(RdbErrorV::CorruptData("stream: truncated master fields"@))
                    } else if 3 + n == es.len() {
                        Err(
                            RdbErrorV::CorruptData(
                                "stream: missing terminator after master fields"@,
                            ),
                        )
                    } else if es[3 + n] != CompactEntryV::Int(0) {
                        Err(
                            RdbErrorV::CorruptData(
                                "stream: expected zero terminator after master fields"@,
                            ),
                        )
                    } else {
                        let total = if count + deleted > u64::MAX {
                            u64::MAX as int
                        } else {
                            count + deleted
                        };
                        records(
                            es,
                            4 + n,
                            total as nat,
                            StreamContext {
                                master_ms,
                                master_seq,
                                fields: Seq::new(n as nat, |i: int| es[3 + i].as_bytes()),
                            },
                            budget,
                            Seq::empty(),
                        )
                    },
                },
            },
        }
    }
}

/// The stream entries of one listpack blob.
pub open spec fn stream_listpack(
    master_ms: u64,
    master_seq: u64,
    lp: Seq<u8>,
    budget: int,
) -> Result<Seq<StreamEntryV>, RdbErrorV> {
    match listpack::entries(lp) {
        Err(e) => Err(e),
        Ok(es) => stream_of(es, master_ms, master_seq, budget),
    }
}

/// A listpack never yields more entries than its budget.
pub proof fn law_stream_budget(master_ms: u64, master_seq: u64, lp: Seq<u8>, budget: int)
    requires
        0 <= budget,
    ensures
        stream_listpack(master_ms, master_seq, lp, budget) matches Ok(out) ==> out.len() <= budget,
{
    if let Ok(es) = listpack::entries(lp) {
        if es.len() >= 3 {
            if let (Ok(count), Ok(deleted), Ok(n)) = (
                natural(es[0], "count"@),
                natural(es[1], "deleted"@),
                natural_up_to(es[2], "num_fields"@, usize::MAX as int, "usize"@),
            ) {
                let total = if count + deleted > u64::MAX {
                    u64::MAX as int
                } else {
                    count + deleted
                };
                let fields = Seq::new(n as nat, |i: int| es[3 + i].as_bytes());
                lemma_records_budget(
                    es,
                    4 + n,
                    total as nat,
                    StreamContext { master_ms, master_seq, fields },
                    budget,
                    Seq::empty(),
                );
            }
        }
    }
}

proof fn lemma_records_budget(
    es: Seq<CompactEntryV>,
    p: int,
    total: nat,
    c: StreamContext,
    budget: int,
    acc: Seq<StreamEntryV>,
)
    requires
        acc.len() <= budget,
    ensures
        records(es, p, total, c, budget, acc) matches Ok(out) ==> out.len() <= budget,
    decreases total,
{
    if total > 0 {
        match record(es, p, c) {
            Err(_) => {},
            Ok((None, q)) => {
                lemma_records_budget(es, q, (total - 1) as nat, c, budget, acc);
            },
            Ok((Some(entry), q)) => {
                if acc.len() < budget {
                    lemma_records_budget(es, q, (total - 1) as nat, c, budget, acc.push(entry));
                }
            },
        }
    }
}

/// Takes a non-negative `u64` from a listpack integer.
pub fn lp_u64(entry: &CompactEntry, ctx: &str) -> (r: Result<u64, RdbError>)
    ensures
        (match r {
            Ok(n) => Ok(n),
            Err(e) => Err(e@),
        }) == natural(entry@, ctx@),
{
    match entry {
        CompactEntry::Int(n) => if *n >= 0 {
            Ok(*n as u64)
        } else {
            let message = join3("stream ", ctx, ": expected non-negative integer, got ").concat(
                dec_string_signed(*n).as_str(),
            );
            Err(RdbError::CorruptData(message))
        },
        CompactEntry::Str(_) => Err(
            RdbError::CorruptData(join3("stream ", ctx, ": expected integer")),
        ),
    }
}

fn overflow_message(ctx: &str, v: u64, width: &str) -> (r: RdbError)
    ensures
        r@ == RdbErrorV::CorruptData(
            "stream "@ + ctx@ + (": value "@ + text::dec(v as int) + " overflows "@) + width@,
        ),
{
    let middle = with_number(": value ", v, " overflows ");
    RdbError::CorruptData(join2("stream ", ctx).concat(middle.as_str()).concat(width))
}

/// Takes a non-negative `usize` from a listpack integer.
pub fn lp_usize(entry: &CompactEntry, ctx: &str) -> (r: Result<usize, RdbError>)
    ensures
        (match r {
            Ok(n) => Ok(n as u64),
            Err(e) => Err(e@),
        }) == natural_up_to(entry@, ctx@, usize::MAX as int, "usize"@),
{
    match lp_u64(entry, ctx) {
        Ok(v) => if v <= usize::MAX as u64 {
            Ok(v as usize)
        } else {
            Err(overflow_message(ctx, v, "usize"))
        },
        Err(e) => Err(e),
    }
}

/// Takes a `u32` from a listpack integer.
pub fn lp_u32(entry: &CompactEntry, ctx: &str) -> (r: Result<u32, RdbError>)
    ensures
        (match r {
            Ok(n) => Ok(n as u64),
            Err(e) => Err(e@),
        }) == natural_up_to(entry@, ctx@, u32::MAX as int, "u32"@),
{
    match lp_u64(entry, ctx) {
        Ok(v) => if v <= u32::MAX as u64 {
            Ok(v as u32)
        } else {
            Err(overflow_message(ctx, v, "u32"))
        },
        Err(e) => Err(e),
    }
}

/// Reads the field-value pairs of a record.
fn read_fields(
    es: &Vec<CompactEntry>,
    p: usize,
    same_fields: bool,
    master: &Vec<Vec<u8>>,
) -> (r: Result<(Vec<(Vec<u8>, Vec<u8>)>, usize), RdbError>)
    requires
        p <= es@.len(),
    ensures
        (match r {
            Ok((fields, q)) => Ok((types::byte_pairs(fields@), q as int)),
            Err(e) => Err(e@),
        }) == record_fields(
            compact::compact_entries(es@),
            p as int,
            same_fields,
            types::byte_strings(master@),
        ),
        r matches Ok((_, q)) ==> q <= es@.len(),
{
    let ghost shown = compact::compact_entries(es@);
    let ghost fields = types::byte_strings(master@);
    let mut out: Vec<(Vec<u8>, Vec<u8>)> = Vec::new();
    if same_fields {
        let mut i: usize = 0;
        while i < master.len()
            invariant
                i <= master@.len(),
                p + i <= es.len(),
                same_fields,
                shown == compact::compact_entries(es@),
                fields == types::byte_strings(master@),
                types::byte_pairs(out@) == Seq::new(
                    i as nat,
                    |k: int| (fields[k], shown[p + k].as_bytes()),
                ),
            decreases master@.len() - i,
        {
            if p + i >= es.len() {
                return Err(corrupt("stream: truncated SAMEFIELDS entry"));
            }
            let field = bytes::copy_bytes(&master[i]);
            let value = es[p + i].to_bytes();
            let ghost before = out@;
            out.push((field, value));
            assert(types::byte_pairs(out@) == types::byte_pairs(before).push(
                (fields[i as int], shown[p + i].as_bytes()),
            ));
            i += 1;
            assert(types::byte_pairs(out@) == Seq::new(
                i as nat,
                |k: int| (fields[k], shown[p + k].as_bytes()),
            ));
        }
        return Ok((out, p + i));
    }
    if p >= es.len() {
        return Err(corrupt("stream: truncated entry num_fields"));
    }
    let n = match lp_usize(&es[p], "entry num_fields") {
        Ok(n) => n,
        Err(e) => {
            return Err(e);
        },
    };
    let mut i: usize = 0;
    let mut q: usize = p + 1;
    while i < n
        invariant
            i <= n,
            q == p + 1 + 2 * i,
            q <= es@.len(),
            !same_fields,
            p < es@.len(),
            shown == compact::compact_entries(es@),
            fields == types::byte_strings(master@),
            natural_up_to(shown[p as int], "entry num_fields"@, usize::MAX as int, "usize"@) == Ok::<
                u64,
                RdbErrorV,
            >(n as u64),
            types::byte_pairs(out@) == Seq::new(
                i as nat,
                |k: int| (shown[p + 1 + 2 * k].as_bytes(), shown[p + 2 + 2 * k].as_bytes()),
            ),
        decreases n - i,
    {
        if es.len() - q < 2 {
            return Err(corrupt("stream: truncated field-value pair"));
        }
        let field = es[q].to_bytes();
        let value = es[q + 1].to_bytes();
        let ghost before = out@;
        out.push((field, value));
        assert(types::byte_pairs(out@) == types::byte_pairs(before).push(
            (shown[p + 1 + 2 * i].as_bytes(), shown[p + 2 + 2 * i].as_bytes()),
        ));
        q += 2;
        i += 1;
        assert(types::byte_pairs(out@) == Seq::new(
            i as nat,
            |k: int| (shown[p + 1 + 2 * k].as_bytes(), shown[p + 2 + 2 * k].as_bytes()),
        ));
    }
    Ok((out, q))
}

/// Reads one record.
fn read_record(
    es: &Vec<CompactEntry>,
    p: usize,
    master_ms: u64,
    master_seq: u64,
    master: &Vec<Vec<u8>>,
) -> (r: Result<(Option<StreamEntry>, usize), RdbError>)
    requires
        p <= es@.len(),
    ensures
        (match r {
            Ok((None, q)) => Ok((None, q as int)),
            Ok((Some(entry), q)) => Ok((Some(entry@), q as int)),
            Err(e) => Err(e@),
        }) == record(
            compact::compact_entries(es@),
            p as int,
            StreamContext { master_ms, master_seq, fields: types::byte_strings(master@) },
        ),
        r matches Ok((_, q)) ==> q <= es@.len(),
{
    if es.len() - p < 3 {
        return Err(corrupt("stream listpack truncated mid-entry"));
    }
    let flags = match lp_u32(&es[p], "flags") {
        Ok(n) => n,
        Err(e) => {
            return Err(e);
        },
    };
    let ms_delta = match lp_u64(&es[p + 1], "ms_delta") {
        Ok(n) => n,
        Err(e) => {
            return Err(e);
        },
    };
    let seq_delta = match lp_u64(&es[p + 2], "seq_delta") {
        Ok(n) => n,
        Err(e) => {
            return Err(e);
        },
    };
    let ms = match master_ms.checked_add(ms_delta) {
        Some(n) => n,
        None => {
            return Err(corrupt("stream: ms overflow"));
        },
    };
    let seq = match master_seq.checked_add(seq_delta) {
        Some(n) => n,
        None => {
            return Err(corrupt("stream: seq overflow"));
        },
    };
    let (fields, q) = match read_fields(es, p + 3, flags / 2 % 2 == 1, master) {
        Ok(x) => x,
        Err(e) => {
            return Err(e);
        },
    };
    if q >= es.len() {
        return Err(corrupt("stream: missing lp_count after entry"));
    }
    match lp_u64(&es[q], "lp_count") {
        Ok(_) => {},
        Err(e) => {
            return Err(e);
        },
    }
    if flags % 2 == 1 {
        return Ok((None, q + 1));
    }
    let id = join3(dec_string(ms).as_str(), "-", dec_string(seq).as_str());
    Ok((Some(StreamEntry { id, fields }), q + 1))
}

/// Decodes one stream listpack blob.
///
/// `master_ms` and `master_seq` are the ID that the IDs inside are relative to.
/// `remaining_budget` is the number of entries that the caller can still accept; more of
/// them are reported as corrupt data.
pub fn decode_stream_listpack(
    master_ms: u64,
    master_seq: u64,
    lp_data: &[u8],
    remaining_budget: usize,
) -> (r: Result<Vec<StreamEntry>, RdbError>)
    ensures
        (match r {
            Ok(v) => Ok(types::stream_entries(v@)),
            Err(e) => Err(e@),
        }) == stream_listpack(master_ms, master_seq, lp_data@, remaining_budget as int),
{
    let es = match listpack::decode(lp_data) {
        Ok(v) => v,
        Err(e) => {
            return Err(e);
        },
    };
    let ghost shown = compact::compact_entries(es@);
    if es.len() < 3 {
        return Err(corrupt("stream listpack too short for header"));
    }
    let count = match lp_u64(&es[0], "count") {
        Ok(n) => n,
        Err(e) => {
            return Err(e);
        },
    };
    let deleted = match lp_u64(&es[1], "deleted") {
        Ok(n) => n,
        Err(e) => {
            return Err(e);
        },
    };
    let n = match lp_usize(&es[2], "num_fields") {
        Ok(n) => n,
        Err(e) => {
            return Err(e);
        },
    };
    let mut master: Vec<Vec<u8>> = Vec::new();
    let mut i: usize = 0;
    while i < n
        invariant
            i <= n,
            3 + i <= es@.len(),
            listpack::entries(lp_data@) == Ok::<Seq<CompactEntryV>, RdbErrorV>(shown),
            shown == compact::compact_entries(es@),
            natural(shown[0], "count"@) == Ok::<u64, RdbErrorV>(count),
            natural(shown[1], "deleted"@) == Ok::<u64, RdbErrorV>(deleted),
            natural_up_to(shown[2], "num_fields"@, usize::MAX as int, "usize"@) == Ok::<
                u64,
                RdbErrorV,
            >(n as u64),
            types::byte_strings(master@) == Seq::new(
                i as nat,
                |k: int| shown[3 + k].as_bytes(),
            ),
        decreases n - i,
    {
        if 3 + i >= es.len() {
            return Err(corrupt("stream: truncated master fields"));
        }
        let ghost before = master@;
        master.push(es[3 + i].to_bytes());
        assert(types::byte_strings(master@) == types::byte_strings(before).push(
            shown[3 + i].as_bytes(),
        ));
        i += 1;
        assert(types::byte_strings(master@) == Seq::new(
            i as nat,
            |k: int| shown[3 + k].as_bytes(),
        ));
    }
    let mut pos: usize = 3 + n;
    if pos >= es.len() {
        return Err(corrupt("stream: missing terminator after master fields"));
    }
    assert(shown[pos as int] == es@[pos as int]@);
    match &es[pos] {
        CompactEntry::Int(zero) => {
            if *zero != 0 {
                return Err(corrupt("stream: expected zero terminator after master fields"));
            }
        },
        CompactEntry::Str(_) => {
            return Err(corrupt("stream: expected zero terminator after master fields"));
        },
    }
    pos += 1;
    let total: u64 = count.saturating_add(deleted);
    let ghost context = StreamContext {
        master_ms,
        master_seq,
        fields: types::byte_strings(master@),
    };
    let mut out: Vec<StreamEntry> = Vec::new();
    let mut left: u64 = total;
    assert(types::stream_entries(out@) == Seq::<StreamEntryV>::empty());
    while left > 0
        invariant
            left <= total,
            pos <= es@.len(),
            shown == compact::compact_entries(es@),
            context == (StreamContext {
                master_ms,
                master_seq,
                fields: types::byte_strings(master@),
            }),
            records(
                shown,
                pos as int,
                left as nat,
                context,
                remaining_budget as int,
                types::stream_entries(out@),
            ) == stream_listpack(master_ms, master_seq, lp_data@, remaining_budget as int),
        decreases left,
    {
        match read_record(&es, pos, master_ms, master_seq, &master) {
            Err(e) => {
                return Err(e);
            },
            Ok((found, q)) => {
                pos = q;
                match found {
                    None => {},
                    Some(entry) => {
                        if out.len() >= remaining_budget {
                            return Err(corrupt("stream exceeds 5000000 entry limit"));
                        }
                        let ghost before = out@;
                        let ghost e = entry@;
                        out.push(entry);
                        assert(types::stream_entries(out@) == types::stream_entries(before).push(
                            e,
                        ));
                    },
                }
            },
        }
        left -= 1;
    }
    if pos != es.len() {
        return Err(
            RdbError::CorruptData(
                with_number(
                    "stream listpack has ",
                    (es.len() - pos) as u64,
                    " trailing entries beyond count+deleted header",
                ),
            ),
        );
    }
    Ok(out)
}

} // verus!
