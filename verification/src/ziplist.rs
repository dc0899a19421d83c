//! Ziplist decoder: the older compact encoding of small lists, hashes, and sorted sets.
//!
//! Layout: four bytes of total length, four of tail offset and two of entry count, all
//! little-endian, then the entries, then `0xff`. An entry is the length of the entry before
//! it (one or five bytes), its encoding, and its data. String lengths are big-endian,
//! integers little-endian.

use crate::bytes;
use crate::compact;
use crate::compact::{CompactEntry, CompactEntryV};
use crate::text;
use crate::text::{hex_string, join2, with_numbers};
use crate::types::{corrupt, RdbError, RdbErrorV};
use vstd::prelude::*;

verus! {

/// Size of the header.
pub const ZL_HDR_SIZE: usize = 10;

/// The end byte.
pub const ZL_END: u8 = 0xff;

/// The previous-length field at the start of `buf`: its size and its value.
pub open spec fn prevlen(buf: Seq<u8>) -> Result<(int, int), RdbErrorV> {
    if buf.len() == 0 {
        Err(RdbErrorV::CorruptData("ziplist prevlen: empty"@))
    } else if buf[0] == ZL_END {
        Err(RdbErrorV::CorruptData("ziplist prevlen byte is 0xFF (end marker)"@))
    } else if buf[0] < 254 {
        Ok((1, buf[0] as int))
    } else if buf.len() < 5 {
        Err(compact::short_error("ziplist"@, "prevlen 5-byte"@, 5, buf.len() as int))
    } else {
        Ok((5, bytes::le32(buf, 1)))
    }
}

/// The integer entry whose encoding byte is the first of `buf`.
pub open spec fn int_entry(buf: Seq<u8>) -> Result<(CompactEntryV, int), RdbErrorV> {
    let zl = "ziplist"@;
    if buf[0] == 0xc0 {
        compact::int_entry_of(buf, 3, bytes::twos(bytes::le16(buf, 1), 0x8000), zl, "16-bit int"@)
    } else if buf[0] == 0xd0 {
        compact::int_entry_of(
            buf,
            5,
            bytes::twos(bytes::le32(buf, 1), 0x8000_0000),
            zl,
            "32-bit int"@,
        )
    } else if buf[0] == 0xe0 {
        compact::int_entry_of(
            buf,
            9,
            bytes::twos(bytes::le64(buf, 1), 0x8000_0000_0000_0000),
            zl,
            "64-bit int"@,
        )
    } else if buf[0] == 0xf0 {
        compact::int_entry_of(
            buf,
            4,
            bytes::twos(compact::le24(buf, 1), 0x80_0000),
            zl,
            "24-bit int"@,
        )
    } else if buf[0] == 0xfe {
        compact::int_entry_of(buf, 2, bytes::twos(buf[1] as int, 0x80), zl, "8-bit int"@)
    } else if 0xf1 <= buf[0] <= 0xfd {
        // The low nibble holds a value of 0 to 12, plus one.
        Ok((CompactEntryV::Int((buf[0] - 0xf1) as i64), 1))
    } else {
        Err(
            RdbErrorV::CorruptData(
                "ziplist unknown integer encoding 0x"@ + text::hex(buf[0] as nat, 2),
            ),
        )
    }
}

/// The encoding and data at the start of a non-empty `rest`, and their size.
pub open spec fn encoded_entry(rest: Seq<u8>) -> Result<(CompactEntryV, int), RdbErrorV> {
    let zl = "ziplist"@;
    if rest[0] < 0x40 {
        compact::str_entry_of(rest, 1, rest[0] as int, zl, "6-bit string"@)
    } else if rest[0] < 0x80 {
        if rest.len() < 2 {
            Err(compact::short_error(zl, "14-bit string header"@, 2, rest.len() as int))
        } else {
            compact::str_entry_of(rest, 2, (rest[0] - 0x40) * 256 + rest[1], zl, "14-bit string"@)
        }
    } else if rest[0] < 0xc0 {
        if rest[0] != 0x80 {
            Err(
                RdbErrorV::CorruptData(
                    "ziplist 32-bit string encoding has non-zero low bits: 0x"@ + text::hex(
                        rest[0] as nat,
                        2,
                    ),
                ),
            )
        } else if rest.len() < 5 {
            Err(compact::short_error(zl, "32-bit string header"@, 5, rest.len() as int))
        } else {
            compact::str_entry_of(rest, 5, bytes::be32(rest, 1), zl, "32-bit string"@)
        }
    } else {
        int_entry(rest)
    }
}

/// The first entry of `buf`, and how many bytes it takes with its previous-length field.
pub open spec fn first_entry(buf: Seq<u8>) -> Result<(CompactEntryV, int), RdbErrorV> {
    if buf.len() == 0 {
        Err(RdbErrorV::CorruptData("ziplist entry: empty buffer"@))
    } else {
        match prevlen(buf) {
            Err(e) => Err(e),
            Ok((size, _)) => if buf.len() == size {
                Err(RdbErrorV::CorruptData("ziplist entry: truncated after prevlen"@))
            } else {
                match encoded_entry(buf.skip(size)) {
                    Err(e) => Err(e),
                    Ok((entry, n)) => Ok((entry, size + n)),
                }
            },
        }
    }
}

/// The entries from `pos` up to the first end byte in an entry's place.
pub open spec fn entries_from(data: Seq<u8>, pos: int) -> Result<Seq<CompactEntryV>, RdbErrorV>
    decreases data.len() - pos,
{
    if pos < 0 || pos >= data.len() {
        Err(RdbErrorV::CorruptData("ziplist missing end byte"@))
    } else if data[pos] == ZL_END {
        Ok(Seq::empty())
    } else {
        match first_entry(data.skip(pos)) {
            Err(e) => Err(e),
            Ok((entry, n)) => match entries_from(data, pos + n) {
                Ok(rest) => Ok(seq![entry] + rest),
                Err(e) => Err(e),
            },
        }
    }
}

/// All entries of a ziplist blob, whose length field has to be the length of the blob.
pub open spec fn entries(data: Seq<u8>) -> Result<Seq<CompactEntryV>, RdbErrorV> {
    if data.len() < 11 {
        Err(RdbErrorV::CorruptData("ziplist too short for header + end byte"@))
    } else if bytes::le32(data, 0) != data.len() {
        Err(
            RdbErrorV::CorruptData(
                "ziplist zlbytes ("@ + text::dec(bytes::le32(data, 0)) + ") != blob size ("@
                    + text::dec(data.len() as int) + ")"@,
            ),
        )
    } else {
        entries_from(data, 10)
    }
}

/// Reads the previous-length field. Returns its size and its value.
pub fn decode_prevlen(buf: &[u8]) -> (r: Result<(usize, u32), RdbError>)
    ensures
        (match r {
            Ok((size, n)) => Ok((size as int, n as int)),
            Err(e) => Err(e@),
        }) == prevlen(buf@),
{
    if buf.len() == 0 {
        return Err(corrupt("ziplist prevlen: empty"));
    }
    if buf[0] == ZL_END {
        return Err(corrupt("ziplist prevlen byte is 0xFF (end marker)"));
    }
    if buf[0] < 254 {
        return Ok((1, buf[0] as u32));
    }
    match compact::ensure_len(buf, 5, "ziplist", "prevlen 5-byte") {
        Ok(_) => Ok((5, bytes::get_le32(buf, 1))),
        Err(e) => Err(e),
    }
}

/// Decodes an integer entry from its encoding byte on. Returns the size of encoding and
/// data with it.
pub fn decode_int_entry(buf: &[u8]) -> (r: Result<(CompactEntry, usize), RdbError>)
    requires
        buf@.len() > 0,
    ensures
        compact::entry_outcome(r) == int_entry(buf@),
        r matches Ok((_, n)) ==> 1 <= n <= buf@.len(),
{
    let enc: u8 = buf[0];
    if enc == 0xc0 {
        return match compact::ensure_len(buf, 3, "ziplist", "16-bit int") {
            Ok(_) => Ok((CompactEntry::Int(bytes::signed16(bytes::get_le16(buf, 1))), 3)),
            Err(e) => Err(e),
        };
    }
    if enc == 0xd0 {
        return match compact::ensure_len(buf, 5, "ziplist", "32-bit int") {
            Ok(_) => Ok((CompactEntry::Int(bytes::signed32(bytes::get_le32(buf, 1))), 5)),
            Err(e) => Err(e),
        };
    }
    if enc == 0xe0 {
        return match compact::ensure_len(buf, 9, "ziplist", "64-bit int") {
            Ok(_) => Ok((CompactEntry::Int(bytes::signed64(bytes::get_le64(buf, 1))), 9)),
            Err(e) => Err(e),
        };
    }
    if enc == 0xf0 {
        return match compact::ensure_len(buf, 4, "ziplist", "24-bit int") {
            Ok(_) => Ok((CompactEntry::Int(compact::read_i24_le(buf, 1)), 4)),
            Err(e) => Err(e),
        };
    }
    if enc == 0xfe {
        return match compact::ensure_len(buf, 2, "ziplist", "8-bit int") {
            Ok(_) => Ok((CompactEntry::Int(bytes::signed8(buf[1])), 2)),
            Err(e) => Err(e),
        };
    }
    if 0xf1 <= enc && enc <= 0xfd {
        return Ok((CompactEntry::Int((enc - 0xf1) as i64), 1));
    }
    Err(
        RdbError::CorruptData(
            join2("ziplist unknown integer encoding 0x", hex_string(enc as u64, 2).as_str()),
        ),
    )
}

fn decode_encoded(rest: &[u8]) -> (r: Result<(CompactEntry, usize), RdbError>)
    requires
        rest@.len() > 0,
    ensures
        compact::entry_outcome(r) == encoded_entry(rest@),
        r matches Ok((_, n)) ==> 1 <= n <= rest@.len(),
{
    let enc: u8 = rest[0];
    if enc < 0x40 {
        return compact::str_entry(rest, 1, enc as usize, "ziplist", "6-bit string");
    }
    if enc < 0x80 {
        match compact::ensure_len(rest, 2, "ziplist", "14-bit string header") {
            Ok(_) => {},
            Err(e) => {
                return Err(e);
            },
        }
        let len: usize = (enc - 0x40) as usize * 256 + rest[1] as usize;
        return compact::str_entry(rest, 2, len, "ziplist", "14-bit string");
    }
    if enc < 0xc0 {
        if enc != 0x80 {
            return Err(
                RdbError::CorruptData(
                    join2(
                        "ziplist 32-bit string encoding has non-zero low bits: 0x",
                        hex_string(enc as u64, 2).as_str(),
                    ),
                ),
            );
        }
        match compact::ensure_len(rest, 5, "ziplist", "32-bit string header") {
            Ok(_) => {},
            Err(e) => {
                return Err(e);
            },
        }
        let len: usize = bytes::get_be32(rest, 1) as usize;
        return compact::str_entry(rest, 5, len, "ziplist", "32-bit string");
    }
    decode_int_entry(rest)
}

/// Decodes a single entry at the start of `buf`. Returns its size with it, the
/// previous-length field counted.
pub fn decode_entry(buf: &[u8]) -> (r: Result<(CompactEntry, usize), RdbError>)
    ensures
        compact::entry_outcome(r) == first_entry(buf@),
        r matches Ok((_, n)) ==> 1 <= n <= buf@.len(),
{
    if buf.len() == 0 {
        return Err(corrupt("ziplist entry: empty buffer"));
    }
    let (size, _) = match decode_prevlen(buf) {
        Ok(x) => x,
        Err(e) => {
            return Err(e);
        },
    };
    if buf.len() == size {
        return Err(corrupt("ziplist entry: truncated after prevlen"));
    }
    let rest = vstd::slice::slice_subrange(buf, size, buf.len());
    assert(rest@ == buf@.skip(size as int));
    match decode_encoded(rest) {
        Ok((entry, n)) => Ok((entry, size + n)),
        Err(e) => Err(e),
    }
}

/// Decodes all entries of a ziplist blob.
pub fn decode(data: &[u8]) -> (r: Result<Vec<CompactEntry>, RdbError>)
    ensures
        (match r {
            Ok(v) => Ok(compact::compact_entries(v@)),
            Err(e) => Err(e@),
        }) == entries(data@),
{
    if data.len() < ZL_HDR_SIZE + 1 {
        return Err(corrupt("ziplist too short for header + end byte"));
    }
    let zlbytes: u32 = bytes::get_le32(data, 0);
    if zlbytes as u64 != data.len() as u64 {
        return Err(
            RdbError::CorruptData(
                with_numbers(
                    "ziplist zlbytes (",
                    zlbytes as u64,
                    ") != blob size (",
                    data.len() as u64,
                    ")",
                ),
            ),
        );
    }
    let zllen: u16 = bytes::get_le16(data, 8);
    let capacity: usize = compact::capacity_hint(zllen, data.len());
    let mut pos: usize = ZL_HDR_SIZE;
    let mut found: Vec<CompactEntry> = Vec::with_capacity(capacity);
    assert(compact::compact_entries(found@) == Seq::<CompactEntryV>::empty());
    assert(forall|s: Seq<CompactEntryV>| #[trigger] (Seq::<CompactEntryV>::empty() + s) == s);
    loop
        invariant
            10 <= pos,
            data@.len() >= 11,
            bytes::le32(data@, 0) == data@.len(),
            (match entries_from(data@, pos as int) {
                Ok(rest) => Ok(compact::compact_entries(found@) + rest),
                Err(e) => Err(e),
            }) == entries(data@),
        decreases data@.len() - pos,
    {
        if pos >= data.len() {
            return Err(corrupt("ziplist missing end byte"));
        }
        if data[pos] == ZL_END {
            assert(compact::compact_entries(found@) + Seq::<CompactEntryV>::empty()
                == compact::compact_entries(found@));
            return Ok(found);
        }
        let rest = vstd::slice::slice_subrange(data, pos, data.len());
        assert(rest@ == data@.skip(pos as int));
        let (entry, consumed) = match decode_entry(rest) {
            Ok(x) => x,
            Err(e) => {
                return Err(e);
            },
        };
        let ghost before = compact::compact_entries(found@);
        let ghost shown = entry@;
        found.push(entry);
        assert(compact::compact_entries(found@) == before.push(shown));
        assert(forall|s: Seq<CompactEntryV>| #[trigger]
            (before.push(shown) + s) == before + (seq![shown] + s));
        pos = pos + consumed;
    }
}

// ---- Laws ----

/// The bytes of entries in a row.
pub open spec fn packed(list: Seq<(Seq<u8>, CompactEntryV)>) -> Seq<u8>
    decreases list.len(),
{
    if list.len() == 0 {
        Seq::empty()
    } else {
        list[0].0 + packed(list.drop_first())
    }
}

/// Whether bytes are those of an entry, its previous-length field included.
#[verifier::opaque]
pub open spec fn encodes(raw: Seq<u8>, entry: CompactEntryV) -> bool {
    first_entry(raw) == Ok::<(CompactEntryV, int), RdbErrorV>((entry, raw.len() as int))
}

/// Whether each pair is the bytes of an entry, and the entry.
pub open spec fn all_encoded(list: Seq<(Seq<u8>, CompactEntryV)>) -> bool {
    forall|i: int| 0 <= i < list.len() ==> encodes((#[trigger] list[i]).0, list[i].1)
}

/// The entries alone.
pub open spec fn entries_of(list: Seq<(Seq<u8>, CompactEntryV)>) -> Seq<CompactEntryV> {
    list.map_values(|x: (Seq<u8>, CompactEntryV)| x.1)
}

proof fn lemma_encoded_entry_alone(raw: Seq<u8>, rest: Seq<u8>)
    requires
        raw.len() > 0,
        encoded_entry(raw) matches Ok((_, n)) && n == raw.len(),
    ensures
        encoded_entry(raw + rest) == encoded_entry(raw),
{
    let all = raw + rest;
    let n = raw.len() as int;
    assert(forall|i: int| 0 <= i < n ==> all[i] == raw[i]);
    assert(forall|a: int| 0 <= a <= n ==> #[trigger] all.subrange(a, n) == raw.subrange(a, n));
}

/// What follows an entry does not change it.
proof fn lemma_first_entry_alone(raw: Seq<u8>, entry: CompactEntryV, rest: Seq<u8>)
    requires
        encodes(raw, entry),
    ensures
        first_entry(raw + rest) == Ok::<(CompactEntryV, int), RdbErrorV>(
            (entry, raw.len() as int),
        ),
        raw.len() > 0,
        raw[0] != ZL_END,
{
    reveal(encodes);
    let all = raw + rest;
    assert(forall|i: int| 0 <= i < raw.len() ==> all[i] == raw[i]);
    let (size, _) = prevlen(raw)->Ok_0;
    assert(all.skip(size) == raw.skip(size) + rest);
    lemma_encoded_entry_alone(raw.skip(size), rest);
}

#[verifier::spinoff_prover]
proof fn lemma_one_entry(data: Seq<u8>, pos: int, entry: CompactEntryV, n: int)
    requires
        0 <= pos < data.len(),
        data[pos] != ZL_END,
        first_entry(data.skip(pos)) == Ok::<(CompactEntryV, int), RdbErrorV>((entry, n)),
    ensures
        entries_from(data, pos) == (match entries_from(data, pos + n) {
            Ok(rest) => Ok::<Seq<CompactEntryV>, RdbErrorV>(seq![entry] + rest),
            Err(e) => Err(e),
        }),
{
}

/// Reading one entry.
proof fn lemma_packed_entry(
    data: Seq<u8>,
    pos: int,
    raw: Seq<u8>,
    entry: CompactEntryV,
    after: Seq<u8>,
)
    requires
        0 <= pos <= data.len(),
        encodes(raw, entry),
        data.skip(pos) == raw + after,
    ensures
        pos < pos + raw.len() <= data.len(),
        data.skip(pos + raw.len()) == after,
        entries_from(data, pos) == (match entries_from(data, pos + raw.len()) {
            Ok(rest) => Ok::<Seq<CompactEntryV>, RdbErrorV>(seq![entry] + rest),
            Err(e) => Err(e),
        }),
{
    let tail = data.skip(pos);
    let n = raw.len();
    assert(tail.len() == data.len() - pos);
    assert(first_entry(tail) == Ok::<(CompactEntryV, int), RdbErrorV>((entry, n as int)) && raw[0]
        != ZL_END && n > 0) by {
        lemma_first_entry_alone(raw, entry, after);
    }
    assert(data[pos] == tail[0] && tail[0] == raw[0]);
    lemma_one_entry(data, pos, entry, n as int);
    assert(data.skip(pos + n) == after) by {
        assert forall|i: int| 0 <= i < after.len() implies data.skip(pos + n)[i] == after[i] by {
            assert(data[pos + n + i] == tail[n + i]);
        }
    }
}

proof fn lemma_packed_entries(data: Seq<u8>, pos: int, list: Seq<(Seq<u8>, CompactEntryV)>)
    requires
        0 <= pos <= data.len(),
        all_encoded(list),
        data.skip(pos) == packed(list).push(ZL_END),
    ensures
        entries_from(data, pos) == Ok::<Seq<CompactEntryV>, RdbErrorV>(entries_of(list)),
    decreases list.len(),
{
    if list.len() == 0 {
        let tail = data.skip(pos);
        assert(tail.len() == 1 && tail[0] == ZL_END);
        assert(data[pos] == tail[0]);
        assert(entries_of(list) == Seq::<CompactEntryV>::empty());
    } else {
        let (raw, entry) = list[0];
        let front = list.drop_first();
        let after = packed(front).push(ZL_END);
        assert(packed(list).push(ZL_END) == raw + after);
        assert(encodes(list[0].0, list[0].1));
        lemma_packed_entry(data, pos, raw, entry, after);
        assert(all_encoded(front)) by {
            assert forall|i: int| 0 <= i < front.len() implies encodes(
                (#[trigger] front[i]).0,
                front[i].1,
            ) by {
                assert(front[i] == list[i + 1]);
            }
        }
        lemma_packed_entries(data, pos + raw.len(), front);
        assert(entries_of(list) == seq![entry] + entries_of(front));
    }
}

/// A ziplist reads back as the entries that it was made of: a header with the length of the
/// whole, whatever its tail offset and entry count say, entries, and the end byte.
pub proof fn law_ziplist_reads_back(data: Seq<u8>, list: Seq<(Seq<u8>, CompactEntryV)>)
    requires
        all_encoded(list),
        data.len() >= 11,
        bytes::le32(data, 0) == data.len(),
        data.skip(10) == packed(list).push(ZL_END),
    ensures
        entries(data) == Ok::<Seq<CompactEntryV>, RdbErrorV>(entries_of(list)),
{
    lemma_packed_entries(data, 10, list);
}

} // verus!
