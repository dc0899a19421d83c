//! Listpack decoder: the compact encoding of small hashes, sorted sets, and sets.
//!
//! Layout: four bytes of total length and two bytes of element count, little-endian, then
//! the entries, then `0xff`. An entry is its encoding and data, followed by its own length
//! ("backlen") in one to five bytes.

use crate::bytes;
use crate::compact;
use crate::compact::{CompactEntry, CompactEntryV};
use crate::text;
use crate::text::{hex_string, join2, with_number, with_numbers};
use crate::types::{corrupt, RdbError, RdbErrorV};
use vstd::prelude::*;

verus! {

/// Size of the header.
pub const LP_HDR_SIZE: usize = 6;

/// The end byte.
pub const LP_EOF: u8 = 0xff;

/// The first entry of `buf`, and how many bytes its encoding and data take.
pub open spec fn first_entry(buf: Seq<u8>) -> Result<(CompactEntryV, int), RdbErrorV> {
    let lp = "listpack"@;
    if buf.len() == 0 {
        Err(RdbErrorV::CorruptData("listpack entry: empty buffer"@))
    } else if buf[0] < 0x80 {
        // 0xxxxxxx: 7-bit unsigned integer.
        Ok((CompactEntryV::Int(buf[0] as i64), 1))
    } else if buf[0] < 0xc0 {
        // 10xxxxxx: string with a 6-bit length.
        compact::str_entry_of(buf, 1, buf[0] - 0x80, lp, "6-bit string"@)
    } else if buf[0] < 0xe0 {
        // 110xxxxx: 13-bit signed integer.
        compact::int_entry_of(
            buf,
            2,
            bytes::twos((buf[0] - 0xc0) * 256 + buf[1], 0x1000),
            lp,
            "13-bit int"@,
        )
    } else if buf[0] < 0xf0 {
        // 1110xxxx: string with a 12-bit length.
        if buf.len() < 2 {
            Err(compact::short_error(lp, "12-bit string header"@, 2, buf.len() as int))
        } else {
            compact::str_entry_of(buf, 2, (buf[0] - 0xe0) * 256 + buf[1], lp, "12-bit string"@)
        }
    } else if buf[0] == 0xf0 {
        // String with a 32-bit length.
        if buf.len() < 5 {
            Err(compact::short_error(lp, "32-bit string header"@, 5, buf.len() as int))
        } else {
            compact::str_entry_of(buf, 5, bytes::le32(buf, 1), lp, "32-bit string"@)
        }
    } else if buf[0] == 0xf1 {
        compact::int_entry_of(buf, 3, bytes::twos(bytes::le16(buf, 1), 0x8000), lp, "16-bit int"@)
    } else if buf[0] == 0xf2 {
        compact::int_entry_of(
            buf,
            4,
            bytes::twos(compact::le24(buf, 1), 0x80_0000),
            lp,
            "24-bit int"@,
        )
    } else if buf[0] == 0xf3 {
        compact::int_entry_of(
            buf,
            5,
            bytes::twos(bytes::le32(buf, 1), 0x8000_0000),
            lp,
            "32-bit int"@,
        )
    } else if buf[0] == 0xf4 {
        compact::int_entry_of(
            buf,
            9,
            bytes::twos(bytes::le64(buf, 1), 0x8000_0000_0000_0000),
            lp,
            "64-bit int"@,
        )
    } else {
        Err(
            RdbErrorV::CorruptData(
                "listpack unknown encoding byte 0x"@ + text::hex(buf[0] as nat, 2),
            ),
        )
    }
}

/// How many bytes the backlen of an entry of `n` bytes takes. The server writes three
/// bytes for a length of exactly 16383, and so on, although fewer would do.
pub open spec fn backlen_bytes(n: int) -> int {
    if n <= 127 {
        1
    } else if n < 16383 {
        2
    } else if n < 2097151 {
        3
    } else if n < 268435455 {
        4
    } else {
        5
    }
}

/// The number in base 128 whose digits are the low seven bits of each byte.
pub open spec fn base128(b: Seq<u8>) -> nat
    decreases b.len(),
{
    if b.len() == 0 {
        0
    } else {
        base128(b.drop_last()) * 128 + (b.last() % 128) as nat
    }
}

/// The entry length that backlen bytes state.
pub open spec fn backlen(b: Seq<u8>) -> Result<nat, RdbErrorV> {
    if b.len() == 0 {
        Err(RdbErrorV::CorruptData("listpack backlen: empty"@))
    } else if b[0] >= 0x80 {
        Err(RdbErrorV::CorruptData("listpack backlen: first byte missing terminator bit"@))
    } else if b.len() > 5 {
        Err(RdbErrorV::CorruptData("listpack backlen exceeds 5 bytes"@))
    } else if base128(b) > usize::MAX {
        Err(
            RdbErrorV::CorruptData(
                "listpack backlen "@ + text::dec(base128(b) as int) + " exceeds usize"@,
            ),
        )
    } else {
        Ok(base128(b))
    }
}

/// The entries from `pos` up to the end byte, which has to be the last byte.
pub open spec fn entries_from(data: Seq<u8>, pos: int) -> Result<Seq<CompactEntryV>, RdbErrorV>
    decreases data.len() - pos,
{
    if pos < 0 || pos >= data.len() {
        Err(RdbErrorV::CorruptData("listpack missing EOF byte"@))
    } else if data[pos] == LP_EOF {
        if pos != data.len() - 1 {
            Err(
                RdbErrorV::CorruptData(
                    "listpack EOF at byte "@ + text::dec(pos) + " but blob length is "@ + text::dec(
                        data.len() as int,
                    ) + ", expected EOF at "@ + text::dec(data.len() - 1),
                ),
            )
        } else {
            Ok(Seq::empty())
        }
    } else {
        match first_entry(data.skip(pos)) {
            Err(e) => Err(e),
            Ok((entry, n)) => {
                let start = pos + n;
                let next = start + backlen_bytes(n);
                if next > data.len() {
                    Err(RdbErrorV::CorruptData("listpack entry overflows blob"@))
                } else {
                    match backlen(data.subrange(start, next)) {
                        Err(e) => Err(e),
                        Ok(stated) => if stated != n {
                            Err(
                                RdbErrorV::CorruptData(
                                    "listpack backlen mismatch: expected "@ + text::dec(n)
                                        + ", decoded "@ + text::dec(stated as int) + ""@,
                                ),
                            )
                        } else {
                            match entries_from(data, next) {
                                Ok(rest) => Ok(seq![entry] + rest),
                                Err(e) => Err(e),
                            }
                        },
                    }
                }
            },
        }
    }
}

/// All entries of a listpack blob, whose length field has to be the length of the blob.
pub open spec fn entries(data: Seq<u8>) -> Result<Seq<CompactEntryV>, RdbErrorV> {
    if data.len() < 7 {
        Err(RdbErrorV::CorruptData("listpack too short for header + EOF"@))
    } else if bytes::le32(data, 0) != data.len() {
        Err(
            RdbErrorV::CorruptData(
                "listpack total_bytes header ("@ + text::dec(bytes::le32(data, 0))
                    + ") does not match blob length ("@ + text::dec(data.len() as int) + ")"@,
            ),
        )
    } else {
        entries_from(data, 6)
    }
}

/// Decodes a single entry at the start of `buf`. The second result is the size of its
/// encoding and data, the backlen that follows not counted.
pub fn decode_entry(buf: &[u8]) -> (r: Result<(CompactEntry, usize), RdbError>)
    ensures
        compact::entry_outcome(r) == first_entry(buf@),
        r matches Ok((_, n)) ==> 1 <= n <= buf@.len(),
{
    if buf.len() == 0 {
        return Err(corrupt("listpack entry: empty buffer"));
    }
    let b0: u8 = buf[0];
    if b0 < 0x80 {
        return Ok((CompactEntry::Int(b0 as i64), 1));
    }
    if b0 < 0xc0 {
        return compact::str_entry(buf, 1, (b0 - 0x80) as usize, "listpack", "6-bit string");
    }
    if b0 < 0xe0 {
        match compact::ensure_len(buf, 2, "listpack", "13-bit int") {
            Ok(_) => {},
            Err(e) => {
                return Err(e);
            },
        }
        let raw: u64 = (b0 - 0xc0) as u64 * 256 + buf[1] as u64;
        proof {
            vstd::arithmetic::power2::lemma2_to64();
        }
        return Ok((CompactEntry::Int(compact::sign_extend(raw, 13)), 2));
    }
    if b0 < 0xf0 {
        match compact::ensure_len(buf, 2, "listpack", "12-bit string header") {
            Ok(_) => {},
            Err(e) => {
                return Err(e);
            },
        }
        let len: usize = (b0 - 0xe0) as usize * 256 + buf[1] as usize;
        return compact::str_entry(buf, 2, len, "listpack", "12-bit string");
    }
    if b0 == 0xf0 {
        match compact::ensure_len(buf, 5, "listpack", "32-bit string header") {
            Ok(_) => {},
            Err(e) => {
                return Err(e);
            },
        }
        let len: usize = bytes::get_le32(buf, 1) as usize;
        return compact::str_entry(buf, 5, len, "listpack", "32-bit string");
    }
    if b0 == 0xf1 {
        match compact::ensure_len(buf, 3, "listpack", "16-bit int") {
            Ok(_) => {},
            Err(e) => {
                return Err(e);
            },
        }
        return Ok((CompactEntry::Int(bytes::signed16(bytes::get_le16(buf, 1))), 3));
    }
    if b0 == 0xf2 {
        match compact::ensure_len(buf, 4, "listpack", "24-bit int") {
            Ok(_) => {},
            Err(e) => {
                return Err(e);
            },
        }
        return Ok((CompactEntry::Int(compact::read_i24_le(buf, 1)), 4));
    }
    if b0 == 0xf3 {
        match compact::ensure_len(buf, 5, "listpack", "32-bit int") {
            Ok(_) => {},
            Err(e) => {
                return Err(e);
            },
        }
        return Ok((CompactEntry::Int(bytes::signed32(bytes::get_le32(buf, 1))), 5));
    }
    if b0 == 0xf4 {
        match compact::ensure_len(buf, 9, "listpack", "64-bit int") {
            Ok(_) => {},
            Err(e) => {
                return Err(e);
            },
        }
        return Ok((CompactEntry::Int(bytes::signed64(bytes::get_le64(buf, 1))), 9));
    }
    Err(
        RdbError::CorruptData(
            join2("listpack unknown encoding byte 0x", hex_string(b0 as u64, 2).as_str()),
        ),
    )
}

/// The number of backlen bytes for an entry of the given length.
pub fn backlen_size(entry_len: usize) -> (r: usize)
    ensures
        r as int == backlen_bytes(entry_len as int),
{
    if entry_len <= 127 {
        1
    } else if entry_len < 16383 {
        2
    } else if entry_len < 2097151 {
        3
    } else if entry_len < 268435455 {
        4
    } else {
        5
    }
}

/// Decodes a backlen from its bytes. The first byte holds the most significant digit and
/// has bit 7 clear.
pub fn decode_backlen(buf: &[u8]) -> (r: Result<usize, RdbError>)
    ensures
        (match r {
            Ok(n) => Ok(n as nat),
            Err(e) => Err(e@),
        }) == backlen(buf@),
{
    if buf.len() == 0 {
        return Err(corrupt("listpack backlen: empty"));
    }
    if buf[0] >= 0x80 {
        return Err(corrupt("listpack backlen: first byte missing terminator bit"));
    }
    if buf.len() > 5 {
        return Err(corrupt("listpack backlen exceeds 5 bytes"));
    }
    let mut val: u64 = 0;
    let mut i: usize = 0;
    while i < buf.len()
        invariant
            i <= buf@.len() <= 5,
            val as nat == base128(buf@.take(i as int)),
            i == 0 ==> val == 0,
            i == 1 ==> val < 0x80,
            i == 2 ==> val < 0x4000,
            i == 3 ==> val < 0x20_0000,
            i == 4 ==> val < 0x1000_0000,
            i == 5 ==> val < 0x8_0000_0000,
        decreases buf@.len() - i,
    {
        assert(buf@.take(i + 1).drop_last() == buf@.take(i as int));
        assert(buf@.take(i + 1).last() == buf@[i as int]);
        val = val * 128 + (buf[i] % 128) as u64;
        i += 1;
    }
    assert(buf@.take(i as int) == buf@);
    if val > usize::MAX as u64 {
        return Err(
            RdbError::CorruptData(with_number("listpack backlen ", val, " exceeds usize")),
        );
    }
    Ok(val as usize)
}

/// Decodes all entries of a listpack blob.
///
/// The length field has to equal the length of the blob, every entry has to be followed by
/// its own length, and the end byte has to be the last byte.
pub fn decode(data: &[u8]) -> (r: Result<Vec<CompactEntry>, RdbError>)
    ensures
        (match r {
            Ok(v) => Ok(compact::compact_entries(v@)),
            Err(e) => Err(e@),
        }) == entries(data@),
{
    if data.len() < LP_HDR_SIZE + 1 {
        return Err(corrupt("listpack too short for header + EOF"));
    }
    let total_bytes: u32 = bytes::get_le32(data, 0);
    if total_bytes as u64 != data.len() as u64 {
        return Err(
            RdbError::CorruptData(
                with_numbers(
                    "listpack total_bytes header (",
                    total_bytes as u64,
                    ") does not match blob length (",
                    data.len() as u64,
                    ")",
                ),
            ),
        );
    }
    let num_elements: u16 = bytes::get_le16(data, 4);
    let capacity: usize = compact::capacity_hint(num_elements, data.len());
    let mut pos: usize = LP_HDR_SIZE;
    let mut found: Vec<CompactEntry> = Vec::with_capacity(capacity);
    assert(compact::compact_entries(found@) == Seq::<CompactEntryV>::empty());
    assert(forall|s: Seq<CompactEntryV>| #[trigger] (Seq::<CompactEntryV>::empty() + s) == s);
    loop
        invariant
            6 <= pos,
            data@.len() >= 7,
            bytes::le32(data@, 0) == data@.len(),
            (match entries_from(data@, pos as int) {
                Ok(rest) => Ok(compact::compact_entries(found@) + rest),
                Err(e) => Err(e),
            }) == entries(data@),
        decreases data@.len() - pos,
    {
        if pos >= data.len() {
            return Err(corrupt("listpack missing EOF byte"));
        }
        if data[pos] == LP_EOF {
            if pos != data.len() - 1 {
                let message = with_numbers(
                    "listpack EOF at byte ",
                    pos as u64,
                    " but blob length is ",
                    data.len() as u64,
                    ", expected EOF at ",
                ).concat(text::dec_string((data.len() - 1) as u64).as_str());
                return Err(RdbError::CorruptData(message));
            }
            assert(compact::compact_entries(found@) + Seq::<CompactEntryV>::empty()
                == compact::compact_entries(found@));
            return Ok(found);
        }
        let rest = vstd::slice::slice_subrange(data, pos, data.len());
        assert(rest@ == data@.skip(pos as int));
        let (entry, entry_len) = match decode_entry(rest) {
            Ok(x) => x,
            Err(e) => {
                return Err(e);
            },
        };
        let bl_size: usize = backlen_size(entry_len);
        let start: usize = pos + entry_len;
        if bl_size > data.len() - start {
            return Err(corrupt("listpack entry overflows blob"));
        }
        let next: usize = start + bl_size;
        let stated = match decode_backlen(vstd::slice::slice_subrange(data, start, next)) {
            Ok(n) => n,
            Err(e) => {
                return Err(e);
            },
        };
        if stated != entry_len {
            return Err(
                RdbError::CorruptData(
                    with_numbers(
                        "listpack backlen mismatch: expected ",
                        entry_len as u64,
                        ", decoded ",
                        stated as u64,
                        "",
                    ),
                ),
            );
        }
        let ghost before = compact::compact_entries(found@);
        let ghost shown = entry@;
        found.push(entry);
        assert(compact::compact_entries(found@) == before.push(shown));
        assert(forall|s: Seq<CompactEntryV>| #[trigger]
            (before.push(shown) + s) == before + (seq![shown] + s));
        pos = next;
    }
}

// ---- Laws ----

/// The backlen bytes of a length, in the given number of bytes: digits in base 128, all but
/// the first with bit 7 set.
pub open spec fn backlen_text(n: nat, size: nat) -> Seq<u8>
    decreases size,
{
    if size <= 1 {
        seq![(n % 128) as u8]
    } else {
        backlen_text(n / 128, (size - 1) as nat).push((n % 128 + 128) as u8)
    }
}

/// The bytes of entries in a row, each of them its encoding and data and its backlen.
pub open spec fn packed(list: Seq<(Seq<u8>, CompactEntryV)>) -> Seq<u8>
    decreases list.len(),
{
    if list.len() == 0 {
        Seq::empty()
    } else {
        let n = list[0].0.len();
        list[0].0 + backlen_text(n, backlen_bytes(n as int) as nat) + packed(list.drop_first())
    }
}

/// Whether bytes are the encoding and data of an entry.
#[verifier::opaque]
pub open spec fn encodes(raw: Seq<u8>, entry: CompactEntryV) -> bool {
    first_entry(raw) == Ok::<(CompactEntryV, int), RdbErrorV>((entry, raw.len() as int))
}

/// Whether each pair is the encoding and data of an entry, and the entry.
pub open spec fn all_encoded(list: Seq<(Seq<u8>, CompactEntryV)>) -> bool {
    forall|i: int| 0 <= i < list.len() ==> encodes((#[trigger] list[i]).0, list[i].1)
}

/// The entries alone.
pub open spec fn entries_of(list: Seq<(Seq<u8>, CompactEntryV)>) -> Seq<CompactEntryV> {
    list.map_values(|x: (Seq<u8>, CompactEntryV)| x.1)
}

proof fn lemma_backlen_text(n: nat, size: nat)
    requires
        1 <= size <= 5,
        size == 1 ==> n < 0x80,
        size == 2 ==> n < 0x4000,
        size == 3 ==> n < 0x20_0000,
        size == 4 ==> n < 0x1000_0000,
        size == 5 ==> n < 0x8_0000_0000,
    ensures
        backlen_text(n, size).len() == size,
        backlen_text(n, size)[0] < 0x80,
        base128(backlen_text(n, size)) == n,
    decreases size,
{
    let b = backlen_text(n, size);
    if size == 1 {
        assert(b.drop_last() == Seq::<u8>::empty());
        assert(base128(b.drop_last()) == 0);
    } else {
        lemma_backlen_text(n / 128, (size - 1) as nat);
        assert(b.drop_last() == backlen_text(n / 128, (size - 1) as nat));
        assert(((n % 128 + 128) as u8) % 128 == n % 128);
    }
}

/// What follows an entry does not change it.
proof fn lemma_first_entry_alone(raw: Seq<u8>, entry: CompactEntryV, rest: Seq<u8>)
    requires
        encodes(raw, entry),
    ensures
        first_entry(raw + rest) == Ok::<(CompactEntryV, int), RdbErrorV>(
            (entry, raw.len() as int),
        ),
        raw.len() > 0,
        raw[0] != LP_EOF,
{
    reveal(encodes);
    let all = raw + rest;
    let n = raw.len() as int;
    assert(forall|i: int| 0 <= i < n ==> all[i] == raw[i]);
    assert(forall|a: int| 0 <= a <= n ==> #[trigger] all.subrange(a, n) == raw.subrange(a, n));
}

/// Reading one entry.
proof fn lemma_packed_entry(
    data: Seq<u8>,
    pos: int,
    raw: Seq<u8>,
    entry: CompactEntryV,
    after: Seq<u8>,
)
    requires
        0 <= pos <= data.len() <= u32::MAX,
        encodes(raw, entry),
        data.skip(pos) == raw + backlen_text(raw.len(), backlen_bytes(raw.len() as int) as nat)
            + after,
    ensures
        ({
            let next = pos + raw.len() + backlen_bytes(raw.len() as int);
            &&& pos < next <= data.len()
            &&& data.skip(next) == after
            &&& entries_from(data, pos) == (match entries_from(data, next) {
                Ok(rest) => Ok::<Seq<CompactEntryV>, RdbErrorV>(seq![entry] + rest),
                Err(e) => Err(e),
            })
        }),
{
    let tail = data.skip(pos);
    let n = raw.len();
    let size = backlen_bytes(n as int) as nat;
    let bl = backlen_text(n, size);
    assert(tail == raw + (bl + after));
    assert(tail.len() == data.len() - pos);
    lemma_backlen_text(n, size);
    lemma_first_entry_alone(raw, entry, bl + after);
    assert(data[pos] == tail[0] && tail[0] == raw[0]);
    let start = pos + n;
    let next = start + size;
    assert(data.subrange(start, next) == bl) by {
        assert forall|i: int| 0 <= i < size implies data.subrange(start, next)[i] == bl[i] by {
            assert(data[start + i] == tail[n + i]);
        }
    }
    assert(data.skip(next) == after) by {
        assert forall|i: int| 0 <= i < after.len() implies data.skip(next)[i] == after[i] by {
            assert(data[next + i] == tail[n + size + i]);
        }
    }
}

proof fn lemma_packed_entries(data: Seq<u8>, pos: int, list: Seq<(Seq<u8>, CompactEntryV)>)
    requires
        0 <= pos <= data.len() <= u32::MAX,
        all_encoded(list),
        data.skip(pos) == packed(list).push(LP_EOF),
    ensures
        entries_from(data, pos) == Ok::<Seq<CompactEntryV>, RdbErrorV>(entries_of(list)),
    decreases list.len(),
{
    if list.len() == 0 {
        let tail = data.skip(pos);
        assert(tail.len() == 1 && tail[0] == LP_EOF);
        assert(data[pos] == tail[0]);
        assert(entries_of(list) == Seq::<CompactEntryV>::empty());
    } else {
        let (raw, entry) = list[0];
        let n = raw.len();
        let bl = backlen_text(n, backlen_bytes(n as int) as nat);
        let front = list.drop_first();
        let after = packed(front).push(LP_EOF);
        assert(packed(list).push(LP_EOF) == raw + bl + after);
        assert(encodes(list[0].0, list[0].1));
        lemma_packed_entry(data, pos, raw, entry, after);
        assert(all_encoded(front)) by {
            assert forall|i: int| 0 <= i < front.len() implies encodes(
                (#[trigger] front[i]).0,
                front[i].1,
            ) by {
                assert(front[i] == list[i + 1]);
            }
        }
        lemma_packed_entries(data, pos + n + backlen_bytes(n as int), front);
        assert(entries_of(list) == seq![entry] + entries_of(front));
    }
}

/// A listpack reads back as the entries that it was made of: a header with the length of the
/// whole, whatever its element count says, entries with their backlens, and the end byte.
pub proof fn law_listpack_reads_back(data: Seq<u8>, list: Seq<(Seq<u8>, CompactEntryV)>)
    requires
        all_encoded(list),
        data.len() >= 7,
        bytes::le32(data, 0) == data.len(),
        data.skip(6) == packed(list).push(LP_EOF),
    ensures
        entries(data) == Ok::<Seq<CompactEntryV>, RdbErrorV>(entries_of(list)),
{
    lemma_packed_entries(data, 6, list);
}

} // verus!
