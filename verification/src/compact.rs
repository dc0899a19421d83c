//! The entry type that listpacks and ziplists share, and what both decoders need.

use crate::bytes;
use crate::double;
use crate::text;
use crate::text::{dec_string, decimal_i64_bytes, join2};
use crate::types::{corrupt, Double, RdbError, RdbErrorV};
use crate::utf8;
use vstd::arithmetic::power2;
use vstd::prelude::*;

verus! {

/// A single decoded entry of a compact encoding (listpack or ziplist).
#[derive(Debug, Clone, PartialEq)]
pub enum CompactEntry {
    /// Integer value.
    Int(i64),
    /// String (raw bytes).
    Str(Vec<u8>),
}

/// What a `CompactEntry` holds.
#[verifier::ext_equal]
pub enum CompactEntryV {
    Int(i64),
    Str(Seq<u8>),
}

impl View for CompactEntry {
    type V = CompactEntryV;

    open spec fn view(&self) -> CompactEntryV {
        match *self {
            CompactEntry::Int(n) => CompactEntryV::Int(n),
            CompactEntry::Str(s) => CompactEntryV::Str(s@),
        }
    }
}

impl CompactEntryV {
    /// The entry as bytes: a string as it is, an integer in decimal.
    pub open spec fn as_bytes(self) -> Seq<u8> {
        match self {
            CompactEntryV::Int(n) => text::decimal_int(n as int),
            CompactEntryV::Str(s) => s,
        }
    }

    /// The entry as a score: an integer as the nearest number, a string as the number it
    /// spells.
    pub open spec fn score(self) -> Result<Double, RdbErrorV> {
        match self {
            CompactEntryV::Int(n) => Ok(double::rounded(n as int, 1)),
            CompactEntryV::Str(s) => if !vstd::utf8::valid_utf8(s) {
                Err(RdbErrorV::CorruptData("compact entry score is not valid UTF-8"@))
            } else {
                match double::number_text(vstd::utf8::decode_utf8(s)) {
                    Some(d) => Ok(d),
                    None => Err(
                        RdbErrorV::CorruptData(
                            "compact entry score is not a valid float: "@ + utf8::quoted_text(
                                vstd::utf8::decode_utf8(s),
                            ),
                        ),
                    ),
                }
            },
        }
    }
}

/// Entries, each by what it holds.
pub open spec fn compact_entries(entries: Seq<CompactEntry>) -> Seq<CompactEntryV> {
    Seq::new(entries.len(), |i: int| entries[i]@)
}

/// Entries, each as bytes.
pub open spec fn entry_bytes(entries: Seq<CompactEntryV>) -> Seq<Seq<u8>> {
    Seq::new(entries.len(), |i: int| entries[i].as_bytes())
}

impl CompactEntry {
    /// Converts the entry to bytes: strings pass through, integers become decimal ASCII.
    pub fn into_bytes(self) -> (r: Vec<u8>)
        ensures
            r@ == self@.as_bytes(),
    {
        match self {
            CompactEntry::Str(s) => s,
            CompactEntry::Int(n) => decimal_i64_bytes(n),
        }
    }

    /// The entry as bytes, the entry itself staying where it is.
    pub fn to_bytes(&self) -> (r: Vec<u8>)
        ensures
            r@ == self@.as_bytes(),
    {
        match self {
            CompactEntry::Str(s) => bytes::copy_bytes(s),
            CompactEntry::Int(n) => decimal_i64_bytes(*n),
        }
    }

    /// Interprets the entry as a score. Integers convert directly, strings are parsed as
    /// decimal numbers.
    pub fn to_f64(&self) -> (r: Result<Double, RdbError>)
        ensures
            (match r {
                Ok(d) => Ok(d),
                Err(e) => Err(e@),
            }) == self@.score(),
    {
        match self {
            CompactEntry::Int(n) => Ok(Double::from_i64(*n)),
            CompactEntry::Str(s) => match utf8::string_from_utf8(bytes::copy_bytes(s)) {
                None => Err(corrupt("compact entry score is not valid UTF-8")),
                Some(t) => match double::parse(t.as_str()) {
                    Some(d) => Ok(d),
                    None => Err(
                        RdbError::CorruptData(
                            join2(
                                "compact entry score is not a valid float: ",
                                utf8::quoted(t.as_str()).as_str(),
                            ),
                        ),
                    ),
                },
            },
        }
    }
}

/// Sign-extends an unsigned value of `bits` width to `i64`: bits above the width are
/// dropped, the topmost bit of the width is the sign.
pub fn sign_extend(raw: u64, bits: u32) -> (r: i64)
    requires
        1 <= bits <= 64,
    ensures
        r as int == bytes::twos(
            raw as int % power2::pow2(bits as nat) as int,
            power2::pow2((bits - 1) as nat) as int,
        ),
{
    proof {
        power2::lemma2_to64();
        power2::lemma2_to64_rest();
        power2::lemma_pow2_unfold(bits as nat);
        vstd::bits::lemma_u64_pow2_no_overflow((bits - 1) as nat);
        vstd::bits::lemma_u64_shl_is_mul(1, (bits - 1) as u64);
        if bits < 64 {
            vstd::bits::lemma_u64_pow2_no_overflow(bits as nat);
            vstd::bits::lemma_u64_shl_is_mul(1, bits as u64);
        } else {
            vstd::arithmetic::div_mod::lemma_small_mod(
                raw as nat,
                power2::pow2(bits as nat),
            );
        }
    }
    let half: u64 = 1u64 << (bits - 1);
    let low: u64 = if bits == 64 {
        raw
    } else {
        raw % (1u64 << bits)
    };
    if low >= half {
        (low as i128 - 2 * (half as i128)) as i64
    } else {
        low as i64
    }
}

/// The unsigned 24-bit little-endian number at `p`.
pub open spec fn le24(s: Seq<u8>, p: int) -> int {
    bytes::le16(s, p) + s[p + 2] * 0x1_0000
}

/// Reads a 24-bit little-endian signed integer at `offset`.
pub fn read_i24_le(buf: &[u8], offset: usize) -> (r: i64)
    requires
        offset + 3 <= buf.len(),
    ensures
        r as int == bytes::twos(le24(buf@, offset as int), 0x80_0000),
{
    let raw: u64 = bytes::get_le16(buf, offset) as u64 + buf[offset + 2] as u64 * 0x1_0000;
    proof {
        power2::lemma2_to64();
    }
    sign_extend(raw, 24)
}

/// Capacity to reserve for the entries of a blob: its element count, at most its length,
/// or 256 where the count field says that the count is unknown.
pub fn capacity_hint(count_field: u16, blob_len: usize) -> (r: usize)
    ensures
        r == (if count_field == 0xffff {
            256
        } else if (count_field as int) < blob_len {
            count_field as int
        } else {
            blob_len as int
        }),
{
    if count_field == 0xffff {
        256
    } else if (count_field as usize) < blob_len {
        count_field as usize
    } else {
        blob_len
    }
}

/// The error for a length that does not fit in the address space.
pub open spec fn overflow_error(format: Seq<char>, ctx: Seq<char>) -> RdbErrorV {
    RdbErrorV::CorruptData(format + " "@ + ctx + ": length overflow"@)
}

/// Addition that reports an overflow as corrupt data.
pub fn checked_add(a: usize, b: usize, format: &str, ctx: &str) -> (r: Result<usize, RdbError>)
    ensures
        match r {
            Ok(n) => n == a + b,
            Err(e) => a + b > usize::MAX && e@ == overflow_error(format@, ctx@),
        },
{
    match a.checked_add(b) {
        Some(n) => Ok(n),
        None => Err(
            RdbError::CorruptData(
                format.to_owned().concat(" ").concat(ctx).concat(": length overflow"),
            ),
        ),
    }
}

/// The error for a buffer that is shorter than an entry needs.
pub open spec fn short_error(
    format: Seq<char>,
    ctx: Seq<char>,
    need: int,
    have: int,
) -> RdbErrorV {
    RdbErrorV::CorruptData(
        format + " "@ + ctx + ": need "@ + text::dec(need) + " bytes, have "@ + text::dec(have),
    )
}

/// Checks that a buffer has at least `need` bytes.
pub fn ensure_len(buf: &[u8], need: usize, format: &str, ctx: &str) -> (r: Result<(), RdbError>)
    ensures
        match r {
            Ok(_) => need <= buf@.len(),
            Err(e) => need > buf@.len() && e@ == short_error(
                format@,
                ctx@,
                need as int,
                buf@.len() as int,
            ),
        },
{
    if buf.len() < need {
        let message = format.to_owned().concat(" ").concat(ctx).concat(": need ").concat(
            dec_string(need as u64).as_str(),
        ).concat(" bytes, have ").concat(dec_string(buf.len() as u64).as_str());
        return Err(RdbError::CorruptData(message));
    }
    Ok(())
}

/// A string entry: `len` bytes after a header.
pub open spec fn str_entry_of(
    buf: Seq<u8>,
    header: int,
    len: int,
    format: Seq<char>,
    ctx: Seq<char>,
) -> Result<(CompactEntryV, int), RdbErrorV> {
    let total = header + len;
    if total > usize::MAX {
        Err(overflow_error(format, ctx))
    } else if buf.len() < total {
        Err(short_error(format, ctx, total, buf.len() as int))
    } else {
        Ok((CompactEntryV::Str(buf.subrange(header, total)), total))
    }
}

/// An integer entry of `size` bytes.
pub open spec fn int_entry_of(
    buf: Seq<u8>,
    size: int,
    value: int,
    format: Seq<char>,
    ctx: Seq<char>,
) -> Result<(CompactEntryV, int), RdbErrorV> {
    if buf.len() < size {
        Err(short_error(format, ctx, size, buf.len() as int))
    } else {
        Ok((CompactEntryV::Int(value as i64), size))
    }
}

/// The result of decoding an entry, by what it holds.
pub open spec fn entry_outcome(
    r: Result<(CompactEntry, usize), RdbError>,
) -> Result<(CompactEntryV, int), RdbErrorV> {
    match r {
        Ok((entry, n)) => Ok((entry@, n as int)),
        Err(e) => Err(e@),
    }
}

/// Reads a string entry: `len` bytes after a header.
pub fn str_entry(buf: &[u8], header: usize, len: usize, format: &str, ctx: &str) -> (r: Result<
    (CompactEntry, usize),
    RdbError,
>)
    ensures
        entry_outcome(r) == str_entry_of(buf@, header as int, len as int, format@, ctx@),
{
    let total = match checked_add(header, len, format, ctx) {
        Ok(n) => n,
        Err(e) => {
            return Err(e);
        },
    };
    match ensure_len(buf, total, format, ctx) {
        Ok(_) => {},
        Err(e) => {
            return Err(e);
        },
    }
    Ok((CompactEntry::Str(bytes::copy_range(buf, header, total)), total))
}

} // verus!
