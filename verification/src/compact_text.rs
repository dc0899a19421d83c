//! Entries of listpacks and ziplists as they are written, in each of their forms, and that they
//! are read back as what was written.

use crate::bytes::{law_le_reads_back, le_bytes, lemma_le_bytes, twos, unsigned};
use crate::compact;
use crate::compact::CompactEntryV;
use crate::listpack;
use crate::types::RdbErrorV;
use crate::wire::be_text;
use crate::ziplist;
use vstd::prelude::*;

verus! {

// ---- Listpacks ----

/// A form of a listpack entry.
pub enum ListpackForm {
    /// A small number, in one byte.
    Int7,
    /// A number of 13 bits.
    Int13,
    /// A number of the given number of bytes: 2, 3, 4 or 8.
    Int(nat),
    /// A string with a length of 6 bits.
    Str6,
    /// A string with a length of 12 bits.
    Str12,
    /// A string with a length of 32 bits.
    Str32,
}

/// The first number that a signed number of the given bytes cannot be.
pub open spec fn half_range(size: nat) -> int {
    if size == 1 {
        0x80
    } else if size == 2 {
        0x8000
    } else if size == 3 {
        0x80_0000
    } else if size == 4 {
        0x8000_0000
    } else {
        0x8000_0000_0000_0000
    }
}

/// A signed number in the given bytes, the lowest first.
pub open spec fn signed_bytes(n: int, size: nat) -> Seq<u8> {
    le_bytes(unsigned(n, half_range(size)), size)
}

impl ListpackForm {
    /// Whether an entry can be written in the form.
    pub open spec fn fits(self, e: CompactEntryV) -> bool {
        match (self, e) {
            (ListpackForm::Int7, CompactEntryV::Int(n)) => 0 <= n < 128,
            (ListpackForm::Int13, CompactEntryV::Int(n)) => -4096 <= n < 4096,
            (ListpackForm::Int(size), CompactEntryV::Int(n)) => (size == 2 || size == 3 || size == 4
                || size == 8) && -half_range(size) <= n < half_range(size),
            (ListpackForm::Str6, CompactEntryV::Str(s)) => s.len() < 64,
            (ListpackForm::Str12, CompactEntryV::Str(s)) => s.len() < 4096,
            (ListpackForm::Str32, CompactEntryV::Str(s)) => s.len() <= u32::MAX - 5,
            _ => false,
        }
    }

    /// The bytes of an entry in the form, its backlen not counted.
    pub open spec fn written(self, e: CompactEntryV) -> Seq<u8> {
        match (self, e) {
            (ListpackForm::Int7, CompactEntryV::Int(n)) => seq![n as u8],
            (ListpackForm::Int13, CompactEntryV::Int(n)) => {
                let u = unsigned(n as int, 4096);
                seq![(0b1100_0000 + u / 256) as u8, (u % 256) as u8]
            },
            (ListpackForm::Int(size), CompactEntryV::Int(n)) => seq![
                if size == 2 {
                    0xf1u8
                } else if size == 3 {
                    0xf2
                } else if size == 4 {
                    0xf3
                } else {
                    0xf4
                },
            ] + signed_bytes(n as int, size),
            (ListpackForm::Str6, CompactEntryV::Str(s)) => seq![(0b1000_0000 + s.len()) as u8] + s,
            (ListpackForm::Str12, CompactEntryV::Str(s)) => seq![
                (0b1110_0000 + s.len() / 256) as u8,
                (s.len() % 256) as u8,
            ] + s,
            (ListpackForm::Str32, CompactEntryV::Str(s)) => seq![0xf0u8] + le_bytes(s.len(), 4) + s,
            _ => Seq::empty(),
        }
    }
}

proof fn lemma_signed_bytes(n: int, size: nat, raw: Seq<u8>, p: int)
    requires
        size == 2 || size == 3 || size == 4 || size == 8,
        -half_range(size) <= n < half_range(size),
        0 <= p,
        raw.len() == p + size,
        raw.skip(p) == signed_bytes(n, size),
    ensures
        size == 2 ==> twos(crate::bytes::le16(raw, p), 0x8000) == n,
        size == 3 ==> twos(compact::le24(raw, p), 0x80_0000) == n,
        size == 4 ==> twos(crate::bytes::le32(raw, p), 0x8000_0000) == n,
        size == 8 ==> twos(crate::bytes::le64(raw, p), 0x8000_0000_0000_0000) == n,
{
    let u = unsigned(n, half_range(size));
    let b = signed_bytes(n, size);
    lemma_le_bytes(u, size);
    assert(raw.subrange(p, p + size) == b);
    if size == 3 {
        reveal_with_fuel(le_bytes, 4);
        assert(raw[p] == raw.skip(p)[0] && raw[p + 1] == raw.skip(p)[1] && raw[p + 2] == raw.skip(
            p,
        )[2]);
        assert(b[0] == (u % 0x100) as u8);
        assert(b[1] == (u / 0x100 % 0x100) as u8);
        assert(b[2] == (u / 0x100 / 0x100 % 0x100) as u8);
    } else {
        law_le_reads_back(raw, p, u);
    }
}

/// An entry of a listpack is read back in whatever form it was written.
pub proof fn law_listpack_entry_reads_back(form: ListpackForm, e: CompactEntryV)
    requires
        form.fits(e),
    ensures
        listpack::encodes(form.written(e), e),
{
    reveal(listpack::encodes);
    let raw = form.written(e);
    match (form, e) {
        (ListpackForm::Int7, CompactEntryV::Int(n)) => {},
        (ListpackForm::Int13, CompactEntryV::Int(n)) => {
            let u = unsigned(n as int, 4096);
            assert(u / 256 < 32);
            assert(u == u / 256 * 256 + u % 256);
            assert(raw.len() == 2);
        },
        (ListpackForm::Int(size), CompactEntryV::Int(n)) => {
            lemma_le_bytes(unsigned(n as int, half_range(size)), size);
            assert(raw.skip(1) == signed_bytes(n as int, size));
            lemma_signed_bytes(n as int, size, raw, 1);
        },
        (ListpackForm::Str6, CompactEntryV::Str(s)) => {
            assert(raw.subrange(1, 1 + s.len() as int) == s);
        },
        (ListpackForm::Str12, CompactEntryV::Str(s)) => {
            assert(s.len() / 256 < 16);
            assert(s.len() == s.len() / 256 * 256 + s.len() % 256);
            assert(raw.subrange(2, 2 + s.len() as int) == s);
        },
        (ListpackForm::Str32, CompactEntryV::Str(s)) => {
            lemma_le_bytes(s.len(), 4);
            assert(raw.subrange(1, 5) == le_bytes(s.len(), 4));
            law_le_reads_back(raw, 1, s.len());
            assert(raw.subrange(5, 5 + s.len() as int) == s);
        },
        _ => {},
    }
}

/// The backlen of an entry takes as many bytes as its length has digits in base 128, except
/// that the last length of each size, but for the first, takes one more.
pub proof fn law_backlen_size(n: int)
    requires
        0 <= n <= 0x7_ffff_ffff,
    ensures
        0 <= n < 0x80 ==> listpack::backlen_bytes(n) == 1,
        0x80 <= n < 0x3fff ==> listpack::backlen_bytes(n) == 2,
        0x3fff <= n < 0x1f_ffff ==> listpack::backlen_bytes(n) == 3,
        0x1f_ffff <= n < 0xfff_ffff ==> listpack::backlen_bytes(n) == 4,
        0xfff_ffff <= n ==> listpack::backlen_bytes(n) == 5,
{
}

// ---- Ziplists ----

/// A form of a ziplist entry.
pub enum ZiplistForm {
    /// A number from 0 to 12, in the encoding byte.
    Int4,
    /// A number of the given number of bytes: 1, 2, 3, 4 or 8.
    Int(nat),
    /// A string with a length of 6 bits.
    Str6,
    /// A string with a length of 14 bits.
    Str14,
    /// A string with a length of 32 bits.
    Str32,
}

impl ZiplistForm {
    /// Whether an entry can be written in the form.
    pub open spec fn fits(self, e: CompactEntryV) -> bool {
        match (self, e) {
            (ZiplistForm::Int4, CompactEntryV::Int(n)) => 0 <= n <= 12,
            (ZiplistForm::Int(size), CompactEntryV::Int(n)) => (size == 1 || size == 2 || size == 3
                || size == 4 || size == 8) && -half_range(size) <= n < half_range(size),
            (ZiplistForm::Str6, CompactEntryV::Str(s)) => s.len() < 64,
            (ZiplistForm::Str14, CompactEntryV::Str(s)) => s.len() < 0x4000,
            (ZiplistForm::Str32, CompactEntryV::Str(s)) => s.len() <= u32::MAX - 5,
            _ => false,
        }
    }

    /// The encoding and data of an entry in the form.
    pub open spec fn written(self, e: CompactEntryV) -> Seq<u8> {
        match (self, e) {
            (ZiplistForm::Int4, CompactEntryV::Int(n)) => seq![(0b1111_0001 + n) as u8],
            (ZiplistForm::Int(size), CompactEntryV::Int(n)) => seq![
                if size == 1 {
                    0xfeu8
                } else if size == 2 {
                    0xc0
                } else if size == 3 {
                    0xf0
                } else if size == 4 {
                    0xd0
                } else {
                    0xe0
                },
            ] + signed_bytes(n as int, size),
            (ZiplistForm::Str6, CompactEntryV::Str(s)) => seq![s.len() as u8] + s,
            (ZiplistForm::Str14, CompactEntryV::Str(s)) => seq![
                (0b0100_0000 + s.len() / 256) as u8,
                (s.len() % 256) as u8,
            ] + s,
            (ZiplistForm::Str32, CompactEntryV::Str(s)) => seq![0x80u8] + be_text(s.len(), 4) + s,
            _ => Seq::empty(),
        }
    }
}

/// The length of the entry before, in one byte or in five.
pub open spec fn prevlen_text(n: nat, long: bool) -> Seq<u8> {
    if long {
        seq![254u8] + le_bytes(n, 4)
    } else {
        seq![n as u8]
    }
}

proof fn lemma_be_text4(n: nat, raw: Seq<u8>)
    requires
        n < 0x1_0000_0000,
        raw.len() >= 5,
        raw.subrange(1, 5) == be_text(n, 4),
    ensures
        crate::bytes::be32(raw, 1) == n,
{
    reveal_with_fuel(be_text, 5);
    let b = be_text(n, 4);
    assert(b.len() == 4);
    let part = raw.subrange(1, 5);
    assert(part[0] == raw[1] && part[1] == raw[2] && part[2] == raw[3] && part[3] == raw[4]);
    assert(b[3] == (n % 0x100) as u8);
    assert(b[2] == (n / 0x100 % 0x100) as u8);
    assert(b[1] == (n / 0x100 / 0x100 % 0x100) as u8);
    assert(b[0] == (n / 0x100 / 0x100 / 0x100 % 0x100) as u8);
}

proof fn lemma_ziplist_form(form: ZiplistForm, e: CompactEntryV)
    requires
        form.fits(e),
    ensures
        form.written(e).len() > 0,
        ziplist::encoded_entry(form.written(e)) == Ok::<(CompactEntryV, int), RdbErrorV>(
            (e, form.written(e).len() as int),
        ),
{
    let raw = form.written(e);
    match (form, e) {
        (ZiplistForm::Int4, CompactEntryV::Int(n)) => {},
        (ZiplistForm::Int(size), CompactEntryV::Int(n)) => {
            let u = unsigned(n as int, half_range(size));
            lemma_le_bytes(u, size);
            assert(raw.skip(1) == signed_bytes(n as int, size));
            if size == 1 {
                reveal_with_fuel(le_bytes, 2);
                assert(raw[1] == raw.skip(1)[0]);
                assert(signed_bytes(n as int, 1)[0] == (u % 0x100) as u8);
            } else {
                lemma_signed_bytes(n as int, size, raw, 1);
            }
        },
        (ZiplistForm::Str6, CompactEntryV::Str(s)) => {
            assert(raw.subrange(1, 1 + s.len() as int) == s);
        },
        (ZiplistForm::Str14, CompactEntryV::Str(s)) => {
            assert(s.len() / 256 < 64);
            assert(s.len() == s.len() / 256 * 256 + s.len() % 256);
            assert(raw.subrange(2, 2 + s.len() as int) == s);
        },
        (ZiplistForm::Str32, CompactEntryV::Str(s)) => {
            crate::numerals::law_big_endian(s.len(), 4, 0);
            assert(raw.subrange(1, 5) == be_text(s.len(), 4));
            lemma_be_text4(s.len(), raw);
            assert(raw.subrange(5, 5 + s.len() as int) == s);
        },
        _ => {},
    }
}

/// An entry of a ziplist is read back in whatever form it was written, whatever length its
/// first field states for the entry before.
pub proof fn law_ziplist_entry_reads_back(
    form: ZiplistForm,
    e: CompactEntryV,
    before: nat,
    long: bool,
)
    requires
        form.fits(e),
        before <= u32::MAX,
        !long ==> before < 254,
    ensures
        ziplist::encodes(prevlen_text(before, long) + form.written(e), e),
{
    reveal(ziplist::encodes);
    let first = prevlen_text(before, long);
    let rest = form.written(e);
    let raw = first + rest;
    lemma_ziplist_form(form, e);
    lemma_le_bytes(before, 4);
    assert(raw.skip(first.len() as int) == rest);
    assert(raw[0] == first[0]);
}

} // verus!
