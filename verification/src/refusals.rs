//! What is read is what was written: a reading that succeeds has found one of the forms that
//! are written for its result, and anything else is refused.

use crate::bytes::{be32, be64, le16, le32, le64, le_bytes, twos, unsigned};
use crate::compact::{le24, CompactEntryV};
use crate::compact_text::{half_range, signed_bytes, ListpackForm, ZiplistForm};
use crate::intset;
use crate::listpack;
use crate::lzf;
use crate::text;
use crate::types::RdbErrorV;
use crate::wire;
use crate::wire::{be_text, lemma_be32, lemma_be64, lemma_be_text, stands_at, SourceV};
use crate::ziplist;
use vstd::prelude::*;

verus! {

// ---- Bytes and numbers ----

/// The number whose low bytes come first.
spec fn le_value(b: Seq<u8>) -> nat
    decreases b.len(),
{
    if b.len() == 0 {
        0
    } else {
        b[0] as nat + 0x100 * le_value(b.drop_first())
    }
}

/// The number whose low bytes come last.
spec fn be_value(b: Seq<u8>) -> nat
    decreases b.len(),
{
    if b.len() == 0 {
        0
    } else {
        be_value(b.drop_last()) * 0x100 + b.last() as nat
    }
}

proof fn lemma_le_value(b: Seq<u8>)
    ensures
        le_bytes(le_value(b), b.len()) == b,
    decreases b.len(),
{
    if b.len() > 0 {
        lemma_le_value(b.drop_first());
        let n = le_value(b);
        assert(n % 0x100 == b[0] as nat);
        assert(n / 0x100 == le_value(b.drop_first()));
        assert(b == seq![b[0]] + b.drop_first());
    }
}

proof fn lemma_be_value(b: Seq<u8>)
    ensures
        be_text(be_value(b), b.len()) == b,
    decreases b.len(),
{
    if b.len() > 0 {
        lemma_be_value(b.drop_last());
        let n = be_value(b);
        assert(n % 0x100 == b.last() as nat);
        assert(n / 0x100 == be_value(b.drop_last()));
        assert(b == b.drop_last().push(b.last()));
    }
}

proof fn lemma_le_by_size(s: Seq<u8>, p: int, size: nat)
    requires
        0 <= p,
        p + size <= s.len(),
        size == 1 || size == 2 || size == 3 || size == 4 || size == 8,
    ensures
        size == 1 ==> le_value(s.subrange(p, p + size)) == s[p],
        size == 2 ==> le_value(s.subrange(p, p + size)) == le16(s, p),
        size == 3 ==> le_value(s.subrange(p, p + size)) == le24(s, p),
        size == 4 ==> le_value(s.subrange(p, p + size)) == le32(s, p),
        size == 8 ==> le_value(s.subrange(p, p + size)) == le64(s, p),
{
    let b = s.subrange(p, p + size);
    reveal_with_fuel(le_value, 9);
    assert(forall|k: int| 0 <= k < size ==> #[trigger] b[k] == s[p + k]);
    let b1 = b.drop_first();
    let b2 = b1.drop_first();
    let b3 = b2.drop_first();
    let b4 = b3.drop_first();
    let b5 = b4.drop_first();
    let b6 = b5.drop_first();
    let b7 = b6.drop_first();
    if size >= 2 {
        assert(b1[0] == b[1]);
    }
    if size >= 3 {
        assert(b2[0] == b[2]);
    }
    if size >= 4 {
        assert(b3[0] == b[3]);
    }
    if size == 8 {
        assert(b4[0] == b[4] && b5[0] == b[5] && b6[0] == b[6] && b7[0] == b[7]);
    }
}

proof fn lemma_be_by_size(s: Seq<u8>, p: int, size: nat)
    requires
        0 <= p,
        p + size <= s.len(),
        size == 4 || size == 8,
    ensures
        size == 4 ==> be_value(s.subrange(p, p + size)) == be32(s, p),
        size == 8 ==> be_value(s.subrange(p, p + size)) == be64(s, p),
{
    let b = s.subrange(p, p + size);
    reveal_with_fuel(be_value, 9);
    assert(forall|k: int| 0 <= k < size ==> #[trigger] b[k] == s[p + k]);
    let n = size as int;
    let b1 = b.drop_last();
    let b2 = b1.drop_last();
    let b3 = b2.drop_last();
    let b4 = b3.drop_last();
    let b5 = b4.drop_last();
    let b6 = b5.drop_last();
    let b7 = b6.drop_last();
    assert(b.last() == b[n - 1] && b1.last() == b[n - 2] && b2.last() == b[n - 3] && b3.last()
        == b[n - 4]);
    if size == 8 {
        assert(b4.last() == b[3] && b5.last() == b[2] && b6.last() == b[1] && b7.last() == b[0]);
    }
}

proof fn lemma_signed(s: Seq<u8>, p: int, size: nat)
    requires
        0 <= p,
        p + size <= s.len(),
        size == 1 || size == 2 || size == 3 || size == 4 || size == 8,
    ensures
        ({
            let v = twos(le_value(s.subrange(p, p + size)) as int, half_range(size));
            &&& -half_range(size) <= v < half_range(size)
            &&& signed_bytes(v, size) == s.subrange(p, p + size)
        }),
{
    let b = s.subrange(p, p + size);
    lemma_le_by_size(s, p, size);
    lemma_le_value(b);
    let u = le_value(b) as int;
    let v = twos(u, half_range(size));
    assert(u < 2 * half_range(size));
    assert(unsigned(v, half_range(size)) == u);
}

// ---- Lengths and strings ----

/// A form of a length field.
pub enum LengthForm {
    Bits6,
    Bits14,
    Bits32,
    Bits64,
}

impl LengthForm {
    /// The largest length that the form can hold.
    pub open spec fn largest(self) -> u64 {
        match self {
            LengthForm::Bits6 => 0x3f,
            LengthForm::Bits14 => 0x3fff,
            LengthForm::Bits32 => 0xffff_ffff,
            LengthForm::Bits64 => u64::MAX,
        }
    }

    /// A length in the form.
    pub open spec fn written(self, n: u64) -> Seq<u8> {
        match self {
            LengthForm::Bits6 => seq![n as u8],
            LengthForm::Bits14 => seq![(0b0100_0000 + n / 0x100) as u8, (n % 0x100) as u8],
            LengthForm::Bits32 => seq![0x80u8] + be_text(n as nat, 4),
            LengthForm::Bits64 => seq![0x81u8] + be_text(n as nat, 8),
        }
    }
}

/// A length is read back in whatever form it was written, also in one that is longer than it
/// needs to be.
pub proof fn law_length_forms_read_back(s: SourceV, p: int, form: LengthForm, n: u64)
    requires
        n <= form.largest(),
        stands_at(s, p, form.written(n)),
    ensures
        wire::plain_length(s, p) == Ok::<(u64, int), RdbErrorV>((n, p + form.written(n).len())),
{
    let b = form.written(n);
    let here = s.bytes.subrange(p, p + b.len());
    assert(forall|i: int| 0 <= i < b.len() ==> here[i] == s.bytes[p + i]);
    match form {
        LengthForm::Bits6 => {
            assert(here[0] == b[0]);
        },
        LengthForm::Bits14 => {
            assert(here[0] == b[0] && here[1] == b[1]);
        },
        LengthForm::Bits32 => {
            let t = be_text(n as nat, 4);
            lemma_be_text(n as nat, 4);
            assert(here[0] == b[0]);
            assert(s.bytes.subrange(p + 1, p + 5) == t) by {
                assert forall|i: int| 0 <= i < 4 implies s.bytes[p + 1 + i] == t[i] by {
                    assert(here[1 + i] == b[1 + i]);
                }
            }
            assert(t.subrange(0, 4) == t);
            lemma_be32(t, 0, n as nat);
        },
        LengthForm::Bits64 => {
            let t = be_text(n as nat, 8);
            lemma_be_text(n as nat, 8);
            assert(here[0] == b[0]);
            assert(s.bytes.subrange(p + 1, p + 9) == t) by {
                assert forall|i: int| 0 <= i < 8 implies s.bytes[p + 1 + i] == t[i] by {
                    assert(here[1 + i] == b[1 + i]);
                }
            }
            lemma_be64(t, n as nat);
        },
    }
}

/// A length that is read was written in one of the forms.
pub proof fn law_length_reads_nothing_else(s: SourceV, p: int) -> (form: LengthForm)
    requires
        wire::plain_length(s, p) is Ok,
    ensures
        ({
            let (n, q) = wire::plain_length(s, p)->Ok_0;
            &&& n <= form.largest()
            &&& stands_at(s, p, form.written(n))
            &&& q == p + form.written(n).len()
        }),
{
    let (n, q) = wire::plain_length(s, p)->Ok_0;
    let first = s.bytes[p];
    if first < 0x40 {
        assert(s.bytes.subrange(p, p + 1) == seq![n as u8]);
        LengthForm::Bits6
    } else if first < 0x80 {
        let w = LengthForm::Bits14.written(n);
        assert(w[0] == first && w[1] == s.bytes[p + 1]);
        assert(s.bytes.subrange(p, p + 2) == w);
        LengthForm::Bits14
    } else if first == 0x80 {
        let b = s.bytes.subrange(p + 1, p + 5);
        assert(b.subrange(0, 4) == b);
        lemma_be_by_size(b, 0, 4);
        lemma_be_value(b);
        assert(s.bytes.subrange(p, p + 5) == seq![0x80u8] + b);
        LengthForm::Bits32
    } else {
        let b = s.bytes.subrange(p + 1, p + 9);
        assert(b.subrange(0, 8) == b);
        lemma_be_by_size(b, 0, 8);
        lemma_be_value(b);
        assert(s.bytes.subrange(p, p + 9) == seq![0x81u8] + b);
        LengthForm::Bits64
    }
}

/// Lengths over 512 MiB are refused wherever something of that size would be read, and no
/// others.
pub proof fn law_size_limit(s: SourceV, p: int, what: Seq<char>)
    requires
        wire::plain_length(s, p) is Ok,
    ensures
        ({
            let (n, q) = wire::plain_length(s, p)->Ok_0;
            &&& n <= 512 * 1024 * 1024 ==> wire::size(s, p, what) == Ok::<(nat, int), RdbErrorV>(
                (n as nat, q),
            )
            &&& n > 512 * 1024 * 1024 ==> wire::size(s, p, what) is Err && wire::string(
                s,
                p,
            ) is Err
        }),
{
}

/// A string that is read was written as its plain bytes behind their number, as a number of
/// one, two or four bytes that stands for its digits, or in compressed form.
pub proof fn law_string_reads_nothing_else(s: SourceV, p: int)
    requires
        wire::string(s, p) is Ok,
    ensures
        ({
            let (v, q) = wire::string(s, p)->Ok_0;
            let first = s.bytes[p];
            &&& first <= 0b1100_0011
            &&& first < 0b1100_0000 ==> wire::plain_length(s, p) is Ok && ({
                let (n, p1) = wire::plain_length(s, p)->Ok_0;
                n == v.len() && stands_at(s, p1, v) && q == p1 + n
            })
            &&& first == 0b1100_0000 ==> q == p + 2 && exists|n: int|
                -0x80 <= n < 0x80 && v == text::decimal_int(n) && #[trigger] signed_bytes(n, 1)
                    == s.bytes.subrange(p + 1, q)
            &&& first == 0b1100_0001 ==> q == p + 3 && exists|n: int|
                -0x8000 <= n < 0x8000 && v == text::decimal_int(n) && #[trigger] signed_bytes(n, 2)
                    == s.bytes.subrange(p + 1, q)
            &&& first == 0b1100_0010 ==> q == p + 5 && exists|n: int|
                -0x8000_0000 <= n < 0x8000_0000 && v == text::decimal_int(n)
                    && #[trigger] signed_bytes(n, 4) == s.bytes.subrange(p + 1, q)
            &&& first == 0b1100_0011 ==> exists|c: Seq<u8>, p1: int| #[trigger]
                stands_at(s, p1, c) && q == p1 + c.len() && v.len() <= 512 * 1024 * 1024
                    && lzf::decompressed(c, v.len() as int) == Ok::<Seq<u8>, RdbErrorV>(v)
        }),
{
    let (v, q) = wire::string(s, p)->Ok_0;
    let first = s.bytes[p];
    if first == 0b1100_0000 {
        lemma_le_by_size(s.bytes, p + 1, 1);
        lemma_signed(s.bytes, p + 1, 1);
    } else if first == 0b1100_0001 {
        let b = s.bytes.subrange(p + 1, p + 3);
        lemma_le_by_size(s.bytes, p + 1, 2);
        lemma_signed(s.bytes, p + 1, 2);
        assert(le16(b, 0) == le16(s.bytes, p + 1));
    } else if first == 0b1100_0010 {
        let b = s.bytes.subrange(p + 1, p + 5);
        lemma_le_by_size(s.bytes, p + 1, 4);
        lemma_signed(s.bytes, p + 1, 4);
        assert(le32(b, 0) == le32(s.bytes, p + 1));
    } else if first == 0b1100_0011 {
        let (packed, a) = wire::size(s, p + 1, "LZF compressed length"@)->Ok_0;
        let (unpacked, p1) = wire::size(s, a, "LZF uncompressed length"@)->Ok_0;
        let c = s.bytes.subrange(p1, p1 + packed);
        assert(wire::take(s, p1, packed as int) is Ok);
        let tokens = lzf::law_lzf_reads_nothing_else(c, unpacked as int);
        assert(stands_at(s, p1, c));
    }
}

// ---- Listpacks ----

/// An entry of a listpack that is read was written in one of the forms.
pub proof fn law_listpack_entry_reads_nothing_else(buf: Seq<u8>) -> (form: ListpackForm)
    requires
        listpack::first_entry(buf) is Ok,
    ensures
        ({
            let (e, n) = listpack::first_entry(buf)->Ok_0;
            &&& 0 < n <= buf.len()
            &&& buf.take(n) == form.written(e)
            &&& form.fits(e) || (form is Str32 && e is Str)
        }),
{
    let (e, n) = listpack::first_entry(buf)->Ok_0;
    let b0 = buf[0];
    if b0 < 0x80 {
        assert(buf.take(1) == seq![b0]);
        ListpackForm::Int7
    } else if b0 < 0xc0 {
        assert(buf.take(n) == seq![b0] + e->Str_0);
        ListpackForm::Str6
    } else if b0 < 0xe0 {
        let w = ListpackForm::Int13.written(e);
        assert(w[0] == b0 && w[1] == buf[1]);
        assert(buf.take(2) == w);
        ListpackForm::Int13
    } else if b0 < 0xf0 {
        let w = ListpackForm::Str12.written(e);
        assert(w[0] == b0 && w[1] == buf[1]);
        assert(buf.take(n) == w);
        ListpackForm::Str12
    } else if b0 == 0xf0 {
        lemma_le_by_size(buf, 1, 4);
        lemma_le_value(buf.subrange(1, 5));
        assert(buf.take(n) == seq![0xf0u8] + buf.subrange(1, 5) + e->Str_0);
        ListpackForm::Str32
    } else {
        let size: nat = if b0 == 0xf1 {
            2
        } else if b0 == 0xf2 {
            3
        } else if b0 == 0xf3 {
            4
        } else {
            8
        };
        lemma_le_by_size(buf, 1, size);
        lemma_signed(buf, 1, size);
        assert(buf.take(n) == seq![b0] + buf.subrange(1, n));
        ListpackForm::Int(size)
    }
}

/// Whether entries stand one after the other in a listpack from `ps[0]` on: each as it is
/// read, behind it the number of its bytes, and the end byte behind the last, at the end.
pub open spec fn listpack_laid_out(
    data: Seq<u8>,
    ps: Seq<int>,
    es: Seq<CompactEntryV>,
) -> bool {
    &&& ps.len() == es.len() + 1
    &&& ps.last() == data.len() - 1
    &&& data.last() == 0xff
    &&& forall|i: int|
        0 <= i < es.len() ==> 0 <= #[trigger] ps[i] < data.len() && data[ps[i]] != 0xff && ({
            let first = listpack::first_entry(data.skip(ps[i]));
            &&& first is Ok
            &&& ({
                let (e, n) = first->Ok_0;
                let back = data.subrange(ps[i] + n, ps[i + 1]);
                &&& e == es[i]
                &&& ps[i] + n < ps[i + 1] <= data.len()
                &&& back.len() == listpack::backlen_bytes(n)
                &&& back[0] < 0x80
                &&& listpack::base128(back) == n
            })
        })
}

proof fn lemma_listpack_layout(data: Seq<u8>, pos: int) -> (ps: Seq<int>)
    requires
        listpack::entries_from(data, pos) is Ok,
    ensures
        listpack_laid_out(data, ps, listpack::entries_from(data, pos)->Ok_0),
        ps[0] == pos,
    decreases data.len() - pos,
{
    if data[pos] == 0xff {
        seq![pos]
    } else {
        let (entry, n) = listpack::first_entry(data.skip(pos))->Ok_0;
        let next = pos + n + listpack::backlen_bytes(n);
        let form = law_listpack_entry_reads_nothing_else(data.skip(pos));
        let rest = lemma_listpack_layout(data, next);
        let ps = seq![pos] + rest;
        let es = listpack::entries_from(data, pos)->Ok_0;
        let later = listpack::entries_from(data, next)->Ok_0;
        assert(es == seq![entry] + later);
        assert(ps[1] == next);
        assert(data.subrange(pos + n, next).len() == listpack::backlen_bytes(n));
        assert forall|i: int| 0 <= i < es.len() implies 0 <= #[trigger] ps[i] < data.len() && data[
        ps[i]] != 0xff && ({
            let first = listpack::first_entry(data.skip(ps[i]));
            &&& first is Ok
            &&& ({
                let (e, n) = first->Ok_0;
                let back = data.subrange(ps[i] + n, ps[i + 1]);
                &&& e == es[i]
                &&& ps[i] + n < ps[i + 1] <= data.len()
                &&& back.len() == listpack::backlen_bytes(n)
                &&& back[0] < 0x80
                &&& listpack::base128(back) == n
            })
        }) by {
            if i > 0 {
                assert(ps[i] == rest[i - 1] && ps[i + 1] == rest[i] && es[i] == later[i - 1]);
            }
        }
        assert(ps.last() == rest.last());
        ps
    }
}

/// A listpack that is read states its own size, and its entries stand one after the other from
/// the seventh byte to the last, each with the number of its bytes behind it.
pub proof fn law_listpack_reads_nothing_else(data: Seq<u8>) -> (ps: Seq<int>)
    requires
        listpack::entries(data) is Ok,
    ensures
        data.len() >= 7,
        le_bytes(data.len(), 4) == data.take(4),
        ps[0] == 6,
        listpack_laid_out(data, ps, listpack::entries(data)->Ok_0),
{
    lemma_le_by_size(data, 0, 4);
    lemma_le_value(data.subrange(0, 4));
    assert(data.subrange(0, 4) == data.take(4));
    lemma_listpack_layout(data, 6)
}

// ---- Ziplists ----

/// An entry of a ziplist that is read was written in one of the forms, behind a field of one
/// or five bytes for the length of the entry before.
pub proof fn law_ziplist_entry_reads_nothing_else(buf: Seq<u8>) -> (r: (ZiplistForm, int))
    requires
        ziplist::first_entry(buf) is Ok,
    ensures
        ({
            let (e, n) = ziplist::first_entry(buf)->Ok_0;
            let (form, k) = r;
            &&& k == if buf[0] < 254 {
                1int
            } else {
                5
            }
            &&& buf[0] != 0xff
            &&& k < n <= buf.len()
            &&& buf.subrange(k, n) == form.written(e)
            &&& form.fits(e) || (form is Str32 && e is Str)
        }),
{
    let (size, _) = ziplist::prevlen(buf)->Ok_0;
    let rest = buf.skip(size);
    let form = lemma_ziplist_encoded(rest);
    let (e, n) = ziplist::encoded_entry(rest)->Ok_0;
    assert(buf.subrange(size, size + n) == rest.take(n));
    (form, size)
}

proof fn lemma_ziplist_encoded(rest: Seq<u8>) -> (form: ZiplistForm)
    requires
        rest.len() > 0,
        ziplist::encoded_entry(rest) is Ok,
    ensures
        ({
            let (e, n) = ziplist::encoded_entry(rest)->Ok_0;
            &&& 0 < n <= rest.len()
            &&& rest.take(n) == form.written(e)
            &&& form.fits(e) || (form is Str32 && e is Str)
        }),
{
    let (e, n) = ziplist::encoded_entry(rest)->Ok_0;
    let b0 = rest[0];
    if b0 < 0x40 {
        assert(rest.take(n) == seq![b0] + e->Str_0);
        ZiplistForm::Str6
    } else if b0 < 0x80 {
        let w = ZiplistForm::Str14.written(e);
        assert(w[0] == b0 && w[1] == rest[1]);
        assert(rest.take(n) == w);
        ZiplistForm::Str14
    } else if b0 < 0xc0 {
        lemma_be_by_size(rest, 1, 4);
        lemma_be_value(rest.subrange(1, 5));
        assert(rest.take(n) == seq![0x80u8] + rest.subrange(1, 5) + e->Str_0);
        ZiplistForm::Str32
    } else if 0xf1 <= b0 <= 0xfd {
        assert(rest.take(1) == seq![b0]);
        ZiplistForm::Int4
    } else {
        let size: nat = if b0 == 0xfe {
            1
        } else if b0 == 0xc0 {
            2
        } else if b0 == 0xf0 {
            3
        } else if b0 == 0xd0 {
            4
        } else {
            8
        };
        lemma_le_by_size(rest, 1, size);
        lemma_signed(rest, 1, size);
        assert(rest.take(n) == seq![b0] + rest.subrange(1, n));
        ZiplistForm::Int(size)
    }
}

/// Whether entries stand one after the other in a ziplist, each as it is read, and the end
/// byte behind the last.
pub open spec fn ziplist_laid_out(data: Seq<u8>, ps: Seq<int>, es: Seq<CompactEntryV>) -> bool {
    &&& ps.len() == es.len() + 1
    &&& 0 <= ps.last() < data.len()
    &&& data[ps.last()] == 0xff
    &&& forall|i: int|
        0 <= i < es.len() ==> 0 <= #[trigger] ps[i] < data.len() && data[ps[i]] != 0xff
            && ziplist::first_entry(data.skip(ps[i])) == Ok::<(CompactEntryV, int), RdbErrorV>(
            (es[i], ps[i + 1] - ps[i]),
        )
}

proof fn lemma_ziplist_layout(data: Seq<u8>, pos: int) -> (ps: Seq<int>)
    requires
        ziplist::entries_from(data, pos) is Ok,
    ensures
        ziplist_laid_out(data, ps, ziplist::entries_from(data, pos)->Ok_0),
        ps[0] == pos,
    decreases data.len() - pos,
{
    if data[pos] == 0xff {
        seq![pos]
    } else {
        let (entry, n) = ziplist::first_entry(data.skip(pos))->Ok_0;
        let form = law_ziplist_entry_reads_nothing_else(data.skip(pos));
        let rest = lemma_ziplist_layout(data, pos + n);
        let ps = seq![pos] + rest;
        let es = ziplist::entries_from(data, pos)->Ok_0;
        let later = ziplist::entries_from(data, pos + n)->Ok_0;
        assert(es == seq![entry] + later);
        assert forall|i: int| 0 <= i < es.len() implies 0 <= #[trigger] ps[i] < data.len() && data[
        ps[i]] != 0xff && ziplist::first_entry(data.skip(ps[i])) == Ok::<
            (CompactEntryV, int),
            RdbErrorV,
        >((es[i], ps[i + 1] - ps[i])) by {
            if i > 0 {
                assert(ps[i] == rest[i - 1] && ps[i + 1] == rest[i] && es[i] == later[i - 1]);
            }
        }
        assert(ps.last() == rest.last());
        ps
    }
}

/// A ziplist that is read states its own size, and its entries stand one after the other from
/// the eleventh byte up to an end byte.
pub proof fn law_ziplist_reads_nothing_else(data: Seq<u8>) -> (ps: Seq<int>)
    requires
        ziplist::entries(data) is Ok,
    ensures
        data.len() >= 11,
        le_bytes(data.len(), 4) == data.take(4),
        ps[0] == 10,
        ziplist_laid_out(data, ps, ziplist::entries(data)->Ok_0),
{
    lemma_le_by_size(data, 0, 4);
    lemma_le_value(data.subrange(0, 4));
    assert(data.subrange(0, 4) == data.take(4));
    lemma_ziplist_layout(data, 10)
}

// ---- Intsets ----

/// An intset that is read states the width of its numbers and how many they are, and holds
/// them in a row and nothing more. What is read are those numbers in decimal.
pub proof fn law_intset_reads_nothing_else(data: Seq<u8>) -> (r: (Seq<int>, nat))
    requires
        intset::members(data) is Ok,
    ensures
        ({
            let (values, width) = r;
            let members = intset::members(data)->Ok_0;
            &&& width == 2 || width == 4 || width == 8
            &&& le_bytes(width, 4) == data.take(4)
            &&& le_bytes(values.len(), 4) == data.subrange(4, 8)
            &&& values.len() <= 10_000_000
            &&& data.len() == 8 + values.len() * width
            &&& members.len() == values.len()
            &&& forall|i: int|
                0 <= i < values.len() ==> -half_range(width) <= #[trigger] values[i] < half_range(
                    width,
                ) && members[i] == text::decimal_int(values[i]) && signed_bytes(values[i], width)
                    == data.subrange(8 + i * width, 8 + i * width + width)
        }),
{
    let width = le32(data, 0) as nat;
    let count = le32(data, 4) as nat;
    let values = Seq::new(count, |i: int| intset::element(data, 8 + i * width, width as int));
    lemma_le_by_size(data, 0, 4);
    lemma_le_by_size(data, 4, 4);
    lemma_le_value(data.subrange(0, 4));
    lemma_le_value(data.subrange(4, 8));
    assert(data.subrange(0, 4) == data.take(4));
    let members = intset::members(data)->Ok_0;
    assert forall|i: int| 0 <= i < values.len() implies -half_range(width) <= #[trigger] values[i]
        < half_range(width) && members[i] == text::decimal_int(values[i]) && signed_bytes(
        values[i],
        width,
    ) == data.subrange(8 + i * width, 8 + i * width + width) by {
        assert(i * width + width <= count * width) by (nonlinear_arith)
            requires
                0 <= i < count,
        ;
        assert(i * width >= 0) by (nonlinear_arith)
            requires
                0 <= i,
        ;
        lemma_le_by_size(data, 8 + i * width, width);
        lemma_signed(data, 8 + i * width, width);
    }
    (values, width)
}

} // verus!
