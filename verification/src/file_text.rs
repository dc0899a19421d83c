//! What stands around the keys of a file: the header, the AUX fields, expiries in seconds and
//! the checksum, and that they are read back as what was written.

use crate::bytes::{law_le_reads_back, le_bytes, lemma_le_bytes, unsigned};
use crate::crc64;
use crate::reader;
use crate::reader::{directive, header_at, preamble, scan, ReaderV, StepV};
use crate::readback::{
    lemma_byte_reads_back, lemma_scan_directive, lemma_stands_apart, lemma_u64_reads_back,
};
use crate::text;
use crate::types::{RdbErrorV, RdbHeader, RdbMagic};
use crate::utf8;
use crate::wire;
use crate::wire::{length_text, stands_at, string_text, SourceV, MAX_ALLOC_BYTES};
use vstd::prelude::*;

verus! {

// ---- Header ----

/// What a file starts with: six bytes, and a version of three digits.
pub open spec fn header_bytes(magic: RdbMagic, version: nat) -> Seq<u8> {
    let digits = seq![
        (48 + version / 100) as u8,
        (48 + version / 10 % 10) as u8,
        (48 + version % 10) as u8,
    ];
    match magic {
        RdbMagic::Redis => seq![0x52u8, 0x45, 0x44, 0x49, 0x53, 0x30] + digits,
        RdbMagic::Valkey => seq![0x56u8, 0x41, 0x4c, 0x4b, 0x45, 0x59] + digits,
    }
}

/// A file says which magic and version it has. The versions 1 to 11 of the one and 80 of the
/// other are read, and any other version is refused with its number.
pub proof fn law_header_reads_back(s: SourceV, p: int, magic: RdbMagic, version: nat)
    requires
        version < 1000,
        stands_at(s, p, header_bytes(magic, version)),
    ensures
        (magic is Redis && 1 <= version <= 11) || (magic is Valkey && version == 80)
            ==> header_at(s, p) == Ok::<(RdbHeader, int), RdbErrorV>(
            (RdbHeader { magic, version: version as u32 }, p + 9),
        ),
        !((magic is Redis && 1 <= version <= 11) || (magic is Valkey && version == 80))
            ==> header_at(s, p) == Err::<(RdbHeader, int), RdbErrorV>(
            RdbErrorV::UnsupportedVersion(version as u32),
        ),
{
    let b = header_bytes(magic, version);
    assert(s.bytes.subrange(p, p + 9) == b);
    assert(wire::take(s, p, 9) == Ok::<(Seq<u8>, int), RdbErrorV>((b, p + 9)));
    let redis = seq![0x52u8, 0x45, 0x44, 0x49, 0x53, 0x30];
    let valkey = seq![0x56u8, 0x41, 0x4c, 0x4b, 0x45, 0x59];
    assert(redis[0] != valkey[0]);
    match magic {
        RdbMagic::Redis => {
            assert(b.take(6) == redis);
        },
        RdbMagic::Valkey => {
            assert(b.take(6) == valkey);
        },
    }
    let tail = b.subrange(6, 9);
    let digits = text::ascii_text(tail);
    assert(tail[0] == 48 + version / 100 && tail[1] == 48 + version / 10 % 10 && tail[2] == 48
        + version % 10);
    assert(digits.len() == 3);
    assert(text::all_digits(digits));
    assert(digits[0] != '+');
    assert(text::digits_value(digits) == version) by {
        reveal_with_fuel(text::digits_value, 4);
        let two = digits.drop_last();
        let one = two.drop_last();
        assert(one.drop_last().len() == 0);
        assert(one.last() == digits[0] && two.last() == digits[1]);
    }
    assert(!exists|i: int| 0 <= i < tail.len() && #[trigger] tail[i] >= 128);
}

/// Anything else in the first six bytes is no file of this kind.
pub proof fn law_other_headers_are_refused(s: SourceV, p: int, b: Seq<u8>)
    requires
        b.len() == 9,
        stands_at(s, p, b),
        b.take(6) != seq![0x52u8, 0x45, 0x44, 0x49, 0x53, 0x30],
        b.take(6) != seq![0x56u8, 0x41, 0x4c, 0x4b, 0x45, 0x59],
    ensures
        header_at(s, p) == Err::<(RdbHeader, int), RdbErrorV>(RdbErrorV::InvalidMagic),
{
    assert(wire::take(s, p, 9) == Ok::<(Seq<u8>, int), RdbErrorV>((b, p + 9)));
}

// ---- AUX fields ----

/// What is written for an AUX field: its opcode, its key and its value.
pub open spec fn aux_text(key: Seq<char>, value: Seq<u8>) -> Seq<u8> {
    seq![0xfau8] + (string_text(vstd::utf8::encode_utf8(key)) + string_text(value))
}

/// What is written for AUX fields in a row.
pub open spec fn aux_texts(fields: Seq<(Seq<char>, Seq<u8>)>) -> Seq<u8>
    decreases fields.len(),
{
    if fields.len() == 0 {
        Seq::empty()
    } else {
        aux_text(fields[0].0, fields[0].1) + aux_texts(fields.drop_first())
    }
}

/// Whether an AUX field can be written: its strings are within the limit.
pub open spec fn aux_fits(field: (Seq<char>, Seq<u8>)) -> bool {
    vstd::utf8::encode_utf8(field.0).len() <= MAX_ALLOC_BYTES && field.1.len() <= MAX_ALLOC_BYTES
}

proof fn lemma_aux_reads_back(s: SourceV, p: int, key: Seq<char>, value: Seq<u8>)
    requires
        aux_fits((key, value)),
        stands_at(s, p, aux_text(key, value)),
    ensures
        p >= 0,
        wire::byte(s, p) == Ok::<(u8, int), RdbErrorV>((0xfau8, p + 1)),
        reader::aux_field(s, p + 1) == Ok::<((Seq<char>, Seq<char>), int), RdbErrorV>(
            ((key, utf8::lossy_text(value)), p + aux_text(key, value).len()),
        ),
{
    let k = vstd::utf8::encode_utf8(key);
    lemma_stands_apart(s, p, seq![0xfau8], string_text(k) + string_text(value));
    lemma_stands_apart(s, p + 1, string_text(k), string_text(value));
    lemma_byte_reads_back(s, p, 0xfa);
    wire::law_string_reads_back(s, p + 1, k);
    wire::law_string_reads_back(s, p + 1 + string_text(k).len(), value);
    vstd::utf8::encode_utf8_valid_utf8(key);
    vstd::utf8::encode_utf8_decode_utf8(key);
}

/// The fields with others put over them, one after the other.
spec fn with_fields(
    before: Map<Seq<char>, Seq<char>>,
    fields: Seq<(Seq<char>, Seq<u8>)>,
) -> Map<Seq<char>, Seq<char>>
    decreases fields.len(),
{
    if fields.len() == 0 {
        before
    } else {
        with_fields(
            before.insert(fields[0].0, utf8::lossy_text(fields[0].1)),
            fields.drop_first(),
        )
    }
}

#[verifier::spinoff_prover]
proof fn lemma_preamble_reads_back(
    s: SourceV,
    p: int,
    before: Map<Seq<char>, Seq<char>>,
    fields: Seq<(Seq<char>, Seq<u8>)>,
    next: u8,
)
    requires
        forall|i: int| 0 <= i < fields.len() ==> aux_fits(#[trigger] fields[i]),
        next != 0xfa,
        stands_at(s, p, aux_texts(fields) + seq![next]),
    ensures
        preamble(s, p, before) == Ok::<(Map<Seq<char>, Seq<char>>, int), RdbErrorV>(
            (with_fields(before, fields), p + aux_texts(fields).len()),
        ),
    decreases fields.len(),
{
    if fields.len() == 0 {
        assert(aux_texts(fields) + seq![next] == seq![next]);
        lemma_byte_reads_back(s, p, next);
    } else {
        let (key, value) = fields[0];
        let rest = fields.drop_first();
        let head = aux_text(key, value);
        let tail = aux_texts(rest) + seq![next];
        assert(aux_texts(fields) + seq![next] == head + tail);
        lemma_stands_apart(s, p, head, tail);
        assert(aux_fits(fields[0]));
        assert forall|i: int| 0 <= i < rest.len() implies aux_fits(#[trigger] rest[i]) by {
            assert(rest[i] == fields[i + 1]);
        }
        let with = before.insert(key, utf8::lossy_text(value));
        lemma_preamble_reads_back(s, p + head.len(), with, rest, next);
        lemma_preamble_step(s, p, before, key, value);
    }
}

#[verifier::spinoff_prover]
proof fn lemma_preamble_step(
    s: SourceV,
    p: int,
    before: Map<Seq<char>, Seq<char>>,
    key: Seq<char>,
    value: Seq<u8>,
)
    requires
        aux_fits((key, value)),
        stands_at(s, p, aux_text(key, value)),
    ensures
        preamble(s, p, before) == preamble(
            s,
            p + aux_text(key, value).len(),
            before.insert(key, utf8::lossy_text(value)),
        ),
{
    lemma_aux_reads_back(s, p, key, value);
    reader::lemma_aux_moves_on(s, p + 1);
}

proof fn lemma_with_fields(
    before: Map<Seq<char>, Seq<char>>,
    fields: Seq<(Seq<char>, Seq<u8>)>,
    k: Seq<char>,
)
    ensures
        forall|i: int|
            0 <= i < fields.len() && fields[i].0 == k && (forall|j: int|
                i < j < fields.len() ==> (#[trigger] fields[j]).0 != k) ==> with_fields(
                before,
                fields,
            ).contains_pair(k, utf8::lossy_text((#[trigger] fields[i]).1)),
        (forall|i: int| 0 <= i < fields.len() ==> (#[trigger] fields[i]).0 != k) ==> (with_fields(
            before,
            fields,
        ).contains_key(k) == before.contains_key(k) && with_fields(before, fields)[k] == before[k]),
    decreases fields.len(),
{
    if fields.len() > 0 {
        let (key, value) = fields[0];
        let rest = fields.drop_first();
        let with = before.insert(key, utf8::lossy_text(value));
        lemma_with_fields(with, rest, k);
        assert(forall|j: int| 0 <= j < rest.len() ==> #[trigger] rest[j] == fields[j + 1]);
        assert forall|i: int|
            0 <= i < fields.len() && fields[i].0 == k && (forall|j: int|
                i < j < fields.len() ==> (#[trigger] fields[j]).0 != k) implies with_fields(
            before,
            fields,
        ).contains_pair(k, utf8::lossy_text((#[trigger] fields[i]).1)) by {
            if i > 0 {
                assert(rest[i - 1] == fields[i]);
            }
        }
        if forall|i: int| 0 <= i < fields.len() ==> (#[trigger] fields[i]).0 != k {
            assert(fields[0].0 != k);
        }
    }
}

/// The AUX fields that follow the header are all read, up to the first other opcode. Each key
/// has the value that was written last for it, and no other key is there.
pub proof fn law_aux_fields_read_back(
    s: SourceV,
    p: int,
    fields: Seq<(Seq<char>, Seq<u8>)>,
    next: u8,
) -> (after: Map<Seq<char>, Seq<char>>)
    requires
        forall|i: int| 0 <= i < fields.len() ==> aux_fits(#[trigger] fields[i]),
        next != 0xfa,
        stands_at(s, p, aux_texts(fields) + seq![next]),
    ensures
        preamble(s, p, Map::empty()) == Ok::<(Map<Seq<char>, Seq<char>>, int), RdbErrorV>(
            (after, p + aux_texts(fields).len()),
        ),
        forall|i: int|
            0 <= i < fields.len() && (forall|j: int|
                i < j < fields.len() ==> (#[trigger] fields[j]).0 != fields[i].0)
                ==> after.contains_pair(
                (#[trigger] fields[i]).0,
                utf8::lossy_text(fields[i].1),
            ),
        forall|k: Seq<char>| #[trigger]
            after.contains_key(k) ==> exists|i: int|
                0 <= i < fields.len() && (#[trigger] fields[i]).0 == k,
{
    lemma_preamble_reads_back(s, p, Map::empty(), fields, next);
    let after = with_fields(Map::empty(), fields);
    assert forall|i: int|
        0 <= i < fields.len() && (forall|j: int|
            i < j < fields.len() ==> (#[trigger] fields[j]).0 != fields[i].0) implies after.contains_pair(
        (#[trigger] fields[i]).0,
        utf8::lossy_text(fields[i].1),
    ) by {
        lemma_with_fields(Map::empty(), fields, fields[i].0);
    }
    assert forall|k: Seq<char>| #[trigger] after.contains_key(k) implies exists|i: int|
        0 <= i < fields.len() && (#[trigger] fields[i]).0 == k by {
        lemma_with_fields(Map::empty(), fields, k);
    }
    after
}

/// An AUX field between keys is kept as well, and changes nothing else.
pub proof fn law_aux_field_between_keys(r: ReaderV, key: Seq<char>, value: Seq<u8>)
    requires
        aux_fits((key, value)),
        stands_at(r.source, r.pos, aux_text(key, value)),
    ensures
        scan(r) == scan(
            ReaderV {
                aux: r.aux.insert(key, utf8::lossy_text(value)),
                pos: r.pos + aux_text(key, value).len(),
                ..r
            },
        ),
{
    lemma_aux_reads_back(r.source, r.pos, key, value);
    let r2 = ReaderV {
        aux: r.aux.insert(key, utf8::lossy_text(value)),
        pos: r.pos + aux_text(key, value).len(),
        ..r
    };
    reveal(directive);
    assert(directive(r.at(r.pos + 1), 0xfa) == Ok::<ReaderV, RdbErrorV>(r2));
    lemma_scan_directive(r, 0xfa, r2);
}

// ---- Directives ----

/// An expiry in seconds is the expiry of the next key in milliseconds: a thousand for each
/// second, also before 1970.
pub proof fn law_expiry_in_seconds(r: ReaderV, secs: i32)
    requires
        stands_at(
            r.source,
            r.pos,
            seq![0xfdu8] + le_bytes(unsigned(secs as int, 0x8000_0000) as nat, 4),
        ),
    ensures
        scan(r) == scan(ReaderV { expiry_ms: Some((secs * 1000) as i64), pos: r.pos + 5, ..r }),
        (secs * 1000) as i64 == secs * 1000,
{
    let n = unsigned(secs as int, 0x8000_0000) as nat;
    let b = le_bytes(n, 4);
    lemma_le_bytes(n, 4);
    lemma_stands_apart(r.source, r.pos, seq![0xfdu8], b);
    lemma_byte_reads_back(r.source, r.pos, 0xfd);
    let here = r.source.bytes.subrange(r.pos + 1, r.pos + 5);
    assert(here.subrange(0, 4) == b);
    law_le_reads_back(here, 0, n);
    assert(wire::i32_le(r.source, r.pos + 1) == Ok::<(int, int), RdbErrorV>(
        (secs as int, r.pos + 5),
    ));
    let r2 = ReaderV { expiry_ms: Some((secs * 1000) as i64), pos: r.pos + 5, ..r };
    reveal(directive);
    assert(directive(r.at(r.pos + 1), 0xfd) == Ok::<ReaderV, RdbErrorV>(r2));
    lemma_scan_directive(r, 0xfd, r2);
}

/// A database that is out of range is refused; the message gives its index.
pub proof fn law_database_index_limit(r: ReaderV, n: u64)
    requires
        n > u32::MAX,
        stands_at(r.source, r.pos, seq![0xfeu8] + length_text(n)),
    ensures
        scan(r).0 == StepV::Fail(
            RdbErrorV::CorruptData("db index "@ + text::dec(n as int) + " exceeds u32"@),
        ),
{
    lemma_stands_apart(r.source, r.pos, seq![0xfeu8], length_text(n));
    lemma_byte_reads_back(r.source, r.pos, 0xfe);
    wire::law_length_reads_back(r.source, r.pos + 1, n);
    reveal(directive);
    assert(directive(r.at(r.pos + 1), 0xfe) is Err);
}

// ---- Checksum ----

/// What is written at the end of a file: the last opcode and the checksum.
pub open spec fn ending(checksum: u64) -> Seq<u8> {
    seq![0xffu8] + le_bytes(checksum as nat, 8)
}

/// A file ends well with the checksum of all bytes before it, or with none. Up to version 4
/// there is no checksum, and what stands there does not matter.
pub proof fn law_checksum(r: ReaderV, checksum: u64)
    requires
        stands_at(r.source, r.pos, ending(checksum)),
    ensures
        ({
            let right = crc64::crc64(0, r.source.bytes.take(r.pos + 1));
            let (st, after) = scan(r);
            &&& st is End <==> checksum == right || checksum == 0 || r.header.version <= 4
            &&& st is Fail <==> checksum != right && checksum != 0 && r.header.version >= 5
            &&& st is Fail ==> st == StepV::Fail(
                RdbErrorV::CorruptData(
                    "CRC64 mismatch: computed 0x"@ + text::hex(right as nat, 16)
                        + ", stored 0x"@ + text::hex(checksum as nat, 16),
                ),
            )
            &&& !r.crc_checked ==> (after.crc_checked <==> checksum == right && checksum != 0
                && r.header.version >= 5)
        }),
{
    lemma_le_bytes(checksum as nat, 8);
    lemma_stands_apart(r.source, r.pos, seq![0xffu8], le_bytes(checksum as nat, 8));
    lemma_byte_reads_back(r.source, r.pos, 0xff);
    lemma_u64_reads_back(r.source, r.pos + 1, checksum);
}

/// A file that ends well with a checksum does not end well once a byte before the end has
/// been changed.
pub proof fn law_changed_byte_is_noticed(r: ReaderV, checksum: u64, i: int, x: u8)
    requires
        stands_at(r.source, r.pos, ending(checksum)),
        checksum != 0,
        r.header.version >= 5,
        scan(r).0 is End,
        0 <= i < r.pos,
        x != r.source.bytes[i],
    ensures
        scan(
            ReaderV {
                source: (SourceV { bytes: r.source.bytes.update(i, x), ..r.source }),
                ..r
            },
        ).0 is Fail,
{
    let source = SourceV { bytes: r.source.bytes.update(i, x), ..r.source };
    let changed = ReaderV { source, ..r };
    let n = ending(checksum).len();
    assert(source.bytes.subrange(r.pos, r.pos + n) == ending(checksum));
    law_checksum(r, checksum);
    law_checksum(changed, checksum);
    assert(source.bytes.take(r.pos + 1) == r.source.bytes.take(r.pos + 1).update(i, x));
    crc64::law_crc64_tells_bytes(0, r.source.bytes.take(r.pos + 1), i, x);
}

} // verus!
