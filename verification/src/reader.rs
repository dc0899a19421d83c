//! The RDB reader: yields the entries of a file one by one.

use crate::bytes;
use crate::crc64;
use crate::entries::{item_of, EntryItem, EntrySource};
use crate::opcodes;
use crate::opcodes::{
    RDB_OPCODE_AUX, RDB_OPCODE_EOF, RDB_OPCODE_EXPIRETIME, RDB_OPCODE_EXPIRETIME_MS,
    RDB_OPCODE_FREQ, RDB_OPCODE_FUNCTION2, RDB_OPCODE_FUNCTION_PRE_GA, RDB_OPCODE_IDLE,
    RDB_OPCODE_MODULE_AUX, RDB_OPCODE_RESIZEDB, RDB_OPCODE_SELECTDB, RDB_OPCODE_SLOT_IMPORT,
    RDB_OPCODE_SLOT_INFO,
};
use crate::locality::law_failures_are_known;
use crate::modules;
use crate::streams;
use crate::text;
use crate::text::{ascii_string, hex_string, join2, parse_unsigned, with_number};
use crate::types;
use crate::types::{
    corrupt, RdbEntry, RdbEntryV, RdbError, RdbErrorV, RdbHeader, RdbMagic, RdbMetadata, RdbValueV,
};
use crate::utf8;
use crate::values;
use crate::wire;
use crate::wire::{ByteSource, Cursor, Parsed, SourceV};
use vstd::prelude::*;

verus! {

/// Default for the largest number of elements that one entry of a plain collection holds.
pub const DEFAULT_MAX_KEY_ELEMENTS: usize = 50_000;

/// Largest version that the REDIS magic may come with.
pub const RDB_VERSION_MAX_REDIS_NATIVE: u32 = 11;

/// The version that the VALKEY magic comes with.
pub const RDB_VERSION_VALKEY: u32 = 80;

// ---- Header and preamble ----

/// The magic that the first six bytes spell.
pub open spec fn magic_of(b: Seq<u8>) -> Option<RdbMagic> {
    if b.take(6) == seq![82u8, 69, 68, 73, 83, 48] {
        Some(RdbMagic::Redis)
    } else if b.take(6) == seq![86u8, 65, 76, 75, 69, 89] {
        Some(RdbMagic::Valkey)
    } else {
        None
    }
}

/// The version that three ASCII characters spell.
pub open spec fn version_of(b: Seq<u8>) -> Option<nat> {
    if exists|i: int| 0 <= i < b.len() && #[trigger] b[i] >= 128 {
        None
    } else {
        text::unsigned_text(text::ascii_text(b), u32::MAX as nat)
    }
}

/// Whether a version is accepted for a magic: 1 to 11 for REDIS, 80 for VALKEY.
pub open spec fn version_accepted(magic: RdbMagic, version: nat) -> bool {
    match magic {
        RdbMagic::Redis => 1 <= version <= RDB_VERSION_MAX_REDIS_NATIVE,
        RdbMagic::Valkey => version == RDB_VERSION_VALKEY,
    }
}

/// The header at the start of a file: the six bytes `REDIS0` or `VALKEY`, and a version of
/// three characters.
pub open spec fn header_at(s: SourceV, p: int) -> Parsed<RdbHeader> {
    match wire::take(s, p, 9) {
        Err(e) => Err(e),
        Ok((b, q)) => match magic_of(b) {
            None => Err(RdbErrorV::InvalidMagic),
            Some(magic) => match version_of(b.subrange(6, 9)) {
                None => Err(RdbErrorV::InvalidMagic),
                Some(version) => if version_accepted(magic, version) {
                    Ok((RdbHeader { magic, version: version as u32 }, q))
                } else {
                    Err(RdbErrorV::UnsupportedVersion(version as u32))
                },
            },
        },
    }
}

/// Reads and checks the header.
pub fn read_header<R: ByteSource>(cursor: &mut Cursor<R>) -> (r: Result<RdbHeader, RdbError>)
    requires
        old(cursor).ready(),
    ensures
        final(cursor).ready(),
        final(cursor).source() == old(cursor).source(),
        wire::reading(r, |h: RdbHeader| h, final(cursor).pos()) == header_at(
            old(cursor).source(),
            old(cursor).pos(),
        ),
{
    let b = match cursor.read_exact_vec(9) {
        Ok(v) => v,
        Err(e) => {
            return Err(e);
        },
    };
    let magic = if b[0] == 82 && b[1] == 69 && b[2] == 68 && b[3] == 73 && b[4] == 83 && b[5]
        == 48 {
        assert(b@.take(6) == seq![82u8, 69, 68, 73, 83, 48]);
        RdbMagic::Redis
    } else if b[0] == 86 && b[1] == 65 && b[2] == 76 && b[3] == 75 && b[4] == 69 && b[5] == 89 {
        assert(b@.take(6) == seq![86u8, 65, 76, 75, 69, 89]);
        assert(b@.take(6)[0] == 86);
        RdbMagic::Valkey
    } else {
        proof {
            let six = b@.take(6);
            assert(six[0] == b@[0] && six[1] == b@[1] && six[2] == b@[2] && six[3] == b@[3]
                && six[4] == b@[4] && six[5] == b@[5]);
        }
        return Err(RdbError::InvalidMagic);
    };
    let tail = bytes::copy_range(b.as_slice(), 6, 9);
    assert(tail@ == b@.subrange(6, 9));
    if tail[0] >= 128 || tail[1] >= 128 || tail[2] >= 128 {
        return Err(RdbError::InvalidMagic);
    }
    let version = match parse_unsigned(ascii_string(&tail).as_str(), u32::MAX as u64) {
        Some(n) => n as u32,
        None => {
            return Err(RdbError::InvalidMagic);
        },
    };
    let accepted = match magic {
        RdbMagic::Redis => 1 <= version && version <= RDB_VERSION_MAX_REDIS_NATIVE,
        RdbMagic::Valkey => version == RDB_VERSION_VALKEY,
    };
    if accepted {
        Ok(RdbHeader { magic, version })
    } else {
        Err(RdbError::UnsupportedVersion(version))
    }
}

/// An AUX field: a key, which has to be UTF-8, and a value.
pub open spec fn aux_field(s: SourceV, p: int) -> Parsed<(Seq<char>, Seq<char>)> {
    match wire::string(s, p) {
        Err(e) => Err(e),
        Ok((k, q)) => match wire::string(s, q) {
            Err(e) => Err(e),
            Ok((v, q2)) => if vstd::utf8::valid_utf8(k) {
                Ok(((vstd::utf8::decode_utf8(k), utf8::lossy_text(v)), q2))
            } else {
                Err(RdbErrorV::CorruptData("AUX key is not valid UTF-8"@))
            },
        },
    }
}

fn read_aux<R: ByteSource>(cursor: &mut Cursor<R>) -> (r: Result<(String, String), RdbError>)
    requires
        old(cursor).ready(),
    ensures
        final(cursor).ready(),
        final(cursor).source() == old(cursor).source(),
        wire::reading(r, |kv: (String, String)| (kv.0@, kv.1@), final(cursor).pos()) == aux_field(
            old(cursor).source(),
            old(cursor).pos(),
        ),
{
    let key = match cursor.read_string() {
        Ok(v) => v,
        Err(e) => {
            return Err(e);
        },
    };
    let value = match cursor.read_string() {
        Ok(v) => v,
        Err(e) => {
            return Err(e);
        },
    };
    match utf8::string_from_utf8(key) {
        Some(k) => Ok((k, utf8::string_from_utf8_lossy(&value))),
        None => Err(corrupt("AUX key is not valid UTF-8")),
    }
}

/// The place of the first byte after the AUX fields at `p`, and what they add to `aux`.
pub open spec fn preamble(s: SourceV, p: int, aux: Map<Seq<char>, Seq<char>>) -> Parsed<
    Map<Seq<char>, Seq<char>>,
>
    decreases s.bytes.len() - p,
{
    match wire::byte(s, p) {
        Err(e) => Err(e),
        Ok((b, q)) => if b == RDB_OPCODE_AUX {
            match aux_field(s, q) {
                Err(e) => Err(e),
                Ok(((k, v), q2)) => {
                    proof {
                        lemma_aux_moves_on(s, q);
                    }
                    preamble(s, q2, aux.insert(k, v))
                },
            }
        } else {
            Ok((aux, p))
        },
    }
}

pub proof fn lemma_aux_moves_on(s: SourceV, p: int)
    ensures
        wire::moves_on(s, p, aux_field(s, p)),
{
    wire::lemma_string_moves_on(s, p);
    if let Ok((_, q)) = wire::string(s, p) {
        wire::lemma_string_moves_on(s, q);
    }
}

// ---- State ----

/// A large key of which the first elements have been yielded.
#[derive(Debug)]
struct ChunkedState {
    db: u32,
    key: Vec<u8>,
    type_code: u8,
    expiry_ms: Option<i64>,
    lru_idle_secs: Option<u64>,
    lfu_frequency: Option<u8>,
    total_count: usize,
    remaining: usize,
    element_offset: u64,
}

/// What the rest of a large key is read with: what its entries have in common, how many
/// elements it has, how many are left, and how many have been yielded.
#[verifier::ext_equal]
pub struct ChunkV {
    pub db: u32,
    pub key: Seq<u8>,
    pub type_code: u8,
    pub expiry_ms: Option<i64>,
    pub lru_idle_secs: Option<u64>,
    pub lfu_frequency: Option<u8>,
    pub total: u64,
    pub remaining: nat,
    pub offset: u64,
}

impl ChunkedState {
    spec fn shown(&self) -> ChunkV {
        ChunkV {
            db: self.db,
            key: self.key@,
            type_code: self.type_code,
            expiry_ms: self.expiry_ms,
            lru_idle_secs: self.lru_idle_secs,
            lfu_frequency: self.lfu_frequency,
            total: self.total_count as u64,
            remaining: self.remaining as nat,
            offset: self.element_offset,
        }
    }
}

/// The state of a reader.
#[verifier::ext_equal]
pub struct ReaderV {
    pub source: SourceV,
    pub pos: int,
    pub header: RdbHeader,
    pub aux: Map<Seq<char>, Seq<char>>,
    pub db: u32,
    pub expiry_ms: Option<i64>,
    pub lru_idle_secs: Option<u64>,
    pub lfu_frequency: Option<u8>,
    pub finished: bool,
    pub max: Option<nat>,
    pub chunked: Option<ChunkV>,
    pub crc_checked: bool,
}

/// What one step of a reader gives.
pub enum StepV {
    /// An entry.
    Entry(RdbEntryV),
    /// A key of a type that is not supported; it has been passed over.
    Unsupported(u8),
    /// The end of the file.
    End,
    /// An error, after which nothing more is read.
    Fail(RdbErrorV),
}

impl ReaderV {
    /// A reader that has come to its end. What it would have read next does not matter.
    pub open spec fn ended(self) -> ReaderV {
        ReaderV {
            pos: 0,
            db: 0,
            expiry_ms: None,
            lru_idle_secs: None,
            lfu_frequency: None,
            chunked: None,
            finished: true,
            ..self
        }
    }

    /// The reader at another place.
    pub open spec fn at(self, pos: int) -> ReaderV {
        ReaderV { pos, ..self }
    }

    /// The step and the state for an error.
    pub open spec fn fails(self, e: RdbErrorV) -> (StepV, ReaderV) {
        (StepV::Fail(e), self.ended())
    }

    /// The state with no expiry, idle time or frequency waiting for the next key.
    pub open spec fn cleared(self) -> ReaderV {
        ReaderV { expiry_ms: None, lru_idle_secs: None, lfu_frequency: None, ..self }
    }

    /// Whether no expiry, idle time or frequency waits for the next key.
    pub open spec fn nothing_waits(self) -> bool {
        self.expiry_ms is None && self.lru_idle_secs is None && self.lfu_frequency is None
    }

    /// Whether chunk sizes are positive and something is left of a key that is being read in
    /// chunks.
    pub open spec fn valid(self) -> bool {
        &&& self.pos >= 0
        &&& self.max matches Some(n) ==> 0 < n
        &&& self.chunked matches Some(c) ==> {
            &&& 0 < c.remaining <= c.total
            &&& c.offset + c.remaining == c.total
            &&& values::plain_type(c.type_code)
            &&& self.nothing_waits()
        }
    }
}

/// The opcodes that change the state of the reader, or nothing, and yield no entry.
pub open spec fn is_directive(b: u8) -> bool {
    b == RDB_OPCODE_AUX || b == RDB_OPCODE_SELECTDB || b == RDB_OPCODE_RESIZEDB || b
        == RDB_OPCODE_EXPIRETIME_MS || b == RDB_OPCODE_EXPIRETIME || b == RDB_OPCODE_IDLE || b
        == RDB_OPCODE_FREQ || b == RDB_OPCODE_FUNCTION2 || b == RDB_OPCODE_MODULE_AUX || b
        == RDB_OPCODE_SLOT_INFO || b == RDB_OPCODE_SLOT_IMPORT
}

/// The state with `n` plain lengths passed over.
pub open spec fn skip_lengths(r: ReaderV, n: nat) -> Result<ReaderV, RdbErrorV> {
    match wire::repeat(streams::length_fn(r.source), r.pos, n) {
        Err(e) => Err(e),
        Ok((_, q)) => Ok(r.at(q)),
    }
}

/// What a directive does to the state; `r` stands behind its opcode.
#[verifier::opaque]
pub open spec fn directive(r: ReaderV, b: u8) -> Result<ReaderV, RdbErrorV> {
    let s = r.source;
    let p = r.pos;
    if b == RDB_OPCODE_AUX {
        match aux_field(s, p) {
            Err(e) => Err(e),
            Ok(((k, v), q)) => Ok(ReaderV { aux: r.aux.insert(k, v), ..r.at(q) }),
        }
    } else if b == RDB_OPCODE_SELECTDB {
        match wire::plain_length(s, p) {
            Err(e) => Err(e),
            Ok((n, q)) => if n > u32::MAX {
                Err(
                    RdbErrorV::CorruptData(
                        "db index "@ + text::dec(n as int) + " exceeds u32"@,
                    ),
                )
            } else {
                Ok(ReaderV { db: n as u32, ..r.at(q) })
            },
        }
    } else if b == RDB_OPCODE_RESIZEDB {
        skip_lengths(r, 2)
    } else if b == RDB_OPCODE_EXPIRETIME_MS {
        match wire::i64_le(s, p) {
            Err(e) => Err(e),
            Ok((n, q)) => Ok(ReaderV { expiry_ms: Some(n), ..r.at(q) }),
        }
    } else if b == RDB_OPCODE_EXPIRETIME {
        match wire::i32_le(s, p) {
            Err(e) => Err(e),
            Ok((n, q)) => Ok(ReaderV { expiry_ms: Some((n * 1000) as i64), ..r.at(q) }),
        }
    } else if b == RDB_OPCODE_IDLE {
        match wire::plain_length(s, p) {
            Err(e) => Err(e),
            Ok((n, q)) => Ok(ReaderV { lru_idle_secs: Some(n), ..r.at(q) }),
        }
    } else if b == RDB_OPCODE_FREQ {
        match wire::byte(s, p) {
            Err(e) => Err(e),
            Ok((n, q)) => Ok(ReaderV { lfu_frequency: Some(n), ..r.at(q) }),
        }
    } else if b == RDB_OPCODE_FUNCTION2 {
        match wire::string(s, p) {
            Err(e) => Err(e),
            Ok((_, q)) => Ok(r.at(q)),
        }
    } else if b == RDB_OPCODE_MODULE_AUX {
        match skip_lengths(r, 3) {
            Err(e) => Err(e),
            Ok(r2) => match modules::module_skip(s, r2.pos) {
                Err(e) => Err(e),
                Ok((_, q)) => Ok(r.at(q)),
            },
        }
    } else if b == RDB_OPCODE_SLOT_INFO {
        skip_lengths(r, 3)
    } else {
        match wire::string(s, p) {
            Err(e) => Err(e),
            Ok((_, q)) => match wire::size(s, q, "slot import range count"@) {
                Err(e) => Err(e),
                Ok((n, q2)) => skip_lengths(r.at(q2), 2 * n),
            },
        }
    }
}

/// The entry with the given key and value, with what waits for it in the state.
pub open spec fn entry_of(r: ReaderV, t: u8, key: Seq<u8>, value: RdbValueV) -> RdbEntryV {
    RdbEntryV {
        db: r.db,
        key,
        value,
        type_code: t,
        expiry_ms: r.expiry_ms,
        lru_idle_secs: r.lru_idle_secs,
        lfu_frequency: r.lfu_frequency,
        total_elements: None,
        element_offset: None,
    }
}

/// The step for the key and value of type `t` at the place of `r`. A plain collection of
/// more elements than the limit gives its first chunk.
#[verifier::opaque]
pub open spec fn key_step(r: ReaderV, t: u8) -> (StepV, ReaderV) {
    let s = r.source;
    match wire::string(s, r.pos) {
        Err(e) => r.fails(e),
        Ok((key, q)) => if r.max is Some && values::plain_type(t) {
            let max = r.max->Some_0;
            match wire::size(s, q, "element count"@) {
                Err(e) => r.fails(e),
                Ok((n, q2)) => match values::elements(
                    s,
                    t,
                    q2,
                    if n > max {
                        max
                    } else {
                        n
                    },
                ) {
                    Err(e) => r.fails(e),
                    Ok((v, q3)) => if n > max {
                        (
                            StepV::Entry(
                                RdbEntryV {
                                    total_elements: Some(n as u64),
                                    element_offset: Some(0),
                                    ..entry_of(r, t, key, v)
                                },
                            ),
                            ReaderV {
                                chunked: Some(
                                    ChunkV {
                                        db: r.db,
                                        key,
                                        type_code: t,
                                        expiry_ms: r.expiry_ms,
                                        lru_idle_secs: r.lru_idle_secs,
                                        lfu_frequency: r.lfu_frequency,
                                        total: n as u64,
                                        remaining: (n - max) as nat,
                                        offset: max as u64,
                                    },
                                ),
                                ..r.cleared().at(q3)
                            },
                        )
                    } else {
                        (StepV::Entry(entry_of(r, t, key, v)), r.cleared().at(q3))
                    },
                },
            }
        } else {
            match values::value(s, t, q) {
                Err(e) => r.fails(e),
                Ok((None, q2)) => (StepV::Unsupported(t), r.cleared().at(q2)),
                Ok((Some(v), q2)) => (
                    StepV::Entry(entry_of(r, t, key, v)),
                    r.cleared().at(q2),
                ),
            }
        },
    }
}

/// The step for the next chunk of a large key.
pub open spec fn chunk_step(r: ReaderV, c: ChunkV) -> (StepV, ReaderV) {
    match r.max {
        None => r.fails(RdbErrorV::CorruptData("chunked state without max_key_elements"@)),
        Some(max) => {
            let n = if max < c.remaining {
                max
            } else {
                c.remaining
            };
            match values::elements(r.source, c.type_code, r.pos, n) {
                Err(e) => r.fails(e),
                Ok((v, q)) => (
                    StepV::Entry(
                        RdbEntryV {
                            db: c.db,
                            key: c.key,
                            value: v,
                            type_code: c.type_code,
                            expiry_ms: c.expiry_ms,
                            lru_idle_secs: c.lru_idle_secs,
                            lfu_frequency: c.lfu_frequency,
                            total_elements: Some(c.total),
                            element_offset: Some(c.offset),
                        },
                    ),
                    ReaderV {
                        chunked: if n == c.remaining {
                            None
                        } else {
                            Some(
                                ChunkV {
                                    remaining: (c.remaining - n) as nat,
                                    offset: (c.offset + n) as u64,
                                    ..c
                                },
                            )
                        },
                        ..r.at(q)
                    },
                ),
            }
        },
    }
}

/// The step at the end of the file; `r` stands behind the opcode. The checksum covers all
/// bytes up to there. It is stored from version 5 on, and is zero where it is switched off.
pub open spec fn end_step(r: ReaderV) -> (StepV, ReaderV) {
    match wire::u64_le(r.source, r.pos) {
        Err(e) => r.fails(e),
        Ok((stored, _)) => {
            let computed = crc64::crc64(0, r.source.bytes.take(r.pos));
            if r.header.version >= 5 && stored != 0 {
                if computed != stored {
                    r.fails(
                        RdbErrorV::CorruptData(
                            "CRC64 mismatch: computed 0x"@ + text::hex(computed as nat, 16)
                                + ", stored 0x"@ + text::hex(stored as nat, 16),
                        ),
                    )
                } else {
                    (StepV::End, (ReaderV { crc_checked: true, ..r }).ended())
                }
            } else {
                (StepV::End, r.ended())
            }
        },
    }
}

/// The step from an opcode on: directives are carried out up to the next key or the end.
pub open spec fn scan(r: ReaderV) -> (StepV, ReaderV)
    decreases r.source.bytes.len() - r.pos,
{
    match wire::byte(r.source, r.pos) {
        Err(e) => r.fails(e),
        Ok((b, q)) => if is_directive(b) {
            match directive(r.at(q), b) {
                Err(e) => r.fails(e),
                Ok(r2) => {
                    proof {
                        lemma_directive_moves_on(r.at(q), b);
                    }
                    scan(r2)
                },
            }
        } else if b == RDB_OPCODE_EOF {
            end_step(r.at(q))
        } else if b == RDB_OPCODE_FUNCTION_PRE_GA {
            r.fails(RdbErrorV::CorruptData("FUNCTION_PRE_GA opcode is not supported"@))
        } else if opcodes::object_type(b) {
            key_step(r.at(q), b)
        } else {
            r.fails(
                RdbErrorV::CorruptData(
                    "unexpected byte 0x"@ + text::hex(b as nat, 2) + " in opcode position"@,
                ),
            )
        },
    }
}

/// One step of a reader that has not come to its end.
#[verifier::opaque]
pub open spec fn step(r: ReaderV) -> (StepV, ReaderV) {
    match r.chunked {
        Some(c) => chunk_step(r, c),
        None => scan(r),
    }
}

/// Whether a successful reading at a place within the input ends at or after it, and within
/// the input.
pub open spec fn stays_within<T>(s: SourceV, p: int, r: Parsed<T>) -> bool {
    0 <= p <= s.bytes.len() ==> (r matches Ok((_, q)) ==> p <= q <= s.bytes.len())
}

proof fn lemma_repeat_stays<T>(s: SourceV, f: spec_fn(int) -> Parsed<T>, p: int, n: nat)
    requires
        forall|q: int| stays_within(s, q, #[trigger] f(q)),
    ensures
        stays_within(s, p, wire::repeat(f, p, n)),
    decreases n,
{
    if n > 0 {
        lemma_repeat_stays(s, f, p, (n - 1) as nat);
        if let Ok((_, q)) = wire::repeat(f, p, (n - 1) as nat) {
            assert(stays_within(s, q, f(q)));
        }
    }
}

proof fn lemma_lengths_stay(s: SourceV, p: int, n: nat)
    ensures
        stays_within(s, p, wire::repeat(streams::length_fn(s), p, n)),
{
    lemma_repeat_stays(s, streams::length_fn(s), p, n);
}

pub proof fn lemma_directive_moves_on(r: ReaderV, b: u8)
    requires
        is_directive(b),
    ensures
        0 <= r.pos <= r.source.bytes.len() ==> (directive(r, b) matches Ok(r2) ==> r.pos <= r2.pos
            <= r2.source.bytes.len()),
        directive(r, b) matches Ok(r2) ==> r2.source == r.source && r2 == (ReaderV {
            pos: r2.pos,
            aux: r2.aux,
            db: r2.db,
            expiry_ms: r2.expiry_ms,
            lru_idle_secs: r2.lru_idle_secs,
            lfu_frequency: r2.lfu_frequency,
            ..r
        }),
{
    reveal(directive);
    let s = r.source;
    let p = r.pos;
    lemma_aux_moves_on(s, p);
    wire::lemma_length_moves_on(s, p);
    wire::lemma_string_moves_on(s, p);
    lemma_lengths_stay(s, p, 2);
    lemma_lengths_stay(s, p, 3);
    if let Ok((_, q)) = wire::repeat(streams::length_fn(s), p, 3) {
        modules::lemma_module_skip_moves_on(s, q);
    }
    if let Ok((_, q)) = wire::string(s, p) {
        wire::lemma_length_moves_on(s, q);
        if let Ok((n, q2)) = wire::size(s, q, "slot import range count"@) {
            lemma_lengths_stay(s, q2, 2 * n);
        }
    }
}

/// A row of readings that each move on moves on, unless it is empty.
proof fn lemma_repeat_moves_on<T>(s: SourceV, f: spec_fn(int) -> Parsed<T>, p: int, n: nat)
    requires
        forall|q: int| wire::moves_on(s, q, #[trigger] f(q)),
    ensures
        wire::repeat(f, p, n) matches Ok((_, q)) ==> (if n == 0 {
            q == p
        } else {
            p < q <= s.bytes.len()
        }),
    decreases n,
{
    if n > 0 {
        lemma_repeat_moves_on(s, f, p, (n - 1) as nat);
        if let Ok((_, q)) = wire::repeat(f, p, (n - 1) as nat) {
            assert(wire::moves_on(s, q, f(q)));
        }
    }
}

proof fn lemma_strings_move_on(s: SourceV, p: int, n: nat)
    ensures
        wire::repeat(values::string_fn(s), p, n) matches Ok((_, q)) ==> (if n == 0 {
            q == p
        } else {
            p < q <= s.bytes.len()
        }),
{
    assert forall|q: int| wire::moves_on(s, q, #[trigger] values::string_fn(s)(q)) by {
        wire::lemma_string_moves_on(s, q);
    }
    lemma_repeat_moves_on(s, values::string_fn(s), p, n);
}

proof fn lemma_members_move_on(s: SourceV, p: int, n: nat, binary: bool)
    ensures
        wire::repeat(values::member_fn(s, binary), p, n) matches Ok((_, q)) ==> (if n == 0 {
            q == p
        } else {
            p < q <= s.bytes.len()
        }),
{
    let f = values::member_fn(s, binary);
    assert forall|q: int| wire::moves_on(s, q, #[trigger] f(q)) by {
        wire::lemma_string_moves_on(s, q);
    }
    lemma_repeat_moves_on(s, f, p, n);
}

proof fn lemma_fields_move_on(s: SourceV, p: int, n: nat, with_expiry: bool)
    ensures
        wire::repeat(values::field_fn(s, with_expiry), p, n) matches Ok((_, q)) ==> (if n == 0 {
            q == p
        } else {
            p < q <= s.bytes.len()
        }),
{
    let f = values::field_fn(s, with_expiry);
    assert forall|q: int| wire::moves_on(s, q, #[trigger] f(q)) by {
        wire::lemma_string_moves_on(s, q);
        if let Ok((_, q2)) = wire::string(s, q) {
            wire::lemma_string_moves_on(s, q2);
        }
    }
    lemma_repeat_moves_on(s, f, p, n);
}

/// Elements are read forward, and each takes at least a byte.
proof fn lemma_elements_move_on(s: SourceV, t: u8, p: int, n: nat)
    ensures
        values::elements(s, t, p, n) matches Ok((_, q)) ==> (if n == 0 {
            q == p
        } else {
            p < q <= s.bytes.len()
        }),
{
    reveal(values::elements);
    lemma_strings_move_on(s, p, n);
    lemma_members_move_on(s, p, n, t == opcodes::RDB_TYPE_ZSET_2);
    lemma_fields_move_on(s, p, n, t == opcodes::RDB_TYPE_HASH_2);
}

proof fn lemma_quicklist_moves_on(s: SourceV, p: int, v2: bool)
    ensures
        wire::moves_on(s, p, values::quicklist(s, p, v2)),
{
    wire::lemma_length_moves_on(s, p);
    if let Ok((n, q)) = wire::size(s, p, "element count"@) {
        let f = values::node_fn(s, v2);
        assert forall|x: int| wire::moves_on(s, x, #[trigger] f(x)) by {
            reveal(values::node);
            wire::lemma_string_moves_on(s, x);
            wire::lemma_length_moves_on(s, x);
            if let Ok((_, y)) = wire::plain_length(s, x) {
                wire::lemma_string_moves_on(s, y);
            }
        }
        lemma_repeat_moves_on(s, f, q, n);
    }
}

proof fn lemma_consumer_moves_on(s: SourceV, t: u8, p: int)
    ensures
        wire::moves_on(s, p, streams::consumer(s, t, p)),
{
    wire::lemma_string_moves_on(s, p);
    if let Ok((_, q)) = wire::string(s, p) {
        if let Ok((_, q2)) = wire::i64_le(s, q) {
            let r: Parsed<()> = if t >= opcodes::RDB_TYPE_STREAM_LISTPACKS_3 {
                streams::passed(wire::i64_le(s, q2))
            } else {
                Ok(((), q2))
            };
            if let Ok((_, q3)) = r {
                wire::lemma_length_moves_on(s, q3);
                if let Ok((n, q4)) = wire::size(s, q3, "stream consumer PEL count"@) {
                    let f = streams::id_fn(s);
                    assert forall|x: int| wire::moves_on(s, x, #[trigger] f(x)) by {}
                    lemma_repeat_moves_on(s, f, q4, n);
                }
            }
        }
    }
}

proof fn lemma_group_moves_on(s: SourceV, t: u8, p: int)
    ensures
        wire::moves_on(s, p, streams::group(s, t, p)),
{
    wire::lemma_string_moves_on(s, p);
    if let Ok((_, q)) = wire::string(s, p) {
        let k: nat = if t >= opcodes::RDB_TYPE_STREAM_LISTPACKS_2 {
            3
        } else {
            2
        };
        lemma_lengths_stay(s, q, k);
        if let Ok((_, q2)) = wire::repeat(streams::length_fn(s), q, k) {
            wire::lemma_length_moves_on(s, q2);
            if let Ok((n, q3)) = wire::size(s, q2, "stream PEL count"@) {
                let f = streams::pending_fn(s);
                assert forall|x: int| wire::moves_on(s, x, #[trigger] f(x)) by {
                    if let Ok((_, y)) = wire::take(s, x, 16) {
                        if let Ok((_, z)) = wire::i64_le(s, y) {
                            wire::lemma_length_moves_on(s, z);
                        }
                    }
                }
                lemma_repeat_moves_on(s, f, q3, n);
                if let Ok((_, q4)) = wire::repeat(f, q3, n) {
                    wire::lemma_length_moves_on(s, q4);
                    if let Ok((m, q5)) = wire::size(s, q4, "stream consumer count"@) {
                        let g = streams::consumer_fn(s, t);
                        assert forall|x: int| wire::moves_on(s, x, #[trigger] g(x)) by {
                            lemma_consumer_moves_on(s, t, x);
                        }
                        lemma_repeat_moves_on(s, g, q5, m);
                    }
                }
            }
        }
    }
}

proof fn lemma_stream_moves_on(s: SourceV, t: u8, p: int)
    ensures
        wire::moves_on(s, p, streams::stream_value(s, t, p)),
{
    wire::lemma_length_moves_on(s, p);
    if let Ok((n, q)) = wire::size(s, p, "stream listpack count"@) {
        let f = streams::pair_fn(s);
        assert forall|x: int| wire::moves_on(s, x, #[trigger] f(x)) by {
            wire::lemma_string_moves_on(s, x);
            if let Ok((_, y)) = wire::string(s, x) {
                wire::lemma_string_moves_on(s, y);
            }
        }
        lemma_repeat_moves_on(s, f, q, n);
        if let Ok((_, q2)) = wire::repeat(f, q, n) {
            lemma_lengths_stay(s, q2, 3);
            if let Ok((_, q3)) = wire::repeat(streams::length_fn(s), q2, 3) {
                let k: nat = if t >= opcodes::RDB_TYPE_STREAM_LISTPACKS_2 {
                    5
                } else {
                    0
                };
                lemma_lengths_stay(s, q3, k);
                if let Ok((_, q4)) = wire::repeat(streams::length_fn(s), q3, k) {
                    wire::lemma_length_moves_on(s, q4);
                    if let Ok((m, q5)) = wire::size(s, q4, "stream cgroup count"@) {
                        let g = streams::group_fn(s, t);
                        assert forall|x: int| wire::moves_on(s, x, #[trigger] g(x)) by {
                            lemma_group_moves_on(s, t, x);
                        }
                        lemma_repeat_moves_on(s, g, q5, m);
                    }
                }
            }
        }
    }
}

proof fn lemma_module_moves_on(s: SourceV, p: int, acc: Seq<types::ModuleValueV>, used: nat)
    ensures
        wire::moves_on(s, p, modules::module_list(s, p, acc, used)),
    decreases s.bytes.len() - p,
{
    modules::lemma_module_item_moves_on(s, p);
    if let Ok((Some(v), q)) = modules::module_item(s, p) {
        lemma_module_moves_on(s, q, acc.push(v), used + modules::string_size(v));
    }
}

/// Values are read forward, and each takes at least a byte.
proof fn lemma_value_moves_on(s: SourceV, t: u8, p: int)
    ensures
        wire::moves_on(s, p, values::value(s, t, p)),
{
    wire::lemma_string_moves_on(s, p);
    wire::lemma_length_moves_on(s, p);
    lemma_quicklist_moves_on(s, p, t == opcodes::RDB_TYPE_LIST_QUICKLIST_2);
    lemma_stream_moves_on(s, t, p);
    if let Ok((n, q)) = wire::size(s, p, "element count"@) {
        lemma_elements_move_on(s, t, q, n);
    }
    if let Ok((_, q)) = wire::plain_length(s, p) {
        lemma_module_moves_on(s, q, Seq::empty(), 0);
    }
}

/// What a step does to the state whatever it gives: the input and the header stay, and an
/// entry or a key that is passed over takes at least a byte.
pub open spec fn step_moves_on(r: ReaderV, st: (StepV, ReaderV)) -> bool {
    &&& st.1.source == r.source
    &&& st.1.header == r.header
    &&& st.1.max == r.max
    &&& match st.0 {
        StepV::Entry(_) | StepV::Unsupported(_) => {
            &&& r.pos < st.1.pos <= r.source.bytes.len()
            &&& st.1.valid()
            &&& st.1.finished == r.finished
            &&& st.1.crc_checked == r.crc_checked
        },
        StepV::End | StepV::Fail(_) => st.1.finished && st.1 == st.1.ended() && st.1.valid(),
    }
}

proof fn lemma_key_step(r: ReaderV, t: u8)
    requires
        r.valid(),
        r.chunked is None,
    ensures
        step_moves_on(r, key_step(r, t)),
{
    reveal(key_step);
    let s = r.source;
    wire::lemma_string_moves_on(s, r.pos);
    if let Ok((_, q)) = wire::string(s, r.pos) {
        wire::lemma_length_moves_on(s, q);
        lemma_value_moves_on(s, t, q);
        if let Ok((n, q2)) = wire::size(s, q, "element count"@) {
            lemma_elements_move_on(s, t, q2, n);
            if r.max is Some {
                lemma_elements_move_on(s, t, q2, r.max->Some_0);
            }
        }
    }
}

proof fn lemma_scan(r: ReaderV)
    requires
        r.valid(),
        r.chunked is None,
    ensures
        step_moves_on(r, scan(r)),
    decreases r.source.bytes.len() - r.pos,
{
    if let Ok((b, q)) = wire::byte(r.source, r.pos) {
        if is_directive(b) {
            lemma_directive_moves_on(r.at(q), b);
            if let Ok(r2) = directive(r.at(q), b) {
                lemma_scan(r2);
            }
        } else if opcodes::object_type(b) {
            lemma_key_step(r.at(q), b);
        }
    }
}

/// A step keeps a valid reader valid, and moves it on unless it comes to its end.
pub proof fn law_step(r: ReaderV)
    requires
        r.valid(),
    ensures
        step_moves_on(r, step(r)),
{
    reveal(step);
    match r.chunked {
        None => {
            lemma_scan(r);
        },
        Some(c) => {
            if let Some(max) = r.max {
                let n = if max < c.remaining {
                    max
                } else {
                    c.remaining
                };
                lemma_elements_move_on(r.source, c.type_code, r.pos, n);
            }
        },
    }
}

// ---- The reader ----

/// Reads an RDB file and yields its entries.
pub struct RdbReader<R: ByteSource> {
    cursor: Cursor<R>,
    header: RdbHeader,
    metadata: RdbMetadata,
    current_db: u32,
    pending_expiry_ms: Option<i64>,
    pending_lru_idle: Option<u64>,
    pending_lfu_freq: Option<u8>,
    finished: bool,
    max_key_elements: Option<usize>,
    chunked: Option<ChunkedState>,
    crc_checked: bool,
}

/// What one step of the reader gives, short of an error; the end of the file is apart.
enum Step {
    Entry(RdbEntry),
    Unsupported(u8),
}

/// All that a reader is going to yield.
#[verifier::opaque]
pub open spec fn upcoming_from(r: ReaderV) -> Seq<EntryItem>
    decreases r.source.bytes.len() - r.pos,
{
    if r.finished {
        Seq::empty()
    } else {
        let (st, r2) = step(r);
        match st {
            StepV::End => Seq::empty(),
            StepV::Fail(e) => seq![Err(e)],
            StepV::Entry(e) => if r.pos < r2.pos <= r.source.bytes.len() && r2.source == r.source {
                seq![Ok(e)] + upcoming_from(r2)
            } else {
                seq![Ok(e)]
            },
            StepV::Unsupported(t) => if r.pos < r2.pos <= r.source.bytes.len() && r2.source
                == r.source {
                seq![Err(RdbErrorV::UnknownType(t))] + upcoming_from(r2)
            } else {
                seq![Err(RdbErrorV::UnknownType(t))]
            },
        }
    }
}

/// The state of a reader that has yielded all of it.
#[verifier::opaque]
pub open spec fn drained(r: ReaderV) -> ReaderV
    decreases r.source.bytes.len() - r.pos,
{
    if r.finished {
        r
    } else {
        let (st, r2) = step(r);
        match st {
            StepV::End | StepV::Fail(_) => r2,
            StepV::Entry(_) | StepV::Unsupported(_) => if r.pos < r2.pos <= r.source.bytes.len()
                && r2.source == r.source {
                drained(r2)
            } else {
                r2
            },
        }
    }
}

/// The state of a new reader: the header and the AUX fields before the first other opcode
/// have been read.
pub open spec fn opened(s: SourceV) -> Result<ReaderV, RdbErrorV> {
    match header_at(s, 0) {
        Err(e) => Err(e),
        Ok((header, p)) => match preamble(s, p, Map::empty()) {
            Err(e) => Err(e),
            Ok((aux, q)) => Ok(
                ReaderV {
                    source: s,
                    pos: q,
                    header,
                    aux,
                    db: 0,
                    expiry_ms: None,
                    lru_idle_secs: None,
                    lfu_frequency: None,
                    finished: false,
                    max: Some(DEFAULT_MAX_KEY_ELEMENTS as nat),
                    chunked: None,
                    crc_checked: false,
                },
            ),
        },
    }
}

impl<R: ByteSource> View for RdbReader<R> {
    type V = ReaderV;

    closed spec fn view(&self) -> ReaderV {
        if self.finished {
            self.state().ended()
        } else {
            self.state()
        }
    }
}

impl<R: ByteSource> RdbReader<R> {
    spec fn state(&self) -> ReaderV {
        ReaderV {
            source: self.cursor.source(),
            pos: self.cursor.pos(),
            header: self.header,
            aux: self.metadata.aux@,
            db: self.current_db,
            expiry_ms: self.pending_expiry_ms,
            lru_idle_secs: self.pending_lru_idle,
            lfu_frequency: self.pending_lfu_freq,
            finished: self.finished,
            max: match self.max_key_elements {
                None => None,
                Some(n) => Some(n as nat),
            },
            chunked: match self.chunked {
                None => None,
                Some(c) => Some(c.shown()),
            },
            crc_checked: self.crc_checked,
        }
    }

    /// Whether the source is where the reader takes it to be.
    pub closed spec fn ready(&self) -> bool {
        self.cursor.ready()
    }

    /// Opens an RDB file: reads and checks the header, then all AUX fields up to the first
    /// other opcode.
    pub fn new(source: R) -> (r: Result<Self, RdbError>)
        ensures
            match r {
                Ok(reader) => opened(source.unread()) == Ok::<ReaderV, RdbErrorV>(reader@)
                    && reader.valid(),
                Err(e) => opened(source.unread()) == Err::<ReaderV, RdbErrorV>(e@),
            },
    {
        let ghost s = source.unread();
        let mut cursor = Cursor::new(source);
        let header = match read_header(&mut cursor) {
            Ok(h) => h,
            Err(e) => {
                return Err(e);
            },
        };
        let mut metadata = RdbMetadata::default();
        let ghost start = cursor.pos();
        loop
            invariant
                s == source.unread(),
                cursor.ready(),
                cursor.source() == s,
                cursor.pos() >= 0,
                header_at(s, 0) == Ok::<(RdbHeader, int), RdbErrorV>((header, start)),
                preamble(s, cursor.pos(), metadata.aux@) == preamble(s, start, Map::empty()),
            decreases s.bytes.len() - cursor.pos(),
        {
            match cursor.peek() {
                Err(e) => {
                    return Err(e);
                },
                Ok(b) => {
                    if b != RDB_OPCODE_AUX {
                        return Ok(
                            RdbReader {
                                cursor,
                                header,
                                metadata,
                                current_db: 0,
                                pending_expiry_ms: None,
                                pending_lru_idle: None,
                                pending_lfu_freq: None,
                                finished: false,
                                max_key_elements: Some(DEFAULT_MAX_KEY_ELEMENTS),
                                chunked: None,
                                crc_checked: false,
                            },
                        );
                    }
                },
            }
            match cursor.read_u8() {
                Ok(_) => {},
                Err(e) => {
                    return Err(e);
                },
            }
            proof {
                lemma_aux_moves_on(s, cursor.pos());
            }
            match read_aux(&mut cursor) {
                Ok((k, v)) => metadata.aux.insert(k, v),
                Err(e) => {
                    return Err(e);
                },
            }
        }
    }

    /// The parsed RDB header.
    pub fn header(&self) -> (r: &RdbHeader)
        ensures
            *r == self@.header,
    {
        &self.header
    }

    /// File-level metadata from the AUX fields that have been read so far.
    pub fn metadata(&self) -> (r: &RdbMetadata)
        ensures
            r.aux@ == self@.aux,
    {
        &self.metadata
    }

    /// Returns true if the checksum was checked at the end of the file. False before that,
    /// for RDB versions below 5, and where the stored checksum is zero.
    pub fn crc_checked(&self) -> (r: bool)
        ensures
            r == self@.crc_checked,
    {
        self.crc_checked
    }

    /// Sets the largest number of elements that one entry of a plain-encoded collection
    /// holds. A key with more is yielded as several entries with `total_elements` and
    /// `element_offset` set.
    #[must_use]
    pub fn with_max_key_elements(self, max: usize) -> (r: Self)
        requires
            max > 0,
        ensures
            r@ == (ReaderV { max: Some(max as nat), ..self@ }),
            self.valid() ==> r.valid(),
    {
        let mut r = self;
        r.max_key_elements = Some(max);
        r
    }

    /// Turns chunking off: every collection is read into a single entry.
    #[must_use]
    pub fn without_chunking(self) -> (r: Self)
        ensures
            r@ == (ReaderV { max: None, ..self@ }),
            self.valid() ==> r.valid(),
    {
        let mut r = self;
        r.max_key_elements = None;
        r
    }

    /// Carries out a directive, behind whose opcode the reader stands.
    fn run_directive(&mut self, b: u8) -> (r: Result<(), RdbError>)
        requires
            is_directive(b),
            old(self).cursor.ready(),
        ensures
            final(self).cursor.ready(),
            match r {
                Ok(_) => directive(old(self).state(), b) == Ok::<ReaderV, RdbErrorV>(
                    final(self).state(),
                ),
                Err(e) => directive(old(self).state(), b) == Err::<ReaderV, RdbErrorV>(e@)
                    && final(self).state().ended() == old(self).state().ended(),
            },
    {
        proof {
            reveal(directive);
        }
        if b == RDB_OPCODE_AUX {
            return match read_aux(&mut self.cursor) {
                Ok((k, v)) => {
                    self.metadata.aux.insert(k, v);
                    Ok(())
                },
                Err(e) => Err(e),
            };
        }
        if b == RDB_OPCODE_SELECTDB {
            return match self.cursor.read_length_value() {
                Ok(n) => if n > u32::MAX as u64 {
                    Err(RdbError::CorruptData(with_number("db index ", n, " exceeds u32")))
                } else {
                    self.current_db = n as u32;
                    Ok(())
                },
                Err(e) => Err(e),
            };
        }
        if b == RDB_OPCODE_RESIZEDB {
            return self.cursor.skip_lengths(2);
        }
        if b == RDB_OPCODE_EXPIRETIME_MS {
            return match self.cursor.read_i64_le() {
                Ok(n) => {
                    self.pending_expiry_ms = Some(n);
                    Ok(())
                },
                Err(e) => Err(e),
            };
        }
        if b == RDB_OPCODE_EXPIRETIME {
            return match self.cursor.read_i32_le() {
                Ok(n) => {
                    self.pending_expiry_ms = Some(n as i64 * 1000);
                    Ok(())
                },
                Err(e) => Err(e),
            };
        }
        if b == RDB_OPCODE_IDLE {
            return match self.cursor.read_length_value() {
                Ok(n) => {
                    self.pending_lru_idle = Some(n);
                    Ok(())
                },
                Err(e) => Err(e),
            };
        }
        if b == RDB_OPCODE_FREQ {
            return match self.cursor.read_u8() {
                Ok(n) => {
                    self.pending_lfu_freq = Some(n);
                    Ok(())
                },
                Err(e) => Err(e),
            };
        }
        if b == RDB_OPCODE_FUNCTION2 {
            return match self.cursor.read_string() {
                Ok(_) => Ok(()),
                Err(e) => Err(e),
            };
        }
        if b == RDB_OPCODE_MODULE_AUX {
            return match self.cursor.skip_lengths(3) {
                Ok(_) => self.cursor.skip_module_data(),
                Err(e) => Err(e),
            };
        }
        if b == RDB_OPCODE_SLOT_INFO {
            return self.cursor.skip_lengths(3);
        }
        match self.cursor.read_string() {
            Ok(_) => {},
            Err(e) => {
                return Err(e);
            },
        }
        match self.cursor.read_size("slot import range count") {
            Ok(n) => self.cursor.skip_lengths(2 * n),
            Err(e) => Err(e),
        }
    }

    /// Checks the checksum, behind whose opcode the reader stands.
    fn finish(&mut self) -> (r: Result<(), RdbError>)
        requires
            old(self).cursor.ready(),
        ensures
            final(self).cursor.ready(),
            match r {
                Ok(_) => end_step(old(self).state()) == (StepV::End, final(self).state().ended()),
                Err(e) => end_step(old(self).state()) == (
                    StepV::Fail(e@),
                    final(self).state().ended(),
                ),
            },
    {
        let computed = self.cursor.checksum();
        let stored = match self.cursor.read_u64_le() {
            Ok(n) => n,
            Err(e) => {
                return Err(e);
            },
        };
        if self.header.version >= 5 && stored != 0 {
            if computed != stored {
                let message = join2(
                    "CRC64 mismatch: computed 0x",
                    hex_string(computed, 16).as_str(),
                ).concat(", stored 0x").concat(hex_string(stored, 16).as_str());
                return Err(RdbError::CorruptData(message));
            }
            self.crc_checked = true;
        }
        Ok(())
    }

    /// Reads a key and its value, behind whose type code the reader stands.
    fn read_entry(&mut self, type_code: u8) -> (r: Result<Step, RdbError>)
        requires
            old(self).cursor.ready(),
            old(self).state().valid(),
            old(self).chunked is None,
            !old(self).finished,
        ensures
            final(self).cursor.ready(),
            match r {
                Ok(Step::Entry(e)) => key_step(old(self).state(), type_code) == (
                    StepV::Entry(e@),
                    final(self).state(),
                ),
                Ok(Step::Unsupported(t)) => key_step(old(self).state(), type_code) == (
                    StepV::Unsupported(t),
                    final(self).state(),
                ),
                Err(e) => key_step(old(self).state(), type_code) == (
                    StepV::Fail(e@),
                    final(self).state().ended(),
                ),
            },
    {
        proof {
            reveal(key_step);
        }
        let expiry_ms = self.pending_expiry_ms;
        let lru_idle_secs = self.pending_lru_idle;
        let lfu_frequency = self.pending_lfu_freq;
        self.pending_expiry_ms = None;
        self.pending_lru_idle = None;
        self.pending_lfu_freq = None;
        let key = match self.cursor.read_string() {
            Ok(v) => v,
            Err(e) => {
                return Err(e);
            },
        };
        if let Some(max) = self.max_key_elements {
            if values::is_plain_type(type_code) {
                let count = match self.cursor.read_size("element count") {
                    Ok(n) => n,
                    Err(e) => {
                        return Err(e);
                    },
                };
                let wanted: usize = if count > max {
                    max
                } else {
                    count
                };
                let value = match self.cursor.read_n_elements(type_code, wanted) {
                    Ok(v) => v,
                    Err(e) => {
                        return Err(e);
                    },
                };
                if count > max {
                    self.chunked = Some(
                        ChunkedState {
                            db: self.current_db,
                            key: bytes::copy_bytes(&key),
                            type_code,
                            expiry_ms,
                            lru_idle_secs,
                            lfu_frequency,
                            total_count: count,
                            remaining: count - max,
                            element_offset: max as u64,
                        },
                    );
                }
                return Ok(
                    Step::Entry(
                        RdbEntry {
                            db: self.current_db,
                            key,
                            value,
                            type_code,
                            expiry_ms,
                            lru_idle_secs,
                            lfu_frequency,
                            total_elements: if count > max {
                                Some(count as u64)
                            } else {
                                None
                            },
                            element_offset: if count > max {
                                Some(0)
                            } else {
                                None
                            },
                        },
                    ),
                );
            }
        }
        match self.cursor.read_value(type_code) {
            Err(e) => Err(e),
            Ok(None) => Ok(Step::Unsupported(type_code)),
            Ok(Some(value)) => Ok(
                Step::Entry(
                    RdbEntry {
                        db: self.current_db,
                        key,
                        value,
                        type_code,
                        expiry_ms,
                        lru_idle_secs,
                        lfu_frequency,
                        total_elements: None,
                        element_offset: None,
                    },
                ),
            ),
        }
    }

    /// Reads the next chunk of a large key.
    fn read_chunk(&mut self) -> (r: Result<RdbEntry, RdbError>)
        requires
            old(self).cursor.ready(),
            old(self).state().valid(),
            old(self).chunked is Some,
            !old(self).finished,
        ensures
            final(self).cursor.ready(),
            match r {
                Ok(e) => chunk_step(old(self).state(), old(self).state().chunked->Some_0) == (
                    StepV::Entry(e@),
                    final(self).state(),
                ),
                Err(e) => chunk_step(old(self).state(), old(self).state().chunked->Some_0) == (
                    StepV::Fail(e@),
                    final(self).state().ended(),
                ),
            },
    {
        let mut state = match self.chunked.take() {
            Some(c) => c,
            None => {
                return Err(corrupt("read_chunk called without chunked state"));
            },
        };
        let max = match self.max_key_elements {
            Some(n) => n,
            None => {
                return Err(corrupt("chunked state without max_key_elements"));
            },
        };
        let chunk_size: usize = if max < state.remaining {
            max
        } else {
            state.remaining
        };
        let value = match self.cursor.read_n_elements(state.type_code, chunk_size) {
            Ok(v) => v,
            Err(e) => {
                return Err(e);
            },
        };
        let entry = RdbEntry {
            db: state.db,
            key: bytes::copy_bytes(&state.key),
            value,
            type_code: state.type_code,
            expiry_ms: state.expiry_ms,
            lru_idle_secs: state.lru_idle_secs,
            lfu_frequency: state.lfu_frequency,
            total_elements: Some(state.total_count as u64),
            element_offset: Some(state.element_offset),
        };
        if chunk_size < state.remaining {
            state.remaining = state.remaining - chunk_size;
            state.element_offset = state.element_offset + chunk_size as u64;
            self.chunked = Some(state);
        }
        Ok(entry)
    }

    /// Takes one step. `None` is the end of the file.
    fn next_inner(&mut self) -> (r: Result<Option<Step>, RdbError>)
        requires
            old(self).cursor.ready(),
            old(self).state().valid(),
            !old(self).finished,
        ensures
            final(self).cursor.ready(),
            match r {
                Ok(None) => step(old(self).state()) == (StepV::End, final(self).state().ended()),
                Ok(Some(Step::Entry(e))) => step(old(self).state()) == (
                    StepV::Entry(e@),
                    final(self).state(),
                ),
                Ok(Some(Step::Unsupported(t))) => step(old(self).state()) == (
                    StepV::Unsupported(t),
                    final(self).state(),
                ),
                Err(e) => step(old(self).state()) == (
                    StepV::Fail(e@),
                    final(self).state().ended(),
                ),
            },
    {
        proof {
            reveal(step);
        }
        if self.chunked.is_some() {
            return match self.read_chunk() {
                Ok(e) => Ok(Some(Step::Entry(e))),
                Err(e) => Err(e),
            };
        }
        loop
            invariant
                self.cursor.ready(),
                self.state().valid(),
                self.chunked is None,
                old(self).chunked is None,
                !self.finished,
                scan(self.state()) == step(old(self).state()),
            decreases self.state().source.bytes.len() - self.state().pos,
        {
            let b = match self.cursor.read_u8() {
                Ok(b) => b,
                Err(e) => {
                    return Err(e);
                },
            };
            if b == RDB_OPCODE_EOF {
                return match self.finish() {
                    Ok(_) => Ok(None),
                    Err(e) => Err(e),
                };
            }
            if b == RDB_OPCODE_FUNCTION_PRE_GA {
                return Err(corrupt("FUNCTION_PRE_GA opcode is not supported"));
            }
            if opcodes::is_object_type(b) {
                return match self.read_entry(b) {
                    Ok(s) => Ok(Some(s)),
                    Err(e) => Err(e),
                };
            }
            if b < RDB_OPCODE_SLOT_IMPORT {
                let message = join2("unexpected byte 0x", hex_string(b as u64, 2).as_str()).concat(
                    " in opcode position",
                );
                return Err(RdbError::CorruptData(message));
            }
            proof {
                lemma_directive_moves_on(self.state(), b);
            }
            match self.run_directive(b) {
                Ok(_) => {},
                Err(e) => {
                    return Err(e);
                },
            }
        }
    }

    /// The next entry, or `None` at the end of the file. A key of an unsupported type gives
    /// `UnknownType`, and reading goes on behind it; any other error is the last item. After the
    /// last item nothing more is read from the source.
    pub fn next(&mut self) -> (r: Option<Result<RdbEntry, RdbError>>)
        requires
            old(self).valid(),
        ensures
            final(self).valid(),
            final(self)@.finished == match r {
                None => true,
                Some(Ok(_)) => false,
                Some(Err(e)) => !(e is UnknownType),
            },
            if old(self)@.finished {
                r is None && *final(self) == *old(self)
            } else {
                let (st, after) = step(old(self)@);
                &&& final(self)@ == after
                &&& match st {
                    StepV::Entry(e) => r matches Some(Ok(x)) && x@ == e,
                    StepV::Unsupported(t) => r matches Some(Err(x)) && x@ == RdbErrorV::UnknownType(
                        t,
                    ),
                    StepV::End => r is None,
                    StepV::Fail(e) => r matches Some(Err(x)) && x@ == e,
                }
            },
    {
        if self.finished {
            return None;
        }
        proof {
            law_step(self.state());
            law_failures_are_known(self.state());
        }
        match self.next_inner() {
            Ok(None) => {
                self.finished = true;
                None
            },
            Ok(Some(Step::Entry(e))) => Some(Ok(e)),
            Ok(Some(Step::Unsupported(t))) => Some(Err(RdbError::UnknownType(t))),
            Err(e) => {
                self.finished = true;
                Some(Err(e))
            },
        }
    }
}

impl<R: ByteSource> RdbReader<R> {
    /// The next entry, as [`next`](Self::next) gives it, seen from all that there is to come.
    pub(crate) fn advance(&mut self) -> (r: Option<Result<RdbEntry, RdbError>>)
        requires
            old(self).valid(),
        ensures
            final(self).valid(),
            old(self)@.finished ==> *final(self) == *old(self),
            drained(final(self)@) == drained(old(self)@),
            match r {
                None => {
                    &&& upcoming_from(old(self)@).len() == 0
                    &&& upcoming_from(final(self)@).len() == 0
                    &&& final(self)@ == drained(old(self)@)
                },
                Some(x) => {
                    &&& upcoming_from(old(self)@).len() > 0
                    &&& item_of(x) == upcoming_from(old(self)@)[0]
                    &&& upcoming_from(final(self)@) == upcoming_from(old(self)@).drop_first()
                    &&& x matches Err(e) ==> e is UnknownType || final(self)@ == drained(old(self)@)
                },
            },
    {
        proof {
            reveal(upcoming_from);
            reveal(drained);
            if !self@.finished {
                law_step(self@);
                let rest = upcoming_from(step(self@).1);
                assert(forall|x: EntryItem| (#[trigger] (seq![x] + rest)).drop_first() == rest);
            }
        }
        self.next()
    }
}

impl<R: ByteSource> EntrySource for RdbReader<R> {
    open spec fn valid(&self) -> bool {
        self@.valid() && self.ready()
    }

    open spec fn upcoming(&self) -> Seq<EntryItem> {
        upcoming_from(self@)
    }

    fn next_entry(&mut self) -> (r: Option<Result<RdbEntry, RdbError>>) {
        self.advance()
    }
}

// ---- Laws ----

/// An expiry, idle time or frequency belongs to the key that follows it, and to no other:
/// none is left after an entry, nor after a key that is passed over.
pub proof fn law_nothing_leaks(r: ReaderV)
    requires
        r.valid(),
    ensures
        step(r).0 is Entry || step(r).0 is Unsupported ==> step(r).1.nothing_waits(),
{
    reveal(step);
    if r.chunked is None {
        lemma_nothing_leaks(r);
    }
}

proof fn lemma_nothing_leaks(r: ReaderV)
    ensures
        scan(r).0 is Entry || scan(r).0 is Unsupported ==> scan(r).1.nothing_waits(),
    decreases r.source.bytes.len() - r.pos,
{
    reveal(key_step);
    if let Ok((b, q)) = wire::byte(r.source, r.pos) {
        if is_directive(b) {
            lemma_directive_moves_on(r.at(q), b);
            if let Ok(r2) = directive(r.at(q), b) {
                lemma_nothing_leaks(r2);
            }
        }
    }
}

/// What a step yields is the first of all that is going to be yielded, and the rest is what
/// comes after it; after the end, or after a failure, nothing comes.
pub proof fn law_steps_in_order(r: ReaderV)
    requires
        r.valid(),
        !r.finished,
    ensures
        ({
            let (st, after) = step(r);
            match st {
                StepV::Entry(e) => upcoming_from(r) == seq![Ok::<RdbEntryV, RdbErrorV>(e)]
                    + upcoming_from(after),
                StepV::Unsupported(t) => upcoming_from(r) == seq![
                    Err::<RdbEntryV, RdbErrorV>(RdbErrorV::UnknownType(t)),
                ] + upcoming_from(after),
                StepV::Fail(e) => upcoming_from(r) == seq![Err::<RdbEntryV, RdbErrorV>(e)]
                    && upcoming_from(after).len() == 0,
                StepV::End => upcoming_from(r).len() == 0 && upcoming_from(after).len() == 0,
            }
        }),
{
    law_step(r);
    reveal(upcoming_from);
}

/// An error other than that for an unsupported type is the last item.
pub proof fn law_errors_are_last(r: ReaderV, i: int)
    requires
        r.valid(),
        0 <= i < upcoming_from(r).len(),
        upcoming_from(r)[i] is Err,
        !(upcoming_from(r)[i]->Err_0 is UnknownType),
    ensures
        i == upcoming_from(r).len() - 1,
    decreases r.source.bytes.len() - r.pos,
{
    reveal(upcoming_from);
    let (st, r2) = step(r);
    law_step(r);
    match st {
        StepV::Entry(e) => {
            let rest = upcoming_from(r2);
            assert(i > 0 ==> (seq![Ok::<RdbEntryV, RdbErrorV>(e)] + rest)[i] == rest[i - 1]);
            law_errors_are_last(r2, i - 1);
        },
        StepV::Unsupported(t) => {
            let rest = upcoming_from(r2);
            let x = Err::<RdbEntryV, RdbErrorV>(RdbErrorV::UnknownType(t));
            assert(i > 0 ==> (seq![x] + rest)[i] == rest[i - 1]);
            law_errors_are_last(r2, i - 1);
        },
        _ => {},
    }
}

/// The number of elements of a collection.
pub open spec fn element_count(v: RdbValueV) -> nat {
    match v {
        RdbValueV::List(x) => x.len(),
        RdbValueV::UnorderedSet(x) => x.len(),
        RdbValueV::SortedSet(x) => x.len(),
        RdbValueV::Hash(x) => x.len(),
        _ => 0,
    }
}

proof fn lemma_repeat_count<T>(f: spec_fn(int) -> Parsed<T>, p: int, n: nat)
    ensures
        wire::repeat(f, p, n) matches Ok((v, _)) ==> v.len() == n,
    decreases n,
{
    if n > 0 {
        lemma_repeat_count(f, p, (n - 1) as nat);
    }
}

/// As many elements are read as are asked for.
pub proof fn law_element_count(s: SourceV, t: u8, p: int, n: nat)
    ensures
        values::elements(s, t, p, n) matches Ok((v, _)) ==> element_count(v) == n,
{
    reveal(values::elements);
    lemma_repeat_count(values::string_fn(s), p, n);
    lemma_repeat_count(values::member_fn(s, t == opcodes::RDB_TYPE_ZSET_2), p, n);
    lemma_repeat_count(values::field_fn(s, t == opcodes::RDB_TYPE_HASH_2), p, n);
}

/// The chunks of a key follow on each other: each starts at the offset where the one before
/// ended, all state the same total, and the last ends there.
pub proof fn law_chunks_follow_on(r: ReaderV)
    requires
        r.valid(),
        r.chunked is Some,
    ensures
        ({
            let c = r.chunked->Some_0;
            step(r).0 matches StepV::Entry(e) ==> {
                &&& e.key == c.key
                &&& e.total_elements == Some(c.total)
                &&& e.element_offset == Some(c.offset)
                &&& 0 < element_count(e.value) <= c.remaining
                &&& match step(r).1.chunked {
                    Some(d) => d == ChunkV {
                        offset: (c.offset + element_count(e.value)) as u64,
                        remaining: (c.remaining - element_count(e.value)) as nat,
                        ..c
                    },
                    None => c.offset + element_count(e.value) == c.total,
                }
            }
        }),
{
    reveal(step);
    let c = r.chunked->Some_0;
    if let Some(max) = r.max {
        let n = if max < c.remaining {
            max
        } else {
            c.remaining
        };
        law_element_count(r.source, c.type_code, r.pos, n);
    }
}

/// With chunking on, an entry of a plain collection never has more elements than the limit.
pub proof fn law_entries_keep_the_limit(r: ReaderV)
    requires
        r.valid(),
        r.max is Some,
    ensures
        step(r).0 matches StepV::Entry(e) ==> (values::plain_type(e.type_code) ==> element_count(
            e.value,
        ) <= r.max->Some_0),
{
    reveal(step);
    match r.chunked {
        Some(c) => {
            let max = r.max->Some_0;
            let n = if max < c.remaining {
                max
            } else {
                c.remaining
            };
            law_element_count(r.source, c.type_code, r.pos, n);
        },
        None => {
            lemma_scan_keeps_the_limit(r);
        },
    }
}

proof fn lemma_scan_keeps_the_limit(r: ReaderV)
    requires
        r.max is Some,
    ensures
        scan(r).0 matches StepV::Entry(e) ==> (values::plain_type(e.type_code) ==> element_count(
            e.value,
        ) <= r.max->Some_0),
    decreases r.source.bytes.len() - r.pos,
{
    reveal(key_step);
    if let Ok((b, q)) = wire::byte(r.source, r.pos) {
        if is_directive(b) {
            lemma_directive_moves_on(r.at(q), b);
            if let Ok(r2) = directive(r.at(q), b) {
                lemma_scan_keeps_the_limit(r2);
            }
        } else if opcodes::object_type(b) {
            if let Ok((_, q2)) = wire::string(r.source, q) {
                if let Ok((n, q3)) = wire::size(r.source, q2, "element count"@) {
                    let max = r.max->Some_0;
                    law_element_count(
                        r.source,
                        b,
                        q3,
                        if n > max {
                            max
                        } else {
                            n
                        },
                    );
                }
            }
        }
    }
}

/// The elements of a key, read in chunks of at most `max`.
pub open spec fn in_chunks(s: SourceV, t: u8, p: int, n: nat, max: nat) -> Parsed<RdbValueV>
    decreases n,
{
    if n <= max || max == 0 {
        values::elements(s, t, p, n)
    } else {
        match values::elements(s, t, p, max) {
            Err(e) => Err(e),
            Ok((v, q)) => match in_chunks(s, t, q, (n - max) as nat, max) {
                Err(e) => Err(e),
                Ok((w, q2)) => Ok((values::joined(v, w), q2)),
            },
        }
    }
}

/// Whatever the limit, the chunks of a key join to the key as it is read without chunking,
/// and the key ends at the same place.
pub proof fn law_chunking_keeps_the_key(s: SourceV, t: u8, p: int, n: nat, max: nat)
    requires
        values::plain_type(t),
        max > 0,
    ensures
        in_chunks(s, t, p, n, max) == values::elements(s, t, p, n),
    decreases n,
{
    if n > max {
        values::law_chunks_join(s, t, p, max, (n - max) as nat);
        if let Ok((_, q)) = values::elements(s, t, p, max) {
            law_chunking_keeps_the_key(s, t, q, (n - max) as nat, max);
        }
    }
}

/// The header of a reader is one that is accepted.
pub proof fn law_opened_header(s: SourceV)
    ensures
        opened(s) matches Ok(r) ==> version_accepted(r.header.magic, r.header.version as nat),
{
}

/// A string key that was written is the entry that is read: in the database that was
/// selected, with the expiry, idle time and frequency that came before it, and nothing of
/// them left for the next key.
pub proof fn law_string_key_reads_back(r: ReaderV, key: Seq<u8>, value: Seq<u8>)
    requires
        r.valid(),
        r.chunked is None,
        key.len() <= wire::MAX_ALLOC_BYTES,
        value.len() <= wire::MAX_ALLOC_BYTES,
        wire::stands_at(
            r.source,
            r.pos,
            seq![opcodes::RDB_TYPE_STRING] + wire::string_text(key) + wire::string_text(value),
        ),
    ensures
        step(r) == (
            StepV::Entry(
                entry_of(r, opcodes::RDB_TYPE_STRING, key, RdbValueV::String(value)),
            ),
            r.cleared().at(
                r.pos + 1 + wire::string_text(key).len() + wire::string_text(value).len(),
            ),
        ),
{
    let s = r.source;
    let k = wire::string_text(key);
    let v = wire::string_text(value);
    let all = seq![opcodes::RDB_TYPE_STRING] + k + v;
    let here = s.bytes.subrange(r.pos, r.pos + all.len());
    assert(here[0] == s.bytes[r.pos]);
    let q = r.pos + 1;
    assert(s.bytes.subrange(q, q + k.len()) == k) by {
        assert(here.subrange(1, 1 + k.len() as int) == k);
        assert(here.subrange(1, 1 + k.len() as int) == s.bytes.subrange(q, q + k.len()));
    }
    wire::law_string_reads_back(s, q, key);
    let q2 = q + k.len();
    assert(s.bytes.subrange(q2, q2 + v.len()) == v) by {
        assert(here.skip(1 + k.len() as int) == v);
        assert(here.skip(1 + k.len() as int) == s.bytes.subrange(q2, q2 + v.len()));
    }
    wire::law_string_reads_back(s, q2, value);
    lemma_string_step(r, key, q2, value, q2 + v.len());
}

proof fn lemma_string_step(r: ReaderV, key: Seq<u8>, q2: int, value: Seq<u8>, q3: int)
    requires
        r.chunked is None,
        wire::byte(r.source, r.pos) == Ok::<(u8, int), RdbErrorV>(
            (opcodes::RDB_TYPE_STRING, r.pos + 1),
        ),
        wire::string(r.source, r.pos + 1) == Ok::<(Seq<u8>, int), RdbErrorV>((key, q2)),
        wire::string(r.source, q2) == Ok::<(Seq<u8>, int), RdbErrorV>((value, q3)),
    ensures
        step(r) == (
            StepV::Entry(
                entry_of(r, opcodes::RDB_TYPE_STRING, key, RdbValueV::String(value)),
            ),
            r.cleared().at(q3),
        ),
{
    reveal(key_step);
    reveal(step);
    assert(values::value(r.source, opcodes::RDB_TYPE_STRING, q2) == Ok::<
        (Option<RdbValueV>, int),
        RdbErrorV,
    >((Some(RdbValueV::String(value)), q3)));
    assert(!values::plain_type(opcodes::RDB_TYPE_STRING));
}

} // verus!
