//! The primitives of the RDB format: bytes, lengths, strings, and scores.

use crate::bytes;
use crate::crc64;
use crate::crc64::Crc64Table;
use crate::double;
use crate::lzf;
use crate::opcodes::{RDB_32BITLEN, RDB_64BITLEN, RDB_ENC_INT16, RDB_ENC_INT32, RDB_ENC_INT8, RDB_ENC_LZF};
use crate::text;
use crate::text::{decimal_i64_bytes, hex_string, join2, with_number};
use crate::types::{corrupt, Double, IoError, IoErrorV, RdbError, RdbErrorV};
use crate::utf8;
use vstd::prelude::*;

verus! {

/// Largest length that a single read may ask for: 512 MiB.
pub const MAX_ALLOC_BYTES: u64 = 536_870_912;

/// The bytes of an input, and what a read past the last of them reports: the end of the input,
/// or the failure that stopped the reading.
#[verifier::ext_equal]
pub struct SourceV {
    pub bytes: Seq<u8>,
    pub end: IoErrorV,
}

impl SourceV {
    /// What is left behind the first `n` bytes.
    pub open spec fn after(self, n: int) -> SourceV {
        SourceV { bytes: self.bytes.skip(n), ..self }
    }
}

/// Something that bytes are read from, front to back.
pub trait ByteSource: Sized {
    /// What is still to be read.
    spec fn unread(&self) -> SourceV;

    /// The next bytes, at least one of them, or what is reported where there are none.
    fn next_bytes(&mut self) -> (r: Result<Vec<u8>, IoError>)
        ensures
            match r {
                Ok(v) => {
                    &&& v@.len() > 0
                    &&& old(self).unread().bytes == v@ + final(self).unread().bytes
                    &&& final(self).unread().end == old(self).unread().end
                },
                Err(e) => {
                    &&& old(self).unread().bytes.len() == 0
                    &&& e@ == old(self).unread().end
                    &&& final(self).unread() == old(self).unread()
                },
            },
    ;
}

/// Bytes in memory.
#[derive(Debug)]
pub struct Source {
    bytes: Vec<u8>,
    end: IoError,
}

impl Source {
    /// A source of the given bytes, and nothing after them.
    pub fn new(bytes: Vec<u8>) -> (r: Self)
        ensures
            r.unread() == (SourceV { bytes: bytes@, end: IoErrorV::UnexpectedEof }),
    {
        Source { bytes, end: IoError::UnexpectedEof }
    }

    /// A source of the given bytes, with what a read past the last of them reports.
    pub fn ending(bytes: Vec<u8>, end: IoError) -> (r: Self)
        ensures
            r.unread() == (SourceV { bytes: bytes@, end: end@ }),
    {
        Source { bytes, end }
    }
}

impl ByteSource for Source {
    closed spec fn unread(&self) -> SourceV {
        SourceV { bytes: self.bytes@, end: self.end@ }
    }

    fn next_bytes(&mut self) -> (r: Result<Vec<u8>, IoError>) {
        if self.bytes.len() == 0 {
            return Err(
                match &self.end {
                    IoError::UnexpectedEof => IoError::UnexpectedEof,
                    IoError::Failed(s) => IoError::Failed(s.clone()),
                },
            );
        }
        let mut out: Vec<u8> = Vec::new();
        out.append(&mut self.bytes);
        assert(out@ == old(self).bytes@);
        assert(old(self).bytes@ == out@ + self.bytes@);
        Ok(out)
    }
}

/// The result of reading at a place: what was read and the place after it, or an error.
pub type Parsed<T> = Result<(T, int), RdbErrorV>;

/// The `n` bytes at `p`.
pub open spec fn take(s: SourceV, p: int, n: int) -> Parsed<Seq<u8>> {
    if 0 <= p && 0 <= n && p + n <= s.bytes.len() {
        Ok((s.bytes.subrange(p, p + n), p + n))
    } else {
        Err(RdbErrorV::Io(s.end))
    }
}

/// The byte at `p`.
pub open spec fn byte(s: SourceV, p: int) -> Parsed<u8> {
    if 0 <= p < s.bytes.len() {
        Ok((s.bytes[p], p + 1))
    } else {
        Err(RdbErrorV::Io(s.end))
    }
}

/// The signed 32-bit little-endian integer at `p`.
pub open spec fn i32_le(s: SourceV, p: int) -> Parsed<int> {
    match take(s, p, 4) {
        Ok((b, q)) => Ok((bytes::twos(bytes::le32(b, 0), 0x8000_0000), q)),
        Err(e) => Err(e),
    }
}

/// The unsigned 64-bit little-endian integer at `p`.
pub open spec fn u64_le(s: SourceV, p: int) -> Parsed<u64> {
    match take(s, p, 8) {
        Ok((b, q)) => Ok((bytes::le64(b, 0) as u64, q)),
        Err(e) => Err(e),
    }
}

/// The signed 64-bit little-endian integer at `p`.
pub open spec fn i64_le(s: SourceV, p: int) -> Parsed<i64> {
    match take(s, p, 8) {
        Ok((b, q)) => Ok((bytes::twos(bytes::le64(b, 0), 0x8000_0000_0000_0000) as i64, q)),
        Err(e) => Err(e),
    }
}

/// What a length field holds: a length, or the kind of a specially encoded string.
#[derive(Debug, Clone, Copy, PartialEq, Eq, Structural)]
pub enum LenResult {
    /// A plain length.
    Len(u64),
    /// A special encoding.
    Special(u8),
}

/// The length field at `p`. The top two bits of its first byte tell its form: 6 bits of
/// length, 14 bits, the 32 or 64 bits that follow, or a special encoding.
pub open spec fn length(s: SourceV, p: int) -> Parsed<LenResult> {
    match byte(s, p) {
        Err(e) => Err(e),
        Ok((first, q)) => if first < 0x40 {
            Ok((LenResult::Len(first as u64), q))
        } else if first < 0x80 {
            match byte(s, q) {
                Ok((second, q2)) => Ok(
                    (LenResult::Len(((first - 0x40) * 256 + second) as u64), q2),
                ),
                Err(e) => Err(e),
            }
        } else if first == RDB_32BITLEN {
            match take(s, q, 4) {
                Ok((b, q2)) => Ok((LenResult::Len(bytes::be32(b, 0) as u64), q2)),
                Err(e) => Err(e),
            }
        } else if first == RDB_64BITLEN {
            match take(s, q, 8) {
                Ok((b, q2)) => Ok((LenResult::Len(bytes::be64(b, 0) as u64), q2)),
                Err(e) => Err(e),
            }
        } else if first < 0xc0 {
            Err(
                RdbErrorV::CorruptData(
                    "unknown length encoding byte: 0x"@ + text::hex(first as nat, 2),
                ),
            )
        } else {
            Ok((LenResult::Special((first - 0xc0) as u8), q))
        },
    }
}

/// The plain length at `p`.
pub open spec fn plain_length(s: SourceV, p: int) -> Parsed<u64> {
    match length(s, p) {
        Ok((LenResult::Len(n), q)) => Ok((n, q)),
        Ok((LenResult::Special(_), _)) => Err(
            RdbErrorV::CorruptData("expected plain length, got special encoding"@),
        ),
        Err(e) => Err(e),
    }
}

/// The error for a length over the limit.
pub open spec fn limit_error(n: int, ctx: Seq<char>) -> RdbErrorV {
    RdbErrorV::CorruptData(
        ctx + (": length "@ + text::dec(n) + " exceeds 536870912 byte limit"@),
    )
}

/// The plain length at `p`, if it is within the limit.
pub open spec fn size(s: SourceV, p: int, ctx: Seq<char>) -> Parsed<nat> {
    match plain_length(s, p) {
        Ok((n, q)) => if n > MAX_ALLOC_BYTES {
            Err(limit_error(n as int, ctx))
        } else {
            Ok((n as nat, q))
        },
        Err(e) => Err(e),
    }
}

/// The LZF-compressed string at `p`: its two lengths and the compressed bytes.
pub open spec fn lzf_string(s: SourceV, p: int) -> Parsed<Seq<u8>> {
    match size(s, p, "LZF compressed length"@) {
        Err(e) => Err(e),
        Ok((packed, q)) => match size(s, q, "LZF uncompressed length"@) {
            Err(e) => Err(e),
            Ok((unpacked, q2)) => match take(s, q2, packed as int) {
                Err(e) => Err(e),
                Ok((data, q3)) => match lzf::decompressed(data, unpacked as int) {
                    Err(e) => Err(e),
                    Ok(out) => Ok((out, q3)),
                },
            },
        },
    }
}

/// The string at `p`: plain bytes, an integer (which stands for its decimal form), or
/// compressed bytes.
pub open spec fn string(s: SourceV, p: int) -> Parsed<Seq<u8>> {
    match length(s, p) {
        Err(e) => Err(e),
        Ok((LenResult::Len(n), q)) => if n > MAX_ALLOC_BYTES {
            Err(limit_error(n as int, "string"@))
        } else {
            take(s, q, n as int)
        },
        Ok((LenResult::Special(kind), q)) => if kind == RDB_ENC_INT8 {
            match byte(s, q) {
                Ok((b, q2)) => Ok((text::decimal_int(bytes::twos(b as int, 0x80)), q2)),
                Err(e) => Err(e),
            }
        } else if kind == RDB_ENC_INT16 {
            match take(s, q, 2) {
                Ok((b, q2)) => Ok(
                    (text::decimal_int(bytes::twos(bytes::le16(b, 0), 0x8000)), q2),
                ),
                Err(e) => Err(e),
            }
        } else if kind == RDB_ENC_INT32 {
            match i32_le(s, q) {
                Ok((n, q2)) => Ok((text::decimal_int(n), q2)),
                Err(e) => Err(e),
            }
        } else if kind == RDB_ENC_LZF {
            lzf_string(s, q)
        } else {
            Err(
                RdbErrorV::CorruptData(
                    "unknown string encoding sub-type: "@ + text::dec(kind as int) + ""@,
                ),
            )
        },
    }
}

/// The score at `p` in text form: a length byte and as many characters, or one of three
/// length bytes that stand for a NaN and the infinities.
pub open spec fn text_score(s: SourceV, p: int) -> Parsed<Double> {
    match byte(s, p) {
        Err(e) => Err(e),
        Ok((n, q)) => if n == 255 {
            Ok((Double { bits: 0xfff0_0000_0000_0000 }, q))
        } else if n == 254 {
            Ok((Double { bits: 0x7ff0_0000_0000_0000 }, q))
        } else if n == 253 {
            Ok((Double { bits: 0x7ff8_0000_0000_0000 }, q))
        } else {
            match take(s, q, n as int) {
                Err(e) => Err(e),
                Ok((b, q2)) => if !vstd::utf8::valid_utf8(b) {
                    Err(RdbErrorV::CorruptData("invalid UTF-8 in double value"@))
                } else {
                    match double::number_text(vstd::utf8::decode_utf8(b)) {
                        Some(d) => Ok((d, q2)),
                        None => Err(
                            RdbErrorV::CorruptData(
                                "invalid double string: "@ + vstd::utf8::decode_utf8(b),
                            ),
                        ),
                    }
                },
            }
        },
    }
}

/// The score at `p` in binary form.
pub open spec fn binary_score(s: SourceV, p: int) -> Parsed<Double> {
    match u64_le(s, p) {
        Ok((bits, q)) => Ok((Double { bits }, q)),
        Err(e) => Err(e),
    }
}

/// Whether a successful read at `p` ends after `p` and within the input.
pub open spec fn moves_on<T>(s: SourceV, p: int, r: Parsed<T>) -> bool {
    r matches Ok((_, q)) ==> p < q <= s.bytes.len()
}

pub proof fn lemma_length_moves_on(s: SourceV, p: int)
    ensures
        moves_on(s, p, length(s, p)),
        moves_on(s, p, plain_length(s, p)),
        forall|ctx: Seq<char>| moves_on(s, p, #[trigger] size(s, p, ctx)),
{
}

pub proof fn lemma_string_moves_on(s: SourceV, p: int)
    ensures
        moves_on(s, p, string(s, p)),
{
}

/// `n` readings in a row.
pub open spec fn repeat<T>(f: spec_fn(int) -> Parsed<T>, p: int, n: nat) -> Parsed<Seq<T>>
    decreases n,
{
    if n == 0 {
        Ok((Seq::empty(), p))
    } else {
        match repeat(f, p, (n - 1) as nat) {
            Err(e) => Err(e),
            Ok((v, q)) => match f(q) {
                Err(e) => Err(e),
                Ok((x, q2)) => Ok((v.push(x), q2)),
            },
        }
    }
}

/// Once a reading in a row fails, the row fails in the same way however long it is.
pub proof fn lemma_repeat_fails<T>(f: spec_fn(int) -> Parsed<T>, p: int, i: nat, n: nat)
    requires
        i <= n,
        repeat(f, p, i) is Err,
    ensures
        repeat(f, p, n) == repeat(f, p, i),
    decreases n - i,
{
    if i < n {
        lemma_repeat_fails(f, p, i, (n - 1) as nat);
    }
}

/// A row of readings is a shorter row, and the rest of it from where that one ends.
pub proof fn lemma_repeat_split<T>(f: spec_fn(int) -> Parsed<T>, p: int, a: nat, b: nat)
    ensures
        repeat(f, p, a + b) == (match repeat(f, p, a) {
            Err(e) => Err::<(Seq<T>, int), RdbErrorV>(e),
            Ok((v, q)) => match repeat(f, q, b) {
                Err(e) => Err(e),
                Ok((w, q2)) => Ok((v + w, q2)),
            },
        }),
    decreases b,
{
    if b == 0 {
        if let Ok((v, q)) = repeat(f, p, a) {
            assert(v + Seq::<T>::empty() == v);
        }
    } else {
        lemma_repeat_split(f, p, a, (b - 1) as nat);
        if let Ok((v, q)) = repeat(f, p, a) {
            if let Ok((w, q2)) = repeat(f, q, (b - 1) as nat) {
                if let Ok((x, q3)) = f(q2) {
                    assert((v + w).push(x) == v + w.push(x));
                }
            }
        }
    }
}

/// A source, with the bytes of it that are at hand and the checksum of those that have been
/// read.
struct CrcReader<R: ByteSource> {
    input: R,
    buffer: Vec<u8>,
    start: usize,
    crc: u64,
    table: Crc64Table,
    whole: Ghost<SourceV>,
    pos: Ghost<int>,
}

impl<R: ByteSource> CrcReader<R> {
    /// What is still to be read: what is at hand, and what comes after it.
    spec fn unread(&self) -> SourceV {
        SourceV {
            bytes: self.buffer@.skip(self.start as int) + self.input.unread().bytes,
            end: self.input.unread().end,
        }
    }

    /// Whether the reader stands at the place, and the checksum covers what is before it.
    spec fn in_step(&self) -> bool {
        &&& 0 <= self.pos@ <= self.whole@.bytes.len()
        &&& self.start <= self.buffer@.len()
        &&& self.unread() == self.whole@.after(self.pos@)
        &&& self.crc == crc64::crc64(0, self.whole@.bytes.take(self.pos@))
    }

    /// Gets at least `n` bytes to be at hand. Where they are, the source is left alone.
    fn fill(&mut self, n: usize) -> (r: Result<(), IoError>)
        requires
            old(self).in_step(),
        ensures
            final(self).in_step(),
            final(self).whole == old(self).whole,
            final(self).pos == old(self).pos,
            match r {
                Ok(_) => n <= final(self).buffer@.len() - final(self).start,
                Err(e) => n > old(self).unread().bytes.len() && e@ == old(self).whole@.end,
            },
            n <= old(self).buffer@.len() - old(self).start ==> final(self).input == old(self).input,
    {
        if n <= self.buffer.len() - self.start {
            return Ok(());
        }
        let ghost rest = self.unread();
        self.buffer = bytes::copy_range(self.buffer.as_slice(), self.start, self.buffer.len());
        self.start = 0;
        assert(self.buffer@.skip(0) == self.buffer@);
        while self.buffer.len() < n
            invariant
                self.in_step(),
                self.start == 0,
                self.unread() == rest,
                rest == old(self).unread(),
                self.whole == old(self).whole,
                self.pos == old(self).pos,
            decreases self.input.unread().bytes.len(),
        {
            let ghost before = self.buffer@;
            let ghost later = self.input.unread();
            match self.input.next_bytes() {
                Ok(mut v) => {
                    let ghost more = v@;
                    self.buffer.append(&mut v);
                    proof {
                        assert(self.buffer@ == before + more);
                        assert(before.skip(0) == before);
                        assert(self.buffer@.skip(0) == self.buffer@);
                        assert(before + later.bytes == self.buffer@ + self.input.unread().bytes);
                        assert(self.unread() == rest);
                    }
                },
                Err(e) => {
                    assert(self.buffer@.skip(0) == self.buffer@);
                    return Err(e);
                },
            }
        }
        Ok(())
    }

    /// Gets the next byte to be at hand, and gives it.
    fn first(&mut self) -> (r: Result<u8, IoError>)
        requires
            old(self).in_step(),
        ensures
            final(self).in_step(),
            final(self).whole == old(self).whole,
            final(self).pos == old(self).pos,
            match r {
                Ok(b) => {
                    &&& final(self).start < final(self).buffer@.len()
                    &&& byte(old(self).whole@, old(self).pos@) == Ok::<(u8, int), RdbErrorV>(
                        (b, old(self).pos@ + 1),
                    )
                },
                Err(e) => byte(old(self).whole@, old(self).pos@) == Err::<(u8, int), RdbErrorV>(
                    RdbErrorV::Io(e@),
                ),
            },
    {
        proof {
            let rest = self.unread().bytes;
            assert(rest.len() == self.whole@.bytes.len() - self.pos@);
        }
        match self.fill(1) {
            Ok(_) => {
                proof {
                    let rest = self.unread().bytes;
                    assert(rest[0] == self.buffer@[self.start as int]);
                    assert(rest[0] == self.whole@.bytes[self.pos@]);
                }
                Ok(self.buffer[self.start])
            },
            Err(e) => Err(e),
        }
    }

    /// Takes `n` of the bytes at hand for read.
    fn advance(&mut self, n: usize)
        requires
            old(self).in_step(),
            n <= old(self).buffer@.len() - old(self).start,
        ensures
            final(self).in_step(),
            final(self).whole == old(self).whole,
            final(self).pos@ == old(self).pos@ + n,
            final(self).pos@ <= final(self).whole@.bytes.len(),
    {
        let ghost all = self.whole@.bytes;
        let ghost p = self.pos@;
        let held: usize = self.buffer.len();
        assert(self.start + n <= held);
        let next: usize = self.start + n;
        let passed = vstd::slice::slice_subrange(self.buffer.as_slice(), self.start, next);
        proof {
            let rest = self.unread().bytes;
            assert(rest == all.skip(p));
            assert(rest.len() == all.len() - p);
            assert(passed@ == rest.take(n as int));
            assert(passed@ == all.subrange(p, p + n));
            assert(all.take(p) + passed@ == all.take(p + n));
            crc64::law_crc64_append(0, all.take(p), passed@);
            assert(rest.skip(n as int) == self.buffer@.skip(next as int)
                + self.input.unread().bytes);
            assert(rest.skip(n as int) == all.skip(p + n));
        }
        self.crc = self.table.update(self.crc, passed);
        self.start = next;
        self.pos = Ghost(p + n);
    }
}

/// A place in a source, from which the next bytes are read.
pub struct Cursor<R: ByteSource> {
    reader: CrcReader<R>,
}

/// A reading, by what it holds, and the place where the cursor stands after it.
pub open spec fn reading<T, V>(r: Result<T, RdbError>, f: spec_fn(T) -> V, pos: int) -> Parsed<V> {
    match r {
        Ok(v) => Ok((f(v), pos)),
        Err(e) => Err(e@),
    }
}

impl<R: ByteSource> Cursor<R> {
    /// All that there was to be read at the start.
    pub closed spec fn source(&self) -> SourceV {
        self.reader.whole@
    }

    /// How much of it has been read.
    pub closed spec fn pos(&self) -> int {
        self.reader.pos@
    }

    /// Whether the source stands at the place, and the checksum covers what is before it.
    pub closed spec fn ready(&self) -> bool {
        self.reader.in_step()
    }

    /// A cursor at the start of what a source has to be read.
    pub fn new(source: R) -> (r: Self)
        ensures
            r.ready(),
            r.source() == source.unread(),
            r.pos() == 0,
    {
        let ghost whole = source.unread();
        proof {
            assert(whole.bytes.skip(0) == whole.bytes);
            assert(Seq::<u8>::empty().skip(0) + whole.bytes == whole.bytes);
            assert(whole.bytes.take(0) == Seq::<u8>::empty());
        }
        Cursor {
            reader: CrcReader {
                input: source,
                buffer: Vec::new(),
                start: 0,
                crc: 0,
                table: Crc64Table::new(),
                whole: Ghost(whole),
                pos: Ghost(0),
            },
        }
    }

    /// The checksum of all that has been read.
    pub fn checksum(&self) -> (r: u64)
        requires
            self.ready(),
        ensures
            r == crc64::crc64(0, self.source().bytes.take(self.pos())),
    {
        self.reader.crc
    }

    /// The next byte, the cursor staying where it is.
    pub fn peek(&mut self) -> (r: Result<u8, RdbError>)
        requires
            old(self).ready(),
        ensures
            final(self).ready(),
            final(self).source() == old(self).source(),
            final(self).pos() == old(self).pos(),
            reading(r, |b: u8| b, old(self).pos() + 1) == byte(old(self).source(), old(self).pos()),
    {
        match self.reader.first() {
            Ok(b) => Ok(b),
            Err(e) => Err(RdbError::Io(e)),
        }
    }

    /// Reads one byte.
    pub fn read_u8(&mut self) -> (r: Result<u8, RdbError>)
        requires
            old(self).ready(),
        ensures
            final(self).ready(),
            final(self).source() == old(self).source(),
            reading(r, |b: u8| b, final(self).pos()) == byte(old(self).source(), old(self).pos()),
    {
        match self.reader.first() {
            Ok(b) => {
                self.reader.advance(1);
                Ok(b)
            },
            Err(e) => Err(RdbError::Io(e)),
        }
    }

    /// Reads the given number of bytes.
    pub fn read_exact_vec(&mut self, len: usize) -> (r: Result<Vec<u8>, RdbError>)
        requires
            old(self).ready(),
        ensures
            final(self).ready(),
            final(self).source() == old(self).source(),
            reading(r, |v: Vec<u8>| v@, final(self).pos()) == take(
                old(self).source(),
                old(self).pos(),
                len as int,
            ),
    {
        proof {
            assert(self.reader.unread().bytes.len() == self.source().bytes.len() - self.pos());
        }
        match self.reader.fill(len) {
            Ok(_) => {
                let start: usize = self.reader.start;
                let held: usize = self.reader.buffer.len();
                assert(start + len <= held);
                let v = bytes::copy_range(self.reader.buffer.as_slice(), start, start + len);
                proof {
                    let rest = self.reader.unread().bytes;
                    assert(v@ == rest.take(len as int));
                    assert(rest.len() == self.source().bytes.len() - self.pos());
                    assert(v@ == self.source().bytes.subrange(self.pos(), self.pos() + len));
                }
                self.reader.advance(len);
                Ok(v)
            },
            Err(e) => Err(RdbError::Io(e)),
        }
    }

    /// Reads a signed 32-bit little-endian number.
    pub fn read_i32_le(&mut self) -> (r: Result<i32, RdbError>)
        requires
            old(self).ready(),
        ensures
            final(self).ready(),
            final(self).source() == old(self).source(),
            reading(r, |n: i32| n as int, final(self).pos()) == i32_le(
                old(self).source(),
                old(self).pos(),
            ),
    {
        match self.read_exact_vec(4) {
            Ok(v) => Ok(bytes::signed32(bytes::get_le32(v.as_slice(), 0)) as i32),
            Err(e) => Err(e),
        }
    }

    /// Reads an unsigned 64-bit little-endian number.
    pub fn read_u64_le(&mut self) -> (r: Result<u64, RdbError>)
        requires
            old(self).ready(),
        ensures
            final(self).ready(),
            final(self).source() == old(self).source(),
            reading(r, |n: u64| n, final(self).pos()) == u64_le(
                old(self).source(),
                old(self).pos(),
            ),
    {
        match self.read_exact_vec(8) {
            Ok(v) => Ok(bytes::get_le64(v.as_slice(), 0)),
            Err(e) => Err(e),
        }
    }

    /// Reads a signed 64-bit little-endian number.
    pub fn read_i64_le(&mut self) -> (r: Result<i64, RdbError>)
        requires
            old(self).ready(),
        ensures
            final(self).ready(),
            final(self).source() == old(self).source(),
            reading(r, |n: i64| n, final(self).pos()) == i64_le(
                old(self).source(),
                old(self).pos(),
            ),
    {
        match self.read_exact_vec(8) {
            Ok(v) => Ok(bytes::signed64(bytes::get_le64(v.as_slice(), 0))),
            Err(e) => Err(e),
        }
    }

    /// Reads a length field: a plain length or a special encoding.
    pub fn read_length(&mut self) -> (r: Result<LenResult, RdbError>)
        requires
            old(self).ready(),
        ensures
            final(self).ready(),
            final(self).source() == old(self).source(),
            reading(r, |l: LenResult| l, final(self).pos()) == length(
                old(self).source(),
                old(self).pos(),
            ),
    {
        let first = match self.read_u8() {
            Ok(b) => b,
            Err(e) => {
                return Err(e);
            },
        };
        if first < 0x40 {
            return Ok(LenResult::Len(first as u64));
        }
        if first < 0x80 {
            return match self.read_u8() {
                Ok(second) => Ok(
                    LenResult::Len((first - 0x40) as u64 * 256 + second as u64),
                ),
                Err(e) => Err(e),
            };
        }
        if first == RDB_32BITLEN {
            return match self.read_exact_vec(4) {
                Ok(v) => Ok(LenResult::Len(bytes::get_be32(v.as_slice(), 0) as u64)),
                Err(e) => Err(e),
            };
        }
        if first == RDB_64BITLEN {
            return match self.read_exact_vec(8) {
                Ok(v) => Ok(LenResult::Len(bytes::get_be64(v.as_slice(), 0))),
                Err(e) => Err(e),
            };
        }
        if first < 0xc0 {
            return Err(
                RdbError::CorruptData(
                    join2(
                        "unknown length encoding byte: 0x",
                        hex_string(first as u64, 2).as_str(),
                    ),
                ),
            );
        }
        Ok(LenResult::Special(first - 0xc0))
    }

    /// Reads a plain length.
    pub fn read_length_value(&mut self) -> (r: Result<u64, RdbError>)
        requires
            old(self).ready(),
        ensures
            final(self).ready(),
            final(self).source() == old(self).source(),
            reading(r, |n: u64| n, final(self).pos()) == plain_length(
                old(self).source(),
                old(self).pos(),
            ),
    {
        match self.read_length() {
            Ok(LenResult::Len(n)) => Ok(n),
            Ok(LenResult::Special(_)) => Err(
                corrupt("expected plain length, got special encoding"),
            ),
            Err(e) => Err(e),
        }
    }

    /// Reads a plain length within the limit.
    pub fn read_size(&mut self, ctx: &str) -> (r: Result<usize, RdbError>)
        requires
            old(self).ready(),
        ensures
            final(self).ready(),
            final(self).source() == old(self).source(),
            reading(r, |n: usize| n as nat, final(self).pos()) == size(
                old(self).source(),
                old(self).pos(),
                ctx@,
            ),
            r matches Ok(n) ==> n <= MAX_ALLOC_BYTES,
    {
        match self.read_length_value() {
            Ok(n) => len_to_usize(n, ctx),
            Err(e) => Err(e),
        }
    }

    fn read_lzf(&mut self) -> (r: Result<Vec<u8>, RdbError>)
        requires
            old(self).ready(),
        ensures
            final(self).ready(),
            final(self).source() == old(self).source(),
            reading(r, |v: Vec<u8>| v@, final(self).pos()) == lzf_string(
                old(self).source(),
                old(self).pos(),
            ),
    {
        let packed = match self.read_size("LZF compressed length") {
            Ok(n) => n,
            Err(e) => {
                return Err(e);
            },
        };
        let unpacked = match self.read_size("LZF uncompressed length") {
            Ok(n) => n,
            Err(e) => {
                return Err(e);
            },
        };
        match self.read_exact_vec(packed) {
            Ok(data) => lzf::decompress(data.as_slice(), unpacked),
            Err(e) => Err(e),
        }
    }

    /// Reads a string: plain bytes, an integer in decimal, or compressed bytes.
    pub fn read_string(&mut self) -> (r: Result<Vec<u8>, RdbError>)
        requires
            old(self).ready(),
        ensures
            final(self).ready(),
            final(self).source() == old(self).source(),
            reading(r, |v: Vec<u8>| v@, final(self).pos()) == string(
                old(self).source(),
                old(self).pos(),
            ),
    {
        match self.read_length() {
            Err(e) => Err(e),
            Ok(LenResult::Len(n)) => match len_to_usize(n, "string") {
                Ok(len) => self.read_exact_vec(len),
                Err(e) => Err(e),
            },
            Ok(LenResult::Special(kind)) => {
                if kind == RDB_ENC_INT8 {
                    match self.read_u8() {
                        Ok(b) => Ok(decimal_i64_bytes(bytes::signed8(b))),
                        Err(e) => Err(e),
                    }
                } else if kind == RDB_ENC_INT16 {
                    match self.read_exact_vec(2) {
                        Ok(v) => Ok(
                            decimal_i64_bytes(bytes::signed16(bytes::get_le16(v.as_slice(), 0))),
                        ),
                        Err(e) => Err(e),
                    }
                } else if kind == RDB_ENC_INT32 {
                    match self.read_i32_le() {
                        Ok(n) => Ok(decimal_i64_bytes(n as i64)),
                        Err(e) => Err(e),
                    }
                } else if kind == RDB_ENC_LZF {
                    self.read_lzf()
                } else {
                    Err(
                        RdbError::CorruptData(
                            with_number("unknown string encoding sub-type: ", kind as u64, ""),
                        ),
                    )
                }
            },
        }
    }

    /// Reads a score in text form.
    pub fn read_double_value(&mut self) -> (r: Result<Double, RdbError>)
        requires
            old(self).ready(),
        ensures
            final(self).ready(),
            final(self).source() == old(self).source(),
            reading(r, |d: Double| d, final(self).pos()) == text_score(
                old(self).source(),
                old(self).pos(),
            ),
    {
        let n = match self.read_u8() {
            Ok(b) => b,
            Err(e) => {
                return Err(e);
            },
        };
        if n == 255 {
            return Ok(Double { bits: 0xfff0_0000_0000_0000 });
        }
        if n == 254 {
            return Ok(Double { bits: 0x7ff0_0000_0000_0000 });
        }
        if n == 253 {
            return Ok(Double { bits: 0x7ff8_0000_0000_0000 });
        }
        let b = match self.read_exact_vec(n as usize) {
            Ok(v) => v,
            Err(e) => {
                return Err(e);
            },
        };
        match utf8::string_from_utf8(b) {
            None => Err(corrupt("invalid UTF-8 in double value")),
            Some(t) => match double::parse(t.as_str()) {
                Some(d) => Ok(d),
                None => Err(RdbError::CorruptData(join2("invalid double string: ", t.as_str()))),
            },
        }
    }
}

/// Converts a length to `usize`, if it is within the limit.
pub fn len_to_usize(len: u64, ctx: &str) -> (r: Result<usize, RdbError>)
    ensures
        match r {
            Ok(n) => len <= MAX_ALLOC_BYTES && n == len,
            Err(e) => len > MAX_ALLOC_BYTES && e@ == limit_error(len as int, ctx@),
        },
{
    if len > MAX_ALLOC_BYTES {
        return Err(
            RdbError::CorruptData(
                join2(
                    ctx,
                    with_number(": length ", len, " exceeds 536870912 byte limit").as_str(),
                ),
            ),
        );
    }
    Ok(len as usize)
}

// ---- Laws ----

/// Whether the given bytes stand at `p`.
pub open spec fn stands_at(s: SourceV, p: int, b: Seq<u8>) -> bool {
    0 <= p && p + b.len() <= s.bytes.len() && s.bytes.subrange(p, p + b.len()) == b
}

/// The length field of a length, in the shortest form.
pub open spec fn length_text(n: u64) -> Seq<u8> {
    if n < 0x40 {
        seq![n as u8]
    } else if n < 0x4000 {
        seq![(0x40 + n / 0x100) as u8, (n % 0x100) as u8]
    } else if n < 0x1_0000_0000 {
        seq![RDB_32BITLEN] + be_text(n as nat, 4)
    } else {
        seq![RDB_64BITLEN] + be_text(n as nat, 8)
    }
}

/// The low bytes of a number, the lowest last.
pub open spec fn be_text(n: nat, size: nat) -> Seq<u8>
    decreases size,
{
    if size == 0 {
        Seq::empty()
    } else {
        be_text(n / 0x100, (size - 1) as nat).push((n % 0x100) as u8)
    }
}

/// A string field with its plain bytes.
pub open spec fn string_text(v: Seq<u8>) -> Seq<u8> {
    length_text(v.len() as u64) + v
}

pub proof fn lemma_be_text(n: nat, size: nat)
    ensures
        be_text(n, size).len() == size,
    decreases size,
{
    if size > 0 {
        lemma_be_text(n / 0x100, (size - 1) as nat);
    }
}

proof fn lemma_be16(b: Seq<u8>, p: int, n: nat)
    requires
        0 <= p,
        p + 2 <= b.len(),
        b.subrange(p, p + 2) == be_text(n, 2),
    ensures
        bytes::be16(b, p) == n % 0x1_0000,
{
    reveal_with_fuel(be_text, 3);
    let t = b.subrange(p, p + 2);
    assert(t[0] == b[p] && t[1] == b[p + 1]);
}

proof fn lemma_be_parts(n: nat, size: nat)
    requires
        size >= 2,
    ensures
        be_text(n, size).take(size - 2) == be_text(n / 0x1_0000, (size - 2) as nat),
        be_text(n, size).skip(size - 2) == be_text(n, 2),
{
    reveal_with_fuel(be_text, 3);
    lemma_be_text(n / 0x100 / 0x100, (size - 2) as nat);
    assert(n / 0x100 / 0x100 == n / 0x1_0000);
    assert(be_text(n, size).take(size - 2) == be_text(n / 0x100 / 0x100, (size - 2) as nat));
    assert(be_text(n, size).skip(size - 2) == be_text(n, 2));
}

pub proof fn lemma_be32(b: Seq<u8>, p: int, n: nat)
    requires
        0 <= p,
        p + 4 <= b.len(),
        b.subrange(p, p + 4) == be_text(n, 4),
    ensures
        bytes::be32(b, p) == n % 0x1_0000_0000,
{
    lemma_be_parts(n, 4);
    assert(b.subrange(p, p + 2) == b.subrange(p, p + 4).take(2));
    assert(b.subrange(p + 2, p + 4) == b.subrange(p, p + 4).skip(2));
    lemma_be16(b, p, n / 0x1_0000);
    lemma_be16(b, p + 2, n);
}

proof fn lemma_halves(n: nat)
    ensures
        (n / 0x1_0000 / 0x1_0000) % 0x1_0000_0000 * 0x1_0000_0000 + n % 0x1_0000_0000 == n
            % 0x1_0000_0000_0000_0000,
{
    assert(n / 0x1_0000 / 0x1_0000 == n / 0x1_0000_0000);
}

pub proof fn lemma_be64(b: Seq<u8>, n: nat)
    requires
        b == be_text(n, 8),
    ensures
        bytes::be64(b, 0) == n % 0x1_0000_0000_0000_0000,
{
    lemma_be_text(n, 8);
    lemma_be_parts(n, 8);
    lemma_be_parts(n / 0x1_0000, 6);
    lemma_be_parts(n, 4);
    let high = n / 0x1_0000 / 0x1_0000;
    lemma_halves(n);
    assert(b.subrange(0, 4) == b.take(6).take(4));
    assert(b.subrange(4, 8) == be_text(n, 4)) by {
        lemma_be_text(n, 4);
        assert(b.subrange(4, 6) == b.take(6).skip(4));
        assert(b.subrange(6, 8) == b.skip(6));
        assert(b.subrange(4, 8) == b.subrange(4, 6) + b.subrange(6, 8));
        assert(be_text(n, 4) == be_text(n, 4).take(2) + be_text(n, 4).skip(2));
    }
    lemma_be32(b, 0, high);
    lemma_be32(b, 4, n);
}

/// A length that was written is the length that is read, whatever its form.
pub proof fn law_length_reads_back(s: SourceV, p: int, n: u64)
    requires
        stands_at(s, p, length_text(n)),
    ensures
        plain_length(s, p) == Ok::<(u64, int), RdbErrorV>((n, p + length_text(n).len())),
        length(s, p) == Ok::<(LenResult, int), RdbErrorV>(
            (LenResult::Len(n), p + length_text(n).len()),
        ),
{
    let b = length_text(n);
    let here = s.bytes.subrange(p, p + b.len());
    assert(forall|i: int| 0 <= i < b.len() ==> here[i] == s.bytes[p + i]);
    if n >= 0x4000 {
        let size: nat = if n < 0x1_0000_0000 {
            4
        } else {
            8
        };
        let t = be_text(n as nat, size);
        lemma_be_text(n as nat, size);
        assert(s.bytes.subrange(p + 1, p + 1 + size) == t) by {
            assert forall|i: int| 0 <= i < size implies s.bytes[p + 1 + i] == t[i] by {
                assert(here[1 + i] == b[1 + i]);
            }
        }
        assert(here[0] == b[0]);
        if size == 4 {
            assert(t.subrange(0, 4) == t);
            lemma_be32(t, 0, n as nat);
        } else {
            lemma_be64(t, n as nat);
        }
    } else {
        assert(here[0] == b[0]);
        if n >= 0x40 {
            assert(here[1] == b[1]);
        }
    }
}

/// A string that was written is the string that is read.
pub proof fn law_string_reads_back(s: SourceV, p: int, v: Seq<u8>)
    requires
        v.len() <= MAX_ALLOC_BYTES,
        stands_at(s, p, string_text(v)),
    ensures
        string(s, p) == Ok::<(Seq<u8>, int), RdbErrorV>((v, p + string_text(v).len())),
{
    let n = v.len() as u64;
    let head = length_text(n);
    let all = string_text(v);
    let here = s.bytes.subrange(p, p + all.len());
    assert(s.bytes.subrange(p, p + head.len()) == head) by {
        assert(here.take(head.len() as int) == head);
        assert(here.take(head.len() as int) == s.bytes.subrange(p, p + head.len()));
    }
    law_length_reads_back(s, p, n);
    let q = p + head.len();
    assert(s.bytes.subrange(q, q + v.len()) == v) by {
        assert(here.skip(head.len() as int) == v);
        assert(here.skip(head.len() as int) == s.bytes.subrange(q, q + v.len()));
    }
}

} // verus!
