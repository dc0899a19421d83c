//! LZF decompression.

use crate::text;
use crate::text::with_numbers;
use crate::types::{corrupt, RdbError, RdbErrorV};
use vstd::prelude::*;

verus! {

/// Largest accepted ratio between the promised and the compressed length.
pub const LZF_MAX_RATIO: usize = 1024;

/// Appends `len` bytes, each a copy of the one `offset` places before it. The copied run
/// may overlap what it produces.
pub open spec fn copy_back(out: Seq<u8>, offset: int, len: nat) -> Seq<u8>
    decreases len,
{
    if len == 0 {
        out
    } else {
        copy_back(out.push(out[out.len() - offset]), offset, (len - 1) as nat)
    }
}

/// A back-reference keeps what is there, adds `len` bytes, and repeats with period `offset`.
pub proof fn law_copy_back(out: Seq<u8>, offset: int, len: nat)
    requires
        1 <= offset <= out.len(),
    ensures
        copy_back(out, offset, len).len() == out.len() + len,
        copy_back(out, offset, len).take(out.len() as int) == out,
        forall|k: int|
            out.len() <= k < out.len() + len ==> #[trigger] copy_back(out, offset, len)[k]
                == copy_back(out, offset, len)[k - offset],
    decreases len,
{
    let r = copy_back(out, offset, len);
    if len == 0 {
        assert(r.take(out.len() as int) == out);
    } else {
        let next = out.push(out[out.len() - offset]);
        law_copy_back(next, offset, (len - 1) as nat);
        assert(r.take(out.len() as int) == out) by {
            assert(r.take(next.len() as int).take(out.len() as int) == out);
            assert(r.take(next.len() as int).take(out.len() as int) == r.take(out.len() as int));
        }
        assert forall|k: int| out.len() <= k < out.len() + len implies #[trigger] r[k] == r[k
            - offset] by {
            if k == out.len() {
                assert(r.take(next.len() as int)[k] == next[k]);
                assert(r.take(next.len() as int)[k - offset] == next[k - offset]);
            }
        }
    }
}

/// What the compressed bytes from `i` on expand to, after `out`.
pub open spec fn expand(c: Seq<u8>, i: int, out: Seq<u8>, expected: int) -> Result<
    Seq<u8>,
    RdbErrorV,
>
    decreases c.len() - i,
{
    if i >= c.len() {
        if out.len() == expected {
            Ok(out)
        } else {
            Err(
                RdbErrorV::CorruptData(
                    "LZF decompressed size mismatch: got "@ + text::dec(out.len() as int)
                        + ", expected "@ + text::dec(expected) + ""@,
                ),
            )
        }
    } else if c[i] < 32 {
        // A literal run.
        let len = c[i] + 1;
        if i + 1 + len > c.len() {
            Err(RdbErrorV::CorruptData("LZF literal overrun"@))
        } else if out.len() + len > expected {
            Err(RdbErrorV::CorruptData("LZF output exceeds expected length"@))
        } else {
            expand(c, i + 1 + len, out + c.subrange(i + 1, i + 1 + len), expected)
        }
    } else if c[i] / 32 == 7 && i + 1 >= c.len() {
        Err(RdbErrorV::CorruptData("LZF long match overrun"@))
    } else {
        // A back-reference: the length, one more length byte if it is long, the offset.
        let (len, j) = if c[i] / 32 == 7 {
            (c[i + 1] + 9, i + 2)
        } else {
            (c[i] / 32 + 2, i + 1)
        };
        if j >= c.len() {
            Err(RdbErrorV::CorruptData("LZF offset overrun"@))
        } else {
            let offset = (c[i] % 32) * 256 + c[j] + 1;
            if offset > out.len() {
                Err(RdbErrorV::CorruptData("LZF offset beyond output"@))
            } else if out.len() + len > expected {
                Err(RdbErrorV::CorruptData("LZF output exceeds expected length"@))
            } else {
                expand(c, j + 1, copy_back(out, offset, len as nat), expected)
            }
        }
    }
}

/// What `compressed` expands to, if it promises no more than `LZF_MAX_RATIO` times its length.
pub open spec fn decompressed(compressed: Seq<u8>, expected: int) -> Result<Seq<u8>, RdbErrorV> {
    if compressed.len() > 0 && expected / (compressed.len() as int) > LZF_MAX_RATIO {
        Err(
            RdbErrorV::CorruptData(
                "LZF decompression ratio too high: "@ + text::dec(compressed.len() as int) + " -> "@
                    + text::dec(expected) + " (max 1024x)"@,
            ),
        )
    } else {
        expand(compressed, 0, Seq::empty(), expected)
    }
}

/// Decompression that succeeds gives exactly the promised number of bytes.
pub proof fn law_decompressed_length(compressed: Seq<u8>, expected: int)
    ensures
        decompressed(compressed, expected) matches Ok(out) ==> out.len() == expected,
{
    lemma_expand_length(compressed, 0, Seq::empty(), expected);
}

proof fn lemma_expand_length(c: Seq<u8>, i: int, out: Seq<u8>, expected: int)
    ensures
        expand(c, i, out, expected) matches Ok(r) ==> r.len() == expected,
    decreases c.len() - i,
{
    if i < c.len() {
        if c[i] < 32 {
            let len = c[i] + 1;
            if i + 1 + len <= c.len() {
                lemma_expand_length(c, i + 1 + len, out + c.subrange(i + 1, i + 1 + len), expected);
            }
        } else {
            let (len, j) = if c[i] / 32 == 7 {
                (c[i + 1] + 9, i + 2)
            } else {
                (c[i] / 32 + 2, i + 1)
            };
            if j < c.len() {
                let offset = (c[i] % 32) * 256 + c[j] + 1;
                lemma_expand_length(c, j + 1, copy_back(out, offset, len as nat), expected);
            }
        }
    }
}

/// Decompresses LZF data: a control byte below 32 starts a literal run, any other a
/// back-reference into what has been produced so far.
pub fn decompress(compressed: &[u8], expected_len: usize) -> (r: Result<Vec<u8>, RdbError>)
    ensures
        (match r {
            Ok(v) => Ok(v@),
            Err(e) => Err(e@),
        }) == decompressed(compressed@, expected_len as int),
{
    if compressed.len() > 0 && expected_len / compressed.len() > LZF_MAX_RATIO {
        return Err(
            RdbError::CorruptData(
                with_numbers(
                    "LZF decompression ratio too high: ",
                    compressed.len() as u64,
                    " -> ",
                    expected_len as u64,
                    " (max 1024x)",
                ),
            ),
        );
    }
    let mut output: Vec<u8> = Vec::with_capacity(expected_len);
    let mut i: usize = 0;
    while i < compressed.len()
        invariant
            i <= compressed@.len(),
            output@.len() <= expected_len,
            expand(compressed@, i as int, output@, expected_len as int) == expand(
                compressed@,
                0,
                Seq::empty(),
                expected_len as int,
            ),
            !(compressed@.len() > 0 && (expected_len as int) / (compressed@.len() as int)
                > LZF_MAX_RATIO),
        decreases compressed@.len() - i,
    {
        let start: usize = i;
        let ctrl: usize = compressed[i] as usize;
        i += 1;
        if ctrl < 32 {
            let len: usize = ctrl + 1;
            if len > compressed.len() - i {
                return Err(corrupt("LZF literal overrun"));
            }
            if len > expected_len - output.len() {
                return Err(corrupt("LZF output exceeds expected length"));
            }
            let mut run = crate::bytes::copy_range(compressed, i, i + len);
            let ghost before = output@;
            output.append(&mut run);
            assert(output@ == before + compressed@.subrange(i as int, i + len));
            i += len;
        } else {
            let mut len: usize = ctrl / 32;
            if len == 7 {
                if i >= compressed.len() {
                    return Err(corrupt("LZF long match overrun"));
                }
                len += compressed[i] as usize;
                i += 1;
            }
            len += 2;
            if i >= compressed.len() {
                return Err(corrupt("LZF offset overrun"));
            }
            let offset: usize = (ctrl % 32) * 256 + compressed[i] as usize + 1;
            i += 1;
            if offset > output.len() {
                return Err(corrupt("LZF offset beyond output"));
            }
            if len > expected_len - output.len() {
                return Err(corrupt("LZF output exceeds expected length"));
            }
            let ghost before = output@;
            let mut j: usize = 0;
            while j < len
                invariant
                    j <= len,
                    1 <= offset <= output@.len(),
                    output@.len() == before.len() + j,
                    before.len() + len <= expected_len,
                    copy_back(output@, offset as int, (len - j) as nat) == copy_back(
                        before,
                        offset as int,
                        len as nat,
                    ),
                decreases len - j,
            {
                let b: u8 = output[output.len() - offset];
                output.push(b);
                j += 1;
            }
            assert(output@ == copy_back(before, offset as int, len as nat));
        }
    }
    if output.len() != expected_len {
        return Err(
            RdbError::CorruptData(
                with_numbers(
                    "LZF decompressed size mismatch: got ",
                    output.len() as u64,
                    ", expected ",
                    expected_len as u64,
                    "",
                ),
            ),
        );
    }
    Ok(output)
}

// ---- Written form ----

/// A step of compressed data: bytes that stand for themselves, or a match, which repeats
/// `len` bytes from `offset` places back.
pub enum Token {
    Literal(Seq<u8>),
    Match { offset: nat, len: nat },
}

impl Token {
    /// Whether the step can be written behind the given output: a run of 1 to 32 bytes, or a
    /// match of 3 to 264 bytes from at most 8192 places back, and from within the output.
    pub open spec fn fits(self, out: Seq<u8>) -> bool {
        match self {
            Token::Literal(b) => 1 <= b.len() <= 32,
            Token::Match { offset, len } => 1 <= offset <= 8192 && offset <= out.len() && 3 <= len
                <= 264,
        }
    }

    /// The bytes of the step: for a match, three bits of length and thirteen bits of offset,
    /// the high five with the length. A length of nine or more has a byte of its own.
    pub open spec fn written(self) -> Seq<u8> {
        match self {
            Token::Literal(b) => seq![(b.len() - 1) as u8] + b,
            Token::Match { offset, len } => {
                let back = (offset - 1) as nat;
                if len < 9 {
                    seq![((len - 2) * 32 + back / 256) as u8, (back % 256) as u8]
                } else {
                    seq![(7 * 32 + back / 256) as u8, (len - 9) as u8, (back % 256) as u8]
                }
            },
        }
    }

    /// The output with what the step stands for. The bytes of a match go on repeating where it
    /// is longer than it reaches back.
    pub open spec fn applied(self, out: Seq<u8>) -> Seq<u8> {
        match self {
            Token::Literal(b) => out + b,
            Token::Match { offset, len } => out + Seq::new(
                len,
                |k: int| out[out.len() - offset + k % (offset as int)],
            ),
        }
    }
}

/// The bytes of steps in a row.
pub open spec fn all_written(tokens: Seq<Token>) -> Seq<u8>
    decreases tokens.len(),
{
    if tokens.len() == 0 {
        Seq::empty()
    } else {
        tokens[0].written() + all_written(tokens.drop_first())
    }
}

/// The output with what steps in a row stand for.
pub open spec fn all_applied(tokens: Seq<Token>, out: Seq<u8>) -> Seq<u8>
    decreases tokens.len(),
{
    if tokens.len() == 0 {
        out
    } else {
        all_applied(tokens.drop_first(), tokens[0].applied(out))
    }
}

/// Whether steps in a row can be written behind the given output.
pub open spec fn all_fit(tokens: Seq<Token>, out: Seq<u8>) -> bool
    decreases tokens.len(),
{
    tokens.len() > 0 ==> tokens[0].fits(out) && all_fit(
        tokens.drop_first(),
        tokens[0].applied(out),
    )
}

proof fn lemma_match(out: Seq<u8>, offset: nat, len: nat)
    requires
        1 <= offset <= out.len(),
    ensures
        copy_back(out, offset as int, len) == (Token::Match { offset, len }).applied(out),
{
    law_copy_back(out, offset as int, len);
    let r = copy_back(out, offset as int, len);
    let t = (Token::Match { offset, len }).applied(out);
    assert forall|k: int| 0 <= k < r.len() implies r[k] == t[k] by {
        lemma_match_byte(out, offset, len, k);
    }
    assert(r == t);
}

proof fn lemma_match_byte(out: Seq<u8>, offset: nat, len: nat, k: int)
    requires
        1 <= offset <= out.len(),
        0 <= k < out.len() + len,
    ensures
        copy_back(out, offset as int, len)[k] == (Token::Match { offset, len }).applied(out)[k],
    decreases k,
{
    law_copy_back(out, offset as int, len);
    let r = copy_back(out, offset as int, len);
    let n = out.len() as int;
    if k < n {
        assert(r.take(n)[k] == r[k]);
    } else {
        lemma_match_byte(out, offset, len, k - offset);
        let m = offset as int;
        if k - offset >= n {
            vstd::arithmetic::div_mod::lemma_mod_sub_multiples_vanish(k - n, m);
            assert((k - n - m) % m == (k - n) % m);
        } else {
            vstd::arithmetic::div_mod::lemma_small_mod((k - n) as nat, offset);
        }
    }
}

proof fn lemma_applied_grows(tokens: Seq<Token>, out: Seq<u8>)
    requires
        all_fit(tokens, out),
    ensures
        out.len() <= all_applied(tokens, out).len() <= out.len() + 264 * all_written(tokens).len(),
    decreases tokens.len(),
{
    if tokens.len() > 0 {
        lemma_applied_grows(tokens.drop_first(), tokens[0].applied(out));
    }
}

proof fn lemma_expand_written(
    c: Seq<u8>,
    i: int,
    out: Seq<u8>,
    tokens: Seq<Token>,
    expected: int,
)
    requires
        0 <= i <= c.len(),
        c.skip(i) == all_written(tokens),
        all_fit(tokens, out),
        all_applied(tokens, out).len() == expected,
    ensures
        expand(c, i, out, expected) == Ok::<Seq<u8>, RdbErrorV>(all_applied(tokens, out)),
    decreases tokens.len(),
{
    let rest = c.skip(i);
    assert(rest.len() == c.len() - i);
    if tokens.len() > 0 {
        let t = tokens[0];
        let w = t.written();
        let later = tokens.drop_first();
        let next = i + w.len();
        lemma_applied_grows(later, t.applied(out));
        assert(forall|k: int| 0 <= k < w.len() ==> #[trigger] w[k] == rest[k] && rest[k] == c[i
            + k]);
        assert(c.skip(next) == all_written(later)) by {
            assert(c.skip(next) == rest.skip(w.len() as int));
            assert(rest.skip(w.len() as int) == all_written(later));
        }
        match t {
            Token::Literal(b) => {
                assert(c[i + 0] == w[0]);
                assert(c.subrange(i + 1, i + 1 + b.len()) == b) by {
                    assert forall|k: int| 0 <= k < b.len() implies c[i + 1 + k] == b[k] by {
                        assert(w[1 + k] == b[k]);
                        assert(w[1 + k] == rest[1 + k]);
                    }
                }
            },
            Token::Match { offset, len } => {
                lemma_match(out, offset, len);
                let back = (offset - 1) as nat;
                let high = back / 256;
                assert(high < 32 && back == 256 * high + back % 256);
                assert(c[i + 0] == w[0] && c[i + 1] == w[1]);
                if len < 9 {
                    assert(w[0] == (len - 2) * 32 + high);
                    assert(w[0] / 32 == len - 2 && w[0] % 32 == high);
                } else {
                    assert(c[i + 2] == w[2]);
                    assert(w[0] == 224 + high);
                    assert(w[0] / 32 == 7 && w[0] % 32 == high);
                }
            },
        }
        lemma_expand_written(c, next, t.applied(out), later, expected);
    }
}

/// Compressed data is read back: what was written as literal runs and matches is decompressed
/// to exactly the bytes that they stand for.
pub proof fn law_lzf_reads_back(tokens: Seq<Token>)
    requires
        all_fit(tokens, Seq::empty()),
    ensures
        decompressed(
            all_written(tokens),
            all_applied(tokens, Seq::empty()).len() as int,
        ) == Ok::<Seq<u8>, RdbErrorV>(all_applied(tokens, Seq::empty())),
{
    let c = all_written(tokens);
    let n = all_applied(tokens, Seq::empty()).len() as int;
    lemma_applied_grows(tokens, Seq::empty());
    if c.len() > 0 {
        assert(n / (c.len() as int) <= 264) by (nonlinear_arith)
            requires
                0 <= n <= 264 * c.len(),
                c.len() > 0,
        ;
    }
    assert(c.skip(0) == c);
    lemma_expand_written(c, 0, Seq::empty(), tokens, n);
}

/// The steps that compressed data from `i` on is made of, if it can be decompressed.
proof fn lemma_steps(c: Seq<u8>, i: int, out: Seq<u8>, expected: int) -> (tokens: Seq<Token>)
    requires
        0 <= i <= c.len(),
        expand(c, i, out, expected) is Ok,
    ensures
        all_fit(tokens, out),
        all_written(tokens) == c.skip(i),
        expand(c, i, out, expected)->Ok_0 == all_applied(tokens, out),
    decreases c.len() - i,
{
    if i == c.len() {
        assert(c.skip(i) == Seq::<u8>::empty());
        Seq::empty()
    } else {
        let (t, next) = if c[i] < 32 {
            let len = c[i] + 1;
            (Token::Literal(c.subrange(i + 1, i + 1 + len)), i + 1 + len)
        } else {
            let (len, j) = if c[i] / 32 == 7 {
                (c[i + 1] + 9, i + 2)
            } else {
                (c[i] / 32 + 2, i + 1)
            };
            let offset = (c[i] % 32) * 256 + c[j] + 1;
            lemma_match(out, offset as nat, len as nat);
            (Token::Match { offset: offset as nat, len: len as nat }, j + 1)
        };
        let later = lemma_steps(c, next, t.applied(out), expected);
        let tokens = seq![t] + later;
        assert(tokens.drop_first() == later);
        assert(t.written() == c.subrange(i, next)) by {
            match t {
                Token::Literal(b) => {},
                Token::Match { offset, len } => {
                    let back = (offset - 1) as nat;
                    let j = next - 1;
                    assert(back == (c[i] % 32) * 256 + c[j]);
                    assert(back / 256 == c[i] % 32 && back % 256 == c[j]);
                    assert(c[i] == c[i] / 32 * 32 + c[i] % 32);
                },
            }
        }
        assert(c.skip(i) == c.subrange(i, next) + c.skip(next));
        tokens
    }
}

/// Nothing else can be decompressed: data that can is written as literal runs and matches, and
/// the output is what these stand for.
pub proof fn law_lzf_reads_nothing_else(c: Seq<u8>, expected: int) -> (tokens: Seq<Token>)
    requires
        decompressed(c, expected) is Ok,
    ensures
        all_fit(tokens, Seq::empty()),
        all_written(tokens) == c,
        decompressed(c, expected)->Ok_0 == all_applied(tokens, Seq::empty()),
        all_applied(tokens, Seq::empty()).len() == expected,
{
    law_decompressed_length(c, expected);
    assert(c.skip(0) == c);
    lemma_steps(c, 0, Seq::empty(), expected)
}

} // verus!
