//! Numbers in bytes and in text, and that they are what they say.

use crate::bytes::{be16, be32, be64, le16, le32, le64, le_bytes, lemma_le_bytes, twos, unsigned};
use crate::compact::le24;
use crate::text::{
    all_digits, ascii_text, comma_pieces, dec, decimal, decimal_int, digits_value, hex, is_white,
    lemma_decimal_ascii, lower_text, signed_text, trim_end, trim_start, trimmed, unsigned_text,
};
use crate::wire::be_text;
use vstd::arithmetic::div_mod::lemma_div_denominator;
use vstd::arithmetic::power::{lemma_pow0, lemma_pow1, lemma_pow_adds, lemma_pow_positive, pow};
use vstd::prelude::*;

verus! {

// ---- Bytes ----

/// A number in two's complement is the one in the signed range that differs from the unsigned
/// one by a multiple of the whole range.
pub proof fn law_twos_complement(n: int, half: int)
    requires
        0 <= n < 2 * half,
    ensures
        -half <= twos(n, half) < half,
        twos(n, half) == n || twos(n, half) == n - 2 * half,
{
}

/// Taking a signed number for an unsigned one and back gives the number.
pub proof fn law_twos_and_back(v: int, half: int)
    requires
        -half <= v < half,
    ensures
        0 <= unsigned(v, half) < 2 * half,
        twos(unsigned(v, half) as int, half) == v,
{
}

/// The digit of a number at a place, in a base.
pub open spec fn digit(n: int, base: int, place: nat) -> int {
    n / pow(base, place) % base
}

pub proof fn lemma_digit_above(n: int, base: int, place: nat)
    requires
        n >= 0,
        base > 1,
    ensures
        digit(n, base, place + 1) == digit(n / base, base, place),
        digit(n, base, 0) == n % base,
{
    lemma_pow0(base);
    lemma_pow1(base);
    lemma_pow_adds(base, 1, place);
    lemma_pow_positive(base, place);
    lemma_div_denominator(n, base, pow(base, place));
    assert(n / 1 == n);
}

/// The bytes of a number, the lowest first: each is the digit of its place in base 256.
pub proof fn law_little_endian(n: nat, size: nat, i: int)
    requires
        0 <= i < size,
    ensures
        le_bytes(n, size).len() == size,
        le_bytes(n, size)[i] as int == digit(n as int, 256, i as nat),
    decreases size,
{
    lemma_le_bytes(n, size);
    lemma_digit_above(n as int, 256, 0);
    if i > 0 {
        law_little_endian(n / 0x100, (size - 1) as nat, i - 1);
        lemma_digit_above(n as int, 256, (i - 1) as nat);
    }
}

/// The bytes of a number, the highest first: each is the digit of its place in base 256.
pub proof fn law_big_endian(n: nat, size: nat, i: int)
    requires
        0 <= i < size,
    ensures
        be_text(n, size).len() == size,
        be_text(n, size)[i] as int == digit(n as int, 256, (size - 1 - i) as nat),
    decreases size,
{
    lemma_digit_above(n as int, 256, 0);
    if size > 1 {
        law_big_endian(
            n / 0x100,
            (size - 1) as nat,
            if i < size - 1 {
                i
            } else {
                0
            },
        );
        if i < size - 1 {
            lemma_digit_above(n as int, 256, (size - 2 - i) as nat);
        }
    } else {
        assert(be_text(n / 0x100, 0).len() == 0);
    }
}

/// What is read of bytes is the sum of the bytes by the weight of their place.
pub proof fn law_bytes_by_weight(s: Seq<u8>, p: int)
    ensures
        le16(s, p) == s[p] + 0x100 * s[p + 1],
        le24(s, p) == s[p] + 0x100 * s[p + 1] + 0x1_0000 * s[p + 2],
        le32(s, p) == s[p] + 0x100 * s[p + 1] + 0x1_0000 * s[p + 2] + 0x100_0000 * s[p + 3],
        le64(s, p) == s[p] + 0x100 * s[p + 1] + 0x1_0000 * s[p + 2] + 0x100_0000 * s[p + 3]
            + 0x1_0000_0000 * s[p + 4] + 0x100_0000_0000 * s[p + 5] + 0x1_0000_0000_0000 * s[p + 6]
            + 0x100_0000_0000_0000 * s[p + 7],
        be16(s, p) == 0x100 * s[p] + s[p + 1],
        be32(s, p) == 0x100_0000 * s[p] + 0x1_0000 * s[p + 1] + 0x100 * s[p + 2] + s[p + 3],
        be64(s, p) == 0x100_0000_0000_0000 * s[p] + 0x1_0000_0000_0000 * s[p + 1] + 0x100_0000_0000
            * s[p + 2] + 0x1_0000_0000 * s[p + 3] + 0x100_0000 * s[p + 4] + 0x1_0000 * s[p + 5]
            + 0x100 * s[p + 6] + s[p + 7],
{
}

// ---- Decimal ----

/// Digits in a row count by their place: those in front ten times for each that follows.
pub proof fn law_digits_by_place(a: Seq<char>, b: Seq<char>, c: char)
    requires
        '0' <= c <= '9',
    ensures
        digits_value(a + b) == digits_value(a) * pow(10, b.len()) + digits_value(b),
        digits_value(seq![c]) == c as nat - '0' as nat,
    decreases b.len(),
{
    assert(seq![c].drop_last() == Seq::<char>::empty());
    assert(digits_value(seq![c].drop_last()) == 0);
    if b.len() == 0 {
        assert(a + b == a);
        lemma_pow0(10);
    } else {
        let front = b.drop_last();
        assert((a + b).drop_last() == a + front);
        assert((a + b).last() == b.last());
        law_digits_by_place(a, front, c);
        lemma_pow1(10);
        lemma_pow_adds(10, front.len(), 1);
        let x = digits_value(a) as int;
        let p = pow(10, front.len());
        assert(x * (p * 10) == (x * p) * 10) by (nonlinear_arith);
        assert((x * p + digits_value(front)) * 10 == (x * p) * 10 + digits_value(front) * 10)
            by (nonlinear_arith);
    }
}

/// The decimal form of a number is made of digits, counts as the number, and has no zero in
/// front unless it is zero.
pub proof fn law_decimal(n: nat)
    ensures
        all_digits(ascii_text(decimal(n))),
        digits_value(ascii_text(decimal(n))) == n,
        decimal(n).len() >= 1,
        n > 0 ==> decimal(n)[0] != 48,
        n == 0 ==> decimal(n).len() == 1,
    decreases n,
{
    lemma_decimal_ascii(n);
    let t = ascii_text(decimal(n));
    assert forall|i: int| 0 <= i < t.len() implies '0' <= #[trigger] t[i] <= '9' by {
        assert(48 <= decimal(n)[i] <= 57);
    }
    if n >= 10 {
        law_decimal(n / 10);
        let front = ascii_text(decimal(n / 10));
        assert(t.drop_last() == front);
        assert(t.last() == (48 + n % 10) as u8 as char);
    } else {
        assert(t.drop_last() == Seq::<char>::empty());
        assert(digits_value(t.drop_last()) == 0);
        assert(t.last() == (48 + n) as u8 as char);
    }
}

/// A negative number has a minus sign in front of its magnitude, any other is written as it
/// is.
pub proof fn law_decimal_sign(n: int)
    ensures
        n >= 0 ==> decimal_int(n) == decimal(n as nat),
        n < 0 ==> decimal_int(n).len() > 0 && decimal_int(n)[0] == '-' as u32 && decimal_int(
            n,
        ).drop_first() == decimal((-n) as nat),
{
    if n < 0 {
        assert(decimal_int(n).drop_first() == decimal((-n) as nat));
    }
}

/// A number that was written in decimal is read as that number.
pub proof fn law_numbers_read_back(n: nat, max: nat)
    ensures
        n <= max ==> unsigned_text(dec(n as int), max) == Some(n),
        n > max ==> unsigned_text(dec(n as int), max) is None,
        n <= 0x7fff_ffff_ffff_ffff ==> signed_text(dec(n as int)) == Some(n as int),
        0 < n <= 0x8000_0000_0000_0000 ==> signed_text(dec(-(n as int))) == Some(-(n as int)),
{
    law_decimal(n);
    let t = dec(n as int);
    assert('0' <= t[0] <= '9');
    if n > 0 {
        let m = dec(-(n as int));
        assert(m[0] == '-');
        assert(m.drop_first() == ascii_text(decimal(n)));
    }
}

// ---- Hexadecimal ----

/// The characters of a number in hexadecimal are the digits of their places in base sixteen.
pub proof fn law_hex(n: nat, width: nat, i: int)
    requires
        0 <= i < width,
    ensures
        hex(n, width).len() == width,
        ({
            let d = digit(n as int, 16, (width - 1 - i) as nat);
            hex(n, width)[i] as int == if d < 10 {
                '0' as int + d
            } else {
                'a' as int + d - 10
            }
        }),
    decreases width,
{
    lemma_digit_above(n as int, 16, 0);
    if width > 1 {
        law_hex(
            n / 16,
            (width - 1) as nat,
            if i < width - 1 {
                i
            } else {
                0
            },
        );
        if i < width - 1 {
            lemma_digit_above(n as int, 16, (width - 2 - i) as nat);
        }
    } else {
        assert(hex(n / 16, 0).len() == 0);
    }
}

// ---- Text ----

/// Lowercase text has the letters `a` to `z` where the text has them in uppercase, and is the
/// same elsewhere.
pub proof fn law_lowercase(s: Seq<char>, i: int)
    requires
        0 <= i < s.len(),
    ensures
        lower_text(s).len() == s.len(),
        'A' <= s[i] <= 'Z' ==> lower_text(s)[i] as int - 'a' as int == s[i] as int - 'A' as int,
        !('A' <= s[i] <= 'Z') ==> lower_text(s)[i] == s[i],
{
}

/// Trimmed text is the text without white space at both ends, and has none there.
pub proof fn law_trimmed(s: Seq<char>) -> (r: (int, int))
    ensures
        0 <= r.0 <= r.1 <= s.len(),
        trimmed(s) == s.subrange(r.0, r.1),
        forall|i: int| 0 <= i < r.0 || r.1 <= i < s.len() ==> is_white(#[trigger] s[i]),
        trimmed(s).len() > 0 ==> !is_white(trimmed(s)[0]) && !is_white(trimmed(s).last()),
{
    let a = lemma_trim_start(s);
    let t = trim_start(s);
    let n = lemma_trim_end(t);
    assert(t.subrange(0, n) == s.subrange(a, a + n));
    assert forall|i: int| 0 <= i < a || a + n <= i < s.len() implies is_white(#[trigger] s[i]) by {
        if i >= a {
            assert(t[i - a] == s[i]);
        }
    }
    (a, a + n)
}

proof fn lemma_trim_start(s: Seq<char>) -> (a: int)
    ensures
        0 <= a <= s.len(),
        trim_start(s) == s.skip(a),
        forall|i: int| 0 <= i < a ==> is_white(#[trigger] s[i]),
        trim_start(s).len() > 0 ==> !is_white(trim_start(s)[0]),
    decreases s.len(),
{
    if s.len() > 0 && is_white(s[0]) {
        let b = lemma_trim_start(s.drop_first());
        assert(s.drop_first().skip(b) == s.skip(b + 1));
        assert forall|i: int| 0 <= i < b + 1 implies is_white(#[trigger] s[i]) by {
            if i > 0 {
                assert(s.drop_first()[i - 1] == s[i]);
            }
        }
        b + 1
    } else {
        assert(s.skip(0) == s);
        0
    }
}

proof fn lemma_trim_end(s: Seq<char>) -> (n: int)
    ensures
        0 <= n <= s.len(),
        trim_end(s) == s.subrange(0, n),
        forall|i: int| n <= i < s.len() ==> is_white(#[trigger] s[i]),
        trim_end(s).len() > 0 ==> !is_white(trim_end(s).last()) && trim_end(s)[0] == s[0],
    decreases s.len(),
{
    if s.len() > 0 && is_white(s.last()) {
        let n = lemma_trim_end(s.drop_last());
        assert(s.drop_last().subrange(0, n) == s.subrange(0, n));
        assert forall|i: int| n <= i < s.len() implies is_white(#[trigger] s[i]) by {
            if i < s.len() - 1 {
                assert(s.drop_last()[i] == s[i]);
            }
        }
        n
    } else {
        assert(s.subrange(0, s.len() as int) == s);
        s.len() as int
    }
}

/// Pieces with a comma between each two.
pub open spec fn with_commas(pieces: Seq<Seq<char>>) -> Seq<char>
    decreases pieces.len(),
{
    if pieces.len() == 0 {
        Seq::empty()
    } else if pieces.len() == 1 {
        pieces[0]
    } else {
        with_commas(pieces.drop_last()).push(',') + pieces.last()
    }
}

/// The pieces of a text hold no commas, and with commas between them they are the text.
pub proof fn law_comma_pieces(s: Seq<char>)
    ensures
        comma_pieces(s).len() > 0,
        with_commas(comma_pieces(s)) == s,
        forall|i: int, k: int|
            0 <= i < comma_pieces(s).len() && 0 <= k < comma_pieces(s)[i].len()
                ==> #[trigger] comma_pieces(s)[i][k] != ',',
    decreases s.len(),
{
    let all = comma_pieces(s);
    if s.len() == 0 {
        assert(with_commas(all) == s);
    } else {
        let front = s.drop_last();
        let c = s.last();
        let before = comma_pieces(front);
        law_comma_pieces(front);
        assert(front.push(c) == s);
        if c == ',' {
            assert(all.drop_last() == before);
            assert(with_commas(all) == with_commas(before).push(',') + Seq::<char>::empty());
            assert(with_commas(all) == s);
        } else {
            let last = before.last();
            assert(all.last() == last.push(c));
            assert(all.drop_last() == before.drop_last());
            if before.len() == 1 {
                assert(with_commas(all) == s);
            } else {
                let head = with_commas(before.drop_last()).push(',');
                assert(head + last.push(c) == (head + last).push(c));
                assert(with_commas(all) == s);
            }
        }
        assert forall|i: int, k: int|
            0 <= i < all.len() && 0 <= k < all[i].len() implies #[trigger] all[i][k] != ',' by {
            if c == ',' {
                if i < before.len() {
                    assert(all[i] == before[i]);
                    assert(before[i][k] != ',');
                }
            } else if i < all.len() - 1 {
                assert(all[i] == before[i]);
                assert(before[i][k] != ',');
            } else if k < before.last().len() {
                assert(before[i][k] != ',');
            }
        }
    }
}

} // verus!
