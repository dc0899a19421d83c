//! What numbers of 64 and 32 bits are, and which of them text stands for.

use crate::double::{
    decimal_text, distance, exponent_text, first_of, lemma_first_of, lemma_is_nearest,
    lemma_nearest_exists, lemma_scaled_monotone, lemma_units_monotone, nearest, number_text,
    rounded, single_units, ten_to, units, widened, INFINITY_BITS, SIGN_BIT,
};
use crate::text::{all_digits, digits_value, lower_text};
use crate::types::{Double, Single};
use vstd::arithmetic::power2::{
    lemma2_to64, lemma_pow2_adds, lemma_pow2_pos, lemma_pow2_unfold, pow2,
};
use vstd::prelude::*;

verus! {

// ---- Values ----

/// A pattern is made of an exponent and 52 bits of fraction. Its value is one and the fraction
/// times a power of two, or, where the exponent is zero, the fraction times the smallest one.
pub proof fn law_pattern_value(e: int, m: int)
    requires
        0 <= e < 2047,
        0 <= m < 0x10_0000_0000_0000,
    ensures
        e >= 1 ==> units(e * 0x10_0000_0000_0000 + m) == (0x10_0000_0000_0000 + m) * pow2(
            (e - 1) as nat,
        ),
        e == 0 ==> units(m) == m,
        forall|d: Double|
            d.bits == e * 0x10_0000_0000_0000 + m ==> #[trigger] d.signed_units() == units(
                e * 0x10_0000_0000_0000 + m,
            ),
        forall|d: Double|
            d.bits == 0x8000_0000_0000_0000 + e * 0x10_0000_0000_0000 + m
                ==> #[trigger] d.signed_units() == -units(e * 0x10_0000_0000_0000 + m),
{
    lemma2_to64();
    let b = e * 0x10_0000_0000_0000 + m;
    assert(b / 0x10_0000_0000_0000 == e && b % 0x10_0000_0000_0000 == m);
    if e == 0 {
        assert(m * 1 == m);
    }
}

/// The pattern that a ratio rounds to is as near to it as any other, and has an even last bit
/// where another one is as near.
pub proof fn law_nearest(num: nat, den: nat, c: u64)
    requires
        den > 0,
        c <= INFINITY_BITS,
    ensures
        ({
            let b = nearest(num, den);
            let off = units(b as int) * den - num * pow2(1074);
            let other = units(c as int) * den - num * pow2(1074);
            &&& b <= INFINITY_BITS
            &&& off * off <= other * other
            &&& off * off == other * other && c != b ==> b % 2 == 0
        }),
{
    lemma_nearest_exists(num, den);
    let b = nearest(num, den);
    let off = units(b as int) * den - num * pow2(1074);
    let other = units(c as int) * den - num * pow2(1074);
    let x = distance(num, den, b as int);
    let y = distance(num, den, c as int);
    assert(off * off == x * x && other * other == y * y) by (nonlinear_arith)
        requires
            x == off || x == -off,
            y == other || y == -other,
    ;
    if c != b {
        assert(x <= y);
        assert(x * x <= y * y && (x < y ==> x * x < y * y)) by (nonlinear_arith)
            requires
                0 <= x <= y,
        ;
    }
}

/// A whole number of at most 53 bits times a power of two has a pattern.
proof fn lemma_has_pattern(m: nat, s: nat) -> (b: u64)
    requires
        m < 0x20_0000_0000_0000,
        s <= 2045,
    ensures
        b < INFINITY_BITS,
        units(b as int) == m * pow2(s),
    decreases s,
{
    lemma2_to64();
    if m >= 0x10_0000_0000_0000 {
        let f = m - 0x10_0000_0000_0000;
        law_pattern_value(s + 1int, f);
        ((s + 1) * 0x10_0000_0000_0000 + f) as u64
    } else if s == 0 {
        law_pattern_value(0, m as int);
        assert(m * 1 == m);
        m as u64
    } else {
        lemma_pow2_unfold(s);
        let p = pow2((s - 1) as nat) as int;
        assert((2 * m) * p == m * (2 * p)) by (nonlinear_arith);
        lemma_has_pattern(2 * m, (s - 1) as nat)
    }
}

/// A ratio that has a pattern rounds to it.
proof fn lemma_exact(num: nat, den: nat, b: u64)
    requires
        den > 0,
        b < INFINITY_BITS,
        units(b as int) * den == num * pow2(1074),
    ensures
        nearest(num, den) == b,
{
    lemma_units_monotone(0, b as int);
    assert forall|c: u64| c <= INFINITY_BITS && c != b implies distance(num, den, b as int)
        < #[trigger] distance(num, den, c as int) by {
        if c < b {
            lemma_scaled_monotone(den, c as int, b as int);
        } else {
            lemma_scaled_monotone(den, b as int, c as int);
        }
    }
    lemma_is_nearest(num, den, b);
}

/// Whole numbers of magnitude up to 2^53 are kept exactly.
pub proof fn law_whole_numbers_are_exact(n: int)
    requires
        -0x20_0000_0000_0000 < n < 0x20_0000_0000_0000,
    ensures
        rounded(n, 1).finite(),
        rounded(n, 1).signed_units() == n * pow2(1074),
{
    let m: nat = if n < 0 {
        (-n) as nat
    } else {
        n as nat
    };
    let b = lemma_has_pattern(m, 1074);
    lemma_exact(m, 1, b);
    if n < 0 {
        assert((-(m as int)) * pow2(1074) == -(m * pow2(1074))) by (nonlinear_arith);
    }
}

/// A 32-bit pattern is made of an exponent and 23 bits of fraction.
pub proof fn law_single_value(e: int, m: int)
    requires
        0 <= e < 255,
        0 <= m < 0x80_0000,
    ensures
        e >= 1 ==> single_units(e * 0x80_0000 + m) == (0x80_0000 + m) * pow2((e - 1) as nat),
        e == 0 ==> single_units(m) == m,
{
    lemma2_to64();
    let b = e * 0x80_0000 + m;
    assert(b / 0x80_0000 == e && b % 0x80_0000 == m);
    if e == 0 {
        assert(m * 1 == m);
    }
}

/// Widening a finite 32-bit number keeps its value and its sign.
pub proof fn law_widening_is_exact(x: Single)
    requires
        x.bits % 0x8000_0000 < 0x7f80_0000,
    ensures
        ({
            let value = single_units((x.bits % 0x8000_0000) as int) * pow2(925);
            widened(x).signed_units() == if x.bits < 0x8000_0000 {
                value
            } else {
                -value
            }
        }),
        widened(x).finite(),
        widened(x).bits >= SIGN_BIT <==> x.bits >= 0x8000_0000,
{
    let b = (x.bits % 0x8000_0000) as int;
    let e = b / 0x80_0000;
    let m = b % 0x80_0000;
    assert(b == e * 0x80_0000 + m && 0 <= e < 255);
    law_single_value(e, m);
    lemma2_to64();
    let (sig, s): (int, nat) = if e == 0 {
        (m, 0)
    } else {
        (0x80_0000 + m, (e - 1) as nat)
    };
    let u = single_units(b);
    assert(u == sig * pow2(s)) by {
        if e == 0 {
            assert(m * 1 == m);
        }
    }
    let c = lemma_has_pattern(sig as nat, s + 925);
    lemma_pow2_adds(s, 925);
    let p = pow2(s) as int;
    let q = pow2(925) as int;
    assert(sig * (p * q) == (sig * p) * q) by (nonlinear_arith);
    lemma_pow2_adds(925, 149);
    lemma_pow2_pos(149);
    lemma_pow2_pos(s);
    let t = pow2(149) as int;
    assert((u * q) * t == u * (q * t)) by (nonlinear_arith);
    assert(0 <= sig * p) by (nonlinear_arith)
        requires
            sig >= 0,
            p > 0,
    ;
    lemma_exact(u as nat, pow2(149), c);
}

// ---- Text ----

/// A power of ten is as many tens multiplied.
pub proof fn law_powers_of_ten(a: nat, b: nat)
    ensures
        ten_to(0) == 1,
        ten_to(1) == 10,
        ten_to(a + b) == ten_to(a) * ten_to(b),
    decreases a,
{
    reveal_with_fuel(ten_to, 2);
    if a == 0 {
        assert(1 * ten_to(b) == ten_to(b));
    } else {
        law_powers_of_ten((a - 1) as nat, b);
        let x = ten_to((a - 1) as nat) as int;
        let y = ten_to(b) as int;
        assert((10 * x) * y == 10 * (x * y)) by (nonlinear_arith);
    }
}

/// Text of a decimal number without a sign: digits, a point and digits, and an exponent.
pub open spec fn decimal_form(
    whole: Seq<char>,
    fraction: Option<Seq<char>>,
    exponent: Option<Seq<char>>,
) -> Seq<char> {
    whole + (match fraction {
        Some(f) => seq!['.'] + f,
        None => Seq::empty(),
    }) + (match exponent {
        Some(e) => seq!['e'] + e,
        None => Seq::empty(),
    })
}

/// An exponent: an optional minus sign and digits.
pub open spec fn exponent_form(negative: bool, digits: Seq<char>) -> Seq<char> {
    if negative {
        seq!['-'] + digits
    } else {
        digits
    }
}

proof fn lemma_exponent(negative: bool, digits: Seq<char>)
    requires
        all_digits(digits),
        digits.len() > 0,
    ensures
        exponent_text(exponent_form(negative, digits)) == Some(
            if negative {
                -(digits_value(digits) as int)
            } else {
                digits_value(digits) as int
            },
        ),
{
    let s = exponent_form(negative, digits);
    assert('0' <= digits[0] <= '9');
    if negative {
        assert(s.drop_first() == digits);
    }
}

proof fn lemma_decimal_form(
    whole: Seq<char>,
    fraction: Option<Seq<char>>,
    exponent: Option<Seq<char>>,
    k: int,
)
    requires
        all_digits(whole),
        whole.len() > 0,
        fraction matches Some(f) ==> all_digits(f),
        match exponent {
            Some(e) => exponent_text(e) == Some(k),
            None => k == 0,
        },
    ensures
        ({
            let f = match fraction {
                Some(f) => f,
                None => Seq::empty(),
            };
            decimal_text(decimal_form(whole, fraction, exponent)) == Some(
                (digits_value(whole + f), k - f.len() as int),
            )
        }),
{
    let f = match fraction {
        Some(f) => f,
        None => Seq::empty(),
    };
    let s = decimal_form(whole, fraction, exponent);
    let middle = match fraction {
        Some(f) => seq!['.'] + f,
        None => Seq::empty(),
    };
    let mantissa = whole + middle;
    let n = mantissa.len() as int;
    assert forall|i: int| 0 <= i < n implies #[trigger] s[i] != 'e' && s[i] != 'E' by {
        assert(s[i] == mantissa[i]);
        if i < whole.len() {
            assert('0' <= whole[i] <= '9');
        } else if i > whole.len() {
            assert(mantissa[i] == f[i - whole.len() - 1]);
            assert('0' <= f[i - whole.len() - 1] <= '9');
        }
    }
    lemma_first_of(s, 'e', 'E', n);
    assert(s.take(n) == mantissa);
    assert forall|i: int| 0 <= i < whole.len() implies #[trigger] mantissa[i] != '.' by {
        assert('0' <= whole[i] <= '9');
    }
    lemma_first_of(mantissa, '.', '.', whole.len() as int);
    assert(mantissa.take(whole.len() as int) == whole);
    if fraction is Some {
        assert(mantissa.skip(whole.len() + 1int) == f);
    }
    if let Some(e) = exponent {
        assert(s.skip(n + 1) == e);
    }
    assert(all_digits(whole + f)) by {
        assert forall|i: int| 0 <= i < (whole + f).len() implies '0' <= #[trigger] (whole + f)[i]
            <= '9' by {
            if i < whole.len() {
                assert('0' <= whole[i] <= '9');
            } else {
                assert('0' <= f[i - whole.len()] <= '9');
            }
        }
    }
}

/// Decimal text stands for the nearest number: its digits, in front of the point and behind
/// it, times ten for each that the exponent says, and a tenth for each behind the point. A
/// minus sign in front sets the sign.
pub proof fn law_decimal_text(
    negative: bool,
    whole: Seq<char>,
    fraction: Option<Seq<char>>,
    exponent: Option<(bool, Seq<char>)>,
)
    requires
        all_digits(whole),
        whole.len() > 0,
        fraction matches Some(f) ==> all_digits(f),
        exponent matches Some((_, e)) ==> all_digits(e) && e.len() > 0,
    ensures
        ({
            let f = match fraction {
                Some(f) => f,
                None => Seq::empty(),
            };
            let k: int = match exponent {
                Some((true, e)) => -(digits_value(e) as int),
                Some((false, e)) => digits_value(e) as int,
                None => 0,
            };
            let body = decimal_form(
                whole,
                fraction,
                match exponent {
                    Some((minus, e)) => Some(exponent_form(minus, e)),
                    None => None,
                },
            );
            let digits = digits_value(whole + f);
            let shift = k - f.len();
            let magnitude = if shift >= 0 {
                nearest(digits * ten_to(shift as nat), 1)
            } else {
                nearest(digits, ten_to((-shift) as nat))
            };
            number_text(
                if negative {
                    seq!['-'] + body
                } else {
                    body
                },
            ) == Some(
                Double {
                    bits: if negative {
                        (0x8000_0000_0000_0000 + magnitude) as u64
                    } else {
                        magnitude
                    },
                },
            )
        }),
{
    let f = match fraction {
        Some(f) => f,
        None => Seq::empty(),
    };
    let k: int = match exponent {
        Some((true, e)) => -(digits_value(e) as int),
        Some((false, e)) => digits_value(e) as int,
        None => 0,
    };
    let last = match exponent {
        Some((minus, e)) => Some(exponent_form(minus, e)),
        None => None,
    };
    if let Some((minus, e)) = exponent {
        lemma_exponent(minus, e);
    }
    let body = decimal_form(whole, fraction, last);
    lemma_decimal_form(whole, fraction, last, k);
    assert(body[0] == whole[0]);
    assert('0' <= whole[0] <= '9');
    let word = lower_text(body);
    reveal_strlit("inf");
    reveal_strlit("infinity");
    reveal_strlit("nan");
    assert(word[0] == body[0]);
    if negative {
        assert((seq!['-'] + body).drop_first() == body);
    }
}

/// The words for an infinity and for what is no number are taken in letters of either case. A
/// minus sign in front sets the sign.
pub proof fn law_number_words(s: Seq<char>)
    ensures
        lower_text(s) == "inf"@ || lower_text(s) == "infinity"@ ==> number_text(s) == Some(
            Double { bits: 0x7ff0_0000_0000_0000 },
        ) && number_text(seq!['-'] + s) == Some(Double { bits: 0xfff0_0000_0000_0000 }),
        lower_text(s) == "nan"@ ==> number_text(s) is Some && number_text(s)->0.bits
            > 0x7ff0_0000_0000_0000,
{
    reveal_strlit("inf");
    reveal_strlit("infinity");
    reveal_strlit("nan");
    assert((seq!['-'] + s).drop_first() == s);
    if s.len() > 0 {
        assert(lower_text(s)[0] == crate::text::lower(s[0]));
    }
    if lower_text(s) == "nan"@ {
        assert(lower_text(s).len() == 3 && lower_text(s)[0] == 'n');
        assert("inf"@[0] == 'i' && "infinity"@.len() == 8);
    }
}

/// A plus sign in front changes nothing, and a minus sign the sign only. Only one sign may
/// stand there.
pub proof fn law_number_signs(s: Seq<char>)
    ensures
        s.len() > 0 && s[0] != '+' && s[0] != '-' ==> number_text(seq!['+'] + s) == number_text(s),
        s.len() > 0 && s[0] != '+' && s[0] != '-' && number_text(s) is None ==> number_text(
            seq!['-'] + s,
        ) is None,
        s.len() > 0 && s[0] != '+' && s[0] != '-' && number_text(s) is Some && number_text(
            s,
        )->0.bits < 0x8000_0000_0000_0000 ==> number_text(seq!['-'] + s) == Some(
            Double { bits: (0x8000_0000_0000_0000 + number_text(s)->0.bits) as u64 },
        ),
        s.len() > 0 && (s[0] == '+' || s[0] == '-') ==> number_text(seq!['+'] + s) is None
            && number_text(seq!['-'] + s) is None,
{
    assert((seq!['+'] + s).drop_first() == s);
    assert((seq!['-'] + s).drop_first() == s);
    if s.len() > 0 && (s[0] == '+' || s[0] == '-') {
        reveal_strlit("inf");
        reveal_strlit("infinity");
        reveal_strlit("nan");
        let word = lower_text(s);
        assert(word[0] == s[0]);
        lemma_decimal_chars(s);
        assert(s.take(1)[0] == s[0]);
    }
}

/// Whether a character can stand in a decimal number.
pub open spec fn in_decimal(c: char) -> bool {
    '0' <= c <= '9' || c == '.' || c == 'e' || c == 'E' || c == '+' || c == '-'
}

proof fn lemma_first_of_bounds(s: Seq<char>, a: char, b: char)
    ensures
        0 <= first_of(s, a, b) <= s.len(),
        first_of(s, a, b) < s.len() ==> s[first_of(s, a, b)] == a || s[first_of(s, a, b)] == b,
    decreases s.len(),
{
    if s.len() > 0 && s[0] != a && s[0] != b {
        lemma_first_of_bounds(s.drop_first(), a, b);
    }
}

proof fn lemma_decimal_chars(s: Seq<char>)
    ensures
        decimal_text(s) is Some ==> s.len() > 0 && (s[0] == '.' || '0' <= s[0] <= '9')
            && forall|i: int| 0 <= i < s.len() ==> in_decimal(#[trigger] s[i]),
{
    if decimal_text(s) is Some {
        let e = first_of(s, 'e', 'E');
        lemma_first_of_bounds(s, 'e', 'E');
        let mantissa = s.take(e);
        let point = first_of(mantissa, '.', '.');
        lemma_first_of_bounds(mantissa, '.', '.');
        let whole = mantissa.take(point);
        let fraction = if point < mantissa.len() {
            mantissa.skip(point + 1)
        } else {
            Seq::empty()
        };
        let all = whole + fraction;
        assert forall|i: int| 0 <= i < e implies s[i] == '.' || '0' <= #[trigger] s[i] <= '9' by {
            assert(mantissa[i] == s[i]);
            if i < point {
                assert(all[i] == s[i]);
            } else if i > point {
                assert(all[i - 1] == fraction[i - point - 1]);
                assert(fraction[i - point - 1] == s[i]);
            }
        }
        assert(e > 0);
        assert(s[0] == '.' || '0' <= s[0] <= '9');
        assert forall|i: int| 0 <= i < s.len() implies in_decimal(#[trigger] s[i]) by {
            if i > e {
                let tail = s.skip(e + 1);
                assert(tail[i - e - 1] == s[i]);
                let signed = tail[0] == '+' || tail[0] == '-';
                if signed && i > e + 1 {
                    assert(tail.drop_first()[i - e - 2] == s[i]);
                }
            }
        }
    }
}

/// Text that stands for a number is one of the words, or is made of digits, a point, signs and
/// the letter of the exponent alone.
pub proof fn law_number_chars(s: Seq<char>, i: int)
    requires
        number_text(s) is Some,
        0 <= i < s.len(),
        !in_decimal(s[i]),
    ensures
        ({
            let body = if s[0] == '+' || s[0] == '-' {
                s.drop_first()
            } else {
                s
            };
            lower_text(body) == "inf"@ || lower_text(body) == "infinity"@ || lower_text(body)
                == "nan"@
        }),
{
    let body = if s[0] == '+' || s[0] == '-' {
        s.drop_first()
    } else {
        s
    };
    lemma_decimal_chars(body);
    if s[0] == '+' || s[0] == '-' {
        assert(i > 0);
        assert(body[i - 1] == s[i]);
    } else {
        assert(body[i] == s[i]);
    }
}

} // verus!
