//! Decimal and hexadecimal text, and the string pieces that messages are made of.

use vstd::prelude::*;

verus! {

/// `String::push` appends one character at the end of the string.
pub assume_specification[ std::string::String::push ](s: &mut std::string::String, c: char)
    ensures
        final(s)@ == old(s)@.push(c),
;

/// The decimal digits of `n`, as ASCII bytes, without leading zeros.
pub open spec fn decimal(n: nat) -> Seq<u8>
    decreases n,
{
    if n < 10 {
        seq![(48 + n) as u8]
    } else {
        decimal(n / 10).push((48 + n % 10) as u8)
    }
}

/// The decimal form of a signed integer: a minus sign before the digits of a negative one.
pub open spec fn decimal_int(n: int) -> Seq<u8> {
    if n < 0 {
        seq![45u8] + decimal((-n) as nat)
    } else {
        decimal(n as nat)
    }
}

/// The text that a sequence of ASCII bytes spells.
pub open spec fn ascii_text(bytes: Seq<u8>) -> Seq<char> {
    bytes.map_values(|b: u8| b as char)
}

/// The decimal form of an integer, as text.
pub open spec fn dec(n: int) -> Seq<char> {
    ascii_text(decimal_int(n))
}

pub proof fn lemma_decimal_ascii(n: nat)
    ensures
        decimal(n).len() > 0,
        forall|i: int| 0 <= i < decimal(n).len() ==> 48 <= #[trigger] decimal(n)[i] <= 57,
    decreases n,
{
    if n >= 10 {
        lemma_decimal_ascii(n / 10);
    }
}

/// The decimal digits of an unsigned integer.
pub fn decimal_u64_bytes(n: u64) -> (r: Vec<u8>)
    ensures
        r@ == decimal(n as nat),
    decreases n,
{
    if n < 10 {
        let mut v: Vec<u8> = Vec::new();
        v.push(48 + n as u8);
        assert(v@ == decimal(n as nat));
        v
    } else {
        let mut v = decimal_u64_bytes(n / 10);
        v.push(48 + (n % 10) as u8);
        v
    }
}

/// The decimal form of a signed integer.
pub fn decimal_i64_bytes(n: i64) -> (r: Vec<u8>)
    ensures
        r@ == decimal_int(n as int),
{
    if n < 0 {
        let magnitude: u64 = (-(n as i128)) as u64;
        let mut digits = decimal_u64_bytes(magnitude);
        let mut v: Vec<u8> = Vec::new();
        v.push(45u8);
        v.append(&mut digits);
        assert(v@ == seq![45u8] + decimal((-n) as nat));
        v
    } else {
        decimal_u64_bytes(n as u64)
    }
}

/// The string that a vector of ASCII bytes spells.
pub fn ascii_string(bytes: &Vec<u8>) -> (r: String)
    requires
        forall|i: int| 0 <= i < bytes@.len() ==> #[trigger] bytes@[i] < 128,
    ensures
        r@ == ascii_text(bytes@),
{
    let mut s = String::new();
    let mut i: usize = 0;
    while i < bytes.len()
        invariant
            i <= bytes@.len(),
            s@ == ascii_text(bytes@.subrange(0, i as int)),
        decreases bytes@.len() - i,
    {
        let c: char = bytes[i] as char;
        s.push(c);
        i += 1;
        assert(s@ == ascii_text(bytes@.subrange(0, i as int)));
    }
    assert(bytes@.subrange(0, i as int) == bytes@);
    s
}


/// The lowercase hexadecimal digit for a value below sixteen.
pub open spec fn hex_digit(d: int) -> char {
    if d < 10 {
        (48 + d) as char
    } else {
        (87 + d) as char
    }
}

/// The last `width` hexadecimal digits of `n`, leading zeros kept.
pub open spec fn hex(n: nat, width: nat) -> Seq<char>
    decreases width,
{
    if width == 0 {
        Seq::empty()
    } else {
        hex(n / 16, (width - 1) as nat).push(hex_digit((n % 16) as int))
    }
}

/// The last `width` hexadecimal digits of `n`, in lowercase.
pub fn hex_string(n: u64, width: usize) -> (r: String)
    ensures
        r@ == hex(n as nat, width as nat),
    decreases width,
{
    if width == 0 {
        String::new()
    } else {
        let mut s = hex_string(n / 16, width - 1);
        let d: u8 = (n % 16) as u8;
        let b: u8 = if d < 10 {
            48 + d
        } else {
            87 + d
        };
        let c: char = b as char;
        s.push(c);
        s
    }
}

/// The decimal form of an unsigned integer, as a string.
pub fn dec_string(n: u64) -> (r: String)
    ensures
        r@ == dec(n as int),
{
    let v = decimal_u64_bytes(n);
    proof {
        lemma_decimal_ascii(n as nat);
    }
    ascii_string(&v)
}

/// The decimal form of a signed integer, as a string.
pub fn dec_string_signed(n: i64) -> (r: String)
    ensures
        r@ == dec(n as int),
{
    let v = decimal_i64_bytes(n);
    proof {
        if n < 0 {
            lemma_decimal_ascii((-n) as nat);
        } else {
            lemma_decimal_ascii(n as nat);
        }
    }
    ascii_string(&v)
}

/// Two pieces of text in a row.
pub fn join2(a: &str, b: &str) -> (r: String)
    ensures
        r@ == a@ + b@,
{
    a.to_owned().concat(b)
}

/// Three pieces of text in a row.
pub fn join3(a: &str, b: &str, c: &str) -> (r: String)
    ensures
        r@ == a@ + b@ + c@,
{
    a.to_owned().concat(b).concat(c)
}

/// Text with one number in it.
pub fn with_number(a: &str, n: u64, b: &str) -> (r: String)
    ensures
        r@ == a@ + dec(n as int) + b@,
{
    join3(a, dec_string(n).as_str(), b)
}

/// Text with two numbers in it.
pub fn with_numbers(a: &str, n: u64, b: &str, m: u64, c: &str) -> (r: String)
    ensures
        r@ == a@ + dec(n as int) + b@ + dec(m as int) + c@,
{
    with_number(a, n, b).concat(dec_string(m).as_str()).concat(c)
}

/// The characters of a string, one by one.
pub fn chars_of(s: &str) -> (r: Vec<char>)
    ensures
        r@ == s@,
{
    let mut v: Vec<char> = Vec::new();
    for c in it: s.chars()
        invariant
            v@ == it.seq().take(it.index() as int),
            it.seq() == s@,
    {
        v.push(c);
        assert(v@ == it.seq().take(it.index() + 1));
    }
    assert(s@.take(s@.len() as int) == s@);
    v
}

/// The string made of the given characters.
pub fn string_of(chars: &Vec<char>) -> (r: String)
    ensures
        r@ == chars@,
{
    let mut s = String::new();
    let mut i: usize = 0;
    while i < chars.len()
        invariant
            i <= chars@.len(),
            s@ == chars@.subrange(0, i as int),
        decreases chars@.len() - i,
    {
        s.push(chars[i]);
        i += 1;
        assert(s@ == chars@.subrange(0, i as int));
    }
    assert(chars@.subrange(0, i as int) == chars@);
    s
}

/// Whether two strings hold the same characters.
pub fn same_text(a: &str, b: &str) -> (r: bool)
    ensures
        r == (a@ == b@),
{
    let x: String = a.to_owned();
    let y: String = b.to_owned();
    x == y
}


/// Whether every character is an ASCII digit.
pub open spec fn all_digits(s: Seq<char>) -> bool {
    forall|i: int| 0 <= i < s.len() ==> '0' <= #[trigger] s[i] <= '9'
}

/// The number that a run of decimal digits stands for.
pub open spec fn digits_value(s: Seq<char>) -> nat
    decreases s.len(),
{
    if s.len() == 0 {
        0
    } else {
        digits_value(s.drop_last()) * 10 + (s.last() as nat - 48) as nat
    }
}

/// The number that a non-empty run of decimal digits stands for, if it is at most `max`.
pub open spec fn digits_up_to(s: Seq<char>, max: nat) -> Option<nat> {
    if s.len() > 0 && all_digits(s) && digits_value(s) <= max {
        Some(digits_value(s))
    } else {
        None
    }
}

/// An unsigned number: an optional plus sign and digits, at most `max`.
pub open spec fn unsigned_text(s: Seq<char>, max: nat) -> Option<nat> {
    if s.len() > 0 && s[0] == '+' {
        digits_up_to(s.drop_first(), max)
    } else {
        digits_up_to(s, max)
    }
}

/// A signed 64-bit number: an optional sign and digits.
pub open spec fn signed_text(s: Seq<char>) -> Option<int> {
    if s.len() > 0 && s[0] == '-' {
        match digits_up_to(s.drop_first(), 0x8000_0000_0000_0000) {
            Some(n) => Some(-(n as int)),
            None => None,
        }
    } else {
        match unsigned_text(s, 0x7fff_ffff_ffff_ffff) {
            Some(n) => Some(n as int),
            None => None,
        }
    }
}

proof fn lemma_digits_value_grows(s: Seq<char>, k: int)
    requires
        all_digits(s),
        0 <= k <= s.len(),
    ensures
        digits_value(s.take(k)) <= digits_value(s),
    decreases s.len() - k,
{
    if k < s.len() {
        lemma_digits_value_grows(s, k + 1);
        assert(s.take(k + 1).drop_last() == s.take(k));
    } else {
        assert(s.take(k) == s);
    }
}

/// Reads the digits from `start` on; `None` if there are none, if something else
/// stands among them, or if the number is over `max`.
fn digits_from(chars: &Vec<char>, start: usize, max: u64) -> (r: Option<u64>)
    requires
        start <= chars@.len(),
    ensures
        (match r {
            Some(n) => Some(n as nat),
            None => None,
        }) == digits_up_to(chars@.skip(start as int), max as nat),
{
    let ghost s = chars@.skip(start as int);
    if start == chars.len() {
        return None;
    }
    let mut i: usize = start;
    let mut n: u64 = 0;
    while i < chars.len()
        invariant
            start <= i <= chars@.len(),
            s == chars@.skip(start as int),
            all_digits(s.take(i - start)),
            n as nat == digits_value(s.take(i - start)),
            n <= max,
        decreases chars@.len() - i,
    {
        let c: char = chars[i];
        assert(s[i - start] == c);
        if !('0' <= c && c <= '9') {
            return None;
        }
        let d: u64 = (c as u32 - 48) as u64;
        assert(s.take(i - start + 1).drop_last() == s.take(i - start));
        assert(s.take(i - start + 1).last() == c);
        let wide: u128 = n as u128 * 10 + d as u128;
        assert(wide as nat == digits_value(s.take(i - start + 1)));
        if wide > max as u128 {
            proof {
                if all_digits(s) {
                    lemma_digits_value_grows(s, i - start + 1);
                }
            }
            return None;
        }
        n = wide as u64;
        i += 1;
    }
    assert(s.take(i - start) == s);
    Some(n)
}

/// Reads an unsigned number of at most `max`.
pub fn parse_unsigned(s: &str, max: u64) -> (r: Option<u64>)
    ensures
        (match r {
            Some(n) => Some(n as nat),
            None => None,
        }) == unsigned_text(s@, max as nat),
{
    let chars = chars_of(s);
    if chars.len() > 0 && chars[0] == '+' {
        assert(chars@.skip(1) == chars@.drop_first());
        digits_from(&chars, 1, max)
    } else {
        assert(chars@.skip(0) == chars@);
        digits_from(&chars, 0, max)
    }
}

/// Reads a signed 64-bit number.
pub fn parse_signed(s: &str) -> (r: Option<i64>)
    ensures
        (match r {
            Some(n) => Some(n as int),
            None => None,
        }) == signed_text(s@),
{
    let chars = chars_of(s);
    if chars.len() > 0 && chars[0] == '-' {
        assert(chars@.skip(1) == chars@.drop_first());
        match digits_from(&chars, 1, 0x8000_0000_0000_0000) {
            Some(n) => Some((-(n as i128)) as i64),
            None => None,
        }
    } else {
        match parse_unsigned(s, 0x7fff_ffff_ffff_ffff) {
            Some(n) => Some(n as i64),
            None => None,
        }
    }
}

/// An ASCII letter in lowercase, anything else as it is.
pub open spec fn lower(c: char) -> char {
    if 'A' <= c <= 'Z' {
        (c as u32 + 32) as char
    } else {
        c
    }
}

/// Text with its ASCII letters in lowercase.
pub open spec fn lower_text(s: Seq<char>) -> Seq<char> {
    s.map_values(|c: char| lower(c))
}

/// A copy of `s` with its ASCII letters in lowercase.
pub fn to_lower(s: &str) -> (r: String)
    ensures
        r@ == lower_text(s@),
{
    let chars = chars_of(s);
    let mut out = String::new();
    let mut i: usize = 0;
    while i < chars.len()
        invariant
            i <= chars@.len(),
            out@ == lower_text(chars@.take(i as int)),
        decreases chars@.len() - i,
    {
        let c: char = chars[i];
        if 'A' <= c && c <= 'Z' {
            let b: u8 = c as u8 + 32;
            let l: char = b as char;
            out.push(l);
        } else {
            out.push(c);
        }
        i += 1;
        assert(out@ == lower_text(chars@.take(i as int)));
    }
    assert(chars@.take(i as int) == s@);
    out
}

/// Whether a character has the Unicode property `White_Space`.
pub open spec fn is_white(c: char) -> bool {
    let n = c as u32;
    9 <= n <= 13 || n == 0x20 || n == 0x85 || n == 0xa0 || n == 0x1680 || 0x2000 <= n <= 0x200a
        || n == 0x2028 || n == 0x2029 || n == 0x202f || n == 0x205f || n == 0x3000
}

/// Text without the white space at its start.
pub open spec fn trim_start(s: Seq<char>) -> Seq<char>
    decreases s.len(),
{
    if s.len() > 0 && is_white(s[0]) {
        trim_start(s.drop_first())
    } else {
        s
    }
}

/// Text without the white space at its end.
pub open spec fn trim_end(s: Seq<char>) -> Seq<char>
    decreases s.len(),
{
    if s.len() > 0 && is_white(s.last()) {
        trim_end(s.drop_last())
    } else {
        s
    }
}

/// Text without the white space around it.
pub open spec fn trimmed(s: Seq<char>) -> Seq<char> {
    trim_end(trim_start(s))
}

fn white(c: char) -> (r: bool)
    ensures
        r == is_white(c),
{
    let n: u32 = c as u32;
    (9 <= n && n <= 13) || n == 0x20 || n == 0x85 || n == 0xa0 || n == 0x1680 || (0x2000 <= n && n
        <= 0x200a) || n == 0x2028 || n == 0x2029 || n == 0x202f || n == 0x205f || n == 0x3000
}

/// The characters without the white space around them.
pub fn trim_chars(chars: &Vec<char>) -> (r: Vec<char>)
    ensures
        r@ == trimmed(chars@),
{
    let mut lo: usize = 0;
    assert(chars@.skip(0) == chars@);
    while lo < chars.len() && white(chars[lo])
        invariant
            lo <= chars@.len(),
            trim_start(chars@.skip(lo as int)) == trim_start(chars@),
        decreases chars@.len() - lo,
    {
        assert(chars@.skip(lo as int).drop_first() == chars@.skip(lo + 1));
        lo += 1;
    }
    let ghost rest = chars@.skip(lo as int);
    assert(trim_start(chars@) == rest);
    let mut hi: usize = chars.len();
    assert(rest.take(hi - lo) == rest);
    while hi > lo && white(chars[hi - 1])
        invariant
            lo <= hi <= chars@.len(),
            rest == chars@.skip(lo as int),
            trim_end(rest.take(hi - lo)) == trim_end(rest),
        decreases hi,
    {
        assert(rest.take(hi - lo).last() == chars@[hi - 1]);
        assert(rest.take(hi - lo).drop_last() == rest.take(hi - lo - 1));
        hi -= 1;
    }
    assert(trim_end(rest) == rest.take(hi - lo)) by {
        if hi > lo {
            assert(rest.take(hi - lo).last() == chars@[hi - 1]);
        }
    }
    let mut out: Vec<char> = Vec::new();
    let mut i: usize = lo;
    while i < hi
        invariant
            lo <= i <= hi <= chars@.len(),
            rest == chars@.skip(lo as int),
            out@ == rest.take(i - lo),
        decreases hi - i,
    {
        out.push(chars[i]);
        i += 1;
        assert(out@ == rest.take(i - lo));
    }
    out
}

/// The pieces of a text between its commas: one more than there are commas.
pub open spec fn comma_pieces(s: Seq<char>) -> Seq<Seq<char>>
    decreases s.len(),
{
    if s.len() == 0 {
        seq![Seq::empty()]
    } else {
        let before = comma_pieces(s.drop_last());
        if s.last() == ',' {
            before.push(Seq::empty())
        } else {
            before.drop_last().push(before.last().push(s.last()))
        }
    }
}

/// A text without commas is one piece.
pub proof fn lemma_one_piece(s: Seq<char>)
    requires
        forall|i: int| 0 <= i < s.len() ==> s[i] != ',',
    ensures
        comma_pieces(s) == seq![s],
    decreases s.len(),
{
    if s.len() == 0 {
        assert(s == Seq::<char>::empty());
    } else {
        lemma_one_piece(s.drop_last());
        let before = comma_pieces(s.drop_last());
        assert(before.last().push(s.last()) == s);
        assert(before.drop_last() == Seq::<Seq<char>>::empty());
        assert(comma_pieces(s) == seq![s]);
    }
}

/// Splits a text at its commas.
pub fn split_commas(s: &str) -> (r: Vec<Vec<char>>)
    ensures
        r@.map_values(|v: Vec<char>| v@) == comma_pieces(s@),
{
    let chars = chars_of(s);
    let mut done: Vec<Vec<char>> = Vec::new();
    let mut current: Vec<char> = Vec::new();
    let mut i: usize = 0;
    assert(done@.map_values(|v: Vec<char>| v@).push(current@) == comma_pieces(chars@.take(0)));
    while i < chars.len()
        invariant
            i <= chars@.len(),
            done@.map_values(|v: Vec<char>| v@).push(current@) == comma_pieces(
                chars@.take(i as int),
            ),
        decreases chars@.len() - i,
    {
        let c: char = chars[i];
        let ghost before = done@.map_values(|v: Vec<char>| v@).push(current@);
        assert(chars@.take(i + 1).drop_last() == chars@.take(i as int));
        assert(chars@.take(i + 1).last() == c);
        if c == ',' {
            done.push(current);
            current = Vec::new();
            assert(done@.map_values(|v: Vec<char>| v@) == before);
        } else {
            current.push(c);
            assert(before.drop_last() == done@.map_values(|v: Vec<char>| v@));
        }
        i += 1;
    }
    assert(chars@.take(i as int) == chars@);
    done.push(current);
    assert(done@.map_values(|v: Vec<char>| v@) == comma_pieces(s@));
    done
}

/// Whether `a` comes before `b` when text is ordered by its characters, the first
/// difference deciding.
pub open spec fn text_before(a: Seq<char>, b: Seq<char>) -> bool
    decreases a.len(),
{
    if b.len() == 0 {
        false
    } else if a.len() == 0 {
        true
    } else if a[0] != b[0] {
        a[0] < b[0]
    } else {
        text_before(a.drop_first(), b.drop_first())
    }
}

pub proof fn lemma_text_before_transitive(a: Seq<char>, b: Seq<char>, c: Seq<char>)
    requires
        text_before(a, b),
        text_before(b, c),
    ensures
        text_before(a, c),
    decreases a.len(),
{
    if a.len() > 0 && a[0] == b[0] && b[0] == c[0] {
        lemma_text_before_transitive(a.drop_first(), b.drop_first(), c.drop_first());
    }
}

pub proof fn lemma_text_before_irreflexive(a: Seq<char>)
    ensures
        !text_before(a, a),
    decreases a.len(),
{
    if a.len() > 0 {
        lemma_text_before_irreflexive(a.drop_first());
    }
}

pub proof fn lemma_text_before_total(a: Seq<char>, b: Seq<char>)
    ensures
        text_before(a, b) || text_before(b, a) || a == b,
    decreases a.len(),
{
    if a.len() == 0 {
        if b.len() == 0 {
            assert(a == b);
        }
    } else if b.len() > 0 && a[0] == b[0] {
        lemma_text_before_total(a.drop_first(), b.drop_first());
        if a.drop_first() == b.drop_first() {
            assert(a == seq![a[0]] + a.drop_first());
            assert(b == seq![b[0]] + b.drop_first());
        }
    }
}

/// Whether `a` comes before `b` in the order of their characters.
pub fn comes_before(a: &str, b: &str) -> (r: bool)
    ensures
        r == text_before(a@, b@),
{
    let x = chars_of(a);
    let y = chars_of(b);
    let mut i: usize = 0;
    assert(x@.skip(0) == a@ && y@.skip(0) == b@);
    while i < x.len() && i < y.len()
        invariant
            i <= x@.len(),
            i <= y@.len(),
            text_before(x@.skip(i as int), y@.skip(i as int)) == text_before(a@, b@),
        decreases x@.len() - i,
    {
        if x[i] != y[i] {
            return x[i] < y[i];
        }
        assert(x@.skip(i as int).drop_first() == x@.skip(i + 1));
        assert(y@.skip(i as int).drop_first() == y@.skip(i + 1));
        i += 1;
    }
    i < y.len()
}

/// Whether a text starts with another.
pub open spec fn has_prefix(s: Seq<char>, p: Seq<char>) -> bool {
    p.len() <= s.len() && s.take(p.len() as int) == p
}

/// Whether a text ends with another.
pub open spec fn has_suffix(s: Seq<char>, p: Seq<char>) -> bool {
    p.len() <= s.len() && s.skip(s.len() - p.len()) == p
}

/// Whether `b` stands in `a` at a place.
fn same_at(a: &Vec<char>, b: &Vec<char>, start: usize) -> (r: bool)
    requires
        start + b@.len() <= a@.len(),
    ensures
        r == (a@.subrange(start as int, start + b@.len()) == b@),
{
    let ghost part = a@.subrange(start as int, start + b@.len());
    let mut i: usize = 0;
    while i < b.len()
        invariant
            i <= b@.len(),
            start + b.len() <= a.len(),
            part == a@.subrange(start as int, start + b@.len()),
            forall|k: int| 0 <= k < i ==> part[k] == b@[k],
        decreases b@.len() - i,
    {
        if a[start + i] != b[i] {
            assert(part[i as int] != b@[i as int]);
            return false;
        }
        i += 1;
    }
    assert(part == b@);
    true
}

/// Whether a text starts with another.
pub fn starts_with(s: &str, p: &str) -> (r: bool)
    ensures
        r == has_prefix(s@, p@),
{
    let a = chars_of(s);
    let b = chars_of(p);
    if b.len() > a.len() {
        return false;
    }
    assert(s@.subrange(0, p@.len() as int) == s@.take(p@.len() as int));
    same_at(&a, &b, 0)
}

/// Whether a text ends with another.
pub fn ends_with(s: &str, p: &str) -> (r: bool)
    ensures
        r == has_suffix(s@, p@),
{
    let a = chars_of(s);
    let b = chars_of(p);
    if b.len() > a.len() {
        return false;
    }
    assert(s@.subrange(s@.len() - p@.len(), s@.len() as int) == s@.skip(s@.len() - p@.len()));
    same_at(&a, &b, a.len() - b.len())
}

/// Text of spaces.
pub open spec fn spaces(n: nat) -> Seq<char> {
    Seq::new(n, |i: int| ' ')
}

/// The spaces that are missing to a width.
pub open spec fn missing(s: Seq<char>, width: nat) -> nat {
    if s.len() < width {
        (width - s.len()) as nat
    } else {
        0
    }
}

fn spaces_for(s: &str, width: usize) -> (r: String)
    ensures
        r@ == spaces(missing(s@, width as nat)),
{
    let mut left: usize = chars_of(s).len();
    let mut out = String::new();
    assert(out@ == spaces(0));
    while left < width
        invariant
            s@.len() <= left,
            left <= width || left == s@.len(),
            out@ == spaces((left - s@.len()) as nat),
        decreases width - left,
    {
        out.push(' ');
        left += 1;
        assert(out@ == spaces((left - s@.len()) as nat));
    }
    out
}

/// Text with spaces behind it up to a width.
pub fn pad_right(s: &str, width: usize) -> (r: String)
    ensures
        r@ == s@ + spaces(missing(s@, width as nat)),
{
    join2(s, spaces_for(s, width).as_str())
}

/// Text with spaces before it up to a width.
pub fn pad_left(s: &str, width: usize) -> (r: String)
    ensures
        r@ == spaces(missing(s@, width as nat)) + s@,
{
    join2(spaces_for(s, width).as_str(), s)
}

} // verus!
