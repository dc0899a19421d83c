//! Integers in byte sequences, in both byte orders.

use vstd::prelude::*;

verus! {

/// The 16-bit little-endian number at `p`.
pub open spec fn le16(s: Seq<u8>, p: int) -> int {
    s[p] + s[p + 1] * 0x100
}

/// The 32-bit little-endian number at `p`.
pub open spec fn le32(s: Seq<u8>, p: int) -> int {
    le16(s, p) + le16(s, p + 2) * 0x1_0000
}

/// The 64-bit little-endian number at `p`.
pub open spec fn le64(s: Seq<u8>, p: int) -> int {
    le32(s, p) + le32(s, p + 4) * 0x1_0000_0000
}

/// The 16-bit big-endian number at `p`.
pub open spec fn be16(s: Seq<u8>, p: int) -> int {
    s[p] * 0x100 + s[p + 1]
}

/// The 32-bit big-endian number at `p`.
pub open spec fn be32(s: Seq<u8>, p: int) -> int {
    be16(s, p) * 0x1_0000 + be16(s, p + 2)
}

/// The 64-bit big-endian number at `p`.
pub open spec fn be64(s: Seq<u8>, p: int) -> int {
    be32(s, p) * 0x1_0000_0000 + be32(s, p + 4)
}

/// The signed number that `n` stands for in two's complement, where `half` is the first
/// value that counts as negative.
pub open spec fn twos(n: int, half: int) -> int {
    if n >= half {
        n - 2 * half
    } else {
        n
    }
}

/// The low bytes of a number, the lowest first.
pub open spec fn le_bytes(n: nat, size: nat) -> Seq<u8>
    decreases size,
{
    if size == 0 {
        Seq::empty()
    } else {
        seq![(n % 0x100) as u8] + le_bytes(n / 0x100, (size - 1) as nat)
    }
}

/// The number that stands for a signed number in two's complement, where `half` is the first
/// value that counts as negative.
pub open spec fn unsigned(v: int, half: int) -> nat {
    if v < 0 {
        (v + 2 * half) as nat
    } else {
        v as nat
    }
}

pub proof fn lemma_le_bytes(n: nat, size: nat)
    ensures
        le_bytes(n, size).len() == size,
    decreases size,
{
    if size > 0 {
        lemma_le_bytes(n / 0x100, (size - 1) as nat);
    }
}

/// Bytes that were written with the lowest first are read as the number they were.
pub proof fn law_le_reads_back(s: Seq<u8>, p: int, n: nat)
    ensures
        n < 0x1_0000 && 0 <= p && p + 2 <= s.len() && s.subrange(p, p + 2) == le_bytes(n, 2)
            ==> le16(s, p) == n,
        n < 0x1_0000_0000 && 0 <= p && p + 4 <= s.len() && s.subrange(p, p + 4) == le_bytes(n, 4)
            ==> le32(s, p) == n,
        n < 0x1_0000_0000_0000_0000 && 0 <= p && p + 8 <= s.len() && s.subrange(p, p + 8)
            == le_bytes(n, 8) ==> le64(s, p) == n,
{
    if 0 <= p && p + 2 <= s.len() && s.subrange(p, p + 2) == le_bytes(n, 2) {
        lemma_le16(s, p, n);
    }
    if 0 <= p && p + 4 <= s.len() && s.subrange(p, p + 4) == le_bytes(n, 4) {
        lemma_le32(s, p, n);
    }
    if 0 <= p && p + 8 <= s.len() && s.subrange(p, p + 8) == le_bytes(n, 8) {
        lemma_le_take(n, 4, 8);
        lemma_le_skip(n, 8);
        lemma_le_skip(n / 0x1_0000, 6);
        assert(s.subrange(p, p + 4) == s.subrange(p, p + 8).take(4));
        assert(s.subrange(p + 4, p + 8) == s.subrange(p, p + 8).skip(2).skip(2));
        lemma_le32(s, p, n);
        lemma_le32(s, p + 4, n / 0x1_0000 / 0x1_0000);
    }
}

proof fn lemma_le_take(n: nat, a: nat, size: nat)
    requires
        a <= size,
    ensures
        le_bytes(n, size).take(a as int) == le_bytes(n, a),
    decreases size,
{
    if a > 0 {
        lemma_le_bytes(n / 0x100, (size - 1) as nat);
        lemma_le_take(n / 0x100, (a - 1) as nat, (size - 1) as nat);
        assert(le_bytes(n, size).take(a as int) == seq![(n % 0x100) as u8] + le_bytes(
            n / 0x100,
            (size - 1) as nat,
        ).take(a - 1));
    } else {
        assert(le_bytes(n, size).take(0) == Seq::<u8>::empty());
    }
}

proof fn lemma_le_skip(n: nat, size: nat)
    requires
        size >= 2,
    ensures
        le_bytes(n, size).skip(2) == le_bytes(n / 0x1_0000, (size - 2) as nat),
{
    reveal_with_fuel(le_bytes, 3);
    assert(n / 0x100 / 0x100 == n / 0x1_0000);
    assert(le_bytes(n, size).skip(2) == le_bytes(n / 0x100 / 0x100, (size - 2) as nat));
}

proof fn lemma_le16(s: Seq<u8>, p: int, n: nat)
    requires
        0 <= p,
        p + 2 <= s.len(),
        s.subrange(p, p + 2) == le_bytes(n, 2),
    ensures
        le16(s, p) == n % 0x1_0000,
{
    reveal_with_fuel(le_bytes, 3);
    let t = s.subrange(p, p + 2);
    assert(t[0] == s[p] && t[1] == s[p + 1]);
}

proof fn lemma_le32(s: Seq<u8>, p: int, n: nat)
    requires
        0 <= p,
        p + 4 <= s.len(),
        s.subrange(p, p + 4) == le_bytes(n, 4),
    ensures
        le32(s, p) == n % 0x1_0000_0000,
{
    lemma_le_take(n, 2, 4);
    lemma_le_skip(n, 4);
    assert(s.subrange(p, p + 2) == s.subrange(p, p + 4).take(2));
    assert(s.subrange(p + 2, p + 4) == s.subrange(p, p + 4).skip(2));
    lemma_le16(s, p, n);
    lemma_le16(s, p + 2, n / 0x1_0000);
}

/// Reads a 16-bit little-endian number.
pub fn get_le16(s: &[u8], p: usize) -> (r: u16)
    requires
        p + 2 <= s.len(),
    ensures
        r as int == le16(s@, p as int),
{
    s[p] as u16 + s[p + 1] as u16 * 0x100
}

/// Reads a 32-bit little-endian number.
pub fn get_le32(s: &[u8], p: usize) -> (r: u32)
    requires
        p + 4 <= s.len(),
    ensures
        r as int == le32(s@, p as int),
{
    get_le16(s, p) as u32 + get_le16(s, p + 2) as u32 * 0x1_0000
}

/// Reads a 64-bit little-endian number.
pub fn get_le64(s: &[u8], p: usize) -> (r: u64)
    requires
        p + 8 <= s.len(),
    ensures
        r as int == le64(s@, p as int),
{
    get_le32(s, p) as u64 + get_le32(s, p + 4) as u64 * 0x1_0000_0000
}

/// Reads a 32-bit big-endian number.
pub fn get_be32(s: &[u8], p: usize) -> (r: u32)
    requires
        p + 4 <= s.len(),
    ensures
        r as int == be32(s@, p as int),
{
    let hi: u32 = s[p] as u32 * 0x100 + s[p + 1] as u32;
    let lo: u32 = s[p + 2] as u32 * 0x100 + s[p + 3] as u32;
    hi * 0x1_0000 + lo
}

/// Reads a 64-bit big-endian number.
pub fn get_be64(s: &[u8], p: usize) -> (r: u64)
    requires
        p + 8 <= s.len(),
    ensures
        r as int == be64(s@, p as int),
{
    get_be32(s, p) as u64 * 0x1_0000_0000 + get_be32(s, p + 4) as u64
}

/// The signed 8-bit number with the given unsigned form.
pub fn signed8(n: u8) -> (r: i64)
    ensures
        r as int == twos(n as int, 0x80),
{
    if n >= 0x80 {
        n as i64 - 0x100
    } else {
        n as i64
    }
}

/// The signed 16-bit number with the given unsigned form.
pub fn signed16(n: u16) -> (r: i64)
    ensures
        r as int == twos(n as int, 0x8000),
{
    if n >= 0x8000 {
        n as i64 - 0x1_0000
    } else {
        n as i64
    }
}

/// The signed 32-bit number with the given unsigned form.
pub fn signed32(n: u32) -> (r: i64)
    ensures
        r as int == twos(n as int, 0x8000_0000),
{
    if n >= 0x8000_0000 {
        n as i64 - 0x1_0000_0000
    } else {
        n as i64
    }
}

/// The signed 64-bit number with the given unsigned form.
pub fn signed64(n: u64) -> (r: i64)
    ensures
        r as int == twos(n as int, 0x8000_0000_0000_0000),
{
    if n >= 0x8000_0000_0000_0000 {
        (n as i128 - 0x1_0000_0000_0000_0000) as i64
    } else {
        n as i64
    }
}

/// A copy of the bytes from `from` up to `to`.
pub fn copy_range(s: &[u8], from: usize, to: usize) -> (r: Vec<u8>)
    requires
        from <= to <= s.len(),
    ensures
        r@ == s@.subrange(from as int, to as int),
{
    vstd::slice::slice_to_vec(vstd::slice::slice_subrange(s, from, to))
}

/// A copy of a byte vector.
pub fn copy_bytes(v: &Vec<u8>) -> (r: Vec<u8>)
    ensures
        r@ == v@,
{
    vstd::slice::slice_to_vec(v.as_slice())
}

} // verus!
