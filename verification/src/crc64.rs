//! The CRC-64 that guards an RDB file: Jones polynomial, reflected, no final inversion.

use vstd::prelude::*;

verus! {

/// The reflected Jones polynomial.
pub const POLYNOMIAL: u64 = 0x95ac_9329_ac4b_c9b5;

/// One bit of the division: shift right, and subtract the polynomial if a one fell out.
pub open spec fn bit_step(crc: u64) -> u64 {
    if crc & 1 == 1 {
        (crc >> 1) ^ POLYNOMIAL
    } else {
        crc >> 1
    }
}

/// `n` bits of the division.
pub open spec fn bit_steps(crc: u64, n: nat) -> u64
    decreases n,
{
    if n == 0 {
        crc
    } else {
        bit_steps(bit_step(crc), (n - 1) as nat)
    }
}

/// The checksum of `data`, continued from `crc`.
pub open spec fn crc64(crc: u64, data: Seq<u8>) -> u64
    decreases data.len(),
{
    if data.len() == 0 {
        crc
    } else {
        bit_steps(crc64(crc, data.drop_last()) ^ (data.last() as u64), 8)
    }
}

/// Continuing a checksum over a second piece gives the checksum of both in a row.
pub proof fn law_crc64_append(crc: u64, a: Seq<u8>, b: Seq<u8>)
    ensures
        crc64(crc64(crc, a), b) == crc64(crc, a + b),
    decreases b.len(),
{
    if b.len() == 0 {
        assert(a + b == a);
    } else {
        law_crc64_append(crc, a, b.drop_last());
        assert((a + b).drop_last() == a + b.drop_last());
        assert((a + b).last() == b.last());
    }
}

proof fn lemma_step_linear(x: u64, y: u64)
    ensures
        bit_step(x ^ y) == bit_step(x) ^ bit_step(y),
{
    assert((if (x ^ y) & 1 == 1 {
        ((x ^ y) >> 1) ^ 0x95ac_9329_ac4b_c9b5u64
    } else {
        (x ^ y) >> 1
    }) == (if x & 1 == 1 {
        (x >> 1) ^ 0x95ac_9329_ac4b_c9b5u64
    } else {
        x >> 1
    }) ^ (if y & 1 == 1 {
        (y >> 1) ^ 0x95ac_9329_ac4b_c9b5u64
    } else {
        y >> 1
    })) by (bit_vector);
}

proof fn lemma_steps_linear(x: u64, y: u64, n: nat)
    ensures
        bit_steps(x ^ y, n) == bit_steps(x, n) ^ bit_steps(y, n),
    decreases n,
{
    if n > 0 {
        lemma_step_linear(x, y);
        lemma_steps_linear(bit_step(x), bit_step(y), (n - 1) as nat);
    }
}

/// Checksums of two pieces of data and of what their bits differ in: where the starts and the
/// bytes are combined by exclusive or, so are the checksums.
pub proof fn law_crc64_linear(a: u64, b: u64, x: Seq<u8>, y: Seq<u8>)
    requires
        x.len() == y.len(),
    ensures
        crc64(a ^ b, Seq::new(x.len(), |i: int| x[i] ^ y[i])) == crc64(a, x) ^ crc64(b, y),
    decreases x.len(),
{
    let both = Seq::new(x.len(), |i: int| x[i] ^ y[i]);
    if x.len() > 0 {
        let xs = x.drop_last();
        let ys = y.drop_last();
        law_crc64_linear(a, b, xs, ys);
        assert(both.drop_last() == Seq::new(xs.len(), |i: int| xs[i] ^ ys[i]));
        let p = crc64(a, xs);
        let q = crc64(b, ys);
        let c = x.last();
        let d = y.last();
        assert((p ^ q) ^ ((c ^ d) as u64) == (p ^ (c as u64)) ^ (q ^ (d as u64))) by (bit_vector);
        lemma_steps_linear(p ^ (c as u64), q ^ (d as u64), 8);
    }
}

proof fn lemma_steps_tell(x: u64, y: u64, n: nat)
    requires
        x != y,
    ensures
        bit_steps(x, n) != bit_steps(y, n),
    decreases n,
{
    if n > 0 {
        assert((if x & 1 == 1 {
            (x >> 1) ^ 0x95ac_9329_ac4b_c9b5u64
        } else {
            x >> 1
        }) != (if y & 1 == 1 {
            (y >> 1) ^ 0x95ac_9329_ac4b_c9b5u64
        } else {
            y >> 1
        })) by (bit_vector)
            requires
                x != y,
        ;
        lemma_steps_tell(bit_step(x), bit_step(y), (n - 1) as nat);
    }
}

/// Over the same data, checksums that start differently end differently.
pub proof fn law_crc64_tells_starts(a: u64, b: u64, data: Seq<u8>)
    requires
        a != b,
    ensures
        crc64(a, data) != crc64(b, data),
    decreases data.len(),
{
    if data.len() > 0 {
        law_crc64_tells_starts(a, b, data.drop_last());
        let p = crc64(a, data.drop_last());
        let q = crc64(b, data.drop_last());
        let c = data.last() as u64;
        assert(p ^ c != q ^ c) by (bit_vector)
            requires
                p != q,
        ;
        lemma_steps_tell(p ^ c, q ^ c, 8);
    }
}

/// Data that differ in one byte have different checksums.
pub proof fn law_crc64_tells_bytes(crc: u64, a: Seq<u8>, i: int, x: u8)
    requires
        0 <= i < a.len(),
        x != a[i],
    ensures
        crc64(crc, a) != crc64(crc, a.update(i, x)),
{
    let start = a.take(i);
    let rest = a.skip(i + 1);
    let one = seq![a[i]];
    let other = seq![x];
    assert(a == start + one + rest);
    assert(a.update(i, x) == start + other + rest);
    law_crc64_append(crc, start + one, rest);
    law_crc64_append(crc, start + other, rest);
    assert((start + one).drop_last() == start);
    assert((start + other).drop_last() == start);
    let p = crc64(crc, start);
    let y = a[i];
    assert(p ^ (x as u64) != p ^ (y as u64)) by (bit_vector)
        requires
            x != y,
    ;
    lemma_steps_tell(p ^ (y as u64), p ^ (x as u64), 8);
    law_crc64_tells_starts(crc64(crc, start + one), crc64(crc, start + other), rest);
}

/// Eight steps on a number whose low byte is zero only shift it.
proof fn lemma_steps_shift(h: u64)
    requires
        h & 0xff == 0,
    ensures
        bit_steps(h, 8) == h >> 8,
{
    reveal_with_fuel(bit_steps, 9);
    let h1 = h >> 1;
    let h2 = h1 >> 1;
    let h3 = h2 >> 1;
    let h4 = h3 >> 1;
    let h5 = h4 >> 1;
    let h6 = h5 >> 1;
    let h7 = h6 >> 1;
    let h8 = h7 >> 1;
    assert(h & 1 == 0 && (h >> 1) & 1 == 0 && (h >> 1 >> 1) & 1 == 0 && (h >> 1 >> 1 >> 1) & 1 == 0
        && (h >> 1 >> 1 >> 1 >> 1) & 1 == 0 && (h >> 1 >> 1 >> 1 >> 1 >> 1) & 1 == 0 && (h >> 1 >> 1
        >> 1 >> 1 >> 1 >> 1) & 1 == 0 && (h >> 1 >> 1 >> 1 >> 1 >> 1 >> 1 >> 1) & 1 == 0 && h >> 1
        >> 1 >> 1 >> 1 >> 1 >> 1 >> 1 >> 1 == h >> 8) by (bit_vector)
        requires
            h & 0xff == 0,
    ;
    assert(bit_step(h) == h1 && bit_step(h1) == h2 && bit_step(h2) == h3 && bit_step(h3) == h4);
    assert(bit_step(h4) == h5 && bit_step(h5) == h6 && bit_step(h6) == h7 && bit_step(h7) == h8);
}

/// One byte at a time: eight steps are one shift and the eight steps of the low byte.
proof fn lemma_byte_step(x: u64)
    ensures
        bit_steps(x, 8) == (x >> 8) ^ bit_steps(x & 0xff, 8),
{
    let low = x & 0xff;
    let high = x & !0xffu64;
    assert(x & 0xff ^ (x & !0xffu64) == x && (x & !0xffu64) & 0xff == 0 && (x & !0xffu64) >> 8 == x
        >> 8) by (bit_vector);
    lemma_steps_linear(low, high, 8);
    lemma_steps_shift(high);
    let a = bit_steps(low, 8);
    let b = x >> 8;
    assert(a ^ b == b ^ a) by (bit_vector);
}

/// The eight steps of every byte value, worked out once.
pub struct Crc64Table {
    steps: Vec<u64>,
}

impl Crc64Table {
    #[verifier::type_invariant]
    spec fn complete(self) -> bool {
        &&& self.steps@.len() == 256
        &&& forall|i: int|
            0 <= i < 256 ==> #[trigger] self.steps@[i] == bit_steps(i as u64, 8)
    }

    /// The table, by byte value.
    pub closed spec fn table(&self) -> Seq<u64> {
        self.steps@
    }

    /// The table of the polynomial.
    pub fn new() -> (r: Self)
        ensures
            r.table() == Seq::new(256, |i: int| bit_steps(i as u64, 8)),
    {
        let mut steps: Vec<u64> = Vec::new();
        let mut i: u64 = 0;
        while i < 256
            invariant
                i <= 256,
                steps@.len() == i,
                forall|k: int| 0 <= k < i ==> #[trigger] steps@[k] == bit_steps(k as u64, 8),
            decreases 256 - i,
        {
            let mut crc: u64 = i;
            let mut bit: usize = 0;
            while bit < 8
                invariant
                    bit <= 8,
                    bit_steps(crc, (8 - bit) as nat) == bit_steps(i, 8),
                decreases 8 - bit,
            {
                if crc & 1 == 1 {
                    crc = (crc >> 1) ^ POLYNOMIAL;
                } else {
                    crc = crc >> 1;
                }
                bit += 1;
            }
            steps.push(crc);
            i += 1;
        }
        assert(steps@ == Seq::new(256, |i: int| bit_steps(i as u64, 8)));
        Crc64Table { steps }
    }

    /// The checksum of `data`, continued from `crc`.
    pub fn update(&self, crc: u64, data: &[u8]) -> (r: u64)
        ensures
            r == crc64(crc, data@),
    {
        proof {
            use_type_invariant(self);
        }
        let mut value: u64 = crc;
        let mut i: usize = 0;
        assert(data@.take(0).len() == 0);
        while i < data.len()
            invariant
                self.complete(),
                i <= data@.len(),
                value == crc64(crc, data@.take(i as int)),
            decreases data@.len() - i,
        {
            let x: u64 = value ^ (data[i] as u64);
            let low: u64 = x & 0xff;
            assert(x & 0xff < 256) by (bit_vector);
            proof {
                lemma_byte_step(x);
                assert(data@.take(i + 1).drop_last() == data@.take(i as int));
                assert(data@.take(i + 1).last() == data@[i as int]);
            }
            value = (x >> 8) ^ self.steps[low as usize];
            i += 1;
        }
        assert(data@.take(i as int) == data@);
        value
    }
}

} // verus!
