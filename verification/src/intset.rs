//! Intset decoder: the sorted-integer encoding of small integer sets.
//!
//! Layout: four bytes of element width (2, 4 or 8), four bytes of element count, then the
//! elements, all little-endian.

use crate::bytes;
use crate::text;
use crate::text::{decimal_i64_bytes, with_number, with_numbers};
use crate::types;
use crate::types::{corrupt, RdbError, RdbErrorV};
use vstd::prelude::*;

verus! {

/// Largest element count that is decoded.
pub const MAX_INTSET_ELEMENTS: usize = 10_000_000;

/// The signed element of the given width at `p`.
pub open spec fn element(data: Seq<u8>, p: int, width: int) -> int {
    if width == 2 {
        bytes::twos(bytes::le16(data, p), 0x8000)
    } else if width == 4 {
        bytes::twos(bytes::le32(data, p), 0x8000_0000)
    } else {
        bytes::twos(bytes::le64(data, p), 0x8000_0000_0000_0000)
    }
}

/// The members of an intset blob, in decimal.
pub open spec fn members(data: Seq<u8>) -> Result<Seq<Seq<u8>>, RdbErrorV> {
    let width = bytes::le32(data, 0);
    let count = bytes::le32(data, 4);
    if data.len() < 8 {
        Err(RdbErrorV::CorruptData("intset too short for header"@))
    } else if count > MAX_INTSET_ELEMENTS {
        Err(
            RdbErrorV::CorruptData(
                "intset element count "@ + text::dec(count) + " exceeds limit 10000000"@,
            ),
        )
    } else if width != 2 && width != 4 && width != 8 {
        Err(RdbErrorV::CorruptData("intset unknown encoding: "@ + text::dec(width) + ""@))
    } else if data.len() != 8 + count * width {
        Err(
            RdbErrorV::CorruptData(
                "intset size mismatch: expected "@ + text::dec(8 + count * width)
                    + " bytes, have "@ + text::dec(data.len() as int) + ""@,
            ),
        )
    } else {
        Ok(
            Seq::new(
                count as nat,
                |i: int| text::decimal_int(element(data, 8 + i * width, width)),
            ),
        )
    }
}

/// Decodes all members of an intset blob, returning them as decimal ASCII bytes.
pub fn decode(data: &[u8]) -> (r: Result<Vec<Vec<u8>>, RdbError>)
    ensures
        (match r {
            Ok(v) => Ok(types::byte_strings(v@)),
            Err(e) => Err(e@),
        }) == members(data@),
{
    if data.len() < 8 {
        return Err(corrupt("intset too short for header"));
    }
    let width: u32 = bytes::get_le32(data, 0);
    let length: u32 = bytes::get_le32(data, 4);
    if length > MAX_INTSET_ELEMENTS as u32 {
        return Err(
            RdbError::CorruptData(
                with_number("intset element count ", length as u64, " exceeds limit 10000000"),
            ),
        );
    }
    if width != 2 && width != 4 && width != 8 {
        return Err(
            RdbError::CorruptData(with_number("intset unknown encoding: ", width as u64, "")),
        );
    }
    let elem_size: usize = width as usize;
    let count: usize = length as usize;
    assert(0 <= count * elem_size <= 80_000_000) by (nonlinear_arith)
        requires
            count <= 10_000_000,
            elem_size <= 8,
    ;
    let expected_size: usize = 8 + count * elem_size;
    if data.len() != expected_size {
        return Err(
            RdbError::CorruptData(
                with_numbers(
                    "intset size mismatch: expected ",
                    expected_size as u64,
                    " bytes, have ",
                    data.len() as u64,
                    "",
                ),
            ),
        );
    }
    let mut members_out: Vec<Vec<u8>> = Vec::with_capacity(count);
    let mut pos: usize = 8;
    let mut i: usize = 0;
    while i < count
        invariant
            i <= count,
            elem_size == 2 || elem_size == 4 || elem_size == 8,
            width == elem_size,
            data.len() == 8 + count * elem_size,
            pos == 8 + i * elem_size,
            types::byte_strings(members_out@) == Seq::new(
                i as nat,
                |k: int|
                    text::decimal_int(element(data@, 8 + k * elem_size, elem_size as int)),
            ),
        decreases count - i,
    {
        assert(i * elem_size + elem_size <= count * elem_size && (i + 1) * elem_size == i
            * elem_size + elem_size) by (nonlinear_arith)
            requires
                i + 1 <= count,
        ;
        let val: i64 = if width == 2 {
            bytes::signed16(bytes::get_le16(data, pos))
        } else if width == 4 {
            bytes::signed32(bytes::get_le32(data, pos))
        } else {
            bytes::signed64(bytes::get_le64(data, pos))
        };
        let ghost before = members_out@;
        members_out.push(decimal_i64_bytes(val));
        assert(types::byte_strings(members_out@) == types::byte_strings(before).push(
            text::decimal_int(val as int),
        ));
        pos += elem_size;
        i += 1;
        assert(types::byte_strings(members_out@) == Seq::new(
            i as nat,
            |k: int| text::decimal_int(element(data@, 8 + k * elem_size, elem_size as int)),
        ));
    }
    Ok(members_out)
}

// ---- Laws ----

/// The first value of a width that counts as negative.
pub open spec fn half_of(width: nat) -> int {
    if width == 2 {
        0x8000
    } else if width == 4 {
        0x8000_0000
    } else {
        0x8000_0000_0000_0000
    }
}

/// The bytes of signed numbers of a width, in a row.
pub open spec fn packed(values: Seq<int>, width: nat) -> Seq<u8>
    decreases values.len(),
{
    if values.len() == 0 {
        Seq::empty()
    } else {
        packed(values.drop_last(), width) + bytes::le_bytes(
            bytes::unsigned(values.last(), half_of(width)),
            width,
        )
    }
}

/// An intset of signed numbers of a width.
pub open spec fn intset_of(values: Seq<int>, width: nat) -> Seq<u8> {
    bytes::le_bytes(width, 4) + bytes::le_bytes(values.len(), 4) + packed(values, width)
}

proof fn lemma_packed(values: Seq<int>, width: nat, i: int)
    requires
        0 <= i < values.len(),
    ensures
        packed(values, width).len() == values.len() * width,
        0 <= i * width <= (i + 1) * width <= values.len() * width,
        packed(values, width).subrange(i * width, (i + 1) * width) == bytes::le_bytes(
            bytes::unsigned(values[i], half_of(width)),
            width,
        ),
    decreases values.len(),
{
    let front = values.drop_last();
    let last = bytes::le_bytes(bytes::unsigned(values.last(), half_of(width)), width);
    bytes::lemma_le_bytes(bytes::unsigned(values.last(), half_of(width)), width);
    let n = values.len() as int;
    assert(n * width == (n - 1) * width + width) by (nonlinear_arith);
    assert(0 <= i * width <= (i + 1) * width <= n * width) by (nonlinear_arith)
        requires
            0 <= i,
            i + 1 <= n,
            width >= 0,
    ;
    let all = packed(values, width);
    if front.len() == 0 {
        assert(packed(front, width) == Seq::<u8>::empty());
        assert(0 * width == 0) by (nonlinear_arith);
        assert(all.subrange(i * width, (i + 1) * width) == last);
    } else {
        lemma_packed(
            front,
            width,
            if i < n - 1 {
                i
            } else {
                0
            },
        );
        if i < n - 1 {
            assert(all.subrange(i * width, (i + 1) * width) == packed(front, width).subrange(
                i * width,
                (i + 1) * width,
            ));
        } else {
            assert(all.subrange(i * width, (i + 1) * width) == last);
        }
    }
}

/// An intset reads back as the numbers that it was made of, in decimal and in their order.
pub proof fn law_intset_reads_back(values: Seq<int>, width: nat)
    requires
        width == 2 || width == 4 || width == 8,
        values.len() <= MAX_INTSET_ELEMENTS,
        forall|i: int|
            0 <= i < values.len() ==> -half_of(width) <= #[trigger] values[i] < half_of(width),
    ensures
        members(intset_of(values, width)) == Ok::<Seq<Seq<u8>>, RdbErrorV>(
            values.map_values(|v: int| text::decimal_int(v)),
        ),
{
    let data = intset_of(values, width);
    let body = packed(values, width);
    bytes::lemma_le_bytes(width, 4);
    bytes::lemma_le_bytes(values.len(), 4);
    assert(data.subrange(0, 4) == bytes::le_bytes(width, 4));
    assert(data.subrange(4, 8) == bytes::le_bytes(values.len(), 4));
    bytes::law_le_reads_back(data, 0, width);
    bytes::law_le_reads_back(data, 4, values.len());
    if values.len() > 0 {
        lemma_packed(values, width, 0);
    } else {
        assert(0 * width == 0) by (nonlinear_arith);
    }
    assert(body.len() == values.len() * width);
    let shown = values.map_values(|v: int| text::decimal_int(v));
    let read = Seq::new(
        values.len(),
        |i: int| text::decimal_int(element(data, 8 + i * width, width as int)),
    );
    assert forall|i: int| 0 <= i < values.len() implies #[trigger] element(
        data,
        8 + i * width,
        width as int,
    ) == values[i] by {
        lemma_packed(values, width, i);
        assert((i + 1) * width == i * width + width) by (nonlinear_arith);
        let p = 8 + i * width;
        let half = half_of(width);
        let n = bytes::unsigned(values[i], half);
        assert(data.subrange(p, p + width) == body.subrange(i * width, (i + 1) * width));
        bytes::law_le_reads_back(data, p, n);
    }
    assert(read == shown) by {
        assert forall|i: int| 0 <= i < values.len() implies read[i] == shown[i] by {
            assert(element(data, 8 + i * width, width as int) == values[i]);
        }
    }
}

} // verus!
