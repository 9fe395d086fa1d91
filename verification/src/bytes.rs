//! Little-endian integers and length-prefixed parts.

use vstd::prelude::*;

verus! {

/// The `width` low bytes of a value, least significant first.
pub open spec fn le_bytes(value: int, width: nat) -> Seq<u8>
    decreases width,
{
    if width == 0 {
        Seq::empty()
    } else {
        seq![(value % 256) as u8] + le_bytes(value / 256, (width - 1) as nat)
    }
}

/// The value of bytes, least significant first.
pub open spec fn le_value(bytes: Seq<u8>) -> int
    decreases bytes.len(),
{
    if bytes.len() == 0 {
        0
    } else {
        bytes[0] + 256 * le_value(bytes.drop_first())
    }
}

/// `256` to the power of `width`.
pub open spec fn byte_range(width: nat) -> int
    decreases width,
{
    if width == 0 {
        1
    } else {
        256 * byte_range((width - 1) as nat)
    }
}

/// Reading back what was written gives the value.
pub proof fn law_le_bytes_read_back(value: int, width: nat)
    requires
        0 <= value < byte_range(width),
    ensures
        le_bytes(value, width).len() == width,
        le_value(le_bytes(value, width)) == value,
    decreases width,
{
    if width > 0 {
        assert(0 <= value / 256 < byte_range((width - 1) as nat)) by (nonlinear_arith)
            requires
                0 <= value < 256 * byte_range((width - 1) as nat),
        ;
        law_le_bytes_read_back(value / 256, (width - 1) as nat);
        let bytes = le_bytes(value, width);
        assert(bytes.drop_first() =~= le_bytes(value / 256, (width - 1) as nat));
        assert(bytes[0] == value % 256);
    }
}

/// Writing back what was read gives the bytes.
pub proof fn law_le_value_writes_back(bytes: Seq<u8>)
    ensures
        0 <= le_value(bytes) < byte_range(bytes.len()),
        le_bytes(le_value(bytes), bytes.len()) == bytes,
    decreases bytes.len(),
{
    if bytes.len() > 0 {
        let rest = bytes.drop_first();
        law_le_value_writes_back(rest);
        let value = le_value(bytes);
        assert(value % 256 == bytes[0] as int && value / 256 == le_value(rest)) by (nonlinear_arith)
            requires
                value == bytes[0] as int + 256 * le_value(rest),
                0 <= bytes[0] as int,
                (bytes[0] as int) < 256,
        ;
        assert(le_bytes(value, bytes.len()) =~= bytes);
    }
}

pub proof fn lemma_le_bytes_len(value: int, width: nat)
    ensures
        le_bytes(value, width).len() == width,
    decreases width,
{
    if width > 0 {
        lemma_le_bytes_len(value / 256, (width - 1) as nat);
    }
}

/// The ranges of four and eight bytes.
pub proof fn lemma_byte_ranges()
    ensures
        byte_range(1) == 0x100,
        byte_range(2) == 0x1_0000,
        byte_range(4) == 0x1_0000_0000,
        byte_range(8) == 0x1_0000_0000_0000_0000,
{
    reveal_with_fuel(byte_range, 9);
}

/// Appends the `width` low bytes of a value, least significant first.
pub fn push_le(output: &mut Vec<u8>, value: u64, width: usize)
    ensures
        final(output)@ == old(output)@ + le_bytes(value as int, width as nat),
{
    let ghost before = output@;
    let mut rest: u64 = value;
    let mut left: usize = width;
    assert(before + le_bytes(value as int, width as nat) =~= output@ + le_bytes(
        rest as int,
        left as nat,
    ));
    while left > 0
        invariant
            before + le_bytes(value as int, width as nat) == output@ + le_bytes(
                rest as int,
                left as nat,
            ),
        decreases left,
    {
        let ghost earlier = output@;
        output.push((rest % 256) as u8);
        proof {
            assert(earlier + le_bytes(rest as int, left as nat) =~= output@ + le_bytes(
                rest as int / 256,
                (left - 1) as nat,
            ));
        }
        rest = rest / 256;
        left -= 1;
    }
    assert(output@ + le_bytes(rest as int, 0) =~= output@);
}

/// Reads the little-endian integer at `at`.
pub(crate) fn read_le(bytes: &[u8], at: usize, width: usize) -> (value: u64)
    requires
        width <= 8,
        at + width <= bytes@.len(),
    ensures
        value == le_value(bytes@.subrange(at as int, at + width)),
{
    let mut value: u64 = 0;
    let mut i: usize = width;
    let length: usize = bytes.len();
    proof {
        lemma_byte_ranges();
        assert(bytes@.subrange(at + width, at + width) =~= Seq::empty());
    }
    while i > 0
        invariant
            i <= width <= 8,
            length == bytes@.len(),
            at + width <= length,
            value == le_value(bytes@.subrange(at + i, at + width)),
            0 <= value < byte_range((width - i) as nat),
        decreases i,
    {
        i -= 1;
        proof {
            let part = bytes@.subrange(at + i, at + width);
            assert(part.drop_first() =~= bytes@.subrange(at + i + 1, at + width));
            law_le_value_writes_back(part);
            lemma_byte_range_monotone((width - i) as nat, 8);
            lemma_byte_ranges();
        }
        value = bytes[at + i] as u64 + 256 * value;
    }
    value
}

pub proof fn lemma_byte_range_monotone(a: nat, b: nat)
    requires
        a <= b,
    ensures
        1 <= byte_range(a) <= byte_range(b),
    decreases b,
{
    if a < b {
        lemma_byte_range_monotone(a, (b - 1) as nat);
    } else if b > 0 {
        lemma_byte_range_monotone((a - 1) as nat, (b - 1) as nat);
    }
}

/// Bytes behind their length.
pub open spec fn framed(part: Seq<u8>) -> Seq<u8> {
    le_bytes(part.len() as int, 8) + part
}

/// All parts, each behind its length.
pub open spec fn framed_all(parts: Seq<Seq<u8>>) -> Seq<u8>
    decreases parts.len(),
{
    if parts.len() == 0 {
        Seq::empty()
    } else {
        framed_all(parts.drop_last()) + framed(parts.last())
    }
}

/// Appends a part behind its length.
pub fn push_framed(output: &mut Vec<u8>, part: &[u8])
    ensures
        final(output)@ == old(output)@ + framed(part@),
{
    let ghost before = output@;
    push_le(output, part.len() as u64, 8);
    push_all(output, part);
    assert(output@ =~= before + framed(part@));
}

/// Appends bytes.
pub fn push_all(output: &mut Vec<u8>, part: &[u8])
    ensures
        final(output)@ == old(output)@ + part@,
{
    let ghost before = output@;
    let mut i: usize = 0;
    while i < part.len()
        invariant
            i <= part@.len(),
            output@ == before + part@.take(i as int),
        decreases part@.len() - i,
    {
        output.push(part[i]);
        i += 1;
        assert(output@ =~= before + part@.take(i as int));
    }
    assert(part@.take(i as int) =~= part@);
}

} // verus!
