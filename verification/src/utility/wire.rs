//! Big-endian integers on byte strings: a number is eight bytes, the most
//! significant first.
use vstd::prelude::*;

verus! {

/// The eight bytes of `x`, most significant first.
pub open spec fn be_bytes(x: u64) -> Seq<u8> {
    seq![
        (x >> 56u64) as u8,
        (x >> 48u64) as u8,
        (x >> 40u64) as u8,
        (x >> 32u64) as u8,
        (x >> 24u64) as u8,
        (x >> 16u64) as u8,
        (x >> 8u64) as u8,
        x as u8,
    ]
}

/// The number whose eight bytes, most significant first, are `s[0..8]`.
pub open spec fn be_value(s: Seq<u8>) -> u64 {
    (s[0] as u64) << 56u64 | (s[1] as u64) << 48u64 | (s[2] as u64) << 40u64 | (s[3] as u64)
        << 32u64 | (s[4] as u64) << 24u64 | (s[5] as u64) << 16u64 | (s[6] as u64) << 8u64 | (
    s[7] as u64)
}

proof fn lemma_be_roundtrip_bv(x: u64)
    by (bit_vector)
    ensures
        ((((x >> 56u64) as u8) as u64) << 56u64 | (((x >> 48u64) as u8) as u64) << 48u64 | (((x
            >> 40u64) as u8) as u64) << 40u64 | (((x >> 32u64) as u8) as u64) << 32u64 | (((x
            >> 24u64) as u8) as u64) << 24u64 | (((x >> 16u64) as u8) as u64) << 16u64 | (((x
            >> 8u64) as u8) as u64) << 8u64 | ((x as u8) as u64)) == x,
{
}

/// Reading back the bytes of a number gives the number.
pub proof fn lemma_be_roundtrip(x: u64)
    ensures
        be_value(be_bytes(x)) == x,
        be_bytes(x).len() == 8,
{
    lemma_be_roundtrip_bv(x);
}

/// The value of a big-endian number as a sum: each byte times the power of
/// 256 of its place, the first byte the most significant.
pub proof fn lemma_be_value_sum(s: Seq<u8>)
    requires
        s.len() >= 8,
    ensures
        be_value(s) as int == s[0] * 0x100_0000_0000_0000int + s[1] * 0x1_0000_0000_0000int + s[2]
            * 0x100_0000_0000int + s[3] * 0x1_0000_0000int + s[4] * 0x100_0000int + s[5]
            * 0x1_0000int + s[6] * 0x100int + s[7],
{
    lemma_be_value_sum_bv(s[0], s[1], s[2], s[3], s[4], s[5], s[6], s[7]);
}

proof fn lemma_be_value_sum_bv(b0: u8, b1: u8, b2: u8, b3: u8, b4: u8, b5: u8, b6: u8, b7: u8)
    by (bit_vector)
    ensures
        ((b0 as u64) << 56u64 | (b1 as u64) << 48u64 | (b2 as u64) << 40u64 | (b3 as u64) << 32u64
            | (b4 as u64) << 24u64 | (b5 as u64) << 16u64 | (b6 as u64) << 8u64 | (b7 as u64))
            == b0 * 0x100_0000_0000_0000u64 + b1 * 0x1_0000_0000_0000u64 + b2 * 0x100_0000_0000u64
            + b3 * 0x1_0000_0000u64 + b4 * 0x100_0000u64 + b5 * 0x1_0000u64 + b6 * 0x100u64 + b7,
{
}

/// The bytes of a number are its digits in base 256, the most significant
/// first.
pub proof fn lemma_be_bytes_digits(x: u64)
    ensures
        be_bytes(x).len() == 8,
        be_bytes(x)[0] == x / 0x100_0000_0000_0000u64,
        be_bytes(x)[1] == x / 0x1_0000_0000_0000u64 % 256,
        be_bytes(x)[2] == x / 0x100_0000_0000u64 % 256,
        be_bytes(x)[3] == x / 0x1_0000_0000u64 % 256,
        be_bytes(x)[4] == x / 0x100_0000u64 % 256,
        be_bytes(x)[5] == x / 0x1_0000u64 % 256,
        be_bytes(x)[6] == x / 0x100u64 % 256,
        be_bytes(x)[7] == x % 256,
{
    assert(((x >> 56u64) as u8) == x / 0x100_0000_0000_0000u64) by (bit_vector);
    assert(((x >> 48u64) as u8) == x / 0x1_0000_0000_0000u64 % 256) by (bit_vector);
    assert(((x >> 40u64) as u8) == x / 0x100_0000_0000u64 % 256) by (bit_vector);
    assert(((x >> 32u64) as u8) == x / 0x1_0000_0000u64 % 256) by (bit_vector);
    assert(((x >> 24u64) as u8) == x / 0x100_0000u64 % 256) by (bit_vector);
    assert(((x >> 16u64) as u8) == x / 0x1_0000u64 % 256) by (bit_vector);
    assert(((x >> 8u64) as u8) == x / 0x100u64 % 256) by (bit_vector);
    assert((x as u8) == x % 256) by (bit_vector);
}

/// The byte at `pos`, or `None` when `input` ends there.
pub(crate) fn read_u8_at(input: &[u8], pos: usize) -> (byte: Option<u8>)
    requires
        pos <= input@.len(),
    ensures
        byte == if pos < input@.len() {
            Some(input@[pos as int])
        } else {
            None::<u8>
        },
{
    if pos < input.len() {
        Some(input[pos])
    } else {
        None
    }
}

/// The big-endian number in the eight bytes at `pos`, or `None` when fewer
/// than eight are left.
pub(crate) fn read_u64_be_at(input: &[u8], pos: usize) -> (value: Option<u64>)
    requires
        pos <= input@.len(),
    ensures
        value == if pos + 8 <= input@.len() {
            Some(be_value(input@.subrange(pos as int, pos + 8)))
        } else {
            None::<u64>
        },
{
    if input.len() - pos < 8 {
        return None;
    }
    let ghost s = input@.subrange(pos as int, pos + 8);
    let value = (input[pos] as u64) << 56u64 | (input[pos + 1] as u64) << 48u64 | (input[pos
        + 2] as u64) << 40u64 | (input[pos + 3] as u64) << 32u64 | (input[pos + 4] as u64)
        << 24u64 | (input[pos + 5] as u64) << 16u64 | (input[pos + 6] as u64) << 8u64 | (input[pos
        + 7] as u64);
    assert(s[0] == input@[pos as int] && s[1] == input@[pos + 1] && s[2] == input@[pos + 2]
        && s[3] == input@[pos + 3] && s[4] == input@[pos + 4] && s[5] == input@[pos + 5] && s[6]
        == input@[pos + 6] && s[7] == input@[pos + 7]);
    Some(value)
}

/// Appends the byte.
pub(crate) fn write_u8_to(out: &mut Vec<u8>, byte: u8)
    ensures
        final(out)@ == old(out)@.push(byte),
{
    out.push(byte);
}

/// Appends the eight bytes of the number, most significant first.
pub(crate) fn write_u64_be_to(out: &mut Vec<u8>, value: u64)
    ensures
        final(out)@ == old(out)@ + be_bytes(value),
{
    let ghost start = out@;
    out.push((value >> 56u64) as u8);
    out.push((value >> 48u64) as u8);
    out.push((value >> 40u64) as u8);
    out.push((value >> 32u64) as u8);
    out.push((value >> 24u64) as u8);
    out.push((value >> 16u64) as u8);
    out.push((value >> 8u64) as u8);
    out.push(value as u8);
    assert(out@ =~= start + be_bytes(value));
}

} // verus!
