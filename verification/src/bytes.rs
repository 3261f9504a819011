//! Integers as bytes, in the order that a file format asks for.
use vstd::prelude::*;

verus! {

/// Two bytes, low one first.
pub open spec fn le16(x: int) -> Seq<u8> {
    seq![(x % 256) as u8, (x / 256 % 256) as u8]
}

/// Three bytes, low one first.
pub open spec fn le24(x: int) -> Seq<u8> {
    seq![(x % 256) as u8, (x / 256 % 256) as u8, (x / 65536 % 256) as u8]
}

/// Four bytes, low one first.
pub open spec fn le32(x: int) -> Seq<u8> {
    seq![
        (x % 256) as u8,
        (x / 256 % 256) as u8,
        (x / 65536 % 256) as u8,
        (x / 16777216 % 256) as u8,
    ]
}

/// Two bytes, high one first.
pub open spec fn be16(x: int) -> Seq<u8> {
    seq![(x / 256 % 256) as u8, (x % 256) as u8]
}

/// Three bytes, high one first.
pub open spec fn be24(x: int) -> Seq<u8> {
    seq![(x / 65536 % 256) as u8, (x / 256 % 256) as u8, (x % 256) as u8]
}

/// Four bytes, high one first.
pub open spec fn be32(x: int) -> Seq<u8> {
    seq![
        (x / 16777216 % 256) as u8,
        (x / 65536 % 256) as u8,
        (x / 256 % 256) as u8,
        (x % 256) as u8,
    ]
}

/// `n` zero bytes.
pub open spec fn zeros(n: nat) -> Seq<u8> {
    Seq::new(n, |i: int| 0u8)
}

/// Four bytes, low one first, read back.
pub open spec fn read_le32(bytes: Seq<u8>, at: int) -> int {
    bytes[at] + bytes[at + 1] * 256 + bytes[at + 2] * 65536 + bytes[at + 3] * 16777216
}

/// Four bytes, high one first, read back.
pub open spec fn read_be32(bytes: Seq<u8>, at: int) -> int {
    bytes[at] * 16777216 + bytes[at + 1] * 65536 + bytes[at + 2] * 256 + bytes[at + 3]
}

/// Four bytes read back are the number that was written.
pub proof fn law_four_bytes_read_back(x: int, rest: Seq<u8>)
    requires
        0 <= x < 0x1_0000_0000,
    ensures
        read_le32(le32(x) + rest, 0) == x,
        read_be32(be32(x) + rest, 0) == x,
{
}

/// Four bytes are read back from where they stand.
pub proof fn lemma_four_bytes_at(before: Seq<u8>, x: int, rest: Seq<u8>)
    requires
        0 <= x < 0x1_0000_0000,
    ensures
        read_le32(before + le32(x) + rest, before.len() as int) == x,
        read_be32(before + be32(x) + rest, before.len() as int) == x,
{
    law_four_bytes_read_back(x, rest);
    let at = before.len() as int;
    let little = before + le32(x) + rest;
    let big = before + be32(x) + rest;
    assert(little[at + 0] == (le32(x) + rest)[0] && big[at + 0] == (be32(x) + rest)[0]);
    assert(little[at + 1] == (le32(x) + rest)[1] && big[at + 1] == (be32(x) + rest)[1]);
    assert(little[at + 2] == (le32(x) + rest)[2] && big[at + 2] == (be32(x) + rest)[2]);
    assert(little[at + 3] == (le32(x) + rest)[3] && big[at + 3] == (be32(x) + rest)[3]);
}

/// Two seven-bit halves, low one first. A low byte that has its top bit set as well gives that bit
/// to the high half.
pub open spec fn joined(low: u8, high: u8) -> int {
    low % 128 + 128 * if low >= 128 && high % 2 == 0 {
        high + 1
    } else {
        high as int
    }
}

/// Joins the halves of a 14-bit value.
pub fn join_halves(low: u8, high: u8) -> (value: u16)
    ensures
        value == joined(low, high),
{
    let value: u16 = (low as u16) | ((high as u16) << 7);
    assert(value == (low % 128) as u16 + 128 * (if low >= 128 && high % 2 == 0 {
        (high as u16) + 1
    } else {
        high as u16 + 0
    })) by (bit_vector)
        requires
            value == (low as u16) | ((high as u16) << 7),
    ;
    value
}

pub fn push_le16(out: &mut Vec<u8>, x: u16)
    ensures
        final(out)@ == old(out)@ + le16(x as int),
{
    out.push((x % 256) as u8);
    out.push((x / 256 % 256) as u8);
    assert(out@ =~= old(out)@ + le16(x as int));
}

pub fn push_le24(out: &mut Vec<u8>, x: u32)
    ensures
        final(out)@ == old(out)@ + le24(x as int),
{
    out.push((x % 256) as u8);
    out.push((x / 256 % 256) as u8);
    out.push((x / 65536 % 256) as u8);
    assert(out@ =~= old(out)@ + le24(x as int));
}

pub fn push_le32(out: &mut Vec<u8>, x: u32)
    ensures
        final(out)@ == old(out)@ + le32(x as int),
{
    out.push((x % 256) as u8);
    out.push((x / 256 % 256) as u8);
    out.push((x / 65536 % 256) as u8);
    out.push((x / 16777216 % 256) as u8);
    assert(out@ =~= old(out)@ + le32(x as int));
}

pub fn push_be16(out: &mut Vec<u8>, x: u16)
    ensures
        final(out)@ == old(out)@ + be16(x as int),
{
    out.push((x / 256 % 256) as u8);
    out.push((x % 256) as u8);
    assert(out@ =~= old(out)@ + be16(x as int));
}

pub fn push_be24(out: &mut Vec<u8>, x: u32)
    ensures
        final(out)@ == old(out)@ + be24(x as int),
{
    out.push((x / 65536 % 256) as u8);
    out.push((x / 256 % 256) as u8);
    out.push((x % 256) as u8);
    assert(out@ =~= old(out)@ + be24(x as int));
}

pub fn push_be32(out: &mut Vec<u8>, x: u32)
    ensures
        final(out)@ == old(out)@ + be32(x as int),
{
    out.push((x / 16777216 % 256) as u8);
    out.push((x / 65536 % 256) as u8);
    out.push((x / 256 % 256) as u8);
    out.push((x % 256) as u8);
    assert(out@ =~= old(out)@ + be32(x as int));
}

/// Appends a slice.
pub fn push_all(out: &mut Vec<u8>, bytes: &[u8])
    ensures
        final(out)@ == old(out)@ + bytes@,
{
    let mut i: usize = 0;
    assert(out@ =~= old(out)@ + bytes@.take(0));
    while i < bytes.len()
        invariant
            i <= bytes@.len(),
            out@ == old(out)@ + bytes@.take(i as int),
        decreases bytes@.len() - i,
    {
        out.push(bytes[i]);
        i = i + 1;
        assert(out@ =~= old(out)@ + bytes@.take(i as int));
    }
    assert(bytes@.take(i as int) =~= bytes@);
}

/// Appends `n` zero bytes.
pub fn push_zeros(out: &mut Vec<u8>, n: usize)
    ensures
        final(out)@ == old(out)@ + zeros(n as nat),
{
    let mut i: usize = 0;
    while i < n
        invariant
            i <= n,
            out@ =~= old(out)@ + zeros(i as nat),
        decreases n - i,
    {
        out.push(0);
        i = i + 1;
    }
}

} // verus!
