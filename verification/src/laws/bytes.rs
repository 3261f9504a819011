//! Numbers in bytes: what is written is what a reader adds up again.
use vstd::prelude::*;

verus! {

/// The 16-bit number that a reader finds at `at`, low byte first.
pub open spec fn word16(bytes: Seq<u8>, at: int) -> int {
    bytes[at] + 0x100 * bytes[at + 1]
}

/// The 32-bit number that a reader finds at `at`, low byte first.
pub open spec fn word32(bytes: Seq<u8>, at: int) -> int {
    bytes[at] + 0x100 * bytes[at + 1] + 0x1_0000 * bytes[at + 2] + 0x100_0000 * bytes[at + 3]
}

/// Two bytes hold a 16-bit number, in either order.
pub proof fn law_two_bytes_hold_their_number(x: int)
    requires
        0 <= x < 0x1_0000,
    ensures
        crate::bytes::le16(x).len() == 2,
        crate::bytes::le16(x)[0] + 0x100 * crate::bytes::le16(x)[1] == x,
        crate::bytes::be16(x).len() == 2,
        crate::bytes::be16(x)[1] + 0x100 * crate::bytes::be16(x)[0] == x,
{
}

/// Three bytes hold a 24-bit number, in either order.
pub proof fn law_three_bytes_hold_their_number(x: int)
    requires
        0 <= x < 0x100_0000,
    ensures
        crate::bytes::le24(x).len() == 3,
        crate::bytes::le24(x)[0] + 0x100 * crate::bytes::le24(x)[1] + 0x1_0000
            * crate::bytes::le24(x)[2] == x,
        crate::bytes::be24(x).len() == 3,
        crate::bytes::be24(x)[2] + 0x100 * crate::bytes::be24(x)[1] + 0x1_0000
            * crate::bytes::be24(x)[0] == x,
{
}

/// Four bytes hold a 32-bit number, in either order.
pub proof fn law_four_bytes_hold_their_number(x: int)
    requires
        0 <= x < 0x1_0000_0000,
    ensures
        crate::bytes::le32(x).len() == 4,
        crate::bytes::le32(x)[0] + 0x100 * crate::bytes::le32(x)[1] + 0x1_0000
            * crate::bytes::le32(x)[2] + 0x100_0000 * crate::bytes::le32(x)[3] == x,
        crate::bytes::be32(x).len() == 4,
        crate::bytes::be32(x)[3] + 0x100 * crate::bytes::be32(x)[2] + 0x1_0000
            * crate::bytes::be32(x)[1] + 0x100_0000 * crate::bytes::be32(x)[0] == x,
{
}

/// Padding is as long as it was asked for, and all zeros.
pub proof fn law_padding_is_zeros(n: nat, i: int)
    requires
        0 <= i < n,
    ensures
        crate::bytes::zeros(n).len() == n,
        crate::bytes::zeros(n)[i] == 0,
{
}

/// A 14-bit value is its low half, and its high half shifted by seven.
pub proof fn law_halves_are_joined(low: u8, high: u8)
    ensures
        crate::bytes::joined(low, high) == (low as u16) | ((high as u16) << 7),
        low < 128 ==> crate::bytes::joined(low, high) == low + 128 * high,
{
    let value: u16 = (low as u16) | ((high as u16) << 7);
    assert(value == (low % 128) as u16 + 128 * (if low >= 128 && high % 2 == 0 {
        (high as u16) + 1
    } else {
        high as u16 + 0
    })) by (bit_vector)
        requires
            value == (low as u16) | ((high as u16) << 7),
    ;
}

/// A 16-bit number is read where it stands.
pub proof fn lemma_word16_at(front: Seq<u8>, x: int, back: Seq<u8>)
    requires
        0 <= x < 0x1_0000,
    ensures
        word16(front + crate::bytes::le16(x) + back, front.len() as int) == x,
{
    law_two_bytes_hold_their_number(x);
    let all = front + crate::bytes::le16(x) + back;
    let at = front.len() as int;
    assert(all[at] == crate::bytes::le16(x)[0]);
    assert(all[at + 1] == crate::bytes::le16(x)[1]);
}

/// A 32-bit number is read where it stands.
pub proof fn lemma_word32_at(front: Seq<u8>, x: int, back: Seq<u8>)
    requires
        0 <= x < 0x1_0000_0000,
    ensures
        word32(front + crate::bytes::le32(x) + back, front.len() as int) == x,
{
    law_four_bytes_hold_their_number(x);
    let all = front + crate::bytes::le32(x) + back;
    let at = front.len() as int;
    assert(all[at] == crate::bytes::le32(x)[0]);
    assert(all[at + 1] == crate::bytes::le32(x)[1]);
    assert(all[at + 2] == crate::bytes::le32(x)[2]);
    assert(all[at + 3] == crate::bytes::le32(x)[3]);
}

} // verus!
