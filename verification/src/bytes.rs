//! Integers as bytes: little-endian in the target's memory, big-endian in a class file.
use vstd::prelude::*;

verus! {

/// The value of two bytes, least significant first.
pub open spec fn le16(bytes: Seq<u8>) -> u16 {
    (bytes[0] + 0x100 * bytes[1]) as u16
}

/// The value of four bytes, least significant first.
pub open spec fn le32(bytes: Seq<u8>) -> u32 {
    (bytes[0] + 0x100 * bytes[1] + 0x1_0000 * bytes[2] + 0x100_0000 * bytes[3]) as u32
}

/// The value of eight bytes, least significant first.
pub open spec fn le64(bytes: Seq<u8>) -> u64 {
    (le32(bytes) + 0x1_0000_0000 * le32(bytes.skip(4))) as u64
}

/// The value of four bytes, most significant first.
pub open spec fn be32(bytes: Seq<u8>) -> u32 {
    (0x100_0000 * bytes[0] + 0x1_0000 * bytes[1] + 0x100 * bytes[2] + bytes[3]) as u32
}

/// The two bytes of `value`, most significant first.
pub open spec fn be16_bytes(value: u16) -> Seq<u8> {
    seq![(value / 0x100) as u8, (value % 0x100) as u8]
}

/// The four bytes of `value`, most significant first.
pub open spec fn be32_bytes(value: u32) -> Seq<u8> {
    be16_bytes((value / 0x1_0000) as u16) + be16_bytes((value % 0x1_0000) as u16)
}

/// The eight bytes of `value`, most significant first.
pub open spec fn be64_bytes(value: u64) -> Seq<u8> {
    be32_bytes((value / 0x1_0000_0000) as u32) + be32_bytes((value % 0x1_0000_0000) as u32)
}

/// The little-endian `u16` at `at`.
pub fn get_le16(bytes: &[u8], at: usize) -> (value: u16)
    requires
        at + 2 <= bytes.len(),
    ensures
        value == le16(bytes@.subrange(at as int, at + 2)),
{
    bytes[at] as u16 + 0x100 * bytes[at + 1] as u16
}

/// The little-endian `u32` at `at`.
pub fn get_le32(bytes: &[u8], at: usize) -> (value: u32)
    requires
        at + 4 <= bytes.len(),
    ensures
        value == le32(bytes@.subrange(at as int, at + 4)),
{
    bytes[at] as u32 + 0x100 * bytes[at + 1] as u32 + 0x1_0000 * bytes[at + 2] as u32 + 0x100_0000
        * bytes[at + 3] as u32
}

/// The little-endian `u64` at `at`.
pub fn get_le64(bytes: &[u8], at: usize) -> (value: u64)
    requires
        at + 8 <= bytes.len(),
    ensures
        value == le64(bytes@.subrange(at as int, at + 8)),
{
    let low = get_le32(bytes, at) as u64;
    let high = get_le32(bytes, at + 4) as u64;
    proof {
        let all = bytes@.subrange(at as int, at + 8);
        assert(all.skip(4) =~= bytes@.subrange(at + 4, at + 8));
    }
    low + 0x1_0000_0000 * high
}

/// The big-endian `u32` at `at`.
pub fn get_be32(bytes: &[u8], at: usize) -> (value: u32)
    requires
        at + 4 <= bytes.len(),
    ensures
        value == be32(bytes@.subrange(at as int, at + 4)),
{
    0x100_0000 * bytes[at] as u32 + 0x1_0000 * bytes[at + 1] as u32 + 0x100 * bytes[at + 2] as u32
        + bytes[at + 3] as u32
}

/// Appends `bytes` to `out`.
pub fn put_bytes(out: &mut Vec<u8>, bytes: &[u8])
    ensures
        final(out)@ == old(out)@ + bytes@,
{
    let ghost before = out@;
    let mut index: usize = 0;
    while index < bytes.len()
        invariant
            index <= bytes@.len(),
            out@ == before + bytes@.take(index as int),
        decreases bytes@.len() - index,
    {
        out.push(bytes[index]);
        assert(out@ =~= before + bytes@.take(index + 1));
        index += 1;
    }
    assert(bytes@.take(index as int) =~= bytes@);
}

/// A copy of `bytes`.
pub fn copied(bytes: &[u8]) -> (out: Vec<u8>)
    ensures
        out@ == bytes@,
{
    let mut out: Vec<u8> = Vec::new();
    put_bytes(&mut out, bytes);
    assert(out@ =~= bytes@);
    out
}

/// A number that was read least significant byte first has the bytes that it was read from, the first
/// one being the lowest.
pub proof fn little_endian_numbers_have_their_bytes(bytes: Seq<u8>)
    requires
        bytes.len() >= 8,
    ensures
        le16(bytes) % 0x100 == bytes[0],
        le16(bytes) / 0x100 == bytes[1],
        le32(bytes) % 0x100 == bytes[0],
        le32(bytes) / 0x100 % 0x100 == bytes[1],
        le32(bytes) / 0x1_0000 % 0x100 == bytes[2],
        le32(bytes) / 0x100_0000 == bytes[3],
        le64(bytes) == bytes[0] + 0x100 * bytes[1] + 0x1_0000 * bytes[2] + 0x100_0000 * bytes[3]
            + 0x1_0000_0000 * bytes[4] + 0x100_0000_0000 * bytes[5] + 0x1_0000_0000_0000 * bytes[6]
            + 0x100_0000_0000_0000 * bytes[7],
{
    let high = bytes.skip(4);
    assert(high[0] == bytes[4] && high[1] == bytes[5] && high[2] == bytes[6] && high[3] == bytes[7]);
}

/// A number that is read most significant byte first is read least significant first from the same
/// bytes turned round.
pub proof fn big_endian_is_little_endian_turned_round(bytes: Seq<u8>)
    requires
        bytes.len() == 4,
    ensures
        be32(bytes) == le32(bytes.reverse()),
{
    let turned = bytes.reverse();
    assert(turned[0] == bytes[3] && turned[1] == bytes[2] && turned[2] == bytes[1] && turned[3]
        == bytes[0]);
}

/// A number is what its own bytes are read as.
pub proof fn big_endian_bytes_are_read_back(value: u32)
    ensures
        be32_bytes(value).len() == 4,
        be32(be32_bytes(value)) == value,
{
    let high = (value / 0x1_0000) as u16;
    let low = (value % 0x1_0000) as u16;
    let bytes = be32_bytes(value);
    assert(bytes[0] == high / 0x100 && bytes[1] == high % 0x100);
    assert(bytes[2] == low / 0x100 && bytes[3] == low % 0x100);
    assert(0x100 * bytes[0] + bytes[1] == high);
    assert(0x100 * bytes[2] + bytes[3] == low);
}

} // verus!
