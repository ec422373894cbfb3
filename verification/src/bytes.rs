//! Little-endian integers inside byte sequences.

use vstd::prelude::*;

verus! {

/// The unsigned 16-bit integer stored at `pos`, least significant byte first.
pub open spec fn le16(s: Seq<u8>, pos: int) -> int {
    s[pos] + 0x100 * s[pos + 1]
}

/// The unsigned 32-bit integer stored at `pos`, least significant byte first.
pub open spec fn le32(s: Seq<u8>, pos: int) -> int {
    le16(s, pos) + 0x1_0000 * le16(s, pos + 2)
}

/// The unsigned 64-bit integer stored at `pos`, least significant byte first.
pub open spec fn le64(s: Seq<u8>, pos: int) -> int {
    le32(s, pos) + 0x1_0000_0000 * le32(s, pos + 4)
}

/// A 16-bit number, least significant byte first.
pub open spec fn bytes16(n: int) -> Seq<u8> {
    seq![(n % 0x100) as u8, (n / 0x100) as u8]
}

/// A 32-bit number, least significant byte first.
pub open spec fn bytes32(n: int) -> Seq<u8> {
    bytes16(n % 0x1_0000) + bytes16(n / 0x1_0000)
}

/// A 64-bit number, least significant byte first.
pub open spec fn bytes64(n: int) -> Seq<u8> {
    bytes32(n % 0x1_0000_0000) + bytes32(n / 0x1_0000_0000)
}

/// Two's complement reading of an unsigned 16-bit value.
pub open spec fn signed16(v: int) -> int {
    if v < 0x8000 {
        v
    } else {
        v - 0x1_0000
    }
}

/// Two's complement reading of an unsigned 32-bit value.
pub open spec fn signed32(v: int) -> int {
    if v < 0x8000_0000 {
        v
    } else {
        v - 0x1_0000_0000
    }
}

/// Reads the unsigned 16-bit integer at the front of `b`.
pub fn u16_le(b: &[u8]) -> (v: u16)
    requires
        b@.len() >= 2,
    ensures
        v as int == le16(b@, 0),
{
    b[0] as u16 + 0x100 * (b[1] as u16)
}

/// Reads the unsigned 32-bit integer at the front of `b`.
pub fn u32_le(b: &[u8]) -> (v: u32)
    requires
        b@.len() >= 4,
    ensures
        v as int == le32(b@, 0),
{
    b[0] as u32 + 0x100 * (b[1] as u32) + 0x1_0000 * (b[2] as u32) + 0x100_0000 * (b[3] as u32)
}

/// Reads the unsigned 64-bit integer at the front of `b`.
pub fn u64_le(b: &[u8]) -> (v: u64)
    requires
        b@.len() >= 8,
    ensures
        v as int == le64(b@, 0),
{
    let low: u32 = u32_le(b);
    let high: u32 = u32_le(&b[4..8]);
    low as u64 + 0x1_0000_0000 * (high as u64)
}

/// Reads the signed 16-bit integer at the front of `b`.
pub fn i16_le(b: &[u8]) -> (v: i16)
    requires
        b@.len() >= 2,
    ensures
        v as int == signed16(le16(b@, 0)),
{
    let u: u16 = u16_le(b);
    assert(u < 0x8000 ==> u as i16 == u as int) by (bit_vector);
    assert(u >= 0x8000 ==> u as i16 == u - 0x1_0000) by (bit_vector);
    u as i16
}

/// Reads the signed 32-bit integer at the front of `b`.
pub fn i32_le(b: &[u8]) -> (v: i32)
    requires
        b@.len() >= 4,
    ensures
        v as int == signed32(le32(b@, 0)),
{
    let u: u32 = u32_le(b);
    assert(u < 0x8000_0000 ==> u as i32 == u as int) by (bit_vector);
    assert(u >= 0x8000_0000 ==> u as i32 == u - 0x1_0000_0000) by (bit_vector);
    u as i32
}

/// A 16-bit number is read back from its bytes, wherever they stand.
pub proof fn lemma_read16(data: Seq<u8>, pos: int, n: int)
    requires
        0 <= n < 0x1_0000,
        0 <= pos,
        pos + 2 <= data.len(),
        data.subrange(pos, pos + 2) == bytes16(n),
    ensures
        le16(data, pos) == n,
{
    assert(data.subrange(pos, pos + 2)[0] == data[pos]);
    assert(data.subrange(pos, pos + 2)[1] == data[pos + 1]);
}

/// A 32-bit number is read back from its bytes, wherever they stand.
pub proof fn lemma_read32(data: Seq<u8>, pos: int, n: int)
    requires
        0 <= n < 0x1_0000_0000,
        0 <= pos,
        pos + 4 <= data.len(),
        data.subrange(pos, pos + 4) == bytes32(n),
    ensures
        le32(data, pos) == n,
{
    assert(data.subrange(pos, pos + 2) =~= bytes32(n).subrange(0, 2));
    assert(data.subrange(pos + 2, pos + 4) =~= bytes32(n).subrange(2, 4));
    assert(bytes32(n).subrange(0, 2) =~= bytes16(n % 0x1_0000));
    assert(bytes32(n).subrange(2, 4) =~= bytes16(n / 0x1_0000));
    lemma_read16(data, pos, n % 0x1_0000);
    lemma_read16(data, pos + 2, n / 0x1_0000);
}

/// A 64-bit number is read back from its bytes, wherever they stand.
pub proof fn lemma_read64(data: Seq<u8>, pos: int, n: int)
    requires
        0 <= n < 0x1_0000_0000_0000_0000,
        0 <= pos,
        pos + 8 <= data.len(),
        data.subrange(pos, pos + 8) == bytes64(n),
    ensures
        le64(data, pos) == n,
{
    assert(data.subrange(pos, pos + 4) =~= bytes64(n).subrange(0, 4));
    assert(data.subrange(pos + 4, pos + 8) =~= bytes64(n).subrange(4, 8));
    assert(bytes64(n).subrange(0, 4) =~= bytes32(n % 0x1_0000_0000));
    assert(bytes64(n).subrange(4, 8) =~= bytes32(n / 0x1_0000_0000));
    lemma_read32(data, pos, n % 0x1_0000_0000);
    lemma_read32(data, pos + 4, n / 0x1_0000_0000);
}

} // verus!
