//! Little-endian numbers.

use vstd::prelude::*;

verus! {

/// Byte `k` of a number of 64 bits, lowest first.
pub open spec fn byte_of(x: u64, k: int) -> u8 {
    ((x >> (8 * k) as u64) & 0xff) as u8
}

/// The number whose bytes, lowest first, are the eight from `at` on.
pub open spec fn u64_from(b: Seq<u8>, at: int) -> u64 {
    (b[at] as u64) | ((b[at + 1] as u64) << 8u64) | ((b[at + 2] as u64) << 16u64) | ((
    b[at + 3] as u64) << 24u64) | ((b[at + 4] as u64) << 32u64) | ((b[at + 5] as u64) << 40u64) | ((
    b[at + 6] as u64) << 48u64) | ((b[at + 7] as u64) << 56u64)
}

/// The number whose bytes, lowest first, are the four from `at` on.
pub open spec fn u32_from(b: Seq<u8>, at: int) -> u32 {
    (b[at] as u32) | ((b[at + 1] as u32) << 8u32) | ((b[at + 2] as u32) << 16u32) | ((
    b[at + 3] as u32) << 24u32)
}

/// A number is joined again from its bytes.
pub proof fn lemma_u64_bytes(x: u64, b: Seq<u8>, at: int)
    requires
        forall|k: int| 0 <= k < 8 ==> b[at + k] == #[trigger] byte_of(x, k),
    ensures
        u64_from(b, at) == x,
{
    assert(b[at + 0] == byte_of(x, 0));
    assert(b[at + 1] == byte_of(x, 1));
    assert(b[at + 2] == byte_of(x, 2));
    assert(b[at + 3] == byte_of(x, 3));
    assert(b[at + 4] == byte_of(x, 4));
    assert(b[at + 5] == byte_of(x, 5));
    assert(b[at + 6] == byte_of(x, 6));
    assert(b[at + 7] == byte_of(x, 7));
    assert((((x >> 0u64) & 0xff) as u8 as u64) | ((((x >> 8u64) & 0xff) as u8 as u64) << 8u64) | ((((
    x >> 16u64) & 0xff) as u8 as u64) << 16u64) | ((((x >> 24u64) & 0xff) as u8 as u64) << 24u64)
        | ((((x >> 32u64) & 0xff) as u8 as u64) << 32u64) | ((((x >> 40u64) & 0xff) as u8 as u64)
        << 40u64) | ((((x >> 48u64) & 0xff) as u8 as u64) << 48u64) | ((((x >> 56u64)
        & 0xff) as u8 as u64) << 56u64) == x) by (bit_vector);
}

/// The bytes are the digits of the number to the base 256.
pub proof fn lemma_value(x: u64)
    ensures
        x == byte_of(x, 0) + 0x100 * byte_of(x, 1) + 0x1_0000 * byte_of(x, 2) + 0x100_0000
            * byte_of(x, 3) + 0x1_0000_0000 * byte_of(x, 4) + 0x100_0000_0000 * byte_of(x, 5)
            + 0x1_0000_0000_0000 * byte_of(x, 6) + 0x100_0000_0000_0000 * byte_of(x, 7),
{
    assert(x == ((x >> 0u64) & 0xff) as u8 + 0x100 * (((x >> 8u64) & 0xff) as u8) + 0x1_0000 * (((x
        >> 16u64) & 0xff) as u8) + 0x100_0000 * (((x >> 24u64) & 0xff) as u8) + 0x1_0000_0000 * (((x
        >> 32u64) & 0xff) as u8) + 0x100_0000_0000 * (((x >> 40u64) & 0xff) as u8)
        + 0x1_0000_0000_0000 * (((x >> 48u64) & 0xff) as u8) + 0x100_0000_0000_0000 * (((x >> 56u64)
        & 0xff) as u8)) by (bit_vector);
}

/// The same for a number that fits into 32 bits.
pub proof fn lemma_u32_bytes(x: u32, b: Seq<u8>, at: int)
    requires
        forall|k: int| 0 <= k < 4 ==> b[at + k] == #[trigger] byte_of(x as u64, k),
    ensures
        u32_from(b, at) == x,
{
    assert(b[at + 0] == byte_of(x as u64, 0));
    assert(b[at + 1] == byte_of(x as u64, 1));
    assert(b[at + 2] == byte_of(x as u64, 2));
    assert(b[at + 3] == byte_of(x as u64, 3));
    assert(((((x as u64) >> 0u64) & 0xff) as u8 as u32) | (((((x as u64) >> 8u64)
        & 0xff) as u8 as u32) << 8u32) | (((((x as u64) >> 16u64) & 0xff) as u8 as u32) << 16u32)
        | (((((x as u64) >> 24u64) & 0xff) as u8 as u32) << 24u32) == x) by (bit_vector);
}

pub fn byte_at(x: u64, k: usize) -> (b: u8)
    requires
        k < 8,
    ensures
        b == byte_of(x, k as int),
{
    ((x >> (8 * k as u64)) & 0xff) as u8
}

pub fn read_u64(b: &[u8], at: usize) -> (x: u64)
    requires
        at + 8 <= b@.len(),
    ensures
        x == u64_from(b@, at as int),
{
    (b[at] as u64) | ((b[at + 1] as u64) << 8u64) | ((b[at + 2] as u64) << 16u64) | ((
    b[at + 3] as u64) << 24u64) | ((b[at + 4] as u64) << 32u64) | ((b[at + 5] as u64) << 40u64) | ((
    b[at + 6] as u64) << 48u64) | ((b[at + 7] as u64) << 56u64)
}

pub fn read_u32(b: &[u8], at: usize) -> (x: u32)
    requires
        at + 4 <= b@.len(),
    ensures
        x == u32_from(b@, at as int),
{
    (b[at] as u32) | ((b[at + 1] as u32) << 8u32) | ((b[at + 2] as u32) << 16u32) | ((
    b[at + 3] as u32) << 24u32)
}

} // verus!
