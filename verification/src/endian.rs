//! Little-endian integers in byte sequences.
use vstd::prelude::*;

verus! {

/// The unsigned 16-bit little-endian integer at `at`.
pub open spec fn le_u16(bytes: Seq<u8>, at: int) -> int {
    bytes[at] + 0x100 * bytes[at + 1]
}

/// The unsigned 32-bit little-endian integer at `at`.
pub open spec fn le_u32(bytes: Seq<u8>, at: int) -> int {
    bytes[at] + 0x100 * bytes[at + 1] + 0x1_0000 * bytes[at + 2] + 0x100_0000 * bytes[at + 3]
}

/// The signed 32-bit (two's complement) little-endian integer at `at`.
pub open spec fn le_i32(bytes: Seq<u8>, at: int) -> int {
    if le_u32(bytes, at) < 0x8000_0000 {
        le_u32(bytes, at)
    } else {
        le_u32(bytes, at) - 0x1_0000_0000
    }
}

/// Read an unsigned 16-bit little-endian integer.
pub fn read_u16_le(bytes: &[u8], at: usize) -> (r: u16)
    requires
        at + 2 <= bytes@.len(),
    ensures
        r == le_u16(bytes@, at as int),
{
    bytes[at] as u16 + 0x100 * (bytes[at + 1] as u16)
}

/// Read an unsigned 32-bit little-endian integer.
pub fn read_u32_le(bytes: &[u8], at: usize) -> (r: u32)
    requires
        at + 4 <= bytes@.len(),
    ensures
        r == le_u32(bytes@, at as int),
{
    bytes[at] as u32 + 0x100 * (bytes[at + 1] as u32) + 0x1_0000 * (bytes[at + 2] as u32)
        + 0x100_0000 * (bytes[at + 3] as u32)
}

/// Read a signed 32-bit little-endian integer.
pub fn read_i32_le(bytes: &[u8], at: usize) -> (r: i32)
    requires
        at + 4 <= bytes@.len(),
    ensures
        r == le_i32(bytes@, at as int),
{
    let raw: u32 = read_u32_le(bytes, at);
    if raw < 0x8000_0000 {
        raw as i32
    } else {
        -((0xFFFF_FFFF - raw) as i32) - 1
    }
}

} // verus!
