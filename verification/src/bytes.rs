//! Little-endian integer views of byte buffers.
//!
//! Both container formats store their integers little-endian; these spec
//! functions give those fields a name, and the exec readers are proved
//! against them.

use vstd::prelude::*;

verus! {

/// The u16 stored little-endian at byte offset `i`.
pub open spec fn le16_at(b: Seq<u8>, i: int) -> u16 {
    (b[i] + b[i + 1] * 0x100) as u16
}

/// The u32 stored little-endian at byte offset `i`.
pub open spec fn le32_at(b: Seq<u8>, i: int) -> u32 {
    (b[i] + b[i + 1] * 0x100 + b[i + 2] * 0x1_0000 + b[i + 3] * 0x100_0000) as u32
}

/// The i16 stored little-endian at byte offset `i` (two's complement).
pub open spec fn le_i16_at(b: Seq<u8>, i: int) -> i16 {
    if le16_at(b, i) < 0x8000 {
        le16_at(b, i) as i16
    } else {
        (le16_at(b, i) - 0x1_0000) as i16
    }
}

/// Reads the u16 stored little-endian at `pos`.
pub fn read_u16_at(buf: &[u8], pos: usize) -> (r: u16)
    requires
        pos + 2 <= buf@.len(),
    ensures
        r == le16_at(buf@, pos as int),
{
    let lo = buf[pos] as u16;
    let hi = buf[pos + 1] as u16;
    lo + hi * 0x100
}

/// Reads the i16 stored little-endian at `pos`.
pub fn read_i16_at(buf: &[u8], pos: usize) -> (r: i16)
    requires
        pos + 2 <= buf@.len(),
    ensures
        r == le_i16_at(buf@, pos as int),
{
    let v = read_u16_at(buf, pos);
    if v < 0x8000 {
        v as i16
    } else {
        (v as i32 - 0x1_0000) as i16
    }
}

/// Reads the u32 stored little-endian at `pos`.
pub fn read_u32_at(buf: &[u8], pos: usize) -> (r: u32)
    requires
        pos + 4 <= buf@.len(),
    ensures
        r == le32_at(buf@, pos as int),
{
    let b0 = buf[pos] as u32;
    let b1 = buf[pos + 1] as u32;
    let b2 = buf[pos + 2] as u32;
    let b3 = buf[pos + 3] as u32;
    b0 + b1 * 0x100 + b2 * 0x1_0000 + b3 * 0x100_0000
}

} // verus!
