//! Bounds-checked big-endian integer reads.
//!
//! A read that would run past the end of the buffer yields `0` instead of
//! panicking, so a truncated image decodes to a value rather than a crash.

use vstd::prelude::*;

verus! {

/// The big-endian `u16` at `off` in `d`, or `0` when the two bytes are not all present.
pub open spec fn be16_at(d: Seq<u8>, off: int) -> u16 {
    if 0 <= off && off + 2 <= d.len() {
        (d[off] as int * 0x100 + d[off + 1] as int) as u16
    } else {
        0
    }
}

/// The big-endian `u32` at `off` in `d`, or `0` when the four bytes are not all present.
pub open spec fn be32_at(d: Seq<u8>, off: int) -> u32 {
    if 0 <= off && off + 4 <= d.len() {
        (d[off] as int * 0x100_0000 + d[off + 1] as int * 0x1_0000 + d[off + 2] as int * 0x100
            + d[off + 3] as int) as u32
    } else {
        0
    }
}

/// Reads a big-endian `u16` at byte offset `off`, `0` if the slice is too short.
pub fn be16(d: &[u8], off: usize) -> (v: u16)
    ensures
        v == be16_at(d@, off as int),
{
    if off <= d.len() && d.len() - off >= 2 {
        let hi: u16 = d[off] as u16;
        let lo: u16 = d[off + 1] as u16;
        hi * 0x100 + lo
    } else {
        0
    }
}

/// Reads a big-endian `u32` at byte offset `off`, `0` if the slice is too short.
pub fn be32(d: &[u8], off: usize) -> (v: u32)
    ensures
        v == be32_at(d@, off as int),
{
    if off <= d.len() && d.len() - off >= 4 {
        let b0: u32 = d[off] as u32;
        let b1: u32 = d[off + 1] as u32;
        let b2: u32 = d[off + 2] as u32;
        let b3: u32 = d[off + 3] as u32;
        b0 * 0x100_0000 + b1 * 0x1_0000 + b2 * 0x100 + b3
    } else {
        0
    }
}

} // verus!
