//! Little-endian integer fields read out of raw on-disk structures.
use vstd::prelude::*;

verus! {

/// The little-endian 16-bit value stored at `off`.
pub open spec fn le16(b: Seq<u8>, off: int) -> int {
    b[off] as int + 256 * (b[off + 1] as int)
}

/// The little-endian 32-bit value stored at `off`.
pub open spec fn le32(b: Seq<u8>, off: int) -> int {
    le16(b, off) + 65536 * le16(b, off + 2)
}

/// The little-endian 64-bit value stored at `off`.
pub open spec fn le64(b: Seq<u8>, off: int) -> int {
    le32(b, off) + 4294967296 * le32(b, off + 4)
}

/// Whether `width` bytes starting at `off` lie inside `b`.
pub open spec fn in_bounds(b: Seq<u8>, off: int, width: int) -> bool {
    0 <= off && off + width <= b.len()
}

pub open spec fn spec_read_u16(b: Seq<u8>, off: int) -> Option<u16> {
    if in_bounds(b, off, 2) { Some(le16(b, off) as u16) } else { None }
}

pub open spec fn spec_read_u32(b: Seq<u8>, off: int) -> Option<u32> {
    if in_bounds(b, off, 4) { Some(le32(b, off) as u32) } else { None }
}

pub open spec fn spec_read_u64(b: Seq<u8>, off: int) -> Option<u64> {
    if in_bounds(b, off, 8) { Some(le64(b, off) as u64) } else { None }
}

pub proof fn lemma_le16_bound(b: Seq<u8>, off: int)
    requires in_bounds(b, off, 2),
    ensures 0 <= le16(b, off) < 0x1_0000,
{
}

pub proof fn lemma_le32_bound(b: Seq<u8>, off: int)
    requires in_bounds(b, off, 4),
    ensures 0 <= le32(b, off) < 0x1_0000_0000,
{
    lemma_le16_bound(b, off);
    lemma_le16_bound(b, off + 2);
}

pub proof fn lemma_le64_bound(b: Seq<u8>, off: int)
    requires in_bounds(b, off, 8),
    ensures 0 <= le64(b, off) < 0x1_0000_0000_0000_0000,
{
    lemma_le32_bound(b, off);
    lemma_le32_bound(b, off + 4);
}

/// Reads the little-endian `u16` at `offset`, or `None` when it does not fit in `buf`.
pub fn read_u16(buf: &[u8], offset: usize) -> (r: Option<u16>)
    ensures
        r == spec_read_u16(buf@, offset as int),
{
    if offset > buf.len() || buf.len() - offset < 2 {
        return None;
    }
    proof { lemma_le16_bound(buf@, offset as int); }
    let lo = buf[offset] as u16;
    let hi = buf[offset + 1] as u16;
    Some(lo + hi * 256)
}

/// Reads the little-endian `u32` at `offset`, or `None` when it does not fit in `buf`.
pub fn read_u32(buf: &[u8], offset: usize) -> (r: Option<u32>)
    ensures
        r == spec_read_u32(buf@, offset as int),
{
    if offset > buf.len() || buf.len() - offset < 4 {
        return None;
    }
    proof {
        lemma_le16_bound(buf@, offset as int);
        lemma_le16_bound(buf@, offset + 2);
    }
    let lo = read_u16(buf, offset).unwrap() as u32;
    let hi = read_u16(buf, offset + 2).unwrap() as u32;
    Some(lo + hi * 65536)
}

/// Reads the little-endian `u64` at `offset`, or `None` when it does not fit in `buf`.
pub fn read_u64(buf: &[u8], offset: usize) -> (r: Option<u64>)
    ensures
        r == spec_read_u64(buf@, offset as int),
{
    if offset > buf.len() || buf.len() - offset < 8 {
        return None;
    }
    proof {
        lemma_le32_bound(buf@, offset as int);
        lemma_le32_bound(buf@, offset + 4);
    }
    let lo = read_u32(buf, offset).unwrap() as u64;
    let hi = read_u32(buf, offset + 4).unwrap() as u64;
    Some(lo + hi * 4294967296)
}

} // verus!
