//! Little-endian field reads over an in-memory byte buffer.
//!
//! Every multi-byte integer in the ZIP wire format is little-endian; these
//! helpers read a 16-bit or 32-bit field at an absolute offset and are
//! specified against the corresponding spec-level value.

use vstd::prelude::*;

verus! {

/// The unsigned 16-bit little-endian value stored at `pos`.
pub open spec fn le16_at(data: Seq<u8>, pos: int) -> int
    recommends
        0 <= pos,
        pos + 2 <= data.len(),
{
    data[pos] + 256 * data[pos + 1]
}

/// The unsigned 32-bit little-endian value stored at `pos`.
pub open spec fn le32_at(data: Seq<u8>, pos: int) -> int
    recommends
        0 <= pos,
        pos + 4 <= data.len(),
{
    le16_at(data, pos) + 65536 * le16_at(data, pos + 2)
}

pub fn read_le16(data: &Vec<u8>, pos: usize) -> (r: u16)
    requires
        pos + 2 <= data@.len(),
    ensures
        r == le16_at(data@, pos as int),
{
    let n = data.len();
    let b0 = data[pos];
    let b1 = data[pos + 1];
    b0 as u16 + 256 * (b1 as u16)
}

pub fn read_le32(data: &Vec<u8>, pos: usize) -> (r: u32)
    requires
        pos + 4 <= data@.len(),
    ensures
        r == le32_at(data@, pos as int),
{
    let n = data.len();
    let lo = read_le16(data, pos);
    let hi = read_le16(data, pos + 2);
    lo as u32 + 65536 * (hi as u32)
}

} // verus!
