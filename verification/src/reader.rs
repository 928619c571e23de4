//! Big-endian integer extraction with bounds checks.

use vstd::prelude::*;
use crate::error::LpfError;

verus! {

/// The unsigned 16-bit big-endian integer stored at `at`.
pub open spec fn be16(bytes: Seq<u8>, at: int) -> int {
    bytes[at] as int * 0x100 + bytes[at + 1] as int
}

/// The unsigned 32-bit big-endian integer stored at `at`.
pub open spec fn be32(bytes: Seq<u8>, at: int) -> int {
    be16(bytes, at) * 0x1_0000 + be16(bytes, at + 2)
}

/// The unsigned 64-bit big-endian integer stored at `at`.
pub open spec fn be64(bytes: Seq<u8>, at: int) -> int {
    be32(bytes, at) * 0x1_0000_0000 + be32(bytes, at + 4)
}

/// Whether `width` bytes starting at `at` lie inside a buffer of `len` bytes.
pub open spec fn window_fits(len: int, at: int, width: int) -> bool {
    at + width <= len
}

/// Reads a big-endian `u16` at `*offset` and advances the offset by 2.
/// Fails with `Truncated`, leaving the offset alone, when fewer than two
/// bytes remain.
pub fn read_u16(bytes: &[u8], offset: &mut usize) -> (r: Result<u16, LpfError>)
    ensures
        match r {
            Ok(value) => {
                &&& window_fits(bytes@.len() as int, *old(offset) as int, 2)
                &&& value == be16(bytes@, *old(offset) as int)
                &&& *final(offset) == *old(offset) + 2
            },
            Err(e) => {
                &&& !window_fits(bytes@.len() as int, *old(offset) as int, 2)
                &&& e == LpfError::Truncated
                &&& *final(offset) == *old(offset)
            },
        },
{
    let at: usize = *offset;
    if at > bytes.len() || bytes.len() - at < 2 {
        return Err(LpfError::Truncated);
    }
    let hi: u16 = bytes[at] as u16;
    let lo: u16 = bytes[at + 1] as u16;
    *offset = at + 2;
    Ok(hi * 0x100 + lo)
}

/// Reads a big-endian `u32` at `*offset` and advances the offset by 4.
/// Fails with `Truncated`, leaving the offset alone, when fewer than four
/// bytes remain.
pub fn read_u32(bytes: &[u8], offset: &mut usize) -> (r: Result<u32, LpfError>)
    ensures
        match r {
            Ok(value) => {
                &&& window_fits(bytes@.len() as int, *old(offset) as int, 4)
                &&& value == be32(bytes@, *old(offset) as int)
                &&& *final(offset) == *old(offset) + 4
            },
            Err(e) => {
                &&& !window_fits(bytes@.len() as int, *old(offset) as int, 4)
                &&& e == LpfError::Truncated
                &&& *final(offset) == *old(offset)
            },
        },
{
    let at: usize = *offset;
    if at > bytes.len() || bytes.len() - at < 4 {
        return Err(LpfError::Truncated);
    }
    let b0: u32 = bytes[at] as u32;
    let b1: u32 = bytes[at + 1] as u32;
    let b2: u32 = bytes[at + 2] as u32;
    let b3: u32 = bytes[at + 3] as u32;
    *offset = at + 4;
    Ok((b0 * 0x100 + b1) * 0x1_0000 + (b2 * 0x100 + b3))
}

/// Reads a big-endian `u64` at `*offset` and advances the offset by 8.
/// Fails with `Truncated`, leaving the offset alone, when fewer than eight
/// bytes remain.
pub fn read_u64(bytes: &[u8], offset: &mut usize) -> (r: Result<u64, LpfError>)
    ensures
        match r {
            Ok(value) => {
                &&& window_fits(bytes@.len() as int, *old(offset) as int, 8)
                &&& value == be64(bytes@, *old(offset) as int)
                &&& *final(offset) == *old(offset) + 8
            },
            Err(e) => {
                &&& !window_fits(bytes@.len() as int, *old(offset) as int, 8)
                &&& e == LpfError::Truncated
                &&& *final(offset) == *old(offset)
            },
        },
{
    let at: usize = *offset;
    if at > bytes.len() || bytes.len() - at < 8 {
        return Err(LpfError::Truncated);
    }
    let b0: u64 = bytes[at] as u64;
    let b1: u64 = bytes[at + 1] as u64;
    let b2: u64 = bytes[at + 2] as u64;
    let b3: u64 = bytes[at + 3] as u64;
    let b4: u64 = bytes[at + 4] as u64;
    let b5: u64 = bytes[at + 5] as u64;
    let b6: u64 = bytes[at + 6] as u64;
    let b7: u64 = bytes[at + 7] as u64;
    let hi: u64 = (b0 * 0x100 + b1) * 0x1_0000 + (b2 * 0x100 + b3);
    let lo: u64 = (b4 * 0x100 + b5) * 0x1_0000 + (b6 * 0x100 + b7);
    *offset = at + 8;
    Ok(hi * 0x1_0000_0000 + lo)
}

} // verus!
