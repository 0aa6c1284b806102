use crate::format::{i64_at, reports, slice_at, u32_at, u64_at};
use vstd::bytes::{u32_from_le_bytes, u64_from_le_bytes};
use vstd::prelude::*;
use vstd::slice::slice_subrange;
use vstd::string::StringExecFns;

verus! {

/// Reads `length` bytes at the cursor `*pos` and moves the cursor past them.
/// Fails, leaving the cursor where it was, when `*pos + length` overflows
/// `usize` or runs past the end of `bytes`.
pub fn read_slice<'a>(bytes: &'a [u8], pos: &mut usize, length: usize) -> (res: Result<&'a [u8], String>)
    ensures
        reports(res, slice_at(bytes@, *old(pos) as int, length as int).0),
        *final(pos) == slice_at(bytes@, *old(pos) as int, length as int).1,
{
    let end = match pos.checked_add(length) {
        Some(e) => e,
        None => return Err(String::from_str("length overflow")),
    };
    if end > bytes.len() {
        return Err(String::from_str("unexpected eof: slice out of range"));
    }
    let slice = slice_subrange(bytes, *pos, end);
    *pos = end;
    Ok(slice)
}

/// Reads a little-endian `u32` at the cursor and moves the cursor past it.
pub fn read_u32(bytes: &[u8], pos: &mut usize) -> (res: Result<u32, String>)
    ensures
        reports(res, u32_at(bytes@, *old(pos) as int).0),
        *final(pos) == u32_at(bytes@, *old(pos) as int).1,
{
    match read_slice(bytes, pos, 4) {
        Ok(slice) => Ok(u32_from_le_bytes(slice)),
        Err(e) => Err(e),
    }
}

/// Reads a little-endian `i64` at the cursor and moves the cursor past it.
pub fn read_i64(bytes: &[u8], pos: &mut usize) -> (res: Result<i64, String>)
    ensures
        reports(res, i64_at(bytes@, *old(pos) as int).0),
        *final(pos) == i64_at(bytes@, *old(pos) as int).1,
{
    match read_slice(bytes, pos, 8) {
        Ok(slice) => Ok(u64_from_le_bytes(slice) as i64),
        Err(e) => Err(e),
    }
}

/// Reads the eight little-endian bytes of an `f64` at the cursor, as the
/// float's bit pattern, and moves the cursor past them.
pub fn read_f64_bits(bytes: &[u8], pos: &mut usize) -> (res: Result<u64, String>)
    ensures
        reports(res, u64_at(bytes@, *old(pos) as int).0),
        *final(pos) == u64_at(bytes@, *old(pos) as int).1,
{
    match read_slice(bytes, pos, 8) {
        Ok(slice) => Ok(u64_from_le_bytes(slice)),
        Err(e) => Err(e),
    }
}

} // verus!
