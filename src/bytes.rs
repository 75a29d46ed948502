//! Fixed-width little-endian fields read out of a byte buffer.
use vstd::prelude::*;

verus! {

/// The 32-bit little-endian value held by the four bytes of `s` from `at` on.
pub open spec fn u32_at(s: Seq<u8>, at: int) -> u32 {
    (s[at] as int + 256 * s[at + 1] as int + 65536 * s[at + 2] as int + 16777216 * s[at + 3] as int) as u32
}

/// Whether the `n` bytes starting at `at` lie inside a buffer of length `len`.
pub open spec fn in_range(len: int, at: int, n: int) -> bool {
    0 <= at && 0 <= n && at + n <= len
}

/// Reads the 32-bit little-endian field at `at`, or `None` when the buffer
/// ends before its fourth byte.
pub fn read_u32(buf: &[u8], at: usize) -> (r: Option<u32>)
    ensures
        r == (if in_range(buf@.len() as int, at as int, 4) {
            Some(u32_at(buf@, at as int))
        } else {
            None::<u32>
        }),
{
    if at > buf.len() || buf.len() - at < 4 {
        return None;
    }
    let b0 = buf[at] as u32;
    let b1 = buf[at + 1] as u32;
    let b2 = buf[at + 2] as u32;
    let b3 = buf[at + 3] as u32;
    Some(b0 + 256 * b1 + 65536 * b2 + 16777216 * b3)
}

/// Reads the signed 32-bit little-endian field at `at`, or `None` when the
/// buffer ends before its fourth byte.
pub fn read_i32(buf: &[u8], at: usize) -> (r: Option<i32>)
    ensures
        r == (if in_range(buf@.len() as int, at as int, 4) {
            Some(u32_at(buf@, at as int) as i32)
        } else {
            None::<i32>
        }),
{
    match read_u32(buf, at) {
        Some(v) => Some(v as i32),
        None => None,
    }
}

} // verus!
