//! Length-prefixed frames: a 4-byte big-endian length, then the bytes.
use vstd::prelude::*;
use crate::stego::positions::u32_be_bytes;

verus! {

/// The largest frame body a receiver accepts: 16 MiB.
pub const MAX_FRAME_LEN: usize = 16 * 1024 * 1024;

/// Four bytes read as a big-endian integer.
pub open spec fn be_u32(b: Seq<u8>) -> nat {
    (b[0] * 16777216 + b[1] * 65536 + b[2] * 256 + b[3]) as nat
}

/// The four big-endian bytes of `n`.
pub fn u32_to_be(n: u32) -> (b: [u8; 4])
    ensures
        b@ == u32_be_bytes(n),
        be_u32(b@) == n,
{
    let b: [u8; 4] = [(n / 16777216) as u8, ((n / 65536) % 256) as u8, ((n / 256) % 256) as u8, (n % 256) as u8];
    assert(b@ =~= u32_be_bytes(n));
    b
}

/// Four bytes read as a big-endian integer.
pub fn be_to_u32(b: &[u8]) -> (n: u32)
    requires
        b@.len() >= 4,
    ensures
        n == be_u32(b@),
{
    b[0] as u32 * 16777216 + b[1] as u32 * 65536 + b[2] as u32 * 256 + b[3] as u32
}

/// The header of a frame whose body has `len` bytes: the length, cut to 32
/// bits, in big-endian order.
pub fn frame_header(len: usize) -> (header: [u8; 4])
    ensures
        be_u32(header@) == len as nat % 0x1_0000_0000,
{
    let n: u32 = (len as u64 % 0x1_0000_0000u64) as u32;
    u32_to_be(n)
}

/// The body length that a frame header announces; a body over 16 MiB is
/// refused.
pub fn frame_length(header: [u8; 4]) -> (res: Result<usize, String>)
    ensures
        be_u32(header@) > MAX_FRAME_LEN ==> (res matches Err(e) && e@ == "frame too large"@),
        be_u32(header@) <= MAX_FRAME_LEN ==> res == Ok::<usize, String>(be_u32(header@) as usize),
{
    let len: u32 = be_to_u32(&header);
    if len as usize > MAX_FRAME_LEN {
        return Err("frame too large".to_owned());
    }
    Ok(len as usize)
}

/// A header written for a body of at most 16 MiB is accepted when read
/// back, and announces that body's length.
pub proof fn lemma_frame_roundtrip(header: Seq<u8>, len: usize)
    requires
        header.len() == 4,
        be_u32(header) == len as nat % 0x1_0000_0000,
        len <= MAX_FRAME_LEN,
    ensures
        be_u32(header) <= MAX_FRAME_LEN,
        be_u32(header) == len,
{
}

} // verus!
