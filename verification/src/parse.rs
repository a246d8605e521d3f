//! Little-endian integer readers that consume a byte slice.

use vstd::prelude::*;
use crate::bytes::{le_uint, read_le};

verus! {

/// Reads a `u8` from the front of `buf`, advancing it. When fewer bytes remain, returns how many
/// were missing and leaves `buf` as it was.
pub fn read_le_u8<'a>(buf: &mut &'a [u8]) -> (r: Result<u8, usize>)
    ensures
        old(buf)@.len() >= 1 ==> r == Ok::<u8, usize>(old(buf)@[0]) && final(buf)@ == old(
            buf,
        )@.skip(1),
        old(buf)@.len() < 1 ==> r == Err::<u8, usize>(1) && final(buf)@ == old(buf)@,
{
    if buf.len() < 1 {
        return Err(1);
    }
    let (head, rest) = buf.split_at(1);
    let b = head[0];
    *buf = rest;
    Ok(b)
}

/// Reads a little-endian `u16` from the front of `buf`, advancing it. When fewer bytes remain,
/// returns how many were missing and leaves `buf` as it was.
pub fn read_le_u16<'a>(buf: &mut &'a [u8]) -> (r: Result<u16, usize>)
    ensures
        old(buf)@.len() >= 2 ==> (r matches Ok(v) && v as nat == le_uint(old(buf)@.take(2))
            && final(buf)@ == old(buf)@.skip(2)),
        old(buf)@.len() < 2 ==> r == Err::<u16, usize>((2 - old(buf)@.len()) as usize)
            && final(buf)@ == old(buf)@,
{
    if buf.len() < 2 {
        return Err(2 - buf.len());
    }
    let v = read_le(buf, 0, 2);
    proof {
        crate::bytes::lemma_le_uint_bound(buf@.subrange(0, 2));
        crate::bytes::lemma_pow256_values();
    }
    let (_, rest) = buf.split_at(2);
    *buf = rest;
    Ok(v as u16)
}

/// Reads a little-endian `u32` from the front of `buf`, advancing it. When fewer bytes remain,
/// returns how many were missing and leaves `buf` as it was.
pub fn read_le_u32<'a>(buf: &mut &'a [u8]) -> (r: Result<u32, usize>)
    ensures
        old(buf)@.len() >= 4 ==> (r matches Ok(v) && v as nat == le_uint(old(buf)@.take(4))
            && final(buf)@ == old(buf)@.skip(4)),
        old(buf)@.len() < 4 ==> r == Err::<u32, usize>((4 - old(buf)@.len()) as usize)
            && final(buf)@ == old(buf)@,
{
    if buf.len() < 4 {
        return Err(4 - buf.len());
    }
    let v = read_le(buf, 0, 4);
    proof {
        crate::bytes::lemma_le_uint_bound(buf@.subrange(0, 4));
        crate::bytes::lemma_pow256_values();
    }
    let (_, rest) = buf.split_at(4);
    *buf = rest;
    Ok(v as u32)
}

/// Reads a little-endian `u64` from the front of `buf`, advancing it. When fewer bytes remain,
/// returns how many were missing and leaves `buf` as it was.
pub fn read_le_u64<'a>(buf: &mut &'a [u8]) -> (r: Result<u64, usize>)
    ensures
        old(buf)@.len() >= 8 ==> (r matches Ok(v) && v as nat == le_uint(old(buf)@.take(8))
            && final(buf)@ == old(buf)@.skip(8)),
        old(buf)@.len() < 8 ==> r == Err::<u64, usize>((8 - old(buf)@.len()) as usize)
            && final(buf)@ == old(buf)@,
{
    if buf.len() < 8 {
        return Err(8 - buf.len());
    }
    let v = read_le(buf, 0, 8);
    let (_, rest) = buf.split_at(8);
    *buf = rest;
    Ok(v)
}

/// A little-endian `u64` holds the values of two little-endian `u32`s read one after the other:
/// the first is its low half and the second its high half.
pub proof fn lemma_u64_is_two_u32(s: Seq<u8>)
    requires
        s.len() >= 8,
    ensures
        le_uint(s.take(8)) == le_uint(s.take(4)) + 0x1_0000_0000 * le_uint(s.skip(4).take(4)),
{
    assert(s.take(8) =~= s.take(4) + s.skip(4).take(4));
    crate::bytes::lemma_le_uint_concat(s.take(4), s.skip(4).take(4));
    crate::bytes::lemma_pow256_values();
}

} // verus!
