//! Big-endian integers in byte buffers.
//!
//! The byte order is stated here as specification functions; the reads and
//! writes themselves are done by the `bytes` crate.

use crate::buffer::overwrite;
use bytes::{Buf, BufMut};
use vstd::prelude::*;

verus! {

/// The two bytes of `v`, most significant first.
pub open spec fn u16_be(v: u16) -> Seq<u8> {
    seq![(v >> 8) as u8, v as u8]
}

/// The four bytes of `v`, most significant first.
pub open spec fn u32_be(v: u32) -> Seq<u8> {
    seq![(v >> 24) as u8, (v >> 16) as u8, (v >> 8) as u8, v as u8]
}

/// The eight bytes of `v`, most significant first.
pub open spec fn u64_be(v: u64) -> Seq<u8> {
    seq![
        (v >> 56) as u8,
        (v >> 48) as u8,
        (v >> 40) as u8,
        (v >> 32) as u8,
        (v >> 24) as u8,
        (v >> 16) as u8,
        (v >> 8) as u8,
        v as u8,
    ]
}

/// The integer whose big-endian bytes are the first two of `b`.
pub open spec fn u16_from_be(b: Seq<u8>) -> u16 {
    ((b[0] as u16) << 8) | (b[1] as u16)
}

/// The integer whose big-endian bytes are the first four of `b`.
pub open spec fn u32_from_be(b: Seq<u8>) -> u32 {
    ((b[0] as u32) << 24) | ((b[1] as u32) << 16) | ((b[2] as u32) << 8) | (b[3] as u32)
}

/// The integer whose big-endian bytes are the first eight of `b`.
pub open spec fn u64_from_be(b: Seq<u8>) -> u64 {
    ((b[0] as u64) << 56) | ((b[1] as u64) << 48) | ((b[2] as u64) << 40) | ((b[3] as u64) << 32)
        | ((b[4] as u64) << 24) | ((b[5] as u64) << 16) | ((b[6] as u64) << 8) | (b[7] as u64)
}

/// Decoding the encoding of a 16-bit integer gives it back.
pub proof fn lemma_u16_be_roundtrip(v: u16)
    ensures
        u16_be(v).len() == 2,
        u16_from_be(u16_be(v)) == v,
{
    assert((((v >> 8) as u8 as u16) << 8) | (v as u8 as u16) == v) by (bit_vector);
}

/// Decoding the encoding of a 32-bit integer gives it back.
pub proof fn lemma_u32_be_roundtrip(v: u32)
    ensures
        u32_be(v).len() == 4,
        u32_from_be(u32_be(v)) == v,
{
    assert((((v >> 24) as u8 as u32) << 24) | (((v >> 16) as u8 as u32) << 16) | (((v >> 8) as u8
        as u32) << 8) | (v as u8 as u32) == v) by (bit_vector);
}

/// Decoding the encoding of a 64-bit integer gives it back.
pub proof fn lemma_u64_be_roundtrip(v: u64)
    ensures
        u64_be(v).len() == 8,
        u64_from_be(u64_be(v)) == v,
{
    assert((((v >> 56) as u8 as u64) << 56) | (((v >> 48) as u8 as u64) << 48) | (((v >> 40) as u8
        as u64) << 40) | (((v >> 32) as u8 as u64) << 32) | (((v >> 24) as u8 as u64) << 24) | (((v
        >> 16) as u8 as u64) << 16) | (((v >> 8) as u8 as u64) << 8) | (v as u8 as u64) == v)
        by (bit_vector);
}

/// Two bytes are the encoding of the integer they decode to.
pub proof fn lemma_u16_be_of_bytes(b: Seq<u8>)
    requires
        b.len() == 2,
    ensures
        u16_be(u16_from_be(b)) == b,
{
    let (b0, b1) = (b[0], b[1]);
    let v = ((b0 as u16) << 8) | (b1 as u16);
    assert((v >> 8) as u8 == b0 && v as u8 == b1) by (bit_vector)
        requires
            v == ((b0 as u16) << 8) | (b1 as u16),
    ;
    assert(u16_be(v) =~= b);
}

/// Eight bytes are the encoding of the integer they decode to.
pub proof fn lemma_u64_be_of_bytes(b: Seq<u8>)
    requires
        b.len() == 8,
    ensures
        u64_be(u64_from_be(b)) == b,
{
    let (b0, b1, b2, b3, b4, b5, b6, b7) = (b[0], b[1], b[2], b[3], b[4], b[5], b[6], b[7]);
    let v = u64_from_be(b);
    assert((v >> 56) as u8 == b0 && (v >> 48) as u8 == b1 && (v >> 40) as u8 == b2 && (v >> 32)
        as u8 == b3 && (v >> 24) as u8 == b4 && (v >> 16) as u8 == b5 && (v >> 8) as u8 == b6 && v
        as u8 == b7) by (bit_vector)
        requires
            v == ((b0 as u64) << 56) | ((b1 as u64) << 48) | ((b2 as u64) << 40) | ((b3 as u64)
                << 32) | ((b4 as u64) << 24) | ((b5 as u64) << 16) | ((b6 as u64) << 8) | (b7
                as u64),
    ;
    assert(u64_be(v) =~= b);
}

/// Reads a 16-bit integer from the start of `src` by `bytes::Buf::get_u16`
/// on a byte slice. The crate reads the first two bytes in big-endian order
/// and panics on a shorter slice, which the precondition rules out.
#[verifier::external_body]
pub(crate) fn get_u16(src: &[u8]) -> (v: u16)
    requires
        src.len() >= 2,
    ensures
        v == u16_from_be(src@),
{
    let mut cursor = src;
    cursor.get_u16()
}

/// Reads a 32-bit integer from the start of `src` by `bytes::Buf::get_u32`
/// on a byte slice. The crate reads the first four bytes in big-endian order
/// and panics on a shorter slice, which the precondition rules out.
#[verifier::external_body]
pub(crate) fn get_u32(src: &[u8]) -> (v: u32)
    requires
        src.len() >= 4,
    ensures
        v == u32_from_be(src@),
{
    let mut cursor = src;
    cursor.get_u32()
}

/// Reads a 64-bit integer from the start of `src` by `bytes::Buf::get_u64`
/// on a byte slice. The crate reads the first eight bytes in big-endian
/// order and panics on a shorter slice, which the precondition rules out.
#[verifier::external_body]
pub(crate) fn get_u64(src: &[u8]) -> (v: u64)
    requires
        src.len() >= 8,
    ensures
        v == u64_from_be(src@),
{
    let mut cursor = src;
    cursor.get_u64()
}

/// Writes `v` into `dst[start..end]` by `bytes::BufMut::put_u16` on a
/// mutable byte slice. The crate copies the two big-endian bytes of `v` to
/// the front of the slice and panics when the slice is shorter than that,
/// which the precondition rules out. Nothing outside the range changes.
#[verifier::external_body]
pub(crate) fn put_u16(dst: &mut Vec<u8>, start: usize, end: usize, v: u16)
    requires
        start + 2 == end,
        end <= old(dst).len(),
    ensures
        final(dst)@ == overwrite(old(dst)@, start as int, u16_be(v)),
{
    let mut cursor = &mut dst[start..end];
    cursor.put_u16(v);
}

/// Writes `v` into `dst[start..end]` by `bytes::BufMut::put_u32` on a
/// mutable byte slice. The crate copies the four big-endian bytes of `v` to
/// the front of the slice and panics when the slice is shorter than that,
/// which the precondition rules out. Nothing outside the range changes.
#[verifier::external_body]
pub(crate) fn put_u32(dst: &mut Vec<u8>, start: usize, end: usize, v: u32)
    requires
        start + 4 == end,
        end <= old(dst).len(),
    ensures
        final(dst)@ == overwrite(old(dst)@, start as int, u32_be(v)),
{
    let mut cursor = &mut dst[start..end];
    cursor.put_u32(v);
}

/// Writes `v` into `dst[start..end]` by `bytes::BufMut::put_u64` on a
/// mutable byte slice. The crate copies the eight big-endian bytes of `v` to
/// the front of the slice and panics when the slice is shorter than that,
/// which the precondition rules out. Nothing outside the range changes.
#[verifier::external_body]
pub(crate) fn put_u64(dst: &mut Vec<u8>, start: usize, end: usize, v: u64)
    requires
        start + 8 == end,
        end <= old(dst).len(),
    ensures
        final(dst)@ == overwrite(old(dst)@, start as int, u64_be(v)),
{
    let mut cursor = &mut dst[start..end];
    cursor.put_u64(v);
}

} // verus!
