//! The CRC-32 checksum (IEEE 802.3, reflected polynomial `0xEDB88320`) that
//! seals a page, and the one property of it that the page relies on: a
//! change of a single byte always changes the checksum.

use vstd::prelude::*;

verus! {

/// The reflected generator polynomial of CRC-32.
pub const CRC32_POLYNOMIAL: u32 = 0xEDB8_8320;

/// The register before any byte has been fed, and the mask applied at the end.
pub const CRC32_MASK: u32 = 0xFFFF_FFFF;

/// One step of the shift register: the lowest bit leaves, and the polynomial
/// is folded in when that bit was set.
pub open spec fn crc32_shift(state: u32) -> u32 {
    if state & 1 == 1 {
        (state >> 1) ^ CRC32_POLYNOMIAL
    } else {
        state >> 1
    }
}

/// The register after one more byte: the byte is folded into the low bits,
/// then the register is shifted eight times.
pub open spec fn crc32_update(state: u32, byte: u8) -> u32 {
    crc32_shift(
        crc32_shift(
            crc32_shift(
                crc32_shift(
                    crc32_shift(crc32_shift(crc32_shift(crc32_shift(state ^ (byte as u32))))),
                ),
            ),
        ),
    )
}

/// The register after all of `bytes` have been fed, first byte first.
pub open spec fn crc32_state(bytes: Seq<u8>) -> u32
    decreases bytes.len(),
{
    if bytes.len() == 0 {
        CRC32_MASK
    } else {
        crc32_update(crc32_state(bytes.drop_last()), bytes.last())
    }
}

/// The CRC-32 of `bytes`.
pub open spec fn crc32(bytes: Seq<u8>) -> u32 {
    crc32_state(bytes) ^ CRC32_MASK
}

/// Feeding the same byte to two different registers leaves them different.
pub proof fn lemma_update_keeps_states_apart(s1: u32, s2: u32, byte: u8)
    requires
        s1 != s2,
    ensures
        crc32_update(s1, byte) != crc32_update(s2, byte),
{
    assert(s1 != s2 ==> crc32_update(s1, byte) != crc32_update(s2, byte)) by (bit_vector);
}

/// Feeding two different bytes to the same register leaves two different
/// registers.
pub proof fn lemma_update_tells_bytes_apart(state: u32, b1: u8, b2: u8)
    requires
        b1 != b2,
    ensures
        crc32_update(state, b1) != crc32_update(state, b2),
{
    assert(b1 != b2 ==> crc32_update(state, b1) != crc32_update(state, b2)) by (bit_vector);
}

/// Two byte strings of one length that differ in exactly one place leave
/// different registers.
pub proof fn lemma_state_detects_byte_change(a: Seq<u8>, b: Seq<u8>, at: int)
    requires
        a.len() == b.len(),
        0 <= at < a.len(),
        a[at] != b[at],
        forall|j: int| 0 <= j < a.len() && j != at ==> a[j] == b[j],
    ensures
        crc32_state(a) != crc32_state(b),
    decreases a.len(),
{
    if at == a.len() - 1 {
        assert(a.drop_last() =~= b.drop_last());
        lemma_update_tells_bytes_apart(crc32_state(a.drop_last()), a.last(), b.last());
    } else {
        lemma_state_detects_byte_change(a.drop_last(), b.drop_last(), at);
        lemma_update_keeps_states_apart(
            crc32_state(a.drop_last()),
            crc32_state(b.drop_last()),
            a.last(),
        );
    }
}

/// A change of a single byte changes the checksum: two byte strings of one
/// length that differ in exactly one place never share a CRC-32.
pub proof fn lemma_crc32_detects_byte_change(a: Seq<u8>, b: Seq<u8>, at: int)
    requires
        a.len() == b.len(),
        0 <= at < a.len(),
        a[at] != b[at],
        forall|j: int| 0 <= j < a.len() && j != at ==> a[j] == b[j],
    ensures
        crc32(a) != crc32(b),
{
    lemma_state_detects_byte_change(a, b, at);
    let (x, y) = (crc32_state(a), crc32_state(b));
    assert(x != y ==> x ^ 0xFFFF_FFFFu32 != y ^ 0xFFFF_FFFFu32) by (bit_vector);
}

/// Computes checksums of byte strings.
pub struct Checksummer;

impl Checksummer {
    fn shift(state: u32) -> (next: u32)
        ensures
            next == crc32_shift(state),
    {
        if state & 1 == 1 {
            (state >> 1) ^ CRC32_POLYNOMIAL
        } else {
            state >> 1
        }
    }

    fn update(state: u32, byte: u8) -> (next: u32)
        ensures
            next == crc32_update(state, byte),
    {
        let mut s: u32 = state ^ (byte as u32);
        s = Self::shift(s);
        s = Self::shift(s);
        s = Self::shift(s);
        s = Self::shift(s);
        s = Self::shift(s);
        s = Self::shift(s);
        s = Self::shift(s);
        Self::shift(s)
    }

    /// The CRC-32 of `buf`.
    pub fn checksum32(buf: &[u8]) -> (sum: u32)
        ensures
            sum == crc32(buf@),
    {
        let mut state: u32 = CRC32_MASK;
        let mut i: usize = 0;
        while i < buf.len()
            invariant
                i <= buf@.len(),
                state == crc32_state(buf@.subrange(0, i as int)),
            decreases buf@.len() - i,
        {
            proof {
                assert(buf@.subrange(0, i + 1).drop_last() =~= buf@.subrange(0, i as int));
            }
            state = Self::update(state, buf[i]);
            i += 1;
        }
        proof {
            assert(buf@.subrange(0, i as int) =~= buf@);
        }
        state ^ CRC32_MASK
    }
}

} // verus!
