//! What sealing and loading a page do to each other: a sealed page comes
//! back from its bytes as it was, and a sealed page with one damaged byte
//! comes back empty.

use crate::bloom_filter::{cleared, lemma_words_be_len, lemma_words_be_roundtrip, words_be};
use crate::checksum::lemma_crc32_detects_byte_change;
use crate::endian::{lemma_u32_be_roundtrip, lemma_u64_be_roundtrip, u32_be, u64_be};
use crate::set::SetView;
use vstd::prelude::*;

verus! {

/// How the bytes of a sealed page are laid out.
proof fn lemma_sealed_layout(page: SetView, timestamp: u64)
    requires
        page.wf(),
    ensures
        ({
            let sealed = page.sealed(timestamp);
            &&& sealed.buffer.len() == page.buffer.len()
            &&& sealed.buffer.subrange(0, 4) == u32_be(sealed.checksum)
            &&& sealed.buffer.subrange(4, 12) == u64_be(timestamp)
            &&& sealed.buffer.subrange(12, 16) == u32_be(page.len as u32)
            &&& sealed.buffer.subrange(16, 48) == words_be(page.bloom)
            &&& sealed.buffer.subrange(4, 48 + page.len as int) == page.sealed_fields(timestamp)
                + page.live()
            &&& sealed.buffer.skip(48) == page.buffer.skip(48)
        }),
{
    let sealed = page.sealed(timestamp);
    lemma_words_be_len(page.bloom);
    assert(sealed.buffer.subrange(0, 4) =~= u32_be(sealed.checksum));
    assert(sealed.buffer.subrange(4, 12) =~= u64_be(timestamp));
    assert(sealed.buffer.subrange(12, 16) =~= u32_be(page.len as u32));
    assert(sealed.buffer.subrange(16, 48) =~= words_be(page.bloom));
    assert(sealed.buffer.subrange(4, 48 + page.len as int) =~= page.sealed_fields(timestamp)
        + page.live());
    assert(sealed.buffer.skip(48) =~= page.buffer.skip(48));
}

/// Sealing a page changes its header and nothing else: the page holds the
/// same entries under the same filter, in a buffer of the same length with
/// the same bytes behind the header.
pub proof fn lemma_seal_keeps_contents(page: SetView, timestamp: u64)
    requires
        page.wf(),
    ensures
        page.sealed(timestamp).wf(),
        page.sealed(timestamp).contents() == page.contents(),
        page.sealed(timestamp).entries() == page.entries(),
        page.sealed(timestamp).region() == page.region(),
{
    lemma_sealed_layout(page, timestamp);
    assert(page.sealed(timestamp).live() =~= page.live());
}

/// Sealing a page twice at the same time is sealing it once.
pub proof fn lemma_seal_idempotent(page: SetView, timestamp: u64)
    requires
        page.wf(),
    ensures
        page.sealed(timestamp).sealed(timestamp) == page.sealed(timestamp),
{
    lemma_seal_keeps_contents(page, timestamp);
}

/// A page that is sealed and then loaded from its bytes comes back as it
/// was sealed: same length, same entries, same filter, same buffer. This
/// holds of every page whose length can be written in the header's four
/// bytes.
pub proof fn lemma_load_after_seal(page: SetView, timestamp: u64)
    requires
        page.wf(),
        page.len <= u32::MAX,
    ensures
        SetView::loaded(page.sealed(timestamp).buffer) == page.sealed(timestamp),
        SetView::loaded(page.sealed(timestamp).buffer).len == page.len,
        SetView::loaded(page.sealed(timestamp).buffer).bloom == page.bloom,
        SetView::loaded(page.sealed(timestamp).buffer).entries() == page.entries(),
{
    let sealed = page.sealed(timestamp);
    lemma_sealed_layout(page, timestamp);
    lemma_seal_keeps_contents(page, timestamp);
    lemma_u32_be_roundtrip(sealed.checksum);
    lemma_u64_be_roundtrip(timestamp);
    lemma_u32_be_roundtrip(page.len as u32);
    lemma_words_be_roundtrip(page.bloom, Seq::empty());
    assert(words_be(page.bloom) + Seq::<u8>::empty() =~= words_be(page.bloom));
}

/// Damage to a sealed page does not go unseen. Where one byte between the
/// checksum and the end of the live entries, outside the length field, is
/// changed, the page is loaded empty.
pub proof fn lemma_damaged_byte_empties(page: SetView, timestamp: u64, at: int, byte: u8)
    requires
        page.wf(),
        page.len <= u32::MAX,
        4 <= at < 48 + page.len,
        !(12 <= at < 16),
        byte != page.sealed(timestamp).buffer[at],
    ensures
        SetView::loaded(page.sealed(timestamp).buffer.update(at, byte)).len == 0,
        SetView::loaded(page.sealed(timestamp).buffer.update(at, byte)).bloom == cleared(4),
        SetView::loaded(page.sealed(timestamp).buffer.update(at, byte)).entries().len() == 0,
{
    let sealed = page.sealed(timestamp);
    let damaged = sealed.buffer.update(at, byte);
    lemma_sealed_layout(page, timestamp);
    lemma_u32_be_roundtrip(sealed.checksum);
    lemma_u32_be_roundtrip(page.len as u32);
    assert(damaged.subrange(0, 4) =~= sealed.buffer.subrange(0, 4));
    assert(damaged.subrange(12, 16) =~= sealed.buffer.subrange(12, 16));
    let covered = sealed.buffer.subrange(4, 48 + page.len as int);
    let seen = damaged.subrange(4, 48 + page.len as int);
    lemma_crc32_detects_byte_change(covered, seen, at - 4);
    let loaded = SetView::loaded(damaged);
    assert(loaded.live() =~= Seq::<u8>::empty());
}

} // verus!
