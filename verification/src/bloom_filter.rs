//! A small bloom filter over 64-bit hashes.
//!
//! The filter is a row of 64-bit words. A hash sets one bit in every word;
//! which bit is decided by mixing the hash with a seed derived from the
//! word's position. A lookup answers "maybe" when all those bits are set and
//! "no" otherwise, so it never misses a hash that was inserted.

use crate::buffer::{lemma_overwrite_twice, overwrite};
use crate::endian::{get_u64, lemma_u64_be_roundtrip, put_u64, u64_be, u64_from_be};
use vstd::prelude::*;
use vstd::slice::slice_subrange;

verus! {

/// Thomas Wang's 64-bit integer mix.
pub open spec fn twang_mix64(val: u64) -> u64 {
    let v1 = (!val).wrapping_add(val << 21);
    let v2 = v1 ^ (v1 >> 24);
    let v3 = v2.wrapping_add(v2 << 3).wrapping_add(v2 << 8);
    let v4 = v3 ^ (v3 >> 14);
    let v5 = v4.wrapping_add(v4 << 2).wrapping_add(v4 << 4);
    let v6 = v5 ^ (v5 >> 28);
    v6.wrapping_add(v6 << 31)
}

/// The multiplier of the 128-to-64-bit hash combiner.
pub const COMBINE_MULTIPLIER: u64 = 0x9ddf_ea08_eb38_2d69;

/// Folds two 64-bit hashes into one.
pub open spec fn combine_hashes(upper: u64, lower: u64) -> u64 {
    let a1 = (lower ^ upper).wrapping_mul(COMBINE_MULTIPLIER);
    let a2 = a1 ^ (a1 >> 47);
    let b1 = (upper ^ a2).wrapping_mul(COMBINE_MULTIPLIER);
    let b2 = b1 ^ (b1 >> 47);
    b2.wrapping_mul(COMBINE_MULTIPLIER)
}

/// The mask, in the word at position `word`, of the bit that stands for `hash`.
pub open spec fn bit_mask(hash: u64, word: int) -> u64 {
    1u64 << (combine_hashes(hash, twang_mix64(word as u64)) & 63)
}

/// The words of a filter after `hash` has been inserted.
pub open spec fn inserted(words: Seq<u64>, hash: u64) -> Seq<u64> {
    Seq::new(words.len(), |i: int| words[i] | bit_mask(hash, i))
}

/// Whether a filter with these words answers "maybe" for `hash`.
pub open spec fn may_contain(words: Seq<u64>, hash: u64) -> bool {
    forall|i: int| 0 <= i < words.len() ==> #[trigger] words[i] & bit_mask(hash, i) != 0
}

/// The words of a filter after the hashes have been inserted one by one,
/// first hash first.
pub open spec fn inserted_all(words: Seq<u64>, hashes: Seq<u64>) -> Seq<u64>
    decreases hashes.len(),
{
    if hashes.len() == 0 {
        words
    } else {
        inserted(inserted_all(words, hashes.drop_last()), hashes.last())
    }
}

/// A filter of `n` words with no bit set.
pub open spec fn cleared(n: nat) -> Seq<u64> {
    Seq::new(n, |i: int| 0u64)
}

/// The words that `8 * n` big-endian bytes hold.
pub open spec fn words_from_be(raw: Seq<u8>, n: nat) -> Seq<u64> {
    Seq::new(n, |i: int| u64_from_be(raw.subrange(8 * i, 8 * i + 8)))
}

/// The big-endian bytes of the words, first word first.
pub open spec fn words_be(words: Seq<u64>) -> Seq<u8>
    decreases words.len(),
{
    if words.len() == 0 {
        Seq::empty()
    } else {
        words_be(words.drop_last()) + u64_be(words.last())
    }
}

/// Inserting a hash makes the filter answer "maybe" for it.
pub proof fn lemma_inserted_contains(words: Seq<u64>, hash: u64)
    ensures
        may_contain(inserted(words, hash), hash),
{
    assert forall|i: int| 0 <= i < words.len() implies #[trigger] inserted(words, hash)[i]
        & bit_mask(hash, i) != 0 by {
        let w = words[i];
        let mixed = combine_hashes(hash, twang_mix64(i as u64));
        assert((w | (1u64 << (mixed & 63))) & (1u64 << (mixed & 63)) != 0) by (bit_vector);
    }
}

/// Inserting a hash never turns a "maybe" for another hash into a "no".
pub proof fn lemma_inserted_keeps(words: Seq<u64>, hash: u64, other: u64)
    requires
        may_contain(words, other),
    ensures
        may_contain(inserted(words, hash), other),
{
    assert forall|i: int| 0 <= i < words.len() implies #[trigger] inserted(words, hash)[i]
        & bit_mask(other, i) != 0 by {
        let w = words[i];
        let set = bit_mask(hash, i);
        let probe = bit_mask(other, i);
        assert(w & probe != 0);
        assert(w & probe != 0 ==> (w | set) & probe != 0) by (bit_vector);
    }
}

/// A filter answers "maybe" for every hash that was inserted into it.
pub proof fn lemma_inserted_all_contains(words: Seq<u64>, hashes: Seq<u64>, at: int)
    requires
        0 <= at < hashes.len(),
    ensures
        may_contain(inserted_all(words, hashes), hashes[at]),
    decreases hashes.len(),
{
    let before = inserted_all(words, hashes.drop_last());
    if at == hashes.len() - 1 {
        lemma_inserted_contains(before, hashes.last());
    } else {
        lemma_inserted_all_contains(words, hashes.drop_last(), at);
        lemma_inserted_keeps(before, hashes.last(), hashes[at]);
    }
}

/// Inserting never changes the number of words.
pub proof fn lemma_inserted_all_len(words: Seq<u64>, hashes: Seq<u64>)
    ensures
        inserted_all(words, hashes).len() == words.len(),
    decreases hashes.len(),
{
    if hashes.len() > 0 {
        lemma_inserted_all_len(words, hashes.drop_last());
    }
}

/// Inserting two runs of hashes one after the other is inserting their
/// concatenation.
pub proof fn lemma_inserted_all_concat(words: Seq<u64>, first: Seq<u64>, second: Seq<u64>)
    ensures
        inserted_all(inserted_all(words, first), second) == inserted_all(words, first + second),
    decreases second.len(),
{
    if second.len() == 0 {
        assert(first + second =~= first);
    } else {
        lemma_inserted_all_concat(words, first, second.drop_last());
        assert((first + second).drop_last() =~= first + second.drop_last());
    }
}

/// The bytes of `n` words are `8 * n` long.
pub proof fn lemma_words_be_len(words: Seq<u64>)
    ensures
        words_be(words).len() == 8 * words.len(),
    decreases words.len(),
{
    if words.len() > 0 {
        lemma_words_be_len(words.drop_last());
    }
}

/// Reading back the bytes of a row of words gives the words, whatever
/// follows the bytes.
pub proof fn lemma_words_be_roundtrip(words: Seq<u64>, rest: Seq<u8>)
    ensures
        words_from_be(words_be(words) + rest, words.len()) == words,
    decreases words.len(),
{
    let raw = words_be(words) + rest;
    lemma_words_be_len(words);
    if words.len() > 0 {
        let front = words.drop_last();
        let tail = u64_be(words.last()) + rest;
        lemma_words_be_len(front);
        lemma_words_be_roundtrip(front, tail);
        assert(words_be(front) + tail =~= raw);
        lemma_u64_be_roundtrip(words.last());
        let k = words.len() - 1;
        assert(raw.subrange(8 * k, 8 * k + 8) =~= u64_be(words.last()));
        assert forall|i: int| 0 <= i < words.len() implies words_from_be(raw, words.len())[i]
            == words[i] by {
            if i < k {
                assert(words_from_be(raw, front.len())[i] == front[i]);
            }
        }
    }
    assert(words_from_be(raw, words.len()) =~= words);
}

/// A bloom filter of `N` 64-bit words over 64-bit hashes.
#[derive(Debug)]
pub struct BloomFilterU64<const N: usize> {
    data: [u64; N],
}

impl<const N: usize> View for BloomFilterU64<N> {
    type V = Seq<u64>;

    closed spec fn view(&self) -> Seq<u64> {
        self.data@
    }
}

impl<const N: usize> Default for BloomFilterU64<N> {
    fn default() -> (filter: Self)
        ensures
            filter@ == cleared(N as nat),
    {
        Self::new()
    }
}

fn mix64(val: u64) -> (mixed: u64)
    ensures
        mixed == twang_mix64(val),
{
    let v1 = (!val).wrapping_add(val << 21);
    let v2 = v1 ^ (v1 >> 24);
    let v3 = v2.wrapping_add(v2 << 3).wrapping_add(v2 << 8);
    let v4 = v3 ^ (v3 >> 14);
    let v5 = v4.wrapping_add(v4 << 2).wrapping_add(v4 << 4);
    let v6 = v5 ^ (v5 >> 28);
    v6.wrapping_add(v6 << 31)
}

fn combine(upper: u64, lower: u64) -> (combined: u64)
    ensures
        combined == combine_hashes(upper, lower),
{
    let a1 = (lower ^ upper).wrapping_mul(COMBINE_MULTIPLIER);
    let a2 = a1 ^ (a1 >> 47);
    let b1 = (upper ^ a2).wrapping_mul(COMBINE_MULTIPLIER);
    let b2 = b1 ^ (b1 >> 47);
    b2.wrapping_mul(COMBINE_MULTIPLIER)
}

fn mask_of(hash: u64, word: usize) -> (mask: u64)
    ensures
        mask == bit_mask(hash, word as int),
{
    let combined = combine(hash, mix64(word as u64));
    let bit = combined & 63;
    assert(bit < 64) by (bit_vector)
        requires
            bit == combined & 63,
    ;
    1u64 << bit
}

impl<const N: usize> BloomFilterU64<N> {
    /// A filter with no bit set.
    pub fn new() -> (filter: Self)
        ensures
            filter@ == cleared(N as nat),
    {
        let filter = Self { data: [0u64; N] };
        assert(filter@ =~= cleared(N as nat));
        filter
    }

    /// The filter that `8 * N` big-endian bytes at the start of `raw` hold.
    pub fn read(raw: &[u8]) -> (filter: Self)
        requires
            raw.len() >= 8 * N,
        ensures
            filter@ == words_from_be(raw@, N as nat),
    {
        let mut data = [0u64; N];
        let mut i: usize = 0;
        while i < N
            invariant
                i <= N,
                raw.len() >= 8 * N,
                data@.len() == N,
                forall|j: int| 0 <= j < i ==> data@[j] == u64_from_be(raw@.subrange(8 * j, 8 * j + 8)),
            decreases N - i,
        {
            data[i] = get_u64(slice_subrange(raw, 8 * i, 8 * i + 8));
            i += 1;
        }
        let filter = Self { data };
        assert(filter@ =~= words_from_be(raw@, N as nat));
        filter
    }

    /// Writes the words as `8 * N` big-endian bytes into `raw`, from `at` on.
    pub fn write(&self, raw: &mut Vec<u8>, at: usize)
        requires
            at + 8 * N <= old(raw).len(),
        ensures
            final(raw)@ == overwrite(old(raw)@, at as int, words_be(self@)),
    {
        let ghost before = raw@;
        let mut i: usize = 0;
        assert(self@.subrange(0, 0) =~= Seq::<u64>::empty());
        assert(overwrite(before, at as int, Seq::<u8>::empty()) =~= before);
        while i < N
            invariant
                i <= N,
                self@.len() == N,
                before.len() == raw@.len(),
                at + 8 * N <= before.len() == raw.len(),
                raw@ == overwrite(before, at as int, words_be(self@.subrange(0, i as int))),
            decreases N - i,
        {
            let ghost done = self@.subrange(0, i as int);
            proof {
                lemma_words_be_len(done);
                lemma_overwrite_twice(before, at as int, words_be(done), u64_be(self@[i as int]));
                assert(self@.subrange(0, i + 1).drop_last() =~= done);
            }
            put_u64(raw, at + 8 * i, at + 8 * i + 8, self.data[i]);
            i += 1;
        }
        assert(self@.subrange(0, N as int) =~= self@);
    }

    /// Sets the bits that stand for `hash`.
    pub fn insert(&mut self, hash: u64)
        ensures
            final(self)@ == inserted(old(self)@, hash),
    {
        let ghost before = self@;
        let mut i: usize = 0;
        while i < N
            invariant
                i <= N,
                before.len() == N,
                self@.len() == N,
                forall|j: int| 0 <= j < i ==> self@[j] == before[j] | bit_mask(hash, j),
                forall|j: int| i <= j < N ==> self@[j] == before[j],
            decreases N - i,
        {
            let mask = mask_of(hash, i);
            self.data[i] = self.data[i] | mask;
            i += 1;
        }
        assert(self@ =~= inserted(before, hash));
    }

    /// Whether `hash` may have been inserted: `false` means that it was not.
    pub fn lookup(&self, hash: u64) -> (maybe: bool)
        ensures
            maybe == may_contain(self@, hash),
    {
        let mut i: usize = 0;
        while i < N
            invariant
                i <= N,
                self@.len() == N,
                forall|j: int| 0 <= j < i ==> #[trigger] self@[j] & bit_mask(hash, j) != 0,
            decreases N - i,
        {
            let mask = mask_of(hash, i);
            if self.data[i] & mask == 0 {
                return false;
            }
            i += 1;
        }
        true
    }

    /// Unsets every bit.
    pub fn clear(&mut self)
        ensures
            final(self)@ == cleared(N as nat),
    {
        self.data = [0u64; N];
        assert(self@ =~= cleared(N as nat));
    }
}

} // verus!
