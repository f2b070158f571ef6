//! The set page: a buffer of fixed length that packs many small entries
//! behind a checksummed header.
//!
//! ```plain
//! | checksum (4B) | timestamp (8B) | len (4B) |
//! | bloom filter (4 * 8B = 32B) |
//! | entries (len B) | reserve |
//! ```
//!
//! The checksum is the CRC-32 of everything between itself and the end of
//! the entries. All header integers are big-endian.

use crate::bloom_filter::{
    cleared, inserted, inserted_all, lemma_inserted_all_len, lemma_words_be_len, may_contain, words_be,
    words_from_be, BloomFilterU64,
};
use crate::buffer::{move_down, overwrite, write_slice};
use crate::checksum::{crc32, Checksummer};
use crate::clock::unix_millis;
use crate::code::{Code, Error};
use crate::contents::{
    dropped, filter_of, first_with_hash, item_hashes, joined, lemma_nothing_kept,
    lemma_filter_of_push, lemma_first_with_hash_step, lemma_joined_front, lemma_parse_step,
    lemma_wipe_step, lemma_without_push, wipe_len, without, Contents, ItemView,
};
use crate::endian::{get_u32, get_u64, put_u32, put_u64, u32_be, u32_from_be, u64_be, u64_from_be};
use crate::entry::{
    encode, entry_len_at, first_entry, has_entry, hash_at, hashes, key_len_at, lemma_bytes_of_first,
    lemma_encode_push, parse, value_len_at, Entry, EntryHeader, ENTRY_HEADER_SIZE,
};
use std::collections::HashSet;
use std::sync::Arc;
use vstd::prelude::*;
use vstd::slice::slice_subrange;

verus! {

/// The number of a page on its device.
pub type SetId = u64;

/// The number of bytes of a page's header.
pub const SET_HEADER_SIZE: usize = 48;

/// A page as a mathematical value.
pub struct SetView {
    /// The checksum that the page was loaded with or last sealed with.
    pub checksum: u32,
    /// When the page was last sealed, in milliseconds since the epoch.
    pub timestamp: u64,
    /// The number of bytes of live entries.
    pub len: nat,
    /// The words of the bloom filter.
    pub bloom: Seq<u64>,
    /// The whole buffer: header, entries and reserve.
    pub buffer: Seq<u8>,
}

impl SetView {
    /// The length of the buffer.
    pub open spec fn size(self) -> nat {
        self.buffer.len()
    }

    /// The number of bytes that entries can take.
    pub open spec fn capacity(self) -> int {
        self.buffer.len() - 48
    }

    /// The bytes of the live entries.
    pub open spec fn live(self) -> Seq<u8> {
        self.buffer.subrange(48, 48 + self.len as int)
    }

    /// Everything behind the header: the live entries and the reserve.
    pub open spec fn region(self) -> Seq<u8> {
        self.buffer.skip(48)
    }

    /// The live entries, oldest first.
    pub open spec fn entries(self) -> Seq<Entry> {
        parse(self.live())
    }

    /// The header bytes as they stand in the buffer.
    pub open spec fn header(self) -> Seq<u8> {
        self.buffer.take(48)
    }

    /// What every page satisfies: the buffer holds a whole header, the live
    /// entries end inside the buffer, and the filter has four words.
    pub open spec fn wf(self) -> bool {
        &&& self.buffer.len() >= 48
        &&& self.len <= self.capacity()
        &&& self.bloom.len() == 4
    }

    /// The page that a buffer is loaded as. The header fields are read from
    /// the first 48 bytes. Where the length they give ends inside the buffer
    /// and the checksum matches, the page holds what the buffer says;
    /// otherwise it is empty. The buffer itself is kept either way.
    pub open spec fn loaded(buffer: Seq<u8>) -> SetView {
        let checksum = u32_from_be(buffer.subrange(0, 4));
        let timestamp = u64_from_be(buffer.subrange(4, 12));
        let len = u32_from_be(buffer.subrange(12, 16)) as nat;
        let bloom = words_from_be(buffer.subrange(16, 48), 4);
        if 48 + len <= buffer.len() && crc32(buffer.subrange(4, 48 + len as int)) == checksum {
            SetView { checksum, timestamp, len, bloom, buffer }
        } else {
            SetView { checksum, timestamp, len: 0, bloom: cleared(4), buffer }
        }
    }

    /// The bytes of a sealed header behind the checksum: timestamp, length
    /// and filter.
    pub open spec fn sealed_fields(self, timestamp: u64) -> Seq<u8> {
        u64_be(timestamp) + u32_be(self.len as u32) + words_be(self.bloom)
    }

    /// The page after it has been sealed at `timestamp`: the header is
    /// written anew from the fields, under the checksum of all that stands
    /// between the checksum and the end of the live entries.
    pub open spec fn sealed(self, timestamp: u64) -> SetView {
        let fields = self.sealed_fields(timestamp);
        let checksum = crc32(fields + self.live());
        SetView {
            checksum,
            timestamp,
            len: self.len,
            bloom: self.bloom,
            buffer: u32_be(checksum) + fields + self.region(),
        }
    }

    /// The page with no live entry and no bit set in its filter.
    pub open spec fn emptied(self) -> SetView {
        SetView { len: 0, bloom: cleared(4), ..self }
    }
}

impl SetView {
    /// What the page holds.
    pub open spec fn contents(self) -> Contents {
        Contents { data: self.live(), bloom: self.bloom }
    }

    /// Whether two pages differ at most in what they hold: same buffer
    /// length, same header bytes, same checksum and timestamp.
    pub open spec fn same_frame(self, other: SetView) -> bool {
        &&& self.buffer.len() == other.buffer.len()
        &&& self.header() == other.header()
        &&& self.checksum == other.checksum
        &&& self.timestamp == other.timestamp
    }
}

/// Moving a run of bytes down inside the entry region leaves the header,
/// what stands before the target and what stands behind the run as they
/// were, and puts the run behind what stands before the target.
proof fn lemma_moved_down(buffer: Seq<u8>, after: Seq<u8>, r: int, w: int, n: int, len: int)
    requires
        0 <= w <= r,
        0 <= n,
        r + n <= len,
        48 + len <= buffer.len(),
        after == overwrite(buffer, 48 + w, buffer.subrange(48 + r, 48 + r + n)),
    ensures
        after.len() == buffer.len(),
        after.take(48) == buffer.take(48),
        after.subrange(48, 48 + w + n) == buffer.subrange(48, 48 + w) + buffer.subrange(
            48 + r,
            48 + r + n,
        ),
        after.subrange(48 + r + n, 48 + len) == buffer.subrange(48 + r + n, 48 + len),
{
    assert(after.take(48) =~= buffer.take(48));
    assert(after.subrange(48, 48 + w + n) =~= buffer.subrange(48, 48 + w) + buffer.subrange(
        48 + r,
        48 + r + n,
    ));
    assert(after.subrange(48 + r + n, 48 + len) =~= buffer.subrange(48 + r + n, 48 + len));
}

/// What a run of bytes says of its first `n` bytes and of the rest, said
/// of the buffer that holds the run from `48 + r` on.
proof fn lemma_split_rest(buffer: Seq<u8>, data: Seq<u8>, r: int, n: int, len: int)
    requires
        0 <= r,
        0 <= n,
        r + n <= len,
        48 + len <= buffer.len(),
        data.len() == len,
        buffer.subrange(48 + r, 48 + len) == data.skip(r),
    ensures
        buffer.subrange(48 + r, 48 + r + n) == data.skip(r).take(n),
        buffer.subrange(48 + r + n, 48 + len) == data.skip(r + n),
        data.skip(r).skip(n) == data.skip(r + n),
{
    let rest = data.skip(r);
    assert forall|j: int| 48 + r <= j < 48 + len implies buffer[j] == data[j - 48] by {
        assert(buffer[j] == buffer.subrange(48 + r, 48 + len)[j - 48 - r]);
        assert(data[j - 48] == rest[j - 48 - r]);
    }
    assert(buffer.subrange(48 + r, 48 + r + n) =~= rest.take(n));
    assert(buffer.subrange(48 + r + n, 48 + len) =~= data.skip(r + n));
    assert(rest.skip(n) =~= data.skip(r + n));
}

/// A write intent: the bytes of an encoded entry, and the hash of its key.
pub struct Item {
    pub buffer: Vec<u8>,
    pub hash: u64,
}

impl View for Item {
    type V = ItemView;

    open spec fn view(&self) -> ItemView {
        ItemView { bytes: self.buffer@, hash: self.hash }
    }
}

/// The items as mathematical values.
pub open spec fn item_views(items: Seq<Item>) -> Seq<ItemView> {
    items.map_values(|item: Item| item@)
}

/// A page: a buffer of fixed length with its header fields read out.
#[derive(Debug)]
pub struct SetStorage {
    /// Set checksum.
    checksum: u32,
    /// Set written data length.
    len: usize,
    /// Set data length capacity.
    capacity: usize,
    /// Set size.
    size: usize,
    /// Set last updated timestamp.
    timestamp: u64,
    /// Set bloom filter.
    bloom_filter: BloomFilterU64<4>,
    buffer: Vec<u8>,
}

impl View for SetStorage {
    type V = SetView;

    closed spec fn view(&self) -> SetView {
        SetView {
            checksum: self.checksum,
            timestamp: self.timestamp,
            len: self.len as nat,
            bloom: self.bloom_filter@,
            buffer: self.buffer@,
        }
    }
}

/// The header of the complete entry that starts `offset` bytes into the
/// entries of a page, or `None` where no complete entry starts there.
fn header_at(buffer: &Vec<u8>, len: usize, offset: usize) -> (header: Option<EntryHeader>)
    requires
        48 + len <= buffer.len(),
        offset <= len,
    ensures
        header is Some <==> has_entry(buffer@.subrange(48 + offset, 48 + len)),
        header is Some ==> {
            let rest = buffer@.subrange(48 + offset, 48 + len);
            &&& header.unwrap().hash == hash_at(rest)
            &&& header.unwrap().value_len == value_len_at(rest)
            &&& header.unwrap().key_len == key_len_at(rest)
        },
{
    let ghost rest = buffer@.subrange(48 + offset, 48 + len);
    if len - offset < ENTRY_HEADER_SIZE {
        return None;
    }
    let start = SET_HEADER_SIZE + offset;
    let raw = slice_subrange(buffer.as_slice(), start, start + ENTRY_HEADER_SIZE);
    let header = EntryHeader::read(raw);
    proof {
        assert(raw@.subrange(0, 8) =~= rest.subrange(0, 8));
        assert(raw@.subrange(8, 10) =~= rest.subrange(8, 10));
        assert(raw@.subrange(10, 12) =~= rest.subrange(10, 12));
    }
    if header.entry_len() <= len - offset {
        Some(header)
    } else {
        None
    }
}

/// Whether `hash` is among `deletions`.
fn is_deleted(deletions: &HashSet<u64>, hash: u64) -> (deleted: bool)
    ensures
        deleted == deletions@.contains(hash),
{
    broadcast use vstd::std_specs::hash::group_hash_axioms;

    deletions.contains(&hash)
}

impl SetStorage {
    /// The invariant of a page. Every constructor establishes it and every
    /// method keeps it.
    pub closed spec fn wf(&self) -> bool {
        &&& self@.wf()
        &&& self.size == self.buffer@.len()
        &&& self.capacity == self.size - 48
    }

    /// A page always satisfies what its view is asked to satisfy.
    pub proof fn lemma_wf_view(&self)
        requires
            self.wf(),
        ensures
            self@.wf(),
    {
    }

    /// Loads a page from its buffer. A buffer whose length field points
    /// behind its end, or whose checksum does not match, gives an empty
    /// page over the same buffer.
    pub fn load(buffer: Vec<u8>) -> (set: Self)
        requires
            buffer.len() >= 48,
        ensures
            set.wf(),
            set@.len <= set@.capacity(),
            set@ == SetView::loaded(buffer@),
    {
        let size = buffer.len();
        let checksum = get_u32(slice_subrange(buffer.as_slice(), 0, 4));
        let timestamp = get_u64(slice_subrange(buffer.as_slice(), 4, 12));
        let len = get_u32(slice_subrange(buffer.as_slice(), 12, 16)) as usize;
        let bloom_filter = BloomFilterU64::read(slice_subrange(buffer.as_slice(), 16, 48));
        let valid = len <= size - SET_HEADER_SIZE && Checksummer::checksum32(
            slice_subrange(buffer.as_slice(), 4, SET_HEADER_SIZE + len),
        ) == checksum;
        let mut this = Self {
            checksum,
            len,
            capacity: size - SET_HEADER_SIZE,
            size,
            timestamp,
            bloom_filter,
            buffer,
        };
        if !valid {
            this.len = 0;
            this.bloom_filter.clear();
        }
        this
    }

    /// The bloom filter over the hashes of the live entries.
    pub fn bloom_filter(&self) -> (filter: &BloomFilterU64<4>)
        ensures
            filter@ == self@.bloom,
    {
        &self.bloom_filter
    }

    /// The number of bytes of live entries.
    pub fn len(&self) -> (len: usize)
        ensures
            len == self@.len,
    {
        self.len
    }

    /// Whether the page holds no entry.
    pub fn is_empty(&self) -> (empty: bool)
        ensures
            empty == (self@.len == 0),
    {
        self.len == 0
    }

    /// Drops every entry. The buffer keeps its length.
    pub fn clear(&mut self)
        requires
            old(self).wf(),
        ensures
            final(self).wf(),
            final(self)@ == old(self)@.emptied(),
    {
        self.len = 0;
        self.bloom_filter.clear();
    }

    /// Gives the buffer up, as it stands.
    pub fn freeze(self) -> (bytes: Vec<u8>)
        ensures
            bytes@ == self@.buffer,
    {
        self.buffer
    }
}

impl SetStorage {
    /// Keeps the entry of `n` bytes that the delete pass has read at
    /// `rcursor`: moves it down to `wcursor`, behind the entries kept so
    /// far, and puts its hash into the filter.
    fn retain(&mut self, rcursor: usize, wcursor: usize, n: usize, hash: u64)
        requires
            old(self).wf(),
            wcursor <= rcursor,
            rcursor + n <= old(self)@.len,
        ensures
            final(self).wf(),
            final(self)@.same_frame(old(self)@),
            final(self)@.len == old(self)@.len,
            final(self)@.bloom == inserted(old(self)@.bloom, hash),
            final(self)@.buffer.subrange(48, 48 + wcursor + n) == old(self)@.buffer.subrange(
                48,
                48 + wcursor,
            ) + old(self)@.buffer.subrange(48 + rcursor, 48 + rcursor + n),
            final(self)@.buffer.subrange(48 + rcursor + n, 48 + old(self)@.len as int)
                == old(self)@.buffer.subrange(48 + rcursor + n, 48 + old(self)@.len as int),
    {
        let ghost buffer = self.buffer@;
        if rcursor != wcursor {
            move_down(
                &mut self.buffer,
                SET_HEADER_SIZE + rcursor,
                SET_HEADER_SIZE + rcursor + n,
                SET_HEADER_SIZE + wcursor,
            );
            proof {
                lemma_moved_down(
                    buffer,
                    self.buffer@,
                    rcursor as int,
                    wcursor as int,
                    n as int,
                    self.len as int,
                );
            }
        } else {
            assert(buffer.subrange(48, 48 + wcursor + n) =~= buffer.subrange(48, 48 + wcursor)
                + buffer.subrange(48 + rcursor, 48 + rcursor + n));
        }
        self.bloom_filter.insert(hash);
    }

    /// The delete pass: drops every live entry whose hash is in `deletes`
    /// and packs the others from the start of the entry region.
    fn deletes(&mut self, deletes: &HashSet<u64>)
        requires
            old(self).wf(),
        ensures
            final(self).wf(),
            final(self)@.same_frame(old(self)@),
            final(self)@.contents() == old(self)@.contents().deleted(deletes@),
    {
        if deletes.is_empty() {
            return ;
        }
        let ghost before = self@;
        let ghost data = self@.live();
        let ghost mut done: Seq<Entry> = Seq::empty();
        let ghost mut kept: Seq<Entry> = Seq::empty();
        let len = self.len;
        let mut rcursor: usize = 0;
        let mut wcursor: usize = 0;
        // Rebuild bloom filter.
        self.bloom_filter.clear();
        let mut next = header_at(&self.buffer, len, rcursor);
        proof {
            assert(data.skip(0) =~= data);
            assert(done + parse(data) =~= parse(data));
            lemma_nothing_kept(deletes@);
            assert(self.buffer@.subrange(48, 48) =~= Seq::<u8>::empty());
        }
        while next.is_some()
            invariant
                self.wf(),
                self@.same_frame(before),
                self.len == len,
                data.len() == len,
                wcursor <= rcursor <= len,
                self.buffer@.subrange(48 + rcursor, 48 + len) == data.skip(rcursor as int),
                parse(data) == done + parse(data.skip(rcursor as int)),
                kept == without(done, deletes@),
                self.buffer@.subrange(48, 48 + wcursor) == encode(kept),
                self.bloom_filter@ == filter_of(kept),
                next is Some <==> has_entry(data.skip(rcursor as int)),
                next is Some ==> next.unwrap().hash == hash_at(data.skip(rcursor as int)),
                next is Some ==> next.unwrap().value_len == value_len_at(data.skip(rcursor as int)),
                next is Some ==> next.unwrap().key_len == key_len_at(data.skip(rcursor as int)),
            decreases len - rcursor,
        {
            let header = next.unwrap();
            let n = header.entry_len();
            let ghost rest = data.skip(rcursor as int);
            let ghost entry = first_entry(rest);
            let ghost buffer = self.buffer@;
            proof {
                lemma_bytes_of_first(rest);
                lemma_split_rest(buffer, data, rcursor as int, n as int, len as int);
                lemma_parse_step(data, done, rcursor as int);
                lemma_without_push(done, entry, deletes@);
            }
            if !is_deleted(deletes, header.hash()) {
                self.retain(rcursor, wcursor, n, header.hash());
                wcursor += n;
                proof {
                    lemma_encode_push(kept, entry);
                    lemma_filter_of_push(kept, entry);
                    kept = kept.push(entry);
                }
            }
            rcursor += n;
            proof {
                done = done.push(entry);
            }
            next = header_at(&self.buffer, len, rcursor);
        }
        self.len = wcursor;
        proof {
            assert(done + parse(data.skip(rcursor as int)) =~= done);
            assert(self@.header() == before.header());
        }
    }
}

/// An entry of a page, with its key and value borrowed from the page.
pub struct SetEntry<'a> {
    pub offset: usize,
    pub hash: u64,
    pub key: &'a [u8],
    pub value: &'a [u8],
}

impl<'a> View for SetEntry<'a> {
    type V = Entry;

    open spec fn view(&self) -> Entry {
        Entry { hash: self.hash, value: self.value@, key: self.key@ }
    }
}

impl<'a> SetEntry<'a> {
    /// What holds of every entry that a page hands out: its lengths fit a
    /// header, and its end can be counted.
    pub open spec fn wf(&self) -> bool {
        self@.fits() && self.offset + self@.size() <= usize::MAX
    }

    /// Length of the entry with header, key and value included.
    pub fn len(&self) -> (len: usize)
        requires
            self.wf(),
        ensures
            len == self@.size(),
    {
        ENTRY_HEADER_SIZE + self.key.len() + self.value.len()
    }

    /// Range of the entry in the set data.
    pub fn range(&self) -> (range: core::ops::Range<usize>)
        requires
            self.wf(),
        ensures
            range.start == self.offset,
            range.end == self.offset + self@.size(),
    {
        self.offset..self.offset + self.len()
    }
}

/// A walk over the live entries of a page, oldest first.
pub struct SetIter<'a> {
    set: &'a SetStorage,
    offset: usize,
}

impl<'a> SetIter<'a> {
    /// The page that is walked.
    pub closed spec fn set(&self) -> &'a SetStorage {
        self.set
    }

    /// How many bytes of live entries the walk has passed.
    pub closed spec fn offset(&self) -> nat {
        self.offset as nat
    }

    /// The bytes of live entries that the walk has not passed yet.
    pub open spec fn remaining(&self) -> Seq<u8> {
        self.set()@.live().skip(self.offset() as int)
    }

    /// The invariant of a walk: it is over a page, and inside its live
    /// entries.
    pub closed spec fn wf(&self) -> bool {
        self.set.wf() && self.offset <= self.set.len
    }

    fn open(set: &'a SetStorage) -> (iter: Self)
        requires
            set.wf(),
        ensures
            iter.wf(),
            iter.set() == set,
            iter.offset() == 0,
    {
        Self { set, offset: 0 }
    }

    fn is_valid(&self) -> (valid: bool)
        requires
            self.wf(),
        ensures
            valid == (self.remaining().len() > 0),
    {
        self.offset < self.set.len
    }

    /// Hands out the next entry and passes it, or `None` where no complete
    /// entry is left.
    pub fn next(&mut self) -> (entry: Option<SetEntry<'a>>)
        requires
            old(self).wf(),
        ensures
            final(self).wf(),
            final(self).set() == old(self).set(),
            entry is Some <==> has_entry(old(self).remaining()),
            entry is Some ==> {
                &&& entry.unwrap()@ == first_entry(old(self).remaining())
                &&& entry.unwrap().wf()
                &&& entry.unwrap().offset == old(self).offset()
                &&& final(self).offset() == old(self).offset() + entry_len_at(
                    old(self).remaining(),
                )
                &&& final(self).remaining() == old(self).remaining().skip(
                    entry_len_at(old(self).remaining()) as int,
                )
            },
            entry is None ==> final(self).offset() == old(self).offset(),
    {
        if !self.is_valid() {
            return None;
        }
        let set: &'a SetStorage = self.set;
        let ghost rest = self.remaining();
        proof {
            assert(set.buffer@.subrange(48 + self.offset, 48 + set.len) =~= rest);
        }
        match header_at(&set.buffer, set.len, self.offset) {
            None => None,
            Some(header) => {
                let mut cursor = SET_HEADER_SIZE + self.offset + ENTRY_HEADER_SIZE;
                let value = slice_subrange(set.buffer.as_slice(), cursor, cursor + header.value_len());
                cursor += header.value_len();
                let key = slice_subrange(set.buffer.as_slice(), cursor, cursor + header.key_len());
                let entry = SetEntry { offset: self.offset, hash: header.hash(), key, value };
                proof {
                    assert(entry@.value =~= first_entry(rest).value);
                    assert(entry@.key =~= first_entry(rest).key);
                    assert(rest.skip(entry_len_at(rest) as int) =~= set@.live().skip(
                        self.offset + entry_len_at(rest),
                    ));
                }
                self.offset += header.entry_len();
                Some(entry)
            },
        }
    }
}

impl SetStorage {
    /// A walk over the live entries, oldest first.
    pub fn iter(&self) -> (iter: SetIter<'_>)
        requires
            self.wf(),
        ensures
            iter.wf(),
            iter.set() == self,
            iter.offset() == 0,
    {
        SetIter::open(self)
    }

    /// Everything behind the header: the live entries and the reserve.
    pub fn data(&self) -> (data: &[u8])
        requires
            self.wf(),
        ensures
            data@ == self@.region(),
    {
        slice_subrange(self.buffer.as_slice(), SET_HEADER_SIZE, self.size)
    }

    /// The oldest live entry with this hash, if the filter does not rule it
    /// out and there is one. Entries are told apart by their hash alone.
    pub fn find(&self, hash: u64) -> (entry: Option<SetEntry<'_>>)
        requires
            self.wf(),
        ensures
            entry is Some <==> self@.contents().found(hash) is Some,
            entry is Some ==> entry.unwrap()@ == self@.contents().found(hash).unwrap(),
            entry is Some ==> entry.unwrap().wf(),
    {
        if !self.bloom_filter.lookup(hash) {
            return None;
        }
        let mut iter = self.iter();
        let ghost mut rest = iter.remaining();
        proof {
            assert(rest =~= self@.live());
        }
        let mut next = iter.next();
        while next.is_some()
            invariant
                iter.wf(),
                may_contain(self@.bloom, hash),
                first_with_hash(self@.entries(), hash) == first_with_hash(parse(rest), hash),
                next is Some <==> has_entry(rest),
                next is Some ==> next.unwrap()@ == first_entry(rest),
                next is Some ==> next.unwrap().wf(),
                next is Some ==> iter.remaining() == rest.skip(entry_len_at(rest) as int),
            decreases rest.len(),
        {
            let entry = next.unwrap();
            proof {
                lemma_first_with_hash_step(
                    first_entry(rest),
                    parse(rest.skip(entry_len_at(rest) as int)),
                    hash,
                );
            }
            if entry.hash == hash {
                return Some(entry);
            }
            proof {
                rest = iter.remaining();
            }
            next = iter.next();
        }
        None
    }

    /// The evict pass: makes room for `required` more bytes by dropping the
    /// oldest entries and moving the others to the start of the entry
    /// region.
    ///
    /// from:
    ///
    /// ```plain
    /// 0        wipe          len       capacity
    /// |_________|ooooooooooooo|___________|
    /// ```
    ///
    /// to:
    ///
    /// ```plain
    /// 0     new len = len - wipe       capacity
    /// |ooooooooooooo|_____________________|
    /// ```
    fn reserve(&mut self, required: usize)
        requires
            old(self).wf(),
            required <= old(self)@.capacity(),
        ensures
            final(self).wf(),
            final(self)@.same_frame(old(self)@),
            final(self)@.contents() == old(self)@.contents().evicted(
                old(self)@.capacity(),
                required as int,
            ),
            final(self)@.capacity() - final(self)@.len >= required,
    {
        let remains = self.capacity - self.len;
        if remains >= required {
            return ;
        }
        let ghost before = self@;
        let ghost data = self@.live();
        let needed = required - remains;
        let len = self.len;
        let mut wipe: usize = 0;
        let mut next = header_at(&self.buffer, len, wipe);
        proof {
            assert(data.skip(0) =~= data);
        }
        while wipe < needed && next.is_some()
            invariant
                self.wf(),
                self@ == before,
                data == before.live(),
                len == before.len,
                wipe <= len,
                wipe_len(data, needed as int) == wipe + wipe_len(
                    data.skip(wipe as int),
                    needed - wipe,
                ),
                next is Some <==> has_entry(self.buffer@.subrange(48 + wipe, 48 + len)),
                next is Some ==> 12 + next.unwrap().value_len + next.unwrap().key_len
                    == entry_len_at(self.buffer@.subrange(48 + wipe, 48 + len)),
            decreases len - wipe,
        {
            proof {
                assert(self.buffer@.subrange(48 + wipe, 48 + len) =~= data.skip(wipe as int));
                lemma_wipe_step(data, wipe as int, needed as int);
            }
            wipe += next.unwrap().entry_len();
            next = header_at(&self.buffer, len, wipe);
        }
        proof {
            assert(self.buffer@.subrange(48 + wipe, 48 + len) =~= data.skip(wipe as int));
        }
        if wipe < needed {
            wipe = len;
        }
        assert(wipe == wipe_len(data, needed as int));
        move_down(&mut self.buffer, SET_HEADER_SIZE + wipe, SET_HEADER_SIZE + len, SET_HEADER_SIZE);
        self.len -= wipe;
        proof {
            assert(self@.live() =~= data.skip(wipe as int));
            assert(self@.header() =~= before.header());
        }
        let mut bloom_filter = BloomFilterU64::default();
        let ghost moved = self@;
        let ghost mut done: Seq<Entry> = Seq::empty();
        let mut iter = self.iter();
        let ghost mut rest = iter.remaining();
        proof {
            assert(rest =~= self@.live());
            assert(done + parse(rest) =~= parse(rest));
            lemma_nothing_kept(Set::empty());
        }
        let mut entry = iter.next();
        while entry.is_some()
            invariant
                iter.wf(),
                self.wf(),
                self@ == moved,
                parse(self@.live()) == done + parse(rest),
                bloom_filter@ == filter_of(done),
                entry is Some <==> has_entry(rest),
                entry is Some ==> entry.unwrap()@ == first_entry(rest),
                entry is Some ==> iter.remaining() == rest.skip(entry_len_at(rest) as int),
            decreases rest.len(),
        {
            bloom_filter.insert(entry.unwrap().hash);
            proof {
                let found = first_entry(rest);
                lemma_filter_of_push(done, found);
                assert(done.push(found) + parse(iter.remaining()) =~= done + parse(rest));
                done = done.push(found);
                rest = iter.remaining();
            }
            entry = iter.next();
        }
        proof {
            assert(done + parse(rest) =~= done);
            lemma_inserted_all_len(cleared(4), hashes(done));
        }
        self.bloom_filter = bloom_filter;
    }
}

impl SetStorage {
    /// The append pass: makes room for as many items as fit, taken from the
    /// end of the list, and writes them behind the live entries in their
    /// order. The items at the front that do not fit are dropped.
    fn append(&mut self, items: Vec<Item>)
        requires
            old(self).wf(),
        ensures
            final(self).wf(),
            final(self)@.same_frame(old(self)@),
            final(self)@.contents() == old(self)@.contents().extended(
                old(self)@.capacity(),
                item_views(items@),
            ),
    {
        let ghost before = self@;
        let ghost views = item_views(items@);
        let count = items.len();
        let capacity = self.capacity;
        let mut skip: usize = count;
        let mut size: usize = 0;
        proof {
            assert(views.take(skip as int) =~= views);
            assert(joined(views.skip(skip as int)) =~= Seq::<u8>::empty());
        }
        while skip > 0 && items[skip - 1].buffer.len() <= capacity - size
            invariant
                skip <= count == items@.len(),
                views == item_views(items@),
                size <= capacity,
                size == joined(views.skip(skip as int)).len(),
                dropped(views, capacity as int) == dropped(views.take(skip as int), capacity - size),
            decreases skip,
        {
            proof {
                lemma_joined_front(views, skip - 1);
                assert(views.take(skip as int).drop_last() =~= views.take(skip - 1));
            }
            size += items[skip - 1].buffer.len();
            skip -= 1;
        }
        assert(dropped(views, capacity as int) == skip);
        self.reserve(size);
        let ghost room = self@.contents();
        let ghost added = views.skip(skip as int);
        let mut cursor = SET_HEADER_SIZE + self.len;
        let mut i: usize = skip;
        proof {
            assert(views.subrange(skip as int, i as int) =~= Seq::<ItemView>::empty());
            assert(self.buffer@.subrange(48, cursor as int) =~= room.data + joined(
                views.subrange(skip as int, i as int),
            ));
            assert(item_hashes(Seq::<ItemView>::empty()) =~= Seq::<u64>::empty());
        }
        while i < count
            invariant
                skip <= i <= count == items@.len(),
                views == item_views(items@),
                self.wf(),
                self@.same_frame(before),
                48 <= cursor,
                cursor + joined(views.skip(i as int)).len() <= self.size,
                self.buffer@.subrange(48, cursor as int) == room.data + joined(
                    views.subrange(skip as int, i as int),
                ),
                self.bloom_filter@ == inserted_all(
                    room.bloom,
                    item_hashes(views.subrange(skip as int, i as int)),
                ),
                self.len <= cursor - 48,
            decreases count - i,
        {
            let ghost buffer = self.buffer@;
            let ghost done = views.subrange(skip as int, i as int);
            proof {
                lemma_joined_front(views, i as int);
                assert(views.subrange(skip as int, i + 1).drop_last() =~= done);
                assert(item_hashes(views.subrange(skip as int, i + 1)) =~= item_hashes(done).push(
                    views[i as int].hash,
                ));
                assert(item_hashes(done).push(views[i as int].hash).drop_last() =~= item_hashes(
                    done,
                ));
            }
            let item = &items[i];
            write_slice(&mut self.buffer, cursor, item.buffer.as_slice());
            self.bloom_filter.insert(item.hash);
            proof {
                assert(self.buffer@.subrange(48, cursor + item.buffer@.len()) =~= buffer.subrange(
                    48,
                    cursor as int,
                ) + item.buffer@);
                assert(self@.header() =~= before.header());
            }
            cursor += item.buffer.len();
            i += 1;
        }
        self.len = cursor - SET_HEADER_SIZE;
        proof {
            assert(views.subrange(skip as int, count as int) =~= added);
            assert(self@.header() =~= before.header());
        }
    }

    /// Applies a batch: removes every live entry whose hash is in
    /// `deletions`, then appends as many of `items` as fit, the last ones
    /// first, in their order, dropping the oldest live entries where room
    /// is short. Never fails; an item that is larger than the page is
    /// dropped.
    pub fn apply(&mut self, deletions: &HashSet<u64>, items: Vec<Item>)
        requires
            old(self).wf(),
        ensures
            final(self).wf(),
            final(self)@.len <= final(self)@.capacity(),
            final(self)@.same_frame(old(self)@),
            final(self)@.contents() == old(self)@.contents().applied(
                old(self)@.capacity(),
                deletions@,
                item_views(items@),
            ),
    {
        self.deletes(deletions);
        self.append(items);
    }

    /// Seals the page at a given time: writes filter, length, timestamp and
    /// checksum into the header.
    pub fn update_at(&mut self, timestamp: u64)
        requires
            old(self).wf(),
        ensures
            final(self).wf(),
            final(self)@ == old(self)@.sealed(timestamp),
    {
        let ghost before = self@;
        proof {
            lemma_words_be_len(before.bloom);
        }
        self.bloom_filter.write(&mut self.buffer, 16);
        put_u32(&mut self.buffer, 12, 16, #[verifier::truncate] (self.len as u32));
        self.timestamp = timestamp;
        put_u64(&mut self.buffer, 4, 12, timestamp);
        proof {
            assert(self.buffer@.subrange(4, 48 + self.len) =~= before.sealed_fields(timestamp)
                + before.live());
        }
        self.checksum = Checksummer::checksum32(
            slice_subrange(self.buffer.as_slice(), 4, SET_HEADER_SIZE + self.len),
        );
        put_u32(&mut self.buffer, 0, 4, self.checksum);
        proof {
            assert(self.buffer@ =~= before.sealed(timestamp).buffer);
        }
    }

    /// Seals the page at the present time. Must be called before `freeze`
    /// whenever the page was changed.
    pub fn update(&mut self)
        requires
            old(self).wf(),
        ensures
            final(self).wf(),
            final(self)@ == old(self)@.sealed(final(self)@.timestamp),
    {
        let now = unix_millis();
        self.update_at(now);
    }

    /// Looks `hash` up and decodes what is found. Gives `Ok(None)` where
    /// the filter rules the hash out or no live entry has it, the decoded
    /// key and value of the oldest entry that has it, or an error where
    /// that entry's key or value cannot be decoded.
    pub fn get<K: Code, V: Code>(&self, hash: u64) -> (found: Result<Option<(K, V)>, Error>)
        requires
            self.wf(),
        ensures
            match self@.contents().found(hash) {
                None => found matches Ok(None),
                Some(entry) => if K::decodable(entry.key) && V::decodable(entry.value) {
                    found matches Ok(Some((k, v))) && K::decodes_to(entry.key, k)
                        && V::decodes_to(entry.value, v)
                } else {
                    found == Err::<Option<(K, V)>, Error>(Error::DecodeFailure)
                },
            },
    {
        match self.find(hash) {
            None => Ok(None),
            Some(entry) => {
                let key = match K::decode(entry.key) {
                    Some(key) => key,
                    None => { return Err(Error::DecodeFailure); },
                };
                let value = match V::decode(entry.value) {
                    Some(value) => value,
                    None => { return Err(Error::DecodeFailure); },
                };
                Ok(Some((key, value)))
            },
        }
    }
}

/// A page that is only read, shared among its readers.
#[derive(Debug)]
pub struct SharedSet {
    storage: Arc<SetStorage>,
}

impl SharedSet {
    /// The page that is shared.
    pub closed spec fn storage(&self) -> SetStorage {
        *self.storage
    }

    pub fn new(storage: Arc<SetStorage>) -> (set: Self)
        ensures
            set.storage() == *storage,
    {
        Self { storage }
    }
}

impl core::ops::Deref for SharedSet {
    type Target = SetStorage;

    fn deref(&self) -> (storage: &SetStorage)
        ensures
            *storage == self.storage(),
    {
        &self.storage
    }
}

/// A page that is being written: it belongs to its one writer.
#[derive(Debug)]
pub struct SetMut {
    storage: SetStorage,
}

impl SetMut {
    /// The page that is written.
    pub closed spec fn storage(&self) -> SetStorage {
        self.storage
    }

    pub fn new(storage: SetStorage) -> (set: Self)
        ensures
            set.storage() == storage,
    {
        Self { storage }
    }

    pub fn into_storage(self) -> (storage: SetStorage)
        ensures
            storage == self.storage(),
    {
        self.storage
    }
}

impl core::ops::Deref for SetMut {
    type Target = SetStorage;

    fn deref(&self) -> (storage: &SetStorage)
        ensures
            *storage == self.storage(),
    {
        &self.storage
    }
}

impl core::ops::DerefMut for SetMut {
    fn deref_mut(&mut self) -> (storage: &mut SetStorage)
        ensures
            *storage == old(self).storage(),
            final(self).storage() == *final(storage),
    {
        &mut self.storage
    }
}

} // verus!
