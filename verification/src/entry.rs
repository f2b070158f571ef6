//! The byte format of one entry: a fixed header, then the value, then the key.
//!
//! ```plain
//! | hash (8B) | value len (2B) | key len (2B) | value | key |
//! ```
//!
//! All header integers are big-endian. This module also says, as
//! specification functions, how a run of bytes is read as a sequence of
//! entries, and proves that reading and writing undo each other.

use crate::buffer::{overwrite, write_slice};
use crate::endian::{
    get_u16, get_u64, lemma_u16_be_of_bytes, lemma_u16_be_roundtrip, lemma_u64_be_of_bytes,
    lemma_u64_be_roundtrip, put_u16, put_u64, u16_be, u16_from_be, u64_be, u64_from_be,
};
use vstd::prelude::*;
use vstd::slice::slice_subrange;

verus! {

/// The number of bytes of an entry's header.
pub const ENTRY_HEADER_SIZE: usize = 12;

/// An entry as a mathematical value: the hash of its key, and the encoded
/// value and key.
pub struct Entry {
    pub hash: u64,
    pub value: Seq<u8>,
    pub key: Seq<u8>,
}

/// The twelve bytes of a header.
pub open spec fn header_bytes(hash: u64, value_len: u16, key_len: u16) -> Seq<u8> {
    u64_be(hash) + u16_be(value_len) + u16_be(key_len)
}

impl Entry {
    /// Whether both lengths can be written into a header.
    pub open spec fn fits(self) -> bool {
        self.value.len() <= u16::MAX && self.key.len() <= u16::MAX
    }

    /// The number of bytes that the entry takes, header included.
    pub open spec fn size(self) -> nat {
        12 + self.value.len() + self.key.len()
    }

    /// The entry as bytes: header, value, key.
    pub open spec fn bytes(self) -> Seq<u8> {
        header_bytes(self.hash, self.value.len() as u16, self.key.len() as u16) + self.value
            + self.key
    }
}

/// The hash that the header at the start of `data` holds.
pub open spec fn hash_at(data: Seq<u8>) -> u64 {
    u64_from_be(data.subrange(0, 8))
}

/// The value length that the header at the start of `data` holds.
pub open spec fn value_len_at(data: Seq<u8>) -> u16 {
    u16_from_be(data.subrange(8, 10))
}

/// The key length that the header at the start of `data` holds.
pub open spec fn key_len_at(data: Seq<u8>) -> u16 {
    u16_from_be(data.subrange(10, 12))
}

/// The size of the entry whose header stands at the start of `data`.
pub open spec fn entry_len_at(data: Seq<u8>) -> nat {
    (12 + value_len_at(data) + key_len_at(data)) as nat
}

/// Whether `data` starts with a complete entry: a whole header, and as many
/// bytes behind it as the header announces.
pub open spec fn has_entry(data: Seq<u8>) -> bool {
    data.len() >= 12 && entry_len_at(data) <= data.len()
}

/// The entry that `data` starts with, where it starts with one.
pub open spec fn first_entry(data: Seq<u8>) -> Entry {
    let value_end = 12 + value_len_at(data);
    Entry {
        hash: hash_at(data),
        value: data.subrange(12, value_end),
        key: data.subrange(value_end, value_end + key_len_at(data)),
    }
}

/// The entries that `data` holds: complete entries are read one after the
/// other from the start, until the bytes run out or what is left is no
/// complete entry.
pub open spec fn parse(data: Seq<u8>) -> Seq<Entry>
    decreases data.len(),
{
    if has_entry(data) {
        seq![first_entry(data)] + parse(data.skip(entry_len_at(data) as int))
    } else {
        Seq::empty()
    }
}

/// The entries as bytes, one behind the other.
pub open spec fn encode(entries: Seq<Entry>) -> Seq<u8>
    decreases entries.len(),
{
    if entries.len() == 0 {
        Seq::empty()
    } else {
        encode(entries.drop_last()) + entries.last().bytes()
    }
}

/// Whether every entry can be written with a header.
pub open spec fn all_fit(entries: Seq<Entry>) -> bool {
    forall|i: int| 0 <= i < entries.len() ==> (#[trigger] entries[i]).fits()
}

/// The hashes of the entries, in their order.
pub open spec fn hashes(entries: Seq<Entry>) -> Seq<u64> {
    entries.map_values(|e: Entry| e.hash)
}

/// Bytes that begin with an encoded entry, whatever follows, start with
/// that entry.
pub proof fn lemma_first_of_bytes(e: Entry, rest: Seq<u8>)
    requires
        e.fits(),
    ensures
        has_entry(e.bytes() + rest),
        entry_len_at(e.bytes() + rest) == e.size(),
        first_entry(e.bytes() + rest) == e,
        (e.bytes() + rest).skip(e.size() as int) == rest,
{
    let data = e.bytes() + rest;
    let value_len = e.value.len() as u16;
    let key_len = e.key.len() as u16;
    lemma_u64_be_roundtrip(e.hash);
    lemma_u16_be_roundtrip(value_len);
    lemma_u16_be_roundtrip(key_len);
    assert(data.subrange(0, 8) =~= u64_be(e.hash));
    assert(data.subrange(8, 10) =~= u16_be(value_len));
    assert(data.subrange(10, 12) =~= u16_be(key_len));
    assert(first_entry(data).value =~= e.value);
    assert(first_entry(data).key =~= e.key);
    assert(data.skip(e.size() as int) =~= rest);
}

/// A complete entry at the start of `data` is written back as the very
/// bytes it was read from.
pub proof fn lemma_bytes_of_first(data: Seq<u8>)
    requires
        has_entry(data),
    ensures
        first_entry(data).fits(),
        first_entry(data).size() == entry_len_at(data),
        first_entry(data).bytes() == data.take(entry_len_at(data) as int),
{
    let e = first_entry(data);
    lemma_u64_be_of_bytes(data.subrange(0, 8));
    lemma_u16_be_of_bytes(data.subrange(8, 10));
    lemma_u16_be_of_bytes(data.subrange(10, 12));
    assert(e.bytes() =~= data.take(entry_len_at(data) as int));
}

/// Encoding one more entry appends its bytes.
pub proof fn lemma_encode_push(entries: Seq<Entry>, e: Entry)
    ensures
        encode(entries.push(e)) == encode(entries) + e.bytes(),
{
    assert(entries.push(e).drop_last() =~= entries);
}

/// A single entry is encoded as its bytes.
pub proof fn lemma_encode_one(e: Entry)
    ensures
        encode(seq![e]) == e.bytes(),
{
    lemma_encode_push(Seq::empty(), e);
    assert(Seq::<Entry>::empty().push(e) =~= seq![e]);
    assert(encode(Seq::<Entry>::empty()) + e.bytes() =~= e.bytes());
}

/// Encoding a concatenation concatenates the encodings.
pub proof fn lemma_encode_concat(first: Seq<Entry>, second: Seq<Entry>)
    ensures
        encode(first + second) == encode(first) + encode(second),
    decreases second.len(),
{
    if second.len() == 0 {
        assert(first + second =~= first);
        assert(encode(first) + encode(second) =~= encode(first));
    } else {
        lemma_encode_concat(first, second.drop_last());
        assert((first + second).drop_last() =~= first + second.drop_last());
        assert(encode(first + second) =~= encode(first) + encode(second));
    }
}

/// Reading what was written gives the entries back, followed by whatever
/// the bytes behind them hold.
pub proof fn lemma_parse_encode(entries: Seq<Entry>, rest: Seq<u8>)
    requires
        all_fit(entries),
    ensures
        parse(encode(entries) + rest) == entries + parse(rest),
    decreases entries.len(),
{
    if entries.len() == 0 {
        assert(encode(entries) + rest =~= rest);
        assert(entries + parse(rest) =~= parse(rest));
    } else {
        let front = entries.drop_last();
        let last = entries.last();
        let tail = last.bytes() + rest;
        assert(all_fit(front)) by {
            assert forall|i: int| 0 <= i < front.len() implies (#[trigger] front[i]).fits() by {
                assert(front[i] == entries[i]);
            }
        }
        lemma_parse_encode(front, tail);
        lemma_first_of_bytes(last, rest);
        assert(encode(front) + tail =~= encode(entries) + rest);
        assert(parse(tail) =~= seq![last] + parse(rest));
        assert(front + (seq![last] + parse(rest)) =~= entries + parse(rest));
    }
}

/// Writing what was read gives a prefix of the bytes back, and every entry
/// that was read fits.
pub proof fn lemma_encode_parse(data: Seq<u8>)
    ensures
        all_fit(parse(data)),
        encode(parse(data)).len() <= data.len(),
        encode(parse(data)) == data.take(encode(parse(data)).len() as int),
    decreases data.len(),
{
    if has_entry(data) {
        let n = entry_len_at(data) as int;
        let e = first_entry(data);
        let rest = data.skip(n);
        lemma_bytes_of_first(data);
        lemma_encode_parse(rest);
        lemma_encode_concat(seq![e], parse(rest));
        lemma_encode_one(e);
        assert(encode(parse(data)) =~= data.take(encode(parse(data)).len() as int));
    } else {
        assert(encode(parse(data)) =~= data.take(0));
    }
}

/// The header of an entry.
#[derive(Debug, Clone, Copy)]
pub struct EntryHeader {
    pub hash: u64,
    pub key_len: u16,
    pub value_len: u16,
}

impl EntryHeader {
    /// A header for a key and a value of the given lengths, where both
    /// lengths can be written in sixteen bits.
    pub fn new(hash: u64, key_len: usize, value_len: usize) -> (header: Option<Self>)
        ensures
            header is Some <==> key_len <= u16::MAX && value_len <= u16::MAX,
            header is Some ==> header.unwrap() == (EntryHeader {
                hash,
                key_len: key_len as u16,
                value_len: value_len as u16,
            }),
    {
        if key_len <= 0xffff && value_len <= 0xffff {
            Some(EntryHeader { hash, key_len: key_len as u16, value_len: value_len as u16 })
        } else {
            None
        }
    }

    /// The hash of the entry's key.
    pub fn hash(&self) -> (hash: u64)
        ensures
            hash == self.hash,
    {
        self.hash
    }

    /// The number of bytes of the encoded key.
    pub fn key_len(&self) -> (len: usize)
        ensures
            len == self.key_len,
    {
        self.key_len as usize
    }

    /// The number of bytes of the encoded value.
    pub fn value_len(&self) -> (len: usize)
        ensures
            len == self.value_len,
    {
        self.value_len as usize
    }

    /// The number of bytes of the whole entry, header included.
    pub fn entry_len(&self) -> (len: usize)
        ensures
            len == 12 + self.key_len + self.value_len,
    {
        ENTRY_HEADER_SIZE + self.key_len as usize + self.value_len as usize
    }

    /// The header that the first twelve bytes of `buf` hold.
    pub fn read(buf: &[u8]) -> (header: Self)
        requires
            buf.len() >= 12,
        ensures
            header.hash == hash_at(buf@),
            header.value_len == value_len_at(buf@),
            header.key_len == key_len_at(buf@),
    {
        let hash = get_u64(slice_subrange(buf, 0, 8));
        let value_len = get_u16(slice_subrange(buf, 8, 10));
        let key_len = get_u16(slice_subrange(buf, 10, 12));
        EntryHeader { hash, key_len, value_len }
    }

    /// Writes the header into the twelve bytes of `buf` from `at` on.
    pub fn write(&self, buf: &mut Vec<u8>, at: usize)
        requires
            at + 12 <= old(buf).len(),
        ensures
            final(buf)@ == overwrite(
                old(buf)@,
                at as int,
                header_bytes(self.hash, self.value_len, self.key_len),
            ),
    {
        let ghost before = buf@;
        put_u64(buf, at, at + 8, self.hash);
        put_u16(buf, at + 8, at + 10, self.value_len);
        put_u16(buf, at + 10, at + 12, self.key_len);
        assert(buf@ =~= overwrite(
            before,
            at as int,
            header_bytes(self.hash, self.value_len, self.key_len),
        ));
    }
}

/// Writes entries as bytes.
pub struct EntrySerializer;

impl EntrySerializer {
    /// The bytes of the entry with this hash, key and value, or `None` when
    /// the key or the value is longer than a header can say.
    pub fn serialize(hash: u64, key: &[u8], value: &[u8]) -> (bytes: Option<Vec<u8>>)
        ensures
            bytes is Some <==> key@.len() <= u16::MAX && value@.len() <= u16::MAX,
            bytes is Some ==> bytes.unwrap()@ == (Entry { hash, value: value@, key: key@ }).bytes(),
    {
        match EntryHeader::new(hash, key.len(), value.len()) {
            None => None,
            Some(header) => {
                let mut buf: Vec<u8> = vec![0u8; header.entry_len()];
                header.write(&mut buf, 0);
                write_slice(&mut buf, ENTRY_HEADER_SIZE, value);
                write_slice(&mut buf, ENTRY_HEADER_SIZE + value.len(), key);
                assert(buf@ =~= (Entry { hash, value: value@, key: key@ }).bytes());
                Some(buf)
            },
        }
    }
}

} // verus!
