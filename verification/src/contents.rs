//! What a page holds, as a mathematical value, and what each pass of a
//! batch does to it.
//!
//! A batch is applied in three passes. The delete pass drops the entries
//! whose hash is deleted and packs the others. The evict pass makes room
//! for the items that will be written by dropping the oldest entries. The
//! append pass writes the items behind the entries that are left.

use crate::bloom_filter::{cleared, inserted, inserted_all, may_contain};
use crate::entry::{encode, entry_len_at, first_entry, has_entry, hashes, parse, Entry};
use vstd::prelude::*;

verus! {

/// The entries whose hash is not among `deletions`, in their order.
pub open spec fn without(entries: Seq<Entry>, deletions: Set<u64>) -> Seq<Entry> {
    entries.filter(|e: Entry| !deletions.contains(e.hash))
}

/// The words of a filter of four words that the hashes of `entries` were
/// inserted into, first entry first.
pub open spec fn filter_of(entries: Seq<Entry>) -> Seq<u64> {
    inserted_all(cleared(4), hashes(entries))
}

/// What a page holds: the bytes of its live entries and the words of its
/// bloom filter.
pub struct Contents {
    pub data: Seq<u8>,
    pub bloom: Seq<u64>,
}

/// A write intent as a mathematical value.
pub struct ItemView {
    pub bytes: Seq<u8>,
    pub hash: u64,
}

/// The hashes of the items, in their order.
pub open spec fn item_hashes(items: Seq<ItemView>) -> Seq<u64> {
    items.map_values(|item: ItemView| item.hash)
}

/// The bytes of the items, one behind the other.
pub open spec fn joined(items: Seq<ItemView>) -> Seq<u8>
    decreases items.len(),
{
    if items.len() == 0 {
        Seq::empty()
    } else {
        joined(items.drop_last()) + items.last().bytes
    }
}

/// How many items at the front of the list are dropped for want of room in
/// a page that can hold `capacity` bytes. Items are taken from the end of
/// the list towards its start for as long as they fit together; the first
/// one that does not fit is dropped with all that stand before it.
pub open spec fn dropped(items: Seq<ItemView>, capacity: int) -> nat
    decreases items.len(),
{
    if items.len() == 0 {
        0
    } else if items.last().bytes.len() <= capacity {
        dropped(items.drop_last(), capacity - items.last().bytes.len())
    } else {
        items.len()
    }
}

/// The number of bytes that leave the front of `data` so that `needed`
/// more bytes come free: whole entries, oldest first, until enough has
/// come free; everything, where the complete entries do not suffice.
pub open spec fn wipe_len(data: Seq<u8>, needed: int) -> nat
    decreases data.len(),
{
    if needed <= 0 {
        0
    } else if has_entry(data) {
        let n = entry_len_at(data);
        n + wipe_len(data.skip(n as int), needed - n)
    } else {
        data.len()
    }
}

/// The first of the entries that has this hash.
pub open spec fn first_with_hash(entries: Seq<Entry>, hash: u64) -> Option<Entry>
    decreases entries.len(),
{
    if entries.len() == 0 {
        None
    } else if entries[0].hash == hash {
        Some(entries[0])
    } else {
        first_with_hash(entries.skip(1), hash)
    }
}

impl Contents {
    /// The live entries, oldest first.
    pub open spec fn entries(self) -> Seq<Entry> {
        parse(self.data)
    }

    /// The contents after the delete pass. With nothing to delete, nothing
    /// changes. Otherwise the entries that survive are packed from the start
    /// in their order, whatever followed the last complete entry is gone,
    /// and the filter is rebuilt from the survivors.
    pub open spec fn deleted(self, deletions: Set<u64>) -> Contents {
        if deletions.is_empty() {
            self
        } else {
            let kept = without(self.entries(), deletions);
            Contents { data: encode(kept), bloom: filter_of(kept) }
        }
    }

    /// The contents after the evict pass, which makes room for `required`
    /// more bytes in a page that can hold `capacity`. Where that much is
    /// free already, nothing changes. Otherwise the oldest entries leave,
    /// the others move to the start, and the filter is rebuilt from them.
    pub open spec fn evicted(self, capacity: int, required: int) -> Contents {
        let free = capacity - self.data.len();
        if free >= required {
            self
        } else {
            let data = self.data.skip(wipe_len(self.data, required - free) as int);
            Contents { data, bloom: filter_of(parse(data)) }
        }
    }

    /// The contents after the append pass: the bytes of the items stand
    /// behind what was there, and their hashes are in the filter.
    pub open spec fn appended(self, items: Seq<ItemView>) -> Contents {
        Contents {
            data: self.data + joined(items),
            bloom: inserted_all(self.bloom, item_hashes(items)),
        }
    }

    /// The contents after the two passes that bring items in: room is made
    /// for the items that are not dropped, and they are appended.
    pub open spec fn extended(self, capacity: int, items: Seq<ItemView>) -> Contents {
        let added = items.skip(dropped(items, capacity) as int);
        self.evicted(capacity, joined(added).len() as int).appended(added)
    }

    /// The contents after `deletions` and `items` have been applied to a
    /// page that can hold `capacity` bytes: delete, make room, append.
    pub open spec fn applied(
        self,
        capacity: int,
        deletions: Set<u64>,
        items: Seq<ItemView>,
    ) -> Contents {
        self.deleted(deletions).extended(capacity, items)
    }

    /// What a lookup of `hash` finds. A filter that answers "no" ends the
    /// lookup; otherwise it is the oldest entry with that hash, if any.
    pub open spec fn found(self, hash: u64) -> Option<Entry> {
        if may_contain(self.bloom, hash) {
            first_with_hash(self.entries(), hash)
        } else {
            None
        }
    }
}

/// One step of reading entries: the entries read so far, then what the
/// rest holds, are still all the entries.
pub proof fn lemma_parse_step(data: Seq<u8>, done: Seq<Entry>, r: int)
    requires
        0 <= r <= data.len(),
        parse(data) == done + parse(data.skip(r)),
        has_entry(data.skip(r)),
    ensures
        parse(data) == done.push(first_entry(data.skip(r))) + parse(
            data.skip(r + entry_len_at(data.skip(r))),
        ),
{
    let rest = data.skip(r);
    let n = entry_len_at(rest) as int;
    assert(rest.skip(n) =~= data.skip(r + n));
    assert(done.push(first_entry(rest)) + parse(data.skip(r + n)) =~= done + parse(rest));
}

/// The bytes of a run of items, counted from one of them on.
pub proof fn lemma_joined_concat(first: Seq<ItemView>, second: Seq<ItemView>)
    ensures
        joined(first + second) == joined(first) + joined(second),
    decreases second.len(),
{
    if second.len() == 0 {
        assert(first + second =~= first);
        assert(joined(first) + joined(second) =~= joined(first));
    } else {
        lemma_joined_concat(first, second.drop_last());
        assert((first + second).drop_last() =~= first + second.drop_last());
        assert(joined(first + second) =~= joined(first) + joined(second));
    }
}

/// An item stands before the items behind it.
pub proof fn lemma_joined_front(items: Seq<ItemView>, at: int)
    requires
        0 <= at < items.len(),
    ensures
        joined(items.skip(at)) == items[at].bytes + joined(items.skip(at + 1)),
{
    lemma_joined_concat(seq![items[at]], items.skip(at + 1));
    assert(seq![items[at]] + items.skip(at + 1) =~= items.skip(at));
    assert(seq![items[at]].drop_last() =~= Seq::<ItemView>::empty());
    assert(joined(Seq::<ItemView>::empty()) =~= Seq::<u8>::empty());
    assert(joined(seq![items[at]]) =~= joined(Seq::<ItemView>::empty()) + items[at].bytes);
}

/// An entry that does not have the hash looked for is passed over.
pub proof fn lemma_first_with_hash_step(entry: Entry, others: Seq<Entry>, hash: u64)
    ensures
        first_with_hash(seq![entry] + others, hash) == if entry.hash == hash {
            Some(entry)
        } else {
            first_with_hash(others, hash)
        },
{
    assert((seq![entry] + others).skip(1) =~= others);
}

/// The bytes to wipe, counted from a place that the walk has reached.
pub proof fn lemma_wipe_step(data: Seq<u8>, wiped: int, needed: int)
    requires
        0 <= wiped <= data.len(),
        wiped < needed,
        has_entry(data.skip(wiped)),
    ensures
        wiped + wipe_len(data.skip(wiped), needed - wiped) == wiped + entry_len_at(
            data.skip(wiped),
        ) + wipe_len(
            data.skip(wiped + entry_len_at(data.skip(wiped))),
            needed - wiped - entry_len_at(data.skip(wiped)),
        ),
{
    let rest = data.skip(wiped);
    let n = entry_len_at(rest) as int;
    assert(rest.skip(n) =~= data.skip(wiped + n));
}

/// An entry that is read joins the survivors unless its hash is deleted.
pub proof fn lemma_without_push(done: Seq<Entry>, entry: Entry, deletions: Set<u64>)
    ensures
        without(done.push(entry), deletions) == if deletions.contains(entry.hash) {
            without(done, deletions)
        } else {
            without(done, deletions).push(entry)
        },
{
    done.lemma_filter_push(entry, |e: Entry| !deletions.contains(e.hash));
}

/// One more survivor: its hash goes into the filter behind the others.
pub proof fn lemma_filter_of_push(kept: Seq<Entry>, entry: Entry)
    ensures
        filter_of(kept.push(entry)) == inserted(filter_of(kept), entry.hash),
{
    assert(hashes(kept.push(entry)) =~= hashes(kept).push(entry.hash));
    assert(hashes(kept).push(entry.hash).drop_last() =~= hashes(kept));
}

/// Of no entries none survives, and they set no bit.
pub proof fn lemma_nothing_kept(deletions: Set<u64>)
    ensures
        without(Seq::empty(), deletions) == Seq::<Entry>::empty(),
        filter_of(Seq::empty()) == cleared(4),
        encode(Seq::empty()) == Seq::<u8>::empty(),
{
    reveal(Seq::filter);
    assert(hashes(Seq::<Entry>::empty()) =~= Seq::<u64>::empty());
}

} // verus!
