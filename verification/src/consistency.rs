//! When a page is consistent, and what follows from it.
//!
//! A page is consistent when its live bytes are exactly a run of complete
//! entries and its filter holds exactly the hashes of those entries. An
//! empty page is consistent, and applying a batch of well-formed items to
//! a consistent page gives a consistent page. On consistent pages the
//! passes of a batch can be said in terms of entries alone.

use crate::bloom_filter::{
    cleared, lemma_inserted_all_concat, lemma_inserted_all_contains, may_contain,
};
use crate::entry::{
    all_fit, encode, entry_len_at, first_entry, has_entry, hash_at, hashes, lemma_bytes_of_first,
    lemma_encode_concat, lemma_encode_one, lemma_encode_parse, lemma_parse_encode, parse, Entry,
};
use crate::contents::{
    dropped, filter_of, first_with_hash, item_hashes, joined, lemma_without_push, wipe_len,
    without, Contents, ItemView,
};
use crate::set::SetView;
use vstd::prelude::*;

verus! {

/// Whether the contents are consistent: the bytes are exactly the entries
/// they hold, and the filter is the one built from the hashes of those
/// entries.
pub open spec fn consistent(contents: Contents) -> bool {
    &&& encode(contents.entries()) == contents.data
    &&& contents.bloom == filter_of(contents.entries())
}

/// Whether an item is well-formed: its bytes are one complete entry and
/// nothing else, and the hash in that entry's header is the item's.
pub open spec fn is_entry(item: ItemView) -> bool {
    &&& has_entry(item.bytes)
    &&& entry_len_at(item.bytes) == item.bytes.len()
    &&& hash_at(item.bytes) == item.hash
}

/// Whether all the items are well-formed.
pub open spec fn all_entries(items: Seq<ItemView>) -> bool {
    forall|i: int| 0 <= i < items.len() ==> is_entry(#[trigger] items[i])
}

/// The entries that well-formed items carry, in their order.
pub open spec fn entries_of(items: Seq<ItemView>) -> Seq<Entry> {
    items.map_values(|item: ItemView| first_entry(item.bytes))
}

/// How many entries the evict pass drops from the front of `data` to gain
/// `needed` more bytes.
pub open spec fn wiped_count(data: Seq<u8>, needed: int) -> nat
    decreases data.len(),
{
    if needed <= 0 {
        0
    } else if has_entry(data) {
        let n = entry_len_at(data);
        1 + wiped_count(data.skip(n as int), needed - n)
    } else {
        0
    }
}

/// Whether none of the entries has this hash.
pub open spec fn no_entry_with(entries: Seq<Entry>, hash: u64) -> bool {
    forall|i: int| 0 <= i < entries.len() ==> (#[trigger] entries[i]).hash != hash
}

/// The bytes of well-formed items are the encoding of the entries they
/// carry, which all fit and have the hashes that the items name.
pub proof fn lemma_joined_entries(items: Seq<ItemView>)
    requires
        all_entries(items),
    ensures
        joined(items) == encode(entries_of(items)),
        all_fit(entries_of(items)),
        hashes(entries_of(items)) == item_hashes(items),
    decreases items.len(),
{
    if items.len() == 0 {
        assert(entries_of(items) =~= Seq::<Entry>::empty());
    } else {
        let front = items.drop_last();
        let last = items.last();
        assert(all_entries(front)) by {
            assert forall|i: int| 0 <= i < front.len() implies is_entry(#[trigger] front[i]) by {
                assert(front[i] == items[i]);
            }
        }
        lemma_joined_entries(front);
        assert(is_entry(items[items.len() - 1]));
        lemma_bytes_of_first(last.bytes);
        assert(last.bytes.take(last.bytes.len() as int) =~= last.bytes);
        assert(entries_of(items).drop_last() =~= entries_of(front));
        assert forall|i: int| 0 <= i < items.len() implies (#[trigger] entries_of(items)[i]).fits() by {
            if i < front.len() {
                assert(entries_of(items)[i] == entries_of(front)[i]);
            }
        }
    }
    assert(hashes(entries_of(items)) =~= item_hashes(items)) by {
        assert forall|i: int| 0 <= i < items.len() implies hashes(entries_of(items))[i]
            == item_hashes(items)[i] by {
            assert(is_entry(items[i]));
        }
    }
}

/// Bytes that are exactly their entries are read back as those entries, followed
/// by the entries of whatever is written behind them.
pub proof fn lemma_parse_behind(data: Seq<u8>, more: Seq<Entry>)
    requires
        encode(parse(data)) == data,
        all_fit(more),
    ensures
        parse(data + encode(more)) == parse(data) + more,
        encode(parse(data + encode(more))) == data + encode(more),
{
    let entries = parse(data);
    lemma_encode_parse(data);
    lemma_encode_concat(entries, more);
    assert(all_fit(entries + more)) by {
        assert forall|i: int| 0 <= i < (entries + more).len() implies (#[trigger] (entries
            + more)[i]).fits() by {
            if i < entries.len() {
                assert((entries + more)[i] == entries[i]);
            } else {
                assert((entries + more)[i] == more[i - entries.len()]);
            }
        }
    }
    lemma_parse_encode(entries + more, Seq::empty());
    assert(encode(entries + more) + Seq::<u8>::empty() =~= encode(entries + more));
    assert(parse(Seq::<u8>::empty()) =~= Seq::<Entry>::empty());
    assert((entries + more) + Seq::<Entry>::empty() =~= entries + more);
}

/// Survivors of entries that fit still fit.
pub proof fn lemma_without_fits(entries: Seq<Entry>, deletions: Set<u64>)
    requires
        all_fit(entries),
    ensures
        all_fit(without(entries, deletions)),
        no_entry_in(without(entries, deletions), deletions),
        deletions.is_empty() ==> without(entries, deletions) == entries,
    decreases entries.len(),
{
    if entries.len() == 0 {
        reveal(Seq::filter);
        assert(without(entries, deletions) =~= Seq::<Entry>::empty());
    } else {
        let front = entries.drop_last();
        let last = entries.last();
        assert(all_fit(front)) by {
            assert forall|i: int| 0 <= i < front.len() implies (#[trigger] front[i]).fits() by {
                assert(front[i] == entries[i]);
            }
        }
        lemma_without_fits(front, deletions);
        lemma_without_push(front, last, deletions);
        assert(front.push(last) =~= entries);
        assert(entries[entries.len() - 1].fits());
        let kept = without(entries, deletions);
        let before = without(front, deletions);
        assert forall|i: int| 0 <= i < kept.len() implies (#[trigger] kept[i]).fits()
            && !deletions.contains(kept[i].hash) by {
            if i < before.len() {
                assert(kept[i] == before[i]);
            }
        }
        if deletions.is_empty() {
            assert(kept =~= entries);
        }
    }
}

/// Whether none of the entries has a hash among `deletions`.
pub open spec fn no_entry_in(entries: Seq<Entry>, deletions: Set<u64>) -> bool {
    forall|i: int| 0 <= i < entries.len() ==> !deletions.contains((#[trigger] entries[i]).hash)
}

/// The delete pass on a consistent page: the page stays consistent, and it
/// holds the entries whose hash is not deleted, in their order.
pub proof fn lemma_deleted(contents: Contents, deletions: Set<u64>)
    requires
        consistent(contents),
    ensures
        consistent(contents.deleted(deletions)),
        contents.deleted(deletions).entries() == without(contents.entries(), deletions),
{
    let entries = contents.entries();
    let kept = without(entries, deletions);
    lemma_encode_parse(contents.data);
    lemma_without_fits(entries, deletions);
    if !deletions.is_empty() {
        lemma_parse_encode(kept, Seq::empty());
        assert(encode(kept) + Seq::<u8>::empty() =~= encode(kept));
        assert(parse(Seq::<u8>::empty()) =~= Seq::<Entry>::empty());
        assert(kept + Seq::<Entry>::empty() =~= kept);
    }
}

/// Bytes that are exactly their entries are so behind their first entry
/// too.
proof fn lemma_exact_behind_first(data: Seq<u8>)
    requires
        encode(parse(data)) == data,
        has_entry(data),
    ensures
        encode(parse(data.skip(entry_len_at(data) as int))) == data.skip(
            entry_len_at(data) as int,
        ),
        parse(data) == seq![first_entry(data)] + parse(data.skip(entry_len_at(data) as int)),
        first_entry(data).bytes().len() == entry_len_at(data),
{
    let n = entry_len_at(data) as int;
    let rest = data.skip(n);
    let entry = first_entry(data);
    lemma_bytes_of_first(data);
    lemma_encode_concat(seq![entry], parse(rest));
    lemma_encode_one(entry);
    assert(data == entry.bytes() + encode(parse(rest)));
    assert forall|i: int| 0 <= i < rest.len() implies encode(parse(rest))[i] == rest[i] by {
        assert(rest[i] == data[n + i]);
        assert(data[n + i] == (entry.bytes() + encode(parse(rest)))[n + i]);
    }
    assert(encode(parse(rest)) =~= rest);
}

/// Where the evict pass stops: it wipes no more than there is, and what it
/// leaves are the entries behind the ones it dropped.
pub proof fn lemma_wiped(data: Seq<u8>, needed: int)
    ensures
        wipe_len(data, needed) <= data.len(),
        wiped_count(data, needed) <= parse(data).len(),
        parse(data.skip(wipe_len(data, needed) as int)) == parse(data).skip(
            wiped_count(data, needed) as int,
        ),
        encode(parse(data)) == data ==> encode(parse(data.skip(wipe_len(data, needed) as int)))
            == data.skip(wipe_len(data, needed) as int),
    decreases data.len(),
{
    if needed <= 0 {
        assert(data.skip(0) =~= data);
        assert(parse(data).skip(0) =~= parse(data));
    } else if has_entry(data) {
        let n = entry_len_at(data) as int;
        let rest = data.skip(n);
        let entry = first_entry(data);
        lemma_wiped(rest, needed - n);
        let w = wipe_len(rest, needed - n) as int;
        let k = wiped_count(rest, needed - n) as int;
        assert(rest.skip(w) =~= data.skip(n + w));
        assert((seq![entry] + parse(rest)).skip(1 + k) =~= parse(rest).skip(k));
        if encode(parse(data)) == data {
            lemma_exact_behind_first(data);
        }
    } else {
        assert(data.skip(data.len() as int) =~= Seq::<u8>::empty());
        assert(parse(data).skip(0) =~= parse(data));
        assert(parse(Seq::<u8>::empty()) =~= Seq::<Entry>::empty());
        assert(encode(Seq::<Entry>::empty()) =~= Seq::<u8>::empty());
    }
}

/// The evict pass on a consistent page: the page stays consistent, and it
/// holds the entries behind the oldest ones, which are dropped.
pub proof fn lemma_evicted(contents: Contents, capacity: int, required: int)
    requires
        consistent(contents),
    ensures
        consistent(contents.evicted(capacity, required)),
        contents.evicted(capacity, required).entries() == contents.entries().skip(
            if capacity - contents.data.len() >= required {
                0
            } else {
                wiped_count(contents.data, required - (capacity - contents.data.len())) as int
            },
        ),
{
    let free = capacity - contents.data.len();
    if free >= required {
        assert(contents.entries().skip(0) =~= contents.entries());
    } else {
        lemma_wiped(contents.data, required - free);
    }
}

/// The append pass on a consistent page with well-formed items: the page
/// stays consistent, and the entries of the items stand behind the entries
/// that were there, in the order of the items.
pub proof fn lemma_appended(contents: Contents, items: Seq<ItemView>)
    requires
        consistent(contents),
        all_entries(items),
    ensures
        consistent(contents.appended(items)),
        contents.appended(items).entries() == contents.entries() + entries_of(items),
{
    let more = entries_of(items);
    lemma_joined_entries(items);
    lemma_parse_behind(contents.data, more);
    lemma_inserted_all_concat(cleared(4), hashes(contents.entries()), hashes(more));
    assert(hashes(contents.entries() + more) =~= hashes(contents.entries()) + hashes(more));
}

/// A list of items whose bytes fit the page together loses no item.
pub proof fn lemma_dropped_none(items: Seq<ItemView>, capacity: int)
    requires
        joined(items).len() <= capacity,
    ensures
        dropped(items, capacity) == 0,
    decreases items.len(),
{
    if items.len() > 0 {
        lemma_dropped_none(items.drop_last(), capacity - items.last().bytes.len());
    }
}

/// An item that is larger than the page is dropped, with all that stand
/// before it.
pub proof fn lemma_oversize_dropped(items: Seq<ItemView>, capacity: int, at: int)
    requires
        0 <= at < items.len(),
        items[at].bytes.len() > capacity,
    ensures
        dropped(items, capacity) > at,
    decreases items.len(),
{
    if at < items.len() - 1 && items.last().bytes.len() <= capacity {
        lemma_oversize_dropped(items.drop_last(), capacity - items.last().bytes.len(), at);
    }
}

/// The items that are not dropped fit the page together.
pub proof fn lemma_added_fits(items: Seq<ItemView>, capacity: int)
    requires
        0 <= capacity,
    ensures
        dropped(items, capacity) <= items.len(),
        joined(items.skip(dropped(items, capacity) as int)).len() <= capacity,
    decreases items.len(),
{
    if items.len() == 0 {
        assert(joined(items.skip(0)) =~= Seq::<u8>::empty());
    } else if items.last().bytes.len() <= capacity {
        let front = items.drop_last();
        let rest = capacity - items.last().bytes.len();
        lemma_added_fits(front, rest);
        let d = dropped(front, rest) as int;
        assert(items.skip(d).drop_last() =~= front.skip(d));
    } else {
        assert(joined(items.skip(items.len() as int)) =~= Seq::<u8>::empty());
    }
}

/// No more items are dropped than must be: the last of the dropped items
/// would not fit the page together with the items that are kept.
pub proof fn lemma_dropped_is_least(items: Seq<ItemView>, capacity: int)
    requires
        0 <= capacity,
        dropped(items, capacity) > 0,
    ensures
        dropped(items, capacity) <= items.len(),
        joined(items.skip(dropped(items, capacity) - 1)).len() > capacity,
    decreases items.len(),
{
    lemma_added_fits(items, capacity);
    if items.last().bytes.len() <= capacity {
        let front = items.drop_last();
        let rest = capacity - items.last().bytes.len();
        lemma_dropped_is_least(front, rest);
        let d = dropped(front, rest) as int;
        assert(items.skip(d - 1).drop_last() =~= front.skip(d - 1));
    } else {
        let last = items.len() - 1;
        assert(items.skip(last).drop_last() =~= Seq::<ItemView>::empty());
        assert(joined(Seq::<ItemView>::empty()) =~= Seq::<u8>::empty());
    }
}

/// A batch of well-formed items applied to a consistent page gives a
/// consistent page. It holds the entries that survive the deletions, less
/// the oldest ones where room was short, and behind them the entries of
/// the items that were not dropped, in the order of the items.
pub proof fn lemma_applied(
    contents: Contents,
    capacity: int,
    deletions: Set<u64>,
    items: Seq<ItemView>,
)
    requires
        consistent(contents),
        0 <= capacity,
        all_entries(items.skip(dropped(items, capacity) as int)),
    ensures
        consistent(contents.applied(capacity, deletions, items)),
        ({
            let added = items.skip(dropped(items, capacity) as int);
            let room = contents.deleted(deletions).evicted(capacity, joined(added).len() as int);
            &&& contents.applied(capacity, deletions, items).entries() == room.entries()
                + entries_of(added)
            &&& exists|k: int|
                0 <= k <= without(contents.entries(), deletions).len() && room.entries()
                    == without(contents.entries(), deletions).skip(k)
        }),
{
    let added = items.skip(dropped(items, capacity) as int);
    let kept = contents.deleted(deletions);
    let required = joined(added).len() as int;
    let room = kept.evicted(capacity, required);
    lemma_deleted(contents, deletions);
    lemma_evicted(kept, capacity, required);
    lemma_appended(room, added);
    let free = capacity - kept.data.len();
    if free >= required {
        assert(room.entries() == without(contents.entries(), deletions).skip(0));
    } else {
        lemma_wiped(kept.data, required - free);
        let k = wiped_count(kept.data, required - free) as int;
        assert(room.entries() == without(contents.entries(), deletions).skip(k));
    }
}

/// On a consistent page the filter answers "maybe" for the hash of every
/// live entry.
pub proof fn lemma_filter_covers(contents: Contents, at: int)
    requires
        consistent(contents),
        0 <= at < contents.entries().len(),
    ensures
        may_contain(contents.bloom, contents.entries()[at].hash),
{
    lemma_inserted_all_contains(cleared(4), hashes(contents.entries()), at);
}

/// Among entries of which none has the hash, none is found.
pub proof fn lemma_none_found(entries: Seq<Entry>, hash: u64)
    requires
        no_entry_with(entries, hash),
    ensures
        first_with_hash(entries, hash) is None,
    decreases entries.len(),
{
    if entries.len() > 0 {
        assert(entries[0].hash != hash);
        assert(no_entry_with(entries.skip(1), hash)) by {
            assert forall|i: int| 0 <= i < entries.skip(1).len() implies (#[trigger] entries.skip(
                1,
            )[i]).hash != hash by {
                assert(entries.skip(1)[i] == entries[i + 1]);
            }
        }
        lemma_none_found(entries.skip(1), hash);
    }
}

/// Among entries of which one has the hash, the first such entry is found.
pub proof fn lemma_some_found(entries: Seq<Entry>, hash: u64, at: int)
    requires
        0 <= at < entries.len(),
        entries[at].hash == hash,
    ensures
        first_with_hash(entries, hash) is Some,
        first_with_hash(entries, hash).unwrap().hash == hash,
    decreases entries.len(),
{
    if entries[0].hash != hash {
        assert(entries.skip(1)[at - 1] == entries[at]);
        lemma_some_found(entries.skip(1), hash, at - 1);
    }
}

/// A lookup finds the oldest entry with the hash: the entry before which
/// no entry has it.
pub proof fn lemma_found_is_oldest(entries: Seq<Entry>, hash: u64, at: int)
    requires
        0 <= at < entries.len(),
        entries[at].hash == hash,
        no_entry_with(entries.take(at), hash),
    ensures
        first_with_hash(entries, hash) == Some(entries[at]),
    decreases entries.len(),
{
    if at > 0 {
        assert(entries.take(at)[0] == entries[0]);
        assert(entries.skip(1)[at - 1] == entries[at]);
        assert(no_entry_with(entries.skip(1).take(at - 1), hash)) by {
            assert forall|i: int| 0 <= i < at - 1 implies (#[trigger] entries.skip(1).take(
                at - 1,
            )[i]).hash != hash by {
                assert(entries.skip(1).take(at - 1)[i] == entries.take(at)[i + 1]);
            }
        }
        lemma_found_is_oldest(entries.skip(1), hash, at - 1);
    }
}

/// The first entries of a run, where the run begins with one entry.
proof fn lemma_encode_take_behind(entry: Entry, others: Seq<Entry>, k: int)
    requires
        0 <= k <= others.len(),
    ensures
        encode((seq![entry] + others).take(1 + k)).len() == entry.bytes().len() + encode(
            others.take(k),
        ).len(),
{
    assert((seq![entry] + others).take(1 + k) =~= seq![entry] + others.take(k));
    lemma_encode_concat(seq![entry], others.take(k));
    lemma_encode_one(entry);
}

/// The evict pass wipes whole entries and no more of them than it must.
/// On bytes that are exactly their entries, what it wipes are the first
/// entries, as many as it counts; without the last of them too little
/// would come free; and where `needed` is no more than there is, enough
/// comes free.
pub proof fn lemma_wiped_is_least(data: Seq<u8>, needed: int)
    requires
        encode(parse(data)) == data,
    ensures
        wiped_count(data, needed) <= parse(data).len(),
        wipe_len(data, needed) == encode(parse(data).take(wiped_count(data, needed) as int)).len(),
        wiped_count(data, needed) > 0 ==> encode(
            parse(data).take(wiped_count(data, needed) - 1),
        ).len() < needed,
        needed <= data.len() ==> wipe_len(data, needed) >= needed,
    decreases data.len(),
{
    if needed > 0 && has_entry(data) {
        let n = entry_len_at(data) as int;
        let rest = data.skip(n);
        let entry = first_entry(data);
        let others = parse(rest);
        lemma_exact_behind_first(data);
        lemma_wiped_is_least(rest, needed - n);
        let k = wiped_count(rest, needed - n) as int;
        lemma_encode_take_behind(entry, others, k);
        if k > 0 {
            lemma_encode_take_behind(entry, others, k - 1);
        } else {
            assert((seq![entry] + others).take(0) =~= Seq::<Entry>::empty());
            assert(encode(Seq::<Entry>::empty()) =~= Seq::<u8>::empty());
        }
    } else {
        assert(parse(data).take(0) =~= Seq::<Entry>::empty());
        assert(encode(Seq::<Entry>::empty()) =~= Seq::<u8>::empty());
    }
}

/// A deleted hash is gone. After a batch has been applied to a consistent
/// page, a lookup of a hash that the batch deletes finds nothing, unless
/// the batch itself brings an entry with that hash.
pub proof fn lemma_deleted_hash_not_found(
    contents: Contents,
    capacity: int,
    deletions: Set<u64>,
    items: Seq<ItemView>,
    hash: u64,
)
    requires
        consistent(contents),
        0 <= capacity,
        all_entries(items.skip(dropped(items, capacity) as int)),
        deletions.contains(hash),
        forall|i: int| dropped(items, capacity) <= i < items.len() ==> (#[trigger] items[i]).hash
            != hash,
    ensures
        contents.applied(capacity, deletions, items).found(hash) is None,
{
    let added = items.skip(dropped(items, capacity) as int);
    let survivors = without(contents.entries(), deletions);
    let room = contents.deleted(deletions).evicted(capacity, joined(added).len() as int);
    let after = contents.applied(capacity, deletions, items);
    lemma_added_fits(items, capacity);
    lemma_applied(contents, capacity, deletions, items);
    let k = choose|k: int| 0 <= k <= survivors.len() && room.entries() == survivors.skip(k);
    assert(no_entry_in(survivors, deletions)) by {
        lemma_encode_parse(contents.data);
        lemma_without_fits(contents.entries(), deletions);
    }
    assert(no_entry_with(entries_of(added), hash)) by {
        assert forall|i: int| 0 <= i < added.len() implies (#[trigger] added[i]).hash != hash by {
            assert(added[i] == items[dropped(items, capacity) + i]);
        }
        lemma_items_have_none(added, hash);
    }
    lemma_not_among(after.entries(), survivors, k, entries_of(added), deletions, hash);
}

/// A hash that is deleted, and that no new entry has, is not found among
/// survivors followed by new entries.
proof fn lemma_not_among(
    after: Seq<Entry>,
    survivors: Seq<Entry>,
    k: int,
    more: Seq<Entry>,
    deletions: Set<u64>,
    hash: u64,
)
    requires
        0 <= k <= survivors.len(),
        after == survivors.skip(k) + more,
        no_entry_in(survivors, deletions),
        deletions.contains(hash),
        no_entry_with(more, hash),
    ensures
        first_with_hash(after, hash) is None,
{
    lemma_skip_has_none(survivors, deletions, hash, k);
    lemma_concat_has_none(survivors.skip(k), more, hash);
    lemma_none_found(after, hash);
}

/// Entries behind the first `k` of entries that are not deleted do not
/// have a deleted hash.
proof fn lemma_skip_has_none(entries: Seq<Entry>, deletions: Set<u64>, hash: u64, k: int)
    requires
        no_entry_in(entries, deletions),
        deletions.contains(hash),
        0 <= k <= entries.len(),
    ensures
        no_entry_with(entries.skip(k), hash),
{
    assert forall|i: int| 0 <= i < entries.skip(k).len() implies (#[trigger] entries.skip(
        k,
    )[i]).hash != hash by {
        assert(entries.skip(k)[i] == entries[k + i]);
    }
}

/// The entries of well-formed items of which none names the hash do not
/// have it.
proof fn lemma_items_have_none(items: Seq<ItemView>, hash: u64)
    requires
        all_entries(items),
        forall|i: int| 0 <= i < items.len() ==> (#[trigger] items[i]).hash != hash,
    ensures
        no_entry_with(entries_of(items), hash),
{
    assert forall|i: int| 0 <= i < entries_of(items).len() implies (#[trigger] entries_of(
        items,
    )[i]).hash != hash by {
        assert(is_entry(items[i]));
    }
}

/// Two runs of entries without the hash make one run without it.
proof fn lemma_concat_has_none(first: Seq<Entry>, second: Seq<Entry>, hash: u64)
    requires
        no_entry_with(first, hash),
        no_entry_with(second, hash),
    ensures
        no_entry_with(first + second, hash),
{
    assert forall|i: int| 0 <= i < (first + second).len() implies (#[trigger] (first
        + second)[i]).hash != hash by {
        if i < first.len() {
            assert((first + second)[i] == first[i]);
        } else {
            assert((first + second)[i] == second[i - first.len()]);
        }
    }
}

/// Items that fit are all there. After a batch of well-formed items whose
/// bytes fit the page together has been applied to a consistent page, no
/// item was dropped, the last entries of the page are the entries of the
/// items in the order of the items, and a lookup of the hash of any of the
/// items finds an entry with that hash.
pub proof fn lemma_fitting_items_present(
    contents: Contents,
    capacity: int,
    deletions: Set<u64>,
    items: Seq<ItemView>,
)
    requires
        consistent(contents),
        all_entries(items),
        joined(items).len() <= capacity,
    ensures
        dropped(items, capacity) == 0,
        ({
            let after = contents.applied(capacity, deletions, items);
            &&& after.entries().len() >= items.len()
            &&& after.entries().skip(after.entries().len() - items.len()) == entries_of(items)
            &&& forall|i: int|
                0 <= i < items.len() ==> after.found((#[trigger] items[i]).hash) is Some
                    && after.found(items[i].hash).unwrap().hash == items[i].hash
        }),
{
    lemma_dropped_none(items, capacity);
    assert(items.skip(0) =~= items);
    lemma_applied(contents, capacity, deletions, items);
    let after = contents.applied(capacity, deletions, items);
    let room = contents.deleted(deletions).evicted(capacity, joined(items).len() as int);
    let base = room.entries().len() as int;
    assert(after.entries().skip(after.entries().len() - items.len()) =~= entries_of(items));
    lemma_joined_entries(items);
    assert forall|i: int| 0 <= i < items.len() implies after.found((#[trigger] items[i]).hash)
        is Some && after.found(items[i].hash).unwrap().hash == items[i].hash by {
        assert(after.entries()[base + i] == entries_of(items)[i]);
        assert(hashes(entries_of(items))[i] == item_hashes(items)[i]);
        lemma_filter_covers(after, base + i);
        lemma_some_found(after.entries(), items[i].hash, base + i);
    }
}

/// A batch without items only deletes.
pub proof fn lemma_applied_without_items(contents: Contents, capacity: int, deletions: Set<u64>)
    requires
        contents.data.len() <= capacity,
        contents.deleted(deletions).data.len() <= capacity,
    ensures
        contents.applied(capacity, deletions, Seq::empty()).data == contents.deleted(
            deletions,
        ).data,
        contents.applied(capacity, deletions, Seq::empty()).bloom == contents.deleted(
            deletions,
        ).bloom,
{
    let items = Seq::<ItemView>::empty();
    assert(items.skip(0) =~= items);
    assert(item_hashes(items) =~= Seq::<u64>::empty());
    let kept = contents.deleted(deletions);
    assert(kept.data + joined(items) =~= kept.data);
}

/// Deleting hashes that no live entry has leaves a consistent page as it is.
pub proof fn lemma_deleted_absent(contents: Contents, deletions: Set<u64>)
    requires
        consistent(contents),
        no_entry_in(contents.entries(), deletions),
    ensures
        contents.deleted(deletions) == contents,
{
    lemma_kept_all(contents.entries(), deletions);
}

/// Entries of which none is deleted all survive.
proof fn lemma_kept_all(entries: Seq<Entry>, deletions: Set<u64>)
    requires
        no_entry_in(entries, deletions),
    ensures
        without(entries, deletions) == entries,
    decreases entries.len(),
{
    if entries.len() == 0 {
        reveal(Seq::filter);
        assert(without(entries, deletions) =~= entries);
    } else {
        let front = entries.drop_last();
        assert(no_entry_in(front, deletions)) by {
            assert forall|i: int| 0 <= i < front.len() implies !deletions.contains(
                (#[trigger] front[i]).hash,
            ) by {
                assert(front[i] == entries[i]);
            }
        }
        lemma_kept_all(front, deletions);
        lemma_without_push(front, entries.last(), deletions);
        assert(front.push(entries.last()) =~= entries);
        assert(!deletions.contains(entries[entries.len() - 1].hash));
    }
}

/// A page without entries is consistent, whatever its buffer holds.
pub proof fn lemma_emptied_consistent(page: SetView)
    requires
        page.wf(),
    ensures
        consistent(page.emptied().contents()),
        page.emptied().entries().len() == 0,
{
    assert(page.emptied().live() =~= Seq::<u8>::empty());
    assert(parse(Seq::<u8>::empty()) =~= Seq::<Entry>::empty());
    assert(hashes(Seq::<Entry>::empty()) =~= Seq::<u64>::empty());
}

} // verus!
