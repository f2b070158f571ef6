use std::collections::HashSet;

use foyer_core::code::{Code, Error};
use foyer_core::entry::{EntrySerializer, ENTRY_HEADER_SIZE};
use foyer_core::set::{Item, SetMut, SetStorage, SharedSet, SET_HEADER_SIZE};

const PAGE: usize = 4096;

struct TestEntry {
    hash: u64,
    key: u64,
    value: Vec<u8>,
}

fn entry(key: u64, value: Vec<u8>) -> TestEntry {
    TestEntry { hash: key, key, value }
}

fn buffer(entry: &TestEntry) -> Vec<u8> {
    EntrySerializer::serialize(entry.hash, &entry.key.encode(), &entry.value.encode()).unwrap()
}

fn item(entry: &TestEntry) -> Item {
    Item { buffer: buffer(entry), hash: entry.hash }
}

fn assert_some(storage: &SetStorage, entry: &TestEntry) {
    let ret = storage.get::<u64, Vec<u8>>(entry.hash).unwrap();
    let (k, v) = ret.unwrap();
    assert_eq!(k, entry.key);
    assert_eq!(v, entry.value);
}

fn assert_none(storage: &SetStorage, hash: u64) {
    let ret = storage.get::<u64, Vec<u8>>(hash).unwrap();
    assert!(ret.is_none());
}

fn hashes(storage: &SetStorage) -> Vec<u64> {
    let mut res = Vec::new();
    let mut iter = storage.iter();
    while let Some(entry) = iter.next() {
        res.push(entry.hash);
    }
    res
}

fn empty_page() -> SetStorage {
    SetStorage::load(vec![0u8; PAGE])
}

#[test]
fn test_set_storage_basic() {
    let buf = vec![0u8; PAGE];

    // load will result in an empty set
    let mut storage = SetStorage::load(buf);
    assert!(storage.is_empty());

    let e1 = entry(1, vec![b'1'; 42]);
    let b1 = buffer(&e1);
    storage.apply(&HashSet::from_iter([2, 4]), vec![Item { buffer: b1.clone(), hash: e1.hash }]);
    assert_eq!(storage.len(), b1.len());
    assert_some(&storage, &e1);

    let e2 = entry(2, vec![b'2'; 97]);
    let b2 = buffer(&e2);
    storage.apply(
        &HashSet::from_iter([e1.hash, 3, 5]),
        vec![Item { buffer: b2.clone(), hash: e2.hash }],
    );
    assert_eq!(storage.len(), b2.len());
    assert_none(&storage, e1.hash);
    assert_some(&storage, &e2);

    let e3 = entry(3, vec![b'3'; 211]);
    let b3 = buffer(&e3);
    storage.apply(&HashSet::from_iter([e1.hash]), vec![Item { buffer: b3.clone(), hash: e3.hash }]);
    assert_eq!(storage.len(), b2.len() + b3.len());
    assert_none(&storage, e1.hash);
    assert_some(&storage, &e2);
    assert_some(&storage, &e3);

    let e4 = entry(4, vec![b'4'; 3800]);
    let b4 = buffer(&e4);
    storage.apply(&HashSet::from_iter([e1.hash]), vec![Item { buffer: b4.clone(), hash: e4.hash }]);
    assert_eq!(storage.len(), b4.len());
    assert_none(&storage, e1.hash);
    assert_none(&storage, e2.hash);
    assert_none(&storage, e3.hash);
    assert_some(&storage, &e4);

    // test recovery
    storage.update();
    let bytes = storage.freeze();
    let mut buf = vec![0u8; PAGE];
    buf[0..bytes.len()].copy_from_slice(&bytes);
    let mut storage = SetStorage::load(buf);

    assert_eq!(storage.len(), b4.len());
    assert_none(&storage, e1.hash);
    assert_none(&storage, e2.hash);
    assert_none(&storage, e3.hash);
    assert_some(&storage, &e4);

    // test oversize entry
    let e5 = entry(5, vec![b'5'; 20 * 1024]);
    let b5 = buffer(&e5);
    storage.apply(&HashSet::new(), vec![Item { buffer: b5.clone(), hash: e5.hash }]);
    assert_eq!(storage.len(), b4.len());
    assert_none(&storage, e1.hash);
    assert_none(&storage, e2.hash);
    assert_none(&storage, e3.hash);
    assert_some(&storage, &e4);
}

#[test]
fn empty_load_of_zero_page() {
    let storage = SetStorage::load(vec![0u8; PAGE]);
    assert!(storage.is_empty());
    assert_eq!(storage.len(), 0);
    assert_none(&storage, 0);
    assert_none(&storage, 1);
    assert_none(&storage, u64::MAX);
    assert!(storage.find(7).is_none());
    assert_eq!(storage.data().len(), PAGE - SET_HEADER_SIZE);
}

#[test]
fn load_of_header_only_buffer() {
    let mut storage = SetStorage::load(vec![0u8; SET_HEADER_SIZE]);
    assert!(storage.is_empty());
    let e1 = entry(1, vec![1; 4]);
    storage.apply(&HashSet::new(), vec![item(&e1)]);
    assert!(storage.is_empty());
    storage.update_at(5);
    let bytes = storage.freeze();
    assert_eq!(bytes.len(), SET_HEADER_SIZE);
    let storage = SetStorage::load(bytes);
    assert!(storage.is_empty());
}

#[test]
fn single_write() {
    let mut storage = empty_page();
    let e1 = entry(1, vec![b'1'; 42]);
    storage.apply(&HashSet::new(), vec![item(&e1)]);
    assert_eq!(storage.len(), ENTRY_HEADER_SIZE + 8 + 42);
    assert_eq!(storage.len(), 62);
    let found = storage.get::<u64, Vec<u8>>(1).unwrap();
    assert_eq!(found, Some((1u64, vec![b'1'; 42])));
    let raw = storage.find(1).unwrap();
    assert_eq!(raw.hash, 1);
    assert_eq!(raw.offset, 0);
    assert_eq!(raw.key, &[0u8, 0, 0, 0, 0, 0, 0, 1][..]);
    assert_eq!(raw.value, &[b'1'; 42][..]);
    assert_eq!(raw.len(), 62);
    assert_eq!(raw.range(), 0..62);
}

#[test]
fn overwrite_by_delete_then_append() {
    let mut storage = empty_page();
    let e1 = entry(1, vec![b'1'; 42]);
    storage.apply(&HashSet::new(), vec![item(&e1)]);
    let e2 = entry(2, vec![b'2'; 97]);
    storage.apply(&HashSet::from_iter([1]), vec![item(&e2)]);
    assert_none(&storage, 1);
    assert_some(&storage, &e2);
    assert_eq!(storage.len(), ENTRY_HEADER_SIZE + 8 + 97);
    assert_eq!(hashes(&storage), vec![2]);
}

#[test]
fn same_hash_replaced_in_one_batch() {
    let mut storage = empty_page();
    let old = entry(1, vec![b'a'; 10]);
    storage.apply(&HashSet::new(), vec![item(&old)]);
    let new = entry(1, vec![b'b'; 20]);
    storage.apply(&HashSet::from_iter([1]), vec![item(&new)]);
    assert_some(&storage, &new);
    assert_eq!(storage.len(), ENTRY_HEADER_SIZE + 8 + 20);
}

#[test]
fn oversize_item_is_dropped() {
    let mut storage = empty_page();
    let e1 = entry(1, vec![b'1'; 42]);
    storage.apply(&HashSet::new(), vec![item(&e1)]);
    let len = storage.len();
    let big = Item { buffer: vec![0u8; 20480], hash: 9 };
    storage.apply(&HashSet::new(), vec![big]);
    assert_eq!(storage.len(), len);
    assert_none(&storage, 9);
    assert_some(&storage, &e1);
}

#[test]
fn item_of_exactly_the_capacity_fits() {
    let mut storage = empty_page();
    let capacity = PAGE - SET_HEADER_SIZE;
    let e1 = entry(1, vec![7; capacity - ENTRY_HEADER_SIZE - 8]);
    storage.apply(&HashSet::new(), vec![item(&e1)]);
    assert_eq!(storage.len(), capacity);
    assert_some(&storage, &e1);
    storage.update_at(1);
    let storage = SetStorage::load(storage.freeze());
    assert_eq!(storage.len(), capacity);
    assert_some(&storage, &e1);
}

#[test]
fn item_one_byte_over_the_capacity_is_dropped() {
    let mut storage = empty_page();
    let capacity = PAGE - SET_HEADER_SIZE;
    let e1 = entry(1, vec![7; capacity - ENTRY_HEADER_SIZE - 8 + 1]);
    storage.apply(&HashSet::new(), vec![item(&e1)]);
    assert_eq!(storage.len(), 0);
    assert_none(&storage, 1);
}

#[test]
fn crash_survival() {
    let mut storage = empty_page();
    let entries: Vec<TestEntry> = (1..=10u64).map(|k| entry(k, vec![k as u8; 30 + k as usize])).collect();
    storage.apply(&HashSet::new(), entries.iter().map(item).collect());
    storage.update();
    let bytes = storage.freeze();
    let mut fresh = vec![0u8; PAGE];
    fresh.copy_from_slice(&bytes);
    let storage = SetStorage::load(fresh);
    for e in &entries {
        assert_some(&storage, e);
    }
    assert_eq!(hashes(&storage), (1..=10u64).collect::<Vec<_>>());
}

#[test]
fn len_never_exceeds_capacity() {
    let mut storage = empty_page();
    let capacity = PAGE - SET_HEADER_SIZE;
    for round in 0..50u64 {
        let items: Vec<Item> = (0..7u64)
            .map(|i| item(&entry(round * 7 + i, vec![round as u8; (37 * (i as usize + 1) + 11 * round as usize) % 900])))
            .collect();
        let deletions: HashSet<u64> = HashSet::from_iter([round, round * 3, round * 7 + 1]);
        storage.apply(&deletions, items);
        assert!(storage.len() <= capacity);
    }
    assert!(!storage.is_empty());
}

#[test]
fn filter_answers_maybe_for_every_live_entry() {
    let mut storage = empty_page();
    for round in 0..20u64 {
        let items: Vec<Item> = (0..5u64).map(|i| item(&entry(round * 5 + i, vec![1; 150]))).collect();
        storage.apply(&HashSet::from_iter([round * 2]), items);
        for hash in hashes(&storage) {
            assert!(storage.bloom_filter().lookup(hash));
        }
    }
}

#[test]
fn sealed_page_is_loaded_back_as_it_was() {
    let mut storage = empty_page();
    let entries: Vec<TestEntry> = (1..=5u64).map(|k| entry(k * 11, vec![k as u8; 100])).collect();
    storage.apply(&HashSet::new(), entries.iter().map(item).collect());
    storage.update_at(0x0102_0304_0506_0708);
    let len = storage.len();
    let before = hashes(&storage);
    let mut filter = vec![0u8; 32];
    storage.bloom_filter().write(&mut filter, 0);
    let bytes = storage.freeze();
    let loaded = SetStorage::load(bytes.clone());
    assert_eq!(loaded.len(), len);
    assert_eq!(hashes(&loaded), before);
    let mut loaded_filter = vec![0u8; 32];
    loaded.bloom_filter().write(&mut loaded_filter, 0);
    assert_eq!(loaded_filter, filter);
    for e in &entries {
        assert_some(&loaded, e);
    }
    assert_eq!(loaded.freeze(), bytes);
}

#[test]
fn sealed_header_layout() {
    let mut storage = empty_page();
    let e1 = entry(1, vec![b'1'; 42]);
    storage.apply(&HashSet::new(), vec![item(&e1)]);
    storage.update_at(0x0102_0304_0506_0708);
    let bytes = storage.freeze();
    assert_eq!(bytes.len(), PAGE);
    assert_eq!(&bytes[4..12], &[1u8, 2, 3, 4, 5, 6, 7, 8][..]);
    assert_eq!(&bytes[12..16], &[0u8, 0, 0, 62][..]);
    // the filter after hash 1: bits 56, 19, 63 and 16 of the four words
    assert_eq!(&bytes[16..24], &[0x01u8, 0, 0, 0, 0, 0, 0, 0][..]);
    assert_eq!(&bytes[24..32], &[0u8, 0, 0, 0, 0, 0x08, 0, 0][..]);
    assert_eq!(&bytes[32..40], &[0x80u8, 0, 0, 0, 0, 0, 0, 0][..]);
    assert_eq!(&bytes[40..48], &[0u8, 0, 0, 0, 0, 0x01, 0, 0][..]);
    let sum = foyer_core::checksum::Checksummer::checksum32(&bytes[4..48 + 62]);
    assert_eq!(&bytes[0..4], &sum.to_be_bytes()[..]);
    // the entry: hash, value length, key length, value, key
    assert_eq!(&bytes[48..60], &[0u8, 0, 0, 0, 0, 0, 0, 1, 0, 42, 0, 8][..]);
    assert_eq!(&bytes[60..102], &[b'1'; 42][..]);
    assert_eq!(&bytes[102..110], &[0u8, 0, 0, 0, 0, 0, 0, 1][..]);
}

#[test]
fn sealed_empty_page_has_known_checksum() {
    let mut storage = empty_page();
    storage.update_at(0);
    let bytes = storage.freeze();
    assert_eq!(&bytes[0..4], &[0x83u8, 0x24, 0x66, 0x1c][..]);
    assert_eq!(&bytes[4..48], &[0u8; 44][..]);
}

#[test]
fn update_is_idempotent() {
    let mut storage = empty_page();
    storage.apply(&HashSet::new(), vec![item(&entry(3, vec![3; 33]))]);
    storage.update_at(77);
    let once = storage.data().to_vec();
    let len = storage.len();
    storage.update_at(77);
    assert_eq!(storage.data(), &once[..]);
    assert_eq!(storage.len(), len);
    let twice = storage.freeze();
    let mut again = SetStorage::load(twice.clone());
    again.update_at(77);
    assert_eq!(again.freeze(), twice);
}

#[test]
fn update_writes_the_time_of_the_clock() {
    let mut storage = empty_page();
    storage.update();
    let bytes = storage.freeze();
    let mut stamp = [0u8; 8];
    stamp.copy_from_slice(&bytes[4..12]);
    // later than 2020-01-01, in milliseconds
    assert!(u64::from_be_bytes(stamp) > 1_577_836_800_000);
    let sum = foyer_core::checksum::Checksummer::checksum32(&bytes[4..48]);
    assert_eq!(&bytes[0..4], &sum.to_be_bytes()[..]);
    assert_eq!(SetStorage::load(bytes).len(), 0);
}

#[test]
fn deleted_hashes_are_gone() {
    let mut storage = empty_page();
    let entries: Vec<TestEntry> = (1..=8u64).map(|k| entry(k, vec![k as u8; 64])).collect();
    storage.apply(&HashSet::new(), entries.iter().map(item).collect());
    let deletions: HashSet<u64> = HashSet::from_iter([2, 4, 6, 100]);
    storage.apply(&deletions, vec![item(&entry(9, vec![9; 64]))]);
    for hash in [2u64, 4, 6, 100] {
        assert_none(&storage, hash);
    }
    assert_eq!(hashes(&storage), vec![1, 3, 5, 7, 8, 9]);
    for e in entries.iter().filter(|e| e.hash % 2 == 1 || e.hash == 8) {
        assert_some(&storage, e);
    }
}

#[test]
fn fitting_items_are_present_in_order() {
    let mut storage = empty_page();
    storage.apply(&HashSet::new(), vec![item(&entry(50, vec![5; 3000]))]);
    let entries: Vec<TestEntry> = (1..=4u64).map(|k| entry(k, vec![k as u8; 500])).collect();
    storage.apply(&HashSet::new(), entries.iter().map(item).collect());
    let live = hashes(&storage);
    assert_eq!(live, vec![1, 2, 3, 4]);
    for e in &entries {
        assert_some(&storage, e);
    }
    assert_none(&storage, 50);
}

#[test]
fn oldest_entries_leave_first() {
    let mut storage = empty_page();
    let entries: Vec<TestEntry> = (1..=4u64).map(|k| entry(k, vec![k as u8; 980])).collect();
    storage.apply(&HashSet::new(), entries.iter().map(item).collect());
    assert_eq!(storage.len(), 4 * 1000);
    // 48 bytes are free: one more entry of 1000 bytes takes the place of the oldest
    storage.apply(&HashSet::new(), vec![item(&entry(5, vec![5; 980]))]);
    assert_eq!(hashes(&storage), vec![2, 3, 4, 5]);
    assert_eq!(storage.len(), 4 * 1000);
    // an entry of 1048 bytes still needs the room of one only
    storage.apply(&HashSet::new(), vec![item(&entry(6, vec![6; 1028]))]);
    assert_eq!(hashes(&storage), vec![3, 4, 5, 6]);
    assert_eq!(storage.len(), 3 * 1000 + 1048);
    // nothing is free now: an entry of 1001 bytes needs the room of two
    storage.apply(&HashSet::new(), vec![item(&entry(7, vec![7; 981]))]);
    assert_eq!(hashes(&storage), vec![5, 6, 7]);
    assert_eq!(storage.len(), 1000 + 1048 + 1001);
}

#[test]
fn newest_items_win_on_overflow() {
    let mut storage = empty_page();
    let entries: Vec<TestEntry> = (1..=6u64).map(|k| entry(k, vec![k as u8; 980])).collect();
    storage.apply(&HashSet::new(), entries.iter().map(item).collect());
    assert_eq!(hashes(&storage), vec![3, 4, 5, 6]);
    assert_none(&storage, 1);
    assert_none(&storage, 2);
}

#[test]
fn item_behind_one_that_does_not_fit_is_still_taken() {
    let mut storage = empty_page();
    let small = entry(1, vec![1; 10]);
    let big = Item { buffer: vec![0u8; 5000], hash: 2 };
    let last = entry(3, vec![3; 10]);
    storage.apply(&HashSet::new(), vec![item(&small), big, item(&last)]);
    assert_eq!(hashes(&storage), vec![3]);
}

#[test]
fn batch_without_items_only_deletes() {
    let mut storage = empty_page();
    let entries: Vec<TestEntry> = (1..=3u64).map(|k| entry(k, vec![k as u8; 10])).collect();
    storage.apply(&HashSet::new(), entries.iter().map(item).collect());
    storage.apply(&HashSet::from_iter([2]), Vec::new());
    assert_eq!(hashes(&storage), vec![1, 3]);
    assert_eq!(storage.len(), 2 * 30);
    assert_some(&storage, &entries[0]);
    assert_some(&storage, &entries[2]);
    assert_none(&storage, 2);
}

#[test]
fn delete_of_absent_hash_changes_nothing() {
    let mut storage = empty_page();
    let entries: Vec<TestEntry> = (1..=3u64).map(|k| entry(k, vec![k as u8; 10])).collect();
    storage.apply(&HashSet::new(), entries.iter().map(item).collect());
    let data = storage.data().to_vec();
    storage.apply(&HashSet::from_iter([77, 78]), Vec::new());
    assert_eq!(storage.data(), &data[..]);
    assert_eq!(hashes(&storage), vec![1, 2, 3]);
}

#[test]
fn empty_batch_changes_nothing() {
    let mut storage = empty_page();
    storage.apply(&HashSet::new(), vec![item(&entry(1, vec![1; 10]))]);
    let data = storage.data().to_vec();
    storage.apply(&HashSet::new(), Vec::new());
    assert_eq!(storage.data(), &data[..]);
    assert_eq!(storage.len(), 30);
}

#[test]
fn clear_keeps_the_capacity() {
    let mut storage = empty_page();
    storage.apply(&HashSet::new(), vec![item(&entry(1, vec![1; 10]))]);
    storage.clear();
    assert!(storage.is_empty());
    assert!(!storage.bloom_filter().lookup(1));
    assert_none(&storage, 1);
    assert_eq!(storage.data().len(), PAGE - SET_HEADER_SIZE);
    assert_eq!(storage.freeze().len(), PAGE);
}

#[test]
fn first_entry_with_the_hash_is_found() {
    let mut storage = empty_page();
    let first = TestEntry { hash: 5, key: 1, value: vec![1; 10] };
    let second = TestEntry { hash: 5, key: 2, value: vec![2; 10] };
    storage.apply(&HashSet::new(), vec![item(&first), item(&second)]);
    assert_eq!(hashes(&storage), vec![5, 5]);
    assert_some(&storage, &first);
}

#[test]
fn key_that_cannot_be_decoded_is_an_error() {
    let mut storage = empty_page();
    let bytes = EntrySerializer::serialize(4, &[1, 2, 3], &[9; 5]).unwrap();
    storage.apply(&HashSet::new(), vec![Item { buffer: bytes, hash: 4 }]);
    assert_eq!(storage.get::<u64, Vec<u8>>(4), Err(Error::DecodeFailure));
    assert_eq!(storage.get::<Vec<u8>, u64>(4), Err(Error::DecodeFailure));
    assert_eq!(storage.get::<Vec<u8>, Vec<u8>>(4), Ok(Some((vec![1, 2, 3], vec![9; 5]))));
    assert_eq!(storage.get::<u64, Vec<u8>>(5), Ok(None));
}

#[test]
fn damaged_byte_empties_the_page() {
    let mut storage = empty_page();
    let entries: Vec<TestEntry> = (1..=3u64).map(|k| entry(k, vec![k as u8; 20])).collect();
    storage.apply(&HashSet::new(), entries.iter().map(item).collect());
    storage.update_at(123_456_789);
    let len = storage.len();
    let bytes = storage.freeze();
    assert_eq!(SetStorage::load(bytes.clone()).len(), len);
    for at in (4..12).chain(16..SET_HEADER_SIZE + len) {
        for flip in [0x01u8, 0x80, 0xff] {
            let mut damaged = bytes.clone();
            damaged[at] ^= flip;
            let loaded = SetStorage::load(damaged);
            assert!(loaded.is_empty());
            assert_eq!(loaded.get::<u64, Vec<u8>>(1), Ok(None));
            assert!(!loaded.bloom_filter().lookup(1));
        }
    }
}

#[test]
fn damaged_checksum_empties_the_page() {
    let mut storage = empty_page();
    storage.apply(&HashSet::new(), vec![item(&entry(1, vec![1; 20]))]);
    storage.update_at(1);
    let bytes = storage.freeze();
    for at in 0..4 {
        let mut damaged = bytes.clone();
        damaged[at] ^= 0x10;
        assert!(SetStorage::load(damaged).is_empty());
    }
}

#[test]
fn damage_behind_the_live_entries_is_no_damage() {
    let mut storage = empty_page();
    let e1 = entry(1, vec![1; 20]);
    storage.apply(&HashSet::new(), vec![item(&e1)]);
    storage.update_at(1);
    let len = storage.len();
    let mut bytes = storage.freeze();
    bytes[SET_HEADER_SIZE + len] ^= 0xff;
    bytes[PAGE - 1] ^= 0xff;
    let loaded = SetStorage::load(bytes);
    assert_eq!(loaded.len(), len);
    assert_some(&loaded, &e1);
}

#[test]
fn length_behind_the_end_of_the_buffer_empties_the_page() {
    let mut storage = empty_page();
    storage.apply(&HashSet::new(), vec![item(&entry(1, vec![1; 200]))]);
    storage.update_at(1);
    let mut bytes = storage.freeze();
    // cut the page inside its live entries
    bytes.truncate(SET_HEADER_SIZE + 100);
    let loaded = SetStorage::load(bytes);
    assert!(loaded.is_empty());
    assert_eq!(loaded.data().len(), 100);
    assert_none(&loaded, 1);
}

#[test]
fn page_cut_at_the_end_of_its_live_entries_is_whole() {
    let mut storage = empty_page();
    let e1 = entry(1, vec![1; 200]);
    storage.apply(&HashSet::new(), vec![item(&e1)]);
    storage.update_at(1);
    let len = storage.len();
    let mut bytes = storage.freeze();
    bytes.truncate(SET_HEADER_SIZE + len);
    let loaded = SetStorage::load(bytes);
    assert_eq!(loaded.len(), len);
    assert_some(&loaded, &e1);
}

#[test]
fn damaged_length_field_can_pass_for_a_shorter_or_longer_page() {
    // Four bytes of the reserve are such that the checksum of the header with
    // length 4 and of these bytes is the checksum of the header with length 0.
    let mut buf = vec![0u8; PAGE];
    buf[48..52].copy_from_slice(&[97, 24, 2, 177]);
    let mut storage = SetStorage::load(buf);
    assert!(storage.is_empty());
    storage.update_at(0);
    let mut bytes = storage.freeze();
    assert_eq!(bytes[15], 0);
    bytes[15] = 4;
    let loaded = SetStorage::load(bytes);
    assert_eq!(loaded.len(), 4);
    // what it holds is no entry, and no lookup fails on it
    assert!(loaded.find(0).is_none());
    assert_eq!(hashes(&loaded), Vec::<u64>::new());
}

#[test]
fn bytes_that_are_no_entry_do_no_harm() {
    let mut storage = empty_page();
    let e1 = entry(1, vec![1; 20]);
    // the second item is five bytes that are no entry
    storage.apply(&HashSet::new(), vec![item(&e1), Item { buffer: vec![1, 2, 3, 4, 5], hash: 2 }]);
    assert_eq!(storage.len(), 40 + 5);
    assert_some(&storage, &e1);
    assert_eq!(storage.find(2).map(|e| e.hash), None);
    assert_eq!(hashes(&storage), vec![1]);
    // a delete pass walks the complete entries and drops what follows them
    storage.apply(&HashSet::from_iter([99]), Vec::new());
    assert_eq!(storage.len(), 40);
    assert_some(&storage, &e1);
    // room is made by wiping everything where the complete entries do not suffice
    let mut storage = empty_page();
    storage.apply(&HashSet::new(), vec![Item { buffer: vec![0xff; 100], hash: 2 }]);
    assert_eq!(storage.len(), 100);
    let big = entry(3, vec![3; 4000]);
    storage.apply(&HashSet::new(), vec![item(&big)]);
    assert_eq!(storage.len(), 4020);
    assert_some(&storage, &big);
}

#[test]
fn serializer_refuses_what_a_header_cannot_say() {
    assert!(EntrySerializer::serialize(1, &[0u8; 65536], &[]).is_none());
    assert!(EntrySerializer::serialize(1, &[], &[0u8; 65536]).is_none());
    let bytes = EntrySerializer::serialize(1, &[0u8; 65535], &[1u8; 65535]).unwrap();
    assert_eq!(bytes.len(), ENTRY_HEADER_SIZE + 2 * 65535);
    assert_eq!(&bytes[8..12], &[0xffu8, 0xff, 0xff, 0xff][..]);
}

#[test]
fn shared_and_owned_wrappers_give_the_page() {
    let mut storage = empty_page();
    let e1 = entry(1, vec![1; 20]);
    storage.apply(&HashSet::new(), vec![item(&e1)]);
    let owned = SetMut::new(storage);
    assert_eq!(owned.len(), 40);
    assert_some(&owned, &e1);
    let storage = owned.into_storage();
    let shared = SharedSet::new(std::sync::Arc::new(storage));
    assert_eq!(shared.len(), 40);
    assert_some(&shared, &e1);
    assert!(shared.bloom_filter().lookup(1));
}

#[test]
fn walk_gives_offsets_and_ranges() {
    let mut storage = empty_page();
    let entries: Vec<TestEntry> = (1..=3u64).map(|k| entry(k, vec![k as u8; 10 * k as usize])).collect();
    storage.apply(&HashSet::new(), entries.iter().map(item).collect());
    let mut iter = storage.iter();
    let first = iter.next().unwrap();
    assert_eq!((first.offset, first.hash, first.len()), (0, 1, 30));
    assert_eq!(first.range(), 0..30);
    let second = iter.next().unwrap();
    assert_eq!((second.offset, second.hash, second.len()), (30, 2, 40));
    assert_eq!(second.range(), 30..70);
    assert_eq!(second.value, &[2u8; 20][..]);
    assert_eq!(second.key, &2u64.to_be_bytes()[..]);
    let third = iter.next().unwrap();
    assert_eq!(third.range(), 70..120);
    assert!(iter.next().is_none());
    assert!(iter.next().is_none());
    assert_eq!(&storage.data()[30..70], &buffer(&entries[1])[..]);
}

struct Lcg(u64);

impl Lcg {
    fn next(&mut self, bound: u64) -> u64 {
        self.0 = self.0.wrapping_mul(6364136223846793005).wrapping_add(1442695040888963407);
        (self.0 >> 33) % bound
    }
}

#[test]
fn batches_agree_with_a_list_of_entries() {
    let capacity = PAGE - SET_HEADER_SIZE;
    let mut rng = Lcg(42);
    let mut storage = empty_page();
    let mut model: Vec<(u64, Vec<u8>)> = Vec::new();
    for round in 0..300u64 {
        let deletions: HashSet<u64> = (0..rng.next(4)).map(|_| rng.next(40)).collect();
        let items: Vec<TestEntry> = (0..rng.next(5))
            .map(|_| entry(rng.next(40), vec![round as u8; rng.next(1500) as usize]))
            .collect();

        if !deletions.is_empty() {
            model.retain(|(hash, _)| !deletions.contains(hash));
        }
        let mut skip = items.len();
        let mut size = 0;
        while skip > 0 && size + buffer(&items[skip - 1]).len() <= capacity {
            size += buffer(&items[skip - 1]).len();
            skip -= 1;
        }
        let mut len: usize = model.iter().map(|(_, bytes)| bytes.len()).sum();
        while capacity - len < size {
            len -= model.remove(0).1.len();
        }
        for e in &items[skip..] {
            model.push((e.hash, buffer(e)));
        }

        storage.apply(&deletions, items.iter().map(item).collect());

        let expected: Vec<u8> = model.iter().flat_map(|(_, bytes)| bytes.clone()).collect();
        assert_eq!(storage.len(), expected.len());
        assert_eq!(&storage.data()[..expected.len()], &expected[..]);
        assert_eq!(hashes(&storage), model.iter().map(|(hash, _)| *hash).collect::<Vec<_>>());
        for hash in 0..40u64 {
            let found = storage.find(hash).map(|e| (e.key.to_vec(), e.value.to_vec()));
            let first = model.iter().find(|(h, _)| *h == hash).map(|(_, bytes)| {
                let value_len = bytes.len() - ENTRY_HEADER_SIZE - 8;
                (bytes[ENTRY_HEADER_SIZE + value_len..].to_vec(), bytes[ENTRY_HEADER_SIZE..ENTRY_HEADER_SIZE + value_len].to_vec())
            });
            assert_eq!(found, first);
        }
        if round % 25 == 0 {
            storage.update_at(round);
            storage = SetStorage::load(storage.freeze());
        }
    }
}
