use foyer_core::bloom_filter::BloomFilterU64;
use foyer_core::buffer::{move_down, write_slice};
use foyer_core::checksum::Checksummer;
use foyer_core::code::Code;
use foyer_core::entry::{EntryHeader, ENTRY_HEADER_SIZE};

#[test]
fn checksum_of_the_check_string() {
    assert_eq!(Checksummer::checksum32(b"123456789"), 0xCBF4_3926);
}

#[test]
fn checksum_of_nothing_is_zero() {
    assert_eq!(Checksummer::checksum32(&[]), 0);
}

#[test]
fn checksum_of_zero_bytes() {
    assert_eq!(Checksummer::checksum32(&[0u8; 44]), 0x8324_661C);
}

#[test]
fn checksum_tells_a_changed_byte() {
    let data: Vec<u8> = (0..200u32).map(|i| (i * 7 % 251) as u8).collect();
    let sum = Checksummer::checksum32(&data);
    for at in 0..data.len() {
        let mut changed = data.clone();
        changed[at] = changed[at].wrapping_add(1);
        assert_ne!(Checksummer::checksum32(&changed), sum);
    }
}

#[test]
fn header_is_written_big_endian() {
    let header = EntryHeader::new(0x0102_0304_0506_0708, 0x0C0D, 0x0A0B).unwrap();
    let mut buf = vec![0xEEu8; 16];
    header.write(&mut buf, 2);
    assert_eq!(buf, vec![0xEE, 0xEE, 1, 2, 3, 4, 5, 6, 7, 8, 0x0A, 0x0B, 0x0C, 0x0D, 0xEE, 0xEE]);
}

#[test]
fn header_is_read_big_endian() {
    let raw = [1u8, 2, 3, 4, 5, 6, 7, 8, 0x0A, 0x0B, 0x0C, 0x0D, 0xEE];
    let header = EntryHeader::read(&raw);
    assert_eq!(header.hash(), 0x0102_0304_0506_0708);
    assert_eq!(header.value_len(), 0x0A0B);
    assert_eq!(header.key_len(), 0x0C0D);
    assert_eq!(header.entry_len(), ENTRY_HEADER_SIZE + 0x0A0B + 0x0C0D);
}

#[test]
fn header_lengths_must_fit_sixteen_bits() {
    assert!(EntryHeader::new(1, 65535, 65535).is_some());
    assert!(EntryHeader::new(1, 65536, 0).is_none());
    assert!(EntryHeader::new(1, 0, 65536).is_none());
}

#[test]
fn u64_is_stored_big_endian() {
    assert_eq!(0x0102_0304_0506_0708u64.encode(), vec![1, 2, 3, 4, 5, 6, 7, 8]);
    assert_eq!(<u64 as Code>::decode(&[1, 2, 3, 4, 5, 6, 7, 8]), Some(0x0102_0304_0506_0708));
    assert_eq!(<u64 as Code>::decode(&[1, 2, 3, 4, 5, 6, 7]), None);
    assert_eq!(<u64 as Code>::decode(&[1, 2, 3, 4, 5, 6, 7, 8, 9]), None);
}

#[test]
fn bytes_are_stored_as_they_are() {
    assert_eq!(vec![3u8, 1, 2].encode(), vec![3, 1, 2]);
    assert_eq!(<Vec<u8> as Code>::decode(&[3, 1, 2]), Some(vec![3, 1, 2]));
    assert_eq!(<Vec<u8> as Code>::decode(&[]), Some(Vec::new()));
}

#[test]
fn filter_sets_one_bit_in_every_word() {
    let mut filter = BloomFilterU64::<4>::new();
    filter.insert(1);
    let mut raw = vec![0u8; 32];
    filter.write(&mut raw, 0);
    let mut expected = Vec::new();
    for word in [0x0100_0000_0000_0000u64, 0x8_0000, 0x8000_0000_0000_0000, 0x1_0000] {
        expected.extend_from_slice(&word.to_be_bytes());
    }
    assert_eq!(raw, expected);
    filter.insert(2);
    filter.write(&mut raw, 0);
    let mut expected = Vec::new();
    for word in [0x0100_0000_0100_0000u64, 0x18_0000, 0x8010_0000_0000_0000, 0x101_0000] {
        expected.extend_from_slice(&word.to_be_bytes());
    }
    assert_eq!(raw, expected);
}

#[test]
fn filter_never_misses_what_was_inserted() {
    let mut filter = BloomFilterU64::<4>::default();
    assert!(!filter.lookup(1));
    for hash in 0..40u64 {
        filter.insert(hash * 0x9E37_79B9_7F4A_7C15);
        for seen in 0..=hash {
            assert!(filter.lookup(seen * 0x9E37_79B9_7F4A_7C15));
        }
    }
}

#[test]
fn filter_says_no_to_what_shares_no_bits() {
    let mut filter = BloomFilterU64::<4>::new();
    filter.insert(1);
    assert!(filter.lookup(1));
    // hash 2 would set the bits 24, 20, 52 and 24; hash 1 has set 56, 19, 63 and 16
    assert!(!filter.lookup(2));
    assert!(!filter.lookup(7));
    filter.clear();
    assert!(!filter.lookup(1));
}

#[test]
fn filter_is_read_back_from_its_bytes() {
    let mut filter = BloomFilterU64::<4>::new();
    for hash in [3u64, 1 << 40, u64::MAX] {
        filter.insert(hash);
    }
    let mut raw = vec![0xAAu8; 40];
    filter.write(&mut raw, 4);
    assert_eq!(&raw[0..4], &[0xAAu8; 4][..]);
    assert_eq!(&raw[36..40], &[0xAAu8; 4][..]);
    let read = BloomFilterU64::<4>::read(&raw[4..36]);
    for hash in [3u64, 1 << 40, u64::MAX] {
        assert!(read.lookup(hash));
    }
    let mut again = vec![0u8; 32];
    read.write(&mut again, 0);
    assert_eq!(&again[..], &raw[4..36]);
}

#[test]
fn filter_of_another_width() {
    let mut filter = BloomFilterU64::<2>::new();
    filter.insert(1);
    let mut raw = vec![0u8; 16];
    filter.write(&mut raw, 0);
    let mut expected = Vec::new();
    for word in [0x0100_0000_0000_0000u64, 0x8_0000] {
        expected.extend_from_slice(&word.to_be_bytes());
    }
    assert_eq!(raw, expected);
}

#[test]
fn bytes_move_down_over_themselves() {
    let mut buf: Vec<u8> = (0..10).collect();
    move_down(&mut buf, 4, 9, 2);
    assert_eq!(buf, vec![0, 1, 4, 5, 6, 7, 8, 7, 8, 9]);
    move_down(&mut buf, 3, 3, 0);
    assert_eq!(buf, vec![0, 1, 4, 5, 6, 7, 8, 7, 8, 9]);
}

#[test]
fn slice_is_written_in_place() {
    let mut buf = vec![0u8; 6];
    write_slice(&mut buf, 2, &[7, 8, 9]);
    assert_eq!(buf, vec![0, 0, 7, 8, 9, 0]);
    write_slice(&mut buf, 6, &[]);
    assert_eq!(buf, vec![0, 0, 7, 8, 9, 0]);
}
