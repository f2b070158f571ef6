use std::collections::HashSet;

use foyer_core::test_utils::{replay, BiasedPicker, ModHasher, Record, Recorder};

#[test]
fn mod_hasher_reads_bytes_as_a_number() {
    let mut hasher = ModHasher::default();
    assert_eq!(hasher.finish(), 0);
    hasher.write(&[1, 2, 3]);
    assert_eq!(hasher.finish(), 0x01_02_03);
    hasher.write(&[4]);
    assert_eq!(hasher.finish(), 0x01_02_03_04);
    hasher.write(&[]);
    assert_eq!(hasher.finish(), 0x01_02_03_04);
}

#[test]
fn mod_hasher_drops_what_is_shifted_out() {
    let mut hasher = ModHasher::default();
    hasher.write(&[0xAA, 1, 2, 3, 4, 5, 6, 7, 8]);
    assert_eq!(hasher.finish(), 0x0102_0304_0506_0708);
    assert_eq!(hasher.build_hasher().finish(), 0);
}

#[test]
fn mod_hasher_of_a_key_is_the_key() {
    let mut hasher = ModHasher::default();
    hasher.write(&0xDEAD_BEEF_u64.to_be_bytes());
    assert_eq!(hasher.finish(), 0xDEAD_BEEF);
}

#[test]
fn biased_picker_admits_its_list_only() {
    let picker = BiasedPicker::new(vec![1u64, 3, 5, 3]);
    assert!(picker.pick(&1));
    assert!(picker.pick(&3));
    assert!(picker.pick(&5));
    assert!(!picker.pick(&2));
    assert!(!picker.pick(&0));
    let nothing: BiasedPicker<u64> = BiasedPicker::new(Vec::new());
    assert!(!nothing.pick(&1));
}

#[test]
fn replay_keeps_what_was_not_evicted() {
    let records = vec![
        Record::Admit(1u64),
        Record::Admit(2),
        Record::Evict(1),
        Record::Admit(3),
        Record::Evict(4),
        Record::Evict(3),
        Record::Admit(3),
    ];
    assert_eq!(replay(records), HashSet::from_iter([2, 3]));
    assert_eq!(replay(Vec::<Record<u64>>::new()), HashSet::new());
    assert_eq!(replay(vec![Record::Evict(1u64), Record::Admit(1)]), HashSet::from_iter([1]));
    assert_eq!(replay(vec![Record::Admit(1u64), Record::Evict(1)]), HashSet::new());
}

#[test]
fn recorder_records_in_order() {
    let recorder: Recorder<u64> = Recorder::default();
    assert!(recorder.dump().is_empty());
    assert!(recorder.pick_admission(&1));
    assert!(recorder.pick_admission(&2));
    assert!(!recorder.pick_reinsertion(&1));
    let dump = recorder.dump();
    assert_eq!(dump.len(), 3);
    assert!(matches!(dump[0], Record::Admit(1)));
    assert!(matches!(dump[1], Record::Admit(2)));
    assert!(matches!(dump[2], Record::Evict(1)));
    assert_eq!(recorder.remains(), HashSet::from_iter([2]));
    assert!(recorder.pick_admission(&1));
    assert_eq!(recorder.remains(), HashSet::from_iter([1, 2]));
}
