//! Helpers for tests of a cache that is built on this library: a hasher
//! with a predictable result, a picker with a fixed list of admitted keys,
//! and a recorder of admissions and evictions.

use parking_lot::Mutex;
use std::collections::HashSet;
use std::hash::Hash;
use vstd::prelude::*;
use vstd::std_specs::hash::obeys_key_model;

verus! {

/// The state of a [`ModHasher`] after it has taken in `bytes`: each byte
/// shifts the state up by eight bits and takes the place of the low ones.
pub open spec fn absorbed(state: u64, bytes: Seq<u8>) -> u64
    decreases bytes.len(),
{
    if bytes.len() == 0 {
        state
    } else {
        ((absorbed(state, bytes.drop_last()) << 8) + bytes.last()) as u64
    }
}

/// A hasher whose result is the bytes it was given, read as a big-endian
/// number modulo 2^64.
#[derive(Debug)]
pub struct ModHasher {
    state: u64,
}

impl View for ModHasher {
    type V = u64;

    closed spec fn view(&self) -> u64 {
        self.state
    }
}

impl Default for ModHasher {
    fn default() -> (hasher: Self)
        ensures
            hasher@ == 0,
    {
        Self { state: 0 }
    }
}

impl ModHasher {
    /// The hash of what was written so far.
    pub fn finish(&self) -> (hash: u64)
        ensures
            hash == self@,
    {
        self.state
    }

    /// Takes in `bytes`.
    pub fn write(&mut self, bytes: &[u8])
        ensures
            final(self)@ == absorbed(old(self)@, bytes@),
    {
        let ghost before = self@;
        let mut i: usize = 0;
        while i < bytes.len()
            invariant
                i <= bytes@.len(),
                self@ == absorbed(before, bytes@.subrange(0, i as int)),
            decreases bytes@.len() - i,
        {
            let byte = bytes[i];
            let state = self.state;
            proof {
                assert(bytes@.subrange(0, i + 1).drop_last() =~= bytes@.subrange(0, i as int));
                assert((state << 8) + byte <= u64::MAX) by (bit_vector);
            }
            self.state = (state << 8) + byte as u64;
            i += 1;
        }
        proof {
            assert(bytes@.subrange(0, i as int) =~= bytes@);
        }
    }

    /// A fresh hasher.
    pub fn build_hasher(&self) -> (hasher: Self)
        ensures
            hasher@ == 0,
    {
        Self::default()
    }
}

/// A picker that only admits key from the given list.
#[derive(Debug)]
pub struct BiasedPicker<K> {
    admits: HashSet<K>,
}

impl<K> BiasedPicker<K> {
    /// The keys that the picker admits.
    pub closed spec fn admits(&self) -> Set<K> {
        self.admits@
    }

    /// Create a biased picker with the given admit list.
    pub fn new(admits: Vec<K>) -> (picker: Self) where K: Hash + Eq
        ensures
            obeys_key_model::<K>() ==> picker.admits() == admits@.to_set(),
    {
        broadcast use vstd::std_specs::hash::group_hash_axioms;

        let ghost all = admits@;
        let mut set: HashSet<K> = HashSet::new();
        let mut admits = admits;
        while admits.len() > 0
            invariant
                obeys_key_model::<K>() ==> forall|k: K|
                    all.contains(k) <==> set@.contains(k) || admits@.contains(k),
            decreases admits@.len(),
        {
            let ghost before = admits@;
            let key = admits.pop().unwrap();
            set.insert(key);
            proof {
                assert(before =~= admits@.push(key));
                assert forall|k: K| before.contains(k) <==> admits@.contains(k) || k == key by {
                    if before.contains(k) {
                        let i = choose|i: int| 0 <= i < before.len() && before[i] == k;
                        if i < admits@.len() {
                            assert(admits@[i] == k);
                        }
                    }
                    if admits@.contains(k) {
                        let i = choose|i: int| 0 <= i < admits@.len() && admits@[i] == k;
                        assert(before[i] == k);
                    }
                    assert(before[before.len() - 1] == key);
                }
            }
        }
        proof {
            if obeys_key_model::<K>() {
                assert(set@ =~= all.to_set());
            }
        }
        Self { admits: set }
    }

    /// Whether the picker admits `key`.
    pub fn pick(&self, key: &K) -> (admitted: bool) where K: Hash + Eq
        ensures
            obeys_key_model::<K>() ==> admitted == self.admits().contains(*key),
    {
        broadcast use vstd::std_specs::hash::group_hash_axioms;

        self.admits.contains(key)
    }
}

/// The record entry for admission and eviction.
#[derive(Debug, Clone)]
pub enum Record<K> {
    /// Admission record entry.
    Admit(K),
    /// Eviction record entry.
    Evict(K),
}

/// The keys that remain after the records have been replayed in their
/// order: an admission puts its key in, an eviction takes its key out.
pub open spec fn remaining<K>(records: Seq<Record<K>>) -> Set<K>
    decreases records.len(),
{
    if records.len() == 0 {
        Set::empty()
    } else {
        let before = remaining(records.drop_last());
        match records.last() {
            Record::Admit(key) => before.insert(key),
            Record::Evict(key) => before.remove(key),
        }
    }
}

/// Replays the records in their order and gives the keys that remain.
pub fn replay<K: Hash + Eq>(records: Vec<Record<K>>) -> (remains: HashSet<K>)
    ensures
        obeys_key_model::<K>() ==> remains@ == remaining(records@),
{
    broadcast use vstd::std_specs::hash::group_hash_axioms;

    let ghost all = records@;
    let mut records = records;
    let mut reversed: Vec<Record<K>> = Vec::new();
    while records.len() > 0
        invariant
            records@ == all.take(records@.len() as int),
            records@.len() + reversed@.len() == all.len(),
            forall|j: int| 0 <= j < reversed@.len() ==> reversed@[j] == all[all.len() - 1 - j],
        decreases records@.len(),
    {
        let record = records.pop().unwrap();
        reversed.push(record);
        proof {
            assert(records@ =~= all.take(records@.len() as int));
        }
    }
    let mut res: HashSet<K> = HashSet::new();
    let ghost mut done: Seq<Record<K>> = Seq::empty();
    while reversed.len() > 0
        invariant
            reversed@.len() <= all.len(),
            forall|j: int| 0 <= j < reversed@.len() ==> reversed@[j] == all[all.len() - 1 - j],
            done == all.take(all.len() - reversed@.len()),
            obeys_key_model::<K>() ==> res@ == remaining(done),
        decreases reversed@.len(),
    {
        let record = reversed.pop().unwrap();
        proof {
            assert(all.take(all.len() - reversed@.len()).drop_last() =~= done);
            done = all.take(all.len() - reversed@.len());
        }
        match record {
            Record::Admit(key) => {
                res.insert(key);
            },
            Record::Evict(key) => {
                res.remove(&key);
            },
        }
    }
    proof {
        assert(all.take(all.len() as int) =~= all);
    }
    res
}

/// The lock that `parking_lot::Mutex` is an alias of. Nothing is said of
/// what it protects: other holders of the lock may change it at any time.
#[verifier::external_type_specification]
#[verifier::external_body]
#[verifier::reject_recursive_types(R)]
#[verifier::reject_recursive_types(T)]
pub struct ExMutex<R, T: ?Sized>(parking_lot::lock_api::Mutex<R, T>);

/// The raw lock of `parking_lot`, which stands in the type of its `Mutex`.
#[verifier::external_type_specification]
#[verifier::external_body]
pub struct ExRawMutex(parking_lot::RawMutex);

/// A new lock around `records`, by `parking_lot::Mutex::new`.
#[verifier::external_body]
fn records_new<K>(records: Vec<Record<K>>) -> Mutex<Vec<Record<K>>> {
    Mutex::new(records)
}

/// Takes the lock by `parking_lot::Mutex::lock` and pushes `record` behind
/// the records that it protects.
#[verifier::external_body]
fn records_push<K>(records: &Mutex<Vec<Record<K>>>, record: Record<K>) {
    records.lock().push(record)
}

/// Takes the lock by `parking_lot::Mutex::lock` and clones the records
/// that it protects. Nothing is promised of the result: it is what the
/// records were at the moment the lock was held.
#[verifier::external_body]
fn records_snapshot<K: Clone>(records: &Mutex<Vec<Record<K>>>) -> Vec<Record<K>> {
    records.lock().clone()
}

/// A recorder that records the cache entry admission and eviction of a disk cache.
///
/// [`Recorder`] should be used as both the admission picker and the reinsertion picker to record.
#[derive(Debug)]
#[verifier::reject_recursive_types(K)]
pub struct Recorder<K> {
    records: Mutex<Vec<Record<K>>>,
}

impl<K> Recorder<K> {
    /// A recorder without records.
    pub fn new() -> Self {
        Self { records: records_new(Vec::new()) }
    }
}

impl<K> Default for Recorder<K> {
    fn default() -> Self {
        Self::new()
    }
}

impl<K: Hash + Eq + Clone> Recorder<K> {
    /// Dump the record entries of the recorder.
    pub fn dump(&self) -> Vec<Record<K>> {
        records_snapshot(&self.records)
    }

    /// Get the hash set of the remaining key at the moment: what is left
    /// when the records of this moment are replayed.
    pub fn remains(&self) -> (remains: HashSet<K>)
        ensures
            obeys_key_model::<K>() ==> exists|records: Seq<Record<K>>|
                remains@ == remaining(records),
    {
        let records = self.dump();
        replay(records)
    }

    /// Records the admission of `key`, and admits it.
    pub fn pick_admission(&self, key: &K) -> (admitted: bool)
        ensures
            admitted,
    {
        records_push(&self.records, Record::Admit(key.clone()));
        true
    }

    /// Records the eviction of `key`, and does not take it back in.
    pub fn pick_reinsertion(&self, key: &K) -> (reinserted: bool)
        ensures
            !reinserted,
    {
        records_push(&self.records, Record::Evict(key.clone()));
        false
    }
}

} // verus!
