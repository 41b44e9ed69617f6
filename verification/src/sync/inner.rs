//! The parts of a cache, and the maintenance that keeps them in step.

use crate::common::clock::{
    clock_now, current_time, expired, instant_now, is_expired, law_time_is_read, policy_nanos,
    read_from, share,
};
use crate::common::deques::{CacheRegion, Deques};
use crate::common::entry::{ReadOp, Record, ValueEntry, WriteOp};
use crate::common::frequency_sketch::FrequencySketch;
use crate::common::housekeeper::SyncPace;
use crate::common::key_hasher::KeyHasher;
use crate::common::op_log::OpLog;
use crate::common::records::Records;
use crate::common::store::Store;
use crate::sync::state::{
    next_pace, should_apply_reads, should_apply_writes, CacheState, EVICTION_BATCH_SIZE,
    MAX_SYNC_REPEATS, READ_LOG_SIZE, WRITE_LOG_SIZE,
};
use std::hash::BuildHasher;
use std::hash::Hash;
use std::sync::Arc;
use std::time::Duration;
use vstd::prelude::*;
use vstd::std_specs::hash::{builds_valid_hashers, obeys_key_model};

verus! {

/// The number of segments of the store.
const NUM_SEGMENTS: usize = 64;

/// The parts of a cache.
#[verifier::reject_recursive_types(K)]
#[verifier::reject_recursive_types(V)]
#[verifier::reject_recursive_types(S)]
pub struct Inner<K, V, S> {
    max_capacity: usize,
    store: Store<K, ValueEntry<V>, S>,
    hasher: KeyHasher<K, S>,
    records: Records<K>,
    deques: Deques,
    frequency_sketch: FrequencySketch,
    read_log: OpLog<ReadOp>,
    write_log: OpLog<WriteOp>,
    retired: Vec<usize>,
    time_to_live: Option<Duration>,
    time_to_idle: Option<Duration>,
    expiration_clock: Option<quanta::Clock>,
}

impl<K, V, S> View for Inner<K, V, S> {
    type V = CacheState<K, V>;

    closed spec fn view(&self) -> CacheState<K, V> {
        CacheState {
            max_capacity: self.max_capacity as nat,
            time_to_live: policy_nanos(self.time_to_live),
            time_to_idle: policy_nanos(self.time_to_idle),
            store: self.store@,
            records: self.records@,
            deques: self.deques@,
            sketch: self.frequency_sketch@,
            reads: self.read_log@,
            writes: self.write_log@,
            retired: self.retired@,
        }
    }
}

impl<K: Hash + Eq, V, S: BuildHasher + Clone> Inner<K, V, S> {
    /// Whether the parts agree with each other.
    pub closed spec fn wf(&self) -> bool {
        &&& self@.valid()
        &&& self.records.wf()
        &&& self.deques.wf()
        &&& self.frequency_sketch.wf()
        &&& self.read_log.capacity() == READ_LOG_SIZE
        &&& self.write_log.capacity() == WRITE_LOG_SIZE
        &&& obeys_key_model::<K>()
        &&& builds_valid_hashers::<S>()
    }

    /// The hash that the cache counts each key by: what a fresh hasher of its hash builder
    /// gives that is fed with the key.
    pub closed spec fn hashes(&self) -> spec_fn(K) -> u64 {
        self.hasher.hashes()
    }

    /// The hash that the cache counts `key` by.
    pub open spec fn hash_of(&self, key: K) -> u64 {
        (self.hashes())(key)
    }

    /// The time to live and the time to idle.
    pub closed spec fn durations(&self) -> (Option<Duration>, Option<Duration>) {
        (self.time_to_live, self.time_to_idle)
    }

    /// The clock that expiry goes by, where it is not the global one.
    pub closed spec fn clock(&self) -> Option<quanta::Clock> {
        self.expiration_clock
    }

    /// Whether a call can be made at `now`: where entries expire, that was read from the
    /// clock.
    pub open spec fn time_of_call_is(&self, now: u64) -> bool {
        if self@.has_expiry() {
            read_from(self.clock(), now)
        } else {
            now == 0
        }
    }

    /// Whether the hashes, the durations and the clock are those of `other`.
    pub open spec fn same_setup(&self, other: &Self) -> bool {
        &&& self.durations() == other.durations()
        &&& self.clock() == other.clock()
        &&& self.hashes() == other.hashes()
    }

    /// The state of a well-formed cache is valid.
    pub proof fn lemma_valid(&self)
        requires
            self.wf(),
        ensures
            self@.valid(),
    {
    }

    /// An empty cache.
    pub fn new(
        max_capacity: usize,
        initial_capacity: Option<usize>,
        build_hasher: S,
        time_to_live: Option<Duration>,
        time_to_idle: Option<Duration>,
    ) -> (inner: Self)
        requires
            obeys_key_model::<K>(),
            builds_valid_hashers::<S>(),
            max_capacity <= usize::MAX / 32,
            initial_capacity is Some ==> initial_capacity->Some_0 + 4 * WRITE_LOG_SIZE
                <= usize::MAX / 64,
        ensures
            inner.wf(),
            inner@ == (CacheState::<K, V>::fresh(
                max_capacity as nat,
                policy_nanos(time_to_live),
                policy_nanos(time_to_idle),
            )),
            inner@.max_capacity == max_capacity,
            inner@.time_to_live == policy_nanos(time_to_live),
            inner@.time_to_idle == policy_nanos(time_to_idle),
            inner@.store == (Map::<K, ValueEntry<V>>::empty()),
            inner@.reads.len() == 0,
            inner@.writes.len() == 0,
            inner.durations() == (time_to_live, time_to_idle),
            inner.clock() is None,
    {
        let initial_capacity: usize = match initial_capacity {
            Some(cap) => cap + WRITE_LOG_SIZE * 4,
            None => 0,
        };
        let hasher = KeyHasher::with_clone_of(&build_hasher);
        let store = Store::with_num_segments_capacity_and_hasher(
            NUM_SEGMENTS,
            initial_capacity,
            build_hasher,
        );
        let sketch_capacity: usize = if max_capacity * 32 > 100 {
            max_capacity * 32
        } else {
            100
        };
        let inner = Inner {
            max_capacity,
            store,
            hasher,
            records: Records::new(),
            deques: Deques::new(),
            frequency_sketch: FrequencySketch::with_capacity(sketch_capacity),
            read_log: OpLog::bounded(READ_LOG_SIZE),
            write_log: OpLog::bounded(WRITE_LOG_SIZE),
            retired: Vec::new(),
            time_to_live,
            time_to_idle,
            expiration_clock: None,
        };
        proof {
            reveal(CacheState::valid);
            assert(inner@ =~= CacheState::<K, V>::fresh(
                max_capacity as nat,
                policy_nanos(time_to_live),
                policy_nanos(time_to_idle),
            ));
        }
        inner
    }

    /// The hash that `key` is counted by.
    pub fn hash(&self, key: &K) -> (hash: u64)
        requires
            self.wf(),
        ensures
            hash == self.hash_of(*key),
    {
        self.hasher.hash(key)
    }

    /// The entry that the store has for `key`.
    pub fn get(&self, key: &K) -> (entry: Option<Arc<ValueEntry<V>>>)
        requires
            self.wf(),
        ensures
            match entry {
                Some(e) => {
                    &&& self@.store.contains_key(*key)
                    &&& *e == self@.store[*key]
                    &&& self@.records.contains_key(e.slot)
                },
                None => !self@.store.contains_key(*key),
            },
    {
        proof {
            reveal(CacheState::valid);
            if self@.store.contains_key(*key) {
                assert(self@.entry_recorded(*key));
            }
        }
        self.store.get(key)
    }

    /// Whether entries can expire.
    pub fn has_expiry(&self) -> (b: bool)
        ensures
            b == self@.has_expiry(),
    {
        self.time_to_live.is_some() || self.time_to_idle.is_some()
    }

    /// Whether a record has outlived the time to idle.
    pub fn is_expired_entry_ao(&self, record: &Record<K>, now: u64) -> (b: bool)
        ensures
            b == expired(record.last_accessed, self@.time_to_idle, now),
    {
        is_expired(record.last_accessed, &self.time_to_idle, now)
    }

    /// Whether a record has outlived the time to live.
    pub fn is_expired_entry_wo(&self, record: &Record<K>, now: u64) -> (b: bool)
        ensures
            b == expired(record.last_modified, self@.time_to_live, now),
    {
        is_expired(record.last_modified, &self.time_to_live, now)
    }

    /// Whether the entry at `slot` has expired at `now`.
    pub fn is_expired_entry(&self, slot: usize, now: u64) -> (b: bool)
        requires
            self@.records.contains_key(slot),
        ensures
            b == self@.record_expired(slot, now),
    {
        match self.records.get(slot) {
            Some(record) => self.is_expired_entry_wo(record, now) || self.is_expired_entry_ao(
                record,
                now,
            ),
            None => false,
        }
    }

    /// The time of a call on a cache whose entries expire is what `quanta::Clock::now` gave
    /// of the clock that was set, or what `quanta::Instant::now` gave where none was.
    proof fn law_time_of_call_is_read(&self, now: u64)
        requires
            self.time_of_call_is(now),
            self@.time_to_live is Some || self@.time_to_idle is Some,
        ensures
            self.expiration_clock is None ==> call_ensures(instant_now, (), now),
            self.expiration_clock is Some ==> call_ensures(
                clock_now,
                (&self.expiration_clock->Some_0,),
                now,
            ),
    {
        law_time_is_read(self.clock(), now);
    }

    /// The hash of a key is what a fresh hasher of the hash builder gives that is fed with
    /// the key and nothing else.
    proof fn law_hash_is_of_the_key(&self, key: K)
        ensures
            self.hash_of(key) == (self.hasher.hash_of_fed())(seq![key]),
    {
    }

    /// What the settings of a cache say is what it was made with.
    proof fn law_settings_are_kept(&self)
        ensures
            self@.max_capacity == self.max_capacity,
            self.durations() == (self.time_to_live, self.time_to_idle),
            self@.time_to_live == policy_nanos(self.time_to_live),
            self@.time_to_idle == policy_nanos(self.time_to_idle),
            self.clock() == self.expiration_clock,
    {
    }

    /// The time on the clock that was set, or on the global clock where none was.
    pub fn current_time_from_expiration_clock(&self) -> (now: u64)
        ensures
            read_from(self.clock(), now),
    {
        current_time(&self.expiration_clock)
    }

    /// The time that a call is made at. Where entries do not expire, no clock is read:
    /// no time matters then.
    pub fn time_of_call(&self) -> (now: u64)
        ensures
            self.time_of_call_is(now),
    {
        if self.has_expiry() {
            self.current_time_from_expiration_clock()
        } else {
            0
        }
    }

    /// Whether the store holds the entry that the record at `slot` speaks of.
    fn is_live(&self, slot: usize) -> (b: bool)
        requires
            obeys_key_model::<K>(),
            builds_valid_hashers::<S>(),
            self@.records.contains_key(slot),
        ensures
            b == self@.live(slot),
    {
        match self.records.get(slot) {
            Some(record) => match self.store.get(&record.key) {
                Some(entry) => entry.slot == slot,
                None => false,
            },
            None => false,
        }
    }

    // Reads.

    /// Applies one read.
    fn apply_read(&mut self, op: ReadOp)
        requires
            old(self).wf(),
        ensures
            final(self).wf(),
            final(self).same_setup(old(self)),
            final(self)@ == old(self)@.read_applied(op),
    {
        proof {
            self@.lemma_read_applied(op);
        }
        match op {
            ReadOp::Hit(hash, slot) => {
                self.frequency_sketch.increment(hash);
                self.deques.move_to_back_ao(slot);
            },
            ReadOp::Miss(hash) => {
                self.frequency_sketch.increment(hash);
            },
        }
    }

    /// Applies up to `count` of the reads that wait, oldest first.
    pub fn apply_reads(&mut self, count: usize)
        requires
            old(self).wf(),
        ensures
            final(self).wf(),
            final(self).same_setup(old(self)),
            final(self)@ == old(self)@.reads_applied(count as nat),
    {
        let mut i: usize = 0;
        while i < count
            invariant_except_break
                i <= count,
                self@.reads_applied((count - i) as nat) == old(self)@.reads_applied(count as nat),
            invariant
                self.wf(),
                self.same_setup(old(self)),
            ensures
                self@ == old(self)@.reads_applied(count as nat),
            decreases count - i,
        {
            proof {
                if self@.reads.len() > 0 {
                    self@.lemma_read_taken();
                }
            }
            match self.read_log.try_recv() {
                Some(op) => {
                    self.apply_read(op);
                },
                None => {
                    break;
                },
            }
            i = i + 1;
        }
    }

    // Writes.

    /// Takes the entry at `slot` out of the queues, and notes that its record may go.
    fn unlink(&mut self, slot: usize)
        requires
            old(self).wf(),
        ensures
            final(self).wf(),
            final(self).same_setup(old(self)),
            final(self)@ == old(self)@.unlinked(slot),
    {
        proof {
            self@.lemma_unlinked(slot);
        }
        self.deques.unlink_ao(slot);
        self.deques.unlink_wo(slot);
        self.retired.push(slot);
    }

    /// Takes the key of the record at `slot` out of the store.
    fn remove_key_of(&mut self, slot: usize)
        requires
            old(self).wf(),
            old(self)@.records.contains_key(slot),
        ensures
            final(self).wf(),
            final(self).same_setup(old(self)),
            final(self)@ == old(self)@.removed(*old(self)@.records[slot].key),
    {
        proof {
            let key = *self@.records[slot].key;
            self@.lemma_removed(key);
        }
        if let Some(record) = self.records.get(slot) {
            self.store.remove(&record.key);
        }
    }

    /// The least recently used entry.
    pub fn find_cache_victim(&self) -> (victim: usize)
        requires
            self.wf(),
            self@.deques.probation.len() > 0,
        ensures
            victim == self@.victim(),
            self@.records.contains_key(victim),
    {
        proof {
            reveal(CacheState::valid);
            assert(self@.deques.probation.contains(self@.victim()));
            assert(self@.deques.contains(self@.victim()));
        }
        match self.deques.peek_front_ao(CacheRegion::MainProbation) {
            Some(victim) => victim,
            None => 0,
        }
    }

    /// Whether an entry with the first hash is worth more than one with the
    /// second: it was asked for more often.
    pub fn admits(&self, candidate_hash: u64, victim_hash: u64) -> (b: bool)
        requires
            self.wf(),
        ensures
            b == (self@.sketch.frequency(candidate_hash) > self@.sketch.frequency(victim_hash)),
    {
        self.frequency_sketch.frequency(candidate_hash) > self.frequency_sketch.frequency(
            victim_hash,
        )
    }

    /// The hash that the entry at `slot` is counted by.
    fn hash_at(&self, slot: usize) -> (hash: u64)
        requires
            self@.records.contains_key(slot),
        ensures
            hash == self@.records[slot].hash,
    {
        match self.records.get(slot) {
            Some(record) => record.hash,
            None => 0,
        }
    }

    /// Gives the inserted entry its places in the queues, behind all others.
    fn push_back(&mut self, slot: usize)
        requires
            old(self).wf(),
            old(self)@.insertable(slot),
        ensures
            final(self).wf(),
            final(self).same_setup(old(self)),
            final(self)@ == old(self)@.admitted(slot),
    {
        proof {
            self@.lemma_admitted(slot);
            self.records.lemma_slots();
        }
        self.deques.push_back_ao(slot);
        if self.time_to_live.is_some() {
            self.deques.push_back_wo(slot);
        }
    }

    /// Evicts the entry at `victim`. Where it has already left the store, its place in
    /// the order of use goes.
    fn evict_victim(&mut self, victim: usize)
        requires
            old(self).wf(),
            old(self)@.records.contains_key(victim),
        ensures
            final(self).wf(),
            final(self).same_setup(old(self)),
            final(self)@ == old(self)@.victim_evicted(victim),
    {
        proof {
            self@.lemma_victim_evicted(victim);
        }
        if self.is_live(victim) {
            self.remove_key_of(victim);
            self.unlink(victim);
        } else {
            self.deques.unlink_ao(victim);
            self.retired.push(victim);
        }
    }

    /// Takes the inserted entry out of the store again, if it is still there.
    fn reject_candidate(&mut self, slot: usize)
        requires
            old(self).wf(),
            old(self)@.records.contains_key(slot),
        ensures
            final(self).wf(),
            final(self).same_setup(old(self)),
            final(self)@ == old(self)@.candidate_rejected(slot),
    {
        proof {
            self@.lemma_candidate_rejected(slot);
        }
        if self.is_live(slot) {
            self.remove_key_of(slot);
        }
        self.retired.push(slot);
    }

    /// Applies an insertion: within the capacity the entry is admitted; beyond it the
    /// entry competes with the least recently used one, and is turned away where there
    /// is none. The record has had the time of the insertion since it was made.
    pub fn handle_insert(&mut self, slot: usize)
        requires
            old(self).wf(),
            old(self)@.insertable(slot),
        ensures
            final(self).wf(),
            final(self).same_setup(old(self)),
            final(self)@ == old(self)@.insert_applied(slot),
    {
        if self.store.len() <= self.max_capacity {
            self.push_back(slot);
            return;
        }
        if self.deques.peek_front_ao(CacheRegion::MainProbation).is_none() {
            self.reject_candidate(slot);
            return;
        }
        let victim: usize = self.find_cache_victim();
        if self.admits(self.hash_at(slot), self.hash_at(victim)) {
            proof {
                self@.lemma_victim_evicted(victim);
            }
            self.evict_victim(victim);
            self.push_back(slot);
        } else {
            self.reject_candidate(slot);
        }
    }

    /// Applies one write.
    fn apply_write(&mut self, op: WriteOp)
        requires
            old(self).wf(),
            old(self)@.recordable(op),
        ensures
            final(self).wf(),
            final(self).same_setup(old(self)),
            final(self)@ == old(self)@.write_applied(op),
    {
        proof {
            self@.lemma_write_applied(op);
        }
        match op {
            WriteOp::Insert(slot) => {
                self.handle_insert(slot);
            },
            WriteOp::Update(slot) => {
                self.deques.move_to_back_ao(slot);
                self.deques.move_to_back_wo(slot);
            },
            WriteOp::Remove(slot) => {
                self.unlink(slot);
            },
        }
    }

    /// Applies up to `count` of the writes that wait, oldest first.
    pub fn apply_writes(&mut self, count: usize)
        requires
            old(self).wf(),
        ensures
            final(self).wf(),
            final(self).same_setup(old(self)),
            final(self)@ == old(self)@.writes_applied(count as nat),
    {
        let mut i: usize = 0;
        while i < count
            invariant_except_break
                i <= count,
                self@.writes_applied((count - i) as nat) == old(self)@.writes_applied(count as nat),
            invariant
                self.wf(),
                self.same_setup(old(self)),
            ensures
                self@ == old(self)@.writes_applied(count as nat),
            decreases count - i,
        {
            proof {
                if self@.writes.len() > 0 {
                    self@.lemma_write_taken();
                }
            }
            match self.write_log.try_recv() {
                Some(op) => {
                    self.apply_write(op);
                },
                None => {
                    break;
                },
            }
            i = i + 1;
        }
    }

    // Expiry.

    /// Removes up to `batch_size` entries that have outlived the time to live,
    /// least recently written first.
    pub fn remove_expired_wo(&mut self, batch_size: usize, now: u64)
        requires
            old(self).wf(),
        ensures
            final(self).wf(),
            final(self).same_setup(old(self)),
            final(self)@ == old(self)@.expired_removed_wo(batch_size as nat, now),
    {
        let mut i: usize = 0;
        while i < batch_size
            invariant_except_break
                i <= batch_size,
                self@.expired_removed_wo((batch_size - i) as nat, now)
                    == old(self)@.expired_removed_wo(batch_size as nat, now),
            invariant
                self.wf(),
                self.same_setup(old(self)),
            ensures
                self@ == old(self)@.expired_removed_wo(batch_size as nat, now),
            decreases batch_size - i,
        {
            let slot: usize = match self.deques.peek_front_wo() {
                Some(slot) => slot,
                None => {
                    break;
                },
            };
            proof {
                self@.lemma_front_discarded_wo();
            }
            let past: bool = match self.records.get(slot) {
                Some(record) => self.is_expired_entry_wo(record, now),
                None => false,
            };
            if !past {
                break;
            }
            if self.is_live(slot) {
                self.remove_key_of(slot);
                self.unlink(slot);
            } else {
                self.deques.pop_front_wo();
                self.retired.push(slot);
            }
            i = i + 1;
        }
    }

    /// Removes up to `batch_size` entries of a region that have outlived the time
    /// to idle, least recently used first.
    pub fn remove_expired_ao(&mut self, region: CacheRegion, batch_size: usize, now: u64)
        requires
            old(self).wf(),
        ensures
            final(self).wf(),
            final(self).same_setup(old(self)),
            final(self)@ == old(self)@.expired_removed_ao(region, batch_size as nat, now),
    {
        let mut i: usize = 0;
        while i < batch_size
            invariant_except_break
                i <= batch_size,
                self@.expired_removed_ao(region, (batch_size - i) as nat, now)
                    == old(self)@.expired_removed_ao(region, batch_size as nat, now),
            invariant
                self.wf(),
                self.same_setup(old(self)),
            ensures
                self@ == old(self)@.expired_removed_ao(region, batch_size as nat, now),
            decreases batch_size - i,
        {
            let slot: usize = match self.deques.peek_front_ao(region) {
                Some(slot) => slot,
                None => {
                    break;
                },
            };
            proof {
                self@.lemma_front_discarded_ao(region);
            }
            let past: bool = match self.records.get(slot) {
                Some(record) => self.is_expired_entry_ao(record, now),
                None => false,
            };
            if !past {
                break;
            }
            if self.is_live(slot) {
                self.remove_key_of(slot);
                self.unlink(slot);
            } else {
                self.deques.pop_front_ao(region);
                self.retired.push(slot);
            }
            i = i + 1;
        }
    }

    /// Removes entries that have expired at `now`, up to `batch_size` from each
    /// queue.
    pub fn evict(&mut self, batch_size: usize, now: u64)
        requires
            old(self).wf(),
        ensures
            final(self).wf(),
            final(self).same_setup(old(self)),
            final(self)@ == old(self)@.evicted(batch_size as nat, now),
    {
        proof {
            self@.lemma_evicted(batch_size as nat, now);
        }
        if self.time_to_live.is_some() {
            self.remove_expired_wo(batch_size, now);
        }
        if self.time_to_idle.is_some() {
            self.remove_expired_ao(CacheRegion::Window, batch_size, now);
            self.remove_expired_ao(CacheRegion::MainProbation, batch_size, now);
            self.remove_expired_ao(CacheRegion::MainProtected, batch_size, now);
        }
    }

    // Maintenance.

    /// Releases the records at retired slots that are not in use. The one at `spared`
    /// stays, and stays retired.
    fn collect(&mut self, spared: Option<usize>)
        requires
            old(self).wf(),
            old(self)@.reads.len() == 0,
            old(self)@.writes.len() == 0,
        ensures
            final(self).wf(),
            final(self).same_setup(old(self)),
            final(self)@ == old(self)@.collected_sparing(spared),
    {
        let ghost before = self@;
        proof {
            before.lemma_collected(spared);
        }
        let n: usize = self.retired.len();
        let mut i: usize = 0;
        while i < n
            invariant
                i <= n,
                n == before.retired.len(),
                self@ == (CacheState { records: self@.records, ..before }),
                self.same_setup(old(self)),
                self.records.wf(),
                self.deques.wf(),
                self.frequency_sketch.wf(),
                self.read_log.capacity() == READ_LOG_SIZE,
                self.write_log.capacity() == WRITE_LOG_SIZE,
                obeys_key_model::<K>(),
                builds_valid_hashers::<S>(),
                forall|slot: usize| #[trigger]
                    self@.records.contains_key(slot) <==> before.records.contains_key(slot) && (
                    before.in_use(slot) || spared == Some(slot) || !before.retired.take(
                        i as int,
                    ).contains(slot)),
                forall|slot: usize| #[trigger]
                    self@.records.contains_key(slot) ==> self@.records[slot]
                        == before.records[slot],
            decreases n - i,
        {
            let slot: usize = self.retired[i];
            proof {
                let t = before.retired.take(i as int);
                let u = before.retired.take(i + 1);
                assert(u =~= t.push(slot));
                assert(u[i as int] == slot);
                assert forall|x: usize| x != slot implies (#[trigger] u.contains(x) <==> t.contains(
                    x,
                )) by {
                    if t.contains(x) {
                        assert(u[t.index_of(x)] == x);
                    }
                    if u.contains(x) {
                        assert(t[u.index_of(x)] == x);
                    }
                }
            }
            let is_spared: bool = match spared {
                Some(kept) => kept == slot,
                None => false,
            };
            if !is_spared && self.records.get(slot).is_some() {
                assert(self@.in_use(slot) == before.in_use(slot));
                if !self.deques.contains(slot) && !self.is_live(slot) {
                    self.records.release(slot);
                }
            }
            i = i + 1;
        }
        self.retired.clear();
        if let Some(slot) = spared {
            self.retired.push(slot);
        }
        proof {
            assert(before.retired.take(n as int) =~= before.retired);
            assert(self@.records =~= before.collected_sparing(spared).records);
            assert(self@.retired =~= before.collected_sparing(spared).retired);
        }
    }

    /// Applies the reads and then the writes that wait.
    pub fn apply_pending(&mut self)
        requires
            old(self).wf(),
        ensures
            final(self).wf(),
            final(self).same_setup(old(self)),
            final(self)@ == old(self)@.pending_applied(),
    {
        proof {
            self@.lemma_reads_applied(self@.reads.len());
        }
        let r_len: usize = self.read_log.len();
        if r_len > 0 {
            self.apply_reads(r_len);
        }
        let w_len: usize = self.write_log.len();
        if w_len > 0 {
            self.apply_writes(w_len);
        }
    }

    /// Runs rounds of maintenance at `now`, at most one more than `max_repeats`, for as
    /// long as the logs call for it, and then lets records go but for the one at `spared`.
    /// Nobody adds to the logs meanwhile, so one round does, and the normal pace is asked
    /// for.
    fn do_sync(&mut self, max_repeats: usize, now: u64, spared: Option<usize>) -> (pace: Option<
        SyncPace,
    >)
        requires
            old(self).wf(),
        ensures
            final(self).wf(),
            final(self).same_setup(old(self)),
            final(self)@ == old(self)@.round_done(now).collected_sparing(spared),
            final(self)@.writes.len() == 0,
            pace == Some(SyncPace::Normal),
    {
        let mut calls: usize = 0;
        let mut should_sync: bool = true;
        let ghost before = self@;
        proof {
            before.lemma_synced(now);
            before.lemma_pending_applied();
        }
        while should_sync && calls <= max_repeats
            invariant
                self.wf(),
                self.same_setup(old(self)),
                should_sync ==> calls == 0 && self@ == before,
                !should_sync ==> self@ == before.round_done(now),
                before.pending_applied().same_settings(before),
                before.round_done(now).reads.len() == 0,
                before.round_done(now).writes.len() == 0,
            decreases (if should_sync { 1int } else { 0 }),
        {
            self.apply_pending();
            if self.has_expiry() {
                self.evict(EVICTION_BATCH_SIZE, now);
            }
            calls = calls + 1;
            should_sync = should_apply_reads(self.read_log.len()) || should_apply_writes(
                self.write_log.len(),
            );
        }
        self.collect(spared);
        next_pace(should_sync, self.write_log.len())
    }

    /// Maintenance at `now`: works off the logs and removes what has expired, in at
    /// most one round more than `max_repeats`. Returns the pace to go on with, if that
    /// is to change.
    pub fn sync_at(&mut self, max_repeats: usize, now: u64) -> (pace: Option<SyncPace>)
        requires
            old(self).wf(),
        ensures
            final(self).wf(),
            final(self).same_setup(old(self)),
            final(self)@ == old(self)@.synced(now),
            pace == (if old(self)@.idle() {
                None
            } else {
                Some(SyncPace::Normal)
            }),
    {
        if self.read_log.len() == 0 && self.write_log.len() == 0 && !self.has_expiry() {
            return None;
        }
        self.do_sync(max_repeats, now, None)
    }

    /// Maintenance by the clock.
    pub fn sync(&mut self, max_repeats: usize) -> (pace: Option<SyncPace>)
        requires
            old(self).wf(),
        ensures
            final(self).wf(),
            final(self).same_setup(old(self)),
            exists|now: u64|
                {
                    &&& old(self).time_of_call_is(now)
                    &&& final(self)@ == #[trigger] old(self)@.synced(now)
                },
            pace == (if old(self)@.idle() {
                None
            } else {
                Some(SyncPace::Normal)
            }),
    {
        let now: u64 = self.time_of_call();
        self.sync_at(max_repeats, now)
    }

    // Lookups and writes.

    /// How many reads wait to be applied.
    pub fn waiting_reads(&self) -> (n: usize)
        ensures
            n == self@.reads.len(),
    {
        self.read_log.len()
    }

    /// How many writes wait to be applied.
    pub fn waiting_writes(&self) -> (n: usize)
        ensures
            n == self@.writes.len(),
    {
        self.write_log.len()
    }

    /// Notes that the entry at `slot` was accessed at `now`.
    pub fn set_last_accessed(&mut self, slot: usize, now: u64)
        requires
            old(self).wf(),
            old(self)@.records.contains_key(slot),
        ensures
            final(self).wf(),
            final(self).same_setup(old(self)),
            final(self)@ == old(self)@.with_record(
                slot,
                old(self)@.records[slot].accessed(now),
            ),
    {
        proof {
            self@.lemma_with_record(slot, self@.records[slot].accessed(now));
        }
        self.records.set_last_accessed(slot, now);
    }

    /// Notes a lookup. Where the log is full, it is not noted.
    pub fn record_read_op(&mut self, op: ReadOp)
        requires
            old(self).wf(),
            old(self)@.read_recorded(op),
        ensures
            final(self).wf(),
            final(self).same_setup(old(self)),
            final(self)@ == old(self)@.read_recorded_as(op),
    {
        proof {
            self@.lemma_read_recorded(op);
        }
        match self.read_log.try_send(op) {
            Ok(_) => {},
            Err(_) => {},
        }
    }

    /// Notes a write. Where the log is full, it is worked off first.
    fn schedule_write_op(&mut self, op: WriteOp, now: u64)
        requires
            old(self).wf(),
            old(self)@.recordable(op),
        ensures
            final(self).wf(),
            final(self).same_setup(old(self)),
            final(self)@ == old(self)@.write_recorded_as(op).relieved(now),
    {
        proof {
            self@.lemma_write_recorded(op);
            self@.write_recorded_as(op).lemma_relieved(now);
        }
        let slot: usize = match op {
            WriteOp::Insert(slot) => slot,
            WriteOp::Update(slot) => slot,
            WriteOp::Remove(slot) => slot,
        };
        if self.write_log.len() >= WRITE_LOG_SIZE {
            proof {
                self@.lemma_noted_late(op, now);
            }
            self.do_sync(MAX_SYNC_REPEATS, now, Some(slot));
        }
        match self.write_log.try_send(op) {
            Ok(_) => {},
            Err(_) => {},
        }
    }

    /// Puts a value under a key at `now`, and notes that: a new entry, or another value
    /// of the entry that the store holds. Where the log is full, it is worked off in
    /// between.
    pub fn insert(&mut self, key: K, hash: u64, value: V, now: u64)
        requires
            old(self).wf(),
        ensures
            final(self).wf(),
            final(self).same_setup(old(self)),
            exists|slot: usize|
                {
                    &&& !old(self)@.records.contains_key(slot)
                    &&& final(self)@ == #[trigger] old(self)@.inserted(
                        key,
                        value,
                        hash,
                        slot,
                        now,
                    ).relieved(now)
                },
    {
        let slot: usize = self.records.vacant();
        let ghost before = self@;
        proof {
            before.lemma_inserted(key, value, hash, slot, now);
            if before.store.contains_key(key) {
                reveal(CacheState::valid);
                assert(before.entry_recorded(key));
                assert(before.record_stamped(before.store[key].slot));
                before.lemma_value_put(
                    key,
                    value,
                    before.store[key].slot,
                    before.records[before.store[key].slot].written(now),
                );
            } else {
                before.lemma_value_put(key, value, slot, before.new_record(key, hash, now));
            }
        }
        let ghost k = key;
        let ghost v = value;
        let key = Arc::new(key);
        let value = Arc::new(value);
        let stored: &Arc<V> = &value;
        let on_insert = || -> (entry: Arc<ValueEntry<V>>)
            ensures
                &entry.value == stored,
                entry.slot == slot,
            { Arc::new(ValueEntry { value: share(stored), slot }) };
        let on_modify = |_key: &Arc<K>, old_entry: &Arc<ValueEntry<V>>| -> (entry: Arc<
            ValueEntry<V>,
        >)
            ensures
                &entry.value == stored,
                entry.slot == old_entry.slot,
            { Arc::new(ValueEntry { value: share(stored), slot: old_entry.slot }) };
        let op = match self.store.insert_with_or_modify(share(&key), on_insert, on_modify) {
            None => {
                let last_accessed = if self.time_to_idle.is_some() {
                    Some(now)
                } else {
                    None
                };
                let last_modified = if self.time_to_live.is_some() {
                    Some(now)
                } else {
                    None
                };
                self.records.allocate(Record { key, hash, last_accessed, last_modified });
                WriteOp::Insert(slot)
            },
            Some(old_entry) => {
                self.records.set_last_modified(old_entry.slot, now);
                WriteOp::Update(old_entry.slot)
            },
        };
        assert(self@.write_recorded_as(op) == before.inserted(k, v, hash, slot, now));
        self.schedule_write_op(op, now);
        assert(self@ == before.inserted(k, v, hash, slot, now).relieved(now));
    }

    /// Takes the entry of `key` out of the store, and notes that, if there is one. Where
    /// the log is full, it is worked off in between. Says whether there was an entry.
    pub fn invalidate(&mut self, key: &K, now: u64) -> (removed: bool)
        requires
            old(self).wf(),
        ensures
            final(self).wf(),
            final(self).same_setup(old(self)),
            removed == old(self)@.store.contains_key(*key),
            final(self)@ == (if removed {
                old(self)@.invalidated(*key).relieved(now)
            } else {
                old(self)@
            }),
    {
        proof {
            self@.lemma_removed(*key);
            if self@.store.contains_key(*key) {
                reveal(CacheState::valid);
                assert(self@.entry_recorded(*key));
            } else {
                assert(self@.store.remove(*key) =~= self@.store);
            }
        }
        match self.store.remove(key) {
            Some(entry) => {
                self.schedule_write_op(WriteOp::Remove(entry.slot), now);
                true
            },
            None => false,
        }
    }

    /// How many entries the store holds.
    pub fn len(&self) -> (n: usize)
        ensures
            n == self@.store.dom().len(),
    {
        self.store.len()
    }

    /// How many entries the cache is to hold at most.
    pub fn max_capacity(&self) -> (n: usize)
        ensures
            n == self@.max_capacity,
    {
        self.max_capacity
    }

    /// How long an entry lives after it was written.
    pub fn time_to_live(&self) -> (d: Option<Duration>)
        ensures
            d == self.durations().0,
            policy_nanos(d) == self@.time_to_live,
    {
        self.time_to_live
    }

    /// How long an entry lives after it was last used.
    pub fn time_to_idle(&self) -> (d: Option<Duration>)
        ensures
            d == self.durations().1,
            policy_nanos(d) == self@.time_to_idle,
    {
        self.time_to_idle
    }

    /// Makes expiry go by `clock`, or by the global clock where there is none.
    pub fn set_expiration_clock(&mut self, clock: Option<quanta::Clock>)
        requires
            old(self).wf(),
        ensures
            final(self).wf(),
            final(self).durations() == old(self).durations(),
            final(self).hashes() == old(self).hashes(),
            final(self).clock() == clock,
            final(self)@ == old(self)@,
    {
        self.expiration_clock = clock;
    }
}

} // verus!
