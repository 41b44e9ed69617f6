//! The cache.

use crate::common::clock::{clock_now, instant_now, law_time_is_read, policy_nanos, read_from};
use crate::common::entry::{ReadOp, ValueEntry};
use crate::common::housekeeper::{pace_nanos, Housekeeper, SyncPace};
use crate::common::key_hasher::random_state;
use crate::sync::inner::Inner;
use crate::sync::state::{
    reads_due, should_apply_reads, should_apply_writes, writes_due, CacheState, MAX_SYNC_REPEATS,
    READ_LOG_SIZE, WRITE_LOG_HIGH_WATER_MARK, WRITE_LOG_SIZE,
};
use std::collections::hash_map::RandomState;
use std::hash::BuildHasher;
use std::hash::Hash;
use std::time::Duration;
use vstd::prelude::*;
use vstd::std_specs::hash::{builds_valid_hashers, obeys_key_model};

verus! {

/// How long a writer is to pause where many writes wait.
pub const WRITE_THROTTLE_MICROS: u64 = 15;

/// Whether `clone` is what cloning the value, if there is one, may give.
pub open spec fn is_clone_of<V: Clone>(value: Option<V>, clone: Option<V>) -> bool {
    match (value, clone) {
        (Some(v), Some(c)) => cloned(v, c),
        (None, None) => true,
        _ => false,
    }
}

/// A clone of a value is there exactly where the value is, and is what cloning it gives.
pub proof fn law_clone_is_of_the_value<V: Clone>(value: Option<V>, clone: Option<V>)
    requires
        is_clone_of(value, clone),
    ensures
        value is Some <==> clone is Some,
        value is Some ==> cloned(value->Some_0, clone->Some_0),
{
}

/// An in-memory cache that keeps its number of entries near a maximum.
///
/// A value stays under its key until it is evicted, expires or is invalidated.
/// Lookups and writes work on the store at once and are noted in logs; `sync`
/// works off the logs, and only then are entries evicted. Beyond the maximum, a
/// new entry stays only where it was asked for more often than the least
/// recently used entry, which then goes.
///
/// With a time to live, an entry expires when that time has passed since it was
/// written; with a time to idle, when that time has passed since it was last read
/// or written. An expired entry is not found, and maintenance removes it.
///
/// Who calls holds the cache exclusively. To share it among threads, put it behind a
/// lock, and run `sync` whenever `is_sync_scheduled` says so, or when
/// `sync_interval_nanos` have passed.
///
/// `get` returns a clone of the value. A value that is expensive to clone is best
/// wrapped in an `Arc`.
#[verifier::reject_recursive_types(K)]
#[verifier::reject_recursive_types(V)]
#[verifier::reject_recursive_types(S)]
pub struct Cache<K, V, S = RandomState> {
    inner: Inner<K, V, S>,
    housekeeper: Housekeeper,
}

impl<K, V, S> View for Cache<K, V, S> {
    type V = CacheState<K, V>;

    closed spec fn view(&self) -> CacheState<K, V> {
        self.inner@
    }
}

impl<K: Hash + Eq, V: Clone> Cache<K, V, RandomState> {
    /// A cache that is to hold up to `max_capacity` entries, none of which
    /// expires.
    pub fn new(max_capacity: usize) -> (cache: Self)
        requires
            obeys_key_model::<K>(),
            max_capacity <= usize::MAX / 32,
        ensures
            cache.wf(),
            cache@ == (CacheState::<K, V>::fresh(max_capacity as nat, None, None)),
            cache@.max_capacity == max_capacity,
            cache@.time_to_live is None,
            cache@.time_to_idle is None,
            cache@.store == (Map::<K, ValueEntry<V>>::empty()),
            cache@.reads.len() == 0,
            cache@.writes.len() == 0,
            cache.durations() == (None::<Duration>, None::<Duration>),
            cache.clock() is None,
            !cache.sync_scheduled(),
            cache.sync_pace() == SyncPace::Normal,
    {
        let build_hasher = random_state();
        Cache::with_everything(max_capacity, None, build_hasher, None, None)
    }
}

impl<K: Hash + Eq, V, S: BuildHasher + Clone> Cache<K, V, S> {
    /// Whether the parts of the cache agree with each other.
    pub closed spec fn wf(&self) -> bool {
        &&& self.inner.wf()
        &&& self.inner@.complete()
        &&& self.inner@.bounded()
        &&& self.inner@.reads.len() <= READ_LOG_SIZE
        &&& self.inner@.writes.len() <= WRITE_LOG_SIZE
    }

    /// The hash that the cache counts each key by: what a fresh hasher of its hash builder
    /// gives that is fed with the key.
    pub closed spec fn hashes(&self) -> spec_fn(K) -> u64 {
        self.inner.hashes()
    }

    /// The hash that the cache counts `key` by.
    pub open spec fn hash_of(&self, key: K) -> u64 {
        (self.hashes())(key)
    }

    /// Whether maintenance was asked for and has not run since.
    pub closed spec fn sync_scheduled(&self) -> bool {
        self.housekeeper.scheduled()
    }

    /// The pace at which maintenance is to run.
    pub closed spec fn sync_pace(&self) -> SyncPace {
        self.housekeeper.pace()
    }

    /// The time to live and the time to idle.
    pub closed spec fn durations(&self) -> (Option<Duration>, Option<Duration>) {
        self.inner.durations()
    }

    /// The clock that expiry goes by, where it is not the global one.
    pub closed spec fn clock(&self) -> Option<quanta::Clock> {
        self.inner.clock()
    }

    /// Whether the hashes, the durations and the clock are those of `other`.
    pub open spec fn same_setup(&self, other: &Self) -> bool {
        &&& self.durations() == other.durations()
        &&& self.clock() == other.clock()
        &&& self.hashes() == other.hashes()
    }

    /// Whether a call can be made at `now`: where entries expire, that was read from the
    /// clock.
    pub open spec fn time_of_call_is(&self, now: u64) -> bool {
        if self@.has_expiry() {
            read_from(self.clock(), now)
        } else {
            now == 0
        }
    }

    /// What a write leaves of the request for maintenance and of its pace. Where the log of
    /// writes was full, maintenance has run.
    pub open spec fn housekept(&self, before: &Self) -> bool {
        if before@.writes.len() >= WRITE_LOG_SIZE {
            &&& !self.sync_scheduled()
            &&& self.sync_pace() == SyncPace::Normal
        } else {
            &&& self.sync_scheduled() == (before.sync_scheduled() || writes_due(
                before@.writes.len(),
            ))
            &&& self.sync_pace() == before.sync_pace()
        }
    }

    /// The time of a call on a cache whose entries expire is what `quanta::Clock::now` gave
    /// of the clock that was set, or what `quanta::Instant::now` gave where none was.
    pub(crate) proof fn law_time_of_call_is_read(&self, now: u64)
        requires
            self.time_of_call_is(now),
            self@.time_to_live is Some || self@.time_to_idle is Some,
        ensures
            self.clock() is None ==> call_ensures(instant_now, (), now),
            self.clock() is Some ==> call_ensures(clock_now, (&self.clock()->Some_0,), now),
    {
        law_time_is_read(self.clock(), now);
    }

    /// Caches with the same setup have the same durations and the same clock, and count
    /// each key by the same hash.
    pub proof fn law_same_setup(&self, other: &Self, key: K)
        requires
            self.same_setup(other),
        ensures
            self.durations() == other.durations(),
            self.clock() == other.clock(),
            self.hash_of(key) == other.hash_of(key),
    {
    }

    /// A write asks for maintenance exactly where maintenance was asked for before, or at
    /// least 512 writes waited; with 3,072 waiting, maintenance has run instead, and goes
    /// on at the normal pace.
    pub proof fn law_write_asks_for_maintenance(&self, before: &Self)
        requires
            self.housekept(before),
        ensures
            before@.writes.len() < 3_072 ==> {
                &&& self.sync_scheduled() <==> before.sync_scheduled() || before@.writes.len()
                    >= 512
                &&& self.sync_pace() == before.sync_pace()
            },
            before@.writes.len() >= 3_072 ==> !self.sync_scheduled() && self.sync_pace()
                == SyncPace::Normal,
    {
    }

    /// The hash of a key is that of the parts of the cache.
    proof fn law_hash_is_of_the_key(&self, key: K)
        ensures
            self.hash_of(key) == self.inner.hash_of(key),
            self.clock() == self.inner.clock(),
            self.durations() == self.inner.durations(),
            self@ == self.inner@,
    {
    }

    /// In a well-formed cache each entry has its record, and its places or an insertion
    /// that waits; there are no more places than the maximum, but for one that the next
    /// write takes out; and no more operations wait than the logs have room for.
    pub proof fn lemma_valid(&self)
        requires
            self.wf(),
        ensures
            self@.valid(),
            self@.complete(),
            self@.bounded(),
            self@.reads.len() <= READ_LOG_SIZE,
            self@.writes.len() <= WRITE_LOG_SIZE,
    {
        self.inner.lemma_valid();
    }

    /// A cache that is to hold up to `max_capacity` entries, with room for
    /// `initial_capacity` of them from the start. An entry expires when the time
    /// to live has passed since it was written, or the time to idle since it was
    /// last used.
    pub fn with_everything(
        max_capacity: usize,
        initial_capacity: Option<usize>,
        build_hasher: S,
        time_to_live: Option<Duration>,
        time_to_idle: Option<Duration>,
    ) -> (cache: Self)
        requires
            obeys_key_model::<K>(),
            builds_valid_hashers::<S>(),
            max_capacity <= usize::MAX / 32,
            initial_capacity is Some ==> initial_capacity->Some_0 + 4 * WRITE_LOG_SIZE
                <= usize::MAX / 64,
        ensures
            cache.wf(),
            cache@ == (CacheState::<K, V>::fresh(
                max_capacity as nat,
                policy_nanos(time_to_live),
                policy_nanos(time_to_idle),
            )),
            cache@.max_capacity == max_capacity,
            cache@.time_to_live == policy_nanos(time_to_live),
            cache@.time_to_idle == policy_nanos(time_to_idle),
            cache@.store == (Map::<K, ValueEntry<V>>::empty()),
            cache@.reads.len() == 0,
            cache@.writes.len() == 0,
            cache.durations() == (time_to_live, time_to_idle),
            cache.clock() is None,
            !cache.sync_scheduled(),
            cache.sync_pace() == SyncPace::Normal,
    {
        proof {
            reveal(CacheState::complete);
        }
        Cache {
            inner: Inner::new(
                max_capacity,
                initial_capacity,
                build_hasher,
                time_to_live,
                time_to_idle,
            ),
            housekeeper: Housekeeper::new(),
        }
    }

    /// How many entries the cache is to hold at most.
    pub fn max_capacity(&self) -> (n: usize)
        ensures
            n == self@.max_capacity,
    {
        self.inner.max_capacity()
    }

    /// How long an entry lives after it was written.
    pub fn time_to_live(&self) -> (d: Option<Duration>)
        ensures
            d == self.durations().0,
            policy_nanos(d) == self@.time_to_live,
    {
        self.inner.time_to_live()
    }

    /// How long an entry lives after it was last used.
    pub fn time_to_idle(&self) -> (d: Option<Duration>)
        ensures
            d == self.durations().1,
            policy_nanos(d) == self@.time_to_idle,
    {
        self.inner.time_to_idle()
    }

    /// The number of segments: the cache is not segmented.
    pub fn num_segments(&self) -> (n: usize)
        ensures
            n == 1,
    {
        1
    }

    /// How many entries the store holds. Those that have expired count until
    /// maintenance removes them.
    pub fn len(&self) -> (n: usize)
        ensures
            n == self@.store.dom().len(),
    {
        self.inner.len()
    }

    /// Whether the store holds nothing.
    pub fn is_empty(&self) -> (b: bool)
        ensures
            b == (self@.store.dom().len() == 0),
    {
        self.inner.len() == 0
    }

    /// Makes expiry go by `clock`, or by the global clock where there is none.
    pub fn set_expiration_clock(&mut self, clock: Option<quanta::Clock>)
        requires
            old(self).wf(),
        ensures
            final(self).wf(),
            final(self)@ == old(self)@,
            final(self).clock() == clock,
            final(self).durations() == old(self).durations(),
            final(self).hashes() == old(self).hashes(),
            final(self).sync_scheduled() == old(self).sync_scheduled(),
            final(self).sync_pace() == old(self).sync_pace(),
    {
        self.inner.set_expiration_clock(clock);
    }

    /// Whether maintenance was asked for and has not run since.
    pub fn is_sync_scheduled(&self) -> (scheduled: bool)
        ensures
            scheduled == self.sync_scheduled(),
    {
        self.housekeeper.is_scheduled()
    }

    /// How long to wait before maintenance runs again, in nanoseconds.
    pub fn sync_interval_nanos(&self) -> (nanos: u64)
        ensures
            nanos == pace_nanos(self.sync_pace()),
    {
        self.housekeeper.interval_nanos()
    }

    /// For how many microseconds a writer is to pause before it writes, if it is
    /// to: where many writes wait.
    pub fn throttle_write_pace(&self) -> (micros: Option<u64>)
        ensures
            micros == (if self@.writes.len() >= WRITE_LOG_HIGH_WATER_MARK {
                Some(WRITE_THROTTLE_MICROS)
            } else {
                None
            }),
            micros is Some <==> self@.writes.len() >= 1_536,
            micros is Some ==> micros->Some_0 == 15,
    {
        if self.inner.waiting_writes() >= WRITE_LOG_HIGH_WATER_MARK {
            Some(WRITE_THROTTLE_MICROS)
        } else {
            None
        }
    }

    /// Asks for maintenance where enough reads wait.
    fn apply_reads_if_needed(&mut self)
        requires
            old(self).wf(),
        ensures
            final(self).wf(),
            final(self)@ == old(self)@,
            final(self).same_setup(old(self)),
            final(self).sync_scheduled() == (old(self).sync_scheduled() || reads_due(
                old(self)@.reads.len(),
            )),
            final(self).sync_pace() == old(self).sync_pace(),
    {
        if should_apply_reads(self.inner.waiting_reads()) {
            self.housekeeper.try_schedule_sync();
        }
    }

    /// Asks for maintenance where as many writes waited before another came, and notes
    /// that it has run where they filled the log.
    fn apply_reads_writes_if_needed(&mut self, waiting: usize)
        ensures
            final(self).inner == old(self).inner,
            waiting >= WRITE_LOG_SIZE ==> !final(self).sync_scheduled() && final(self).sync_pace()
                == SyncPace::Normal,
            waiting < WRITE_LOG_SIZE ==> final(self).sync_scheduled() == (old(
                self,
            ).sync_scheduled() || writes_due(waiting as nat)) && final(self).sync_pace() == old(
                self,
            ).sync_pace(),
    {
        if waiting >= WRITE_LOG_SIZE {
            self.housekeeper.sync_done(Some(SyncPace::Normal));
        } else if should_apply_writes(waiting) {
            self.housekeeper.try_schedule_sync();
        }
    }

    /// Maintenance by the clock: applies what waits in the logs, the reads first;
    /// evicts; and removes what has expired. Afterwards the cache holds no more entries
    /// than its maximum.
    pub fn sync(&mut self)
        requires
            old(self).wf(),
        ensures
            final(self).wf(),
            final(self).same_setup(old(self)),
            exists|now: u64|
                {
                    &&& old(self).time_of_call_is(now)
                    &&& final(self)@ == #[trigger] old(self)@.synced(now)
                },
            final(self)@.same_settings(old(self)@),
            final(self)@.store.dom().len() <= old(self)@.max_capacity,
            !final(self).sync_scheduled(),
            final(self).sync_pace() == (if old(self)@.idle() {
                old(self).sync_pace()
            } else {
                SyncPace::Normal
            }),
    {
        let now: u64 = self.inner.time_of_call();
        self.sync_at(now)
    }

    /// Maintenance at `now`.
    pub fn sync_at(&mut self, now: u64)
        requires
            old(self).wf(),
        ensures
            final(self).wf(),
            final(self).same_setup(old(self)),
            final(self)@ == old(self)@.synced(now),
            final(self)@.same_settings(old(self)@),
            final(self)@.store.dom().len() <= old(self)@.max_capacity,
            !final(self).sync_scheduled(),
            final(self).sync_pace() == (if old(self)@.idle() {
                old(self).sync_pace()
            } else {
                SyncPace::Normal
            }),
    {
        proof {
            self.lemma_valid();
            self@.lemma_synced(now);
            self@.lemma_synced_complete(now);
            self@.synced(now).lemma_settled();
        }
        let pace = self.inner.sync_at(MAX_SYNC_REPEATS, now);
        self.housekeeper.sync_done(pace);
    }
}

impl<K: Hash + Eq, V: Clone, S: BuildHasher + Clone> Cache<K, V, S> {
    /// A clone of the value under `key`, if there is one that has not expired by the
    /// clock.
    pub fn get(&mut self, key: &K) -> (value: Option<V>)
        requires
            old(self).wf(),
        ensures
            final(self).wf(),
            final(self).same_setup(old(self)),
            exists|now: u64|
                {
                    &&& old(self).time_of_call_is(now)
                    &&& final(self)@ == #[trigger] old(self)@.looked_up(
                        *key,
                        old(self).hash_of(*key),
                        now,
                    )
                    &&& is_clone_of(old(self)@.lookup(*key, now), value)
                },
            final(self).sync_scheduled() == (old(self).sync_scheduled() || reads_due(
                old(self)@.reads.len(),
            )),
            final(self).sync_pace() == old(self).sync_pace(),
    {
        let hash: u64 = self.inner.hash(key);
        assert(hash == self.hash_of(*key));
        self.get_with_hash(key, hash)
    }

    /// A clone of the value under `key`, if there is one that has not expired by
    /// the clock. The lookup counts for `hash`.
    pub fn get_with_hash(&mut self, key: &K, hash: u64) -> (value: Option<V>)
        requires
            old(self).wf(),
        ensures
            final(self).wf(),
            final(self).same_setup(old(self)),
            exists|now: u64|
                {
                    &&& old(self).time_of_call_is(now)
                    &&& final(self)@ == #[trigger] old(self)@.looked_up(*key, hash, now)
                    &&& is_clone_of(old(self)@.lookup(*key, now), value)
                },
            final(self).sync_scheduled() == (old(self).sync_scheduled() || reads_due(
                old(self)@.reads.len(),
            )),
            final(self).sync_pace() == old(self).sync_pace(),
    {
        let now: u64 = self.inner.time_of_call();
        self.get_with_hash_at(key, hash, now)
    }

    /// A clone of the value under `key`, if there is one that has not expired at
    /// `now`. The entry has then been used at `now`, and the lookup counts for `hash`.
    pub fn get_with_hash_at(&mut self, key: &K, hash: u64, now: u64) -> (value: Option<V>)
        requires
            old(self).wf(),
        ensures
            final(self).wf(),
            final(self).same_setup(old(self)),
            final(self)@ == old(self)@.looked_up(*key, hash, now),
            is_clone_of(old(self)@.lookup(*key, now), value),
            final(self).sync_scheduled() == (old(self).sync_scheduled() || reads_due(
                old(self)@.reads.len(),
            )),
            final(self).sync_pace() == old(self).sync_pace(),
    {
        proof {
            self.lemma_valid();
            self@.lemma_looked_up_complete(*key, hash, now);
        }
        self.apply_reads_if_needed();
        match self.inner.get(key) {
            // Value not found.
            None => {
                self.inner.record_read_op(ReadOp::Miss(hash));
                None
            },
            Some(entry) => {
                if self.inner.is_expired_entry(entry.slot, now) {
                    // Expired entry. This access counts as a miss rather than a hit.
                    self.inner.record_read_op(ReadOp::Miss(hash));
                    None
                } else {
                    // Valid entry.
                    let value = (*entry.value).clone();
                    self.inner.set_last_accessed(entry.slot, now);
                    self.inner.record_read_op(ReadOp::Hit(hash, entry.slot));
                    Some(value)
                }
            },
        }
    }

    /// Puts a value under a key, by the clock. If there is one already, it is replaced.
    /// Where the log of writes is full, maintenance works it off before the write is noted.
    pub fn insert(&mut self, key: K, value: V)
        requires
            old(self).wf(),
        ensures
            final(self).wf(),
            final(self).same_setup(old(self)),
            final(self)@.same_settings(old(self)@),
            exists|now: u64, slot: usize|
                {
                    &&& old(self).time_of_call_is(now)
                    &&& !old(self)@.records.contains_key(slot)
                    &&& final(self)@ == #[trigger] old(self)@.inserted(
                        key,
                        value,
                        old(self).hash_of(key),
                        slot,
                        now,
                    ).relieved(now)
                },
            final(self).housekept(old(self)),
    {
        let hash: u64 = self.inner.hash(&key);
        assert(hash == self.hash_of(key));
        self.insert_with_hash(key, hash, value)
    }

    /// Puts a value under a key that is counted by `hash`, by the clock. If there is one
    /// already, it is replaced. Where the log of writes is full, maintenance works it off
    /// before the write is noted.
    pub fn insert_with_hash(&mut self, key: K, hash: u64, value: V)
        requires
            old(self).wf(),
        ensures
            final(self).wf(),
            final(self).same_setup(old(self)),
            final(self)@.same_settings(old(self)@),
            exists|now: u64, slot: usize|
                {
                    &&& old(self).time_of_call_is(now)
                    &&& !old(self)@.records.contains_key(slot)
                    &&& final(self)@ == #[trigger] old(self)@.inserted(
                        key,
                        value,
                        hash,
                        slot,
                        now,
                    ).relieved(now)
                },
            final(self).housekept(old(self)),
    {
        let now: u64 = self.inner.time_of_call();
        self.insert_with_hash_at(key, hash, value, now)
    }

    /// Puts a value under a key that is counted by `hash`, at `now`. If there is one
    /// already, it is replaced. Where the log of writes is full, maintenance works it off
    /// before the write is noted.
    pub fn insert_with_hash_at(&mut self, key: K, hash: u64, value: V, now: u64)
        requires
            old(self).wf(),
        ensures
            final(self).wf(),
            final(self).same_setup(old(self)),
            final(self)@.same_settings(old(self)@),
            exists|slot: usize|
                {
                    &&& !old(self)@.records.contains_key(slot)
                    &&& final(self)@ == #[trigger] old(self)@.inserted(
                        key,
                        value,
                        hash,
                        slot,
                        now,
                    ).relieved(now)
                },
            final(self).housekept(old(self)),
    {
        let ghost before = self@;
        proof {
            self.lemma_valid();
            assert forall|slot: usize| !before.records.contains_key(slot) implies {
                let after = #[trigger] before.inserted(key, value, hash, slot, now).relieved(now);
                &&& after.complete()
                &&& after.bounded()
                &&& after.same_settings(before)
                &&& after.reads.len() <= READ_LOG_SIZE
                &&& after.writes.len() <= WRITE_LOG_SIZE
            } by {
                let noted = before.inserted(key, value, hash, slot, now);
                before.lemma_inserted(key, value, hash, slot, now);
                before.lemma_inserted_complete(key, value, hash, slot, now);
                noted.lemma_relieved(now);
                noted.lemma_relieved_complete(now);
            }
        }
        let waiting: usize = self.inner.waiting_writes();
        self.inner.insert(key, hash, value, now);
        self.apply_reads_writes_if_needed(waiting);
    }

    /// Discards the value under `key`, if there is one. Where the log of writes is full,
    /// maintenance works it off before the write is noted.
    pub fn invalidate(&mut self, key: &K)
        requires
            old(self).wf(),
        ensures
            final(self).wf(),
            final(self).same_setup(old(self)),
            final(self)@.same_settings(old(self)@),
            !old(self)@.store.contains_key(*key) ==> {
                &&& final(self)@ == old(self)@
                &&& final(self).sync_scheduled() == old(self).sync_scheduled()
                &&& final(self).sync_pace() == old(self).sync_pace()
            },
            old(self)@.store.contains_key(*key) ==> {
                &&& exists|now: u64|
                    {
                        &&& old(self).time_of_call_is(now)
                        &&& final(self)@ == #[trigger] old(self)@.invalidated(*key).relieved(now)
                    }
                &&& final(self).housekept(old(self))
            },
    {
        let now: u64 = self.inner.time_of_call();
        let ghost noted = self@.invalidated(*key);
        proof {
            self.lemma_valid();
            self@.lemma_invalidated(*key);
            self@.lemma_invalidated_complete(*key);
            noted.lemma_relieved(now);
            noted.lemma_relieved_complete(now);
        }
        let waiting: usize = self.inner.waiting_writes();
        if self.inner.invalidate(key, now) {
            self.apply_reads_writes_if_needed(waiting);
        }
    }
}

} // verus!
