//! What a cache holds, and what each of its steps does to that.

use crate::common::clock::expired;
use crate::common::deques::{CacheRegion, DequesState};
use crate::common::entry::{ReadOp, Record, ValueEntry, WriteOp};
use crate::common::frequency_sketch::SketchState;
use crate::common::housekeeper::SyncPace;
use std::sync::Arc;
use vstd::prelude::*;

verus! {

/// How many times a round of maintenance may be repeated in one go.
pub const MAX_SYNC_REPEATS: usize = 4;

/// How many waiting reads call for maintenance.
pub const READ_LOG_FLUSH_POINT: usize = 512;

/// How many reads can wait.
pub const READ_LOG_SIZE: usize = READ_LOG_FLUSH_POINT * (MAX_SYNC_REPEATS + 2);

/// How many waiting writes call for maintenance.
pub const WRITE_LOG_FLUSH_POINT: usize = 512;

/// Up to how many waiting writes maintenance keeps its normal pace.
pub const WRITE_LOG_LOW_WATER_MARK: usize = WRITE_LOG_FLUSH_POINT / 2;

/// From how many waiting writes on a writer is to pause.
pub const WRITE_LOG_HIGH_WATER_MARK: usize = WRITE_LOG_FLUSH_POINT * (MAX_SYNC_REPEATS - 1);

/// How many writes can wait.
pub const WRITE_LOG_SIZE: usize = WRITE_LOG_FLUSH_POINT * (MAX_SYNC_REPEATS + 2);

/// Up to how many expired entries leave each queue in one round.
pub const EVICTION_BATCH_SIZE: usize = 500;

/// Whether this many waiting reads call for maintenance.
pub open spec fn reads_due(len: nat) -> bool {
    len >= READ_LOG_FLUSH_POINT
}

/// Whether this many waiting writes call for maintenance.
pub open spec fn writes_due(len: nat) -> bool {
    len >= WRITE_LOG_FLUSH_POINT
}

/// The pace that maintenance asks for when it stops: the fast one where it is
/// still called for, and the normal one where few writes wait. In between it
/// asks for none.
pub open spec fn pace_after(due: bool, waiting_writes: nat) -> Option<SyncPace> {
    if due {
        Some(SyncPace::Fast)
    } else if waiting_writes <= WRITE_LOG_LOW_WATER_MARK {
        Some(SyncPace::Normal)
    } else {
        None
    }
}

/// Whether this many waiting reads call for maintenance.
pub fn should_apply_reads(len: usize) -> (due: bool)
    ensures
        due == reads_due(len as nat),
{
    len >= READ_LOG_FLUSH_POINT
}

/// Whether this many waiting writes call for maintenance.
pub fn should_apply_writes(len: usize) -> (due: bool)
    ensures
        due == writes_due(len as nat),
{
    len >= WRITE_LOG_FLUSH_POINT
}

/// The pace that maintenance asks for when it stops.
pub fn next_pace(due: bool, waiting_writes: usize) -> (pace: Option<SyncPace>)
    ensures
        pace == pace_after(due, waiting_writes as nat),
{
    if due {
        Some(SyncPace::Fast)
    } else if waiting_writes <= WRITE_LOG_LOW_WATER_MARK {
        Some(SyncPace::Normal)
    } else {
        None
    }
}

/// How many keys the sketch of a cache is made for.
pub open spec fn sketch_capacity(max_capacity: nat) -> nat {
    if 32 * max_capacity > 100 {
        32 * max_capacity
    } else {
        100
    }
}

/// What a cache holds.
#[verifier::reject_recursive_types(K)]
#[verifier::reject_recursive_types(V)]
pub struct CacheState<K, V> {
    /// How many entries the cache is to hold at most.
    pub max_capacity: nat,
    /// In nanoseconds.
    pub time_to_live: Option<nat>,
    /// In nanoseconds.
    pub time_to_idle: Option<nat>,
    /// The entries that a lookup finds.
    pub store: Map<K, ValueEntry<V>>,
    /// What is known of each entry, by slot.
    pub records: Map<usize, Record<K>>,
    /// The order in which entries go.
    pub deques: DequesState,
    /// How often each hash was asked for.
    pub sketch: SketchState,
    /// The reads that wait to be applied, oldest first.
    pub reads: Seq<ReadOp>,
    /// The writes that wait to be applied, oldest first.
    pub writes: Seq<WriteOp>,
    /// Slots whose records may not be needed any more.
    pub retired: Seq<usize>,
}

impl<K, V> CacheState<K, V> {
    /// Whether entries can expire.
    pub open spec fn has_expiry(self) -> bool {
        self.time_to_live is Some || self.time_to_idle is Some
    }

    /// A cache that has just been made.
    pub open spec fn fresh(
        max_capacity: nat,
        time_to_live: Option<nat>,
        time_to_idle: Option<nat>,
    ) -> Self {
        CacheState {
            max_capacity,
            time_to_live,
            time_to_idle,
            store: Map::empty(),
            records: Map::empty(),
            deques: DequesState::empty(),
            sketch: SketchState::fresh(sketch_capacity(max_capacity)),
            reads: Seq::empty(),
            writes: Seq::empty(),
            retired: Seq::empty(),
        }
    }

    // Validity.

    /// Whether the store's entry for `key` has its record.
    pub open spec fn entry_recorded(self, key: K) -> bool {
        let slot = self.store[key].slot;
        self.records.contains_key(slot) && *self.records[slot].key == key
    }

    /// Whether a record keeps the timestamps that the policies call for.
    pub open spec fn record_stamped(self, slot: usize) -> bool {
        &&& self.records[slot].last_accessed is Some <==> self.time_to_idle is Some
        &&& self.records[slot].last_modified is Some <==> self.time_to_live is Some
    }

    /// Whether the entry that a read speaks of has its record.
    pub open spec fn read_recorded(self, op: ReadOp) -> bool {
        match op {
            ReadOp::Hit(_, slot) => self.records.contains_key(slot),
            ReadOp::Miss(_) => true,
        }
    }

    /// Whether the insertion of the entry at `slot` waits to be applied.
    pub open spec fn insert_pending(self, slot: usize) -> bool {
        self.writes.contains(WriteOp::Insert(slot))
    }

    /// Whether the removal of the entry at `slot` waits to be applied.
    pub open spec fn removal_pending(self, slot: usize) -> bool {
        self.writes.contains(WriteOp::Remove(slot))
    }

    /// Whether each entry, each place in a queue and each waiting operation has
    /// its record, and no insertion waits that was applied before.
    #[verifier::opaque]
    pub open spec fn valid(self) -> bool {
        &&& self.store.dom().finite()
        &&& forall|key: K| #[trigger] self.store.contains_key(key) ==> self.entry_recorded(key)
        &&& forall|slot: usize|
            #[trigger] self.records.contains_key(slot) ==> self.record_stamped(slot)
        &&& forall|slot: usize| #[trigger]
            self.deques.contains(slot) ==> self.records.contains_key(slot)
        &&& self.deques.distinct()
        &&& forall|i: int| 0 <= i < self.reads.len() ==> self.read_recorded(#[trigger] self.reads[i])
        &&& forall|i: int|
            0 <= i < self.writes.len() ==> self.records.contains_key(
                (#[trigger] self.writes[i]).slot(),
            )
        &&& forall|slot: usize| #[trigger]
            self.writes.contains(WriteOp::Insert(slot)) ==> !self.deques.contains(slot)
        &&& forall|i: int, j: int|
            0 <= i < j < self.writes.len() && (#[trigger] self.writes[i]) is Insert
                ==> #[trigger] self.writes[j] != self.writes[i]
    }

    // Entries and their places.

    /// Whether the store's entry for the key of the record at `slot` is the one
    /// that the record speaks of.
    pub open spec fn live(self, slot: usize) -> bool {
        let key = *self.records[slot].key;
        self.store.contains_key(key) && self.store[key].slot == slot
    }

    /// The state with another record at `slot`.
    pub open spec fn with_record(self, slot: usize, record: Record<K>) -> Self {
        CacheState { records: self.records.insert(slot, record), ..self }
    }

    /// The state with other queues.
    pub open spec fn with_deques(self, deques: DequesState) -> Self {
        CacheState { deques, ..self }
    }

    /// The state after `slot` was noted as perhaps not needed any more.
    pub open spec fn with_retired(self, slot: usize) -> Self {
        CacheState { retired: self.retired.push(slot), ..self }
    }

    /// The entry leaves the queues, and its record may go.
    pub open spec fn unlinked(self, slot: usize) -> Self {
        self.with_deques(self.deques.unlinked(slot)).with_retired(slot)
    }

    /// The store loses what it has for `key`.
    pub open spec fn removed(self, key: K) -> Self {
        CacheState { store: self.store.remove(key), ..self }
    }

    /// The entry at `slot` leaves the store and the queues.
    pub open spec fn discarded(self, slot: usize) -> Self {
        self.removed(*self.records[slot].key).unlinked(slot)
    }

    // Reads.

    /// The state after `hash` was counted.
    pub open spec fn counted(self, hash: u64) -> Self {
        CacheState { sketch: self.sketch.incremented(hash), ..self }
    }

    /// A waiting read is applied: its hash is counted, and an entry that was
    /// found becomes the most recently used one.
    pub open spec fn read_applied(self, op: ReadOp) -> Self {
        match op {
            ReadOp::Hit(hash, slot) => self.counted(hash).with_deques(self.deques.moved_ao(slot)),
            ReadOp::Miss(hash) => self.counted(hash),
        }
    }

    /// The oldest waiting read leaves the log.
    pub open spec fn read_taken(self) -> Self {
        CacheState { reads: self.reads.drop_first(), ..self }
    }

    /// Up to `count` waiting reads are applied, oldest first.
    pub open spec fn reads_applied(self, count: nat) -> Self
        decreases count,
    {
        if count == 0 || self.reads.len() == 0 {
            self
        } else {
            self.read_taken().read_applied(self.reads[0]).reads_applied((count - 1) as nat)
        }
    }

    // Writes.

    /// The inserted entry gets its places, behind all others.
    pub open spec fn admitted(self, slot: usize) -> Self {
        let deques = self.deques.pushed_ao(slot);
        self.with_deques(
            if self.time_to_live is Some {
                deques.pushed_wo(slot)
            } else {
                deques
            },
        )
    }

    /// The least recently used entry.
    pub open spec fn victim(self) -> usize {
        self.deques.probation[0]
    }

    /// Whether the entry at `candidate` is worth more than the one at `victim`: it was
    /// asked for more often.
    pub open spec fn admits(self, candidate: usize, victim: usize) -> bool {
        self.sketch.frequency(self.records[candidate].hash) > self.sketch.frequency(
            self.records[victim].hash,
        )
    }

    /// The entry at `victim` makes room. Where it has already left the store, its
    /// place in the order of use goes.
    pub open spec fn victim_evicted(self, victim: usize) -> Self {
        if self.live(victim) {
            self.discarded(victim)
        } else {
            self.with_deques(self.deques.without_ao(victim)).with_retired(victim)
        }
    }

    /// The inserted entry is turned away. Where it has already left the store, there
    /// is nothing to take out of it.
    pub open spec fn candidate_rejected(self, slot: usize) -> Self {
        if self.live(slot) {
            self.removed(*self.records[slot].key).with_retired(slot)
        } else {
            self.with_retired(slot)
        }
    }

    /// A waiting insertion is applied: within the capacity the entry is admitted;
    /// beyond it the entry competes with the least recently used one, and is turned
    /// away where there is none.
    pub open spec fn insert_applied(self, slot: usize) -> Self {
        if self.store.dom().len() <= self.max_capacity {
            self.admitted(slot)
        } else if self.deques.probation.len() > 0 && self.admits(slot, self.victim()) {
            self.victim_evicted(self.victim()).admitted(slot)
        } else {
            self.candidate_rejected(slot)
        }
    }

    /// A waiting write is applied.
    pub open spec fn write_applied(self, op: WriteOp) -> Self {
        match op {
            WriteOp::Insert(slot) => self.insert_applied(slot),
            WriteOp::Update(slot) => self.with_deques(self.deques.moved_ao(slot).moved_wo(slot)),
            WriteOp::Remove(slot) => self.unlinked(slot),
        }
    }

    /// The oldest waiting write leaves the log.
    pub open spec fn write_taken(self) -> Self {
        CacheState { writes: self.writes.drop_first(), ..self }
    }

    /// The oldest waiting write is applied.
    pub open spec fn write_done(self) -> Self {
        self.write_taken().write_applied(self.writes[0])
    }

    /// Up to `count` waiting writes are applied, oldest first.
    pub open spec fn writes_applied(self, count: nat) -> Self
        decreases count,
    {
        if count == 0 || self.writes.len() == 0 {
            self
        } else {
            self.write_done().writes_applied((count - 1) as nat)
        }
    }

    // Expiry.

    /// Whether the entry at `slot` has outlived the time to live at `now`.
    pub open spec fn expired_wo(self, slot: usize, now: u64) -> bool {
        expired(self.records[slot].last_modified, self.time_to_live, now)
    }

    /// Whether the entry at `slot` has outlived the time to idle at `now`.
    pub open spec fn expired_ao(self, slot: usize, now: u64) -> bool {
        expired(self.records[slot].last_accessed, self.time_to_idle, now)
    }

    /// Whether the front of the write order has outlived its time to live.
    pub open spec fn front_expired_wo(self, now: u64) -> bool {
        self.deques.write_order.len() > 0 && self.expired_wo(self.deques.write_order[0], now)
    }

    /// The front of the write order goes: the entry, or where it has already left the
    /// store, its place.
    pub open spec fn front_discarded_wo(self) -> Self {
        let slot = self.deques.write_order[0];
        if self.live(slot) {
            self.discarded(slot)
        } else {
            self.with_deques(self.deques.popped_wo()).with_retired(slot)
        }
    }

    /// Up to `batch_size` expired entries leave from the front of the write
    /// order.
    pub open spec fn expired_removed_wo(self, batch_size: nat, now: u64) -> Self
        decreases batch_size,
    {
        if batch_size == 0 || !self.front_expired_wo(now) {
            self
        } else {
            self.front_discarded_wo().expired_removed_wo((batch_size - 1) as nat, now)
        }
    }

    /// Whether the front of a region has outlived its time to idle.
    pub open spec fn front_expired_ao(self, region: CacheRegion, now: u64) -> bool {
        self.deques.region(region).len() > 0 && self.expired_ao(
            self.deques.region(region)[0],
            now,
        )
    }

    /// The front of a region goes: the entry, or where it has already left the store,
    /// its place.
    pub open spec fn front_discarded_ao(self, region: CacheRegion) -> Self {
        let slot = self.deques.region(region)[0];
        if self.live(slot) {
            self.discarded(slot)
        } else {
            self.with_deques(self.deques.popped_ao(region)).with_retired(slot)
        }
    }

    /// Up to `batch_size` expired entries leave from the front of a region.
    pub open spec fn expired_removed_ao(self, region: CacheRegion, batch_size: nat, now: u64) -> Self
        decreases batch_size,
    {
        if batch_size == 0 || !self.front_expired_ao(region, now) {
            self
        } else {
            self.front_discarded_ao(region).expired_removed_ao(
                region,
                (batch_size - 1) as nat,
                now,
            )
        }
    }

    /// What has outlived the time to live leaves, where there is one.
    pub open spec fn evicted_wo(self, batch_size: nat, now: u64) -> Self {
        if self.time_to_live is Some {
            self.expired_removed_wo(batch_size, now)
        } else {
            self
        }
    }

    /// What has outlived the time to idle leaves, where there is one.
    pub open spec fn evicted_ao(self, batch_size: nat, now: u64) -> Self {
        if self.time_to_idle is Some {
            self.expired_removed_ao(CacheRegion::Window, batch_size, now).expired_removed_ao(
                CacheRegion::MainProbation,
                batch_size,
                now,
            ).expired_removed_ao(CacheRegion::MainProtected, batch_size, now)
        } else {
            self
        }
    }

    /// Expired entries leave, up to `batch_size` of them from each queue.
    pub open spec fn evicted(self, batch_size: nat, now: u64) -> Self {
        self.evicted_wo(batch_size, now).evicted_ao(batch_size, now)
    }

    // Maintenance.

    /// Whether the record at `slot` is needed when no operation waits.
    pub open spec fn in_use(self, slot: usize) -> bool {
        self.live(slot) || self.deques.contains(slot)
    }

    /// The records at retired slots go, unless they are in use. The one at `spared`
    /// stays, and stays retired.
    pub open spec fn collected_sparing(self, spared: Option<usize>) -> Self {
        CacheState {
            records: self.records.restrict(
                Set::new(
                    |slot: usize|
                        self.records.contains_key(slot) && (self.retired.contains(slot)
                            ==> self.in_use(slot) || spared == Some(slot)),
                ),
            ),
            retired: match spared {
                Some(slot) => seq![slot],
                None => Seq::empty(),
            },
            ..self
        }
    }

    /// Whether maintenance has nothing to do.
    pub open spec fn idle(self) -> bool {
        self.reads.len() == 0 && self.writes.len() == 0 && !self.has_expiry()
    }

    /// The waiting reads and then the waiting writes are applied.
    pub open spec fn pending_applied(self) -> Self {
        self.reads_applied(self.reads.len()).writes_applied(self.writes.len())
    }

    /// One round of maintenance: what waits is applied, and what has expired at `now`
    /// leaves.
    pub open spec fn round_done(self, now: u64) -> Self {
        if self.has_expiry() {
            self.pending_applied().evicted(EVICTION_BATCH_SIZE as nat, now)
        } else {
            self.pending_applied()
        }
    }

    /// Maintenance at `now`: a round, after which records that nothing needs go.
    pub open spec fn synced(self, now: u64) -> Self {
        if self.idle() {
            self
        } else {
            self.round_done(now).collected_sparing(None)
        }
    }

    // Lookups.

    /// Whether the entry at `slot` has expired at `now`.
    pub open spec fn record_expired(self, slot: usize, now: u64) -> bool {
        self.expired_wo(slot, now) || self.expired_ao(slot, now)
    }

    /// What a lookup of `key` at `now` finds.
    pub open spec fn lookup(self, key: K, now: u64) -> Option<V> {
        if self.store.contains_key(key) && !self.record_expired(self.store[key].slot, now) {
            Some(*self.store[key].value)
        } else {
            None
        }
    }

    /// The state after a read was noted; where the log is full, it is not.
    pub open spec fn read_recorded_as(self, op: ReadOp) -> Self {
        if self.reads.len() < READ_LOG_SIZE {
            CacheState { reads: self.reads.push(op), ..self }
        } else {
            self
        }
    }

    /// The state after a lookup of `key` at `now`: an entry that was found has been
    /// accessed then, and the lookup is noted.
    pub open spec fn looked_up(self, key: K, hash: u64, now: u64) -> Self {
        if self.lookup(key, now) is Some {
            let slot = self.store[key].slot;
            self.with_record(slot, self.records[slot].accessed(now)).read_recorded_as(
                ReadOp::Hit(hash, slot),
            )
        } else {
            self.read_recorded_as(ReadOp::Miss(hash))
        }
    }

    // Insertion and invalidation.

    /// The state after a write was noted.
    pub open spec fn write_recorded_as(self, op: WriteOp) -> Self {
        CacheState { writes: self.writes.push(op), ..self }
    }

    /// The record of a new entry, written at `now`.
    pub open spec fn new_record(self, key: K, hash: u64, now: u64) -> Record<K> {
        Record {
            key: Arc::new(key),
            hash,
            last_accessed: if self.time_to_idle is Some {
                Some(now)
            } else {
                None
            },
            last_modified: if self.time_to_live is Some {
                Some(now)
            } else {
                None
            },
        }
    }

    /// The state after `value` came to be under `key`, with its record at `slot`.
    pub open spec fn value_put(self, key: K, value: V, slot: usize, record: Record<K>) -> Self {
        (CacheState {
            store: self.store.insert(key, ValueEntry { value: Arc::new(value), slot }),
            ..self
        }).with_record(slot, record)
    }

    /// A value comes to be under `key` at `now`, and that is noted: another value of
    /// the entry that the store holds, or a new entry with its record at `slot`.
    pub open spec fn inserted(self, key: K, value: V, hash: u64, slot: usize, now: u64) -> Self {
        if self.store.contains_key(key) {
            let known = self.store[key].slot;
            self.value_put(
                key,
                value,
                known,
                self.records[known].written(now),
            ).write_recorded_as(WriteOp::Update(known))
        } else {
            self.value_put(
                key,
                value,
                slot,
                self.new_record(key, hash, now),
            ).write_recorded_as(WriteOp::Insert(slot))
        }
    }

    /// The entry of `key` leaves the store, and that is noted.
    pub open spec fn invalidated(self, key: K) -> Self {
        if self.store.contains_key(key) {
            self.removed(key).write_recorded_as(WriteOp::Remove(self.store[key].slot))
        } else {
            self
        }
    }

    /// The waiting reads and all waiting writes but the last are applied, and what has
    /// expired at `now` leaves.
    pub open spec fn but_last_applied(self, now: u64) -> Self {
        let applied = self.reads_applied(self.reads.len()).writes_applied(
            (self.writes.len() - 1) as nat,
        );
        if self.has_expiry() {
            applied.evicted(EVICTION_BATCH_SIZE as nat, now)
        } else {
            applied
        }
    }

    /// Where more writes wait than the log has room for, maintenance at `now` works off
    /// all but the last.
    pub open spec fn relieved(self, now: u64) -> Self {
        if self.writes.len() <= WRITE_LOG_SIZE {
            self
        } else {
            self.but_last_applied(now).collected_sparing(Some(self.writes.last().slot()))
        }
    }
}

} // verus!
