//! Each step of a cache keeps its state valid.

use crate::common::deques::{CacheRegion, DequesState};
use crate::common::entry::{ReadOp, Record, WriteOp};
use crate::sync::state::{CacheState, EVICTION_BATCH_SIZE, WRITE_LOG_SIZE};
use vstd::prelude::*;

verus! {

impl<K, V> CacheState<K, V> {
    /// Queues that hold no slot that they did not hold before keep the state valid.
    pub proof fn lemma_with_deques(self, deques: DequesState)
        requires
            self.valid(),
            deques.distinct(),
            forall|x: usize| #[trigger] deques.contains(x) ==> self.deques.contains(x),
        ensures
            self.with_deques(deques).valid(),
    {
        reveal(CacheState::valid);
    }

    /// What was counted and what is retired has nothing to do with validity.
    pub proof fn lemma_bookkeeping(self, hash: u64, slot: usize)
        requires
            self.valid(),
        ensures
            self.counted(hash).valid(),
            self.with_retired(slot).valid(),
    {
        reveal(CacheState::valid);
    }

    /// Other times in a record keep the state valid.
    pub proof fn lemma_with_record(self, slot: usize, record: Record<K>)
        requires
            self.valid(),
            self.records.contains_key(slot),
            record.key == self.records[slot].key,
            record.last_accessed is Some <==> self.records[slot].last_accessed is Some,
            record.last_modified is Some <==> self.records[slot].last_modified is Some,
        ensures
            self.with_record(slot, record).valid(),
    {
        reveal(CacheState::valid);
        let after = self.with_record(slot, record);
        assert(self.record_stamped(slot));
        assert forall|i: int| 0 <= i < after.reads.len() implies after.read_recorded(
            #[trigger] after.reads[i],
        ) by {
            assert(self.read_recorded(self.reads[i]));
        }
        assert forall|x: usize| #[trigger]
            after.records.contains_key(x) implies after.record_stamped(x) by {
            assert(self.records.contains_key(x));
        }
    }

    /// Taking an entry out of the store keeps the state valid.
    pub proof fn lemma_removed(self, key: K)
        requires
            self.valid(),
        ensures
            self.removed(key).valid(),
    {
        reveal(CacheState::valid);
        let after = self.removed(key);
        assert forall|k: K| #[trigger] after.store.contains_key(k) implies after.entry_recorded(
            k,
        ) by {
            assert(self.store.contains_key(k));
        }
    }

    /// Taking an entry out of the queues keeps the state valid, and adds nothing to
    /// them.
    pub proof fn lemma_unlinked(self, slot: usize)
        requires
            self.valid(),
        ensures
            self.unlinked(slot).valid(),
            forall|x: usize| #[trigger]
                self.unlinked(slot).deques.contains(x) <==> x != slot && self.deques.contains(x),
    {
        assert(self.deques.distinct()) by {
            reveal(CacheState::valid);
        }
        self.deques.lemma_unlinked(slot);
        self.lemma_with_deques(self.deques.unlinked(slot));
        self.with_deques(self.deques.unlinked(slot)).lemma_bookkeeping(0, slot);
    }

    /// Discarding an entry keeps the state valid, and adds nothing to the queues.
    pub proof fn lemma_discarded(self, slot: usize)
        requires
            self.valid(),
        ensures
            self.discarded(slot).valid(),
            forall|x: usize| #[trigger]
                self.discarded(slot).deques.contains(x) <==> x != slot && self.deques.contains(x),
    {
        let key = *self.records[slot].key;
        self.lemma_removed(key);
        self.removed(key).lemma_unlinked(slot);
    }

    /// Applying a read keeps the state valid, and the members of the queues.
    pub proof fn lemma_read_applied(self, op: ReadOp)
        requires
            self.valid(),
        ensures
            self.read_applied(op).valid(),
            forall|x: usize| #[trigger]
                self.read_applied(op).deques.contains(x) <==> self.deques.contains(x),
    {
        match op {
            ReadOp::Hit(hash, slot) => {
                assert(self.deques.distinct()) by {
                    reveal(CacheState::valid);
                }
                self.lemma_bookkeeping(hash, 0);
                self.deques.lemma_moved(slot);
                self.counted(hash).lemma_with_deques(self.deques.moved_ao(slot));
            },
            ReadOp::Miss(hash) => {
                self.lemma_bookkeeping(hash, 0);
            },
        }
    }

    /// Taking a read out of the log keeps the state valid.
    pub proof fn lemma_read_taken(self)
        requires
            self.valid(),
            self.reads.len() > 0,
        ensures
            self.read_taken().valid(),
    {
        reveal(CacheState::valid);
        let after = self.read_taken();
        assert forall|i: int| 0 <= i < after.reads.len() implies after.read_recorded(
            #[trigger] after.reads[i],
        ) by {
            assert(self.read_recorded(self.reads[i + 1]));
        }
    }

    /// Noting a read keeps the state valid.
    pub proof fn lemma_read_recorded(self, op: ReadOp)
        requires
            self.valid(),
            self.read_recorded(op),
        ensures
            self.read_recorded_as(op).valid(),
    {
        reveal(CacheState::valid);
        let after = self.read_recorded_as(op);
        assert forall|i: int| 0 <= i < after.reads.len() implies after.read_recorded(
            #[trigger] after.reads[i],
        ) by {
            if i < self.reads.len() {
                assert(self.read_recorded(self.reads[i]));
            }
        }
    }

    /// A lookup keeps the state valid.
    pub proof fn lemma_looked_up(self, key: K, hash: u64, now: u64)
        requires
            self.valid(),
        ensures
            self.looked_up(key, hash, now).valid(),
    {
        if self.lookup(key, now) is Some {
            let slot = self.store[key].slot;
            assert(self.entry_recorded(key)) by {
                reveal(CacheState::valid);
            }
            self.lemma_with_record(slot, self.records[slot].accessed(now));
            self.with_record(slot, self.records[slot].accessed(now)).lemma_read_recorded(
                ReadOp::Hit(hash, slot),
            );
        } else {
            self.lemma_read_recorded(ReadOp::Miss(hash));
        }
    }

    /// Whether the entry's insertion can be applied: its record is there, it has
    /// no place in the queues yet, and it is not to get another.
    pub open spec fn insertable(self, slot: usize) -> bool {
        &&& self.records.contains_key(slot)
        &&& !self.deques.contains(slot)
        &&& !self.insert_pending(slot)
    }

    /// Whether a write can be noted: its record is there, and an insertion has
    /// not been noted or applied before.
    pub open spec fn recordable(self, op: WriteOp) -> bool {
        &&& self.records.contains_key(op.slot())
        &&& op is Insert ==> self.insertable(op.slot())
    }

    /// Taking a write out of the log keeps the state valid, and the write can be
    /// applied.
    pub proof fn lemma_write_taken(self)
        requires
            self.valid(),
            self.writes.len() > 0,
        ensures
            self.write_taken().valid(),
            self.write_taken().recordable(self.writes[0]),
            forall|op: WriteOp|
                #![trigger self.writes.contains(op)]
                #![trigger self.write_taken().writes.contains(op)]
                self.writes.contains(op) <==> op == self.writes[0]
                    || self.write_taken().writes.contains(op),
            self.writes[0] is Insert ==> !self.write_taken().writes.contains(self.writes[0]),
    {
        reveal(CacheState::valid);
        let after = self.write_taken();
        let head = self.writes[0];
        assert(self.writes.contains(head));
        assert forall|op: WriteOp| #[trigger] self.writes.contains(op) <==> op == head
            || after.writes.contains(op) by {
            if self.writes.contains(op) && op != head {
                let i = self.writes.index_of(op);
                assert(after.writes[i - 1] == op);
            }
            if after.writes.contains(op) {
                assert(self.writes[after.writes.index_of(op) + 1] == op);
            }
        }
        assert forall|slot: usize| #[trigger]
            after.writes.contains(WriteOp::Insert(slot)) implies !after.deques.contains(slot) by {
            assert(self.writes.contains(WriteOp::Insert(slot)));
        }
        assert forall|i: int| 0 <= i < after.writes.len() implies after.records.contains_key(
            (#[trigger] after.writes[i]).slot(),
        ) by {
            assert(self.writes[i + 1] == after.writes[i]);
        }
        assert forall|i: int, j: int|
            0 <= i < j < after.writes.len() && (#[trigger] after.writes[i]) is Insert implies
            #[trigger] after.writes[j] != after.writes[i] by {
            assert(self.writes[i + 1] == after.writes[i]);
            assert(self.writes[j + 1] == after.writes[j]);
        }
        if head is Insert && after.writes.contains(head) {
            let i = after.writes.index_of(head);
            assert(self.writes[i + 1] == self.writes[0]);
            assert(false);
        }
    }

    /// Admitting an entry keeps the state valid.
    pub proof fn lemma_admitted(self, slot: usize)
        requires
            self.valid(),
            self.insertable(slot),
        ensures
            self.admitted(slot).valid(),
            forall|x: usize| #[trigger]
                self.admitted(slot).deques.contains(x) <==> x == slot || self.deques.contains(x),
            self.admitted(slot).deques.probation.contains(slot),
            self.time_to_live is Some ==> self.admitted(slot).deques.write_order.contains(slot),
    {
        reveal(CacheState::valid);
        let after = self.admitted(slot);
        let pushed = self.deques.pushed_ao(slot);
        self.deques.lemma_pushed(slot);
        pushed.lemma_pushed(slot);
        assert(pushed.write_order == self.deques.write_order);
        assert forall|x: usize| #[trigger] after.deques.contains(x) <==> x == slot
            || self.deques.contains(x) by {
            if x != slot {
                assert(pushed.contains(x) <==> self.deques.contains(x));
            }
        }
        assert(pushed.probation[self.deques.probation.len() as int] == slot);
        assert(pushed.pushed_wo(slot).write_order[self.deques.write_order.len() as int] == slot);
    }

    /// Evicting a victim keeps the state valid, and adds nothing to the queues.
    pub proof fn lemma_victim_evicted(self, victim: usize)
        requires
            self.valid(),
        ensures
            self.victim_evicted(victim).valid(),
            forall|x: usize| #[trigger]
                self.victim_evicted(victim).deques.contains(x) ==> self.deques.contains(x),
            forall|x: usize| #[trigger]
                self.deques.contains(x) && x != victim ==> self.victim_evicted(
                    victim,
                ).deques.contains(x),
    {
        if self.live(victim) {
            self.lemma_discarded(victim);
        } else {
            assert(self.deques.distinct()) by {
                reveal(CacheState::valid);
            }
            self.deques.lemma_unlinked(victim);
            self.lemma_with_deques(self.deques.without_ao(victim));
            self.with_deques(self.deques.without_ao(victim)).lemma_bookkeeping(0, victim);
        }
    }

    /// Turning an entry away keeps the state valid.
    pub proof fn lemma_candidate_rejected(self, slot: usize)
        requires
            self.valid(),
        ensures
            self.candidate_rejected(slot).valid(),
    {
        let key = *self.records[slot].key;
        self.lemma_removed(key);
        self.lemma_bookkeeping(0, slot);
        self.removed(key).lemma_bookkeeping(0, slot);
    }

    /// Applying an insertion keeps the state valid.
    pub proof fn lemma_insert_applied(self, slot: usize)
        requires
            self.valid(),
            self.insertable(slot),
        ensures
            self.insert_applied(slot).valid(),
    {
        if self.store.dom().len() <= self.max_capacity {
            self.lemma_admitted(slot);
        } else if self.deques.probation.len() > 0 && self.admits(slot, self.victim()) {
            self.lemma_victim_evicted(self.victim());
            self.victim_evicted(self.victim()).lemma_admitted(slot);
        } else {
            self.lemma_candidate_rejected(slot);
        }
    }

    /// Applying a write keeps the state valid.
    pub proof fn lemma_write_applied(self, op: WriteOp)
        requires
            self.valid(),
            self.recordable(op),
        ensures
            self.write_applied(op).valid(),
    {
        match op {
            WriteOp::Insert(slot) => {
                self.lemma_insert_applied(slot);
            },
            WriteOp::Update(slot) => {
                assert(self.deques.distinct()) by {
                    reveal(CacheState::valid);
                }
                self.deques.lemma_moved(slot);
                self.deques.moved_ao(slot).lemma_moved(slot);
                self.lemma_with_deques(self.deques.moved_ao(slot).moved_wo(slot));
            },
            WriteOp::Remove(slot) => {
                self.lemma_unlinked(slot);
            },
        }
    }

    /// Applying the oldest waiting write keeps the state valid.
    pub proof fn lemma_write_done(self)
        requires
            self.valid(),
            self.writes.len() > 0,
        ensures
            self.write_done().valid(),
    {
        self.lemma_write_taken();
        self.write_taken().lemma_write_applied(self.writes[0]);
    }

    /// Discarding the front of the write order keeps the state valid, and takes
    /// nothing but the front out of the queues.
    pub proof fn lemma_front_discarded_wo(self)
        requires
            self.valid(),
            self.deques.write_order.len() > 0,
        ensures
            self.front_discarded_wo().valid(),
            forall|x: usize| #[trigger]
                self.front_discarded_wo().deques.contains(x) ==> self.deques.contains(x),
            self.records.contains_key(self.deques.write_order[0]),
    {
        let slot = self.deques.write_order[0];
        assert(self.deques.distinct() && self.records.contains_key(slot)) by {
            reveal(CacheState::valid);
            assert(self.deques.write_order.contains(slot));
            assert(self.deques.contains(slot));
        }
        if self.live(slot) {
            self.lemma_discarded(slot);
        } else {
            self.deques.lemma_popped(CacheRegion::Window);
            assert(self.deques.popped_wo().within(self.deques));
            self.lemma_with_deques(self.deques.popped_wo());
            self.with_deques(self.deques.popped_wo()).lemma_bookkeeping(0, slot);
        }
    }

    /// Discarding the front of a region keeps the state valid, and takes nothing but
    /// the front out of the queues.
    pub proof fn lemma_front_discarded_ao(self, region: CacheRegion)
        requires
            self.valid(),
            self.deques.region(region).len() > 0,
        ensures
            self.front_discarded_ao(region).valid(),
            forall|x: usize| #[trigger]
                self.front_discarded_ao(region).deques.contains(x) ==> self.deques.contains(x),
            self.records.contains_key(self.deques.region(region)[0]),
    {
        let slot = self.deques.region(region)[0];
        assert(self.deques.distinct() && self.records.contains_key(slot)) by {
            reveal(CacheState::valid);
            assert(self.deques.region(region).contains(slot));
            assert(self.deques.contains(slot));
        }
        if self.live(slot) {
            self.lemma_discarded(slot);
        } else {
            self.deques.lemma_popped(region);
            assert(self.deques.popped_ao(region).within(self.deques));
            self.lemma_with_deques(self.deques.popped_ao(region));
            self.with_deques(self.deques.popped_ao(region)).lemma_bookkeeping(0, slot);
        }
    }

    /// Dropping records that are retired and not in use keeps the state valid, if no
    /// operation waits but for the entry whose record is spared.
    pub proof fn lemma_collected(self, spared: Option<usize>)
        requires
            self.valid(),
            self.reads.len() == 0,
            forall|i: int|
                0 <= i < self.writes.len() ==> spared == Some((#[trigger] self.writes[i]).slot()),
        ensures
            self.collected_sparing(spared).valid(),
            forall|slot: usize| #[trigger]
                self.collected_sparing(spared).records.contains_key(slot)
                    ==> self.records.contains_key(slot) && self.collected_sparing(
                    spared,
                ).records[slot] == self.records[slot],
            forall|slot: usize| #[trigger]
                self.records.contains_key(slot) && (self.in_use(slot) || spared == Some(slot))
                    ==> self.collected_sparing(spared).records.contains_key(slot),
    {
        reveal(CacheState::valid);
        let after = self.collected_sparing(spared);
        assert forall|key: K| #[trigger] after.store.contains_key(key) implies after.entry_recorded(
            key,
        ) by {
            assert(self.entry_recorded(key));
            assert(self.in_use(self.store[key].slot));
        }
        assert forall|x: usize| #[trigger]
            after.records.contains_key(x) implies after.record_stamped(x) by {
            assert(self.record_stamped(x));
        }
        assert forall|x: usize| #[trigger]
            after.deques.contains(x) implies after.records.contains_key(x) by {
            assert(self.in_use(x));
        }
    }

    /// Noting a write keeps the state valid.
    pub proof fn lemma_write_recorded(self, op: WriteOp)
        requires
            self.valid(),
            self.recordable(op),
        ensures
            self.write_recorded_as(op).valid(),
    {
        reveal(CacheState::valid);
        let after = self.write_recorded_as(op);
        assert forall|slot: usize| #[trigger]
            after.writes.contains(WriteOp::Insert(slot)) implies !after.deques.contains(slot) by {
            let i = after.writes.index_of(WriteOp::Insert(slot));
            if i < self.writes.len() {
                assert(self.writes[i] == WriteOp::Insert(slot));
                assert(self.writes.contains(WriteOp::Insert(slot)));
            }
        }
        assert forall|i: int| 0 <= i < after.writes.len() implies after.records.contains_key(
            (#[trigger] after.writes[i]).slot(),
        ) by {
            if i < self.writes.len() {
                assert(self.writes[i] == after.writes[i]);
            }
        }
        assert forall|i: int, j: int|
            0 <= i < j < after.writes.len() && (#[trigger] after.writes[i]) is Insert implies
            #[trigger] after.writes[j] != after.writes[i] by {
            assert(self.writes[i] == after.writes[i]);
            if j < self.writes.len() {
                assert(self.writes[j] == after.writes[j]);
            } else {
                assert(self.writes.contains(self.writes[i]));
            }
        }
    }

    /// Putting a value under a key keeps the state valid: with the record of the entry
    /// that the store holds, or with a new one.
    pub proof fn lemma_value_put(self, key: K, value: V, slot: usize, record: Record<K>)
        requires
            self.valid(),
            self.store.contains_key(key) ==> slot == self.store[key].slot,
            !self.store.contains_key(key) ==> !self.records.contains_key(slot),
            *record.key == key,
            record.last_accessed is Some <==> self.time_to_idle is Some,
            record.last_modified is Some <==> self.time_to_live is Some,
        ensures
            self.value_put(key, value, slot, record).valid(),
            !self.store.contains_key(key) ==> self.value_put(
                key,
                value,
                slot,
                record,
            ).insertable(slot),
    {
        reveal(CacheState::valid);
        let put = self.value_put(key, value, slot, record);
        assert forall|k: K| #[trigger] put.store.contains_key(k) implies put.entry_recorded(k) by {
            if k != key {
                assert(self.store.contains_key(k));
                assert(self.entry_recorded(k));
                if self.store.contains_key(key) {
                    assert(self.entry_recorded(key));
                }
            }
        }
        assert forall|x: usize| #[trigger]
            put.records.contains_key(x) implies put.record_stamped(x) by {
            if x != slot {
                assert(self.record_stamped(x));
            }
        }
        assert forall|i: int| 0 <= i < put.reads.len() implies put.read_recorded(
            #[trigger] put.reads[i],
        ) by {
            assert(self.read_recorded(self.reads[i]));
        }
        if self.writes.contains(WriteOp::Insert(slot)) {
            let i = self.writes.index_of(WriteOp::Insert(slot));
            assert(self.records.contains_key(self.writes[i].slot()));
        }
    }

    /// Putting a value under a key and noting it keeps the state valid.
    pub proof fn lemma_inserted(self, key: K, value: V, hash: u64, slot: usize, now: u64)
        requires
            self.valid(),
            !self.records.contains_key(slot),
        ensures
            self.inserted(key, value, hash, slot, now).valid(),
    {
        if self.store.contains_key(key) {
            let known = self.store[key].slot;
            assert(self.entry_recorded(key) && self.record_stamped(known)) by {
                reveal(CacheState::valid);
                assert(self.entry_recorded(key));
            }
            let record = self.records[known].written(now);
            self.lemma_value_put(key, value, known, record);
            self.value_put(key, value, known, record).lemma_write_recorded(
                WriteOp::Update(known),
            );
        } else {
            let record = self.new_record(key, hash, now);
            self.lemma_value_put(key, value, slot, record);
            self.value_put(key, value, slot, record).lemma_write_recorded(WriteOp::Insert(slot));
        }
    }

    /// Taking a key out keeps the state valid.
    pub proof fn lemma_invalidated(self, key: K)
        requires
            self.valid(),
        ensures
            self.invalidated(key).valid(),
    {
        if self.store.contains_key(key) {
            self.lemma_removed(key);
            assert(self.entry_recorded(key)) by {
                reveal(CacheState::valid);
            }
            self.removed(key).lemma_write_recorded(WriteOp::Remove(self.store[key].slot));
        }
    }

    // What many steps in a row keep.

    /// Whether the settings are those of `other`.
    pub open spec fn same_settings(self, other: Self) -> bool {
        &&& self.max_capacity == other.max_capacity
        &&& self.time_to_live == other.time_to_live
        &&& self.time_to_idle == other.time_to_idle
    }

    /// Applying reads keeps the state valid, the store and the records as they are, and
    /// the members of the queues.
    pub proof fn lemma_reads_applied(self, count: nat)
        requires
            self.valid(),
        ensures
            self.reads_applied(count).valid(),
            self.reads_applied(count).same_settings(self),
            self.reads_applied(count).store == self.store,
            self.reads_applied(count).records == self.records,
            self.reads_applied(count).writes == self.writes,
            self.reads_applied(count).retired == self.retired,
            forall|x: usize| #[trigger]
                self.reads_applied(count).deques.contains(x) <==> self.deques.contains(x),
            count >= self.reads.len() ==> self.reads_applied(count).reads.len() == 0,
        decreases count,
    {
        if count > 0 && self.reads.len() > 0 {
            self.lemma_read_taken();
            self.read_taken().lemma_read_applied(self.reads[0]);
            self.read_taken().read_applied(self.reads[0]).lemma_reads_applied((count - 1) as nat);
        }
    }

    /// Applying writes keeps the state valid and the records as they are.
    pub proof fn lemma_writes_applied(self, count: nat)
        requires
            self.valid(),
        ensures
            self.writes_applied(count).valid(),
            self.writes_applied(count).same_settings(self),
            self.writes_applied(count).records == self.records,
            self.writes_applied(count).reads == self.reads,
            count >= self.writes.len() ==> self.writes_applied(count).writes.len() == 0,
            count <= self.writes.len() ==> self.writes_applied(count).writes == self.writes.skip(
                count as int,
            ),
        decreases count,
    {
        if count > 0 && self.writes.len() > 0 {
            self.lemma_write_done();
            self.write_done().lemma_writes_applied((count - 1) as nat);
            if count <= self.writes.len() {
                assert(self.writes.drop_first().skip(count - 1) =~= self.writes.skip(count as int));
            }
        } else {
            assert(self.writes.skip(0) =~= self.writes);
        }
    }

    /// Applying what waits keeps the state valid and the records as they are, and
    /// leaves nothing waiting.
    pub proof fn lemma_pending_applied(self)
        requires
            self.valid(),
        ensures
            self.pending_applied().valid(),
            self.pending_applied().same_settings(self),
            self.pending_applied().records == self.records,
            self.pending_applied().reads.len() == 0,
            self.pending_applied().writes.len() == 0,
    {
        self.lemma_reads_applied(self.reads.len());
        self.reads_applied(self.reads.len()).lemma_writes_applied(self.writes.len());
    }

    /// Whether the state is what `before` was, but for entries and places that went.
    pub open spec fn shrunk_from(self, before: Self) -> bool {
        &&& self.same_settings(before)
        &&& self.records == before.records
        &&& self.reads == before.reads
        &&& self.writes == before.writes
        &&& forall|key: K| #[trigger]
            self.store.contains_key(key) ==> before.store.contains_key(key) && self.store[key]
                == before.store[key]
        &&& forall|x: usize| #[trigger] self.deques.contains(x) ==> before.deques.contains(x)
    }

    /// Removing expired entries keeps the state valid, and changes nothing but that
    /// they go.
    pub proof fn lemma_expired_removed_wo(self, batch_size: nat, now: u64)
        requires
            self.valid(),
        ensures
            self.expired_removed_wo(batch_size, now).valid(),
            self.expired_removed_wo(batch_size, now).shrunk_from(self),
        decreases batch_size,
    {
        if batch_size > 0 && self.front_expired_wo(now) {
            self.lemma_front_discarded_wo();
            self.front_discarded_wo().lemma_expired_removed_wo((batch_size - 1) as nat, now);
        }
    }

    /// Removing expired entries keeps the state valid, and changes nothing but that
    /// they go.
    pub proof fn lemma_expired_removed_ao(self, region: CacheRegion, batch_size: nat, now: u64)
        requires
            self.valid(),
        ensures
            self.expired_removed_ao(region, batch_size, now).valid(),
            self.expired_removed_ao(region, batch_size, now).shrunk_from(self),
        decreases batch_size,
    {
        if batch_size > 0 && self.front_expired_ao(region, now) {
            self.lemma_front_discarded_ao(region);
            self.front_discarded_ao(region).lemma_expired_removed_ao(
                region,
                (batch_size - 1) as nat,
                now,
            );
        }
    }

    /// Evicting keeps the state valid, and changes nothing but that entries go.
    pub proof fn lemma_evicted(self, batch_size: nat, now: u64)
        requires
            self.valid(),
        ensures
            self.evicted_wo(batch_size, now).valid(),
            self.evicted_wo(batch_size, now).shrunk_from(self),
            self.evicted(batch_size, now).valid(),
            self.evicted(batch_size, now).shrunk_from(self),
    {
        self.lemma_expired_removed_wo(batch_size, now);
        let a = self.evicted_wo(batch_size, now);
        a.lemma_expired_removed_ao(CacheRegion::Window, batch_size, now);
        let b = a.expired_removed_ao(CacheRegion::Window, batch_size, now);
        b.lemma_expired_removed_ao(CacheRegion::MainProbation, batch_size, now);
        let c = b.expired_removed_ao(CacheRegion::MainProbation, batch_size, now);
        c.lemma_expired_removed_ao(CacheRegion::MainProtected, batch_size, now);
    }

    /// Maintenance keeps the state valid and works off the logs.
    pub proof fn lemma_synced(self, now: u64)
        requires
            self.valid(),
        ensures
            self.round_done(now).valid(),
            self.round_done(now).reads.len() == 0,
            self.round_done(now).writes.len() == 0,
            self.synced(now).valid(),
            self.synced(now).same_settings(self),
            self.synced(now).reads.len() == 0,
            self.synced(now).writes.len() == 0,
    {
        self.lemma_pending_applied();
        self.pending_applied().lemma_evicted(EVICTION_BATCH_SIZE as nat, now);
        self.round_done(now).lemma_collected(None);
    }

    /// Applying all writes but the last, and evicting, keeps the state valid and leaves
    /// that write alone waiting.
    pub proof fn lemma_but_last_applied(self, now: u64)
        requires
            self.valid(),
            self.writes.len() > 0,
        ensures
            self.but_last_applied(now).valid(),
            self.but_last_applied(now).same_settings(self),
            self.but_last_applied(now).records == self.records,
            self.but_last_applied(now).reads.len() == 0,
            self.but_last_applied(now).writes == seq![self.writes.last()],
    {
        let read = self.reads_applied(self.reads.len());
        self.lemma_reads_applied(self.reads.len());
        let n = (self.writes.len() - 1) as nat;
        read.lemma_writes_applied(n);
        read.writes_applied(n).lemma_evicted(EVICTION_BATCH_SIZE as nat, now);
        assert(self.writes.skip(n as int) =~= seq![self.writes.last()]);
    }

    /// Relief keeps the state valid, and leaves no more writes waiting than the log has
    /// room for.
    pub proof fn lemma_relieved(self, now: u64)
        requires
            self.valid(),
        ensures
            self.relieved(now).valid(),
            self.relieved(now).same_settings(self),
            self.relieved(now).writes.len() <= WRITE_LOG_SIZE,
            self.relieved(now).reads.len() <= self.reads.len(),
    {
        if self.writes.len() > WRITE_LOG_SIZE {
            self.lemma_but_last_applied(now);
            self.but_last_applied(now).lemma_collected(Some(self.writes.last().slot()));
        }
    }

    // A write that is noted late.

    /// Applying the other writes and noting one can be done in either order.
    proof fn lemma_write_done_commutes(self, op: WriteOp)
        requires
            self.writes.len() > 0,
        ensures
            self.write_recorded_as(op).write_done() == self.write_done().write_recorded_as(op),
    {
        assert(self.writes.push(op).drop_first() =~= self.writes.drop_first().push(op));
    }

    /// Applying the other writes and noting one can be done in either order.
    pub proof fn lemma_writes_applied_commutes(self, count: nat, op: WriteOp)
        requires
            count <= self.writes.len(),
        ensures
            self.write_recorded_as(op).writes_applied(count) == self.writes_applied(
                count,
            ).write_recorded_as(op),
        decreases count,
    {
        if count > 0 {
            self.lemma_write_done_commutes(op);
            self.write_done().lemma_writes_applied_commutes((count - 1) as nat, op);
        }
    }

    /// Applying reads and noting a write can be done in either order.
    pub proof fn lemma_reads_applied_commutes(self, count: nat, op: WriteOp)
        ensures
            self.write_recorded_as(op).reads_applied(count) == self.reads_applied(
                count,
            ).write_recorded_as(op),
        decreases count,
    {
        if count > 0 && self.reads.len() > 0 {
            self.read_taken().read_applied(self.reads[0]).lemma_reads_applied_commutes(
                (count - 1) as nat,
                op,
            );
        }
    }

    /// Evicting and noting a write can be done in either order.
    proof fn lemma_expired_removed_wo_commutes(self, batch_size: nat, now: u64, op: WriteOp)
        ensures
            self.write_recorded_as(op).expired_removed_wo(batch_size, now)
                == self.expired_removed_wo(batch_size, now).write_recorded_as(op),
        decreases batch_size,
    {
        if batch_size > 0 && self.front_expired_wo(now) {
            self.front_discarded_wo().lemma_expired_removed_wo_commutes(
                (batch_size - 1) as nat,
                now,
                op,
            );
        }
    }

    /// Evicting and noting a write can be done in either order.
    proof fn lemma_expired_removed_ao_commutes(
        self,
        region: CacheRegion,
        batch_size: nat,
        now: u64,
        op: WriteOp,
    )
        ensures
            self.write_recorded_as(op).expired_removed_ao(region, batch_size, now)
                == self.expired_removed_ao(region, batch_size, now).write_recorded_as(op),
        decreases batch_size,
    {
        if batch_size > 0 && self.front_expired_ao(region, now) {
            self.front_discarded_ao(region).lemma_expired_removed_ao_commutes(
                region,
                (batch_size - 1) as nat,
                now,
                op,
            );
        }
    }

    /// Evicting and noting a write can be done in either order.
    proof fn lemma_evicted_commutes(self, batch_size: nat, now: u64, op: WriteOp)
        ensures
            self.write_recorded_as(op).evicted(batch_size, now) == self.evicted(
                batch_size,
                now,
            ).write_recorded_as(op),
    {
        self.lemma_expired_removed_wo_commutes(batch_size, now, op);
        let a = self.evicted_wo(batch_size, now);
        a.lemma_expired_removed_ao_commutes(CacheRegion::Window, batch_size, now, op);
        let b = a.expired_removed_ao(CacheRegion::Window, batch_size, now);
        b.lemma_expired_removed_ao_commutes(CacheRegion::MainProbation, batch_size, now, op);
        let c = b.expired_removed_ao(CacheRegion::MainProbation, batch_size, now);
        c.lemma_expired_removed_ao_commutes(CacheRegion::MainProtected, batch_size, now, op);
    }

    /// To work off a full log, sparing the record that a write is about, and then to note
    /// the write, is to note the write and be relieved.
    pub proof fn lemma_noted_late(self, op: WriteOp, now: u64)
        requires
            self.writes.len() >= WRITE_LOG_SIZE,
        ensures
            self.round_done(now).collected_sparing(Some(op.slot())).write_recorded_as(op)
                == self.write_recorded_as(op).relieved(now),
    {
        let noted = self.write_recorded_as(op);
        let read = self.reads_applied(self.reads.len());
        self.lemma_reads_applied_commutes(self.reads.len(), op);
        self.lemma_reads_keep_writes(self.reads.len());
        read.lemma_writes_applied_commutes(self.writes.len(), op);
        self.pending_applied().lemma_evicted_commutes(EVICTION_BATCH_SIZE as nat, now, op);
        let done = self.round_done(now);
        assert(noted.writes.last() == op);
        assert(done.write_recorded_as(op).collected_sparing(Some(op.slot()))
            == done.collected_sparing(Some(op.slot())).write_recorded_as(op)) by {
            let a = done.write_recorded_as(op).collected_sparing(Some(op.slot()));
            let b = done.collected_sparing(Some(op.slot())).write_recorded_as(op);
            assert(a.records =~= b.records);
        }
    }

    proof fn lemma_reads_keep_writes(self, count: nat)
        ensures
            self.reads_applied(count).writes == self.writes,
        decreases count,
    {
        if count > 0 && self.reads.len() > 0 {
            self.read_taken().read_applied(self.reads[0]).lemma_reads_keep_writes(
                (count - 1) as nat,
            );
        }
    }
}

} // verus!
