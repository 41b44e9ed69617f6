//! No record is kept for longer than something needs it.

use crate::common::deques::CacheRegion;
use crate::common::entry::WriteOp;
use crate::sync::state::{CacheState, EVICTION_BATCH_SIZE, WRITE_LOG_SIZE};
use vstd::prelude::*;

verus! {

impl<K, V> CacheState<K, V> {
    /// Whether the record at `slot` is in use, or will be looked at when records go.
    pub open spec fn watched(self, slot: usize) -> bool {
        self.in_use(slot) || self.removal_pending(slot) || self.retired.contains(slot)
    }

    /// Whether each record is in use, or will be looked at when records go.
    pub open spec fn accounted(self) -> bool {
        forall|slot: usize| #[trigger] self.records.contains_key(slot) ==> self.watched(slot)
    }

    /// What is retired stays so when more is.
    proof fn lemma_retired_grows(self, slot: usize, other: usize)
        ensures
            self.with_retired(slot).retired.contains(slot),
            self.retired.contains(other) ==> self.with_retired(slot).retired.contains(other),
    {
        let after = self.with_retired(slot).retired;
        assert(after[self.retired.len() as int] == slot);
        if self.retired.contains(other) {
            assert(after[self.retired.index_of(other)] == other);
        }
    }

    /// Records stay accounted for where entries, writes and keys stay, and places do but
    /// for one whose slot is retired.
    proof fn lemma_still_accounted(self, before: Self, dropped: Option<usize>)
        requires
            before.accounted(),
            self.store == before.store,
            self.writes == before.writes,
            dropped is None ==> self.retired == before.retired,
            dropped is Some ==> self.retired == before.retired.push(dropped->Some_0),
            forall|slot: usize| #[trigger]
                before.deques.contains(slot) && dropped != Some(slot) ==> self.deques.contains(slot),
            forall|slot: usize| #[trigger]
                self.records.contains_key(slot) ==> before.records.contains_key(slot)
                    && self.records[slot].key == before.records[slot].key,
        ensures
            self.accounted(),
    {
        assert forall|slot: usize| #[trigger] self.records.contains_key(slot) implies self.watched(
            slot,
        ) by {
            assert(before.watched(slot));
            if dropped is Some {
                before.lemma_retired_grows(dropped->Some_0, slot);
            }
        }
    }

    /// Taking an entry that has left the store out of the queues leaves all records
    /// accounted for.
    proof fn lemma_unlinked_accounted(self, slot: usize)
        requires
            self.valid(),
            forall|x: usize| #[trigger]
                self.records.contains_key(x) && x != slot ==> self.watched(x),
        ensures
            self.unlinked(slot).accounted(),
    {
        let after = self.unlinked(slot);
        self.lemma_unlinked(slot);
        assert forall|x: usize| #[trigger] after.records.contains_key(x) implies after.watched(
            x,
        ) by {
            self.lemma_retired_grows(slot, x);
            if x != slot {
                assert(self.watched(x));
            }
        }
    }

    /// Discarding an entry leaves all records accounted for.
    proof fn lemma_discarded_accounted(self, slot: usize)
        requires
            self.valid(),
            self.accounted(),
            self.live(slot),
        ensures
            self.discarded(slot).accounted(),
    {
        let key = *self.records[slot].key;
        let removed = self.removed(key);
        self.lemma_removed(key);
        assert forall|x: usize| #[trigger]
            removed.records.contains_key(x) && x != slot implies removed.watched(x) by {
            assert(self.watched(x));
        }
        removed.lemma_unlinked_accounted(slot);
    }

    /// Applying a write leaves all records accounted for.
    proof fn lemma_write_done_accounted(self)
        requires
            self.valid(),
            self.accounted(),
            self.writes.len() > 0,
        ensures
            self.write_done().accounted(),
    {
        let op = self.writes[0];
        let slot = op.slot();
        let taken = self.write_taken();
        let after = self.write_done();
        self.lemma_write_taken();
        assert(self.deques.distinct()) by {
            reveal(CacheState::valid);
        }
        assert forall|x: usize| #[trigger]
            taken.records.contains_key(x) && (op is Remove ==> x != slot) implies taken.watched(
            x,
        ) by {
            assert(self.watched(x));
        }
        match op {
            WriteOp::Insert(_) => {
                if taken.store.dom().len() <= taken.max_capacity {
                    taken.lemma_admitted(slot);
                    after.lemma_still_accounted(taken, None);
                } else if taken.deques.probation.len() > 0 && taken.admits(slot, taken.victim()) {
                    let victim = taken.victim();
                    let evicted = taken.victim_evicted(victim);
                    taken.lemma_victim_evicted(victim);
                    if taken.live(victim) {
                        taken.lemma_discarded_accounted(victim);
                    } else {
                        evicted.lemma_still_accounted(taken, Some(victim));
                    }
                    evicted.lemma_admitted(slot);
                    after.lemma_still_accounted(evicted, None);
                } else {
                    assert forall|x: usize| #[trigger]
                        after.records.contains_key(x) implies after.watched(x) by {
                        assert(taken.watched(x));
                        taken.lemma_retired_grows(slot, x);
                    }
                }
            },
            WriteOp::Update(_) => {
                taken.deques.lemma_moved(slot);
                taken.deques.moved_ao(slot).lemma_moved(slot);
                after.lemma_still_accounted(taken, None);
            },
            WriteOp::Remove(_) => {
                taken.lemma_unlinked_accounted(slot);
            },
        }
    }

    /// Applying writes leaves all records accounted for.
    proof fn lemma_writes_applied_accounted(self, count: nat)
        requires
            self.valid(),
            self.accounted(),
        ensures
            self.writes_applied(count).accounted(),
        decreases count,
    {
        if count > 0 && self.writes.len() > 0 {
            self.lemma_write_done();
            self.lemma_write_done_accounted();
            self.write_done().lemma_writes_applied_accounted((count - 1) as nat);
        }
    }

    /// Removing expired entries leaves all records accounted for.
    proof fn lemma_expired_removed_wo_accounted(self, batch_size: nat, now: u64)
        requires
            self.valid(),
            self.accounted(),
        ensures
            self.expired_removed_wo(batch_size, now).accounted(),
        decreases batch_size,
    {
        if batch_size > 0 && self.front_expired_wo(now) {
            let front = self.deques.write_order[0];
            let after = self.front_discarded_wo();
            self.lemma_front_discarded_wo();
            if self.live(front) {
                self.lemma_discarded_accounted(front);
            } else {
                assert(self.deques.distinct()) by {
                    reveal(CacheState::valid);
                }
                self.deques.lemma_popped(CacheRegion::Window);
                after.lemma_still_accounted(self, Some(front));
            }
            after.lemma_expired_removed_wo_accounted((batch_size - 1) as nat, now);
        }
    }

    /// Removing expired entries leaves all records accounted for.
    proof fn lemma_expired_removed_ao_accounted(
        self,
        region: CacheRegion,
        batch_size: nat,
        now: u64,
    )
        requires
            self.valid(),
            self.accounted(),
        ensures
            self.expired_removed_ao(region, batch_size, now).accounted(),
        decreases batch_size,
    {
        if batch_size > 0 && self.front_expired_ao(region, now) {
            let front = self.deques.region(region)[0];
            let after = self.front_discarded_ao(region);
            self.lemma_front_discarded_ao(region);
            if self.live(front) {
                self.lemma_discarded_accounted(front);
            } else {
                assert(self.deques.distinct()) by {
                    reveal(CacheState::valid);
                }
                self.deques.lemma_popped(region);
                after.lemma_still_accounted(self, Some(front));
            }
            after.lemma_expired_removed_ao_accounted(region, (batch_size - 1) as nat, now);
        }
    }

    /// Evicting leaves all records accounted for.
    proof fn lemma_evicted_accounted(self, batch_size: nat, now: u64)
        requires
            self.valid(),
            self.accounted(),
        ensures
            self.evicted(batch_size, now).accounted(),
    {
        self.lemma_expired_removed_wo(batch_size, now);
        self.lemma_expired_removed_wo_accounted(batch_size, now);
        let a = self.evicted_wo(batch_size, now);
        a.lemma_expired_removed_ao(CacheRegion::Window, batch_size, now);
        a.lemma_expired_removed_ao_accounted(CacheRegion::Window, batch_size, now);
        let b = a.expired_removed_ao(CacheRegion::Window, batch_size, now);
        b.lemma_expired_removed_ao(CacheRegion::MainProbation, batch_size, now);
        b.lemma_expired_removed_ao_accounted(CacheRegion::MainProbation, batch_size, now);
        let c = b.expired_removed_ao(CacheRegion::MainProbation, batch_size, now);
        c.lemma_expired_removed_ao_accounted(CacheRegion::MainProtected, batch_size, now);
    }
}

/// The records of a new cache are accounted for: it has none.
pub proof fn law_fresh_is_accounted<K, V>(
    max_capacity: nat,
    time_to_live: Option<nat>,
    time_to_idle: Option<nat>,
)
    ensures
        CacheState::<K, V>::fresh(max_capacity, time_to_live, time_to_idle).accounted(),
{
}

/// Putting a value under a key leaves all records accounted for.
pub proof fn law_insert_keeps_accounted<K, V>(
    s: CacheState<K, V>,
    key: K,
    value: V,
    hash: u64,
    slot: usize,
    now: u64,
)
    requires
        s.valid(),
        s.accounted(),
        !s.records.contains_key(slot),
    ensures
        s.inserted(key, value, hash, slot, now).accounted(),
{
    reveal(CacheState::valid);
    let after = s.inserted(key, value, hash, slot, now);
    if s.store.contains_key(key) {
        assert(s.entry_recorded(key));
    }
    assert forall|x: usize| #[trigger] after.records.contains_key(x) implies after.watched(x) by {
        if s.records.contains_key(x) {
            assert(s.watched(x));
            if s.removal_pending(x) {
                let i = s.writes.index_of(WriteOp::Remove(x));
                assert(after.writes[i] == WriteOp::Remove(x));
            }
        }
    }
}

/// Invalidating a key leaves all records accounted for.
pub proof fn law_invalidate_keeps_accounted<K, V>(s: CacheState<K, V>, key: K)
    requires
        s.valid(),
        s.accounted(),
    ensures
        s.invalidated(key).accounted(),
{
    if s.store.contains_key(key) {
        let after = s.invalidated(key);
        let gone = s.store[key].slot;
        assert(after.writes[s.writes.len() as int] == WriteOp::Remove(gone));
        assert forall|x: usize| #[trigger] after.records.contains_key(x) implies after.watched(
            x,
        ) by {
            assert(s.watched(x));
            if s.removal_pending(x) {
                let i = s.writes.index_of(WriteOp::Remove(x));
                assert(after.writes[i] == WriteOp::Remove(x));
            }
            if s.live(x) && !after.live(x) {
                assert(x == gone);
            }
        }
    }
}

/// Looking a key up leaves all records accounted for.
pub proof fn law_get_keeps_accounted<K, V>(s: CacheState<K, V>, key: K, hash: u64, now: u64)
    requires
        s.valid(),
        s.accounted(),
    ensures
        s.looked_up(key, hash, now).accounted(),
{
    if s.store.contains_key(key) {
        assert(s.entry_recorded(key)) by {
            reveal(CacheState::valid);
        }
    }
    s.looked_up(key, hash, now).lemma_still_accounted(s, None);
}

/// Maintenance leaves all records accounted for, and unless it had nothing to do, each
/// record is then that of an entry in the store or of a place in the queues.
pub proof fn law_sync_keeps_no_unused_record<K, V>(s: CacheState<K, V>, now: u64)
    requires
        s.valid(),
        s.accounted(),
    ensures
        s.synced(now).accounted(),
        !s.idle() ==> forall|slot: usize| #[trigger]
            s.synced(now).records.contains_key(slot) ==> s.synced(now).in_use(slot),
{
    if !s.idle() {
        let read = s.reads_applied(s.reads.len());
        s.lemma_reads_applied(s.reads.len());
        read.lemma_still_accounted(s, None);
        read.lemma_writes_applied_accounted(s.writes.len());
        s.lemma_pending_applied();
        s.pending_applied().lemma_evicted_accounted(EVICTION_BATCH_SIZE as nat, now);
        s.lemma_synced(now);
        let done = s.round_done(now);
        let after = done.collected_sparing(None);
        assert forall|slot: usize| #[trigger] after.records.contains_key(slot) implies after.in_use(
            slot,
        ) by {
            assert(done.watched(slot));
            assert(done.in_use(slot));
        }
    }
}

/// Relief leaves all records accounted for, and unless there is room, each record is then
/// that of an entry in the store, of a place in the queues, or of the write that is left.
pub proof fn law_relief_keeps_no_unused_record<K, V>(s: CacheState<K, V>, now: u64)
    requires
        s.valid(),
        s.accounted(),
    ensures
        s.relieved(now).accounted(),
        s.writes.len() > WRITE_LOG_SIZE ==> forall|slot: usize| #[trigger]
            s.relieved(now).records.contains_key(slot) ==> s.relieved(now).in_use(slot) || slot
                == s.writes.last().slot(),
{
    if s.writes.len() > WRITE_LOG_SIZE {
        let n = (s.writes.len() - 1) as nat;
        let read = s.reads_applied(s.reads.len());
        let last = s.writes.last();
        s.lemma_reads_applied(s.reads.len());
        read.lemma_still_accounted(s, None);
        read.lemma_writes_applied(n);
        read.lemma_writes_applied_accounted(n);
        read.writes_applied(n).lemma_evicted_accounted(EVICTION_BATCH_SIZE as nat, now);
        s.lemma_but_last_applied(now);
        let done = s.but_last_applied(now);
        let after = s.relieved(now);
        assert(after.retired[0] == last.slot());
        assert forall|slot: usize| #[trigger] after.records.contains_key(slot) implies after.in_use(
            slot,
        ) || slot == last.slot() by {
            assert(done.watched(slot));
            if done.removal_pending(slot) {
                assert(done.writes[done.writes.index_of(WriteOp::Remove(slot))] == last);
            }
            if slot != last.slot() {
                assert(done.in_use(slot));
            }
        }
    }
}

} // verus!
