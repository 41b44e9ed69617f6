//! Each entry has its places in the queues, or will get them, and each place has its
//! entry, or will go.

use crate::common::deque::{lemma_moved_to_back, lemma_pop_is_without, lemma_without};
use crate::common::deques::{CacheRegion, DequesState};
use crate::common::entry::{ReadOp, WriteOp};
use crate::sync::state::{CacheState, EVICTION_BATCH_SIZE, WRITE_LOG_SIZE};
use vstd::prelude::*;
use vstd::relations::injective_on;
use vstd::set_lib::{lemma_len_subset, lemma_map_size};

verus! {

impl<K, V> CacheState<K, V> {
    /// Whether the entry at `slot` has its places in the queues.
    pub open spec fn placed(self, slot: usize) -> bool {
        &&& self.deques.probation.contains(slot)
        &&& self.time_to_live is Some ==> self.deques.write_order.contains(slot)
    }

    /// Whether each entry of the store has its places or its insertion waits; each
    /// place and each waiting insertion is that of an entry of the store, or its removal
    /// waits; and only the removal of entries waits that have left the store, behind
    /// their insertion.
    #[verifier::opaque]
    pub open spec fn complete(self) -> bool {
        &&& forall|key: K| #[trigger]
            self.store.contains_key(key) ==> self.placed(self.store[key].slot)
                || self.insert_pending(self.store[key].slot)
        &&& forall|slot: usize| #[trigger]
            self.writes.contains(WriteOp::Remove(slot)) ==> !self.live(slot)
        &&& forall|slot: usize| #[trigger]
            self.deques.contains(slot) ==> self.live(slot) || self.removal_pending(slot)
        &&& forall|slot: usize| #[trigger]
            self.writes.contains(WriteOp::Insert(slot)) ==> self.live(slot)
                || self.removal_pending(slot)
        &&& forall|i: int, j: int|
            0 <= i < self.writes.len() && 0 <= j < self.writes.len()
                && (#[trigger] self.writes[j]) is Remove && #[trigger] self.writes[i]
                == WriteOp::Insert(self.writes[j].slot()) ==> i < j
    }

    /// Whether the write to be applied next takes a place out of the order of use.
    pub open spec fn removal_is_next(self) -> bool {
        &&& self.writes.len() > 0
        &&& self.writes[0] is Remove
        &&& self.deques.probation.contains(self.writes[0].slot())
    }

    /// Whether the order of use has no more places than the cache may have entries, not
    /// counting one that the next write takes out.
    pub open spec fn bounded(self) -> bool {
        self.deques.probation.len() <= self.max_capacity + if self.removal_is_next() {
            1nat
        } else {
            0nat
        }
    }

    /// Whether there are no more entries, or no more places in the order of use, than the
    /// maximum.
    pub open spec fn held(self) -> bool {
        self.deques.probation.len() <= self.max_capacity || self.store.dom().len()
            <= self.max_capacity
    }

    /// A state stays complete where entries, records and writes stay, and the queues
    /// keep their members.
    proof fn lemma_still_complete(self, before: Self)
        requires
            before.complete(),
            self.time_to_live == before.time_to_live,
            self.store == before.store,
            self.writes == before.writes,
            forall|slot: usize| #![trigger self.records[slot]]
                self.records[slot].key == before.records[slot].key,
            forall|slot: usize| #[trigger]
                self.deques.contains(slot) ==> before.deques.contains(slot),
            forall|slot: usize| #[trigger]
                before.deques.probation.contains(slot) ==> self.deques.probation.contains(slot),
            forall|slot: usize| #[trigger]
                before.deques.write_order.contains(slot) ==> self.deques.write_order.contains(
                    slot,
                ),
        ensures
            self.complete(),
    {
        reveal(CacheState::complete);
        assert forall|slot: usize| #[trigger] before.live(slot) implies self.live(slot) by {
            assert(self.records[slot].key == before.records[slot].key);
        }
        assert forall|slot: usize| #[trigger]
            self.writes.contains(WriteOp::Remove(slot)) implies !self.live(slot) by {
            assert(self.records[slot].key == before.records[slot].key);
        }
        assert forall|slot: usize| #[trigger] self.deques.contains(slot) implies self.live(slot)
            || self.removal_pending(slot) by {
            assert(before.deques.contains(slot));
        }
        assert forall|slot: usize| #[trigger]
            self.writes.contains(WriteOp::Insert(slot)) implies self.live(slot)
            || self.removal_pending(slot) by {
            assert(before.live(slot) || before.removal_pending(slot));
        }
        assert forall|key: K| #[trigger] self.store.contains_key(key) implies self.placed(
            self.store[key].slot,
        ) || self.insert_pending(self.store[key].slot) by {
            assert(before.store.contains_key(key));
        }
    }

    /// Applying reads leaves a complete state complete.
    pub proof fn lemma_reads_applied_complete(self, count: nat)
        requires
            self.valid(),
            self.complete(),
        ensures
            self.reads_applied(count).complete(),
            self.reads_applied(count).deques.probation.len() == self.deques.probation.len(),
            self.reads_applied(count).removal_is_next() == self.removal_is_next(),
        decreases count,
    {
        if count > 0 && self.reads.len() > 0 {
            let op = self.reads[0];
            let after = self.read_taken().read_applied(op);
            self.lemma_read_taken();
            self.read_taken().lemma_read_applied(op);
            if let ReadOp::Hit(_, slot) = op {
                assert(self.deques.distinct()) by {
                    reveal(CacheState::valid);
                }
                self.deques.lemma_moved(slot);
                lemma_moved_to_back(self.deques.probation, slot);
            }
            after.lemma_still_complete(self);
            after.lemma_reads_applied_complete((count - 1) as nat);
        }
    }

    /// What waits behind the oldest write is in its order.
    proof fn lemma_taken_removals_behind(self)
        requires
            self.complete(),
            self.writes.len() > 0,
        ensures
            ({
                let taken = self.write_taken();
                &&& forall|i: int, j: int|
                    0 <= i < taken.writes.len() && 0 <= j < taken.writes.len()
                        && (#[trigger] taken.writes[j]) is Remove && #[trigger] taken.writes[i]
                        == WriteOp::Insert(taken.writes[j].slot()) ==> i < j
                &&& self.writes[0] is Remove ==> !taken.writes.contains(
                    WriteOp::Insert(self.writes[0].slot()),
                )
            }),
    {
        reveal(CacheState::complete);
        let taken = self.write_taken();
        assert forall|i: int, j: int|
            0 <= i < taken.writes.len() && 0 <= j < taken.writes.len()
                && (#[trigger] taken.writes[j]) is Remove && #[trigger] taken.writes[i]
                == WriteOp::Insert(taken.writes[j].slot()) implies i < j by {
            assert(taken.writes[i] == self.writes[i + 1]);
            assert(taken.writes[j] == self.writes[j + 1]);
        }
        if self.writes[0] is Remove && taken.writes.contains(
            WriteOp::Insert(self.writes[0].slot()),
        ) {
            let i = taken.writes.index_of(WriteOp::Insert(self.writes[0].slot()));
            assert(self.writes[i + 1] == WriteOp::Insert(self.writes[0].slot()));
        }
    }

    /// Applying an insertion leaves a complete state complete.
    proof fn lemma_insert_done_complete(self)
        requires
            self.valid(),
            self.complete(),
            self.writes.len() > 0,
            self.writes[0] is Insert,
        ensures
            self.write_done().complete(),
    {
        let slot = self.writes[0].slot();
        let taken = self.write_taken();
        let after = self.write_done();
        self.lemma_write_taken();
        self.lemma_taken_removals_behind();
        reveal(CacheState::complete);
        assert(self.writes.contains(WriteOp::Insert(slot)));
        assert(after.records == self.records && after.writes == taken.writes);
        assert forall|x: usize| #[trigger]
            after.writes.contains(WriteOp::Remove(x)) <==> self.writes.contains(
            WriteOp::Remove(x),
        ) by {}
        let over = self.store.dom().len() > self.max_capacity;
        let admits = self.deques.probation.len() > 0 && self.admits(slot, self.victim());
        let victim = self.victim();
        assert(self.deques.distinct()) by {
            reveal(CacheState::valid);
        }
        let mid = if over && admits {
            taken.victim_evicted(victim)
        } else {
            taken
        };
        if over && admits {
            taken.lemma_victim_evicted(victim);
            lemma_without(self.deques.probation, victim);
            lemma_without(self.deques.write_order, victim);
        }
        assert forall|key: K| #[trigger] self.store.contains_key(key) implies self.entry_recorded(
            key,
        ) by {
            reveal(CacheState::valid);
        }
        if over && !admits {
            assert forall|key: K| #[trigger] after.store.contains_key(key) implies after.placed(
                after.store[key].slot,
            ) || after.insert_pending(after.store[key].slot) by {
                assert(self.store.contains_key(key));
                assert(self.entry_recorded(key));
                assert(self.placed(self.store[key].slot) || self.insert_pending(
                    self.store[key].slot,
                ));
            }
        } else {
            mid.lemma_admitted(slot);
            assert forall|key: K| #[trigger] after.store.contains_key(key) implies after.placed(
                after.store[key].slot,
            ) || after.insert_pending(after.store[key].slot) by {
                assert(self.store.contains_key(key));
                assert(self.entry_recorded(key));
                let x = self.store[key].slot;
                assert(self.placed(x) || self.insert_pending(x));
                if x != slot && self.placed(x) {
                    assert(x != victim || !(over && admits));
                    assert(mid.placed(x));
                    lemma_push_keeps(mid.deques.probation, slot, x);
                    lemma_push_keeps(mid.deques.write_order, slot, x);
                }
            }
        }
        assert forall|x: usize| #[trigger] after.deques.contains(x) implies after.live(x)
            || after.removal_pending(x) by {
            if x != slot {
                assert(mid.deques.contains(x));
                assert(self.deques.contains(x));
                assert(self.live(x) || self.removal_pending(x));
                if over && admits && x == victim && self.live(victim) {
                    taken.lemma_discarded(victim);
                    assert(!mid.deques.contains(victim));
                }
            }
            assert(self.live(x) || self.removal_pending(x));
            if over && admits && self.live(victim) && self.deques.probation.contains(victim) {
                assert(self.deques.contains(victim));
            }
        }
        assert forall|x: usize| #[trigger]
            after.writes.contains(WriteOp::Insert(x)) implies after.live(x)
            || after.removal_pending(x) by {
            assert(self.writes.contains(WriteOp::Insert(x)));
            assert(x != slot);
            if over && admits {
                assert(self.deques.probation.contains(victim));
                assert(self.deques.contains(victim));
                assert(x != victim) by {
                    reveal(CacheState::valid);
                }
            }
        }
    }

    /// Applying a write leaves a complete state complete.
    pub proof fn lemma_write_done_complete(self)
        requires
            self.valid(),
            self.complete(),
            self.writes.len() > 0,
        ensures
            self.write_done().complete(),
    {
        let op = self.writes[0];
        let taken = self.write_taken();
        let after = self.write_done();
        let slot = op.slot();
        self.lemma_write_taken();
        self.lemma_taken_removals_behind();
        assert(self.deques.distinct()) by {
            reveal(CacheState::valid);
        }
        match op {
            WriteOp::Insert(_) => {
                self.lemma_insert_done_complete();
            },
            WriteOp::Update(_) => {
                reveal(CacheState::complete);
                assert forall|key: K| #[trigger] taken.store.contains_key(key) implies taken.placed(
                    taken.store[key].slot,
                ) || taken.insert_pending(taken.store[key].slot) by {
                    assert(self.store.contains_key(key));
                }
                assert(taken.complete());
                taken.deques.lemma_moved(slot);
                taken.deques.moved_ao(slot).lemma_moved(slot);
                after.lemma_still_complete(taken);
            },
            WriteOp::Remove(_) => {
                reveal(CacheState::complete);
                taken.lemma_unlinked(slot);
                lemma_without(self.deques.probation, slot);
                lemma_without(self.deques.write_order, slot);
                assert(self.writes.contains(WriteOp::Remove(slot)));
                assert(!self.live(slot));
                assert forall|key: K| #[trigger] after.store.contains_key(key) implies after.placed(
                    after.store[key].slot,
                ) || after.insert_pending(after.store[key].slot) by {
                    reveal(CacheState::valid);
                    assert(self.store.contains_key(key));
                    assert(self.entry_recorded(key));
                    assert(self.placed(self.store[key].slot) || self.insert_pending(
                        self.store[key].slot,
                    ));
                }
                assert forall|x: usize| #[trigger]
                    after.writes.contains(WriteOp::Insert(x)) implies after.live(x)
                    || after.removal_pending(x) by {
                    assert(self.writes.contains(WriteOp::Insert(x)));
                    assert(self.live(x) || self.removal_pending(x));
                }
                assert forall|x: usize| #[trigger] after.deques.contains(x) implies after.live(x)
                    || after.removal_pending(x) by {
                    assert(self.deques.contains(x));
                    assert(self.live(x) || self.removal_pending(x));
                }
            },
        }
    }
}

/// A sequence holds what it held before another member was pushed.
proof fn lemma_push_keeps(s: Seq<usize>, slot: usize, x: usize)
    ensures
        s.contains(x) ==> s.push(slot).contains(x),
{
    if s.contains(x) {
        assert(s.push(slot)[s.index_of(x)] == x);
    }
}

/// The smaller of two numbers.
pub open spec fn lesser(a: nat, b: nat) -> nat {
    if a <= b {
        a
    } else {
        b
    }
}

impl<K, V> CacheState<K, V> {
    /// When no write waits, the entries of a complete state and their places in the
    /// order of use match one to one.
    pub proof fn lemma_settled(self)
        requires
            self.valid(),
            self.complete(),
            self.writes.len() == 0,
        ensures
            self.store.dom().len() == self.deques.probation.len(),
            forall|key: K| #[trigger]
                self.store.contains_key(key) ==> self.placed(self.store[key].slot),
            forall|slot: usize| #[trigger] self.deques.contains(slot) ==> self.live(slot),
    {
        reveal(CacheState::valid);
        reveal(CacheState::complete);
        let queue = self.deques.probation;
        let slots = queue.to_set();
        let f = |key: K| self.store[key].slot;
        queue.unique_seq_to_set();
        assert forall|key: K| #[trigger] self.store.contains_key(key) implies self.placed(
            self.store[key].slot,
        ) && self.entry_recorded(key) by {}
        assert forall|slot: usize| #[trigger] self.deques.contains(slot) implies self.live(
            slot,
        ) by {}
        assert(injective_on(f, self.store.dom())) by {
            assert forall|a: K, b: K|
                self.store.dom().contains(a) && self.store.dom().contains(b) && #[trigger] f(a)
                    == #[trigger] f(b) implies a == b by {
                assert(self.store.contains_key(a) && self.store.contains_key(b));
                assert(self.entry_recorded(a) && self.entry_recorded(b));
            }
        }
        assert(self.store.dom().map(f) =~= slots) by {
            assert forall|slot: usize| slots.contains(slot) implies self.store.dom().map(
                f,
            ).contains(slot) by {
                assert(self.deques.contains(slot));
                let key = *self.records[slot].key;
                assert(self.store.dom().contains(key) && f(key) == slot);
            }
            assert forall|slot: usize| self.store.dom().map(f).contains(
                slot,
            ) implies slots.contains(slot) by {
                let key = choose|key: K| self.store.dom().contains(key) && slot == f(key);
                assert(self.store.contains_key(key));
                assert(self.placed(self.store[key].slot));
            }
        }
        lemma_map_size(self.store.dom(), slots, f);
    }

    /// What applying a write does to the number of entries and of places.
    proof fn lemma_write_done_count(self)
        requires
            self.valid(),
            self.writes.len() > 0,
        ensures
            self.store.dom().len() <= self.max_capacity ==> self.write_done().store == self.store,
            self.store.dom().len() > self.max_capacity ==> {
                &&& self.write_done().store.dom().len() <= self.store.dom().len()
                &&& self.write_done().store.dom().len() >= self.max_capacity
                &&& self.write_done().deques.probation.len() <= self.deques.probation.len()
            },
            self.removal_is_next() ==> self.write_done().deques.probation.len() + 1
                == self.deques.probation.len(),
            self.held() || self.bounded() ==> self.write_done().held(),
    {
        reveal(CacheState::valid);
        let slot = self.writes[0].slot();
        let taken = self.write_taken();
        lemma_moved_to_back(self.deques.probation, slot);
        lemma_without(self.deques.probation, slot);
        if self.deques.probation.len() > 0 {
            assert(self.deques.probation.contains(self.victim()));
            lemma_without(self.deques.probation, self.victim());
        }
    }

    /// Applying writes leaves the state complete, and as many entries as there were, or
    /// more than the maximum.
    pub proof fn lemma_writes_applied_held(self, count: nat)
        requires
            self.valid(),
            self.complete(),
            self.held() || self.bounded(),
        ensures
            self.writes_applied(count).complete(),
            count > 0 && self.writes.len() > 0 || self.held() ==> self.writes_applied(
                count,
            ).held(),
            self.store.dom().len() <= self.max_capacity ==> self.writes_applied(count).store
                == self.store,
            self.store.dom().len() > self.max_capacity ==> self.max_capacity
                <= self.writes_applied(count).store.dom().len() <= self.store.dom().len(),
        decreases count,
    {
        if count > 0 && self.writes.len() > 0 {
            self.lemma_write_done();
            self.lemma_write_done_complete();
            self.lemma_write_done_count();
            self.write_done().lemma_writes_applied_held((count - 1) as nat);
        }
    }

    /// Applying what waits leaves the state complete, and as many entries as there were,
    /// up to the maximum.
    pub proof fn lemma_pending_applied_count(self)
        requires
            self.valid(),
            self.complete(),
            self.bounded(),
        ensures
            self.pending_applied().complete(),
            self.pending_applied().bounded(),
            self.pending_applied().store.dom().len() == lesser(
                self.store.dom().len(),
                self.max_capacity,
            ),
            self.store.dom().len() <= self.max_capacity ==> self.pending_applied().store
                == self.store,
    {
        let read = self.reads_applied(self.reads.len());
        self.lemma_reads_applied(self.reads.len());
        self.lemma_reads_applied_complete(self.reads.len());
        read.lemma_writes_applied_held(self.writes.len());
        self.lemma_pending_applied();
        self.pending_applied().lemma_settled();
    }

    /// Discarding an entry that has a place leaves a complete state complete.
    proof fn lemma_discarded_complete(self, slot: usize)
        requires
            self.valid(),
            self.complete(),
            self.live(slot),
            self.deques.contains(slot),
        ensures
            self.discarded(slot).complete(),
            self.discarded(slot).deques.probation.len() <= self.deques.probation.len(),
    {
        reveal(CacheState::valid);
        reveal(CacheState::complete);
        let after = self.discarded(slot);
        self.lemma_discarded(slot);
        lemma_without(self.deques.probation, slot);
        lemma_without(self.deques.write_order, slot);
        assert forall|key: K| #[trigger] after.store.contains_key(key) implies after.placed(
            after.store[key].slot,
        ) || after.insert_pending(after.store[key].slot) by {
            assert(self.store.contains_key(key));
            assert(self.entry_recorded(key));
            assert(self.placed(self.store[key].slot) || self.insert_pending(
                self.store[key].slot,
            ));
        }
        assert forall|x: usize| #[trigger] after.deques.contains(x) implies after.live(x)
            || after.removal_pending(x) by {
            assert(self.deques.contains(x));
        }
        assert forall|x: usize| #[trigger]
            after.writes.contains(WriteOp::Insert(x)) implies after.live(x)
            || after.removal_pending(x) by {
            assert(x != slot);
        }
    }

    /// A place that goes leaves a complete state complete, if its entry has left the
    /// store.
    proof fn lemma_place_dropped_complete(self, deques: DequesState, slot: usize)
        requires
            self.valid(),
            self.complete(),
            !self.live(slot),
            forall|x: usize| #[trigger] deques.contains(x) ==> self.deques.contains(x),
            forall|x: usize| #[trigger]
                self.deques.probation.contains(x) && x != slot ==> deques.probation.contains(x),
            forall|x: usize| #[trigger]
                self.deques.write_order.contains(x) && x != slot ==> deques.write_order.contains(
                    x,
                ),
        ensures
            self.with_deques(deques).with_retired(slot).complete(),
    {
        reveal(CacheState::valid);
        reveal(CacheState::complete);
        let after = self.with_deques(deques).with_retired(slot);
        assert forall|key: K| #[trigger] after.store.contains_key(key) implies after.placed(
            after.store[key].slot,
        ) || after.insert_pending(after.store[key].slot) by {
            assert(self.store.contains_key(key));
            assert(self.entry_recorded(key));
            assert(self.placed(self.store[key].slot) || self.insert_pending(
                self.store[key].slot,
            ));
        }
        assert forall|x: usize| #[trigger] after.deques.contains(x) implies after.live(x)
            || after.removal_pending(x) by {
            assert(self.deques.contains(x));
        }
    }

    /// Removing expired entries leaves a complete state complete.
    proof fn lemma_expired_removed_wo_complete(self, batch_size: nat, now: u64)
        requires
            self.valid(),
            self.complete(),
        ensures
            self.expired_removed_wo(batch_size, now).complete(),
            self.expired_removed_wo(batch_size, now).deques.probation.len()
                <= self.deques.probation.len(),
        decreases batch_size,
    {
        if batch_size > 0 && self.front_expired_wo(now) {
            let slot = self.deques.write_order[0];
            let after = self.front_discarded_wo();
            assert(self.deques.write_order.contains(slot));
            assert(self.deques.contains(slot));
            self.lemma_front_discarded_wo();
            if self.live(slot) {
                self.lemma_discarded_complete(slot);
            } else {
                assert(self.deques.distinct()) by {
                    reveal(CacheState::valid);
                }
                lemma_pop_is_without(self.deques.write_order);
                lemma_without(self.deques.write_order, slot);
                self.lemma_place_dropped_complete(self.deques.popped_wo(), slot);
            }
            after.lemma_expired_removed_wo_complete((batch_size - 1) as nat, now);
        }
    }

    /// Removing expired entries leaves a complete state complete.
    proof fn lemma_expired_removed_ao_complete(
        self,
        region: CacheRegion,
        batch_size: nat,
        now: u64,
    )
        requires
            self.valid(),
            self.complete(),
        ensures
            self.expired_removed_ao(region, batch_size, now).complete(),
            self.expired_removed_ao(region, batch_size, now).deques.probation.len()
                <= self.deques.probation.len(),
        decreases batch_size,
    {
        if batch_size > 0 && self.front_expired_ao(region, now) {
            let slot = self.deques.region(region)[0];
            let after = self.front_discarded_ao(region);
            assert(self.deques.region(region).contains(slot));
            assert(self.deques.contains(slot));
            self.lemma_front_discarded_ao(region);
            if self.live(slot) {
                self.lemma_discarded_complete(slot);
            } else {
                assert(self.deques.distinct()) by {
                    reveal(CacheState::valid);
                }
                lemma_pop_is_without(self.deques.region(region));
                lemma_without(self.deques.region(region), slot);
                self.lemma_place_dropped_complete(self.deques.popped_ao(region), slot);
            }
            after.lemma_expired_removed_ao_complete(region, (batch_size - 1) as nat, now);
        }
    }

    /// Evicting leaves a complete state complete, and no more entries or places than there
    /// were.
    pub proof fn lemma_evicted_complete(self, batch_size: nat, now: u64)
        requires
            self.valid(),
            self.complete(),
        ensures
            self.evicted(batch_size, now).complete(),
            self.held() ==> self.evicted(batch_size, now).held(),
    {
        self.lemma_evicted(batch_size, now);
        self.lemma_expired_removed_wo_complete(batch_size, now);
        let a = self.evicted_wo(batch_size, now);
        a.lemma_expired_removed_ao(CacheRegion::Window, batch_size, now);
        a.lemma_expired_removed_ao_complete(CacheRegion::Window, batch_size, now);
        let b = a.expired_removed_ao(CacheRegion::Window, batch_size, now);
        b.lemma_expired_removed_ao(CacheRegion::MainProbation, batch_size, now);
        b.lemma_expired_removed_ao_complete(CacheRegion::MainProbation, batch_size, now);
        let c = b.expired_removed_ao(CacheRegion::MainProbation, batch_size, now);
        c.lemma_expired_removed_ao_complete(CacheRegion::MainProtected, batch_size, now);
        let after = self.evicted(batch_size, now);
        assert(after.store.dom().subset_of(self.store.dom())) by {
            assert forall|key: K| #[trigger] after.store.dom().contains(key) implies self.store.dom().contains(
                key,
            ) by {
                assert(after.store.contains_key(key));
            }
        }
        assert(self.store.dom().finite()) by {
            reveal(CacheState::valid);
        }
        lemma_len_subset(after.store.dom(), self.store.dom());
    }

    /// Dropping records that are not in use leaves a complete state complete, if no
    /// operation waits but for the entry whose record is spared.
    proof fn lemma_collected_complete(self, spared: Option<usize>)
        requires
            self.valid(),
            self.complete(),
            self.reads.len() == 0,
            forall|i: int|
                0 <= i < self.writes.len() ==> spared == Some((#[trigger] self.writes[i]).slot()),
        ensures
            self.collected_sparing(spared).complete(),
    {
        reveal(CacheState::complete);
        reveal(CacheState::valid);
        let after = self.collected_sparing(spared);
        self.lemma_collected(spared);
        assert forall|op: WriteOp| #[trigger] self.writes.contains(op) implies spared == Some(
            op.slot(),
        ) && self.records.contains_key(op.slot()) by {
            assert(self.writes[self.writes.index_of(op)] == op);
        }
        assert forall|slot: usize| #[trigger]
            self.records.contains_key(slot) && (self.in_use(slot) || spared == Some(
                slot,
            )) implies after.live(slot) == self.live(slot) by {
            assert(after.records.contains_key(slot));
        }
        assert forall|slot: usize| #[trigger] after.deques.contains(slot) implies after.live(slot)
            || after.removal_pending(slot) by {
            assert(self.deques.contains(slot));
            assert(self.in_use(slot));
            assert(self.records.contains_key(slot));
        }
        assert forall|key: K| #[trigger] after.store.contains_key(key) implies after.placed(
            after.store[key].slot,
        ) || after.insert_pending(after.store[key].slot) by {
            assert(self.store.contains_key(key));
            assert(self.placed(self.store[key].slot) || self.insert_pending(
                self.store[key].slot,
            ));
        }
    }

    /// Maintenance leaves a complete and bounded state complete and bounded.
    pub proof fn lemma_synced_complete(self, now: u64)
        requires
            self.valid(),
            self.complete(),
            self.bounded(),
        ensures
            self.round_done(now).complete(),
            self.synced(now).complete(),
            self.synced(now).bounded(),
    {
        self.lemma_pending_applied();
        self.lemma_pending_applied_count();
        self.lemma_synced(now);
        self.pending_applied().lemma_evicted(EVICTION_BATCH_SIZE as nat, now);
        self.pending_applied().lemma_evicted_complete(EVICTION_BATCH_SIZE as nat, now);
        self.round_done(now).lemma_settled();
        self.round_done(now).lemma_collected_complete(None);
    }

    /// When one write waits, and there are no more entries or no more places than the
    /// maximum, a complete state is bounded.
    proof fn lemma_one_waiting(self)
        requires
            self.valid(),
            self.complete(),
            self.held(),
            self.writes.len() == 1,
        ensures
            self.bounded(),
    {
        reveal(CacheState::valid);
        reveal(CacheState::complete);
        let op = self.writes[0];
        let queue = self.deques.probation;
        let rest = if self.removal_is_next() {
            queue.to_set().remove(op.slot())
        } else {
            queue.to_set()
        };
        queue.unique_seq_to_set();
        let f = |slot: usize| *self.records[slot].key;
        assert forall|slot: usize| #[trigger] rest.contains(slot) implies self.live(slot) by {
            assert(self.deques.contains(slot));
            if self.writes.contains(WriteOp::Remove(slot)) {
                assert(self.writes[self.writes.index_of(WriteOp::Remove(slot))] == op);
            }
        }
        assert(injective_on(f, rest)) by {
            assert forall|a: usize, b: usize|
                rest.contains(a) && rest.contains(b) && #[trigger] f(a) == #[trigger] f(
                    b,
                ) implies a == b by {
                assert(self.live(a) && self.live(b));
            }
        }
        assert(rest.finite());
        lemma_map_size(rest, rest.map(f), f);
        assert(rest.map(f).subset_of(self.store.dom())) by {
            assert forall|key: K| #[trigger] rest.map(f).contains(key) implies self.store.dom().contains(
                key,
            ) by {
                let slot = choose|slot: usize| rest.contains(slot) && key == f(slot);
                assert(self.live(slot));
            }
        }
        lemma_len_subset(rest.map(f), self.store.dom());
    }

    /// Relief leaves a complete and bounded state complete and bounded.
    pub proof fn lemma_relieved_complete(self, now: u64)
        requires
            self.valid(),
            self.complete(),
            self.bounded(),
        ensures
            self.relieved(now).complete(),
            self.relieved(now).bounded(),
    {
        if self.writes.len() > WRITE_LOG_SIZE {
            let read = self.reads_applied(self.reads.len());
            let n = (self.writes.len() - 1) as nat;
            self.lemma_reads_applied(self.reads.len());
            self.lemma_reads_applied_complete(self.reads.len());
            read.lemma_writes_applied(n);
            read.lemma_writes_applied_held(n);
            read.writes_applied(n).lemma_evicted_complete(EVICTION_BATCH_SIZE as nat, now);
            self.lemma_but_last_applied(now);
            let done = self.but_last_applied(now);
            done.lemma_one_waiting();
            done.lemma_collected_complete(Some(self.writes.last().slot()));
        }
    }

    /// A lookup leaves a complete and bounded state complete and bounded.
    pub proof fn lemma_looked_up_complete(self, key: K, hash: u64, now: u64)
        requires
            self.complete(),
            self.bounded(),
        ensures
            self.looked_up(key, hash, now).complete(),
            self.looked_up(key, hash, now).bounded(),
    {
        self.looked_up(key, hash, now).lemma_still_complete(self);
    }

    /// Putting a value under a key leaves a complete and bounded state complete and
    /// bounded.
    pub proof fn lemma_inserted_complete(
        self,
        key: K,
        value: V,
        hash: u64,
        slot: usize,
        now: u64,
    )
        requires
            self.valid(),
            self.complete(),
            self.bounded(),
            !self.records.contains_key(slot),
        ensures
            self.inserted(key, value, hash, slot, now).complete(),
            self.inserted(key, value, hash, slot, now).bounded(),
    {
        reveal(CacheState::valid);
        reveal(CacheState::complete);
        let after = self.inserted(key, value, hash, slot, now);
        let known = self.store.contains_key(key);
        let op = after.writes.last();
        let at = op.slot();
        if known {
            assert(self.entry_recorded(key));
        }
        assert(after.writes[self.writes.len() as int] == op);
        assert forall|x: WriteOp|
            #![trigger after.writes.contains(x)]
            #![trigger self.writes.contains(x)]
            after.writes.contains(x) <==> x == op || self.writes.contains(x) by {
            lemma_pushed_op(self.writes, op, x);
        }
        assert forall|x: usize| #[trigger] self.records.contains_key(x) implies after.live(x)
            == self.live(x) by {
            if known && x != at {
                assert(self.store[key].slot == at);
            }
        }
        assert forall|x: usize| #[trigger]
            self.writes.contains(WriteOp::Remove(x)) implies self.records.contains_key(x) by {
            let i = self.writes.index_of(WriteOp::Remove(x));
            assert(self.records.contains_key(self.writes[i].slot()));
        }
        assert forall|x: usize| #[trigger]
            self.writes.contains(WriteOp::Insert(x)) implies self.records.contains_key(x) by {
            let i = self.writes.index_of(WriteOp::Insert(x));
            assert(self.records.contains_key(self.writes[i].slot()));
        }
        assert(after.live(at));
        assert forall|k: K| #[trigger] after.store.contains_key(k) implies after.placed(
            after.store[k].slot,
        ) || after.insert_pending(after.store[k].slot) by {
            if k != key || known {
                assert(self.store.contains_key(k));
                assert(self.placed(self.store[k].slot) || self.insert_pending(
                    self.store[k].slot,
                ));
            }
        }
        assert forall|i: int, j: int|
            0 <= i < after.writes.len() && 0 <= j < after.writes.len()
                && (#[trigger] after.writes[j]) is Remove && #[trigger] after.writes[i]
                == WriteOp::Insert(after.writes[j].slot()) implies i < j by {
            assert(after.writes[j] == self.writes[j]);
            assert(self.writes.contains(after.writes[j]));
            if i < self.writes.len() {
                assert(after.writes[i] == self.writes[i]);
            } else {
                assert(self.writes.contains(WriteOp::Remove(after.writes[j].slot())));
            }
        }
    }

    /// Invalidating a key leaves a complete and bounded state complete and bounded.
    pub proof fn lemma_invalidated_complete(self, key: K)
        requires
            self.valid(),
            self.complete(),
            self.bounded(),
        ensures
            self.invalidated(key).complete(),
            self.invalidated(key).bounded(),
    {
        if self.store.contains_key(key) {
            reveal(CacheState::valid);
            reveal(CacheState::complete);
            let after = self.invalidated(key);
            let op = after.writes.last();
            assert(self.entry_recorded(key));
            assert(after.writes[self.writes.len() as int] == op);
            assert forall|x: WriteOp|
                #![trigger after.writes.contains(x)]
                #![trigger self.writes.contains(x)]
                after.writes.contains(x) <==> x == op || self.writes.contains(x) by {
                lemma_pushed_op(self.writes, op, x);
            }
            assert forall|k: K| #[trigger] after.store.contains_key(k) implies after.placed(
                after.store[k].slot,
            ) || after.insert_pending(after.store[k].slot) by {
                assert(self.store.contains_key(k));
                assert(self.placed(self.store[k].slot) || self.insert_pending(
                    self.store[k].slot,
                ));
            }
            assert forall|x: usize| #[trigger]
                after.writes.contains(WriteOp::Insert(x)) implies after.live(x)
                || after.removal_pending(x) by {
                assert(self.writes.contains(WriteOp::Insert(x)));
            }
            assert forall|i: int, j: int|
                0 <= i < after.writes.len() && 0 <= j < after.writes.len()
                    && (#[trigger] after.writes[j]) is Remove && #[trigger] after.writes[i]
                    == WriteOp::Insert(after.writes[j].slot()) implies i < j by {
                assert(after.writes[i] == self.writes[i]);
                if j < self.writes.len() {
                    assert(after.writes[j] == self.writes[j]);
                }
            }
        }
    }
}

/// A log holds what it held before another operation was pushed, and that operation.
proof fn lemma_pushed_op(writes: Seq<WriteOp>, op: WriteOp, x: WriteOp)
    ensures
        writes.push(op).contains(x) <==> x == op || writes.contains(x),
{
    let after = writes.push(op);
    assert(after[writes.len() as int] == op);
    if writes.contains(x) {
        assert(after[writes.index_of(x)] == x);
    }
    if after.contains(x) && x != op {
        assert(writes[after.index_of(x)] == x);
    }
}

} // verus!
