//! What maintenance does to entries that have expired, and to those that have not.

use crate::common::deque::{lemma_pop_is_without, lemma_without};
use crate::common::deques::CacheRegion;
use crate::sync::state::CacheState;
use vstd::prelude::*;

verus! {

impl<K, V> CacheState<K, V> {
    /// The places in the write order that have outlived the time to live at `now`.
    pub open spec fn expired_places_wo(self, now: u64) -> Set<usize> {
        self.deques.write_order.to_set().filter(|slot: usize| self.expired_wo(slot, now))
    }

    /// The places in a region that have outlived the time to idle at `now`.
    pub open spec fn expired_places_ao(self, region: CacheRegion, now: u64) -> Set<usize> {
        self.deques.region(region).to_set().filter(|slot: usize| self.expired_ao(slot, now))
    }

    /// Whether what has outlived the time to live comes first in the write order.
    pub open spec fn expired_first_wo(self, now: u64) -> bool {
        forall|i: int, j: int|
            0 <= i < j < self.deques.write_order.len() && #[trigger] self.expired_wo(
                self.deques.write_order[j],
                now,
            ) ==> #[trigger] self.expired_wo(self.deques.write_order[i], now)
    }

    /// Whether what has outlived the time to idle comes first in a region.
    pub open spec fn expired_first_ao(self, region: CacheRegion, now: u64) -> bool {
        forall|i: int, j: int|
            0 <= i < j < self.deques.region(region).len() && #[trigger] self.expired_ao(
                self.deques.region(region)[j],
                now,
            ) ==> #[trigger] self.expired_ao(self.deques.region(region)[i], now)
    }

    /// Discarding the front of the write order takes it out, and no entry but the one that
    /// stood there.
    pub proof fn lemma_front_left_wo(self)
        requires
            self.valid(),
            self.deques.write_order.len() > 0,
        ensures
            self.front_discarded_wo().deques.write_order == self.deques.write_order.drop_first(),
            self.front_discarded_wo().store.dom().len() + 1 >= self.store.dom().len(),
            forall|key: K| #[trigger]
                self.store.contains_key(key) && !self.front_discarded_wo().store.contains_key(key)
                    ==> self.store[key].slot == self.deques.write_order[0],
    {
        reveal(CacheState::valid);
        lemma_pop_is_without(self.deques.write_order);
    }

    /// Discarding the front of a region takes it out, and no entry but the one that stood
    /// there.
    pub proof fn lemma_front_left_ao(self, region: CacheRegion)
        requires
            self.valid(),
            self.deques.region(region).len() > 0,
        ensures
            self.front_discarded_ao(region).deques.region(region) == self.deques.region(
                region,
            ).drop_first(),
            self.front_discarded_ao(region).store.dom().len() + 1 >= self.store.dom().len(),
            forall|key: K| #[trigger]
                self.store.contains_key(key) && !self.front_discarded_ao(
                    region,
                ).store.contains_key(key) ==> self.store[key].slot == self.deques.region(region)[0],
    {
        reveal(CacheState::valid);
        lemma_pop_is_without(self.deques.region(region));
    }

    /// Of the entries, only those leave that have outlived the time to live, and no more
    /// than a batch of them.
    proof fn lemma_only_expired_wo(self, batch_size: nat, now: u64)
        requires
            self.valid(),
        ensures
            self.expired_removed_wo(batch_size, now).store.dom().len() + batch_size
                >= self.store.dom().len(),
            forall|key: K| #[trigger]
                self.store.contains_key(key) && !self.expired_removed_wo(
                    batch_size,
                    now,
                ).store.contains_key(key) ==> self.expired_wo(self.store[key].slot, now),
        decreases batch_size,
    {
        if batch_size > 0 && self.front_expired_wo(now) {
            let next = self.front_discarded_wo();
            self.lemma_front_discarded_wo();
            self.lemma_front_left_wo();
            next.lemma_only_expired_wo((batch_size - 1) as nat, now);
            assert forall|key: K| #[trigger]
                self.store.contains_key(key) && !self.expired_removed_wo(
                    batch_size,
                    now,
                ).store.contains_key(key) implies self.expired_wo(self.store[key].slot, now) by {
                if next.store.contains_key(key) {
                    assert(next.expired_wo(next.store[key].slot, now));
                }
            }
        }
    }

    /// Of the entries, only those leave that have outlived the time to idle, and no more
    /// than a batch of them.
    proof fn lemma_only_expired_ao(self, region: CacheRegion, batch_size: nat, now: u64)
        requires
            self.valid(),
        ensures
            self.expired_removed_ao(region, batch_size, now).store.dom().len() + batch_size
                >= self.store.dom().len(),
            forall|key: K| #[trigger]
                self.store.contains_key(key) && !self.expired_removed_ao(
                    region,
                    batch_size,
                    now,
                ).store.contains_key(key) ==> self.expired_ao(self.store[key].slot, now),
        decreases batch_size,
    {
        if batch_size > 0 && self.front_expired_ao(region, now) {
            let next = self.front_discarded_ao(region);
            self.lemma_front_discarded_ao(region);
            self.lemma_front_left_ao(region);
            next.lemma_only_expired_ao(region, (batch_size - 1) as nat, now);
            assert forall|key: K| #[trigger]
                self.store.contains_key(key) && !self.expired_removed_ao(
                    region,
                    batch_size,
                    now,
                ).store.contains_key(key) implies self.expired_ao(self.store[key].slot, now) by {
                if next.store.contains_key(key) {
                    assert(next.expired_ao(next.store[key].slot, now));
                }
            }
        }
    }
}

/// Behind its front, a queue holds all its members but the front.
proof fn lemma_behind_front(queue: Seq<usize>)
    requires
        queue.no_duplicates(),
        queue.len() > 0,
    ensures
        queue.drop_first().to_set() == queue.to_set().remove(queue[0]),
{
    lemma_pop_is_without(queue);
    lemma_without(queue, queue[0]);
    assert(queue.drop_first().to_set() =~= queue.to_set().remove(queue[0]));
}

/// Eviction takes out only entries that have expired: up to a batch of those that have
/// outlived the time to live, and then up to three of those that have outlived the time
/// to idle. It changes and adds none.
pub proof fn law_eviction_takes_only_expired<K, V>(s: CacheState<K, V>, batch_size: nat, now: u64)
    requires
        s.valid(),
    ensures
        forall|key: K| #[trigger]
            s.store.contains_key(key) && !s.evicted(batch_size, now).store.contains_key(key)
                ==> s.record_expired(s.store[key].slot, now),
        forall|key: K| #[trigger]
            s.evicted(batch_size, now).store.contains_key(key) ==> s.store.contains_key(key)
                && s.evicted(batch_size, now).store[key] == s.store[key],
        s.evicted_wo(batch_size, now).store.dom().len() + batch_size >= s.store.dom().len(),
        s.evicted(batch_size, now).store.dom().len() + 3 * batch_size >= s.evicted_wo(
            batch_size,
            now,
        ).store.dom().len(),
{
    s.lemma_evicted(batch_size, now);
    s.lemma_only_expired_wo(batch_size, now);
    let a = s.evicted_wo(batch_size, now);
    a.lemma_expired_removed_ao(CacheRegion::Window, batch_size, now);
    a.lemma_only_expired_ao(CacheRegion::Window, batch_size, now);
    let b = a.expired_removed_ao(CacheRegion::Window, batch_size, now);
    b.lemma_expired_removed_ao(CacheRegion::MainProbation, batch_size, now);
    b.lemma_only_expired_ao(CacheRegion::MainProbation, batch_size, now);
    let c = b.expired_removed_ao(CacheRegion::MainProbation, batch_size, now);
    c.lemma_only_expired_ao(CacheRegion::MainProtected, batch_size, now);
    assert forall|key: K| #[trigger]
        s.store.contains_key(key) && !s.evicted(batch_size, now).store.contains_key(
            key,
        ) implies s.record_expired(s.store[key].slot, now) by {
        if a.store.contains_key(key) {
            if b.store.contains_key(key) {
                if c.store.contains_key(key) {
                    assert(c.expired_ao(c.store[key].slot, now));
                } else {
                    assert(b.expired_ao(b.store[key].slot, now));
                }
            } else {
                assert(a.expired_ao(a.store[key].slot, now));
            }
        }
    }
}

/// Eviction removes all that has outlived the time to live, where it comes first in the
/// write order and is no more than a batch.
pub proof fn law_eviction_removes_expired_wo<K, V>(s: CacheState<K, V>, batch_size: nat, now: u64)
    requires
        s.valid(),
        s.expired_first_wo(now),
        s.expired_places_wo(now).len() <= batch_size,
    ensures
        forall|slot: usize| #[trigger]
            s.expired_removed_wo(batch_size, now).deques.write_order.contains(slot)
                ==> !s.expired_wo(slot, now),
    decreases batch_size,
{
    let order = s.deques.write_order;
    assert(order.no_duplicates()) by {
        reveal(CacheState::valid);
    }
    if s.front_expired_wo(now) {
        let next = s.front_discarded_wo();
        s.lemma_front_discarded_wo();
        s.lemma_front_left_wo();
        assert(s.expired_places_wo(now).contains(order[0]));
        assert(next.expired_places_wo(now) =~= s.expired_places_wo(now).remove(order[0])) by {
            lemma_behind_front(order);
        }
        assert(next.expired_first_wo(now)) by {
            assert forall|i: int, j: int|
                0 <= i < j < next.deques.write_order.len() && #[trigger] next.expired_wo(
                    next.deques.write_order[j],
                    now,
                ) implies #[trigger] next.expired_wo(next.deques.write_order[i], now) by {
                assert(s.expired_wo(order[j + 1], now));
                assert(s.expired_wo(order[i + 1], now));
            }
        }
        law_eviction_removes_expired_wo(next, (batch_size - 1) as nat, now);
        assert forall|slot: usize| #[trigger]
            s.expired_removed_wo(batch_size, now).deques.write_order.contains(
                slot,
            ) implies !s.expired_wo(slot, now) by {
            assert(!next.expired_wo(slot, now));
        }
    } else {
        assert forall|slot: usize| #[trigger] order.contains(slot) implies !s.expired_wo(
            slot,
            now,
        ) by {
            let i = order.index_of(slot);
            if i > 0 && s.expired_wo(order[i], now) {
                assert(s.expired_wo(order[0], now));
            }
        }
    }
}

/// Eviction removes all of a region that has outlived the time to idle, where it comes
/// first and is no more than a batch.
pub proof fn law_eviction_removes_expired_ao<K, V>(
    s: CacheState<K, V>,
    region: CacheRegion,
    batch_size: nat,
    now: u64,
)
    requires
        s.valid(),
        s.expired_first_ao(region, now),
        s.expired_places_ao(region, now).len() <= batch_size,
    ensures
        forall|slot: usize| #[trigger]
            s.expired_removed_ao(region, batch_size, now).deques.region(region).contains(slot)
                ==> !s.expired_ao(slot, now),
    decreases batch_size,
{
    let order = s.deques.region(region);
    assert(order.no_duplicates()) by {
        reveal(CacheState::valid);
    }
    if s.front_expired_ao(region, now) {
        let next = s.front_discarded_ao(region);
        s.lemma_front_discarded_ao(region);
        s.lemma_front_left_ao(region);
        assert(s.expired_places_ao(region, now).contains(order[0]));
        assert(next.expired_places_ao(region, now) =~= s.expired_places_ao(region, now).remove(
            order[0],
        )) by {
            lemma_behind_front(order);
        }
        assert(next.expired_first_ao(region, now)) by {
            assert forall|i: int, j: int|
                0 <= i < j < next.deques.region(region).len() && #[trigger] next.expired_ao(
                    next.deques.region(region)[j],
                    now,
                ) implies #[trigger] next.expired_ao(next.deques.region(region)[i], now) by {
                assert(s.expired_ao(order[j + 1], now));
                assert(s.expired_ao(order[i + 1], now));
            }
        }
        law_eviction_removes_expired_ao(next, region, (batch_size - 1) as nat, now);
        assert forall|slot: usize| #[trigger]
            s.expired_removed_ao(region, batch_size, now).deques.region(region).contains(
                slot,
            ) implies !s.expired_ao(slot, now) by {
            assert(!next.expired_ao(slot, now));
        }
    } else {
        assert forall|slot: usize| #[trigger] order.contains(slot) implies !s.expired_ao(
            slot,
            now,
        ) by {
            let i = order.index_of(slot);
            if i > 0 && s.expired_ao(order[i], now) {
                assert(s.expired_ao(order[0], now));
            }
        }
    }
}

} // verus!
