//! What holds of the cache as a whole.

use crate::common::deque::{lemma_moved_to_back, lemma_without, moved_to_back};
use crate::common::deques::CacheRegion;
use crate::common::entry::{ReadOp, WriteOp};
use crate::sync::expiry::law_eviction_takes_only_expired;
use crate::sync::state::{CacheState, EVICTION_BATCH_SIZE, WRITE_LOG_SIZE};
use vstd::prelude::*;

verus! {

// Reading back.

/// Whether an entry that was last written at `written` and last used at `used` has
/// expired at `now`: the time to live has passed since the one, or the time to idle
/// since the other.
pub open spec fn over<K, V>(s: CacheState<K, V>, written: u64, used: u64, now: u64) -> bool {
    ||| s.time_to_live is Some && written + s.time_to_live->Some_0 <= now
    ||| s.time_to_idle is Some && used + s.time_to_idle->Some_0 <= now
}

/// What was put under a key at `written` is found under it exactly until the time to
/// live or the time to idle has passed since then, if it is not used meanwhile.
pub proof fn law_get_after_insert<K, V>(
    s: CacheState<K, V>,
    key: K,
    value: V,
    hash: u64,
    slot: usize,
    written: u64,
    now: u64,
)
    requires
        s.valid(),
        !s.records.contains_key(slot),
    ensures
        s.inserted(key, value, hash, slot, written).lookup(key, now) == (if over(
            s,
            written,
            written,
            now,
        ) {
            None
        } else {
            Some(value)
        }),
{
    reveal(CacheState::valid);
    if s.store.contains_key(key) {
        assert(s.entry_recorded(key));
        assert(s.record_stamped(s.store[key].slot));
    }
}

/// Putting a value under a key changes what is found under no other key.
pub proof fn law_insert_leaves_others<K, V>(
    s: CacheState<K, V>,
    key: K,
    value: V,
    hash: u64,
    slot: usize,
    written: u64,
    other: K,
    now: u64,
)
    requires
        s.valid(),
        !s.records.contains_key(slot),
        other != key,
    ensures
        s.inserted(key, value, hash, slot, written).lookup(other, now) == s.lookup(other, now),
{
    reveal(CacheState::valid);
    if s.store.contains_key(key) {
        assert(s.entry_recorded(key));
    }
    if s.store.contains_key(other) {
        assert(s.entry_recorded(other));
    }
}

/// Under a key that was invalidated nothing is found.
pub proof fn law_get_after_invalidate<K, V>(s: CacheState<K, V>, key: K, now: u64)
    ensures
        s.invalidated(key).lookup(key, now) is None,
{
}

/// Invalidating a key changes what is found under no other key.
pub proof fn law_invalidate_leaves_others<K, V>(s: CacheState<K, V>, key: K, other: K, now: u64)
    requires
        other != key,
    ensures
        s.invalidated(key).lookup(other, now) == s.lookup(other, now),
{
}

/// A value that was found at `read` is found exactly until the time to idle has passed
/// since then, or the time to live since it was written: looking it up extends the one
/// and leaves the other as it is. That is so at once, whether or not the log of reads is
/// full.
pub proof fn law_get_extends_idle_time<K, V>(
    s: CacheState<K, V>,
    key: K,
    hash: u64,
    read: u64,
    now: u64,
)
    requires
        s.valid(),
        s.lookup(key, read) is Some,
    ensures
        s.looked_up(key, hash, read).lookup(key, now) == (if over(
            s,
            s.records[s.store[key].slot].last_modified->Some_0,
            read,
            now,
        ) {
            None
        } else {
            s.lookup(key, read)
        }),
{
    reveal(CacheState::valid);
    assert(s.entry_recorded(key));
    assert(s.record_stamped(s.store[key].slot));
}

/// Looking a key up changes what is found under no other key.
pub proof fn law_get_leaves_others<K, V>(
    s: CacheState<K, V>,
    key: K,
    hash: u64,
    read: u64,
    other: K,
    now: u64,
)
    requires
        s.valid(),
        other != key,
    ensures
        s.looked_up(key, hash, read).lookup(other, now) == s.lookup(other, now),
{
    reveal(CacheState::valid);
    if s.store.contains_key(key) {
        assert(s.entry_recorded(key));
    }
    if s.store.contains_key(other) {
        assert(s.entry_recorded(other));
    }
}

/// A lookup that finds nothing changes nothing that is found.
pub proof fn law_miss_changes_nothing_found<K, V>(
    s: CacheState<K, V>,
    key: K,
    hash: u64,
    read: u64,
    other: K,
    now: u64,
)
    requires
        s.lookup(key, read) is None,
    ensures
        s.looked_up(key, hash, read).lookup(other, now) == s.lookup(other, now),
{
}

/// Where the log of reads is full, a lookup is not noted.
pub proof fn law_full_read_log_discards_read<K, V>(s: CacheState<K, V>, key: K, hash: u64, now: u64)
    requires
        s.reads.len() >= 3_072,
    ensures
        s.looked_up(key, hash, now).reads == s.reads,
{
}

// Expiry.

/// Without a time to live and a time to idle, whatever the store holds is found at
/// any time.
pub proof fn law_no_policy_never_expires<K, V>(s: CacheState<K, V>, key: K, now: u64)
    requires
        s.time_to_live is None,
        s.time_to_idle is None,
    ensures
        s.lookup(key, now) == (if s.store.contains_key(key) {
            Some(*s.store[key].value)
        } else {
            None
        }),
{
}

/// An entry is found exactly until the time to live has passed since it was written, or
/// the time to idle since it was last used.
pub proof fn law_found_until_expired<K, V>(s: CacheState<K, V>, key: K, now: u64)
    requires
        s.valid(),
        s.store.contains_key(key),
    ensures
        ({
            let record = s.records[s.store[key].slot];
            s.lookup(key, now) is Some <==> !over(
                s,
                record.last_modified->Some_0,
                record.last_accessed->Some_0,
                now,
            )
        }),
{
    reveal(CacheState::valid);
    assert(s.entry_recorded(key));
    assert(s.record_stamped(s.store[key].slot));
}

/// Once an entry has expired, it stays expired until it is written again.
pub proof fn law_expired_stays_expired<K, V>(s: CacheState<K, V>, key: K, now: u64, later: u64)
    requires
        s.store.contains_key(key),
        s.lookup(key, now) is None,
        now <= later,
    ensures
        s.lookup(key, later) is None,
{
}

// Order of use.

/// An applied hit makes the entry the most recently used one, and leaves the others in
/// their order.
pub proof fn law_hit_makes_most_recent<K, V>(s: CacheState<K, V>, hash: u64, slot: usize)
    requires
        s.valid(),
        s.deques.probation.contains(slot),
    ensures
        ({
            let before = s.deques.probation;
            let after = s.read_applied(ReadOp::Hit(hash, slot)).deques.probation;
            &&& after.len() == before.len()
            &&& after.last() == slot
            &&& after.drop_last() == before.remove(before.index_of(slot))
        }),
{
    reveal(CacheState::valid);
    lemma_to_back(s.deques.probation, slot);
}

/// An applied update makes the entry the most recently used one, and where the entries are
/// in the order of writing, the most recently written one. It leaves the others in their
/// order.
pub proof fn law_update_makes_most_recent<K, V>(s: CacheState<K, V>, slot: usize)
    requires
        s.valid(),
        s.deques.probation.contains(slot),
    ensures
        ({
            let before = s.deques;
            let after = s.write_applied(WriteOp::Update(slot)).deques;
            &&& after.probation.last() == slot
            &&& after.probation.drop_last() == before.probation.remove(
                before.probation.index_of(slot),
            )
            &&& before.write_order.contains(slot) ==> {
                &&& after.write_order.last() == slot
                &&& after.write_order.drop_last() == before.write_order.remove(
                    before.write_order.index_of(slot),
                )
            }
        }),
{
    reveal(CacheState::valid);
    lemma_to_back(s.deques.probation, slot);
    if s.deques.write_order.contains(slot) {
        lemma_to_back(s.deques.write_order, slot);
    }
}

proof fn lemma_to_back(queue: Seq<usize>, slot: usize)
    requires
        queue.no_duplicates(),
        queue.contains(slot),
    ensures
        moved_to_back(queue, slot).len() == queue.len(),
        moved_to_back(queue, slot).last() == slot,
        moved_to_back(queue, slot).drop_last() == queue.remove(
            queue.index_of(slot),
        ),
{
    lemma_moved_to_back(queue, slot);
    lemma_without(queue, slot);
    let rest = queue.remove(queue.index_of(slot));
    assert(rest.push(slot).drop_last() =~= rest);
}

// Validity.

/// A new cache is valid, complete and bounded, and each operation keeps it so.
pub proof fn law_operations_keep_valid<K, V>(
    s: CacheState<K, V>,
    key: K,
    value: V,
    hash: u64,
    slot: usize,
    now: u64,
)
    requires
        s.valid(),
        s.complete(),
        s.bounded(),
        !s.records.contains_key(slot),
    ensures
        ({
            let fresh = CacheState::<K, V>::fresh(s.max_capacity, s.time_to_live, s.time_to_idle);
            fresh.valid() && fresh.complete() && fresh.bounded()
        }),
        ({
            let after = s.looked_up(key, hash, now);
            after.valid() && after.complete() && after.bounded()
        }),
        ({
            let after = s.synced(now);
            after.valid() && after.complete() && after.bounded()
        }),
        ({
            let after = s.inserted(key, value, hash, slot, now).relieved(now);
            after.valid() && after.complete() && after.bounded()
        }),
        ({
            let after = s.invalidated(key).relieved(now);
            after.valid() && after.complete() && after.bounded()
        }),
{
    let fresh = CacheState::<K, V>::fresh(s.max_capacity, s.time_to_live, s.time_to_idle);
    assert(fresh.valid() && fresh.complete()) by {
        reveal(CacheState::valid);
        reveal(CacheState::complete);
    }
    s.lemma_looked_up(key, hash, now);
    s.lemma_looked_up_complete(key, hash, now);
    s.lemma_synced(now);
    s.lemma_synced_complete(now);
    s.lemma_inserted(key, value, hash, slot, now);
    s.lemma_inserted_complete(key, value, hash, slot, now);
    s.inserted(key, value, hash, slot, now).lemma_relieved(now);
    s.inserted(key, value, hash, slot, now).lemma_relieved_complete(now);
    s.lemma_invalidated(key);
    s.lemma_invalidated_complete(key);
    s.invalidated(key).lemma_relieved(now);
    s.invalidated(key).lemma_relieved_complete(now);
}

// Maintenance.

/// The maximum, the time to live and the time to idle never change.
pub proof fn law_settings_never_change<K, V>(
    s: CacheState<K, V>,
    key: K,
    value: V,
    hash: u64,
    slot: usize,
    now: u64,
)
    requires
        s.valid(),
    ensures
        s.looked_up(key, hash, now).same_settings(s),
        s.inserted(key, value, hash, slot, now).same_settings(s),
        s.invalidated(key).same_settings(s),
        s.synced(now).same_settings(s),
        s.relieved(now).same_settings(s),
{
    s.lemma_synced(now);
    s.lemma_relieved(now);
}

/// Maintenance leaves nothing in the logs.
pub proof fn law_sync_works_off_logs<K, V>(s: CacheState<K, V>, now: u64)
    requires
        s.valid(),
    ensures
        s.synced(now).reads.len() == 0,
        s.synced(now).writes.len() == 0,
{
    s.lemma_synced(now);
}

/// Applying writes takes entries out of the store and changes no other.
proof fn lemma_writes_only_remove<K, V>(s: CacheState<K, V>, count: nat, key: K)
    ensures
        s.writes_applied(count).store.contains_key(key) ==> s.store.contains_key(key)
            && s.writes_applied(count).store[key] == s.store[key],
    decreases count,
{
    if count > 0 && s.writes.len() > 0 {
        lemma_writes_only_remove(s.write_done(), (count - 1) as nat, key);
    }
}

/// Maintenance takes entries out of the store. It adds none, and changes none.
pub proof fn law_sync_only_removes<K, V>(s: CacheState<K, V>, now: u64, key: K)
    requires
        s.valid(),
    ensures
        s.synced(now).store.contains_key(key) ==> s.store.contains_key(key)
            && s.synced(now).store[key] == s.store[key],
{
    s.lemma_reads_applied(s.reads.len());
    s.lemma_pending_applied();
    lemma_writes_only_remove(s.reads_applied(s.reads.len()), s.writes.len(), key);
    s.pending_applied().lemma_evicted(EVICTION_BATCH_SIZE as nat, now);
}

/// Relief takes entries out of the store. It adds none, and changes none.
pub proof fn law_relief_only_removes<K, V>(s: CacheState<K, V>, now: u64, key: K)
    requires
        s.valid(),
    ensures
        s.relieved(now).store.contains_key(key) ==> s.store.contains_key(key) && s.relieved(
            now,
        ).store[key] == s.store[key],
{
    if s.writes.len() > WRITE_LOG_SIZE {
        let n = (s.writes.len() - 1) as nat;
        let read = s.reads_applied(s.reads.len());
        s.lemma_reads_applied(s.reads.len());
        read.lemma_writes_applied(n);
        lemma_writes_only_remove(read, n, key);
        read.writes_applied(n).lemma_evicted(EVICTION_BATCH_SIZE as nat, now);
    }
}

/// Where entries do not expire, a second run of maintenance changes nothing.
pub proof fn law_second_sync_changes_nothing<K, V>(s: CacheState<K, V>, now: u64, later: u64)
    requires
        s.valid(),
        !s.has_expiry(),
    ensures
        s.synced(now).synced(later) == s.synced(now),
{
    s.lemma_synced(now);
}

// Capacity.

/// Maintenance brings the cache within its maximum.
pub proof fn law_sync_bounds<K, V>(s: CacheState<K, V>, now: u64)
    requires
        s.valid(),
        s.complete(),
        s.bounded(),
    ensures
        s.synced(now).store.dom().len() <= s.max_capacity,
{
    s.lemma_synced(now);
    s.lemma_synced_complete(now);
    s.synced(now).lemma_settled();
}

/// Applying what waits leaves as many entries as there were, up to the maximum, and not
/// one fewer: so does maintenance where entries do not expire.
pub proof fn law_sync_evicts_no_more_than_needed<K, V>(s: CacheState<K, V>, now: u64)
    requires
        s.valid(),
        s.complete(),
        s.bounded(),
    ensures
        s.pending_applied().store.dom().len() == (if s.store.dom().len() <= s.max_capacity {
            s.store.dom().len()
        } else {
            s.max_capacity
        }),
        s.time_to_live is None && s.time_to_idle is None ==> s.synced(now).store.dom().len() == (
        if s.store.dom().len() <= s.max_capacity {
            s.store.dom().len()
        } else {
            s.max_capacity
        }),
{
    s.lemma_pending_applied_count();
    if s.idle() {
        s.lemma_settled();
    }
}

/// After maintenance each entry has its places and each place its entry, whatever was
/// invalidated, evicted or turned away before.
pub proof fn law_sync_settles<K, V>(s: CacheState<K, V>, now: u64)
    requires
        s.valid(),
        s.complete(),
        s.bounded(),
    ensures
        forall|key: K| #[trigger]
            s.synced(now).store.contains_key(key) ==> s.synced(now).placed(
                s.synced(now).store[key].slot,
            ),
        forall|slot: usize| #[trigger]
            s.synced(now).deques.contains(slot) ==> s.synced(now).live(slot),
        s.synced(now).store.dom().len() == s.synced(now).deques.probation.len(),
{
    s.lemma_synced(now);
    s.lemma_synced_complete(now);
    s.synced(now).lemma_settled();
}

/// Evicting and then dropping records changes nothing that is found from then on.
proof fn lemma_swept<K, V>(s: CacheState<K, V>, time: u64, spared: Option<usize>, key: K, now: u64)
    requires
        s.valid(),
        s.reads.len() == 0,
        forall|i: int|
            0 <= i < s.writes.len() ==> spared == Some((#[trigger] s.writes[i]).slot()),
        time <= now,
    ensures
        s.collected_sparing(spared).lookup(key, now) == s.lookup(key, now),
        s.evicted(EVICTION_BATCH_SIZE as nat, time).collected_sparing(spared).lookup(key, now)
            == s.lookup(key, now),
{
    let done = s.evicted(EVICTION_BATCH_SIZE as nat, time);
    s.lemma_evicted(EVICTION_BATCH_SIZE as nat, time);
    s.lemma_collected(spared);
    done.lemma_collected(spared);
    if s.store.contains_key(key) {
        let slot = s.store[key].slot;
        assert(s.entry_recorded(key)) by {
            reveal(CacheState::valid);
        }
        assert(s.in_use(slot));
        law_eviction_takes_only_expired(s, EVICTION_BATCH_SIZE as nat, time);
        if done.store.contains_key(key) {
            assert(done.in_use(slot));
            assert(done.records.contains_key(slot));
        } else {
            assert(s.record_expired(slot, time));
        }
    }
}

/// Maintenance of a cache that is within its maximum changes nothing that is found from
/// then on: it takes out what has expired, and nothing else.
pub proof fn law_sync_within_capacity_keeps_what_is_found<K, V>(
    s: CacheState<K, V>,
    time: u64,
    key: K,
    now: u64,
)
    requires
        s.valid(),
        s.complete(),
        s.bounded(),
        s.store.dom().len() <= s.max_capacity,
        time <= now,
    ensures
        s.synced(time).lookup(key, now) == s.lookup(key, now),
        !s.has_expiry() ==> s.synced(time).store == s.store,
{
    s.lemma_pending_applied();
    s.lemma_pending_applied_count();
    if !s.idle() {
        lemma_swept(s.pending_applied(), time, None, key, now);
    }
}

/// Relief of a cache that is within its maximum changes nothing that is found from then
/// on either.
pub proof fn law_relief_within_capacity_keeps_what_is_found<K, V>(
    s: CacheState<K, V>,
    time: u64,
    key: K,
    now: u64,
)
    requires
        s.valid(),
        s.complete(),
        s.bounded(),
        s.store.dom().len() <= s.max_capacity,
        time <= now,
    ensures
        s.relieved(time).lookup(key, now) == s.lookup(key, now),
        !s.has_expiry() ==> s.relieved(time).store == s.store,
{
    if s.writes.len() > WRITE_LOG_SIZE {
        let n = (s.writes.len() - 1) as nat;
        let read = s.reads_applied(s.reads.len());
        s.lemma_reads_applied(s.reads.len());
        s.lemma_reads_applied_complete(s.reads.len());
        read.lemma_writes_applied(n);
        read.lemma_writes_applied_held(n);
        assert(s.writes.skip(n as int) =~= seq![s.writes.last()]);
        lemma_swept(read.writes_applied(n), time, Some(s.writes.last().slot()), key, now);
    }
}

/// Applying other writes does not touch an entry whose insertion waits behind them.
proof fn lemma_unplaced_kept<K, V>(s: CacheState<K, V>, count: nat, slot: usize)
    requires
        s.valid(),
        s.live(slot),
        count < s.writes.len(),
        s.writes.last() == WriteOp::Insert(slot),
    ensures
        s.writes_applied(count).live(slot),
    decreases count,
{
    if count > 0 {
        let next = s.write_done();
        s.lemma_write_done();
        assert(next.live(slot) && next.writes.last() == s.writes.last()) by {
            reveal(CacheState::valid);
            assert(s.writes[s.writes.len() - 1] == WriteOp::Insert(slot));
            assert(s.writes.contains(WriteOp::Insert(slot)));
            assert(s.writes[0] != s.writes[s.writes.len() - 1] || !(s.writes[0] is Insert));
            if s.deques.probation.len() > 0 {
                assert(s.deques.probation.contains(s.victim()));
                assert(s.deques.contains(s.victim()));
            }
        }
        lemma_unplaced_kept(next, (count - 1) as nat, slot);
    }
}

/// Evicting does not touch an entry that has no place.
proof fn lemma_unplaced_not_evicted_wo<K, V>(
    s: CacheState<K, V>,
    batch_size: nat,
    now: u64,
    slot: usize,
)
    requires
        s.valid(),
        s.live(slot),
        !s.deques.contains(slot),
    ensures
        s.expired_removed_wo(batch_size, now).live(slot),
        !s.expired_removed_wo(batch_size, now).deques.contains(slot),
    decreases batch_size,
{
    if batch_size > 0 && s.front_expired_wo(now) {
        s.lemma_front_discarded_wo();
        assert(s.deques.write_order.contains(s.deques.write_order[0]));
        assert(s.deques.contains(s.deques.write_order[0]));
        lemma_unplaced_not_evicted_wo(s.front_discarded_wo(), (batch_size - 1) as nat, now, slot);
    }
}

/// Evicting does not touch an entry that has no place.
proof fn lemma_unplaced_not_evicted_ao<K, V>(
    s: CacheState<K, V>,
    region: CacheRegion,
    batch_size: nat,
    now: u64,
    slot: usize,
)
    requires
        s.valid(),
        s.live(slot),
        !s.deques.contains(slot),
    ensures
        s.expired_removed_ao(region, batch_size, now).live(slot),
        !s.expired_removed_ao(region, batch_size, now).deques.contains(slot),
    decreases batch_size,
{
    if batch_size > 0 && s.front_expired_ao(region, now) {
        s.lemma_front_discarded_ao(region);
        assert(s.deques.region(region).contains(s.deques.region(region)[0]));
        assert(s.deques.contains(s.deques.region(region)[0]));
        lemma_unplaced_not_evicted_ao(
            s.front_discarded_ao(region),
            region,
            (batch_size - 1) as nat,
            now,
            slot,
        );
    }
}

/// A value that was put under a new key is found after the relief that its insertion
/// brought about as it is without it, however full the cache is.
pub proof fn law_new_entry_outlasts_relief<K, V>(
    s: CacheState<K, V>,
    key: K,
    value: V,
    hash: u64,
    slot: usize,
    written: u64,
    now: u64,
)
    requires
        s.valid(),
        !s.store.contains_key(key),
        !s.records.contains_key(slot),
    ensures
        s.inserted(key, value, hash, slot, written).relieved(written).lookup(key, now) == s.inserted(
            key,
            value,
            hash,
            slot,
            written,
        ).lookup(key, now),
{
    let noted = s.inserted(key, value, hash, slot, written);
    s.lemma_inserted(key, value, hash, slot, written);
    if noted.writes.len() > WRITE_LOG_SIZE {
        let batch_size = EVICTION_BATCH_SIZE as nat;
        let n = (noted.writes.len() - 1) as nat;
        let read = noted.reads_applied(noted.reads.len());
        noted.lemma_reads_applied(noted.reads.len());
        read.lemma_writes_applied(n);
        lemma_unplaced_kept(read, n, slot);
        let applied = read.writes_applied(n);
        noted.lemma_but_last_applied(written);
        assert(read.writes.skip(n as int) =~= seq![WriteOp::Insert(slot)]);
        assert(applied.writes[0] == WriteOp::Insert(slot));
        assert(!applied.deques.contains(slot)) by {
            reveal(CacheState::valid);
            assert(applied.writes.contains(WriteOp::Insert(slot)));
        }
        applied.lemma_evicted(batch_size, written);
        lemma_unplaced_not_evicted_wo(applied, batch_size, written, slot);
        let a = applied.evicted_wo(batch_size, written);
        a.lemma_expired_removed_ao(CacheRegion::Window, batch_size, written);
        lemma_unplaced_not_evicted_ao(a, CacheRegion::Window, batch_size, written, slot);
        let b = a.expired_removed_ao(CacheRegion::Window, batch_size, written);
        b.lemma_expired_removed_ao(CacheRegion::MainProbation, batch_size, written);
        lemma_unplaced_not_evicted_ao(b, CacheRegion::MainProbation, batch_size, written, slot);
        let c = b.expired_removed_ao(CacheRegion::MainProbation, batch_size, written);
        lemma_unplaced_not_evicted_ao(c, CacheRegion::MainProtected, batch_size, written, slot);
        let done = noted.but_last_applied(written);
        assert(done.live(slot));
        done.lemma_collected(Some(slot));
        assert(done.in_use(slot));
        assert(done.records.contains_key(slot));
        law_relief_only_removes(noted, written, key);
    }
}

/// Beyond its capacity the cache keeps the entry that was asked for more often: the new
/// one stays and the least recently used one goes, or the new one goes.
pub proof fn law_admission_by_frequency<K, V>(s: CacheState<K, V>, slot: usize)
    requires
        s.valid(),
        s.insertable(slot),
        s.live(slot),
        s.store.dom().len() > s.max_capacity,
        s.deques.probation.len() > 0,
        s.live(s.victim()),
    ensures
        ({
            let candidate = s.records[slot];
            let victim = s.records[s.victim()];
            let after = s.insert_applied(slot);
            if s.sketch.frequency(candidate.hash) > s.sketch.frequency(victim.hash) {
                &&& after.store == s.store.remove(*victim.key)
                &&& after.deques.probation.contains(slot)
            } else {
                &&& after.store == s.store.remove(*candidate.key)
                &&& after.deques == s.deques
            }
        }),
        s.insert_applied(slot).store.dom().len() == s.store.dom().len() - 1,
{
    reveal(CacheState::valid);
    if s.admits(slot, s.victim()) {
        let evicted = s.victim_evicted(s.victim());
        assert(s.insert_applied(slot).deques.probation == evicted.deques.probation.push(slot));
        assert(evicted.deques.probation.push(slot)[evicted.deques.probation.len() as int] == slot);
    }
}

/// Beyond its capacity, and with no entry to compete with, a new entry is turned away.
pub proof fn law_no_victim_no_admission<K, V>(s: CacheState<K, V>, slot: usize)
    requires
        s.live(slot),
        s.store.dom().len() > s.max_capacity,
        s.deques.probation.len() == 0,
    ensures
        s.insert_applied(slot).store == s.store.remove(*s.records[slot].key),
        s.insert_applied(slot).deques == s.deques,
{
}

/// An insertion within the capacity is admitted.
pub proof fn law_admission_within_capacity<K, V>(s: CacheState<K, V>, slot: usize)
    requires
        s.store.dom().len() <= s.max_capacity,
    ensures
        s.insert_applied(slot).store == s.store,
        s.insert_applied(slot).deques.probation == s.deques.probation.push(slot),
{
}

} // verus!
