//! What each step does to each part of the state, and leaves alone.

use crate::common::deque::{
    index_before, lemma_index_before, lemma_pop_is_without, lemma_without, without,
};
use crate::common::deques::{CacheRegion, DequesState};
use crate::common::entry::{ReadOp, Record, ValueEntry, WriteOp};
use crate::common::frequency_sketch::{
    law_fresh_dimensions, law_frequency_is_bounded, law_increment_counts_additions,
    law_increment_raises_frequency, SketchState,
};
use crate::common::housekeeper::{pace_nanos, SyncPace, PERIODICAL_SYNC_INITIAL_DELAY_MILLIS};
use crate::sync::state::{
    pace_after, reads_due, writes_due, CacheState, EVICTION_BATCH_SIZE, MAX_SYNC_REPEATS,
    READ_LOG_FLUSH_POINT, READ_LOG_SIZE, WRITE_LOG_FLUSH_POINT, WRITE_LOG_HIGH_WATER_MARK,
    WRITE_LOG_LOW_WATER_MARK, WRITE_LOG_SIZE,
};
use vstd::prelude::*;

verus! {

// What is made, and what the limits are.

/// A new cache has the maximum and the durations that it was made with, holds nothing, and
/// has nothing waiting and nothing counted. Its sketch is for 32 keys to each entry, and
/// for 100 at least.
pub proof fn law_fresh_is_as_asked<K, V>(
    max_capacity: nat,
    time_to_live: Option<nat>,
    time_to_idle: Option<nat>,
)
    ensures
        ({
            let s = CacheState::<K, V>::fresh(max_capacity, time_to_live, time_to_idle);
            &&& s.max_capacity == max_capacity
            &&& s.time_to_live == time_to_live
            &&& s.time_to_idle == time_to_idle
            &&& s.store == Map::<K, ValueEntry<V>>::empty()
            &&& s.records == Map::<usize, Record<K>>::empty()
            &&& s.deques.window.len() == 0
            &&& s.deques.probation.len() == 0
            &&& s.deques.protected.len() == 0
            &&& s.deques.write_order.len() == 0
            &&& s.reads.len() == 0
            &&& s.writes.len() == 0
            &&& s.retired.len() == 0
            &&& s.sketch.wf()
            &&& s.sketch.size == 0
            &&& 320 * max_capacity <= 0x7FFF_FFFF && max_capacity >= 4 ==> s.sketch.sample_size
                == 320 * max_capacity
            &&& max_capacity < 4 ==> s.sketch.sample_size == 1_000
            &&& max_capacity >= 4 && 32 * max_capacity <= 0x3FFF_FFFF ==> s.sketch.table.len()
                >= 32 * max_capacity
            &&& s.sketch.table.len() >= 100
        }),
{
    let n: nat = if 32 * max_capacity > 100 {
        32 * max_capacity
    } else {
        100
    };
    law_fresh_dimensions(n);
    if n > 0x3FFF_FFFF {
        crate::common::frequency_sketch::law_fresh_table_is_large(n);
    }
}

/// A cache has an expiration policy exactly where it has a time to live or a time to idle.
pub proof fn law_expiry_by_either_policy<K, V>(s: CacheState<K, V>)
    ensures
        s.has_expiry() <==> s.time_to_live is Some || s.time_to_idle is Some,
{
}

/// States with the same settings have the same maximum and the same durations.
pub proof fn law_same_settings<K, V>(s: CacheState<K, V>, other: CacheState<K, V>)
    ensures
        s.same_settings(other) <==> {
            &&& s.max_capacity == other.max_capacity
            &&& s.time_to_live == other.time_to_live
            &&& s.time_to_idle == other.time_to_idle
        },
{
}

/// The limits of the logs, and what they lead to: maintenance is called for from 512
/// waiting operations on; it asks for the fast pace where it is still called for, for the
/// normal one up to 256 waiting writes, and for none in between.
pub proof fn law_limits(n: nat, due: bool)
    ensures
        READ_LOG_FLUSH_POINT == 512,
        WRITE_LOG_FLUSH_POINT == 512,
        READ_LOG_SIZE == 3_072,
        WRITE_LOG_SIZE == 3_072,
        WRITE_LOG_LOW_WATER_MARK == 256,
        WRITE_LOG_HIGH_WATER_MARK == 1_536,
        EVICTION_BATCH_SIZE == 500,
        MAX_SYNC_REPEATS == 4,
        PERIODICAL_SYNC_INITIAL_DELAY_MILLIS == 500,
        reads_due(n) <==> n >= 512,
        writes_due(n) <==> n >= 512,
        due ==> pace_after(due, n) == Some(SyncPace::Fast),
        !due && n <= 256 ==> pace_after(due, n) == Some(SyncPace::Normal),
        !due && n > 256 ==> pace_after(due, n) is None,
        pace_nanos(SyncPace::Normal) == 300_000_000,
        pace_nanos(SyncPace::Fast) == 500,
{
}

// Lookups.

/// A lookup finds the value of the key's entry, unless the time to live has passed since
/// the entry was written or the time to idle since it was last used.
pub proof fn law_lookup_by_arithmetic<K, V>(s: CacheState<K, V>, key: K, now: u64)
    requires
        s.valid(),
    ensures
        !s.store.contains_key(key) ==> s.lookup(key, now) is None,
        s.store.contains_key(key) ==> {
            let record = s.records[s.store[key].slot];
            let dead = s.time_to_live is Some && record.last_modified->Some_0
                + s.time_to_live->Some_0 <= now;
            let idle = s.time_to_idle is Some && record.last_accessed->Some_0
                + s.time_to_idle->Some_0 <= now;
            s.lookup(key, now) == (if dead || idle {
                None
            } else {
                Some(*s.store[key].value)
            })
        },
{
    if s.store.contains_key(key) {
        reveal(CacheState::valid);
        assert(s.entry_recorded(key));
        assert(s.record_stamped(s.store[key].slot));
    }
}

/// A lookup that finds an entry is noted as a hit on that entry, whatever the policies;
/// one that does not, as a miss; and where the log is full, it is not noted.
pub proof fn law_get_is_noted<K, V>(s: CacheState<K, V>, key: K, hash: u64, now: u64)
    ensures
        s.reads.len() < 3_072 && s.lookup(key, now) is Some ==> s.looked_up(key, hash, now).reads
            == s.reads.push(ReadOp::Hit(hash, s.store[key].slot)),
        s.reads.len() < 3_072 && s.lookup(key, now) is None ==> s.looked_up(key, hash, now).reads
            == s.reads.push(ReadOp::Miss(hash)),
        s.reads.len() >= 3_072 ==> s.looked_up(key, hash, now).reads == s.reads,
{
}

/// A lookup changes, besides the log of reads, nothing but when the entry that it finds was
/// last used, where the cache has a time to idle.
pub proof fn law_get_touches_last_use_only<K, V>(s: CacheState<K, V>, key: K, hash: u64, now: u64)
    requires
        s.valid(),
    ensures
        ({
            let after = s.looked_up(key, hash, now);
            let slot = s.store[key].slot;
            let found = s.lookup(key, now) is Some;
            &&& after.same_settings(s)
            &&& after.store == s.store
            &&& after.deques == s.deques
            &&& after.sketch == s.sketch
            &&& after.writes == s.writes
            &&& after.retired == s.retired
            &&& after.records.dom() == s.records.dom()
            &&& forall|x: usize| #![trigger after.records[x]]
                s.records.contains_key(x) && !(found && x == slot) ==> after.records[x]
                    == s.records[x]
            &&& found ==> {
                &&& after.records[slot].key == s.records[slot].key
                &&& after.records[slot].hash == s.records[slot].hash
                &&& after.records[slot].last_modified == s.records[slot].last_modified
                &&& after.records[slot].last_accessed == (if s.time_to_idle is Some {
                    Some(now)
                } else {
                    None
                })
            }
        }),
{
    if s.lookup(key, now) is Some {
        reveal(CacheState::valid);
        assert(s.entry_recorded(key));
        assert(s.record_stamped(s.store[key].slot));
        assert(s.looked_up(key, hash, now).records.dom() =~= s.records.dom());
    }
}

/// An entry is past a policy exactly where the cache has the policy, the record keeps the
/// time, and that and the duration do not exceed `now`.
pub proof fn law_record_expires_by_arithmetic<K, V>(s: CacheState<K, V>, slot: usize, now: u64)
    ensures
        ({
            let record = s.records[slot];
            let dead = s.time_to_live is Some && record.last_modified is Some
                && record.last_modified->Some_0 + s.time_to_live->Some_0 <= now;
            let idle = s.time_to_idle is Some && record.last_accessed is Some
                && record.last_accessed->Some_0 + s.time_to_idle->Some_0 <= now;
            &&& s.expired_wo(slot, now) <==> dead
            &&& s.expired_ao(slot, now) <==> idle
            &&& s.record_expired(slot, now) <==> dead || idle
        }),
{
}

// Insertions and invalidations.

/// An insertion puts the value under the key and nothing else into the store, and is noted:
/// as an update of the entry that was there, or as the insertion of a new one.
pub proof fn law_insert_puts_the_value<K, V>(
    s: CacheState<K, V>,
    key: K,
    value: V,
    hash: u64,
    slot: usize,
    now: u64,
)
    ensures
        ({
            let after = s.inserted(key, value, hash, slot, now);
            let known = s.store.contains_key(key);
            let at = after.store[key].slot;
            &&& after.store.dom() == s.store.dom().insert(key)
            &&& *after.store[key].value == value
            &&& forall|other: K| #![trigger after.store[other]]
                other != key && s.store.contains_key(other) ==> after.store[other]
                    == s.store[other]
            &&& known ==> at == s.store[key].slot && after.writes == s.writes.push(
                WriteOp::Update(at),
            )
            &&& !known ==> at == slot && after.writes == s.writes.push(WriteOp::Insert(at))
            &&& after.same_settings(s)
            &&& after.reads == s.reads
            &&& after.deques == s.deques
            &&& after.sketch == s.sketch
            &&& after.retired == s.retired
        }),
{
    let after = s.inserted(key, value, hash, slot, now);
    assert(after.store.dom() =~= s.store.dom().insert(key));
}

/// An insertion gives the entry the time of the call, for both policies; a new entry also
/// its key and its hash, while one that was there keeps its own. It touches no other record.
pub proof fn law_insert_stamps_the_record<K, V>(
    s: CacheState<K, V>,
    key: K,
    value: V,
    hash: u64,
    slot: usize,
    now: u64,
)
    requires
        s.valid(),
        !s.records.contains_key(slot),
    ensures
        ({
            let after = s.inserted(key, value, hash, slot, now);
            let known = s.store.contains_key(key);
            let at = after.store[key].slot;
            let record = after.records[at];
            &&& after.records.dom() == s.records.dom().insert(at)
            &&& forall|x: usize| #![trigger after.records[x]]
                x != at && s.records.contains_key(x) ==> after.records[x] == s.records[x]
            &&& *record.key == key
            &&& record.hash == (if known {
                s.records[at].hash
            } else {
                hash
            })
            &&& record.last_modified == (if s.time_to_live is Some {
                Some(now)
            } else {
                None
            })
            &&& record.last_accessed == (if s.time_to_idle is Some {
                Some(now)
            } else {
                None
            })
        }),
{
    reveal(CacheState::valid);
    let after = s.inserted(key, value, hash, slot, now);
    if s.store.contains_key(key) {
        assert(s.entry_recorded(key));
        assert(s.record_stamped(s.store[key].slot));
    }
    assert(after.records.dom() =~= s.records.dom().insert(after.store[key].slot));
}

/// An invalidation takes the key out of the store, if it is there, and is noted as the
/// removal of its entry. It touches nothing else.
pub proof fn law_invalidate_takes_the_key<K, V>(s: CacheState<K, V>, key: K)
    ensures
        ({
            let after = s.invalidated(key);
            &&& after.store == s.store.remove(key)
            &&& after.writes == (if s.store.contains_key(key) {
                s.writes.push(WriteOp::Remove(s.store[key].slot))
            } else {
                s.writes
            })
            &&& after.same_settings(s)
            &&& after.records == s.records
            &&& after.reads == s.reads
            &&& after.deques == s.deques
            &&& after.sketch == s.sketch
            &&& after.retired == s.retired
        }),
{
    if !s.store.contains_key(key) {
        assert(s.store.remove(key) =~= s.store);
    }
}

// Reads that are applied.

/// Applying a read counts its hash exactly once, hit or miss, whatever the policies.
pub proof fn law_read_counts_its_hash<K, V>(s: CacheState<K, V>, hash: u64, slot: usize)
    ensures
        s.read_applied(ReadOp::Hit(hash, slot)).sketch == s.sketch.incremented(hash),
        s.read_applied(ReadOp::Miss(hash)).sketch == s.sketch.incremented(hash),
{
}

/// A queue after one of its members has come to the back; the queue itself where the slot
/// is no member.
pub open spec fn to_back(queue: Seq<usize>, slot: usize) -> Seq<usize> {
    if queue.contains(slot) {
        queue.remove(queue.index_of(slot)).push(slot)
    } else {
        queue
    }
}

/// A queue after a slot has left it; the queue itself where the slot is no member.
pub open spec fn left_by(queue: Seq<usize>, slot: usize) -> Seq<usize> {
    if queue.contains(slot) {
        queue.remove(queue.index_of(slot))
    } else {
        queue
    }
}

/// Applying a hit brings the entry to the back of its region; a miss brings none. Neither
/// changes anything else but what is counted.
pub proof fn law_read_moves_its_entry_only<K, V>(s: CacheState<K, V>, hash: u64, slot: usize)
    ensures
        ({
            let hit = s.read_applied(ReadOp::Hit(hash, slot));
            let miss = s.read_applied(ReadOp::Miss(hash));
            &&& hit.deques.window == to_back(s.deques.window, slot)
            &&& hit.deques.probation == to_back(s.deques.probation, slot)
            &&& hit.deques.protected == to_back(s.deques.protected, slot)
            &&& hit.deques.write_order == s.deques.write_order
            &&& hit == (CacheState { sketch: hit.sketch, deques: hit.deques, ..s })
            &&& miss == (CacheState { sketch: miss.sketch, ..s })
        }),
{
}

/// A sketch after each of the reads was counted, oldest first.
pub open spec fn counted_reads(sketch: SketchState, reads: Seq<ReadOp>) -> SketchState
    decreases reads.len(),
{
    if reads.len() == 0 {
        sketch
    } else {
        counted_reads(
            sketch.incremented(
                match reads[0] {
                    ReadOp::Hit(hash, _) => hash,
                    ReadOp::Miss(hash) => hash,
                },
            ),
            reads.drop_first(),
        )
    }
}

/// A queue after each of the entries that were read has come to the back, oldest first.
pub open spec fn brought_back(queue: Seq<usize>, reads: Seq<ReadOp>) -> Seq<usize>
    decreases reads.len(),
{
    if reads.len() == 0 {
        queue
    } else {
        brought_back(
            match reads[0] {
                ReadOp::Hit(_, slot) => to_back(queue, slot),
                ReadOp::Miss(_) => queue,
            },
            reads.drop_first(),
        )
    }
}

/// Applying the oldest waiting reads takes them out of the log, counts each of them once,
/// and brings each entry that was found to the back of the order of use, one after the
/// other. It changes nothing else.
pub proof fn law_reads_are_applied_in_turn<K, V>(s: CacheState<K, V>, count: nat)
    requires
        count <= s.reads.len(),
    ensures
        ({
            let after = s.reads_applied(count);
            let taken = s.reads.take(count as int);
            &&& after.reads == s.reads.skip(count as int)
            &&& after.sketch == counted_reads(s.sketch, taken)
            &&& after.deques.probation == brought_back(s.deques.probation, taken)
            &&& after.deques.write_order == s.deques.write_order
            &&& after == (CacheState {
                reads: after.reads,
                sketch: after.sketch,
                deques: after.deques,
                ..s
            })
        }),
    decreases count,
{
    if count > 0 {
        let next = s.read_taken().read_applied(s.reads[0]);
        law_reads_are_applied_in_turn(next, (count - 1) as nat);
        assert(s.reads.drop_first().skip(count - 1) =~= s.reads.skip(count as int));
        assert(s.reads.take(count as int).drop_first() =~= s.reads.drop_first().take(count - 1));
        assert(s.reads.take(count as int)[0] == s.reads[0]);
    } else {
        assert(s.reads.skip(0) =~= s.reads);
    }
}

/// Applying more reads than wait applies those that wait.
pub proof fn law_reads_end_with_the_log<K, V>(s: CacheState<K, V>, more: nat)
    ensures
        s.reads_applied(s.reads.len() + more) == s.reads_applied(s.reads.len()),
    decreases s.reads.len(),
{
    if s.reads.len() > 0 {
        law_reads_end_with_the_log(s.read_taken().read_applied(s.reads[0]), more);
    }
}

/// Between two halvings, `n` lookups of a key that are noted raise its frequency by `n`, up
/// to fifteen, when they are applied.
pub proof fn law_lookups_raise_frequency<K, V>(s: CacheState<K, V>, hash: u64)
    requires
        s.sketch.wf(),
        s.sketch.size + s.reads.len() < s.sketch.sample_size,
        forall|i: int|
            0 <= i < s.reads.len() ==> {
                ||| #[trigger] s.reads[i] is Miss && s.reads[i]->Miss_0 == hash
                ||| s.reads[i] is Hit && s.reads[i]->Hit_0 == hash
            },
    ensures
        s.reads_applied(s.reads.len()).sketch.frequency(hash) == (if s.sketch.frequency(hash)
            + s.reads.len() <= 15 {
            s.sketch.frequency(hash) + s.reads.len()
        } else {
            15
        }),
{
    law_reads_are_applied_in_turn(s, s.reads.len());
    assert(s.reads.take(s.reads.len() as int) =~= s.reads);
    lemma_counting_adds_up(s.sketch, s.reads, hash);
}

proof fn lemma_counting_adds_up(sketch: SketchState, reads: Seq<ReadOp>, hash: u64)
    requires
        sketch.wf(),
        sketch.size + reads.len() < sketch.sample_size,
        forall|i: int|
            0 <= i < reads.len() ==> {
                ||| #[trigger] reads[i] is Miss && reads[i]->Miss_0 == hash
                ||| reads[i] is Hit && reads[i]->Hit_0 == hash
            },
    ensures
        counted_reads(sketch, reads).frequency(hash) == (if sketch.frequency(hash) + reads.len()
            <= 15 {
            sketch.frequency(hash) + reads.len()
        } else {
            15
        }),
    decreases reads.len(),
{
    law_frequency_is_bounded(sketch, hash);
    if reads.len() > 0 {
        law_increment_raises_frequency(sketch, hash);
        law_increment_counts_additions(sketch, hash);
        assert forall|i: int| 0 <= i < reads.drop_first().len() implies {
            ||| #[trigger] reads.drop_first()[i] is Miss && reads.drop_first()[i]->Miss_0 == hash
            ||| reads.drop_first()[i] is Hit && reads.drop_first()[i]->Hit_0 == hash
        } by {
            assert(reads.drop_first()[i] == reads[i + 1]);
        }
        assert(reads[0] is Miss || reads[0] is Hit);
        lemma_counting_adds_up(sketch.incremented(hash), reads.drop_first(), hash);
    }
}

// Writes that are applied.

/// Applying an update brings the entry to the back of the order of use, and of the write
/// order where it is in it, and changes nothing else.
pub proof fn law_update_moves_its_entry_only<K, V>(s: CacheState<K, V>, slot: usize)
    ensures
        ({
            let after = s.write_applied(WriteOp::Update(slot));
            &&& after.deques.window == to_back(s.deques.window, slot)
            &&& after.deques.probation == to_back(s.deques.probation, slot)
            &&& after.deques.protected == to_back(s.deques.protected, slot)
            &&& after.deques.write_order == to_back(s.deques.write_order, slot)
            &&& after == (CacheState { deques: after.deques, ..s })
        }),
{
}

/// Applying a removal takes the entry out of all queues, leaves the others in their order,
/// notes that the record may go, and changes nothing else.
pub proof fn law_remove_unlinks_its_entry_only<K, V>(s: CacheState<K, V>, slot: usize)
    ensures
        ({
            let after = s.write_applied(WriteOp::Remove(slot));
            &&& after.deques.window == left_by(s.deques.window, slot)
            &&& after.deques.probation == left_by(s.deques.probation, slot)
            &&& after.deques.protected == left_by(s.deques.protected, slot)
            &&& after.deques.write_order == left_by(s.deques.write_order, slot)
            &&& after.retired == s.retired.push(slot)
            &&& after == (CacheState { deques: after.deques, retired: after.retired, ..s })
        }),
{
}

/// The write order after an entry was admitted: behind all others, where the cache has a
/// time to live.
pub open spec fn written_last<K, V>(
    s: CacheState<K, V>,
    order: Seq<usize>,
    slot: usize,
) -> Seq<usize> {
    if s.time_to_live is Some {
        order.push(slot)
    } else {
        order
    }
}

/// Applying an insertion: within the maximum, the entry comes to the back of the queues and
/// nothing goes. Beyond it, the entry competes with the front of the order of use: where it
/// was asked for more often, the front goes and the entry comes to the back; else, and where
/// there is no front, the entry goes. What goes leaves the store, if it is still in it.
/// Nothing is counted, and no record changes.
pub proof fn law_insertion_is_applied<K, V>(s: CacheState<K, V>, slot: usize)
    requires
        s.valid(),
    ensures
        ({
            let after = s.write_applied(WriteOp::Insert(slot));
            let queue = s.deques.probation;
            let front = queue[0];
            let within = s.store.dom().len() <= s.max_capacity;
            let wins = queue.len() > 0 && s.sketch.frequency(s.records[slot].hash)
                > s.sketch.frequency(s.records[front].hash);
            let key = *s.records[slot].key;
            let front_key = *s.records[front].key;
            &&& after == s.insert_applied(slot)
            &&& queue.len() > 0 ==> s.victim() == front
            &&& after.same_settings(s)
            &&& after.sketch == s.sketch
            &&& after.records == s.records
            &&& after.reads == s.reads
            &&& after.writes == s.writes
            &&& within || !wins ==> {
                &&& after.deques.window == s.deques.window
                &&& after.deques.protected == s.deques.protected
            }
            &&& !within && wins ==> {
                &&& after.deques.window == left_by(s.deques.window, front)
                &&& after.deques.protected == left_by(s.deques.protected, front)
            }
            &&& within ==> {
                &&& after.retired == s.retired
                &&& after.store == s.store
                &&& after.deques.probation == queue.push(slot)
                &&& after.deques.write_order == written_last(s, s.deques.write_order, slot)
            }
            &&& !within && wins ==> {
                let there = s.store.contains_key(front_key) && s.store[front_key].slot == front;
                &&& after.retired == s.retired.push(front)
                &&& after.store == (if there {
                    s.store.remove(front_key)
                } else {
                    s.store
                })
                &&& after.deques.probation == queue.drop_first().push(slot)
                &&& after.deques.write_order == written_last(
                    s,
                    if there {
                        left_by(s.deques.write_order, front)
                    } else {
                        s.deques.write_order
                    },
                    slot,
                )
            }
            &&& !within && !wins ==> {
                let there = s.store.contains_key(key) && s.store[key].slot == slot;
                &&& after.retired == s.retired.push(slot)
                &&& after.store == (if there {
                    s.store.remove(key)
                } else {
                    s.store
                })
                &&& after.deques == s.deques
            }
        }),
{
    reveal(CacheState::valid);
    if s.deques.probation.len() > 0 {
        lemma_pop_is_without(s.deques.probation);
    }
}

/// The waiting writes are applied one after the other, oldest first. That counts nothing,
/// and changes no record.
pub proof fn law_writes_are_applied_in_turn<K, V>(s: CacheState<K, V>, count: nat)
    ensures
        s.writes_applied(0) == s,
        s.writes.len() == 0 ==> s.writes_applied(count) == s,
        s.writes.len() > 0 ==> s.writes_applied(count + 1) == (CacheState {
            writes: s.writes.drop_first(),
            ..s
        }).write_applied(s.writes[0]).writes_applied(count),
        s.writes_applied(count).sketch == s.sketch,
        s.writes_applied(count).records == s.records,
        s.writes_applied(count).reads == s.reads,
    decreases count,
{
    if count > 0 && s.writes.len() > 0 {
        law_writes_are_applied_in_turn(s.write_done(), (count - 1) as nat);
    }
}

/// What waits is applied whole, the reads before the writes: a waiting read counts for the
/// admission of an entry whose insertion waits.
pub proof fn law_reads_come_before_writes<K, V>(s: CacheState<K, V>)
    ensures
        s.pending_applied() == s.reads_applied(s.reads.len()).writes_applied(s.writes.len()),
        s.pending_applied().sketch == counted_reads(s.sketch, s.reads),
        s.pending_applied().records == s.records,
{
    law_reads_are_applied_in_turn(s, s.reads.len());
    assert(s.reads.take(s.reads.len() as int) =~= s.reads);
    law_writes_are_applied_in_turn(s.reads_applied(s.reads.len()), s.writes.len());
}

/// Beyond its maximum, a cache with one insertion waiting keeps the new entry exactly where
/// it was asked for more often than the entry that is the least recently used one, the reads
/// that wait included.
pub proof fn law_asked_for_more_often_stays<K, V>(s: CacheState<K, V>, slot: usize)
    requires
        s.valid(),
        s.writes == seq![WriteOp::Insert(slot)],
        s.live(slot),
        s.store.dom().len() > s.max_capacity,
        brought_back(s.deques.probation, s.reads).len() > 0,
        s.live(brought_back(s.deques.probation, s.reads)[0]),
    ensures
        ({
            let queue = brought_back(s.deques.probation, s.reads);
            let counts = counted_reads(s.sketch, s.reads);
            let candidate = s.records[slot];
            let victim = s.records[queue[0]];
            let after = s.pending_applied();
            if counts.frequency(candidate.hash) > counts.frequency(victim.hash) {
                &&& after.store == s.store.remove(*victim.key)
                &&& after.store.contains_key(*candidate.key)
                &&& after.deques.probation == queue.drop_first().push(slot)
            } else {
                &&& after.store == s.store.remove(*candidate.key)
                &&& after.store.contains_key(*victim.key)
                &&& after.deques.probation == queue
            }
        }),
{
    let read = s.reads_applied(s.reads.len());
    s.lemma_reads_applied(s.reads.len());
    law_reads_are_applied_in_turn(s, s.reads.len());
    assert(s.reads.take(s.reads.len() as int) =~= s.reads);
    law_writes_are_applied_in_turn(read, 0);
    let taken = read.write_taken();
    read.lemma_write_taken();
    assert(taken == CacheState { writes: read.writes.drop_first(), ..read });
    assert(taken.writes.len() == 0);
    law_insertion_is_applied(taken, slot);
    let done = taken.write_applied(WriteOp::Insert(slot));
    law_writes_are_applied_in_turn(done, 0);
    assert(s.pending_applied() == done);
    let queue = brought_back(s.deques.probation, s.reads);
    assert(read.deques.probation.contains(queue[0]));
    assert(read.deques.contains(queue[0]));
    assert(queue[0] != slot) by {
        reveal(CacheState::valid);
        assert(s.writes[0] == WriteOp::Insert(slot));
        assert(s.writes.contains(WriteOp::Insert(slot)));
    }
}

// Expired entries that leave.

/// From the front of the write order a number of places leave, one after the other: no more
/// than the batch, all of them past the time to live, and then the next one is not, if the
/// batch has not been used up. An entry leaves the store, and with it the other queues,
/// exactly where it had one of these places.
pub proof fn law_expired_leave_from_the_front_wo<K, V>(
    s: CacheState<K, V>,
    batch_size: nat,
    now: u64,
) -> (gone: nat)
    requires
        s.valid(),
    ensures
        ({
            let after = s.expired_removed_wo(batch_size, now);
            let order = s.deques.write_order;
            &&& gone <= batch_size
            &&& gone <= order.len()
            &&& after.deques.write_order == order.skip(gone as int)
            &&& forall|i: int| 0 <= i < gone ==> past_wo(s, #[trigger] order[i], now)
            &&& gone < batch_size && gone < order.len() ==> !past_wo(s, order[gone as int], now)
            &&& forall|key: K| #[trigger]
                s.store.contains_key(key) ==> (after.store.contains_key(key) <==> !order.take(
                    gone as int,
                ).contains(s.store[key].slot))
            &&& after.sketch == s.sketch
            &&& after.shrunk_from(s)
            &&& forall|r: CacheRegion, x: usize| #[trigger]
                after.deques.region(r).contains(x) <==> s.deques.region(r).contains(x) && !(
                order.take(gone as int).contains(x) && still_there(s, x))
        }),
    decreases batch_size,
{
    reveal(CacheState::valid);
    let order = s.deques.write_order;
    s.lemma_expired_removed_wo(batch_size, now);
    if order.len() > 0 {
        assert(order.contains(order[0]));
        assert(s.deques.contains(order[0]));
        assert(s.record_stamped(order[0]));
    }
    if batch_size > 0 && s.front_expired_wo(now) {
        let next = s.front_discarded_wo();
        s.lemma_front_discarded_wo();
        s.lemma_front_left_wo();
        let rest = law_expired_leave_from_the_front_wo(next, (batch_size - 1) as nat, now);
        let gone = (rest + 1) as nat;
        assert(order.drop_first().skip(rest as int) =~= order.skip(gone as int));
        assert(past_wo(s, order[0], now));
        assert forall|i: int| 0 <= i < gone implies past_wo(s, #[trigger] order[i], now) by {
            if i > 0 {
                assert(next.deques.write_order[i - 1] == order[i]);
                assert(past_wo(next, next.deques.write_order[i - 1], now));
            }
        }
        if rest < order.len() - 1 {
            assert(next.deques.write_order[rest as int] == order[gone as int]);
        }
        assert forall|key: K| #[trigger] s.store.contains_key(key) implies (s.expired_removed_wo(
            batch_size,
            now,
        ).store.contains_key(key) <==> !order.take(gone as int).contains(s.store[key].slot)) by {
            assert(s.entry_recorded(key));
            let slot = s.store[key].slot;
            lemma_take_front(order, rest, slot);
            if slot == order[0] {
                assert(!next.store.contains_key(key));
                assert(!s.expired_removed_wo(batch_size, now).store.contains_key(key)) by {
                    next.lemma_expired_removed_wo((batch_size - 1) as nat, now);
                }
            } else {
                assert(next.store.contains_key(key));
            }
        }
        let after = s.expired_removed_wo(batch_size, now);
        let taken = order.take(gone as int);
        assert forall|r: CacheRegion, x: usize| #[trigger]
            after.deques.region(r).contains(x) <==> s.deques.region(r).contains(x) && !(
            taken.contains(x) && still_there(s, x)) by {
            lemma_take_front(order, rest, x);
            lemma_left_by(s.deques.region(r), order[0], x);
            if x != order[0] {
                assert(still_there(next, x) == still_there(s, x));
            } else {
                lemma_not_after_front(order, rest);
            }
        }
        gone
    } else {
        assert(order.skip(0) =~= order);
        0
    }
}

/// Whether the entry at `slot` is past the time to live: that and the time at which it was
/// written do not exceed `now`.
pub open spec fn past_wo<K, V>(s: CacheState<K, V>, slot: usize, now: u64) -> bool {
    s.time_to_live is Some && s.records[slot].last_modified->Some_0 + s.time_to_live->Some_0
        <= now
}

/// Whether the entry at `slot` is past the time to idle: that and the time at which it was
/// last used do not exceed `now`.
pub open spec fn past_ao<K, V>(s: CacheState<K, V>, slot: usize, now: u64) -> bool {
    s.time_to_idle is Some && s.records[slot].last_accessed->Some_0 + s.time_to_idle->Some_0
        <= now
}

/// Whether the store still has the entry at `slot`.
pub open spec fn still_there<K, V>(s: CacheState<K, V>, slot: usize) -> bool {
    let key = *s.records[slot].key;
    s.store.contains_key(key) && s.store[key].slot == slot
}

/// A queue keeps its members but the one that leaves.
proof fn lemma_left_by(queue: Seq<usize>, slot: usize, x: usize)
    requires
        queue.no_duplicates(),
    ensures
        without(queue, slot).contains(x) <==> queue.contains(x) && x != slot,
{
    lemma_without(queue, slot);
}

/// The front of a queue is not among the rest.
proof fn lemma_not_after_front(queue: Seq<usize>, rest: nat)
    requires
        queue.no_duplicates(),
        rest < queue.len(),
    ensures
        !queue.drop_first().take(rest as int).contains(queue[0]),
{
}

/// The first members of a queue are its front and the first of the rest.
proof fn lemma_take_front(queue: Seq<usize>, rest: nat, slot: usize)
    requires
        rest < queue.len(),
    ensures
        queue.take((rest + 1) as int).contains(slot) <==> slot == queue[0]
            || queue.drop_first().take(rest as int).contains(slot),
{
    let t = queue.take((rest + 1) as int);
    let u = queue.drop_first().take(rest as int);
    assert(t[0] == queue[0]);
    if t.contains(slot) && slot != queue[0] {
        let i = t.index_of(slot);
        assert(u[i - 1] == slot);
    }
    if u.contains(slot) {
        assert(t[u.index_of(slot) + 1] == slot);
    }
}

/// From the front of a region a number of places leave, one after the other: no more than
/// the batch, all of them past the time to idle, and then the next one is not, if the batch
/// has not been used up. An entry leaves the store, and with it the other queues, exactly
/// where it had one of these places.
pub proof fn law_expired_leave_from_the_front_ao<K, V>(
    s: CacheState<K, V>,
    region: CacheRegion,
    batch_size: nat,
    now: u64,
) -> (gone: nat)
    requires
        s.valid(),
    ensures
        ({
            let after = s.expired_removed_ao(region, batch_size, now);
            let order = s.deques.region(region);
            &&& gone <= batch_size
            &&& gone <= order.len()
            &&& after.deques.region(region) == order.skip(gone as int)
            &&& forall|i: int| 0 <= i < gone ==> past_ao(s, #[trigger] order[i], now)
            &&& gone < batch_size && gone < order.len() ==> !past_ao(s, order[gone as int], now)
            &&& forall|key: K| #[trigger]
                s.store.contains_key(key) ==> (after.store.contains_key(key) <==> !order.take(
                    gone as int,
                ).contains(s.store[key].slot))
            &&& after.sketch == s.sketch
            &&& after.shrunk_from(s)
            &&& forall|x: usize| #[trigger]
                after.deques.write_order.contains(x) <==> s.deques.write_order.contains(x) && !(
                order.take(gone as int).contains(x) && still_there(s, x))
            &&& forall|r: CacheRegion, x: usize|
                r != region ==> (#[trigger] after.deques.region(r).contains(x)
                    <==> s.deques.region(r).contains(x) && !(order.take(gone as int).contains(x)
                    && still_there(s, x)))
        }),
    decreases batch_size,
{
    reveal(CacheState::valid);
    let order = s.deques.region(region);
    s.lemma_expired_removed_ao(region, batch_size, now);
    if order.len() > 0 {
        assert(order.contains(order[0]));
        assert(s.deques.contains(order[0]));
        assert(s.record_stamped(order[0]));
    }
    if batch_size > 0 && s.front_expired_ao(region, now) {
        let next = s.front_discarded_ao(region);
        s.lemma_front_discarded_ao(region);
        s.lemma_front_left_ao(region);
        let rest = law_expired_leave_from_the_front_ao(next, region, (batch_size - 1) as nat, now);
        let gone = (rest + 1) as nat;
        assert(order.drop_first().skip(rest as int) =~= order.skip(gone as int));
        assert(past_ao(s, order[0], now));
        assert forall|i: int| 0 <= i < gone implies past_ao(s, #[trigger] order[i], now) by {
            if i > 0 {
                assert(next.deques.region(region)[i - 1] == order[i]);
                assert(past_ao(next, next.deques.region(region)[i - 1], now));
            }
        }
        if rest < order.len() - 1 {
            assert(next.deques.region(region)[rest as int] == order[gone as int]);
        }
        assert forall|key: K| #[trigger] s.store.contains_key(key) implies (s.expired_removed_ao(
            region,
            batch_size,
            now,
        ).store.contains_key(key) <==> !order.take(gone as int).contains(s.store[key].slot)) by {
            assert(s.entry_recorded(key));
            let slot = s.store[key].slot;
            lemma_take_front(order, rest, slot);
            if slot == order[0] {
                assert(!next.store.contains_key(key));
                assert(!s.expired_removed_ao(region, batch_size, now).store.contains_key(key)) by {
                    next.lemma_expired_removed_ao(region, (batch_size - 1) as nat, now);
                }
            } else {
                assert(next.store.contains_key(key));
            }
        }
        let after = s.expired_removed_ao(region, batch_size, now);
        let taken = order.take(gone as int);
        assert forall|x: usize| #[trigger]
            after.deques.write_order.contains(x) <==> s.deques.write_order.contains(x) && !(
            taken.contains(x) && still_there(s, x)) by {
            lemma_take_front(order, rest, x);
            lemma_left_by(s.deques.write_order, order[0], x);
            if x != order[0] {
                assert(still_there(next, x) == still_there(s, x));
            } else {
                lemma_not_after_front(order, rest);
            }
        }
        assert forall|r: CacheRegion, x: usize| r != region implies (#[trigger]
            after.deques.region(r).contains(x) <==> s.deques.region(r).contains(x) && !(
            taken.contains(x) && still_there(s, x))) by {
            lemma_take_front(order, rest, x);
            lemma_left_by(s.deques.region(r), order[0], x);
            if x != order[0] {
                assert(still_there(next, x) == still_there(s, x));
            } else {
                lemma_not_after_front(order, rest);
            }
        }
        gone
    } else {
        assert(order.skip(0) =~= order);
        0
    }
}

/// Where the cache has a time to live, eviction goes by the write order; and then, where it
/// has a time to idle, by each region of the order of use.
pub proof fn law_eviction_goes_by_each_policy<K, V>(s: CacheState<K, V>, batch_size: nat, now: u64)
    ensures
        ({
            let written = s.expired_removed_wo(batch_size, now);
            let first = if s.time_to_live is Some {
                written
            } else {
                s
            };
            let window = first.expired_removed_ao(CacheRegion::Window, batch_size, now);
            let probation = window.expired_removed_ao(
                CacheRegion::MainProbation,
                batch_size,
                now,
            );
            let all = probation.expired_removed_ao(CacheRegion::MainProtected, batch_size, now);
            s.evicted(batch_size, now) == (if s.time_to_idle is Some {
                all
            } else {
                first
            })
        }),
{
    lemma_kept_wo(s, batch_size, now);
}

/// Whether `x` stands before `y` in a queue.
pub open spec fn stands_before(queue: Seq<usize>, x: usize, y: usize) -> bool {
    exists|i: int, j: int|
        0 <= i < j < queue.len() && #[trigger] queue[i] == x && #[trigger] queue[j] == y
}

/// A member that leaves leaves the others in their order.
proof fn lemma_left_in_order(queue: Seq<usize>, slot: usize, x: usize, y: usize)
    requires
        queue.no_duplicates(),
        stands_before(without(queue, slot), x, y),
    ensures
        stands_before(queue, x, y),
{
    let after = without(queue, slot);
    let (i, j) = choose|i: int, j: int|
        0 <= i < j < after.len() && #[trigger] after[i] == x && #[trigger] after[j] == y;
    lemma_index_before(queue, after, i);
    lemma_index_before(queue, after, j);
    assert(queue[index_before(queue, after, i)] == x && queue[index_before(queue, after, j)] == y);
}

/// Whether the order of use and the write order are as they were in `before`, but for members
/// that left.
pub open spec fn in_order_of(after: DequesState, before: DequesState, x: usize, y: usize) -> bool {
    &&& stands_before(after.probation, x, y) ==> stands_before(before.probation, x, y)
    &&& stands_before(after.write_order, x, y) ==> stands_before(before.write_order, x, y)
}

/// What leaves because it has expired leaves the others in their order.
pub proof fn law_eviction_keeps_order_wo<K, V>(
    s: CacheState<K, V>,
    batch_size: nat,
    now: u64,
    x: usize,
    y: usize,
)
    requires
        s.valid(),
    ensures
        in_order_of(s.expired_removed_wo(batch_size, now).deques, s.deques, x, y),
    decreases batch_size,
{
    if batch_size > 0 && s.front_expired_wo(now) {
        let next = s.front_discarded_wo();
        let front = s.deques.write_order[0];
        s.lemma_front_discarded_wo();
        assert(s.deques.distinct()) by {
            reveal(CacheState::valid);
        }
        lemma_pop_is_without(s.deques.write_order);
        law_eviction_keeps_order_wo(next, (batch_size - 1) as nat, now, x, y);
        lemma_one_left(next.deques, s.deques, front, x, y);
    }
}

proof fn lemma_one_left(after: DequesState, before: DequesState, slot: usize, x: usize, y: usize)
    requires
        before.distinct(),
        after.probation == before.probation || after.probation == without(before.probation, slot),
        after.write_order == before.write_order || after.write_order == without(
            before.write_order,
            slot,
        ),
    ensures
        in_order_of(after, before, x, y),
{
    if after.probation != before.probation && stands_before(after.probation, x, y) {
        lemma_left_in_order(before.probation, slot, x, y);
    }
    if after.write_order != before.write_order && stands_before(after.write_order, x, y) {
        lemma_left_in_order(before.write_order, slot, x, y);
    }
}

/// What leaves because it has expired leaves the others in their order.
pub proof fn law_eviction_keeps_order_ao<K, V>(
    s: CacheState<K, V>,
    region: CacheRegion,
    batch_size: nat,
    now: u64,
    x: usize,
    y: usize,
)
    requires
        s.valid(),
    ensures
        in_order_of(s.expired_removed_ao(region, batch_size, now).deques, s.deques, x, y),
    decreases batch_size,
{
    if batch_size > 0 && s.front_expired_ao(region, now) {
        let next = s.front_discarded_ao(region);
        let front = s.deques.region(region)[0];
        s.lemma_front_discarded_ao(region);
        assert(s.deques.distinct()) by {
            reveal(CacheState::valid);
        }
        lemma_pop_is_without(s.deques.region(region));
        law_eviction_keeps_order_ao(next, region, (batch_size - 1) as nat, now, x, y);
        lemma_one_left(next.deques, s.deques, front, x, y);
    }
}

/// The entry that was used last stays last in the order of use when what has expired leaves,
/// if it has not expired itself.
pub proof fn law_last_used_stays_last<K, V>(s: CacheState<K, V>, batch_size: nat, now: u64)
    requires
        s.valid(),
        s.deques.probation.len() > 0,
        !past_wo(s, s.deques.probation.last(), now),
        !past_ao(s, s.deques.probation.last(), now),
    ensures
        s.evicted(batch_size, now).deques.probation.len() > 0,
        s.evicted(batch_size, now).deques.probation.last() == s.deques.probation.last(),
{
    law_eviction_goes_by_each_policy(s, batch_size, now);
    lemma_last_stays_wo(s, batch_size, now);
    let first = s.evicted_wo(batch_size, now);
    s.lemma_evicted(batch_size, now);
    if s.time_to_idle is Some {
        lemma_last_stays_ao(first, CacheRegion::Window, batch_size, now);
        let window = first.expired_removed_ao(CacheRegion::Window, batch_size, now);
        first.lemma_expired_removed_ao(CacheRegion::Window, batch_size, now);
        lemma_last_stays_ao(window, CacheRegion::MainProbation, batch_size, now);
        let probation = window.expired_removed_ao(CacheRegion::MainProbation, batch_size, now);
        window.lemma_expired_removed_ao(CacheRegion::MainProbation, batch_size, now);
        lemma_last_stays_ao(probation, CacheRegion::MainProtected, batch_size, now);
    }
}

proof fn lemma_last_stays_wo<K, V>(s: CacheState<K, V>, batch_size: nat, now: u64)
    requires
        s.valid(),
        s.deques.probation.len() > 0,
        !past_wo(s, s.deques.probation.last(), now),
    ensures
        s.expired_removed_wo(batch_size, now).deques.probation.len() > 0,
        s.expired_removed_wo(batch_size, now).deques.probation.last() == s.deques.probation.last(),
{
    let slot = s.deques.probation.last();
    let after = s.expired_removed_wo(batch_size, now);
    let gone = law_expired_leave_from_the_front_wo(s, batch_size, now);
    let taken = s.deques.write_order.take(gone as int);
    assert(!taken.contains(slot)) by {
        if taken.contains(slot) {
            assert(s.deques.write_order[taken.index_of(slot)] == slot);
        }
    }
    assert(s.deques.region(CacheRegion::MainProbation).contains(slot));
    assert(after.deques.region(CacheRegion::MainProbation).contains(slot));
    law_eviction_keeps_order_wo(s, batch_size, now, slot, after.deques.probation.last());
    lemma_last_of_both(s, after, slot);
}

proof fn lemma_last_stays_ao<K, V>(
    s: CacheState<K, V>,
    region: CacheRegion,
    batch_size: nat,
    now: u64,
)
    requires
        s.valid(),
        s.deques.probation.len() > 0,
        !past_ao(s, s.deques.probation.last(), now),
    ensures
        s.expired_removed_ao(region, batch_size, now).deques.probation.len() > 0,
        s.expired_removed_ao(region, batch_size, now).deques.probation.last()
            == s.deques.probation.last(),
{
    let slot = s.deques.probation.last();
    let after = s.expired_removed_ao(region, batch_size, now);
    let gone = law_expired_leave_from_the_front_ao(s, region, batch_size, now);
    let order = s.deques.region(region);
    if region == CacheRegion::MainProbation {
        assert(order[order.len() - 1] == slot);
        assert(gone < order.len());
    } else {
        let taken = order.take(gone as int);
        assert(!taken.contains(slot)) by {
            if taken.contains(slot) {
                assert(order[taken.index_of(slot)] == slot);
            }
        }
        assert(s.deques.region(CacheRegion::MainProbation).contains(slot));
        assert(after.deques.region(CacheRegion::MainProbation).contains(slot));
        law_eviction_keeps_order_ao(
            s,
            region,
            batch_size,
            now,
            slot,
            after.deques.probation.last(),
        );
        lemma_last_of_both(s, after, slot);
    }
}

/// Where the others are in the order that they were in, the last of them is the last still.
proof fn lemma_last_of_both<K, V>(s: CacheState<K, V>, after: CacheState<K, V>, slot: usize)
    requires
        s.valid(),
        s.deques.probation.len() > 0,
        slot == s.deques.probation.last(),
        after.deques.probation.contains(slot),
        in_order_of(after.deques, s.deques, slot, after.deques.probation.last()),
    ensures
        after.deques.probation.last() == slot,
{
    reveal(CacheState::valid);
    let queue = after.deques.probation;
    if queue.last() != slot {
        let i = queue.index_of(slot);
        assert(queue[i] == slot && queue[queue.len() - 1] == queue.last());
        assert(stands_before(queue, slot, queue.last()));
        let before = s.deques.probation;
        assert(before[before.len() - 1] == slot);
    }
}

// Maintenance.

/// Maintenance has nothing to do where nothing waits and nothing can expire. Else it applies
/// all that waits, evicts where the cache has a policy, up to 500 places from each queue, and
/// touches the store, the queues and the counts in no other way. Each waiting read has been
/// counted once.
pub proof fn law_sync_is_maintenance<K, V>(s: CacheState<K, V>, now: u64)
    ensures
        ({
            let policy = s.time_to_live is Some || s.time_to_idle is Some;
            let nothing = s.reads.len() == 0 && s.writes.len() == 0 && !policy;
            let applied = s.pending_applied();
            let done = if policy {
                applied.evicted(500, now)
            } else {
                applied
            };
            let after = s.synced(now);
            &&& nothing ==> after == s
            &&& !nothing ==> {
                &&& after.store == done.store
                &&& after.deques == done.deques
                &&& after.sketch == done.sketch
                &&& after.reads == done.reads
                &&& after.writes == done.writes
            }
            &&& after.sketch == counted_reads(s.sketch, s.reads)
            &&& forall|x: usize| #[trigger]
                after.records.contains_key(x) ==> s.records.contains_key(x) && after.records[x]
                    == s.records[x]
        }),
{
    law_reads_come_before_writes(s);
    lemma_evicted_counts_nothing(s.pending_applied(), 500, now);
}

/// Eviction counts nothing, and changes no record.
proof fn lemma_evicted_counts_nothing<K, V>(s: CacheState<K, V>, batch_size: nat, now: u64)
    ensures
        s.evicted(batch_size, now).sketch == s.sketch,
        s.evicted(batch_size, now).records == s.records,
{
    lemma_kept_wo(s, batch_size, now);
    let a = s.evicted_wo(batch_size, now);
    lemma_kept_ao(a, CacheRegion::Window, batch_size, now);
    let b = a.expired_removed_ao(CacheRegion::Window, batch_size, now);
    lemma_kept_ao(b, CacheRegion::MainProbation, batch_size, now);
    let c = b.expired_removed_ao(CacheRegion::MainProbation, batch_size, now);
    lemma_kept_ao(c, CacheRegion::MainProtected, batch_size, now);
}

/// What leaves changes neither the counts nor the records nor the settings.
proof fn lemma_kept_wo<K, V>(s: CacheState<K, V>, batch_size: nat, now: u64)
    ensures
        s.expired_removed_wo(batch_size, now).sketch == s.sketch,
        s.expired_removed_wo(batch_size, now).records == s.records,
        s.expired_removed_wo(batch_size, now).same_settings(s),
    decreases batch_size,
{
    if batch_size > 0 && s.front_expired_wo(now) {
        lemma_kept_wo(s.front_discarded_wo(), (batch_size - 1) as nat, now);
    }
}

/// What leaves changes neither the counts nor the records nor the settings.
proof fn lemma_kept_ao<K, V>(s: CacheState<K, V>, region: CacheRegion, batch_size: nat, now: u64)
    ensures
        s.expired_removed_ao(region, batch_size, now).sketch == s.sketch,
        s.expired_removed_ao(region, batch_size, now).records == s.records,
        s.expired_removed_ao(region, batch_size, now).same_settings(s),
    decreases batch_size,
{
    if batch_size > 0 && s.front_expired_ao(region, now) {
        lemma_kept_ao(s.front_discarded_ao(region), region, (batch_size - 1) as nat, now);
    }
}

/// When nothing else waits, maintenance after a lookup that finds an entry has counted the
/// key once more and left the entry last in the order of use, with or without a policy,
/// unless the entry has expired meanwhile.
pub proof fn law_get_then_sync_makes_most_recent<K, V>(
    s: CacheState<K, V>,
    key: K,
    hash: u64,
    now: u64,
    later: u64,
)
    requires
        s.valid(),
        s.reads.len() == 0,
        s.writes.len() == 0,
        s.lookup(key, now) is Some,
        s.deques.probation.contains(s.store[key].slot),
    ensures
        ({
            let slot = s.store[key].slot;
            let before = s.deques.probation;
            let applied = s.looked_up(key, hash, now).pending_applied();
            let after = s.looked_up(key, hash, now).synced(later);
            let dead = s.time_to_live is Some && s.records[slot].last_modified->Some_0
                + s.time_to_live->Some_0 <= later;
            let idle = s.time_to_idle is Some && now + s.time_to_idle->Some_0 <= later;
            &&& applied.deques.probation == before.remove(before.index_of(slot)).push(slot)
            &&& applied.sketch == s.sketch.incremented(hash)
            &&& applied.store == s.store
            &&& after.sketch == s.sketch.incremented(hash)
            &&& s.time_to_live is None && s.time_to_idle is None ==> after.deques.probation
                == before.remove(before.index_of(slot)).push(slot)
            &&& !dead && !idle ==> after.deques.probation.len() > 0
                && after.deques.probation.last() == slot
        }),
{
    let noted = s.looked_up(key, hash, now);
    let slot = s.store[key].slot;
    assert(noted.reads =~= seq![ReadOp::Hit(hash, slot)]);
    law_reads_are_applied_in_turn(noted, 1);
    assert(noted.reads.take(1) =~= noted.reads);
    assert(noted.reads.drop_first().len() == 0);
    reveal_with_fuel(counted_reads, 2);
    reveal_with_fuel(brought_back, 2);
    law_sync_is_maintenance(noted, later);
    assert(noted.writes.len() == 0);
    let applied = noted.pending_applied();
    assert(applied == noted.reads_applied(1));
    assert(applied.deques.probation.last() == slot);
    s.lemma_looked_up(key, hash, now);
    noted.lemma_pending_applied();
    law_get_touches_last_use_only(s, key, hash, now);
    if !past_wo(applied, slot, later) && !past_ao(applied, slot, later) {
        law_last_used_stays_last(applied, 500, later);
    }
}

/// Up to 3,072 waiting writes need no relief. Beyond that, all reads and all writes but the
/// last are applied, what has expired leaves, and that write alone waits.
pub proof fn law_relief_is_maintenance<K, V>(s: CacheState<K, V>, now: u64)
    requires
        s.valid(),
    ensures
        s.writes.len() <= 3_072 ==> s.relieved(now) == s,
        s.writes.len() > 3_072 ==> {
            let applied = s.reads_applied(s.reads.len()).writes_applied(
                (s.writes.len() - 1) as nat,
            );
            let done = if s.time_to_live is Some || s.time_to_idle is Some {
                applied.evicted(500, now)
            } else {
                applied
            };
            let after = s.relieved(now);
            &&& after.store == done.store
            &&& after.deques == done.deques
            &&& after.reads.len() == 0
            &&& after.writes == seq![s.writes.last()]
            &&& after.sketch == counted_reads(s.sketch, s.reads)
            &&& forall|x: usize| #[trigger]
                after.records.contains_key(x) ==> s.records.contains_key(x) && after.records[x]
                    == s.records[x]
        },
{
    if s.writes.len() > 3_072 {
        let n = (s.writes.len() - 1) as nat;
        let read = s.reads_applied(s.reads.len());
        law_reads_are_applied_in_turn(s, s.reads.len());
        assert(s.reads.take(s.reads.len() as int) =~= s.reads);
        law_writes_are_applied_in_turn(read, n);
        lemma_evicted_counts_nothing(read.writes_applied(n), 500, now);
        s.lemma_but_last_applied(now);
    }
}

/// A record goes exactly where its slot is retired, the store has another entry or none for
/// its key, no queue has a place for it, and it is not spared.
pub proof fn law_records_go_when_unused<K, V>(
    s: CacheState<K, V>,
    spared: Option<usize>,
    slot: usize,
)
    requires
        s.records.contains_key(slot),
    ensures
        ({
            let key = *s.records[slot].key;
            let after = s.collected_sparing(spared);
            &&& !after.records.contains_key(slot) <==> {
                &&& s.retired.contains(slot)
                &&& !(s.store.contains_key(key) && s.store[key].slot == slot)
                &&& !s.deques.window.contains(slot)
                &&& !s.deques.probation.contains(slot)
                &&& !s.deques.protected.contains(slot)
                &&& !s.deques.write_order.contains(slot)
                &&& spared != Some(slot)
            }
            &&& after.records.contains_key(slot) ==> after.records[slot] == s.records[slot]
            &&& spared is None ==> after.retired.len() == 0
            &&& spared is Some ==> after.retired == seq![spared->Some_0]
            &&& after.store == s.store
            &&& after.deques == s.deques
            &&& after.sketch == s.sketch
        }),
{
}

} // verus!
