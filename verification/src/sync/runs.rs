//! What holds of any sequence of calls.

use crate::sync::laws::{
    law_relief_only_removes, law_relief_within_capacity_keeps_what_is_found,
    law_sync_only_removes, law_sync_within_capacity_keeps_what_is_found,
};
use crate::sync::state::{CacheState, EVICTION_BATCH_SIZE, WRITE_LOG_SIZE};
use vstd::prelude::*;

verus! {

/// A call of one of the operations.
pub enum Call<K, V> {
    /// A lookup of `key`, counted by `hash`, at `now`.
    Get { key: K, hash: u64, now: u64 },
    /// An insertion of `value` under `key`, counted by `hash`, at `now`. A new entry gets
    /// its record at `slot`.
    Insert { key: K, value: V, hash: u64, slot: usize, now: u64 },
    /// An invalidation of `key` at `now`.
    Invalidate { key: K, now: u64 },
    /// Maintenance at `now`.
    Sync { now: u64 },
}

impl<K, V> Call<K, V> {
    /// Whether the call puts a value under `key`.
    pub open spec fn puts(self, key: K) -> bool {
        self is Insert && self->Insert_key == key
    }

    /// Whether the call invalidates `key`.
    pub open spec fn invalidates(self, key: K) -> bool {
        self is Invalidate && self->Invalidate_key == key
    }
}

impl<K, V> CacheState<K, V> {
    /// Whether a call can be made: a new record needs an empty slot.
    pub open spec fn allows(self, call: Call<K, V>) -> bool {
        call is Insert ==> !self.records.contains_key(call->slot)
    }

    /// The state after a call, before its write is relieved.
    pub open spec fn called(self, call: Call<K, V>) -> Self {
        match call {
            Call::Get { key, hash, now } => self.looked_up(key, hash, now),
            Call::Insert { key, value, hash, slot, now } => self.inserted(
                key,
                value,
                hash,
                slot,
                now,
            ),
            Call::Invalidate { key, now } => self.invalidated(key),
            Call::Sync { now } => self,
        }
    }

    /// The state after a call.
    pub open spec fn after(self, call: Call<K, V>) -> Self {
        match call {
            Call::Get { key, hash, now } => self.called(call),
            Call::Insert { key, value, hash, slot, now } => self.called(call).relieved(now),
            Call::Invalidate { key, now } => if self.store.contains_key(key) {
                self.called(call).relieved(now)
            } else {
                self
            },
            Call::Sync { now } => self.synced(now),
        }
    }

    /// The state after a sequence of calls.
    pub open spec fn after_all(self, calls: Seq<Call<K, V>>) -> Self
        decreases calls.len(),
    {
        if calls.len() == 0 {
            self
        } else {
            self.after_all(calls.drop_last()).after(calls.last())
        }
    }

    /// Whether a sequence of calls can be made.
    pub open spec fn allows_all(self, calls: Seq<Call<K, V>>) -> bool
        decreases calls.len(),
    {
        calls.len() > 0 ==> {
            &&& self.allows_all(calls.drop_last())
            &&& self.after_all(calls.drop_last()).allows(calls.last())
        }
    }

    /// The value that was put under `key` last and not invalidated since, by a sequence of
    /// calls or before it.
    pub open spec fn last_put(self, calls: Seq<Call<K, V>>, key: K) -> Option<V>
        decreases calls.len(),
    {
        if calls.len() == 0 {
            if self.store.contains_key(key) {
                Some(*self.store[key].value)
            } else {
                None
            }
        } else if calls.last().puts(key) {
            Some(calls.last()->value)
        } else if calls.last().invalidates(key) {
            None
        } else {
            self.last_put(calls.drop_last(), key)
        }
    }

    /// A call keeps the state valid, complete and bounded, and the settings.
    proof fn lemma_after(self, call: Call<K, V>)
        requires
            self.valid(),
            self.complete(),
            self.bounded(),
            self.allows(call),
        ensures
            self.called(call).valid(),
            self.called(call).complete(),
            self.called(call).bounded(),
            self.after(call).valid(),
            self.after(call).complete(),
            self.after(call).bounded(),
            self.after(call).same_settings(self),
    {
        match call {
            Call::Get { key, hash, now } => {
                self.lemma_looked_up(key, hash, now);
                self.lemma_looked_up_complete(key, hash, now);
            },
            Call::Insert { key, value, hash, slot, now } => {
                self.lemma_inserted(key, value, hash, slot, now);
                self.lemma_inserted_complete(key, value, hash, slot, now);
                self.called(call).lemma_relieved(now);
                self.called(call).lemma_relieved_complete(now);
            },
            Call::Invalidate { key, now } => {
                self.lemma_invalidated(key);
                self.lemma_invalidated_complete(key);
                self.called(call).lemma_relieved(now);
                self.called(call).lemma_relieved_complete(now);
            },
            Call::Sync { now } => {
                self.lemma_synced(now);
                self.lemma_synced_complete(now);
            },
        }
    }

    /// What the store holds for a key after a call is what the call put there, or what the
    /// store held before.
    proof fn lemma_after_holds(self, call: Call<K, V>, key: K)
        requires
            self.valid(),
            self.complete(),
            self.bounded(),
            self.allows(call),
        ensures
            self.after(call).store.contains_key(key) ==> {
                &&& !call.invalidates(key)
                &&& call.puts(key) ==> *self.after(call).store[key].value == call->value
                &&& !call.puts(key) ==> self.store.contains_key(key) && self.after(call).store[key]
                    == self.store[key]
            },
    {
        self.lemma_after(call);
        match call {
            Call::Get { .. } => {},
            Call::Insert { now, .. } => {
                law_relief_only_removes(self.called(call), now, key);
            },
            Call::Invalidate { now, .. } => {
                law_relief_only_removes(self.called(call), now, key);
            },
            Call::Sync { now } => {
                law_sync_only_removes(self, now, key);
            },
        }
    }

    /// A call that does not put a value under `key` leaves the record of the entry that the
    /// store still has for it, but for when it was last used.
    proof fn lemma_after_records(self, call: Call<K, V>, key: K)
        requires
            self.valid(),
            self.complete(),
            self.bounded(),
            self.allows(call),
            !call.puts(key),
            self.after(call).store.contains_key(key),
        ensures
            ({
                let slot = self.store[key].slot;
                &&& self.store.contains_key(key)
                &&& self.after(call).store[key] == self.store[key]
                &&& self.after(call).records[slot].last_modified
                    == self.records[slot].last_modified
            }),
    {
        let slot = self.store[key].slot;
        self.lemma_after(call);
        self.lemma_after_holds(call, key);
        let called = self.called(call);
        assert(self.entry_recorded(key)) by {
            reveal(CacheState::valid);
        }
        match call {
            Call::Get { .. } => {},
            Call::Insert { key: other, now, .. } => {
                if self.store.contains_key(other) {
                    assert(self.entry_recorded(other)) by {
                        reveal(CacheState::valid);
                    }
                }
                called.lemma_relieved_records(now, key);
            },
            Call::Invalidate { key: other, now } => {
                if self.store.contains_key(other) {
                    called.lemma_relieved_records(now, key);
                }
            },
            Call::Sync { now } => {
                if !self.idle() {
                    self.lemma_pending_applied();
                    self.pending_applied().lemma_evicted(
                        EVICTION_BATCH_SIZE as nat,
                        now,
                    );
                    self.lemma_synced(now);
                    let done = self.round_done(now);
                    done.lemma_collected(None);
                    assert(done.in_use(slot));
                }
            },
        }
    }

    /// Relief leaves the record of an entry that the store still has.
    proof fn lemma_relieved_records(self, now: u64, key: K)
        requires
            self.valid(),
            self.relieved(now).store.contains_key(key),
        ensures
            self.store.contains_key(key),
            self.relieved(now).records[self.store[key].slot] == self.records[self.store[key].slot],
    {
        law_relief_only_removes(self, now, key);
        if self.writes.len() > WRITE_LOG_SIZE {
            let slot = self.store[key].slot;
            let done = self.but_last_applied(now);
            self.lemma_but_last_applied(now);
            done.lemma_collected(Some(self.writes.last().slot()));
            assert(self.entry_recorded(key)) by {
                reveal(CacheState::valid);
            }
            assert(done.in_use(slot));
            assert(done.records.contains_key(slot));
        }
    }
}

/// Any sequence of calls keeps a cache valid, complete and bounded, and its settings.
pub proof fn law_calls_keep_valid<K, V>(s: CacheState<K, V>, calls: Seq<Call<K, V>>)
    requires
        s.valid(),
        s.complete(),
        s.bounded(),
        s.allows_all(calls),
    ensures
        s.after_all(calls).valid(),
        s.after_all(calls).complete(),
        s.after_all(calls).bounded(),
        s.after_all(calls).same_settings(s),
    decreases calls.len(),
{
    if calls.len() > 0 {
        law_calls_keep_valid(s, calls.drop_last());
        s.after_all(calls.drop_last()).lemma_after(calls.last());
    }
}

/// After any sequence of calls, a lookup finds nothing, or the value that was put under the
/// key last and not invalidated since: never an older value, and never that of another
/// key.
pub proof fn law_get_finds_last_put_or_nothing<K, V>(
    s: CacheState<K, V>,
    calls: Seq<Call<K, V>>,
    key: K,
    now: u64,
)
    requires
        s.valid(),
        s.complete(),
        s.bounded(),
        s.allows_all(calls),
    ensures
        s.after_all(calls).lookup(key, now) is None || s.after_all(calls).lookup(key, now)
            == s.last_put(calls, key),
{
    lemma_store_holds_last_put(s, calls, key);
}

proof fn lemma_store_holds_last_put<K, V>(s: CacheState<K, V>, calls: Seq<Call<K, V>>, key: K)
    requires
        s.valid(),
        s.complete(),
        s.bounded(),
        s.allows_all(calls),
    ensures
        s.after_all(calls).store.contains_key(key) ==> s.last_put(calls, key) == Some(
            *s.after_all(calls).store[key].value,
        ),
    decreases calls.len(),
{
    if calls.len() > 0 {
        let before = s.after_all(calls.drop_last());
        law_calls_keep_valid(s, calls.drop_last());
        lemma_store_holds_last_put(s, calls.drop_last(), key);
        before.lemma_after_holds(calls.last(), key);
    }
}

/// Under a key of a new cache that was never put in, nothing is found, whatever the calls.
pub proof fn law_nothing_comes_from_nothing<K, V>(
    max_capacity: nat,
    time_to_live: Option<nat>,
    time_to_idle: Option<nat>,
    calls: Seq<Call<K, V>>,
    key: K,
    now: u64,
)
    requires
        CacheState::<K, V>::fresh(max_capacity, time_to_live, time_to_idle).allows_all(calls),
        forall|i: int| 0 <= i < calls.len() ==> !(#[trigger] calls[i]).puts(key),
    ensures
        CacheState::<K, V>::fresh(max_capacity, time_to_live, time_to_idle).after_all(
            calls,
        ).lookup(key, now) is None,
{
    let fresh = CacheState::<K, V>::fresh(max_capacity, time_to_live, time_to_idle);
    assert(fresh.valid() && fresh.complete()) by {
        reveal(CacheState::valid);
        reveal(CacheState::complete);
    }
    law_get_finds_last_put_or_nothing(fresh, calls, key, now);
    lemma_never_put(fresh, calls, key);
}

proof fn lemma_never_put<K, V>(s: CacheState<K, V>, calls: Seq<Call<K, V>>, key: K)
    requires
        !s.store.contains_key(key),
        forall|i: int| 0 <= i < calls.len() ==> !(#[trigger] calls[i]).puts(key),
    ensures
        s.last_put(calls, key) is None,
    decreases calls.len(),
{
    if calls.len() > 0 {
        assert(calls.last() == calls[calls.len() - 1]);
        assert forall|i: int| 0 <= i < calls.drop_last().len() implies !(
        #[trigger] calls.drop_last()[i]).puts(key) by {
            assert(calls.drop_last()[i] == calls[i]);
        }
        lemma_never_put(s, calls.drop_last(), key);
    }
}

/// The time to live of an entry ends when it has passed since the entry was written,
/// whatever is looked up, written under other keys, invalidated or maintained meanwhile.
pub proof fn law_time_to_live_ends<K, V>(
    s: CacheState<K, V>,
    calls: Seq<Call<K, V>>,
    key: K,
    written: u64,
    now: u64,
)
    requires
        s.valid(),
        s.complete(),
        s.bounded(),
        s.allows_all(calls),
        s.store.contains_key(key),
        s.records[s.store[key].slot].last_modified == Some(written),
        s.time_to_live is Some,
        forall|i: int| 0 <= i < calls.len() ==> !(#[trigger] calls[i]).puts(key),
        written + s.time_to_live->Some_0 <= now,
    ensures
        s.after_all(calls).lookup(key, now) is None,
{
    lemma_written_then(s, calls, key);
    law_calls_keep_valid(s, calls);
}

proof fn lemma_written_then<K, V>(s: CacheState<K, V>, calls: Seq<Call<K, V>>, key: K)
    requires
        s.valid(),
        s.complete(),
        s.bounded(),
        s.allows_all(calls),
        s.store.contains_key(key),
        forall|i: int| 0 <= i < calls.len() ==> !(#[trigger] calls[i]).puts(key),
    ensures
        s.after_all(calls).store.contains_key(key) ==> {
            &&& s.after_all(calls).store[key] == s.store[key]
            &&& s.after_all(calls).records[s.store[key].slot].last_modified
                == s.records[s.store[key].slot].last_modified
        },
    decreases calls.len(),
{
    if calls.len() > 0 {
        let rest = calls.drop_last();
        let before = s.after_all(rest);
        assert(calls.last() == calls[calls.len() - 1]);
        assert forall|i: int| 0 <= i < rest.len() implies !(#[trigger] rest[i]).puts(key) by {
            assert(rest[i] == calls[i]);
        }
        law_calls_keep_valid(s, rest);
        lemma_written_then(s, rest, key);
        if before.after(calls.last()).store.contains_key(key) {
            before.lemma_after_records(calls.last(), key);
        }
    }
}

/// Whether the cache never holds more entries than its maximum throughout a sequence of
/// calls.
pub open spec fn never_over<K, V>(s: CacheState<K, V>, calls: Seq<Call<K, V>>) -> bool
    decreases calls.len(),
{
    calls.len() > 0 ==> {
        let before = s.after_all(calls.drop_last());
        &&& never_over(s, calls.drop_last())
        &&& before.called(calls.last()).store.dom().len() <= s.max_capacity
    }
}

/// An entry that does not expire stays until it is written again or invalidated, whatever
/// else is called, if the cache never holds more entries than its maximum.
pub proof fn law_entry_within_capacity_stays<K, V>(
    s: CacheState<K, V>,
    calls: Seq<Call<K, V>>,
    key: K,
    now: u64,
)
    requires
        s.valid(),
        s.complete(),
        s.bounded(),
        s.allows_all(calls),
        !s.has_expiry(),
        never_over(s, calls),
        forall|i: int|
            0 <= i < calls.len() ==> !(#[trigger] calls[i]).puts(key) && !calls[i].invalidates(key),
    ensures
        s.after_all(calls).lookup(key, now) == s.lookup(key, now),
    decreases calls.len(),
{
    if calls.len() > 0 {
        let rest = calls.drop_last();
        let call = calls.last();
        let before = s.after_all(rest);
        assert(call == calls[calls.len() - 1]);
        assert forall|i: int| 0 <= i < rest.len() implies !(#[trigger] rest[i]).puts(key)
            && !rest[i].invalidates(key) by {
            assert(rest[i] == calls[i]);
        }
        law_calls_keep_valid(s, rest);
        law_entry_within_capacity_stays(s, rest, key, now);
        before.lemma_after(call);
        let called = before.called(call);
        match call {
            Call::Get { .. } => {},
            Call::Insert { now: at, .. } => {
                law_relief_within_capacity_keeps_what_is_found(called, at, key, at);
            },
            Call::Invalidate { now: at, .. } => {
                law_relief_within_capacity_keeps_what_is_found(called, at, key, at);
            },
            Call::Sync { now: at } => {
                law_sync_within_capacity_keeps_what_is_found(before, at, key, at);
            },
        }
    }
}

} // verus!
