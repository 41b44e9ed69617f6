# Moka

A bounded in-memory cache, with its behaviour stated in contracts and proved by
Verus.

- A lookup returns a clone of the value under a key; an insertion puts a value under
  a key at once; an invalidation takes it away at once.
- With a time to live, a value is found until that time has passed since it was
  inserted; with a time to idle, until that time has passed since it was last looked up
  or inserted. Both run from the call.
- What was looked up and written is noted in two logs. Maintenance (`sync`) works
  them off: it counts lookups in a frequency sketch, keeps the order of use, evicts,
  and removes entries that have expired. After maintenance the cache holds no more
  entries than its maximum.
- Admission goes by frequency: beyond the maximum, a new entry stays only where it
  was asked for more often than the least recently used one.

## Layout

- `src/common/`: the parts. The frequency sketch, the queues, the records of the
  entries, and the boundary to outside crates: the store (`cht`), the logs
  (`crossbeam-channel`), the clock (`quanta`) and hashing.
- `src/sync/state.rs`: what a cache holds, and what each step does to that.
- `src/sync/inner.rs`, `src/sync/cache.rs`: the cache, proved to take those steps.
- `src/sync/invariants.rs`, `src/sync/places.rs`: what each step keeps.
- `src/sync/laws.rs`, `src/sync/runs.rs`, `src/sync/expiry.rs`, `src/sync/order.rs`,
  `src/sync/reclaim.rs`: what holds of the cache as a whole.
- `app/`: a handle that threads share, with a thread that runs maintenance.
- `tests/`: tests of the compiled library.
