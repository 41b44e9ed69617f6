use moka::sync::Cache;
use quanta::Clock;
use std::collections::hash_map::RandomState;
use std::hash::{BuildHasher, BuildHasherDefault, Hash, Hasher};
use std::sync::Arc;
use std::time::Duration;

fn cache_with<K: std::hash::Hash + Eq, V: Clone>(
    max_capacity: usize,
    time_to_live: Option<Duration>,
    time_to_idle: Option<Duration>,
) -> Cache<K, V> {
    Cache::with_everything(
        max_capacity,
        None,
        RandomState::new(),
        time_to_live,
        time_to_idle,
    )
}

#[test]
fn basic_single_thread() {
    let mut cache = Cache::new(3);

    cache.insert("a", "alice");
    cache.insert("b", "bob");
    assert_eq!(cache.get(&"a"), Some("alice"));
    assert_eq!(cache.get(&"b"), Some("bob"));
    cache.sync();
    // counts: a -> 1, b -> 1

    cache.insert("c", "cindy");
    assert_eq!(cache.get(&"c"), Some("cindy"));
    // counts: a -> 1, b -> 1, c -> 1
    cache.sync();

    assert_eq!(cache.get(&"a"), Some("alice"));
    assert_eq!(cache.get(&"b"), Some("bob"));
    cache.sync();
    // counts: a -> 2, b -> 2, c -> 1

    // "d" should not be admitted because its frequency is too low.
    cache.insert("d", "david"); //   count: d -> 0
    cache.sync();
    assert_eq!(cache.get(&"d"), None); //   d -> 1

    cache.insert("d", "david");
    cache.sync();
    assert_eq!(cache.get(&"d"), None); //   d -> 2

    // "d" should be admitted and "c" should be evicted
    // because d's frequency is higher then c's.
    cache.insert("d", "dennis");
    cache.sync();
    assert_eq!(cache.get(&"a"), Some("alice"));
    assert_eq!(cache.get(&"b"), Some("bob"));
    assert_eq!(cache.get(&"c"), None);
    assert_eq!(cache.get(&"d"), Some("dennis"));

    cache.invalidate(&"b");
    assert_eq!(cache.get(&"b"), None);
}

#[test]
fn time_to_live() {
    let mut cache = cache_with(100, Some(Duration::from_secs(10)), None);

    let (clock, mock) = Clock::mock();
    cache.set_expiration_clock(Some(clock));

    cache.insert("a", "alice");
    cache.sync();

    mock.increment(Duration::from_secs(5)); // 5 secs from the start.
    cache.sync();

    cache.get(&"a");

    mock.increment(Duration::from_secs(5)); // 10 secs.
    cache.sync();

    assert_eq!(cache.get(&"a"), None);
    assert!(cache.is_empty());

    cache.insert("b", "bob");
    cache.sync();

    assert_eq!(cache.len(), 1);

    mock.increment(Duration::from_secs(5)); // 15 secs.
    cache.sync();

    assert_eq!(cache.get(&"b"), Some("bob"));
    assert_eq!(cache.len(), 1);

    cache.insert("b", "bill");
    cache.sync();

    mock.increment(Duration::from_secs(5)); // 20 secs
    cache.sync();

    assert_eq!(cache.get(&"b"), Some("bill"));
    assert_eq!(cache.len(), 1);

    mock.increment(Duration::from_secs(5)); // 25 secs
    cache.sync();

    assert_eq!(cache.get(&"a"), None);
    assert_eq!(cache.get(&"b"), None);
    assert!(cache.is_empty());
}

#[test]
fn time_to_idle() {
    let mut cache = cache_with(100, None, Some(Duration::from_secs(10)));

    let (clock, mock) = Clock::mock();
    cache.set_expiration_clock(Some(clock));

    cache.insert("a", "alice");
    cache.sync();

    mock.increment(Duration::from_secs(5)); // 5 secs from the start.
    cache.sync();

    assert_eq!(cache.get(&"a"), Some("alice"));

    mock.increment(Duration::from_secs(5)); // 10 secs.
    cache.sync();

    cache.insert("b", "bob");
    cache.sync();

    assert_eq!(cache.len(), 2);

    mock.increment(Duration::from_secs(5)); // 15 secs.
    cache.sync();

    assert_eq!(cache.get(&"a"), None);
    assert_eq!(cache.get(&"b"), Some("bob"));
    assert_eq!(cache.len(), 1);

    mock.increment(Duration::from_secs(10)); // 25 secs
    cache.sync();

    assert_eq!(cache.get(&"a"), None);
    assert_eq!(cache.get(&"b"), None);
    assert!(cache.is_empty());
}

// The steps of four users of one cache, one after the other.
#[test]
fn basic_interleaved() {
    let mut cache = Cache::new(100);
    for id in 0..4 {
        cache.insert(10, format!("{}-100", id));
        assert_eq!(cache.get(&10), Some(format!("{}-100", id)));
    }
    cache.sync();
    for id in 0..4 {
        cache.insert(20, format!("{}-200", id));
        cache.invalidate(&10);
    }
    cache.sync();
    assert!(cache.get(&10).is_none());
    assert_eq!(cache.get(&20), Some("3-200".to_string()));
}

#[test]
fn keeps_what_was_not_invalidated() {
    let mut cache = Cache::new(10_000);
    for key in 0..1024usize {
        cache.insert(key, format!("value {}", key));
        assert_eq!(cache.get(&key), Some(format!("value {}", key)));
    }
    for key in (0..1024usize).step_by(4) {
        cache.invalidate(&key);
    }
    cache.sync();
    for key in 0..1024usize {
        if key % 4 == 0 {
            assert_eq!(cache.get(&key), None);
        } else {
            assert_eq!(cache.get(&key), Some(format!("value {}", key)));
        }
    }
    assert_eq!(cache.len(), 768);
}

#[test]
fn settings_are_kept() {
    let ttl = Duration::from_secs(1800);
    let tti = Duration::from_secs(300);
    let mut cache: Cache<u32, &str> =
        Cache::with_everything(10_000, Some(100), RandomState::new(), Some(ttl), Some(tti));
    assert_eq!(cache.max_capacity(), 10_000);
    assert_eq!(cache.time_to_live(), Some(ttl));
    assert_eq!(cache.time_to_idle(), Some(tti));
    assert_eq!(cache.num_segments(), 1);
    assert!(cache.is_empty());
    cache.insert(0, "zero");
    cache.sync();
    cache.invalidate(&0);
    cache.sync();
    assert_eq!(cache.max_capacity(), 10_000);
    assert_eq!(cache.time_to_live(), Some(ttl));
    assert_eq!(cache.time_to_idle(), Some(tti));

    let plain: Cache<u32, u32> = Cache::new(7);
    assert_eq!(plain.max_capacity(), 7);
    assert_eq!(plain.time_to_live(), None);
    assert_eq!(plain.time_to_idle(), None);
}

#[test]
fn insert_replaces_the_value() {
    let mut cache = Cache::new(10);
    cache.insert(1, "one");
    cache.insert(2, "two");
    cache.insert(1, "uno");
    assert_eq!(cache.get(&1), Some("uno"));
    assert_eq!(cache.get(&2), Some("two"));
    cache.sync();
    assert_eq!(cache.get(&1), Some("uno"));
    cache.insert(1, "eins");
    assert_eq!(cache.get(&1), Some("eins"));
    assert_eq!(cache.get(&2), Some("two"));
    cache.sync();
    assert_eq!(cache.get(&1), Some("eins"));
    assert_eq!(cache.len(), 2);
}

#[test]
fn invalidate_discards_one_value() {
    let mut cache = Cache::new(10);
    cache.insert(1, "one");
    cache.insert(2, "two");
    cache.invalidate(&1);
    cache.invalidate(&3);
    assert_eq!(cache.get(&1), None);
    assert_eq!(cache.get(&2), Some("two"));
    assert_eq!(cache.len(), 1);
    cache.sync();
    assert_eq!(cache.get(&1), None);
    assert_eq!(cache.get(&2), Some("two"));
    cache.insert(1, "again");
    assert_eq!(cache.get(&1), Some("again"));
    cache.sync();
    assert_eq!(cache.get(&1), Some("again"));
}

#[test]
fn get_clones_the_value() {
    let mut cache = Cache::new(10);
    let value = Arc::new(vec![0u8; 16]);
    cache.insert("key", Arc::clone(&value));
    let found = cache.get(&"key").unwrap();
    assert!(Arc::ptr_eq(&found, &value));
    assert_eq!(Arc::strong_count(&value), 3);
}

#[test]
fn least_recently_used_entry_goes_first() {
    let mut cache = Cache::new(2);
    cache.insert("a", 1);
    cache.insert("b", 2);
    cache.sync();
    // "a" becomes the more recently used one.
    assert_eq!(cache.get(&"a"), Some(1));
    cache.sync();
    // "c" is asked for more often than both.
    for _ in 0..3 {
        assert_eq!(cache.get(&"c"), None);
    }
    cache.insert("c", 3);
    cache.sync();
    assert_eq!(cache.get(&"a"), Some(1));
    assert_eq!(cache.get(&"b"), None);
    assert_eq!(cache.get(&"c"), Some(3));
    assert_eq!(cache.len(), 2);
}

#[test]
fn entry_that_was_not_asked_for_is_turned_away() {
    let mut cache = Cache::new(1);
    cache.insert("a", 1);
    cache.sync();
    cache.insert("b", 2);
    // Found until maintenance runs.
    assert_eq!(cache.len(), 2);
    cache.sync();
    assert_eq!(cache.get(&"b"), None);
    assert_eq!(cache.get(&"a"), Some(1));
    assert_eq!(cache.len(), 1);
}

#[test]
fn stays_within_its_maximum_when_synced_in_between() {
    let mut cache = Cache::new(8);
    for key in 0..200u64 {
        for _ in 0..(key % 5) {
            cache.get(&key);
        }
        cache.insert(key, key);
        assert_eq!(cache.get(&key), Some(key));
        cache.sync();
        assert!(cache.len() <= 8);
    }
    assert_eq!(cache.len(), 8);
}

#[test]
fn updated_entry_keeps_its_place() {
    let mut cache = Cache::new(1);
    // Updated before its insertion is applied.
    cache.insert("a", 1);
    cache.insert("a", 2);
    cache.sync();
    cache.invalidate(&"a");
    cache.sync();
    cache.insert("b", 3);
    cache.sync();
    cache.get(&"c");
    cache.get(&"c");
    cache.insert("c", 4);
    cache.sync();
    assert_eq!(cache.get(&"b"), None);
    assert_eq!(cache.get(&"c"), Some(4));
    assert_eq!(cache.len(), 1);
}

#[test]
fn key_that_comes_back_lives_anew() {
    let mut cache = cache_with(100, Some(Duration::from_secs(10)), None);
    let (clock, mock) = Clock::mock();
    cache.set_expiration_clock(Some(clock));
    cache.insert("k", 1);
    cache.insert("k", 2);
    cache.sync();
    cache.invalidate(&"k");
    cache.sync();
    mock.increment(Duration::from_secs(8)); // 8 secs.
    cache.insert("k", 3);
    cache.sync();
    mock.increment(Duration::from_secs(2)); // 10 secs.
    cache.sync();
    assert_eq!(cache.get(&"k"), Some(3));
    mock.increment(Duration::from_secs(7)); // 17 secs.
    cache.sync();
    assert_eq!(cache.get(&"k"), Some(3));
    mock.increment(Duration::from_secs(1)); // 18 secs.
    assert_eq!(cache.get(&"k"), None);
    cache.sync();
    assert!(cache.is_empty());
}

#[test]
fn entry_without_a_victim_is_turned_away() {
    let mut cache = Cache::new(0);
    cache.insert("a", "alice");
    assert_eq!(cache.get(&"a"), Some("alice"));
    cache.sync();
    assert_eq!(cache.get(&"a"), None);
    assert!(cache.is_empty());

    let mut cache = Cache::new(1);
    cache.insert(1, 1);
    cache.insert(2, 2);
    cache.sync();
    assert_eq!(cache.get(&1), None);
    assert_eq!(cache.get(&2), Some(2));
    assert_eq!(cache.len(), 1);
}

#[test]
fn evicts_no_more_than_needed() {
    for max_capacity in 0..12usize {
        let mut cache = Cache::new(max_capacity);
        for key in 0..5u32 {
            cache.insert(key, key);
        }
        cache.sync();
        assert_eq!(cache.len(), max_capacity.min(5));
        let before = cache.len();
        for key in 5..9u32 {
            for _ in 0..(key % 3) {
                cache.get(&key);
            }
            cache.insert(key, key);
        }
        cache.sync();
        assert_eq!(cache.len(), max_capacity.min(before + 4));
    }
}

#[test]
fn invalidation_before_maintenance_keeps_the_bound() {
    let mut cache = Cache::new(2);
    cache.insert("a", 1);
    cache.insert("b", 2);
    cache.sync();
    for key in ["x", "y", "z"] {
        for _ in 0..3 {
            cache.get(&key);
        }
        cache.insert(key, 3);
    }
    cache.invalidate(&"a");
    cache.insert("a", 4);
    cache.invalidate(&"x");
    cache.insert("x", 5);
    cache.sync();
    assert_eq!(cache.len(), 2);
    cache.sync();
    assert_eq!(cache.len(), 2);
}

#[test]
fn expired_entry_is_not_found_before_it_is_removed() {
    let mut cache = cache_with(10, Some(Duration::from_nanos(100)), None);
    let (clock, mock) = Clock::mock();
    cache.set_expiration_clock(Some(clock));
    cache.insert("a", 1);
    mock.increment(99);
    assert_eq!(cache.get(&"a"), Some(1));
    mock.increment(1);
    assert_eq!(cache.get(&"a"), None);
    assert_eq!(cache.len(), 1);
    cache.sync();
    assert_eq!(cache.len(), 0);
}

#[test]
fn time_to_live_runs_from_the_insertion() {
    let mut cache = cache_with(100, Some(Duration::from_secs(10)), None);
    let (clock, mock) = Clock::mock();
    cache.set_expiration_clock(Some(clock));
    cache.insert("a", "alice");
    mock.increment(Duration::from_secs(8)); // 8 secs.
    cache.sync();
    assert_eq!(cache.get(&"a"), Some("alice"));
    mock.increment(Duration::from_secs(4)); // 12 secs.
    assert_eq!(cache.get(&"a"), None);
}

#[test]
fn reading_extends_the_life_at_once() {
    let mut cache = cache_with(
        10_000,
        Some(Duration::from_secs(30 * 60)),
        Some(Duration::from_secs(5 * 60)),
    );
    let (clock, mock) = Clock::mock();
    cache.set_expiration_clock(Some(clock));
    cache.insert(0, "zero");
    cache.sync();
    mock.increment(Duration::from_secs(4 * 60)); // 4 minutes.
    assert_eq!(cache.get(&0), Some("zero"));
    mock.increment(Duration::from_secs(2 * 60)); // 6 minutes.
    assert_eq!(cache.get(&0), Some("zero"));
    for _ in 0..5 {
        mock.increment(Duration::from_secs(4 * 60)); // 26 minutes in the end.
        assert_eq!(cache.get(&0), Some("zero"));
    }
    mock.increment(Duration::from_secs(4 * 60)); // 30 minutes.
    assert_eq!(cache.get(&0), None);
}

#[test]
fn reading_extends_the_life_when_the_log_is_full() {
    let mut cache = cache_with(10, None, Some(Duration::from_nanos(10)));
    cache.insert_with_hash_at(1, 1, "one", 0);
    for _ in 0..4_000 {
        assert_eq!(cache.get_with_hash_at(&2, 2, 0), None);
    }
    for now in 1..50u64 {
        assert_eq!(cache.get_with_hash_at(&1, 1, 9 * now), Some("one"));
    }
    assert_eq!(cache.get_with_hash_at(&1, 1, 9 * 49 + 10), None);
}

#[test]
fn reading_extends_idle_time_but_not_life() {
    let mut cache = cache_with(
        10,
        Some(Duration::from_secs(30)),
        Some(Duration::from_secs(5)),
    );
    let (clock, mock) = Clock::mock();
    cache.set_expiration_clock(Some(clock));
    cache.insert(0, "zero");
    cache.insert(1, "one");
    cache.sync();
    for _ in 0..7 {
        mock.increment(Duration::from_secs(4));
        assert_eq!(cache.get(&0), Some("zero"));
        cache.sync();
    }
    // 28 secs: the one that was not read has long gone.
    assert_eq!(cache.get(&1), None);
    assert_eq!(cache.len(), 1);
    mock.increment(Duration::from_secs(2)); // 30 secs.
    assert_eq!(cache.get(&0), None);
    cache.sync();
    assert!(cache.is_empty());
}

#[test]
fn lookup_at_a_given_time() {
    let mut cache = cache_with(10, None, Some(Duration::from_nanos(50)));
    cache.insert_with_hash_at(7, 70, "seven", 1_000);
    assert_eq!(cache.get_with_hash_at(&7, 70, 1_050), None);
    assert_eq!(cache.get_with_hash_at(&7, 70, 1_049), Some("seven"));
    assert_eq!(cache.get_with_hash_at(&7, 70, 1_098), Some("seven"));
    assert_eq!(cache.get_with_hash_at(&7, 70, 1_148), None);
    cache.sync_at(1_147);
    assert_eq!(cache.len(), 1);
    cache.sync_at(1_148);
    assert_eq!(cache.len(), 0);
}

#[test]
fn global_clock_is_the_default() {
    let mut cache = cache_with(10, Some(Duration::from_secs(3600)), None);
    cache.insert(1, 1);
    cache.sync();
    assert_eq!(cache.get(&1), Some(1));
    let (clock, mock) = Clock::mock();
    mock.increment(u64::MAX - 1);
    cache.set_expiration_clock(Some(clock));
    assert_eq!(cache.get(&1), None);
    cache.set_expiration_clock(None);
    assert_eq!(cache.get(&1), Some(1));
}

#[test]
fn batches_of_expired_entries_leave() {
    let mut cache = cache_with(10_000, Some(Duration::from_secs(1)), None);
    let (clock, mock) = Clock::mock();
    cache.set_expiration_clock(Some(clock));
    for key in 0..1_200u32 {
        cache.insert(key, key);
    }
    cache.sync();
    assert_eq!(cache.len(), 1_200);
    mock.increment(Duration::from_secs(1));
    cache.sync();
    assert_eq!(cache.len(), 700);
    cache.sync();
    assert_eq!(cache.len(), 200);
    cache.sync();
    assert_eq!(cache.len(), 0);
}

#[test]
fn maintenance_is_asked_for_by_writes() {
    let mut cache = Cache::new(10_000);
    for key in 0..512u32 {
        cache.insert(key, key);
        assert!(!cache.is_sync_scheduled());
    }
    cache.insert(512, 512);
    assert!(cache.is_sync_scheduled());
    assert_eq!(cache.throttle_write_pace(), None);
    for key in 513..1_536u32 {
        assert_eq!(cache.throttle_write_pace(), None);
        cache.insert(key, key);
    }
    assert_eq!(cache.throttle_write_pace(), Some(15));
    for key in 1_536..3_072u32 {
        cache.insert(key, key);
    }
    // The log is full: it is worked off.
    cache.insert(3_072, 3_072);
    assert_eq!(cache.throttle_write_pace(), None);
    assert!(!cache.is_sync_scheduled());
    for key in 0..=3_072u32 {
        assert_eq!(cache.get(&key), Some(key));
    }
    cache.sync();
    assert_eq!(cache.len(), 3_073);
}

#[test]
fn full_log_is_worked_off_by_an_invalidation() {
    let mut cache = Cache::new(10_000);
    for key in 0..3_072u32 {
        cache.insert(key, key);
    }
    // Nothing to note.
    cache.invalidate(&5_000);
    assert_eq!(cache.throttle_write_pace(), Some(15));
    cache.invalidate(&5);
    assert_eq!(cache.throttle_write_pace(), None);
    assert_eq!(cache.get(&5), None);
    assert_eq!(cache.get(&6), Some(6));
    assert_eq!(cache.len(), 3_071);
}

#[test]
fn key_leaves_before_a_full_log_is_worked_off() {
    let mut cache = Cache::new(1);
    cache.insert("a", 0);
    cache.sync();
    for n in 0..3_071 {
        cache.insert("a", n);
    }
    // Never asked for: it would be turned away if "a" were still there.
    cache.insert("b", 1);
    cache.invalidate(&"a");
    assert_eq!(cache.get(&"a"), None);
    assert_eq!(cache.get(&"b"), Some(1));
    cache.sync();
    assert_eq!(cache.get(&"b"), Some(1));
    assert_eq!(cache.len(), 1);
}

#[test]
fn value_comes_before_a_full_log_is_worked_off() {
    let mut cache = Cache::new(2);
    cache.insert("a", 0);
    cache.sync();
    for n in 0..3_071 {
        cache.insert("a", n);
    }
    cache.insert("c", 1);
    // Takes the cache beyond its maximum, so that "c" has to compete.
    cache.insert("d", 2);
    assert_eq!(cache.get(&"a"), Some(3_070));
    assert_eq!(cache.get(&"c"), None);
    assert_eq!(cache.get(&"d"), Some(2));
    cache.sync();
    assert_eq!(cache.get(&"a"), Some(3_070));
    assert_eq!(cache.get(&"d"), Some(2));
    assert_eq!(cache.len(), 2);
}

#[test]
fn borrowed_keys_are_found() {
    let mut cache = Cache::new(10);
    let key = Arc::new("a".to_string());
    cache.insert("a".to_string(), 1);
    assert_eq!(cache.get(&key), Some(1));
    assert_eq!(cache.get(&"a".to_string()), Some(1));
    cache.invalidate(&key);
    assert_eq!(cache.get(&key), None);
}

#[test]
fn maintenance_is_asked_for_by_reads() {
    let mut cache = Cache::new(10);
    cache.insert(1, 1);
    for _ in 0..512 {
        assert_eq!(cache.get(&1), Some(1));
        assert!(!cache.is_sync_scheduled());
    }
    assert_eq!(cache.get(&1), Some(1));
    assert!(cache.is_sync_scheduled());
    // A full log of reads stands in the way of nothing.
    for _ in 0..5_000 {
        assert_eq!(cache.get(&1), Some(1));
        assert_eq!(cache.get(&2), None);
    }
    cache.sync();
    assert!(!cache.is_sync_scheduled());
    assert_eq!(cache.get(&1), Some(1));
}

#[test]
fn second_sync_changes_nothing() {
    let mut cache = Cache::new(2);
    for key in 0..2u8 {
        cache.insert(key, key);
    }
    cache.sync();
    cache.insert(2, 2);
    cache.sync();
    let before: Vec<Option<u8>> = (0..3u8).map(|key| cache.get(&key)).collect();
    cache.sync();
    cache.sync();
    let after: Vec<Option<u8>> = (0..3u8).map(|key| cache.get(&key)).collect();
    assert_eq!(before, after);
    assert_eq!(cache.sync_interval_nanos(), 300_000_000);
}

#[derive(Default)]
struct OneHash;

impl Hasher for OneHash {
    fn write(&mut self, _bytes: &[u8]) {}

    fn finish(&self) -> u64 {
        42
    }
}

#[test]
fn keys_with_one_hash_share_a_count() {
    let mut cache: Cache<&str, u32, BuildHasherDefault<OneHash>> =
        Cache::with_everything(1, None, BuildHasherDefault::default(), None, None);
    cache.insert("a", 1);
    cache.sync();
    // Counted for "a" as well.
    for _ in 0..3 {
        assert_eq!(cache.get(&"b"), None);
    }
    cache.insert("b", 2);
    assert_eq!(cache.get(&"a"), Some(1));
    assert_eq!(cache.get(&"b"), Some(2));
    cache.sync();
    assert_eq!(cache.get(&"a"), Some(1));
    assert_eq!(cache.get(&"b"), None);
}

#[test]
fn slots_are_used_again() {
    let mut cache = Cache::new(4);
    for round in 0..2_000u32 {
        cache.insert(round % 7, round);
        assert_eq!(cache.get(&(round % 7)), Some(round));
        if round % 3 == 0 {
            cache.invalidate(&(round % 7));
            assert_eq!(cache.get(&(round % 7)), None);
        }
        if round % 2 == 0 {
            cache.sync();
        }
    }
    for key in 0..7u32 {
        cache.invalidate(&key);
    }
    cache.sync();
    assert!(cache.is_empty());
}

#[test]
fn sync_only_removes() {
    let mut cache = Cache::new(5);
    for key in 0..5u32 {
        cache.insert(key, 10 * key);
    }
    cache.sync();
    for key in 5..12u32 {
        for _ in 0..(key % 3) {
            cache.get(&key);
        }
        cache.insert(key, 10 * key);
    }
    let before: Vec<Option<u32>> = (0..12u32).map(|key| cache.get(&key)).collect();
    cache.sync();
    for key in 0..12u32 {
        let after = cache.get(&key);
        assert!(after == None || after == before[key as usize]);
    }
    assert!(cache.len() <= 5);
}

#[test]
fn sync_removes_all_that_expired() {
    let mut cache = cache_with(100, None, Some(Duration::from_secs(10)));
    let (clock, mock) = Clock::mock();
    cache.set_expiration_clock(Some(clock));
    for key in 0..20u32 {
        cache.insert(key, key);
    }
    cache.sync();
    mock.increment(Duration::from_secs(6));
    // Every third one is read, every fifth one written.
    for key in (0..20u32).step_by(3) {
        assert_eq!(cache.get(&key), Some(key));
    }
    for key in (0..20u32).step_by(5) {
        cache.insert(key, key + 100);
    }
    cache.sync();
    mock.increment(Duration::from_secs(4)); // 10 secs.
    cache.sync();
    for key in 0..20u32 {
        let expected = if key % 5 == 0 {
            Some(key + 100)
        } else if key % 3 == 0 {
            Some(key)
        } else {
            None
        };
        assert_eq!(cache.get_with_hash_at(&key, 0, 10_000_000_000), expected);
    }
    assert_eq!(cache.len(), 9);
}

#[test]
fn burst_of_insertions_is_worked_off() {
    let mut cache = Cache::new(1);
    for key in 0..3_100u32 {
        cache.insert(key, key);
        assert_eq!(cache.get(&key), Some(key));
    }
    cache.invalidate(&3_099);
    assert_eq!(cache.get(&3_099), None);
    cache.sync();
    assert_eq!(cache.len(), 1);
}

#[test]
fn expired_entry_can_be_written_again() {
    let mut cache = cache_with(10, Some(Duration::from_secs(1)), None);
    let (clock, mock) = Clock::mock();
    cache.set_expiration_clock(Some(clock));
    cache.insert("a", 1);
    cache.sync();
    mock.increment(Duration::from_secs(1));
    assert_eq!(cache.get(&"a"), None);
    cache.insert("a", 2);
    assert_eq!(cache.get(&"a"), Some(2));
    cache.sync();
    assert_eq!(cache.get(&"a"), Some(2));
    mock.increment(Duration::from_secs(1));
    cache.sync();
    assert_eq!(cache.get(&"a"), None);
    assert_eq!(cache.len(), 0);
}

#[test]
fn writing_makes_an_entry_the_most_recent() {
    let mut cache = Cache::new(2);
    cache.insert("a", 1);
    cache.insert("b", 2);
    cache.sync();
    cache.insert("a", 3);
    cache.sync();
    for _ in 0..3 {
        assert_eq!(cache.get(&"c"), None);
    }
    cache.insert("c", 4);
    cache.sync();
    assert_eq!(cache.get(&"a"), Some(3));
    assert_eq!(cache.get(&"b"), None);
    assert_eq!(cache.get(&"c"), Some(4));
}

#[derive(Clone)]
struct NoShortcut;

impl BuildHasher for NoShortcut {
    type Hasher = OneHash;

    fn build_hasher(&self) -> OneHash {
        OneHash
    }

    fn hash_one<T: Hash>(&self, _key: T) -> u64 {
        panic!("a hasher is to be built and fed")
    }
}

#[test]
fn hash_comes_from_a_hasher_that_is_built_and_fed() {
    let mut cache: Cache<&str, u32, NoShortcut> =
        Cache::with_everything(1, None, NoShortcut, None, None);
    cache.insert("a", 1);
    cache.sync();
    for _ in 0..3 {
        assert_eq!(cache.get(&"b"), None);
    }
    cache.insert("b", 2);
    cache.sync();
    assert_eq!(cache.get(&"a"), Some(1));
    assert_eq!(cache.get(&"b"), None);
}

#[test]
fn time_comes_from_the_clock_that_was_set_last() {
    let mut cache = cache_with(10, Some(Duration::from_nanos(100)), None);
    let (early, _) = Clock::mock();
    let (late, mock) = Clock::mock();
    mock.increment(1_000);
    cache.set_expiration_clock(Some(late.clone()));
    cache.set_expiration_clock(Some(early.clone()));
    cache.insert(1, 1);
    assert_eq!(cache.get(&1), Some(1));
    cache.set_expiration_clock(Some(late));
    assert_eq!(cache.get(&1), None);
    cache.set_expiration_clock(Some(early));
    assert_eq!(cache.get(&1), Some(1));
}

#[test]
fn value_that_was_put_last_is_found_or_none() {
    let mut cache = Cache::new(3);
    let mut last: Vec<Option<u32>> = vec![None; 7];
    for n in 0..3_000u32 {
        let key = (n * n + 3 * n) % 7;
        match n % 5 {
            0 | 1 | 2 => {
                cache.insert(key, n);
                last[key as usize] = Some(n);
            }
            3 => {
                cache.invalidate(&key);
                last[key as usize] = None;
            }
            _ => cache.sync(),
        }
        for k in 0..7u32 {
            let found = cache.get(&k);
            assert!(found == None || found == last[k as usize]);
        }
    }
}
