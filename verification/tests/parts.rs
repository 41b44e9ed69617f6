use moka::common::clock::is_expired;
use moka::common::deque::Deque;
use moka::common::deques::{CacheRegion, Deques};
use moka::common::entry::Record;
use moka::common::frequency_sketch::FrequencySketch;
use moka::common::housekeeper::{Housekeeper, SyncPace};
use moka::common::records::Records;
use moka::sync::state::{next_pace, should_apply_reads, should_apply_writes};
use std::sync::Arc;
use std::time::Duration;

#[test]
fn sketch_counts_up_to_fifteen() {
    let mut sketch = FrequencySketch::with_capacity(512);
    assert_eq!(sketch.frequency(1), 0);
    sketch.increment(1);
    assert_eq!(sketch.frequency(1), 1);
    for _ in 0..30 {
        sketch.increment(1);
    }
    assert_eq!(sketch.frequency(1), 15);
    sketch.increment(2);
    sketch.increment(2);
    assert!(sketch.frequency(2) >= 2);
}

#[test]
fn sketch_halves_its_counts() {
    let mut sketch = FrequencySketch::with_capacity(1);
    for n in 1..10u8 {
        sketch.increment(7);
        assert_eq!(sketch.frequency(7), n);
    }
    sketch.increment(7);
    assert_eq!(sketch.frequency(7), 5);
    for n in 6..10u8 {
        sketch.increment(7);
        assert_eq!(sketch.frequency(7), n);
    }
    sketch.increment(7);
    assert_eq!(sketch.frequency(7), 5);
}

#[test]
fn sketch_tells_heavy_hitters() {
    let mut sketch = FrequencySketch::with_capacity(512);
    for i in 100..1_000u64 {
        let hash = i.wrapping_mul(0x9E37_79B9_7F4A_7C15);
        sketch.increment(hash);
        if i % 100 == 0 {
            for _ in 0..9 {
                sketch.increment(0xDEAD_BEEF);
            }
        }
    }
    assert_eq!(sketch.frequency(0xDEAD_BEEF), 15);
}

#[test]
fn deque_keeps_its_order() {
    let mut deque = Deque::new();
    assert_eq!(deque.peek_front(), None);
    deque.pop_front();
    for slot in [3, 1, 4, 0, 5] {
        deque.push_back(slot);
    }
    assert!(deque.contains(4));
    assert!(!deque.contains(2));
    assert!(!deque.contains(100));
    deque.move_to_back(3);
    assert_eq!(deque.peek_front(), Some(1));
    deque.unlink(4);
    deque.unlink(4);
    deque.unlink(77);
    deque.move_to_back(77);
    let mut order = Vec::new();
    while let Some(front) = deque.peek_front() {
        order.push(front);
        deque.pop_front();
    }
    assert_eq!(order, vec![1, 0, 5, 3]);
    deque.push_back(4);
    deque.move_to_back(4);
    assert_eq!(deque.peek_front(), Some(4));
}

#[test]
fn deques_keep_regions_and_write_order_apart() {
    let mut deques = Deques::new();
    for slot in 0..3 {
        deques.push_back_ao(slot);
        deques.push_back_wo(slot);
    }
    deques.move_to_back_ao(0);
    assert_eq!(deques.peek_front_ao(CacheRegion::MainProbation), Some(1));
    assert_eq!(deques.peek_front_ao(CacheRegion::Window), None);
    assert_eq!(deques.peek_front_ao(CacheRegion::MainProtected), None);
    assert_eq!(deques.peek_front_wo(), Some(0));
    deques.move_to_back_wo(0);
    assert_eq!(deques.peek_front_wo(), Some(1));
    deques.unlink_ao(1);
    assert!(deques.contains(1));
    assert_eq!(deques.peek_front_ao(CacheRegion::MainProbation), Some(2));
    deques.unlink_wo(1);
    assert!(!deques.contains(1));
    deques.pop_front_ao(CacheRegion::MainProbation);
    assert_eq!(deques.peek_front_ao(CacheRegion::MainProbation), Some(0));
    deques.pop_front_wo();
    assert_eq!(deques.peek_front_wo(), Some(0));
}

fn record(key: u32) -> Record<u32> {
    Record {
        key: Arc::new(key),
        hash: 9,
        last_accessed: Some(1),
        last_modified: None,
    }
}

#[test]
fn records_reuse_released_slots() {
    let mut records = Records::new();
    assert_eq!(records.vacant(), 0);
    records.allocate(record(10));
    assert_eq!(records.vacant(), 1);
    records.allocate(record(11));
    records.release(0);
    records.release(0);
    records.release(9);
    assert!(records.get(0).is_none());
    assert!(records.get(9).is_none());
    assert_eq!(records.vacant(), 0);
    records.allocate(record(12));
    assert_eq!(records.vacant(), 2);
    assert_eq!(*records.get(0).unwrap().key, 12);
    assert_eq!(*records.get(1).unwrap().key, 11);
}

#[test]
fn records_note_what_happens() {
    let mut records = Records::new();
    records.allocate(record(10));
    records.set_last_accessed(0, 5);
    let r = records.get(0).unwrap();
    assert_eq!(r.last_accessed, Some(5));
    assert_eq!(r.last_modified, None);
    records.set_last_modified(0, 6);
    let r = records.get(0).unwrap();
    assert_eq!(r.last_accessed, Some(6));
    assert_eq!(r.last_modified, None);
    assert_eq!(r.hash, 9);
    records.allocate(Record {
        key: Arc::new(11),
        hash: 9,
        last_accessed: None,
        last_modified: Some(1),
    });
    records.set_last_accessed(1, 5);
    assert_eq!(records.get(1).unwrap().last_accessed, None);
    assert_eq!(records.get(1).unwrap().last_modified, Some(1));
    records.set_last_modified(1, 6);
    assert_eq!(records.get(1).unwrap().last_accessed, None);
    assert_eq!(records.get(1).unwrap().last_modified, Some(6));
}

#[test]
fn expiry_is_exact() {
    let second = Some(Duration::from_secs(1));
    assert!(!is_expired(Some(5), &second, 1_000_000_004));
    assert!(is_expired(Some(5), &second, 1_000_000_005));
    assert!(!is_expired(None, &second, u64::MAX));
    assert!(!is_expired(Some(5), &None, u64::MAX));
    assert!(is_expired(Some(u64::MAX), &Some(Duration::from_nanos(0)), u64::MAX));
    assert!(!is_expired(Some(u64::MAX), &Some(Duration::from_nanos(1)), u64::MAX));
    assert!(is_expired(Some(7), &Some(Duration::from_nanos(0)), 7));
    assert!(!is_expired(Some(7), &Some(Duration::from_nanos(0)), 6));
    let endless = Some(Duration::new(u64::MAX, 999_999_999));
    assert!(!is_expired(Some(0), &endless, u64::MAX));
}

#[test]
fn housekeeper_paces_itself() {
    let mut housekeeper = Housekeeper::new();
    assert!(!housekeeper.is_scheduled());
    assert_eq!(housekeeper.interval_nanos(), 300_000_000);
    assert!(housekeeper.try_schedule_sync());
    assert!(!housekeeper.try_schedule_sync());
    assert!(housekeeper.is_scheduled());
    housekeeper.sync_done(Some(SyncPace::Fast));
    assert!(!housekeeper.is_scheduled());
    assert_eq!(housekeeper.interval_nanos(), 500);
    housekeeper.sync_done(None);
    assert_eq!(housekeeper.interval_nanos(), 500);
    housekeeper.sync_done(Some(SyncPace::Normal));
    assert_eq!(housekeeper.interval_nanos(), 300_000_000);
}

#[test]
fn pace_goes_by_what_waits() {
    assert!(!should_apply_reads(511));
    assert!(should_apply_reads(512));
    assert!(!should_apply_writes(511));
    assert!(should_apply_writes(512));
    assert_eq!(next_pace(true, 0), Some(SyncPace::Fast));
    assert_eq!(next_pace(false, 256), Some(SyncPace::Normal));
    assert_eq!(next_pace(false, 257), None);
}
