use s3_fifo::{S3FIFO, S3FIFOKey};
use std::collections::hash_map::DefaultHasher;
use std::hash::{Hash, Hasher};

#[derive(Hash, Clone)]
struct Abc {
    a: u8,
    b: u16,
    c: u32,
}

#[test]
fn can_use_cache() {
    let test_value = Abc { a: 1, b: 2, c: 3 };
    let mut hasher = DefaultHasher::new();
    test_value.hash(&mut hasher);
    let test_key = hasher.finish();

    // Create a cache with a capacity of 10
    let mut cache = S3FIFO::new(10);
    cache.put(test_key, test_value);
    assert!(cache.get(&test_key).is_some());
}

#[test]
fn can_fill_cache() {
    // Create a cache with a capacity of 10
    let mut cache = S3FIFO::new(10);
    for i in 0..10 {
        let test_value = Abc {
            a: i as u8,
            b: i as u16,
            c: i as u32,
        };
        let test_key = S3FIFOKey::new(&test_value);

        assert!(cache.get(&test_key).is_none());
        cache.put(test_key.clone(), test_value);
        assert!(cache.get(&test_key).is_some());
    }

    assert_eq!(cache.small.len(), 1);
    assert_eq!(cache.ghosts.len(), 9);

    // Promote to main
    let repeat_value = Abc { a: 0, b: 0, c: 0 };
    let repeat_key = S3FIFOKey::new(&repeat_value);
    assert!(cache.get(&repeat_key).is_none());
    cache.put(repeat_key, repeat_value);

    assert_eq!(cache.small.len(), 1);
    assert_eq!(cache.ghosts.len(), 9);
    assert_eq!(cache.main.len(), 1);

    // Increment main
    let repeat_value = Abc { a: 0, b: 0, c: 0 };
    let repeat_key = S3FIFOKey::new(&repeat_value);
    assert!(cache.get(&repeat_key).is_some());
    // Do not insert again or else duplicate keys will be in the cache

    assert_eq!(cache.small.len(), 1);
    assert_eq!(cache.ghosts.len(), 9);
    assert_eq!(cache.main.len(), 1);
}

#[test]
fn capacity_partition() {
    // A tenth of the capacity for the small queue, nine tenths for the
    // main queue and the ghost list.
    let cache: S3FIFO<u64, i32> = S3FIFO::new(128);
    assert_eq!(cache.small_cap, 12);
    assert_eq!(cache.main_cap, 115);
    let cache: S3FIFO<u64, i32> = S3FIFO::new(10);
    assert_eq!(cache.small_cap, 1);
    assert_eq!(cache.main_cap, 9);
    let cache: S3FIFO<u64, i32> = S3FIFO::new(5);
    assert_eq!(cache.small_cap, 0);
    assert_eq!(cache.main_cap, 4);
}

#[test]
fn keys_from_equal_values_are_equal() {
    let a = Abc { a: 7, b: 7, c: 7 };
    let b = Abc { a: 7, b: 7, c: 7 };
    let c = Abc { a: 8, b: 7, c: 7 };
    assert!(S3FIFOKey::new(&a) == S3FIFOKey::new(&b));
    assert!(S3FIFOKey::new(&a) != S3FIFOKey::new(&c));
}

#[test]
fn round_trip_returns_value() {
    let mut cache: S3FIFO<u64, i32> = S3FIFO::new(10);
    cache.put(42, 1234);
    assert_eq!(cache.get(&42), Some(&1234));
}

#[test]
fn second_put_is_noop() {
    let mut cache: S3FIFO<u64, i32> = S3FIFO::new(10);
    cache.put(1, 10);
    let (stored, evicted) = cache.put(1, 20);
    // The second write keeps the first value and evicts nothing.
    assert_eq!(*stored, 10);
    assert!(evicted.is_none());
    assert_eq!(cache.get(&1), Some(&10));
    assert_eq!(cache.small.len() + cache.main.len(), 1);
}

#[test]
fn promotion_to_main() {
    // Capacity 10: the small queue holds one entry.
    let mut cache: S3FIFO<u64, i32> = S3FIFO::new(10);
    cache.put(1, 100);
    // Two hits raise the entry's frequency to 2.
    assert!(cache.get(&1).is_some());
    assert!(cache.get(&1).is_some());
    // The next insertion evicts from the small queue, which promotes
    // the reused entry to the main queue instead of discarding it.
    cache.put(2, 200);
    assert_eq!(cache.small.len(), 1);
    assert_eq!(cache.main.len(), 1);
    assert_eq!(cache.ghosts.len(), 0);
    assert_eq!(cache.get(&1), Some(&100));
}

#[test]
fn ghost_carry_over() {
    let mut cache: S3FIFO<u64, i32> = S3FIFO::new(10);
    cache.put(1, 100);
    // Not reused: the next insertion demotes key 1 to the ghost list
    // and its value leaves the cache.
    let (_, evicted) = cache.put(2, 200);
    assert_eq!(evicted, Some(100));
    assert_eq!(cache.ghosts.len(), 1);
    assert!(cache.get(&1).is_none());
    // A re-write of key 1 finds it in the ghost list and lands it in
    // the main queue, not the small queue.
    cache.put(1, 101);
    assert_eq!(cache.main.len(), 1);
    assert_eq!(cache.small.len(), 1);
    assert_eq!(cache.get(&1), Some(&101));
}

#[test]
fn frequency_saturates_at_three() {
    let mut cache: S3FIFO<u64, i32> = S3FIFO::new(10);
    cache.put(1, 100);
    for _ in 0..5 {
        assert!(cache.get(&1).is_some());
    }
    assert_eq!(cache.small[0].freq, 3);
}

#[test]
fn pop_returns_promoted_entry_after_decay() {
    let mut cache: S3FIFO<u64, i32> = S3FIFO::new(10);
    cache.put(1, 100);
    assert!(cache.get(&1).is_some());
    assert!(cache.get(&1).is_some());
    // The only entry sits in the small queue with frequency 2: popping
    // promotes it to the main queue, then the decay scan decrements
    // 2 -> 1 -> 0 and evicts it.
    assert_eq!(cache.pop(), Some(100));
    assert_eq!(cache.small.len(), 0);
    assert_eq!(cache.main.len(), 0);
}

#[test]
fn pop_drains_small_before_main() {
    let mut cache: S3FIFO<u64, i32> = S3FIFO::new(10);
    cache.put(1, 100);
    cache.put(2, 200); // key 1 -> ghost, value 100 evicted
    cache.put(1, 101); // ghost hit: key 1 -> main
    assert_eq!(cache.small.len(), 1);
    assert_eq!(cache.main.len(), 1);
    // The small queue's entry (key 2, frequency 0) is demoted first.
    assert_eq!(cache.pop(), Some(200));
    // Then the main queue's entry is evicted by the decay scan.
    assert_eq!(cache.pop(), Some(101));
    assert_eq!(cache.pop(), None);
}

#[test]
fn drain_empties_cache_and_forgets_history() {
    let mut cache: S3FIFO<u64, i32> = S3FIFO::new(10);
    cache.put(1, 100);
    cache.put(2, 200); // key 1 -> ghost
    let values = cache.drain();
    assert_eq!(values, vec![200]);
    assert_eq!(cache.small.len(), 0);
    assert_eq!(cache.main.len(), 0);
    assert_eq!(cache.ghosts.len(), 0);
    // The ghost history is gone: a re-write of key 1 starts cold in
    // the small queue, not in the main queue.
    cache.put(1, 101);
    assert_eq!(cache.small.len(), 1);
    assert_eq!(cache.main.len(), 0);
}

#[test]
fn drain_returns_small_values_before_main() {
    let mut cache: S3FIFO<u64, i32> = S3FIFO::new(10);
    cache.put(1, 100);
    cache.put(2, 200); // key 1 -> ghost
    cache.put(1, 101); // ghost hit: key 1 -> main
    let values = cache.drain();
    assert_eq!(values, vec![200, 101]);
}

#[test]
fn get_mut_updates_value() {
    let mut cache: S3FIFO<u64, i32> = S3FIFO::new(10);
    cache.put(1, 100);
    if let Some(v) = cache.get_mut(&1) {
        *v = 999;
    } else {
        panic!("entry expected");
    }
    assert_eq!(cache.get(&1), Some(&999));
    assert!(cache.get_mut(&2).is_none());
}

#[test]
fn degenerate_capacity_still_works() {
    // Capacity 5 yields a small queue of capacity 0, which holds at
    // most one entry at a time: every insertion displaces the previous.
    let mut cache: S3FIFO<u64, i32> = S3FIFO::new(5);
    cache.put(1, 100);
    assert_eq!(cache.small.len(), 1);
    cache.put(2, 200);
    assert_eq!(cache.small.len(), 1);
    assert_eq!(cache.get(&2), Some(&200));
    assert!(cache.get(&1).is_none());
}

#[test]
fn capacity_invariant_holds_throughout() {
    let mut cache: S3FIFO<u64, u64> = S3FIFO::new(20);
    for i in 0..50u64 {
        cache.put(i, i * 10);
        let _ = cache.get(&(i / 2));
        assert!(cache.small.len() <= 2);
        assert!(cache.main.len() <= 18);
        assert!(cache.ghosts.len() <= 18);
    }
}

#[test]
fn ghost_list_recycles_oldest_record() {
    // Capacity 10: the ghost list holds 9 records.  Eleven distinct
    // insertions demote ten keys; the oldest ghost record (key 0) is
    // recycled out when the tenth arrives.
    let mut cache: S3FIFO<u64, i32> = S3FIFO::new(10);
    for i in 0..11u64 {
        cache.put(i, i as i32);
    }
    assert_eq!(cache.ghosts.len(), 9);
    // Key 0 was forgotten: a re-write starts cold in the small queue
    // (and, in passing, demotes key 10 and recycles key 1 out).
    cache.put(0, 1000);
    assert_eq!(cache.main.len(), 0);
    assert_eq!(cache.small.len(), 1);
    // Key 2 is still remembered: a re-write lands in the main queue.
    cache.put(2, 1002);
    assert_eq!(cache.main.len(), 1);
}
