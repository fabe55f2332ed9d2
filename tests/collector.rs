use stack_counter::bucket::{Bucket, BUCKETS_ASSOCIATIVITY};
use stack_counter::collector::Collector;
use stack_counter::counter::StackHashCounter;
use stack_counter::entry::Entry;
use stack_counter::log::{TempFdArray, BUFFER_LENGTH, RECORD_SIZE};
use std::collections::BTreeMap;

fn add_map(hashmap: &mut BTreeMap<usize, usize>, entry: &Entry<usize>) {
    match hashmap.get_mut(&entry.item) {
        None => {
            hashmap.insert(entry.item, entry.count);
        }
        Some(count) => *count += entry.count,
    }
}

/// Counts `key` in `collector`, then writes the staged block to `storage`
/// when an evicted entry waits for room.
fn add_with_storage(collector: &mut Collector<usize>, storage: &mut Vec<u8>, key: usize) {
    assert!(collector.add(key));
    if collector.needs_flush() {
        storage.extend_from_slice(&collector.pending_block());
        collector.mark_flushed();
        assert!(!collector.needs_flush());
    }
}

#[test]
fn stack_hash_counter() {
    let mut stack_hash_counter = StackHashCounter::<usize>::default();
    stack_hash_counter.add(0);
    stack_hash_counter.add(1);
    stack_hash_counter.add(1);

    stack_hash_counter.iter().iter().for_each(|item| {
        if item.item == 0 {
            assert_eq!(item.count, 1);
        } else if item.item == 1 {
            assert_eq!(item.count, 2);
        } else {
            unreachable!();
        }
    });
}

#[test]
fn evict_test() {
    let mut stack_hash_counter = StackHashCounter::<usize>::default();
    let mut real_map = BTreeMap::new();

    for item in 0..(1 << 10) * 4 {
        for _ in 0..(item % 4) {
            match stack_hash_counter.add(item) {
                None => {}
                Some(evict) => {
                    add_map(&mut real_map, &evict);
                }
            }
        }
    }

    stack_hash_counter.iter().iter().for_each(|entry| {
        add_map(&mut real_map, entry);
    });

    for item in 0..(1 << 10) * 4 {
        let count = item % 4;
        match real_map.get(&item) {
            Some(item) => {
                assert_eq!(*item, count);
            }
            None => {
                assert_eq!(count, 0);
            }
        }
    }
}

#[test]
fn collector_test() {
    let mut collector = Collector::new();
    let mut storage: Vec<u8> = Vec::new();
    let mut real_map = BTreeMap::new();

    for item in 0..(1 << 10) * 4 {
        for _ in 0..(item % 4) {
            add_with_storage(&mut collector, &mut storage, item);
        }
    }

    collector.iter(&storage).unwrap().iter().for_each(|entry| {
        add_map(&mut real_map, entry);
    });

    for item in 0..(1 << 10) * 4 {
        let count = item % 4;
        match real_map.get(&item) {
            Some(item) => {
                assert_eq!(*item, count);
            }
            None => {
                assert_eq!(count, 0);
            }
        }
    }
    assert!(!storage.is_empty());
}

#[test]
fn collector_two_keys_sum() {
    let mut collector = Collector::new();
    let storage: Vec<u8> = Vec::new();
    assert!(collector.add(0));
    assert!(collector.add(1));
    assert!(collector.add(1));
    let mut sums = BTreeMap::new();
    for e in collector.iter(&storage).unwrap().iter() {
        add_map(&mut sums, e);
    }
    let expected: BTreeMap<usize, usize> = [(0, 1), (1, 2)].into_iter().collect();
    assert_eq!(sums, expected);
}

#[test]
fn bucket_five_keys_one_eviction() {
    let mut bucket = Bucket::<usize>::default();
    let mut evicted = Vec::new();
    for key in [10usize, 20, 30, 40, 50] {
        if let Some(e) = bucket.add(key) {
            evicted.push(e);
        }
    }
    assert_eq!(evicted.len(), 1);
    assert_eq!(evicted[0].item, 10);
    assert_eq!(evicted[0].count, 1);
    let mut sums = BTreeMap::new();
    for e in &evicted {
        add_map(&mut sums, e);
    }
    let mut it = bucket.iter();
    while let Some(e) = it.next() {
        add_map(&mut sums, e);
    }
    let expected: BTreeMap<usize, usize> = [(10, 1), (20, 1), (30, 1), (40, 1), (50, 1)].into_iter().collect();
    assert_eq!(sums, expected);
}

#[test]
fn bucket_admits_up_to_associativity() {
    let mut bucket = Bucket::<usize>::new();
    for key in 0..BUCKETS_ASSOCIATIVITY {
        assert!(bucket.add(key).is_none());
        assert_eq!(bucket.len(), key + 1);
    }
    assert!(bucket.add(0).is_none());
    assert_eq!(bucket.len(), BUCKETS_ASSOCIATIVITY);
}

#[test]
fn bucket_evicts_first_minimum() {
    let mut bucket = Bucket::<usize>::new();
    // counts: 7 -> 2, 8 -> 1, 9 -> 3, 6 -> 1
    for key in [7usize, 7, 8, 9, 9, 9, 6] {
        assert!(bucket.add(key).is_none());
    }
    let e = bucket.add(100).unwrap();
    assert_eq!((e.item, e.count), (8, 1));
    let mut it = bucket.iter();
    let got: Vec<(usize, usize)> = std::iter::from_fn(|| it.next().map(|e| (e.item, e.count))).collect();
    assert_eq!(got, vec![(7, 2), (100, 1), (9, 3), (6, 1)]);
    assert!(it.next().is_none());
}

#[test]
fn bucket_iter_empty() {
    let bucket = Bucket::<usize>::new();
    let mut it = bucket.iter();
    assert!(it.next().is_none());
    assert_eq!(bucket.len(), 0);
}

#[test]
fn resident_iteration_repeats() {
    let mut counter = StackHashCounter::<usize>::new(3);
    assert_eq!(counter.num_buckets(), 3);
    for key in 0..50usize {
        for _ in 0..(key % 3 + 1) {
            counter.add(key);
        }
    }
    let first: Vec<(usize, usize)> = counter.iter().iter().map(|e| (e.item, e.count)).collect();
    let second: Vec<(usize, usize)> = counter.iter().iter().map(|e| (e.item, e.count)).collect();
    assert_eq!(first, second);
    assert!(first.len() <= 3 * BUCKETS_ASSOCIATIVITY);
}

#[test]
fn same_key_same_bucket() {
    let mut counter = StackHashCounter::<usize>::new(1);
    for _ in 0..1000 {
        assert!(counter.add(42).is_none());
    }
    let all = counter.iter();
    assert_eq!(all.len(), 1);
    assert_eq!((all[0].item, all[0].count), (42, 1000));
}

#[test]
fn soak_key_space_sums() {
    let mut collector = Collector::new();
    let mut storage: Vec<u8> = Vec::new();
    for key in 0..4096usize {
        for _ in 0..(key % 4) {
            add_with_storage(&mut collector, &mut storage, key);
        }
    }
    let mut sums = BTreeMap::new();
    for e in collector.iter(&storage).unwrap().iter() {
        add_map(&mut sums, e);
    }
    for key in 0..4096usize {
        assert_eq!(sums.get(&key).copied().unwrap_or(0), key % 4);
    }
}

#[test]
fn log_record_layout() {
    let mut log = TempFdArray::<Entry<usize>>::new();
    assert!(log.push(Entry { item: 0x0102, count: 3 }));
    let block = log.pending_block();
    assert_eq!(block.len(), RECORD_SIZE);
    assert_eq!(block, vec![0x02, 0x01, 0, 0, 0, 0, 0, 0, 3, 0, 0, 0, 0, 0, 0, 0]);
}

#[test]
fn log_orders_stored_before_staged() {
    let mut log = TempFdArray::<Entry<usize>>::new();
    let mut storage: Vec<u8> = Vec::new();
    for i in 0..BUFFER_LENGTH {
        assert!(log.push(Entry { item: i, count: 1 }));
    }
    assert!(log.is_full());
    assert!(!log.push(Entry { item: 9999, count: 1 }));
    storage.extend_from_slice(&log.pending_block());
    log.mark_flushed();
    assert!(!log.is_full());
    assert!(log.push(Entry { item: 9999, count: 5 }));
    let all = log.iter(&storage).unwrap();
    assert_eq!(all.len(), BUFFER_LENGTH + 1);
    for (i, e) in all.iter().take(BUFFER_LENGTH).enumerate() {
        assert_eq!((e.item, e.count), (i, 1));
    }
    assert_eq!((all[BUFFER_LENGTH].item, all[BUFFER_LENGTH].count), (9999, 5));
}

#[test]
fn log_rejects_partial_record() {
    let log = TempFdArray::<Entry<usize>>::new();
    let storage: Vec<u8> = vec![1, 2, 3];
    assert!(log.iter(&storage).is_none());
    let empty: Vec<u8> = Vec::new();
    assert_eq!(log.iter(&empty).unwrap().len(), 0);
}

#[test]
fn collector_flushes_only_for_evicted_entries() {
    let mut collector = Collector::with_buckets(1);
    let mut storage: Vec<u8> = Vec::new();
    let mut flushes = 0usize;
    for key in 0..20000usize {
        assert!(collector.add(key));
        if collector.needs_flush() {
            flushes += 1;
            storage.extend_from_slice(&collector.pending_block());
            collector.mark_flushed();
        }
    }
    assert!(flushes > 0);
    assert_eq!(storage.len() % RECORD_SIZE, 0);
    let all = collector.iter(&storage).unwrap();
    let total: usize = all.iter().map(|e| e.count).sum();
    assert_eq!(total, 20000);
    assert!(all.iter().all(|e| e.count >= 1));
}

#[test]
fn collector_full_buffer_without_eviction() {
    let mut collector = Collector::with_buckets(1);
    let empty: Vec<u8> = Vec::new();
    // four keys fill the one bucket, the next BUFFER_LENGTH keys each evict one
    for key in 0..(BUCKETS_ASSOCIATIVITY + BUFFER_LENGTH) {
        assert!(collector.add(key));
        assert!(!collector.needs_flush());
    }
    let before = collector.iter(&empty).unwrap().len();
    // a resident key: counted, nothing evicted, nothing to write
    let resident = BUCKETS_ASSOCIATIVITY + BUFFER_LENGTH - 1;
    assert!(collector.add(resident));
    assert!(!collector.needs_flush());
    assert_eq!(collector.iter(&empty).unwrap().len(), before);
    // a new key evicts into the full buffer: the entry waits
    assert!(collector.add(100_000));
    assert!(collector.needs_flush());
    assert_eq!(collector.iter(&empty).unwrap().len(), before + 1);
    // while it waits, further adds are refused and change nothing
    assert!(!collector.add(100_001));
    assert_eq!(collector.iter(&empty).unwrap().len(), before + 1);
    let block = collector.pending_block();
    assert_eq!(block.len(), BUFFER_LENGTH * RECORD_SIZE);
    collector.mark_flushed();
    assert!(!collector.needs_flush());
    let all = collector.iter(&block).unwrap();
    assert_eq!(all.len(), before + 1);
    let mut sums = BTreeMap::new();
    for e in all.iter() {
        add_map(&mut sums, e);
    }
    assert_eq!(sums.get(&resident).copied(), Some(2));
    assert_eq!(sums.get(&100_000).copied(), Some(1));
    assert_eq!(sums.get(&100_001).copied(), None);
}

#[test]
fn collector_five_keys_one_bucket() {
    let mut collector = Collector::with_buckets(1);
    let empty: Vec<u8> = Vec::new();
    for key in [3usize, 14, 15, 92, 65] {
        assert!(collector.add(key));
    }
    let all = collector.iter(&empty).unwrap();
    assert_eq!(all.len(), 5);
    let mut sums = BTreeMap::new();
    for e in all.iter() {
        add_map(&mut sums, e);
    }
    let expected: BTreeMap<usize, usize> = [(3, 1), (14, 1), (15, 1), (92, 1), (65, 1)].into_iter().collect();
    assert_eq!(sums, expected);
}
