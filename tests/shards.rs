use shard_hash::{ShardError, ShardHasher, ShardIterator};
use std::collections::HashSet;

fn has_unique_elements(items: &[u64]) -> bool {
    let mut uniq = HashSet::new();
    items.iter().all(|x| uniq.insert(*x))
}

// Static test for 7 to prevent alteration to the algorithm
#[test]
fn hash_7() {
    let mut sh = ShardHasher::new(7);
    sh.write(&2237u64.to_ne_bytes());
    let shards: Vec<u64> = sh.into_iter().collect();

    assert_eq!(shards, vec![1, 5, 4, 0, 2, 3, 6]);
}

// Static test for 7/1 to prevent alteration to the algorithm
#[test]
fn iterator_7_1() {
    let shards: Vec<u64> = ShardIterator::new(2237, 7, 1).collect();

    assert_eq!(shards, vec![4]);
}

// Static test for 7/3 to prevent alteration to the algorithm
#[test]
fn iterator_7_3() {
    let shards: Vec<u64> = ShardIterator::new(2237, 7, 3).collect();

    assert_eq!(shards, vec![4, 1, 3]);
}

// Static test for 7/7 to prevent alteration to the algorithm
#[test]
fn iterator_7_7() {
    let shards: Vec<u64> = ShardIterator::new(2237, 7, 7).collect();

    assert_eq!(shards, vec![4, 1, 3, 2, 5, 0, 6]);
}

// Test that the shards length is equal to the number of replicas
#[test]
fn length() {
    for _ in 0..100 {
        let value: u64 = rand::random();
        let count = (rand::random::<u64>() % 256) + 1;
        let replicas = (rand::random::<u64>() % count) + 1;

        let shards: Vec<u64> = ShardIterator::new(value, count, replicas).collect();
        assert_eq!(shards.len() as u64, replicas);
    }
}

// Test that all values are unique
#[test]
fn unique() {
    for _ in 0..100 {
        let value: u64 = rand::random();
        let count = (rand::random::<u64>() % 256) + 1;
        let replicas = (rand::random::<u64>() % count) + 1;

        let shards: Vec<u64> = ShardIterator::new(value, count, replicas).collect();
        assert_eq!(shards.len() as u64, replicas);
        assert!(has_unique_elements(&shards));
    }
}

// Test that the same parameters with less replicas start with the same sequence
#[test]
fn successive() {
    for _ in 0..100 {
        let value: u64 = rand::random();
        let count = (rand::random::<u64>() % 256) + 1;
        let replicas = (rand::random::<u64>() % count) + 1;
        let replicas2 = (rand::random::<u64>() % replicas) + 1;

        let shards: Vec<u64> = ShardIterator::new(value, count, replicas).collect();
        let shards2: Vec<u64> = ShardIterator::new(value, count, replicas2).collect();
        assert_eq!(shards2[..], shards[..replicas2 as usize]);
    }
}

#[test]
fn first_shard_of_five() {
    let shards: Vec<u64> = ShardIterator::new(2237, 5, 1).collect();
    assert_eq!(shards, vec![2]);
}

#[test]
fn same_inputs_same_sequence() {
    let a: Vec<u64> = ShardIterator::new(987_654_321, 40, 12).collect();
    let b: Vec<u64> = ShardIterator::new(987_654_321, 40, 12).collect();
    assert_eq!(a, b);
    assert_eq!(a.len(), 12);
}

#[test]
fn prefix_of_longer_request() {
    let long: Vec<u64> = ShardIterator::new(2237, 7, 7).collect();
    for r in 1..=7u64 {
        let short: Vec<u64> = ShardIterator::new(2237, 7, r).collect();
        assert_eq!(short[..], long[..r as usize]);
    }
}

#[test]
fn full_request_is_permutation() {
    for count in 1..=64u64 {
        let mut shards: Vec<u64> = ShardIterator::new(u64::MAX - count, count, count).collect();
        shards.sort();
        let expected: Vec<u64> = (0..count).collect();
        assert_eq!(shards, expected);
    }
}

#[test]
fn single_shard() {
    let shards: Vec<u64> = ShardIterator::new(u64::MAX, 1, 1).collect();
    assert_eq!(shards, vec![0]);
}

#[test]
fn zero_state_is_identity_order() {
    let shards: Vec<u64> = ShardIterator::new(0, 5, 5).collect();
    assert_eq!(shards, vec![0, 1, 2, 3, 4]);
}

#[test]
fn next_steps_then_exhausts() {
    let mut it = ShardIterator::new(2237, 7, 3);
    assert_eq!(it.size_hint(), (3, Some(3)));
    assert_eq!(it.next(), Some(4));
    assert_eq!(it.size_hint(), (2, Some(2)));
    assert_eq!(it.next(), Some(1));
    assert_eq!(it.next(), Some(3));
    assert_eq!(it.size_hint(), (0, Some(0)));
    assert_eq!(it.next(), None);
    assert_eq!(it.next(), None);
}

#[test]
fn collect_after_partial_use() {
    let mut it = ShardIterator::new(2237, 7, 7);
    assert_eq!(it.next(), Some(4));
    assert_eq!(it.next(), Some(1));
    let rest: Vec<u64> = it.collect();
    assert_eq!(rest, vec![3, 2, 5, 0, 6]);
}

#[test]
fn try_new_rejects_zero_shards() {
    assert_eq!(ShardIterator::try_new(2237, 0, 0).err(), Some(ShardError::Configuration));
    assert_eq!(ShardIterator::try_new(2237, 0, 3).err(), Some(ShardError::Configuration));
}

#[test]
fn try_new_rejects_bad_size() {
    assert_eq!(ShardIterator::try_new(2237, 7, 8).err(), Some(ShardError::InvalidArgument));
    assert_eq!(ShardIterator::try_new(2237, 7, 0).err(), Some(ShardError::InvalidArgument));
    for _ in 0..100 {
        let value: u64 = rand::random();
        let replicas = (rand::random::<u64>() % 256) + 1;
        let count = (rand::random::<u64>() % replicas) + 1;
        if replicas > count {
            assert_eq!(
                ShardIterator::try_new(value, count, replicas).err(),
                Some(ShardError::InvalidArgument)
            );
        }
    }
}

#[test]
fn try_new_accepts_valid_size() {
    let it = ShardIterator::try_new(2237, 7, 3).ok().unwrap();
    let shards: Vec<u64> = it.collect();
    assert_eq!(shards, vec![4, 1, 3]);
}

#[test]
fn hasher_try_new() {
    assert_eq!(ShardHasher::try_new(0).err(), Some(ShardError::Configuration));
    assert!(ShardHasher::try_new(3).is_ok());
}

#[test]
fn hasher_finish_is_repeatable() {
    let mut sh = ShardHasher::new(7);
    sh.write(b"key");
    let first = sh.finish();
    assert_eq!(sh.finish(), first);
}

#[test]
fn hasher_write_changes_digest() {
    let empty = ShardHasher::new(7).finish();
    let mut sh = ShardHasher::new(7);
    sh.write(&2237u64.to_ne_bytes());
    assert_ne!(sh.finish(), empty);
}

#[test]
fn hasher_sized_iter_matches_iterator() {
    let mut sh = ShardHasher::new(7);
    sh.write(&2237u64.to_ne_bytes());
    let state = sh.finish();
    let expected: Vec<u64> = ShardIterator::new(state, 7, 3).collect();
    let shards: Vec<u64> = sh.into_sized_iter(3).collect();
    assert_eq!(shards, expected);
    assert_eq!(shards, vec![1, 5, 4]);
}
