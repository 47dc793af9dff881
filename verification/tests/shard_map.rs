use shard_map::{MutableShardMap, ShardMap};

const N: usize = 1 << 15;

#[test]
fn test_shard_map() {
    let mut map = MutableShardMap::<usize>::new(16);

    assert!(map.is_empty());
    map.insert(1, 1);
    assert_eq!(map.len(), 1);
    map.clear();
    assert!(map.is_empty());
    assert_eq!(map.len(), 0);

    for i in 0..N {
        assert!(map.insert(i as u64, i * 2).is_none());
    }
    for i in 0..N {
        if i % 2 == 0 {
            assert_eq!(map.remove(i as u64), Some(i * 2));
        } else {
            assert_eq!(map.get_cloned(i as u64), Some(i * 2));
        }
    }
    assert!(!map.contains_key(0));
    assert!(map.contains_key(1));

    let immutable_map: ShardMap<usize> = map.into_read_only();
    assert!(!immutable_map.is_empty());
    assert_eq!(immutable_map.len(), N / 2);
    for i in 0..N {
        if i % 2 == 1 {
            assert_eq!(immutable_map.get(i as u64).cloned(), Some(i * 2));
        }
    }
    assert!(immutable_map.contains_key(1));
}

#[test]
fn routing_is_deterministic_across_instances() {
    let mut a = MutableShardMap::<u32>::new(8);
    let mut b = MutableShardMap::<u32>::new(8);
    for k in [0u64, 1, 2, 97, 1024, 65535, u64::MAX] {
        a.insert(k, 7);
        b.insert(k, 7);
    }
    for k in [0u64, 1, 2, 97, 1024, 65535, u64::MAX] {
        assert!(a.contains_key(k));
        assert!(b.contains_key(k));
        assert_eq!(a.get_cloned(k), Some(7));
        assert_eq!(b.get_cloned(k), Some(7));
    }
    assert!(!a.contains_key(3));
    assert!(!b.contains_key(3));
}

#[test]
fn second_insert_overwrites_and_returns_first() {
    let mut map = MutableShardMap::<u64>::new(4);
    assert_eq!(map.insert(5, 10), None);
    assert_eq!(map.insert(5, 20), Some(10));
    assert_eq!(map.get_cloned(5), Some(20));
    assert_eq!(map.len(), 1);
}

#[test]
fn cardinality_follows_inserts_and_removes() {
    let mut map = MutableShardMap::<u64>::new(32);
    assert!(map.is_empty());
    for k in 0..100u64 {
        map.insert(k, k + 1);
    }
    assert_eq!(map.len(), 100);
    assert!(!map.is_empty());
    for k in 0..100u64 {
        assert_eq!(map.remove(k), Some(k + 1));
    }
    assert_eq!(map.len(), 0);
    assert!(map.is_empty());
}

#[test]
fn remove_of_absent_key_returns_nothing_and_keeps_len() {
    let mut map = MutableShardMap::<u64>::new(2);
    map.insert(1, 11);
    map.insert(2, 22);
    assert_eq!(map.len(), 2);
    assert_eq!(map.remove(3), None);
    assert_eq!(map.len(), 2);
    assert_eq!(map.get_cloned(1), Some(11));
    assert_eq!(map.get_cloned(2), Some(22));
}

#[test]
fn clear_twice_leaves_empty_both_times() {
    let mut map = MutableShardMap::<u64>::new(4);
    for k in 0..10u64 {
        map.insert(k, k);
    }
    map.clear();
    assert!(map.is_empty());
    assert_eq!(map.len(), 0);
    map.clear();
    assert!(map.is_empty());
    assert_eq!(map.len(), 0);
}

#[test]
fn conversion_round_trip_keeps_every_entry() {
    let mut map = MutableShardMap::<u64>::new(8);
    let pairs = [(1u64, 10u64), (2, 20), (3, 30), (400, 4000), (50000, 500000)];
    for (k, v) in pairs {
        map.insert(k, v);
    }
    let plain: ShardMap<u64> = map.into_read_only();
    assert_eq!(plain.len(), pairs.len());
    for (k, v) in pairs {
        assert_eq!(plain.get(k), Some(&v));
        assert!(plain.contains_key(k));
    }
    assert_eq!(plain.get(99), None);
}

#[test]
fn single_shard_container_works() {
    let mut map = MutableShardMap::<u64>::new(1);
    assert_eq!(map.insert(123, 456), None);
    assert_eq!(map.get_cloned(123), Some(456));
    assert_eq!(map.get_cloned(124), None);
    assert_eq!(map.len(), 1);
    let plain = map.into_read_only();
    assert_eq!(plain.get(123), Some(&456));
}

#[test]
fn lookup_of_absent_key_is_none() {
    let mut map = MutableShardMap::<u64>::new(4);
    assert_eq!(map.get_cloned(7), None);
    assert!(!map.contains_key(7));
    map.insert(7, 1);
    assert_eq!(map.get_cloned(8), None);
}
