use turborepo_lib::cache::{CacheEntry, LocalCache};

#[test]
fn store_then_lookup_returns_what_was_stored() {
    let mut cache = LocalCache::new();
    let key = vec![7u8, 1, 2, 3];
    let outputs = vec![0u8, 255, 10, 13, 42];
    let logs = b"compiled 3 files\n".to_vec();
    cache.store(&key, &outputs, &logs, 0);
    let hit = cache.lookup(&key).expect("a hit");
    assert_eq!(hit.outputs, outputs);
    assert_eq!(hit.logs, logs);
    assert_eq!(hit.exit_code, 0);
}

#[test]
fn lookup_of_unknown_key_misses() {
    let mut cache = LocalCache::new();
    cache.store(&vec![1u8, 2], &vec![1u8], &vec![], 0);
    assert!(cache.lookup(&vec![1u8]).is_none());
    assert!(cache.lookup(&vec![1u8, 2, 3]).is_none());
    assert!(LocalCache::new().lookup(&vec![]).is_none());
}

#[test]
fn forced_store_replaces_entry() {
    let mut cache = LocalCache::new();
    let key = vec![9u8];
    cache.store(&key, &vec![1u8], &b"old".to_vec(), 1);
    cache.store(&vec![10u8], &vec![5u8], &b"other".to_vec(), 0);
    cache.store(&key, &vec![2u8, 3], &b"new".to_vec(), 0);
    let hit = cache.lookup(&key).unwrap();
    assert_eq!(hit.outputs, vec![2u8, 3]);
    assert_eq!(hit.logs, b"new".to_vec());
    assert_eq!(hit.exit_code, 0);
    let other = cache.lookup(&vec![10u8]).unwrap();
    assert_eq!(other.outputs, vec![5u8]);
    assert_eq!(other.logs, b"other".to_vec());
}

#[test]
fn remote_hit_hydrates_local_store() {
    let mut cache = LocalCache::new();
    let key = vec![3u8, 4];
    assert!(cache.lookup(&key).is_none());
    let remote = CacheEntry { outputs: vec![1u8, 2, 3], logs: b"from remote".to_vec(), exit_code: 0 };
    let hit = cache.hydrate(&key, Some(remote)).expect("remote hit");
    assert_eq!(hit.outputs, vec![1u8, 2, 3]);
    let local = cache.lookup(&key).expect("now local");
    assert_eq!(local.outputs, vec![1u8, 2, 3]);
    assert_eq!(local.logs, b"from remote".to_vec());
}

#[test]
fn remote_miss_stays_a_miss() {
    let mut cache = LocalCache::new();
    let key = vec![3u8, 4];
    assert!(cache.hydrate(&key, None).is_none());
    assert!(cache.lookup(&key).is_none());
}
