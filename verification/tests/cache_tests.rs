use nextdb::storage::cache::BlockCache;

#[test]
fn test_cache_basic_operations() {
    let mut cache = BlockCache::new(100);

    // Test put and get
    cache.put("key1".to_string(), b"value1".to_vec());
    assert_eq!(cache.get("key1"), Some(b"value1".to_vec()));

    // Test nonexistent key
    assert_eq!(cache.get("nonexistent"), None);
}

#[test]
fn test_cache_eviction() {
    let mut cache = BlockCache::new(50); // Small capacity

    // Fill cache
    cache.put("key1".to_string(), b"value1".to_vec()); // ~12 bytes
    cache.put("key2".to_string(), b"value2".to_vec()); // ~12 bytes
    cache.put("key3".to_string(), b"value3".to_vec()); // ~12 bytes

    // Access key1 to make it recently used
    cache.get("key1");

    // Add another entry that should evict key2 (least recently used)
    cache.put("key4".to_string(), b"value4444444".to_vec()); // Larger value

    // key1 should still be there (recently accessed)
    assert_eq!(cache.get("key1"), Some(b"value1".to_vec()));

    // key4 should be there (just inserted)
    assert_eq!(cache.get("key4"), Some(b"value4444444".to_vec()));
}

#[test]
fn cache_counts_key_and_value_bytes() {
    let mut cache = BlockCache::new(100);
    assert_eq!(cache.capacity(), 100);
    assert_eq!(cache.size(), 0);
    cache.put("key1".to_string(), b"value1".to_vec());
    assert_eq!(cache.size(), 10);
    cache.put("k".to_string(), vec![]);
    assert_eq!(cache.size(), 11);
    // A key is counted by its bytes in UTF-8.
    cache.put("é".to_string(), vec![1]);
    assert_eq!(cache.size(), 14);
}

#[test]
fn cache_evicts_the_least_recently_used_first() {
    let mut cache = BlockCache::new(30);
    cache.put("key1".to_string(), b"value1".to_vec());
    cache.put("key2".to_string(), b"value2".to_vec());
    cache.put("key3".to_string(), b"value3".to_vec());
    assert_eq!(cache.size(), 30);

    // One more entry of ten bytes: exactly the oldest one leaves.
    cache.put("key4".to_string(), b"value4".to_vec());
    assert_eq!(cache.size(), 30);
    assert_eq!(cache.get("key1"), None);
    assert_eq!(cache.get("key2"), Some(b"value2".to_vec()));
    assert_eq!(cache.get("key3"), Some(b"value3".to_vec()));
    assert_eq!(cache.get("key4"), Some(b"value4".to_vec()));
}

#[test]
fn cache_read_protects_from_the_next_eviction() {
    let mut cache = BlockCache::new(30);
    cache.put("key1".to_string(), b"value1".to_vec());
    cache.put("key2".to_string(), b"value2".to_vec());
    cache.put("key3".to_string(), b"value3".to_vec());

    // key1 is the oldest, but it is read: key2 is now the one to leave.
    assert_eq!(cache.get("key1"), Some(b"value1".to_vec()));
    cache.put("key4".to_string(), b"value4".to_vec());
    assert_eq!(cache.get("key2"), None);
    assert_eq!(cache.get("key1"), Some(b"value1".to_vec()));
    assert_eq!(cache.get("key3"), Some(b"value3".to_vec()));
    assert_eq!(cache.get("key4"), Some(b"value4".to_vec()));
}

#[test]
fn cache_evicts_as_many_as_the_new_entry_needs() {
    let mut cache = BlockCache::new(30);
    cache.put("key1".to_string(), b"value1".to_vec());
    cache.put("key2".to_string(), b"value2".to_vec());
    cache.put("key3".to_string(), b"value3".to_vec());

    // Fifteen bytes need two of the old entries to leave.
    cache.put("key4".to_string(), b"value444444".to_vec());
    assert_eq!(cache.size(), 25);
    assert_eq!(cache.get("key1"), None);
    assert_eq!(cache.get("key2"), None);
    assert_eq!(cache.get("key3"), Some(b"value3".to_vec()));
    assert_eq!(cache.get("key4"), Some(b"value444444".to_vec()));
}

#[test]
fn cache_replaces_the_entry_of_a_key() {
    let mut cache = BlockCache::new(100);
    cache.put("key1".to_string(), b"value1".to_vec());
    cache.put("key2".to_string(), b"value2".to_vec());
    cache.put("key1".to_string(), b"v".to_vec());
    assert_eq!(cache.size(), 5 + 10);
    assert_eq!(cache.get("key1"), Some(b"v".to_vec()));
}

#[test]
fn cache_does_not_keep_an_oversized_entry() {
    let mut cache = BlockCache::new(20);
    cache.put("key1".to_string(), b"value1".to_vec());

    // Twenty-one bytes never fit. Room is made in vain and nothing is kept.
    cache.put("big".to_string(), vec![0u8; 18]);
    assert_eq!(cache.get("big"), None);
    assert_eq!(cache.get("key1"), None);
    assert_eq!(cache.size(), 0);

    // Exactly the capacity fits.
    cache.put("fit".to_string(), vec![0u8; 17]);
    assert_eq!(cache.get("fit"), Some(vec![0u8; 17]));
    assert_eq!(cache.size(), 20);
}

#[test]
fn cache_of_no_capacity_keeps_nothing() {
    let mut cache = BlockCache::new(0);
    cache.put("a".to_string(), vec![]);
    assert_eq!(cache.get("a"), None);
    assert_eq!(cache.size(), 0);
}

#[test]
fn cache_hands_out_copies() {
    let mut cache = BlockCache::new(100);
    cache.put("key".to_string(), b"block".to_vec());
    let mut copy = cache.get("key").unwrap();
    copy[0] = b'X';
    assert_eq!(cache.get("key"), Some(b"block".to_vec()));
}
