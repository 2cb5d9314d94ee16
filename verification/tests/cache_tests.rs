use catalog_core::cache::HashCacheEntry;
use catalog_core::cache::StatInfo;
use catalog_core::cache::build_hash_map;
use catalog_core::cache::cache_entry_valid;
use catalog_core::cache::plan_hash_refresh;
use catalog_core::cache::update_disk_cache;

fn entry(hash: &str, mtime_ms: u64, size: u64) -> HashCacheEntry {
    HashCacheEntry { hash: hash.to_string(), mtime_ms, size }
}

#[test]
fn cache_entry_valid_needs_hash_mtime_and_size() {
    let e = entry("deadbeef", 100, 10);
    assert!(cache_entry_valid(&e, 100, 10));
    assert!(!cache_entry_valid(&e, 101, 10));
    assert!(!cache_entry_valid(&e, 100, 11));
    assert!(!cache_entry_valid(&entry("", 100, 10), 100, 10));
}

#[test]
fn matching_mtime_and_size_returns_the_stored_hash_even_if_stale() {
    // the file was rewritten with identical mtime and size: the plan cannot
    // see the content, reports the entry valid and reuses the stale hash
    let cache = vec![("C:\\f.bin".to_string(), entry("00ff00ff00ff00ff00ff00ff00ff00ff", 100, 10))];
    let items = vec![("C:\\f.bin".to_string(), Some(StatInfo { mtime_ms: 100, size: 10 }))];
    let plan = plan_hash_refresh(&items, &cache);
    assert_eq!(plan.reused, vec![("C:\\f.bin".to_string(), "00ff00ff00ff00ff00ff00ff00ff00ff".to_string())]);
    assert!(plan.to_hash.is_empty());
}

#[test]
fn changed_mtime_or_size_forces_recomputation() {
    let cache = vec![("C:\\f.bin".to_string(), entry("00ff00ff00ff00ff00ff00ff00ff00ff", 100, 10))];
    let newer = vec![("C:\\f.bin".to_string(), Some(StatInfo { mtime_ms: 101, size: 10 }))];
    let plan = plan_hash_refresh(&newer, &cache);
    assert!(plan.reused.is_empty());
    assert_eq!(plan.to_hash, vec!["C:\\f.bin".to_string()]);

    let resized = vec![("C:\\f.bin".to_string(), Some(StatInfo { mtime_ms: 100, size: 11 }))];
    let plan = plan_hash_refresh(&resized, &cache);
    assert!(plan.reused.is_empty());
    assert_eq!(plan.to_hash, vec!["C:\\f.bin".to_string()]);
}

#[test]
fn unknown_or_missing_paths() {
    let cache: Vec<(String, HashCacheEntry)> = Vec::new();
    let items = vec![
        ("present".to_string(), Some(StatInfo { mtime_ms: 5, size: 1 })),
        ("missing".to_string(), None),
    ];
    let plan = plan_hash_refresh(&items, &cache);
    assert!(plan.reused.is_empty());
    // a path whose stat failed is skipped entirely; one without a valid
    // entry is recomputed
    assert_eq!(plan.to_hash, vec!["present".to_string()]);
}

#[test]
fn build_hash_map_keeps_reused_and_successful_hashes() {
    let reused = vec![("a".to_string(), "h1".to_string())];
    let hashed = vec![
        ("b".to_string(), Some("h2".to_string())),
        ("c".to_string(), None),
    ];
    let m = build_hash_map(&reused, &hashed);
    assert_eq!(m, vec![("a".to_string(), "h1".to_string()), ("b".to_string(), "h2".to_string())]);
}

#[test]
fn recomputed_hash_reaches_the_next_save() {
    // the stored value is stale; after recomputation the update replaces it
    let mut cache = vec![
        ("a".to_string(), entry("stalestale", 1, 1)),
        ("b".to_string(), entry("keepme", 2, 2)),
    ];
    let updates = vec![
        ("a".to_string(), entry("freshfresh", 10, 20)),
        ("c".to_string(), entry("newentry", 3, 3)),
    ];
    update_disk_cache(&mut cache, &updates);
    assert_eq!(cache.len(), 3);
    assert_eq!(cache[0].0, "a");
    assert_eq!(cache[0].1.hash, "freshfresh");
    assert_eq!(cache[0].1.mtime_ms, 10);
    assert_eq!(cache[1].0, "b");
    assert_eq!(cache[1].1.hash, "keepme");
    assert_eq!(cache[2].0, "c");
    assert_eq!(cache[2].1.hash, "newentry");
}
