use cache_lru::Cache;
use cache_lru::CacheError;
use cache_lru::CacheLRU;

#[test]
fn test_trait_entry_points() {
    let mut cache = Cache::<String, String>::new(2);
    assert!(cache.on_put("A".to_string(), "1".to_string()).is_none());
    cache.on_put("B".to_string(), "2".to_string());
    assert_eq!(cache.on_get(&"A".to_string()), Some("1".to_string()));
    // B now carries the smallest stamp
    assert_eq!(cache.remove_least_recently_used(), Some("B".to_string()));
    assert_eq!(cache.on_get(&"B".to_string()), None);
}

#[test]
fn test_remove_least_recently_used_on_empty() {
    let mut cache = Cache::<String, String>::new(2);
    assert_eq!(cache.remove_least_recently_used(), None);
}

#[test]
fn test_snapshot_requires_path() {
    let cache = Cache::<String, String>::new(2);
    assert!(matches!(cache.snapshot(), Err(CacheError::PersistenceNotConfigured)));
}

#[test]
fn test_snapshot_exact_format() {
    let mut cache = Cache::<String, String>::new_persistent(10, "cache.txt");
    cache.put("k".to_string(), "v".to_string());
    let text = cache.snapshot().unwrap();
    assert_eq!(text, "k=v\t1\n");
}

#[test]
fn test_snapshot_orders_by_recency() {
    let mut cache = Cache::<String, String>::new_persistent(10, "cache.txt");
    cache.put("a".to_string(), "1".to_string());
    cache.put("b".to_string(), "2".to_string());
    cache.put("c".to_string(), "3".to_string());
    cache.get(&"a".to_string());
    let text = cache.snapshot().unwrap();
    assert_eq!(text, "b=2\t2\nc=3\t3\na=1\t4\n");
}

#[test]
fn test_snapshot_load_round_trip() {
    let mut cache = Cache::<String, String>::new_persistent(10, "persistent.txt");
    cache.put("persistent_key".to_string(), "persistent_value".to_string());
    let text = cache.snapshot().unwrap();
    let mut loaded =
        Cache::<String, String>::load_from(10, "persistent.txt", Some(text.as_str())).unwrap();
    assert_eq!(
        loaded.get(&"persistent_key".to_string()),
        Some("persistent_value".to_string())
    );
}

#[test]
fn test_snapshot_overwrite_shows_latest_only() {
    let mut cache1 = Cache::<String, String>::new_persistent(10, "overwrite.txt");
    cache1.put("k1".to_string(), "v1".to_string());
    let _first = cache1.snapshot().unwrap();
    let mut cache2 = Cache::<String, String>::new_persistent(10, "overwrite.txt");
    cache2.put("k2".to_string(), "v2".to_string());
    let second = cache2.snapshot().unwrap();
    // each snapshot replaces the file whole, so only the latest text remains
    let mut loaded =
        Cache::<String, String>::load_from(10, "overwrite.txt", Some(second.as_str())).unwrap();
    assert_eq!(loaded.get(&"k1".to_string()), None);
    assert_eq!(loaded.get(&"k2".to_string()), Some("v2".to_string()));
}

#[test]
fn test_load_missing_file_gives_empty_cache() {
    let mut loaded = Cache::<String, String>::load_from(5, "absent.txt", None).unwrap();
    assert_eq!(loaded.get(&"anything".to_string()), None);
    assert_eq!(loaded.snapshot().unwrap(), "");
}

#[test]
fn test_load_skips_lines_without_separators() {
    let text = "no separators here\n\na=b\t7\n";
    let mut loaded = Cache::<String, String>::load_from(5, "f.txt", Some(text)).unwrap();
    assert_eq!(loaded.get(&"a".to_string()), Some("b".to_string()));
    assert_eq!(loaded.get(&"no separators here".to_string()), None);
}

#[test]
fn test_load_bad_stamp_fails_whole_load() {
    let text = "a=b\tnotanumber\n";
    let r = Cache::<String, String>::load_from(5, "f.txt", Some(text));
    assert!(matches!(r, Err(CacheError::ParseFailure)));
}

#[test]
fn test_load_accepts_text_without_final_newline() {
    let mut loaded = Cache::<String, String>::load_from(5, "f.txt", Some("a=b\t3")).unwrap();
    assert_eq!(loaded.get(&"a".to_string()), Some("b".to_string()));
}

#[test]
fn test_get_after_load_refreshes_recency() {
    let mut loaded = Cache::<String, String>::load_from(5, "f.txt", Some("a=b\t9\n")).unwrap();
    loaded.get(&"a".to_string());
    // the hit stamps the entry with the resumed counter plus one
    assert_eq!(loaded.snapshot().unwrap(), "a=b\t10\n");
}

#[test]
fn test_load_duplicate_keys_last_wins() {
    let text = "a=1\t1\na=2\t5\n";
    let mut loaded = Cache::<String, String>::load_from(5, "f.txt", Some(text)).unwrap();
    assert_eq!(loaded.get(&"a".to_string()), Some("2".to_string()));
}

#[test]
fn test_counter_resumes_past_loaded_stamps() {
    let mut loaded = Cache::<String, String>::load_from(5, "f.txt", Some("a=b\t9\n")).unwrap();
    loaded.put("c".to_string(), "d".to_string());
    assert_eq!(loaded.snapshot().unwrap(), "a=b\t9\nc=d\t10\n");
}

#[test]
fn test_load_preserves_recency_order() {
    let mut cache = Cache::<String, String>::new_persistent(3, "r.txt");
    cache.put("x".to_string(), "1".to_string());
    cache.put("y".to_string(), "2".to_string());
    cache.put("z".to_string(), "3".to_string());
    cache.get(&"x".to_string());
    let text = cache.snapshot().unwrap();
    let mut loaded = Cache::<String, String>::load_from(3, "r.txt", Some(text.as_str())).unwrap();
    // y carries the smallest stamp, so the next insertion evicts y
    loaded.put("w".to_string(), "4".to_string());
    assert_eq!(loaded.get(&"y".to_string()), None);
    assert_eq!(loaded.get(&"x".to_string()), Some("1".to_string()));
    assert_eq!(loaded.get(&"z".to_string()), Some("3".to_string()));
    assert_eq!(loaded.get(&"w".to_string()), Some("4".to_string()));
}

#[test]
fn test_value_containing_equals_round_trips() {
    let mut cache = Cache::<String, String>::new_persistent(5, "eq.txt");
    cache.put("key".to_string(), "a=b".to_string());
    let text = cache.snapshot().unwrap();
    let mut loaded = Cache::<String, String>::load_from(5, "eq.txt", Some(text.as_str())).unwrap();
    assert_eq!(loaded.get(&"key".to_string()), Some("a=b".to_string()));
}

#[test]
fn test_numeric_cache_round_trips() {
    let mut cache = Cache::<u64, u64>::new_persistent(4, "nums.txt");
    cache.put(7, 42);
    let text = cache.snapshot().unwrap();
    assert_eq!(text, "7=42\t1\n");
    let mut loaded = Cache::<u64, u64>::load_from(4, "nums.txt", Some(text.as_str())).unwrap();
    assert_eq!(loaded.get(&7), Some(42));
    assert_eq!(loaded.get(&42), None);
}

#[test]
fn test_load_rejects_oversized_stamp() {
    // one past the largest stamp that fits in 64 bits
    let text = "a=b\t18446744073709551616\n";
    let r = Cache::<String, String>::load_from(5, "f.txt", Some(text));
    assert!(matches!(r, Err(CacheError::ParseFailure)));
}

#[test]
fn test_capacity_zero_evicts_immediately() {
    let mut cache = Cache::<String, String>::new(0);
    assert_eq!(cache.put("a".to_string(), "1".to_string()), None);
    assert_eq!(cache.get(&"a".to_string()), None);
}

#[test]
fn test_eviction_scenario_after_interleaved_get() {
    let mut cache = Cache::<String, String>::new(3);
    cache.put("A".to_string(), "va".to_string());
    cache.put("B".to_string(), "vb".to_string());
    cache.put("C".to_string(), "vc".to_string());
    cache.get(&"B".to_string());
    cache.put("D".to_string(), "vd".to_string());
    assert_eq!(cache.get(&"A".to_string()), None);
    assert_eq!(cache.get(&"B".to_string()), Some("vb".to_string()));
    assert_eq!(cache.get(&"C".to_string()), Some("vc".to_string()));
    assert_eq!(cache.get(&"D".to_string()), Some("vd".to_string()));
}
