use lru::Lru;

#[test]
fn test_read_then_delete() {
    let mut cache: Lru<&str, &str> = Lru::new(2);
    cache.put("key1", "value1", 60);
    assert_eq!(cache.get(&"key1"), Some("value1"));
    assert_eq!(cache.get(&"key1"), None);
}

#[test]
fn test_expired_entry() {
    let mut cache: Lru<&str, &str> = Lru::new(2);
    let now: u64 = 1_000;
    assert!(cache.put_at("key1", "value1", 1, now));
    assert_eq!(cache.get_at(&"key1", now + 2), None);
}

#[test]
fn test_put_at_full_capacity_with_no_expired_entry() {
    let mut cache: Lru<&str, &str> = Lru::new(1);
    cache.put("key1", "value1", 60);

    assert!(!cache.put("key2", "value2", 60));
}

#[test]
fn test_capacity_invariant_along_a_run() {
    let mut cache: Lru<u64, u64> = Lru::new(2);
    assert!(cache.len() <= 2);
    assert!(cache.put_at(1, 10, 60, 100));
    assert!(cache.len() <= 2);
    assert!(cache.put_at(2, 20, 60, 100));
    assert!(cache.len() <= 2);
    assert!(!cache.put_at(3, 30, 60, 100));
    assert!(cache.len() <= 2);
    cache.get_at(&1, 100);
    assert!(cache.len() <= 2);
    assert!(cache.put_at(3, 30, 60, 100));
    assert!(cache.len() <= 2);
    assert_eq!(cache.capacity(), 2);
}

#[test]
fn test_destructive_read_consumes_live_entry() {
    let mut cache: Lru<&str, u64> = Lru::new(4);
    let now: u64 = 500;
    assert!(cache.put_at("k", 7, 1_000, now));
    assert_eq!(cache.get_at(&"k", now + 100), Some(7));
    assert_eq!(cache.get_at(&"k", now + 100), None);
    assert_eq!(cache.len(), 0);
}

#[test]
fn test_zero_ttl_expires_immediately() {
    let mut cache: Lru<&str, &str> = Lru::new(2);
    let now: u64 = 42;
    assert!(cache.put_at("k", "v", 0, now));
    assert_eq!(cache.get_at(&"k", now), None);
}

#[test]
fn test_unit_ttl_live_then_expired() {
    let mut cache: Lru<&str, &str> = Lru::new(2);
    let now: u64 = 100;
    assert!(cache.put_at("k", "v", 1, now));
    assert_eq!(cache.get_at(&"k", now), Some("v"));
    assert!(cache.put_at("k", "v", 1, now));
    assert_eq!(cache.get_at(&"k", now + 1), None);
}

#[test]
fn test_admission_full_no_expired_victim() {
    let mut cache: Lru<&str, &str> = Lru::new(1);
    let now: u64 = 10;
    assert!(cache.put_at("a", "1", 60, now));
    assert!(!cache.put_at("b", "2", 60, now));
    assert_eq!(cache.get_at(&"b", now), None);
    assert_eq!(cache.get_at(&"a", now), Some("1"));
}

#[test]
fn test_admission_full_evicts_expired_victim() {
    let mut cache: Lru<&str, &str> = Lru::new(1);
    let now: u64 = 10;
    assert!(cache.put_at("a", "1", 0, now));
    assert!(cache.put_at("b", "2", 60, now));
    assert_eq!(cache.get_at(&"b", now), Some("2"));
    assert_eq!(cache.get_at(&"a", now), None);
}

#[test]
fn test_miss_on_empty_map() {
    let mut cache: Lru<&str, &str> = Lru::new(4);
    assert_eq!(cache.get(&"missing"), None);
    assert_eq!(cache.get_at(&"missing", 0), None);
    assert_eq!(cache.len(), 0);
}

#[test]
fn test_idempotent_absence() {
    let mut cache: Lru<&str, &str> = Lru::new(2);
    let now: u64 = 100;
    assert!(cache.put_at("k", "v", 60, now));
    assert_eq!(cache.get_at(&"k", now), Some("v"));
    for _ in 0..3 {
        assert_eq!(cache.get_at(&"k", now), None);
        assert_eq!(cache.get(&"k"), None);
        assert_eq!(cache.len(), 0);
    }
}

#[test]
fn test_overwrite_below_capacity() {
    let mut cache: Lru<u64, String> = Lru::new(2);
    let now: u64 = 100;
    assert!(cache.put_at(1, String::from("old"), 60, now));
    assert!(cache.put_at(1, String::from("new"), 60, now));
    assert_eq!(cache.len(), 1);
    assert_eq!(cache.get_at(&1, now), Some(String::from("new")));
}

#[test]
fn test_zero_capacity_rejects_everything() {
    let mut cache: Lru<u64, u64> = Lru::new(0);
    assert!(!cache.put_at(1, 10, 60, 100));
    assert!(!cache.put(1, 10, 60));
    assert_eq!(cache.get(&1), None);
    assert_eq!(cache.len(), 0);
}

#[test]
fn test_expiry_boundary_is_inclusive() {
    let mut cache: Lru<u64, u64> = Lru::new(2);
    let now: u64 = 100;
    assert!(cache.put_at(1, 10, 5, now));
    assert_eq!(cache.get_at(&1, 104), Some(10));
    assert!(cache.put_at(1, 10, 5, now));
    assert_eq!(cache.get_at(&1, 105), None);
}

#[test]
fn test_ttl_saturates_at_max_instant() {
    let mut cache: Lru<u64, u64> = Lru::new(2);
    assert!(cache.put_at(1, 10, u64::MAX, 5));
    assert_eq!(cache.get_at(&1, u64::MAX - 1), Some(10));
    assert!(cache.put_at(1, 10, u64::MAX, 5));
    assert_eq!(cache.get_at(&1, u64::MAX), None);
}

#[test]
fn test_full_capacity_rejects_overwrite_of_live_key() {
    let mut cache: Lru<&str, &str> = Lru::new(1);
    let now: u64 = 10;
    assert!(cache.put_at("a", "1", 60, now));
    assert!(!cache.put_at("a", "9", 60, now));
    assert_eq!(cache.get_at(&"a", now), Some("1"));
}

#[test]
fn test_eviction_keeps_length_bounded() {
    let mut cache: Lru<u64, u64> = Lru::new(2);
    let now: u64 = 50;
    assert!(cache.put_at(1, 10, 0, now));
    assert!(cache.put_at(2, 20, 0, now));
    assert!(cache.put_at(3, 30, 60, now));
    assert!(cache.len() <= 2);
    assert_eq!(cache.get_at(&3, now), Some(30));
}
