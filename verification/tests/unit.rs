use lru_cache::traits::CacheTrait;
use lru_cache::Cache;

#[test]
fn test_lru_cache_o1() {
    let mut cache: Cache<String, String> = Cache::new(3);

    cache.put("A".to_string(), String::from("value_a"));
    cache.put("B".to_string(), String::from("value_b"));
    cache.put("C".to_string(), String::from("value_c"));
    cache.put("D".to_string(), String::from("value_d"));

    assert_eq!(cache.get(&"A".to_string()), None);
    assert_eq!(cache.get(&"D".to_string()), Some(String::from("value_d")));
    assert_eq!(cache.get(&"B".to_string()), Some(String::from("value_b")));
    assert_eq!(cache.get(&"C".to_string()), Some(String::from("value_c")));

    assert_eq!(cache.get(&"X".to_string()), None);

    cache.put("A".to_string(), String::from("value_a"));
    cache.put("X".to_string(), String::from("value_x"));
    assert_eq!(cache.get(&"B".to_string()), None);
    assert_eq!(cache.get(&"D".to_string()), None);

    let saved = cache.save_as_strings();

    let mut restored: Cache<String, String> = Cache::new(3);
    restored.load_from_strings(&saved);

    assert_eq!(restored.get(&"A".to_string()), Some("value_a".to_string()));
    assert_eq!(restored.get(&"X".to_string()), Some("value_x".to_string()));
    assert_eq!(restored.get(&"C".to_string()), Some("value_c".to_string()));
}

#[test]
fn test_lru_cache_o1_i32() {
    let mut cache: Cache<i32, i32> = Cache::new(3);

    cache.put(1, 10);
    cache.put(2, 20);
    cache.put(3, 30);
    cache.put(4, 40);

    assert_eq!(cache.get(&1), None);
    assert_eq!(cache.get(&4), Some(40));
    assert_eq!(cache.get(&2), Some(20));
    assert_eq!(cache.get(&3), Some(30));

    cache.put(5, 50);
    assert_eq!(cache.get(&4), None);

    let saved = cache.save_as_strings();

    let mut restored: Cache<i32, i32> = Cache::new(3);
    restored.load_from_strings(&saved);

    assert_eq!(restored.get(&2), Some(20));
    assert_eq!(restored.get(&3), Some(30));
    assert_eq!(restored.get(&5), Some(50));
}
