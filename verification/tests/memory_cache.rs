use graphql_cache::graphql::cache::memory_cache::{CleanupState, InnerCache};
use graphql_cache::graphql::json::Json;

/// Milliseconds as nanoseconds.
fn ms(x: i128) -> i128 {
    x * 1_000_000
}

fn v11() -> Json {
    Json::Object(vec![(String::from("v"), Json::Number(String::from("11")))])
}

#[test]
fn test_cache_small() {
    let mut cache = InnerCache::new();
    let json = v11();

    cache.insert(format!("1aaaddccc{}", 0), 10000, json.clone());
    cache.insert(format!("1aaa{}{}", 1, 0), 10000, json.clone());

    match cache.get(&format!("1aaa{}{}", 1, 0)) {
        Some(_) => {}
        None => assert_eq!(1, 0),
    };
}

#[test]
fn value_is_read_back_until_it_expires() {
    let mut cache = InnerCache::new();
    cache.insert_at(String::from("k"), 10, v11(), ms(1_000));
    assert_eq!(cache.get_at("k", ms(1_000)), Some(vec![v11()]));
    assert_eq!(cache.get_at("k", ms(10_999)), Some(vec![v11()]));
    // a nanosecond before it expires, the value is still there
    assert_eq!(cache.get_at("k", ms(11_000) - 1), Some(vec![v11()]));
    assert_eq!(cache.get_at("k", ms(11_000)), None);
    // the read at expiry removed the key
    assert_eq!(cache.get_ops_count(), (4, 1, 1));
    assert_eq!(cache.get_at("k", ms(0)), None);
}

#[test]
fn values_under_a_key_come_oldest_first() {
    let mut cache = InnerCache::new();
    cache.insert_at(String::from("k"), 10, Json::Bool(true), ms(0));
    cache.insert_at(String::from("k"), 5, Json::Bool(false), ms(0));
    assert_eq!(cache.get_at("k", ms(1)), Some(vec![Json::Bool(true), Json::Bool(false)]));
    // after 5 s only the first is live
    assert_eq!(cache.get_at("k", ms(5_000)), Some(vec![Json::Bool(true)]));
}

#[test]
fn insert_drops_expired_entries_of_its_key() {
    let mut cache = InnerCache::new();
    cache.insert_at(String::from("k"), 1, Json::Bool(true), ms(0));
    cache.insert_at(String::from("k"), 1, Json::Bool(false), ms(5_000));
    assert_eq!(cache.get_at("k", ms(5_500)), Some(vec![Json::Bool(false)]));
    assert_eq!(cache.get_at("k", ms(0)), Some(vec![Json::Bool(false)]));
}

#[test]
fn other_keys_are_untouched() {
    let mut cache = InnerCache::new();
    cache.insert_at(String::from("a"), 10, Json::Bool(true), ms(0));
    cache.insert_at(String::from("b"), 10, Json::Bool(false), ms(0));
    assert_eq!(cache.get_at("a", ms(1)), Some(vec![Json::Bool(true)]));
    assert_eq!(cache.get_at("b", ms(1)), Some(vec![Json::Bool(false)]));
    assert_eq!(cache.get_at("c", ms(1)), None);
}

#[test]
fn added_keys_are_handed_over_once() {
    let mut cache = InnerCache::new();
    cache.insert_at(String::from("a"), 10, Json::Null, ms(0));
    cache.insert_at(String::from("a"), 10, Json::Null, ms(0));
    cache.insert_at(String::from("b"), 10, Json::Null, ms(0));
    assert_eq!(cache.take_added(), vec![String::from("a"), String::from("b")]);
    assert_eq!(cache.take_added(), Vec::<String>::new());
}

#[test]
fn clean_up_removes_expired_keys() {
    let mut cache = InnerCache::new();
    let mut cleanup = CleanupState::new();
    cache.insert_at(String::from("short"), 1, Json::Null, ms(0));
    cache.insert_at(String::from("long"), 100, Json::Null, ms(0));
    for k in cache.take_added() {
        cleanup.add_key(k);
    }
    // at 50 s the short entry has expired; fewer than 10 keys were cleaned, so the clean-up waits
    let wait = cleanup.clean_up_at(&mut cache, ms(50_000), 0);
    assert!(wait);
    assert_eq!(cache.get_at("short", ms(0)), None);
    assert_eq!(cache.get_at("long", ms(50_000)), Some(vec![Json::Null]));
}

#[test]
fn clean_up_does_not_wait_when_many_keys_expired() {
    let mut cache = InnerCache::new();
    let mut cleanup = CleanupState::new();
    for i in 0..15 {
        cache.insert_at(format!("k{}", i), 1, Json::Null, ms(0));
    }
    for k in cache.take_added() {
        cleanup.add_key(k);
    }
    let wait = cleanup.clean_up_at(&mut cache, ms(10_000), 0);
    assert!(!wait);
    for i in 0..15 {
        assert_eq!(cache.get_at(&format!("k{}", i), ms(0)), None);
    }
    // nothing left to clean
    assert!(cleanup.clean_up_at(&mut cache, ms(10_000), 0));
}

#[test]
fn clean_up_at_current_time_runs() {
    let mut cache = InnerCache::new();
    let mut cleanup = CleanupState::new();
    cache.insert(String::from("a"), 100, Json::Null);
    let wait = cleanup.clean_up(&mut cache);
    assert!(wait);
    assert!(cache.get("a").is_some());
}
