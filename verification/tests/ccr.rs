use headroom::ccr::{default_ttl, CcrStore, InMemoryCcrStore, DEFAULT_CAPACITY};
use std::time::{Duration, Instant};

fn assert_send_sync<S: Send + Sync>() {}

fn wait(time: Duration) {
    let start = Instant::now();
    while start.elapsed() < time {}
}

#[test]
fn put_then_get_returns_payload() {
    let mut store = InMemoryCcrStore::new();
    store.put("abc123", r#"[{"id":1}]"#);
    assert_eq!(store.get("abc123"), Some(r#"[{"id":1}]"#.to_string()));
}

#[test]
fn missing_hash_returns_none() {
    let mut store = InMemoryCcrStore::new();
    assert_eq!(store.get("never_stored"), None);
}

#[test]
fn put_overwrites_under_same_hash() {
    let mut store = InMemoryCcrStore::new();
    store.put("h", "first");
    store.put("h", "second");
    assert_eq!(store.get("h"), Some("second".to_string()));
    assert_eq!(store.len(), 1);
}

#[test]
fn capacity_evicts_oldest() {
    let mut store = InMemoryCcrStore::with_capacity_and_ttl(2, default_ttl());
    store.put("a", "1");
    store.put("b", "2");
    store.put("c", "3");
    assert_eq!(store.len(), 2);
    assert_eq!(store.get("a"), None);
    assert_eq!(store.get("b"), Some("2".to_string()));
    assert_eq!(store.get("c"), Some("3".to_string()));
}

#[test]
fn expired_entries_are_dropped_on_get() {
    let mut store = InMemoryCcrStore::with_capacity_and_ttl(10, Duration::from_millis(10));
    store.put_at("a", "1", 0);
    assert_eq!(store.get_at("a", 25_000_000), None);
    assert_eq!(store.len(), 0);
}

#[test]
fn store_is_send_sync() {
    assert_send_sync::<InMemoryCcrStore>();
}

#[test]
fn trait_object_is_usable() {
    let mut store: Box<dyn CcrStore> = Box::new(InMemoryCcrStore::new());
    store.put("h", "v");
    assert_eq!(store.get("h"), Some("v".to_string()));
    assert!(!store.is_empty());
}

#[test]
fn entry_lives_up_to_its_ttl_and_not_longer() {
    let mut store = InMemoryCcrStore::with_capacity_and_ttl(10, Duration::from_nanos(100));
    store.put_at("a", "1", 5);
    assert_eq!(store.get_at("a", 5), Some("1".to_string()));
    assert_eq!(store.get_at("a", 105), Some("1".to_string()));
    assert_eq!(store.len(), 1);
    assert_eq!(store.get_at("a", 106), None);
    assert!(store.is_empty());
}

#[test]
fn reading_before_the_entry_was_stored_finds_it() {
    let mut store = InMemoryCcrStore::with_capacity_and_ttl(10, Duration::from_nanos(1));
    store.put_at("a", "1", 50);
    assert_eq!(store.get_at("a", 3), Some("1".to_string()));
}

#[test]
fn storing_again_renews_the_time() {
    let mut store = InMemoryCcrStore::with_capacity_and_ttl(10, Duration::from_nanos(10));
    store.put_at("a", "1", 0);
    store.put_at("a", "1", 8);
    assert_eq!(store.get_at("a", 18), Some("1".to_string()));
}

#[test]
fn storing_again_keeps_the_place_in_the_order() {
    let mut store = InMemoryCcrStore::with_capacity_and_ttl(2, default_ttl());
    store.put("a", "1");
    store.put("b", "2");
    store.put("a", "3");
    store.put("c", "4");
    assert_eq!(store.get("a"), None);
    assert_eq!(store.get("b"), Some("2".to_string()));
    assert_eq!(store.get("c"), Some("4".to_string()));
}

#[test]
fn storing_with_room_leaves_the_others() {
    let mut store = InMemoryCcrStore::with_capacity_and_ttl(3, default_ttl());
    store.put("a", "1");
    store.put("b", "2");
    store.put("c", "3");
    assert_eq!(store.get("a"), Some("1".to_string()));
    assert_eq!(store.get("b"), Some("2".to_string()));
    assert_eq!(store.len(), 3);
}

#[test]
fn a_capacity_of_zero_holds_one_entry() {
    let mut store = InMemoryCcrStore::with_capacity_and_ttl(0, default_ttl());
    store.put("a", "1");
    assert_eq!(store.get("a"), Some("1".to_string()));
    store.put("b", "2");
    assert_eq!(store.len(), 1);
    assert_eq!(store.get("a"), None);
    assert_eq!(store.get("b"), Some("2".to_string()));
}

#[test]
fn the_count_never_exceeds_the_capacity() {
    let mut store = InMemoryCcrStore::with_capacity_and_ttl(7, default_ttl());
    for i in 0..50 {
        store.put(&format!("hash {i}"), "payload");
        assert!(store.len() <= 7);
    }
    assert_eq!(store.len(), 7);
}

#[test]
fn an_expired_hash_that_is_stored_again_comes_last() {
    let mut store = InMemoryCcrStore::with_capacity_and_ttl(2, Duration::from_nanos(10));
    store.put_at("a", "1", 0);
    assert_eq!(store.get_at("a", 20), None);
    store.put_at("b", "2", 20);
    store.put_at("a", "3", 20);
    store.put_at("c", "4", 20);
    assert_eq!(store.get_at("b", 20), None);
    assert_eq!(store.get_at("a", 20), Some("3".to_string()));
    assert_eq!(store.get_at("c", 20), Some("4".to_string()));
}

#[test]
fn entries_expire_by_the_clock() {
    let ttl = Duration::from_millis(2);
    let mut store = InMemoryCcrStore::with_capacity_and_ttl(10, ttl);
    store.put("a", "1");
    wait(Duration::from_millis(5));
    assert_eq!(store.len(), 1);
    assert_eq!(store.get("a"), None);
    assert_eq!(store.len(), 0);
    store.put("a", "2");
    wait(Duration::from_millis(5));
    store.put("b", "3");
    assert_eq!(store.get("a"), None);
    assert_eq!(store.len(), 1);
}

#[test]
fn entries_are_found_within_their_time_by_the_clock() {
    let mut store = InMemoryCcrStore::with_capacity_and_ttl(10, Duration::from_secs(3600));
    store.put("a", "1");
    wait(Duration::from_millis(5));
    assert_eq!(store.get("a"), Some("1".to_string()));
}

#[test]
fn the_entries_are_as_many_as_hashes_were_put_up_to_the_capacity() {
    let mut store = InMemoryCcrStore::with_capacity_and_ttl(3, default_ttl());
    let counts: Vec<usize> = ["a", "b", "a", "b", "c", "d", "a"]
        .iter()
        .map(|hash| {
            store.put(hash, "x");
            store.len()
        })
        .collect();
    assert_eq!(counts, vec![1, 2, 2, 2, 3, 3, 3]);
}

#[test]
fn default_store_keeps_a_thousand_entries() {
    let mut store = InMemoryCcrStore::default();
    for i in 0..DEFAULT_CAPACITY + 1 {
        store.put(&format!("{i}"), "x");
    }
    assert_eq!(store.len(), 1000);
    assert_eq!(store.get("0"), None);
    assert_eq!(store.get("1"), Some("x".to_string()));
}

#[test]
fn default_entries_live_five_minutes() {
    let five_minutes: u128 = 300_000_000_000;
    let mut store = InMemoryCcrStore::new();
    store.put_at("a", "1", 0);
    assert_eq!(store.get_at("a", five_minutes), Some("1".to_string()));
    assert_eq!(store.get_at("a", five_minutes + 1), None);
    assert_eq!(default_ttl(), Duration::from_secs(300));
}

#[test]
fn later_calls_leave_what_was_put() {
    let mut store = InMemoryCcrStore::with_capacity_and_ttl(3, Duration::from_nanos(10));
    store.put_at("a", "1", 0);
    store.put_at("b", "2", 5);
    assert_eq!(store.get_at("a", 9), Some("1".to_string()));
    assert_eq!(store.get_at("c", 9), None);
    store.put_at("b", "3", 9);
    store.put_at("d", "4", 9);
    assert_eq!(store.get_at("a", 10), Some("1".to_string()));
    assert_eq!(store.get_at("a", 11), None);
    assert_eq!(store.get_at("b", 15), Some("3".to_string()));
}
