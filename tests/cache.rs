use thumbor::cache::{FetchCache, FetchError};

#[test]
fn store_then_lookup_hits() {
    let mut cache = FetchCache::new(4);
    assert_eq!(cache.lookup("http://a/1.jpg"), None);
    cache.store("http://a/1.jpg", vec![1, 2, 3]);
    assert_eq!(cache.lookup("http://a/1.jpg"), Some(vec![1, 2, 3]));
    assert_eq!(cache.lookup("http://a/1.jpg?x=1"), None);
}

#[test]
fn overfilling_evicts_least_recently_used() {
    let n = 3;
    let mut cache = FetchCache::new(n);
    let urls: Vec<String> = (0..=n).map(|i| format!("http://origin/{}.png", i)).collect();
    for (i, u) in urls.iter().enumerate() {
        cache.store(u, vec![i as u8]);
    }
    assert!(!cache.contains(&urls[0]));
    for u in &urls[1..] {
        assert!(cache.contains(u));
    }
}

#[test]
fn hit_refreshes_recency() {
    let mut cache = FetchCache::new(2);
    cache.store("a", vec![1]);
    cache.store("b", vec![2]);
    assert_eq!(cache.lookup("a"), Some(vec![1]));
    assert_eq!(cache.lookup("a"), Some(vec![1]));
    cache.store("c", vec![3]);
    assert!(cache.contains("a"));
    assert!(!cache.contains("b"));
    assert!(cache.contains("c"));
}

#[test]
fn storing_again_replaces_bytes() {
    let mut cache = FetchCache::new(2);
    cache.store("a", vec![1]);
    cache.store("b", vec![2]);
    cache.store("a", vec![9]);
    cache.store("c", vec![3]);
    assert_eq!(cache.lookup("a"), Some(vec![9]));
    assert!(!cache.contains("b"));
}

#[test]
fn failed_fetch_leaves_cache_alone() {
    let mut cache = FetchCache::new(1);
    cache.store("b", vec![7]);
    assert_eq!(cache.lookup("a"), None);
    let r = cache.complete_fetch("a", Err(FetchError::Status { code: 404 }));
    assert_eq!(r, Err(FetchError::Status { code: 404 }));
    assert!(!cache.contains("a"));
    assert_eq!(cache.lookup("b"), Some(vec![7]));
    assert_eq!(cache.lookup("a"), None);
    let r = cache.complete_fetch("a", Err(FetchError::Network));
    assert_eq!(r, Err(FetchError::Network));
    assert_eq!(cache.lookup("b"), Some(vec![7]));
}

#[test]
fn successful_fetch_is_stored() {
    let mut cache = FetchCache::new(1);
    cache.store("b", vec![7]);
    let r = cache.complete_fetch("a", Ok(vec![5, 6]));
    assert_eq!(r, Ok(vec![5, 6]));
    assert_eq!(cache.lookup("a"), Some(vec![5, 6]));
    assert!(!cache.contains("b"));
}

#[test]
fn status_codes_outside_success_fail() {
    assert_eq!(thumbor::cache::check_status(200), Ok(()));
    assert_eq!(thumbor::cache::check_status(204), Ok(()));
    assert_eq!(thumbor::cache::check_status(299), Ok(()));
    assert_eq!(thumbor::cache::check_status(199), Err(FetchError::Status { code: 199 }));
    assert_eq!(thumbor::cache::check_status(304), Err(FetchError::Status { code: 304 }));
    assert_eq!(thumbor::cache::check_status(404), Err(FetchError::Status { code: 404 }));
    assert_eq!(thumbor::cache::check_status(500), Err(FetchError::Status { code: 500 }));
}
