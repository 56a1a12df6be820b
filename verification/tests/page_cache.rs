//! The cache of decoded pages.

use std::sync::Arc;
use varve_engine::page_cache::PageCache;

fn page(n: u8, payload: usize) -> (Arc<Vec<u8>>, usize) {
    (Arc::new(vec![n; payload]), 64 + 4 + payload)
}

fn put(cache: &mut PageCache<Arc<Vec<u8>>>, key: &str, offset: u64, page: (Arc<Vec<u8>>, usize)) {
    cache.insert(key.to_string(), offset, page.0, page.1);
}

#[test]
fn hit_returns_the_same_arc_and_miss_is_none() {
    let mut cache = PageCache::new(1 << 20);
    assert!(cache.get("k", 0).is_none());
    let p = page(1, 10);
    put(&mut cache, "k", 0, (Arc::clone(&p.0), p.1));
    let hit = cache.get("k", 0).unwrap();
    assert!(Arc::ptr_eq(hit, &p.0));
    assert!(cache.get("k", 1).is_none());
    assert!(cache.get("other", 0).is_none());
}

#[test]
fn evicts_least_recently_used_within_budget() {
    let mut cache = PageCache::new(400);
    put(&mut cache, "k", 0, page(1, 100));
    put(&mut cache, "k", 1, page(2, 100));
    cache.get("k", 0);
    put(&mut cache, "k", 2, page(3, 100));
    assert_eq!(cache.len(), 2);
    assert!(cache.get("k", 0).is_some());
    assert!(cache.get("k", 1).is_none());
    assert!(cache.get("k", 2).is_some());
}

#[test]
fn zero_budget_disables_the_cache() {
    let mut cache = PageCache::new(0);
    put(&mut cache, "k", 0, page(1, 1));
    assert!(cache.get("k", 0).is_none());
    assert_eq!(cache.len(), 0);
}

#[test]
fn oversized_page_is_skipped_not_cached() {
    let mut cache = PageCache::new(100);
    put(&mut cache, "k", 0, page(1, 1000));
    assert!(cache.get("k", 0).is_none());
}

#[test]
fn a_page_that_is_put_again_counts_once() {
    let mut cache = PageCache::new(400);
    put(&mut cache, "k", 0, page(1, 100));
    put(&mut cache, "k", 0, page(2, 50));
    assert_eq!(cache.len(), 1);
    assert_eq!(cache.bytes, 118);
    assert_eq!(cache.get("k", 0).unwrap()[0], 2);
}

#[test]
fn no_more_pages_go_than_must() {
    let mut cache = PageCache::new(400);
    for offset in 0..3 {
        put(&mut cache, "k", offset, page(1, 32));
    }
    assert_eq!((cache.len(), cache.bytes), (3, 300));
    put(&mut cache, "k", 3, page(2, 82));
    assert_eq!((cache.len(), cache.bytes), (3, 350));
    assert!(cache.get("k", 0).is_none());
    assert!(cache.get("k", 1).is_some());
    put(&mut cache, "k", 4, page(3, 232));
    assert_eq!((cache.len(), cache.bytes), (2, 400));
    assert!(cache.get("k", 1).is_some());
    assert!(cache.get("k", 2).is_none() && cache.get("k", 3).is_none());
}
