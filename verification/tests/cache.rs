use geotag_query::cache::CacheContainer;
use geotag_query::CACHE_LENGTH;

#[test]
fn get_on_empty_cache_misses() {
    let cache = CacheContainer::new(CACHE_LENGTH);
    assert_eq!(cache.get(&String::from("anything")), None);
    assert_eq!(cache.len(), 0);
}

#[test]
fn fifo_eviction_after_capacity_plus_one_pushes() {
    // After C + 1 pushes with distinct tags, the first-pushed tag is
    // gone and each of the later C tags still serves its content.
    let mut cache = CacheContainer::new(CACHE_LENGTH);
    let total = CACHE_LENGTH + 1;
    for k in 0..total {
        cache.push(format!("tag-{}", k), format!("content-{}", k));
    }
    assert_eq!(cache.len(), CACHE_LENGTH);
    assert_eq!(cache.get(&String::from("tag-0")), None);
    for k in 1..total {
        assert_eq!(
            cache.get(&format!("tag-{}", k)),
            Some(format!("content-{}", k)),
            "tag-{} should still be cached",
            k
        );
    }
}

#[test]
fn repeated_push_replaces_in_place() {
    // Dedup: pushing "x" twice must not create a second entry, and a
    // read returns the latest content.
    let mut cache = CacheContainer::new(CACHE_LENGTH);
    cache.push(String::from("x"), String::from("A"));
    let occupancy_after_first = cache.len();
    cache.push(String::from("x"), String::from("B"));
    assert_eq!(cache.get(&String::from("x")), Some(String::from("B")));
    assert_eq!(cache.len(), occupancy_after_first);
}

#[test]
fn reads_never_change_occupancy_or_eviction_order() {
    // Read purity: gets (hits and misses alike) change nothing; in
    // particular a hit does not promote, so the read entry is still
    // the next to be evicted.
    let mut cache = CacheContainer::new(2);
    cache.push(String::from("a"), String::from("1"));
    cache.push(String::from("b"), String::from("2"));
    for _ in 0..10 {
        assert_eq!(cache.get(&String::from("a")), Some(String::from("1")));
        assert_eq!(cache.get(&String::from("missing")), None);
    }
    assert_eq!(cache.len(), 2);
    cache.push(String::from("c"), String::from("3"));
    // "a" was oldest despite the reads, so it is the one evicted.
    assert_eq!(cache.get(&String::from("a")), None);
    assert_eq!(cache.get(&String::from("b")), Some(String::from("2")));
    assert_eq!(cache.get(&String::from("c")), Some(String::from("3")));
}

#[test]
fn update_keeps_fifo_position() {
    // Replacing a live tag's content must not refresh its position:
    // "a" stays the oldest entry and is evicted first.
    let mut cache = CacheContainer::new(2);
    cache.push(String::from("a"), String::from("1"));
    cache.push(String::from("b"), String::from("2"));
    cache.push(String::from("a"), String::from("1-updated"));
    cache.push(String::from("c"), String::from("3"));
    assert_eq!(cache.get(&String::from("a")), None);
    assert_eq!(cache.get(&String::from("b")), Some(String::from("2")));
    assert_eq!(cache.get(&String::from("c")), Some(String::from("3")));
}

#[test]
fn eviction_resolves_to_the_live_entry() {
    // A stale duplicate would corrupt the mapping once evicted; after
    // update plus eviction every remaining tag still serves exactly
    // its own content.
    let mut cache = CacheContainer::new(3);
    cache.push(String::from("a"), String::from("1"));
    cache.push(String::from("b"), String::from("2"));
    cache.push(String::from("a"), String::from("1-new"));
    cache.push(String::from("c"), String::from("3"));
    cache.push(String::from("d"), String::from("4"));
    assert_eq!(cache.len(), 3);
    assert_eq!(cache.get(&String::from("a")), None);
    assert_eq!(cache.get(&String::from("b")), Some(String::from("2")));
    assert_eq!(cache.get(&String::from("c")), Some(String::from("3")));
    assert_eq!(cache.get(&String::from("d")), Some(String::from("4")));
}
