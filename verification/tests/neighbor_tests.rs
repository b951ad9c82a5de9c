use loopstack::neighbor::NeighborCache;

#[test]
fn miss_on_an_empty_cache() {
    let mut cache = NeighborCache::new(2);
    assert_eq!(cache.lookup_and_touch(10), None);
}

#[test]
fn fill_then_lookup_hits() {
    let mut cache = NeighborCache::new(2);
    cache.fill(10, 0xAA);
    assert_eq!(cache.lookup_and_touch(10), Some(0xAA));
}

#[test]
fn refill_updates_the_link_address() {
    let mut cache = NeighborCache::new(2);
    cache.fill(10, 0xAA);
    cache.fill(10, 0xBB);
    assert_eq!(cache.lookup_and_touch(10), Some(0xBB));
}

#[test]
fn capacity_overflow_evicts_least_recently_used() {
    let mut cache = NeighborCache::new(2);
    cache.fill(1, 0x01);
    cache.fill(2, 0x02);
    // touch 1 so that 2 becomes the least recently used
    assert_eq!(cache.lookup_and_touch(1), Some(0x01));
    cache.fill(3, 0x03);
    assert_eq!(cache.lookup_and_touch(2), None);
    assert_eq!(cache.lookup_and_touch(1), Some(0x01));
    assert_eq!(cache.lookup_and_touch(3), Some(0x03));
}
