use hill_descent_lib::world::regions::zone_calculator::zone_cache::ZoneCache;

#[test]
fn test_new_cache_is_empty() {
    let cache = ZoneCache::new();
    assert!(!cache.is_valid(0));
    assert!(cache.get_zones(0).is_none());
    assert_eq!(cache.current_regions_generation(), 0);
}

#[test]
fn test_cache_update_and_retrieval() {
    let mut cache = ZoneCache::new();
    let zones = vec![vec![vec![1, 2]], vec![vec![3, 4]]];
    let generation = 1;

    cache.update_cache(zones.clone(), generation);

    assert!(cache.is_valid(generation));
    assert_eq!(cache.get_zones(generation), Some(&zones));
    assert_eq!(cache.current_regions_generation(), generation);
}

#[test]
fn test_cache_invalidation_by_generation_mismatch() {
    let mut cache = ZoneCache::new();
    let zones = vec![vec![vec![1, 2]]];

    cache.update_cache(zones.clone(), 1);
    assert!(cache.is_valid(1));

    assert!(!cache.is_valid(2));
    assert!(cache.get_zones(2).is_none());
}

#[test]
fn test_explicit_invalidation() {
    let mut cache = ZoneCache::new();
    let zones = vec![vec![vec![1, 2]]];

    cache.update_cache(zones, 1);
    assert!(cache.is_valid(1));

    cache.invalidate();
    assert!(!cache.is_valid(1));
    assert!(cache.get_zones(1).is_none());
}

#[test]
fn test_mark_regions_changed() {
    let mut cache = ZoneCache::new();
    let zones = vec![vec![vec![1, 2]]];

    cache.update_cache(zones, 1);
    assert!(cache.is_valid(1));

    let new_generation = cache.mark_regions_changed();
    assert_eq!(new_generation, 2);
    assert_eq!(cache.current_regions_generation(), 2);

    assert!(cache.is_valid(1));
    assert!(!cache.is_valid(2));
}

#[test]
fn test_cache_stats() {
    let mut cache = ZoneCache::new();

    let (cache_gen, regions_gen, has_cache) = cache.cache_stats();
    assert_eq!(cache_gen, 0);
    assert_eq!(regions_gen, 0);
    assert!(!has_cache);

    cache.update_cache(vec![vec![vec![1]]], 5);
    let (cache_gen, regions_gen, has_cache) = cache.cache_stats();
    assert_eq!(cache_gen, 5);
    assert_eq!(regions_gen, 5);
    assert!(has_cache);
}

#[test]
fn test_clear_cache() {
    let mut cache = ZoneCache::new();
    cache.update_cache(vec![vec![vec![1]]], 5);
    cache.mark_regions_changed();

    cache.clear();

    let (cache_gen, regions_gen, has_cache) = cache.cache_stats();
    assert_eq!(cache_gen, 0);
    assert_eq!(regions_gen, 0);
    assert!(!has_cache);
}

#[test]
fn test_multiple_generation_increments() {
    let mut cache = ZoneCache::new();

    assert_eq!(cache.mark_regions_changed(), 1);
    assert_eq!(cache.mark_regions_changed(), 2);
    assert_eq!(cache.mark_regions_changed(), 3);
    assert_eq!(cache.current_regions_generation(), 3);
}

#[test]
fn test_cache_with_empty_zones() {
    let mut cache = ZoneCache::new();
    let empty_zones: Vec<Vec<Vec<usize>>> = vec![];

    cache.update_cache(empty_zones.clone(), 1);
    assert!(cache.is_valid(1));
    assert_eq!(cache.get_zones(1), Some(&empty_zones));
}

#[test]
fn zones_read_back_only_for_their_generation() {
    let mut cache = ZoneCache::default();
    let zones = vec![vec![vec![4, 4], vec![4, 5]]];
    cache.update_cache(zones.clone(), 9);

    assert_eq!(cache.get_zones(9), Some(&zones));
    assert!(cache.get_zones(8).is_none());
    assert!(cache.get_zones(10).is_none());
}

#[test]
fn a_change_after_an_update_invalidates_the_new_generation() {
    let mut cache = ZoneCache::new();
    cache.update_cache(vec![vec![vec![0]]], 3);
    let generation = cache.mark_regions_changed();
    assert_eq!(generation, 4);
    assert!(!cache.is_valid(generation));
    assert!(cache.get_zones(generation).is_none());
    // the stored zones are kept for the generation they were filled for
    assert_eq!(cache.cache_stats(), (3, 4, true));
}

#[test]
fn invalidate_keeps_the_regions_generation() {
    let mut cache = ZoneCache::new();
    cache.update_cache(vec![vec![vec![0]]], 7);
    cache.invalidate();
    assert_eq!(cache.cache_stats(), (0, 7, false));
    assert!(!cache.is_valid(0));
}
