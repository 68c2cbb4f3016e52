use orca_tree_supports::collision::{CollisionCache, CollisionRegion};
use orca_tree_supports::utils::Point2D;

fn region(tag: i64) -> CollisionRegion {
    CollisionRegion { boundary: vec![Point2D::new(tag, 0), Point2D::new(0, tag)] }
}

fn boundaries(regions: &[CollisionRegion]) -> Vec<Vec<Point2D>> {
    regions.iter().map(|r| r.boundary.clone()).collect()
}

#[test]
fn empty_cache_has_nothing() {
    let cache = CollisionCache::new();
    assert!(cache.lookup(100_000, 0).is_none());
}

#[test]
fn lookup_after_store_gives_the_stored_regions() {
    let mut cache = CollisionCache::new();
    cache.store(100_000, 3, vec![region(1), region(2)]);
    let got = cache.lookup(100_000, 3).expect("stored key");
    assert_eq!(boundaries(&got), boundaries(&[region(1), region(2)]));
}

#[test]
fn other_keys_stay_unset() {
    let mut cache = CollisionCache::new();
    cache.store(100_000, 3, vec![region(1)]);
    assert!(cache.lookup(100_000, 4).is_none());
    assert!(cache.lookup(200_000, 3).is_none());
}

#[test]
fn store_replaces_only_its_key() {
    let mut cache = CollisionCache::new();
    cache.store(100_000, 3, vec![region(1)]);
    cache.store(200_000, 3, vec![region(2)]);
    cache.store(100_000, 5, vec![]);
    cache.store(100_000, 3, vec![region(7), region(8)]);
    assert_eq!(boundaries(&cache.lookup(100_000, 3).unwrap()), boundaries(&[region(7), region(8)]));
    assert_eq!(boundaries(&cache.lookup(200_000, 3).unwrap()), boundaries(&[region(2)]));
    assert!(cache.lookup(100_000, 5).unwrap().is_empty());
}
