use soustraire::preview::PreviewCache;
use soustraire::GrayImage;

fn gray(value: u8) -> GrayImage {
    GrayImage::new(2, 2, vec![value; 4]).unwrap()
}

#[test]
fn test_cache_miss_when_empty() {
    let cache = PreviewCache::new();
    assert!(cache.get(0).is_none());
}

#[test]
fn test_cache_hit_on_same_position() {
    let mut cache = PreviewCache::new();
    cache.store(3, gray(9));
    let hit = cache.get(3).unwrap();
    assert_eq!(hit.pixels, vec![9; 4]);
    assert!(cache.get(2).is_none());
}

#[test]
fn test_store_replaces_slot() {
    let mut cache = PreviewCache::new();
    cache.store(1, gray(1));
    cache.store(2, gray(2));
    assert!(cache.get(1).is_none());
    assert_eq!(cache.get(2).unwrap().pixels, vec![2; 4]);
}

#[test]
fn test_invalidate_clears_slot() {
    let mut cache = PreviewCache::new();
    cache.store(5, gray(5));
    cache.invalidate();
    assert!(cache.get(5).is_none());
}
