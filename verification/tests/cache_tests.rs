use proxima::cache::{region_key_text, CacheConfig, GeographicContentCache};
use proxima::content::{Content, ContentId, ContentType};
use proxima::geo::{GeographicAddress, GeographicLayer};

fn address(lat: f64, lon: f64) -> GeographicAddress {
    let hash = geohash::encode(geohash::Coord { x: lon, y: lat }, 12).unwrap();
    GeographicAddress::from_geohash(hash)
}

fn text(author: &str, body: &str) -> Content<(f64, f64)> {
    Content::new(
        author.to_string(),
        ContentType::Text,
        body.as_bytes().to_vec(),
        (37.7749, -122.4194),
        vec![],
    )
}

#[test]
fn test_geographic_cache_operations() {
    let mut cache = GeographicContentCache::new(CacheConfig::default());

    let location = address(37.7749, -122.4194);
    let content = text("test", "Hello, world!");

    cache.insert(content.clone(), &location).unwrap();

    let retrieved = cache.get(&content.id);
    assert!(retrieved.is_some());
    assert_eq!(retrieved.unwrap().id, content.id);
}

#[test]
fn region_keys_name_the_layer_and_the_cell() {
    assert_eq!(region_key_text(GeographicLayer::City, "9q8y"), "City_9q8y");
    assert_eq!(region_key_text(GeographicLayer::Hyperlocal, "9q8yyk8"), "Hyperlocal_9q8yyk8");
    assert_eq!(GeographicLayer::Neighborhood.name(), "Neighborhood");
}

#[test]
fn inserted_content_is_found_in_every_region_filter_of_its_address() {
    let mut cache = GeographicContentCache::new(CacheConfig::default());
    let location = address(37.7749, -122.4194);
    let content = text("a", "one");
    cache.insert_at(content.clone(), &location, 1_000).unwrap();

    for layer in GeographicLayer::all_layers() {
        let key = region_key_text(layer, location.get_layer_hash(layer));
        assert!(cache.might_contain_in_region(&content.id, &key), "missing in {}", key);
    }
    assert!(cache.might_contain_in_region(&content.id, "Hyperlocal_9q8yyk8"));
    assert!(cache.might_contain_in_region(&content.id, "Global_9"));
    assert!(!cache.might_contain_in_region(&content.id, "Hyperlocal_u4pruyd"));
    assert!(!cache.might_contain_in_region(&content.id, "no such region"));
}

#[test]
fn stats_count_cached_content_and_region_filters() {
    let mut cache = GeographicContentCache::new(CacheConfig::default());
    let sf = address(37.7749, -122.4194);
    let ny = address(40.7128, -74.0060);
    cache.insert_at(text("a", "one"), &sf, 0).unwrap();
    cache.insert_at(text("b", "two"), &sf, 0).unwrap();
    cache.insert_at(text("c", "three"), &ny, 0).unwrap();

    let stats = cache.stats(2);
    assert_eq!(stats.lru_cache_size, 3);
    assert_eq!(stats.total_content, 3);
    assert_eq!(stats.quadtree_count, 2);
    // one filter per layer and city: the two cities share no cell, not even
    // the global one ("9" and "d")
    assert_eq!(stats.bloom_filter_count, 12);
}

#[test]
fn inserting_the_same_content_twice_keeps_one_entry() {
    let mut cache = GeographicContentCache::new(CacheConfig::default());
    let sf = address(37.7749, -122.4194);
    let content = text("a", "one");
    cache.insert_at(content.clone(), &sf, 0).unwrap();
    cache.insert_at(content.clone(), &sf, 10).unwrap();
    assert_eq!(cache.stats(0).lru_cache_size, 1);
    assert_eq!(cache.stats(0).bloom_filter_count, 6);
}

#[test]
fn missing_content_is_not_found() {
    let mut cache: GeographicContentCache<(f64, f64)> = GeographicContentCache::new(CacheConfig::default());
    assert!(cache.get(&ContentId::from_string("nothing".to_string())).is_none());
    assert!(cache.get_at(&ContentId::from_string("nothing".to_string()), 5).is_none());
}

#[test]
fn cleanup_removes_exactly_the_expired_content() {
    let mut cache = GeographicContentCache::new(CacheConfig::default());
    let sf = address(37.7749, -122.4194);
    let old = text("a", "old");
    let young = text("b", "young");
    cache.insert_at(old.clone(), &sf, 0).unwrap();
    cache.insert_at(young.clone(), &sf, 5_000).unwrap();

    // the default time to live is one hour
    cache.cleanup_expired_at(3_599_999);
    assert_eq!(cache.stats(0).lru_cache_size, 2);

    cache.cleanup_expired_at(3_600_000);
    assert_eq!(cache.stats(0).lru_cache_size, 1);
    assert!(cache.get_at(&old.id, 3_600_000).is_none());
    assert!(cache.get_at(&young.id, 3_600_000).is_some());
    // filters are kept: they still report the expired content
    assert!(cache.might_contain_in_region(&old.id, "Global_9"));

    // a clock that runs backwards expires nothing
    cache.cleanup_expired_at(-10);
    assert_eq!(cache.stats(0).lru_cache_size, 1);
}

#[test]
fn lookups_count_as_accesses_without_changing_content() {
    let mut cache = GeographicContentCache::new(CacheConfig::default());
    let sf = address(37.7749, -122.4194);
    let content = text("a", "hello");
    cache.insert_at(content.clone(), &sf, 0).unwrap();
    for t in 1..5 {
        let got = cache.get_at(&content.id, t).unwrap();
        assert_eq!(got.data, b"hello".to_vec());
        assert_eq!(got.author, "a");
    }
}
