use proxima::geo::{GeographicAddress, GeographicError, GeographicLayer};
use proxima::privacy::{
    encrypt_node_id, generate_mixing_group_id, hash_content_bytes, mixing_group_id_at, AnonymityTracker, LocationMixingPool, LocationUpdate,
};

fn update(ts: i64, tag: &str) -> LocationUpdate<(f64, f64)> {
    LocationUpdate {
        encrypted_node_id: encrypt_node_id(tag),
        location: (37.7749, -122.4194),
        timestamp: ts,
        mixing_group_id: tag.to_string(),
    }
}

#[test]
fn layer_hierarchy() {
    assert_eq!(GeographicLayer::Hyperlocal.geohash_precision(), 7);
    assert_eq!(GeographicLayer::Global.geohash_precision(), 1);
    assert_eq!(GeographicLayer::Hyperlocal.parent(), Some(GeographicLayer::Neighborhood));
    assert_eq!(GeographicLayer::Global.parent(), None);
    assert_eq!(GeographicLayer::Hyperlocal.child(), None);
    assert_eq!(GeographicLayer::Global.child(), Some(GeographicLayer::Region));
    for layer in GeographicLayer::all_layers() {
        if let Some(p) = layer.parent() {
            assert_eq!(p.child(), Some(layer));
            assert!(p.geohash_precision() < layer.geohash_precision());
        }
    }
    assert_eq!(GeographicLayer::all_layers().len(), 6);
}

#[test]
fn layer_hashes_are_prefixes() {
    let addr = GeographicAddress::from_geohash("dr5regw3pg6f".to_string());
    assert_eq!(addr.geohash(), "dr5regw3pg6f");
    assert_eq!(addr.get_layer_hash(GeographicLayer::Hyperlocal), "dr5regw");
    assert_eq!(addr.get_layer_hash(GeographicLayer::Neighborhood), "dr5reg");
    assert_eq!(addr.get_layer_hash(GeographicLayer::District), "dr5re");
    assert_eq!(addr.get_layer_hash(GeographicLayer::City), "dr5r");
    assert_eq!(addr.get_layer_hash(GeographicLayer::Region), "dr5");
    assert_eq!(addr.get_layer_hash(GeographicLayer::Global), "d");
    let short = GeographicAddress::from_geohash("9q".to_string());
    assert_eq!(short.get_layer_hash(GeographicLayer::City), "9q");
}

#[test]
fn neighbors_of_a_cell() {
    let addr = GeographicAddress::from_geohash("9q60y60rhs".to_string());
    let cells = addr.get_neighbors(GeographicLayer::Hyperlocal).unwrap();
    assert_eq!(cells.len(), 8);
    assert!(cells.iter().all(|c| c.len() == 7 && c.as_str() != "9q60y60"));
    let global = addr.get_neighbors(GeographicLayer::Global).unwrap();
    assert_eq!(global.len(), 8);
    let expected = geohash::neighbors("9q60y60").unwrap();
    assert_eq!(cells[0], expected.sw);
    assert_eq!(cells[6], expected.n);
    assert_eq!(cells[7], expected.ne);
}

#[test]
fn neighbors_of_an_invalid_hash_fail() {
    let addr = GeographicAddress::from_geohash("aaaa".to_string());
    assert!(matches!(addr.get_neighbors(GeographicLayer::City), Err(GeographicError::GeohashError(_))));
}

#[test]
fn k_anonymity_counts_distinct_users() {
    let mut tracker = AnonymityTracker::new(5);
    assert!(!tracker.check_k_anonymity("9q8yy", 1));
    assert!(tracker.check_k_anonymity("9q8yy", 0) == false);
    for user in ["a", "b", "c", "d"] {
        tracker.update_anonymity_set(user, "9q8yy");
    }
    tracker.update_anonymity_set("a", "9q8yy");
    assert!(!tracker.check_k_anonymity("9q8yy", 5));
    tracker.update_anonymity_set("e", "9q8yy");
    assert!(tracker.check_k_anonymity("9q8yy", 5));
    assert!(!tracker.check_k_anonymity("9q8yz", 1));
}

#[test]
fn mixing_pool_is_bounded_and_releases_in_order() {
    let mut pool = LocationMixingPool::new(3, 60_000);
    for (i, ts) in [1_000i64, 2_000, 3_000, 4_000].iter().enumerate() {
        pool.add_location_update(update(*ts, &format!("u{}", i)));
    }
    assert_eq!(pool.len(), 3);
    let none = pool.release_ready(10_000);
    assert!(none.is_empty());
    let ready = pool.release_ready(63_000);
    let tags: Vec<&str> = ready.iter().map(|u| u.mixing_group_id.as_str()).collect();
    assert_eq!(tags, vec!["u1", "u2"]);
    assert_eq!(pool.len(), 1);
}

#[test]
fn test_location_mixing() {
    let mut pool = LocationMixingPool::new(100, 60_000);
    pool.add_location_update(update(chrono::Utc::now().timestamp_millis(), "test_node"));
    let updates = pool.process_mixing_pool();
    assert_eq!(updates.len(), 0);
}

#[test]
fn shuffled_release_keeps_every_update() {
    let mut pool = LocationMixingPool::new(10, 0);
    for i in 0..5 {
        pool.add_location_update(update(0, &format!("u{}", i)));
    }
    let mut tags: Vec<String> = pool.process_mixing_pool().into_iter().map(|u| u.mixing_group_id).collect();
    tags.sort();
    assert_eq!(tags, vec!["u0", "u1", "u2", "u3", "u4"]);
    assert_eq!(pool.len(), 0);
}

#[test]
fn node_ids_are_hashed_with_sha256() {
    let h = encrypt_node_id("abc");
    assert_eq!(h.len(), 32);
    assert_eq!(h[0], 0xba);
    assert_eq!(h[31], 0xad);
    assert_ne!(encrypt_node_id("abd"), h);
}

#[test]
fn mixing_groups_use_five_minute_buckets() {
    assert_eq!(mixing_group_id_at("9q8yy", 1_700_000_123), "9q8yy_5666667");
    assert_eq!(mixing_group_id_at("x", -301), "x_-1");
    assert_eq!(mixing_group_id_at("x", 299), "x_0");
    assert!(generate_mixing_group_id("9q8yy").starts_with("9q8yy_"));
}

#[test]
fn serialized_content_is_hashed_with_sha256() {
    let h = hash_content_bytes(b"abc");
    assert_eq!(h.len(), 32);
    assert_eq!(h[0], 0xba);
    assert_eq!(h[31], 0xad);
    assert_eq!(hash_content_bytes(b"abc"), encrypt_node_id("abc"));
    assert_ne!(hash_content_bytes(b""), h);
}
