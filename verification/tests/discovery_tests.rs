use proxima::cache::{CacheConfig, CacheStats};
use proxima::discovery::{order_bridge_nodes, BridgeCandidate, DiscoveryPhase, KnownNode, KnownNodeRegistry};
use proxima::network::NodeId;
use proxima::routing::NodeCapabilities;

fn capabilities() -> NodeCapabilities {
    NodeCapabilities {
        can_store: true,
        can_route: true,
        can_bridge: false,
        storage_capacity: 1024 * 1024 * 1024,
        bandwidth_capacity: 1024 * 1024,
    }
}

fn node(id: &str, last_seen: i64) -> KnownNode<NodeCapabilities> {
    KnownNode { id: NodeId::from_string(id.to_string()), last_seen, info: capabilities() }
}

#[test]
fn test_geographic_discovery_creation() {
    let registry: KnownNodeRegistry<NodeCapabilities> = KnownNodeRegistry::new(1000);
    let stats = registry.discovery_stats(DiscoveryPhase::Bootstrap, 0, std::time::Instant::now());
    assert_eq!(stats.total_known_nodes, 0);
    assert_eq!(stats.discovery_phase, DiscoveryPhase::Bootstrap);
}

#[test]
fn test_add_discovered_node() {
    let mut registry = KnownNodeRegistry::new(1000);
    registry.add_discovered_node("9q8yy".to_string(), KnownNode { id: NodeId::new(), last_seen: 1, info: capabilities() });
    let stats = registry.discovery_stats(DiscoveryPhase::Bootstrap, 0, std::time::Instant::now());
    assert_eq!(stats.total_known_nodes, 1);
}

#[test]
fn same_node_in_same_region_is_replaced() {
    let mut registry = KnownNodeRegistry::new(10);
    registry.add_discovered_node("a".to_string(), node("n1", 1));
    registry.add_discovered_node("a".to_string(), node("n1", 5));
    registry.add_discovered_node("a".to_string(), node("n2", 2));
    registry.add_discovered_node("b".to_string(), node("n1", 3));
    assert_eq!(registry.total_known_nodes(), 3);
    assert_eq!(registry.geographic_regions(), 2);
}

fn ids_in(registry: &KnownNodeRegistry<NodeCapabilities>, region: &str) -> Vec<String> {
    registry.region_nodes(region).map(|v| v.iter().map(|n| n.id.0.clone()).collect()).unwrap_or_default()
}

#[test]
fn limit_keeps_most_recent_sightings() {
    // a limit of 2 nodes: the third node triggers eviction down to the most recent one
    let mut registry = KnownNodeRegistry::new(2);
    registry.add_discovered_node("a".to_string(), node("old", 1));
    registry.add_discovered_node("b".to_string(), node("mid", 5));
    assert_eq!(registry.total_known_nodes(), 2);
    registry.add_discovered_node("c".to_string(), node("new", 9));
    assert_eq!(registry.geographic_regions(), 3);
    assert_eq!(registry.total_known_nodes(), 1);
    assert_eq!(ids_in(&registry, "c"), vec!["new"]);
    assert!(ids_in(&registry, "a").is_empty());
    assert!(ids_in(&registry, "b").is_empty());
}

#[test]
fn limit_counts_nodes_not_regions() {
    let mut registry = KnownNodeRegistry::new(4);
    for (i, t) in [3, 1, 4, 2, 5].iter().enumerate() {
        registry.add_discovered_node("a".to_string(), node(&format!("n{}", i), *t));
    }
    // five nodes in one region exceed the limit of four: the two most recent stay
    assert_eq!(registry.geographic_regions(), 1);
    assert_eq!(ids_in(&registry, "a"), vec!["n2", "n4"]);
}

#[test]
fn eviction_removes_an_id_from_every_region() {
    let mut registry = KnownNodeRegistry::new(4);
    registry.add_discovered_node("a".to_string(), node("x", 1));
    registry.add_discovered_node("b".to_string(), node("y", 2));
    registry.add_discovered_node("c".to_string(), node("z", 6));
    registry.add_discovered_node("d".to_string(), node("w", 7));
    registry.add_discovered_node("e".to_string(), node("y", 3));
    // keep the two most recent sightings, "w" and "z"; "y" leaves regions b and e
    assert_eq!(registry.total_known_nodes(), 2);
    assert_eq!(ids_in(&registry, "c"), vec!["z"]);
    assert_eq!(ids_in(&registry, "d"), vec!["w"]);
    assert!(ids_in(&registry, "b").is_empty());
    assert!(ids_in(&registry, "e").is_empty());
}

#[test]
fn cache_defaults_and_stats() {
    let config = CacheConfig::default();
    assert_eq!(config.max_content_per_quadtree, 100);
    assert_eq!(config.max_quadtree_depth, 10);
    assert_eq!(config.lru_cache_size, 10000);
    assert_eq!(config.content_ttl, std::time::Duration::from_secs(3600));
    assert_eq!(config.bloom_filter_size, 10000);
    assert_eq!(config.bloom_filter_hash_count, 7);
    let stats = CacheStats::from_counts(3, 1, 6);
    assert_eq!(stats, CacheStats { lru_cache_size: 3, quadtree_count: 1, bloom_filter_count: 6, total_content: 3 });
}

#[test]
fn bootstrap_turns_geographic_once_enough_nodes_are_known() {
    assert_eq!(DiscoveryPhase::Bootstrap.after_bootstrap_round(4), DiscoveryPhase::Bootstrap);
    assert_eq!(DiscoveryPhase::Bootstrap.after_bootstrap_round(5), DiscoveryPhase::Geographic);
    assert_eq!(DiscoveryPhase::Maintenance.after_bootstrap_round(50), DiscoveryPhase::Maintenance);
    assert_eq!(DiscoveryPhase::Geographic.after_bootstrap_round(0), DiscoveryPhase::Geographic);
}

#[test]
fn bridge_candidates_come_largest_capacity_first_keeping_ties_in_order() {
    let candidates = vec![
        BridgeCandidate { bridge_capacity: 5, node: "a" },
        BridgeCandidate { bridge_capacity: 9, node: "b" },
        BridgeCandidate { bridge_capacity: 5, node: "c" },
        BridgeCandidate { bridge_capacity: 0, node: "d" },
        BridgeCandidate { bridge_capacity: 9, node: "e" },
    ];
    let ordered: Vec<&str> = order_bridge_nodes(candidates).into_iter().map(|c| c.node).collect();
    assert_eq!(ordered, vec!["b", "e", "a", "c", "d"]);
    assert!(order_bridge_nodes::<u8>(vec![]).is_empty());
}
