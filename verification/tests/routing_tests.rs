use proxima::geo::{GeographicAddress, GeographicLayer, GeographicRoute, GeographicRoutingTable as LayerRoutes};
use proxima::network::NodeId;
use proxima::routing::{GeographicRoutingTable, RoutingEntry};

/// Distance, social affinity and staleness of a route.
type Metrics = (f64, f64, f64);

fn address(lat: f64, lon: f64) -> GeographicAddress {
    let hash = geohash::encode(geohash::Coord { x: lon, y: lat }, 12).unwrap();
    GeographicAddress::from_geohash(hash)
}

fn entry(destination: &GeographicAddress, hop: &str, cost: u64, last_updated: i64) -> RoutingEntry<Metrics> {
    RoutingEntry {
        destination: destination.clone(),
        next_hop: NodeId::from_string(hop.to_string()),
        metrics: (1000.0, 0.8, 0.9),
        route_cost: cost,
        last_updated,
        hop_count: 1,
    }
}

#[test]
fn test_routing_table_operations() {
    let mut routing_table = GeographicRoutingTable::new(100, 0);

    let address = address(37.7749, -122.4194);
    let route = RoutingEntry {
        destination: address.clone(),
        next_hop: NodeId::new(),
        metrics: (1000.0, 0.8, 0.9),
        route_cost: 100,
        last_updated: chrono::Utc::now().timestamp_millis(),
        hop_count: 1,
    };

    routing_table.add_route("sector".to_string(), route).unwrap();

    let found_route = routing_table.find_route(&address, "sector");
    assert!(found_route.is_some());
}

#[test]
fn the_index_by_destination_keeps_the_best_route() {
    let mut table = GeographicRoutingTable::new(10, 0);
    let dest = address(37.7749, -122.4194);
    table.add_route("s".to_string(), entry(&dest, "a", 50, 0)).unwrap();
    table.add_route("s".to_string(), entry(&dest, "b", 70, 0)).unwrap();
    let found = table.find_route(&dest, "elsewhere").unwrap();
    assert_eq!(found.next_hop, NodeId::from_string("a".to_string()));
    assert_eq!(found.route_cost, 50);

    table.add_route("t".to_string(), entry(&dest, "c", 20, 0)).unwrap();
    let found = table.find_route(&dest, "elsewhere").unwrap();
    assert_eq!(found.next_hop, NodeId::from_string("c".to_string()));
    assert_eq!(found.route_cost, 20);
}

#[test]
fn a_sector_keeps_the_cheaper_route_to_a_destination() {
    let mut table = GeographicRoutingTable::new(10, 0);
    let dest = address(37.7749, -122.4194);
    let unknown = address(40.7128, -74.0060);
    table.add_route("s".to_string(), entry(&dest, "a", 50, 0)).unwrap();
    table.add_route("s".to_string(), entry(&dest, "b", 70, 0)).unwrap();
    // the sector still holds the route through "a"; an unknown destination
    // falls back to the sector's cheapest route
    let found = table.find_route(&unknown, "s").unwrap();
    assert_eq!(found.next_hop, NodeId::from_string("a".to_string()));

    table.add_route("s".to_string(), entry(&dest, "c", 20, 0)).unwrap();
    let found = table.find_route(&unknown, "s").unwrap();
    assert_eq!(found.next_hop, NodeId::from_string("c".to_string()));
    assert_eq!(found.route_cost, 20);
}

#[test]
fn a_full_sector_keeps_its_cheapest_routes() {
    let mut table = GeographicRoutingTable::new(2, 0);
    let a = address(37.7749, -122.4194);
    let b = address(40.7128, -74.0060);
    let c = address(51.5074, -0.1278);
    let unknown = address(35.6762, 139.6503);
    table.add_route("s".to_string(), entry(&a, "to_a", 5, 0)).unwrap();
    table.add_route("s".to_string(), entry(&b, "to_b", 1, 0)).unwrap();
    table.add_route("s".to_string(), entry(&c, "to_c", 3, 0)).unwrap();
    let found = table.find_route(&unknown, "s").unwrap();
    assert_eq!(found.route_cost, 1);
    assert!(table.find_route(&unknown, "other").is_none());
}

#[test]
fn equal_costs_pick_the_first_route() {
    let mut table = GeographicRoutingTable::new(10, 0);
    let a = address(37.7749, -122.4194);
    let b = address(40.7128, -74.0060);
    let unknown = address(35.6762, 139.6503);
    table.add_route("s".to_string(), entry(&a, "first", 4, 0)).unwrap();
    table.add_route("s".to_string(), entry(&b, "second", 4, 0)).unwrap();
    let found = table.find_route(&unknown, "s").unwrap();
    assert_eq!(found.next_hop, NodeId::from_string("first".to_string()));
}

#[test]
fn cleanup_removes_expired_routes_everywhere() {
    let mut table = GeographicRoutingTable::new(10, 0);
    let a = address(37.7749, -122.4194);
    let b = address(40.7128, -74.0060);
    let unknown = address(35.6762, 139.6503);
    table.add_route("s".to_string(), entry(&a, "old", 1, 0)).unwrap();
    table.add_route("s".to_string(), entry(&b, "young", 9, 1_000)).unwrap();

    table.cleanup_expired_at(300_500, std::time::Duration::from_secs(300));
    assert!(table.find_route(&a, "nowhere").is_none());
    assert!(table.find_route(&b, "nowhere").is_some());
    let found = table.find_route(&unknown, "s").unwrap();
    assert_eq!(found.next_hop, NodeId::from_string("young".to_string()));

    table.cleanup_expired_at(301_000, std::time::Duration::from_secs(300));
    assert!(table.find_route(&unknown, "s").is_none());
}

fn layer_route(destination: &str, next_hop: &str) -> GeographicRoute<(f64, f64)> {
    GeographicRoute {
        destination: destination.to_string(),
        next_hop: next_hop.to_string(),
        metrics: (1200.0, 3.5),
        last_updated: 7,
    }
}

#[test]
fn layer_routes_are_read_back_after_update() {
    let mut table: LayerRoutes<&str, (f64, f64)> = LayerRoutes::new("home");
    assert_eq!(*table.local_sector(), "home");
    assert!(table.get_layer_routes(GeographicLayer::City).is_none());

    table.update_route(GeographicLayer::City, layer_route("9q8y", "9q8z"));
    table.update_route(GeographicLayer::City, layer_route("9q9p", "9q8z"));
    table.update_route(GeographicLayer::City, layer_route("9q8y", "9q8v"));

    assert_eq!(table.get_route(GeographicLayer::City, "9q8y").unwrap().next_hop, "9q8v");
    assert_eq!(table.get_route(GeographicLayer::City, "9q9p").unwrap().next_hop, "9q8z");
    assert!(table.get_route(GeographicLayer::City, "dr5r").is_none());
    assert!(table.get_route(GeographicLayer::District, "9q8y").is_none());
    assert_eq!(table.get_layer_routes(GeographicLayer::City).unwrap().len(), 2);
    assert!(table.get_layer_routes(GeographicLayer::Region).is_none());
}
