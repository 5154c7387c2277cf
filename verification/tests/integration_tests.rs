use routing_project::routing_core::path_calculation;
use routing_project::routing_core::routing_table::RoutingTable;
use routing_project::routing_core::neighbor_discovery::NeighborDiscovery;
use routing_project::routing_core::network_interface::NetworkInterfaceManager;
use routing_project::net_utils::IpAddress;

fn ipv4(a: u32, b: u32, c: u32, d: u32) -> u32 {
    (a << 24) | (b << 16) | (c << 8) | d
}

#[test]
fn test_path_calculation() {
    let paths = vec![
        ("192.168.1.1", "192.168.1.2", 1),
        ("192.168.1.1", "192.168.1.3", 2),
    ];
    let best_path = path_calculation::calculate_best_path(&paths);

    assert_eq!(best_path, ("192.168.1.1", "192.168.1.2"));
}

#[test]
fn test_routing_table_update() {
    let mut routing_table = RoutingTable::new();
    routing_table.update_route("192.168.1.0/24".to_string(), "192.168.1.1".to_string(), 1);

    assert!(routing_table.get_route("192.168.1.0/24").is_some());

    routing_table.update_route("192.168.1.0/24".to_string(), "192.168.1.2".to_string(), 1);
    assert_eq!(
        routing_table.get_route("192.168.1.0/24").map(|r| r.next_hop.as_str()),
        Some("192.168.1.2")
    );
}

#[test]
fn test_neighbor_discovery() {
    let mut neighbor_discovery = NeighborDiscovery::new();
    let addr = IpAddress::V4(ipv4(192, 168, 1, 2));
    neighbor_discovery.add_neighbor(addr, "RouterA".to_string());

    let neighbors = neighbor_discovery.get_neighbors();
    assert!(neighbors.iter().any(|n| n.ip_address == addr));
    assert_eq!(
        neighbors.iter().find(|n| n.ip_address == addr).map(|n| n.system_name.as_str()),
        Some("RouterA")
    );
}

#[test]
fn test_network_interface_management() {
    let mut network_interface = NetworkInterfaceManager::new();
    network_interface.add_interface("eth0".to_string(), IpAddress::V4(ipv4(10, 0, 0, 1)), 10);

    assert!(network_interface.get_interface("eth0").map(|i| i.is_active).unwrap_or(false));
}
