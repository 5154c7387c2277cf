use routing_project::routing_core::path_calculation::{Router, calculate_paths, update_router};
use routing_project::routing_core::routing_table::RoutingTable;
use routing_project::routing_core::neighbor_discovery::NeighborDiscovery;
use routing_project::routing_core::network_interface::{NetworkInterface, NetworkInterfaceManager};
use routing_project::net_utils::{IpAddress, SocketAddress};
use routing_project::error::ProtocolError;
use routing_project::protocol::message_types::{LinkInfo, LinkStateUpdate};

fn ipv4(a: u32, b: u32, c: u32, d: u32) -> u32 {
    (a << 24) | (b << 16) | (c << 8) | d
}

#[test]
fn best_paths_are_the_direct_links() {
    let mut r = Router::new("A");
    r.add_link("B", 3, 100, true);
    r.add_link("C", 5, 100, true);
    r.add_link("D", 1, 100, false);
    let paths = r.calculate_best_paths();
    assert_eq!(paths.len(), 2);
    assert_eq!(paths[0].destination, "B");
    assert_eq!(paths[0].cost, 3);
    assert_eq!(paths[0].path, vec!["A".to_string(), "B".to_string()]);
    assert_eq!(paths[1].destination, "C");
    assert_eq!(paths[1].cost, 5);
    assert_eq!(paths[1].path, vec!["A".to_string(), "C".to_string()]);
}

#[test]
fn add_link_replaces_the_link_to_a_destination() {
    let mut r = Router::new("A");
    update_router(&mut r, "B", 3, 100, true);
    update_router(&mut r, "B", 7, 10, true);
    assert_eq!(r.links.len(), 1);
    assert_eq!(r.links[0].cost, 7);
    assert_eq!(r.links[0].capacity, 10);
    let paths = calculate_paths(&r);
    assert_eq!(paths.len(), 1);
    assert_eq!(paths[0].cost, 7);
}

#[test]
fn best_paths_with_a_link_to_itself() {
    let mut r = Router::new("A");
    r.add_link("A", 2, 100, true);
    r.add_link("B", 4, 100, true);
    let paths = r.calculate_best_paths();
    assert_eq!(paths.len(), 2);
    assert_eq!(paths[0].destination, "A");
    assert_eq!(paths[0].cost, 2);
    assert_eq!(paths[1].cost, 4);
}

#[test]
fn best_paths_of_a_router_without_active_link_are_empty() {
    let mut r = Router::new("A");
    r.add_link("B", 1, 100, false);
    assert!(r.calculate_best_paths().is_empty());
}

#[test]
fn cheapest_hop_is_the_first_of_least_cost() {
    let paths = vec![("a", "b", 5), ("a", "c", 2), ("a", "d", 2)];
    assert_eq!(routing_project::routing_core::path_calculation::calculate_best_path(&paths), ("a", "c"));
}

#[test]
fn broadcast_address_of_an_ipv4_interface() {
    let i = NetworkInterface::new("eth0".to_string(), IpAddress::V4(ipv4(192, 168, 1, 10)), 1);
    assert!(i.is_active);
    match i.get_broadcast_address(5000) {
        Ok(a) => assert_eq!(a, SocketAddress { ip: 0xffff_ffff, port: 5000 }),
        Err(_) => panic!("IPv4 has a broadcast address"),
    }
}

#[test]
fn ipv6_interface_has_no_broadcast() {
    let i = NetworkInterface::new("eth1".to_string(), IpAddress::V6(1), 1);
    match i.get_broadcast_address(5000) {
        Err(ProtocolError::NetworkInterface(m)) => assert_eq!(m, "IPv6 broadcast not supported"),
        _ => panic!("IPv6 has no broadcast"),
    }
}

#[test]
fn same_network_compares_three_octets() {
    let i = NetworkInterface::new("eth0".to_string(), IpAddress::V4(ipv4(192, 168, 1, 10)), 1);
    assert!(i.is_same_network(&IpAddress::V4(ipv4(192, 168, 1, 200))));
    assert!(!i.is_same_network(&IpAddress::V4(ipv4(192, 168, 2, 10))));
    assert!(!i.is_same_network(&IpAddress::V6(5)));
}

#[test]
fn interface_manager_status_and_removal() {
    let mut m = NetworkInterfaceManager::new();
    m.add_interface("eth0".to_string(), IpAddress::V4(ipv4(10, 0, 0, 1)), 10);
    m.add_interface("eth1".to_string(), IpAddress::V4(ipv4(10, 0, 1, 1)), 20);
    m.set_interface_status("eth0", false);
    let active = m.get_active_interfaces();
    assert_eq!(active.len(), 1);
    assert_eq!(active[0].name, "eth1");
    m.set_interface_status("nope", false);
    m.remove_interface("eth1");
    assert!(m.get_interface("eth1").is_none());
    assert!(m.get_interface("eth0").is_some());
    assert!(m.get_active_interfaces().is_empty());
}

#[test]
fn adding_an_interface_again_replaces_it() {
    let mut m = NetworkInterfaceManager::new();
    m.add_interface("eth0".to_string(), IpAddress::V4(1), 10);
    m.set_interface_status("eth0", false);
    m.add_interface("eth0".to_string(), IpAddress::V4(2), 30);
    let i = m.get_interface("eth0").unwrap();
    assert_eq!(i.ip_address, IpAddress::V4(2));
    assert_eq!(i.metric, 30);
    assert!(i.is_active);
}

#[test]
fn neighbor_discovery_lines_and_removal() {
    let mut d = NeighborDiscovery::new();
    d.add_neighbor(IpAddress::V4(ipv4(10, 0, 0, 2)), "R2".to_string());
    d.add_neighbor(IpAddress::V4(ipv4(10, 0, 0, 3)), "R3".to_string());
    d.add_neighbor(IpAddress::V4(ipv4(10, 0, 0, 2)), "R2b".to_string());
    let lines = d.display_neighbors();
    assert_eq!(
        lines,
        vec![
            "Neighbor IP: 10.0.0.2, System Name: R2b".to_string(),
            "Neighbor IP: 10.0.0.3, System Name: R3".to_string(),
        ]
    );
    d.remove_neighbor(&IpAddress::V4(ipv4(10, 0, 0, 2)));
    assert_eq!(d.get_neighbors().len(), 1);
    d.remove_neighbor(&IpAddress::V4(ipv4(10, 0, 0, 9)));
    assert_eq!(d.get_neighbors().len(), 1);
}

#[test]
fn ipv6_neighbor_line() {
    let mut d = NeighborDiscovery::new();
    d.add_neighbor(IpAddress::V6(1), "R6".to_string());
    assert_eq!(d.display_neighbors(), vec!["Neighbor IP: ::1, System Name: R6".to_string()]);
}

#[test]
fn routing_table_read_after_write_and_remove() {
    let mut t = RoutingTable::new();
    t.update_route_at("10.0.0.0/24".to_string(), "10.0.0.1".to_string(), 4, 100);
    t.update_route_at("10.0.1.0/24".to_string(), "10.0.0.2".to_string(), 6, 100);
    let r = t.get_route("10.0.0.0/24").unwrap();
    assert_eq!(r.next_hop, "10.0.0.1");
    assert_eq!(r.metric, 4);
    assert_eq!(r.timestamp, 100);
    let removed = t.remove_route("10.0.0.0/24").unwrap();
    assert_eq!(removed.destination, "10.0.0.0/24");
    assert!(t.get_route("10.0.0.0/24").is_none());
    assert!(t.remove_route("10.0.0.0/24").is_none());
    assert_eq!(t.get_all_routes().len(), 1);
}

#[test]
fn link_state_update_routes_through_active_links() {
    let mut t = RoutingTable::new();
    let update = LinkStateUpdate {
        router_id: "R1".to_string(),
        timestamp: 5,
        links: vec![
            LinkInfo { neighbor_id: "R2".to_string(), is_active: true, metric: 3 },
            LinkInfo { neighbor_id: "R3".to_string(), is_active: false, metric: 1 },
        ],
    };
    t.update_from_link_state_at(update, 42);
    let r = t.get_route("R2").unwrap();
    assert_eq!(r.next_hop, "R2");
    assert_eq!(r.metric, 3);
    assert_eq!(r.timestamp, 42);
    assert!(t.get_route("R3").is_none());
}
