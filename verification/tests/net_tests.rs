use routing_project::net_utils::{
    IpAddress, IpNet, LocalAddress, SocketAddress, calculate_broadcast_for_interface, decrypt, determine_receiving_interface,
    encrypt, get_broadcast_addresses, get_local_ip, ip_address_text, ipv4_net_to_string, ipv4_to_string,
    parse_ipv4,
};
use routing_project::error::AppError;
use routing_project::text::{join, pad_right};
use routing_project::dijkstra::{
    InterfaceInfo, NetworkTopology, RouteInfo, build_network_topology, calculate_ospf_cost, optimal_routing_table,
    system_route_request,
};
use routing_project::types::{LSAMessage, LsdbEntry, Neighbor, RouteState, Router, AdvertisedRoute};
use routing_project::read_config::InterfaceConfig;

fn ipv4(a: u32, b: u32, c: u32, d: u32) -> u32 {
    (a << 24) | (b << 16) | (c << 8) | d
}

#[test]
fn ospf_cost_formula() {
    assert_eq!(calculate_ospf_cost(10, true), 10);
    assert_eq!(calculate_ospf_cost(1, true), 100);
    assert_eq!(calculate_ospf_cost(100, true), 1);
    assert_eq!(calculate_ospf_cost(10000, true), 1);
    assert_eq!(calculate_ospf_cost(0, true), u32::MAX);
    assert_eq!(calculate_ospf_cost(100, false), u32::MAX);
}

#[test]
fn shortest_paths_over_the_topology() {
    let mut t = NetworkTopology::new();
    t.add_router("A".to_string(), vec![]);
    t.add_router("B".to_string(), vec![]);
    t.add_router("C".to_string(), vec![]);
    t.add_link("A".to_string(), "B".to_string(), 100, true);
    t.add_link("B".to_string(), "C".to_string(), 10, true);
    t.add_link("A".to_string(), "C".to_string(), 1, true);
    t.add_link("A".to_string(), "D".to_string(), 100, false);
    let routes = t.calculate_shortest_paths("A");
    assert_eq!(routes.len(), 2);
    let c = routes.iter().find(|r| r.destination == "C").unwrap();
    assert_eq!(c.total_cost, 11);
    assert_eq!(c.next_hop, "B");
    assert_eq!(c.path, vec!["A".to_string(), "B".to_string(), "C".to_string()]);
    assert_eq!(c.hop_count, 2);
    assert_eq!(c.bottleneck_capacity, 10);
    assert!(routes.iter().all(|r| r.destination != "D"));
    assert_eq!(t.get_active_neighbors("A").len(), 2);
    assert_eq!(t.find_link("A", "C").map(|l| l.cost), Some(100));
    assert_eq!(t.find_link("C", "A").map(|l| l.cost), Some(100));
    assert!(t.find_link("B", "D").is_none());
}

#[test]
fn min_capacity_link() {
    let mut t = NetworkTopology::new();
    t.add_link_with_min_capacity("A".to_string(), "B".to_string(), 1000, 10, true);
    let l = t.find_link("A", "B").unwrap();
    assert_eq!(l.capacity_mbps, 10);
    assert_eq!(l.cost, 10);
}

#[test]
fn topology_from_configuration() {
    let ifs = vec![InterfaceConfig { name: "eth0".to_string(), capacity_mbps: 100, link_active: true }];
    let ns = vec![Neighbor { neighbor_ip: "10.0.0.2".to_string(), link_up: true, capacity: 10, last_seen: 0 }];
    let t = build_network_topology(&"10.0.0.1".to_string(), &ifs, &ns);
    assert_eq!(t.nodes[0].router_id, "10.0.0.1");
    assert_eq!(t.nodes[0].interfaces.len(), 1);
    assert!(t.nodes.iter().any(|n| n.router_id == "10.0.0.2"));
    assert!(t.links.iter().any(|l| l.from == "10.0.0.1" && l.to == "10.0.0.2"));
    let _ = InterfaceInfo {
        name: "x".to_string(),
        network: "n".to_string(),
        capacity_mbps: 1,
        is_active: true,
        connected_to: None,
    };
}

#[test]
fn optimal_table_keeps_the_least_metric() {
    let route = |dest: &str, cost: u32| RouteInfo {
        destination: dest.to_string(),
        next_hop: dest.to_string(),
        total_cost: cost,
        hop_count: 1,
        bottleneck_capacity: 100,
        path: vec![],
        is_reachable: true,
    };
    let lsa_of = |o: &str, prefix: &str, metric: u32| LSAMessage {
        message_type: 2,
        router_ip: o.to_string(),
        last_hop: None,
        originator: o.to_string(),
        seq_num: 1,
        neighbor_count: 0,
        neighbors: vec![],
        routing_table: vec![AdvertisedRoute { prefix: prefix.to_string(), state: RouteState::Active(metric) }],
        path: vec![],
        ttl: 64,
    };
    let routes = vec![route("R1", 1), route("R2", 5)];
    let lsdb = vec![
        LsdbEntry { originator: "R1".to_string(), router: Router { last_lsa: Some(lsa_of("R1", "10.9.0.0/16", 10)) } },
        LsdbEntry { originator: "R2".to_string(), router: Router { last_lsa: Some(lsa_of("R2", "10.9.0.0/16", 2)) } },
    ];
    let t = optimal_routing_table(&routes, &lsdb).unwrap();
    let e = t.iter().find(|e| e.destination == "10.9.0.0/16").unwrap();
    assert_eq!(e.next_hop, "R2");
    assert_eq!(e.state, RouteState::Active(7));
    assert!(optimal_routing_table(&vec![], &lsdb).is_none());
}

#[test]
fn system_route_requests() {
    assert_eq!(
        system_route_request("10.1.2.0/24", "10.0.0.1").ok(),
        Some((ipv4(10, 1, 2, 0), 24, ipv4(10, 0, 0, 1)))
    );
    assert_eq!(
        system_route_request("10.1.2.77/24", "10.0.0.1").ok(),
        Some((ipv4(10, 1, 2, 0), 24, ipv4(10, 0, 0, 1)))
    );
    match system_route_request("10.1.2.0", "10.0.0.1") {
        Err(AppError::RouteError(m)) => assert_eq!(m, "Format de destination invalide (CIDR attendu): 10.1.2.0"),
        _ => panic!("missing prefix"),
    }
    match system_route_request("10.1.2.0/24", "127.0.0.1") {
        Err(AppError::RouteError(m)) => assert_eq!(m, "Adresse de passerelle invalide: 127.0.0.1"),
        _ => panic!("loopback gateway"),
    }
    match system_route_request("10.1.2.0/24", "255.255.255.255") {
        Err(AppError::RouteError(m)) => assert_eq!(m, "Adresse de passerelle invalide: 255.255.255.255"),
        _ => panic!("broadcast gateway"),
    }
    match system_route_request("::1/128", "10.0.0.1") {
        Err(AppError::RouteError(m)) => assert_eq!(m, "IPv6 non supporté"),
        _ => panic!("IPv6"),
    }
    match system_route_request("10.1.2.0/24", "gw") {
        Err(AppError::RouteError(m)) => assert_eq!(m, "Passerelle IPv4 invalide gw: invalid IPv4 address syntax"),
        _ => panic!("bad gateway"),
    }
}

#[test]
fn address_parsing_and_text() {
    assert_eq!(parse_ipv4("192.168.1.2"), Ok(ipv4(192, 168, 1, 2)));
    assert!(parse_ipv4("192.168.1.2/24").is_err());
    assert!(parse_ipv4("host").is_err());
    assert_eq!(ipv4_to_string(ipv4(10, 20, 30, 40)), "10.20.30.40");
    assert_eq!(ipv4_net_to_string(ipv4(10, 0, 0, 1), 24), "10.0.0.1/24");
    assert_eq!(ip_address_text(IpAddress::V6(0x2001_0db8 << 96)), "2001:db8::");
}

#[test]
fn local_ip_and_broadcasts() {
    let addrs = vec![
        IpNet::V4 { addr: ipv4(127, 0, 0, 1), prefix: 8 },
        IpNet::V6 { addr: 1, prefix: 128 },
        IpNet::V4 { addr: ipv4(10, 0, 0, 1), prefix: 24 },
    ];
    assert_eq!(get_local_ip(&addrs).ok(), Some("10.0.0.1".to_string()));
    match get_local_ip(&vec![]) {
        Err(AppError::ConfigError(m)) => assert_eq!(m, "No valid IP address found"),
        _ => panic!("no address"),
    }
    let b = get_broadcast_addresses(&addrs, 5000);
    assert_eq!(b.len(), 1);
    assert_eq!(b[0].local_ip, "10.0.0.1");
    assert_eq!(b[0].addr, SocketAddress { ip: ipv4(10, 0, 0, 255), port: 5000 });
    assert_eq!(
        calculate_broadcast_for_interface("10.0.0.1", IpNet::V4 { addr: ipv4(10, 0, 0, 1), prefix: 16 }, 7).ok(),
        Some(SocketAddress { ip: ipv4(10, 0, 255, 255), port: 7 })
    );
    match calculate_broadcast_for_interface("x", IpNet::V6 { addr: 1, prefix: 64 }, 7) {
        Err(AppError::NetworkError(m)) => assert_eq!(m, "Invalid IPv4 network"),
        _ => panic!("IPv6 interface"),
    }
}

#[test]
fn receiving_interface_is_the_senders_network() {
    let local = vec![
        LocalAddress { ip: IpAddress::V4(ipv4(10, 0, 0, 1)), text: "10.0.0.1".to_string(), network: IpNet::V4 { addr: ipv4(10, 0, 0, 1), prefix: 24 } },
        LocalAddress { ip: IpAddress::V4(ipv4(10, 0, 1, 1)), text: "10.0.1.1".to_string(), network: IpNet::V4 { addr: ipv4(10, 0, 1, 1), prefix: 24 } },
    ];
    let r = determine_receiving_interface(IpAddress::V4(ipv4(10, 0, 1, 9)), &local).unwrap();
    assert_eq!(r.0, "10.0.1.1");
    let r = determine_receiving_interface(IpAddress::V4(ipv4(172, 16, 0, 9)), &local).unwrap();
    assert_eq!(r.0, "10.0.0.1");
}

#[test]
fn encryption_roundtrip() {
    let key = [7u8; 32];
    let c = encrypt(b"hello routers", &key).unwrap();
    assert_eq!(c.len(), 16 + 16);
    assert_ne!(&c[16..], b"hello routers");
    assert_eq!(decrypt(&c, &key).unwrap(), b"hello routers".to_vec());
    let c2 = encrypt(b"hello routers", &key).unwrap();
    assert_ne!(c, c2);
}

#[test]
fn encryption_errors() {
    match encrypt(b"x", &[1u8; 16]) {
        Err(AppError::CryptoError(m)) => assert_eq!(m, "La clé doit faire 32 octets"),
        _ => panic!("short key"),
    }
    match decrypt(&[0u8; 10], &[1u8; 32]) {
        Err(AppError::CryptoError(m)) => assert_eq!(m, "Ciphertext trop court pour contenir l'IV"),
        _ => panic!("short ciphertext"),
    }
    match decrypt(&[0u8; 20], &[1u8; 32]) {
        Err(AppError::CryptoError(m)) => assert!(m.starts_with("Erreur de déchiffrement: ")),
        _ => panic!("bad ciphertext"),
    }
}

#[test]
fn text_helpers() {
    assert_eq!(join(&vec!["a".to_string(), "b".to_string()], ", "), "a, b");
    assert_eq!(join(&vec![], ", "), "");
    assert_eq!(pad_right("ab", 4), "ab  ");
    assert_eq!(pad_right("abcdef", 4), "abcdef");
}

#[test]
fn route_costs_are_symmetric_and_an_added_link_never_raises_them() {
    let mut t = NetworkTopology::new();
    for r in ["A", "B", "C"] {
        t.add_router(r.to_string(), vec![]);
    }
    t.add_link("A".to_string(), "B".to_string(), 100, true);
    t.add_link("B".to_string(), "C".to_string(), 10, true);
    let ab = t.calculate_shortest_paths("A");
    let from_c = t.calculate_shortest_paths("C");
    let a_to_c = ab.iter().find(|r| r.destination == "C").unwrap().total_cost;
    let c_to_a = from_c.iter().find(|r| r.destination == "A").unwrap().total_cost;
    assert_eq!(a_to_c, 11);
    assert_eq!(a_to_c, c_to_a);
    t.add_link("A".to_string(), "C".to_string(), 100, true);
    let again = t.calculate_shortest_paths("A");
    assert_eq!(again.iter().find(|r| r.destination == "C").unwrap().total_cost, 1);
    assert_eq!(again.iter().find(|r| r.destination == "B").unwrap().total_cost, 1);
}

#[test]
fn among_equal_costs_the_fewest_hops_win() {
    let mut t = NetworkTopology::new();
    for r in ["A", "B", "C", "D", "X"] {
        t.add_router(r.to_string(), vec![]);
    }
    t.add_link("A".to_string(), "C".to_string(), 100, true);
    t.add_link("C".to_string(), "D".to_string(), 100, true);
    t.add_link("D".to_string(), "X".to_string(), 20, true);
    t.add_link("A".to_string(), "B".to_string(), 16, true);
    t.add_link("B".to_string(), "X".to_string(), 100, true);
    let r = t.calculate_shortest_paths("A");
    let x = r.iter().find(|r| r.destination == "X").unwrap();
    assert_eq!(x.total_cost, 7);
    assert_eq!(x.hop_count, 2);
    assert_eq!(x.path, vec!["A".to_string(), "B".to_string(), "X".to_string()]);
    assert_eq!(x.next_hop, "B");
}
