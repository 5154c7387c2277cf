use routing_project::types::{AdvertisedRoute, InterfaceState, LSAMessage, LsdbEntry, Neighbor, RouteEntry, RouteState, Router};
use routing_project::read_config::{InterfaceConfig, RouterConfig, config_path, default_link_active, hostname_prefix};
use routing_project::lsa::{
    RouteDecision, build_lsa, forward_plan, poisoned_route_lsa, route_install_decision, set_route_state, update_topology,
    INITIAL_TTL,
};
use routing_project::neighbor::{
    Redundancy, check_neighbor_timeouts, get_interface_info_for_neighbor, interface_report, update_neighbor,
};
use routing_project::state::init_state;
use routing_project::dijkstra::calculate_optimal_routes;
use routing_project::packet_loop::{Action, Incoming, neighbors_text, route_state_text, routing_table_text};
use routing_project::net_utils::{IpAddress, IpNet, LocalAddress, SocketAddress};
use routing_project::error::AppError;
use routing_project::interface_test::{display_all_interface_costs, interface_states};

fn ipv4(a: u32, b: u32, c: u32, d: u32) -> u32 {
    (a << 24) | (b << 16) | (c << 8) | d
}

fn iface(name: &str, capacity_mbps: u32, link_active: bool) -> InterfaceConfig {
    InterfaceConfig { name: name.to_string(), capacity_mbps, link_active }
}

fn neighbor(ip: &str, last_seen: u64) -> Neighbor {
    Neighbor { neighbor_ip: ip.to_string(), link_up: true, capacity: 100, last_seen }
}

fn config() -> RouterConfig {
    RouterConfig { interfaces: vec![iface("eth0", 100, true)], key: None }
}

fn lsa(originator: &str, seq: u32, path: Vec<&str>, ttl: u8) -> LSAMessage {
    LSAMessage {
        message_type: 2,
        router_ip: originator.to_string(),
        last_hop: None,
        originator: originator.to_string(),
        seq_num: seq,
        neighbor_count: 0,
        neighbors: vec![],
        routing_table: vec![],
        path: path.into_iter().map(|s| s.to_string()).collect(),
        ttl,
    }
}

#[test]
fn neighbour_update_and_timeout() {
    let ifs = vec![iface("eth0", 10, false), iface("eth1", 1000, true)];
    assert_eq!(get_interface_info_for_neighbor(&ifs), (1000, true));
    assert_eq!(get_interface_info_for_neighbor(&vec![iface("a", 7, false)]), (7, false));
    assert_eq!(get_interface_info_for_neighbor(&vec![]), (100, false));
    let mut ns = vec![];
    update_neighbor(&mut ns, "10.0.0.2", 5, &ifs);
    update_neighbor(&mut ns, "10.0.0.3", 6, &ifs);
    update_neighbor(&mut ns, "10.0.0.2", 50, &ifs);
    assert_eq!(ns.len(), 2);
    assert_eq!(ns[0].last_seen, 50);
    assert_eq!(ns[0].capacity, 1000);
    assert!(check_neighbor_timeouts(&mut ns, 58));
    assert!(ns[0].link_up);
    assert!(!ns[1].link_up);
    assert!(!check_neighbor_timeouts(&mut ns, 58));
    assert!(check_neighbor_timeouts(&mut ns, 59));
    assert!(!ns[0].link_up);
}

#[test]
fn neighbour_silent_for_thirty_seconds_goes_down() {
    let ifs = vec![iface("eth0", 100, true)];
    let mut ns = vec![];
    update_neighbor(&mut ns, "10.0.0.2", 70, &ifs);
    assert!(check_neighbor_timeouts(&mut ns, 100));
    assert!(!ns[0].link_up);
}

#[test]
fn interface_report_counts_active_interfaces() {
    let r = interface_report(&vec![iface("a", 100, true), iface("b", 10, false), iface("c", 1000, true)]);
    assert_eq!(r.total_interfaces, 3);
    assert_eq!(r.active_interfaces, 2);
    assert_eq!(r.total_capacity_mbps, 1100);
    assert_eq!(r.redundancy, Redundancy::Redundant);
    assert_eq!(r.rows[0].cost, 1);
    assert_eq!(r.rows[1].cost, u32::MAX);
    assert_eq!(interface_report(&vec![iface("a", 100, true)]).redundancy, Redundancy::Single);
    assert_eq!(interface_report(&vec![]).redundancy, Redundancy::Isolated);
}

#[test]
fn interface_cost_table_follows_the_documentation() {
    assert_eq!(display_all_interface_costs(), vec![(10, 10), (100, 1), (500, 1), (1000, 1), (10000, 1)]);
    let s = interface_states(&vec![iface("eth0", 10, true), iface("eth1", 100, false)]);
    assert_eq!(s, vec![("eth0".to_string(), Some(10)), ("eth1".to_string(), None)]);
}

#[test]
fn interface_state_cost_and_link_changes() {
    let mut s = InterfaceState::new("eth0".to_string(), 10, true);
    assert!(s.is_link_up());
    assert_eq!(s.get_ospf_cost(), 10);
    s.set_link_state(false);
    assert!(!s.is_link_up());
    assert_eq!(s.get_ospf_cost(), u32::MAX);
    assert_eq!(InterfaceState::new("z".to_string(), 0, true).get_ospf_cost(), u32::MAX);
}

#[test]
fn route_states_by_prefix() {
    let mut routes = vec![];
    set_route_state(&mut routes, "10.0.0.0/24".to_string(), RouteState::Active(3));
    set_route_state(&mut routes, "10.0.1.0/24".to_string(), RouteState::Unreachable);
    set_route_state(&mut routes, "10.0.0.0/24".to_string(), RouteState::Active(5));
    assert_eq!(routes.len(), 2);
    assert_eq!(routes[0].state, RouteState::Active(5));
}

#[test]
fn lsa_advertises_routes_and_local_networks() {
    let ns = vec![neighbor("10.0.0.2", 1)];
    let table = vec![RouteEntry {
        destination: "10.1.0.0/16".to_string(),
        next_hop: "10.0.0.2".to_string(),
        state: RouteState::Active(4),
    }];
    let local = vec![IpNet::V4 { addr: ipv4(192, 168, 1, 1), prefix: 24 }];
    let m = build_lsa("10.0.0.1", None, "10.0.0.1", 7, vec!["10.0.0.1".to_string()], &ns, &table, &local);
    assert_eq!(m.message_type, 2);
    assert_eq!(m.seq_num, 7);
    assert_eq!(m.ttl, INITIAL_TTL);
    assert_eq!(m.neighbor_count, 1);
    assert!(m.routing_table.iter().any(|r| r.prefix == "10.1.0.0/16" && r.state == RouteState::Active(4)));
    assert!(m.routing_table.iter().any(|r| r.prefix == "192.168.1.1/24" && r.state == RouteState::Active(0)));
    assert!(m.routing_table.iter().any(|r| r.prefix == "0.0.0.0/0" && r.state == RouteState::Active(20)));
}

#[test]
fn forwarding_extends_the_path_and_spends_ttl() {
    let original = lsa("10.0.0.9", 1, vec!["10.0.0.9"], 5);
    let ns = vec![neighbor("10.0.0.9", 1), neighbor("10.0.0.3", 1)];
    let plan = forward_plan("10.0.0.1", &original, vec!["10.0.0.9".to_string()], &ns).unwrap();
    assert_eq!(plan.message.ttl, 4);
    assert_eq!(plan.message.path, vec!["10.0.0.9".to_string(), "10.0.0.1".to_string()]);
    assert_eq!(plan.targets, vec!["10.0.0.3".to_string()]);
    let dying = lsa("10.0.0.9", 1, vec![], 1);
    assert!(forward_plan("10.0.0.1", &dying, vec![], &ns).is_none());
}

#[test]
fn poisoned_route_marks_the_prefix_unreachable() {
    let m = poisoned_route_lsa("10.0.0.1", "10.9.0.0/16", 3, vec![]);
    assert_eq!(m.routing_table.len(), 1);
    assert_eq!(m.routing_table[0].prefix, "10.9.0.0/16");
    assert_eq!(m.routing_table[0].state, RouteState::Unreachable);
    assert_eq!(m.neighbor_count, 0);
}

#[test]
fn topology_keeps_the_latest_lsa_per_originator() {
    let mut db: Vec<LsdbEntry> = vec![];
    update_topology(&mut db, &lsa("R1", 1, vec![], 64));
    update_topology(&mut db, &lsa("R2", 1, vec![], 64));
    update_topology(&mut db, &lsa("R1", 2, vec![], 64));
    assert_eq!(db.len(), 2);
    assert_eq!(db[0].router.last_lsa.as_ref().map(|l| l.seq_num), Some(2));
    assert!(Router::new().last_lsa.is_none());
}

#[test]
fn route_installation_decisions() {
    let local = vec![IpNet::V4 { addr: ipv4(10, 0, 0, 1), prefix: 24 }];
    assert_eq!(route_install_decision("10.1.0.0", "10.0.0.2", &local).ok(), Some(RouteDecision::Skip));
    assert_eq!(
        route_install_decision("10.1.0.0/16", "10.0.0.2", &local).ok(),
        Some(RouteDecision::Install { network: ipv4(10, 1, 0, 0), prefix: 16, gateway: ipv4(10, 0, 0, 2) })
    );
    assert_eq!(route_install_decision("10.0.0.0/24", "10.0.0.2", &local).ok(), Some(RouteDecision::Skip));
    assert_eq!(
        route_install_decision("10.1.200.9/16", "10.0.0.2", &local).ok(),
        Some(RouteDecision::Install { network: ipv4(10, 1, 0, 0), prefix: 16, gateway: ipv4(10, 0, 0, 2) })
    );
    assert_eq!(route_install_decision("10.1.0.0/16", "172.16.0.1", &local).ok(), Some(RouteDecision::Skip));
    assert_eq!(route_install_decision("10.1.0.0/16", "127.0.0.1", &local).ok(), Some(RouteDecision::Skip));
    match route_install_decision("10.1.0.0/16", "gw", &local) {
        Err(AppError::RouteError(m)) => assert_eq!(m, "Invalid gateway IP gw: invalid IPv4 address syntax"),
        _ => panic!("bad gateway"),
    }
    match route_install_decision("x/16", "10.0.0.2", &local) {
        Err(AppError::RouteError(m)) => assert!(m.starts_with("Invalid destination network x/16: ")),
        _ => panic!("bad destination"),
    }
}

#[test]
fn control_texts() {
    assert_eq!(route_state_text(RouteState::Active(12)), "Active(12)");
    assert_eq!(route_state_text(RouteState::Unreachable), "Unreachable");
    assert_eq!(routing_table_text(&vec![]), "Table de routage vide");
    let t = vec![
        RouteEntry { destination: "a".to_string(), next_hop: "b".to_string(), state: RouteState::Active(1) },
        RouteEntry { destination: "c".to_string(), next_hop: "d".to_string(), state: RouteState::Unreachable },
    ];
    assert_eq!(routing_table_text(&t), "a -> b (Active(1))\nc -> d (Unreachable)");
    assert_eq!(neighbors_text(&vec![], 5), "Aucun voisin détecté");
    assert_eq!(
        neighbors_text(&vec![neighbor("10.0.0.2", 90), neighbor("10.0.0.3", 120)], 100),
        "10.0.0.2 (dernière activité: il y a 10 secondes)\n10.0.0.3 (dernière activité: il y a 0 secondes)"
    );
}

#[test]
fn control_commands_switch_the_protocol() {
    let mut s = init_state("10.0.0.1".to_string(), config(), vec![]);
    assert!(s.is_enabled());
    let acts = s.handle_control(Some(&"disable".to_string()), 1);
    assert!(matches!(&acts[0], Action::Reply(t) if t == "Protocole OSPF désactivé"));
    assert!(!s.is_enabled());
    let acts = s.handle_control(Some(&"enable".to_string()), 1);
    assert!(matches!(&acts[0], Action::Reply(t) if t == "Protocole OSPF activé"));
    let acts = s.handle_control(Some(&"foo".to_string()), 1);
    assert!(matches!(&acts[0], Action::Reply(t)
        if t == "Commande inconnue: 'foo'. Utilisez 'help' pour voir les commandes disponibles."));
    let acts = s.handle_control(None, 1);
    assert!(matches!(&acts[0], Action::Reply(t) if t == "Erreur: message de contrôle sans commande"));
    s.disable();
    assert!(!s.is_enabled());
    s.enable();
    assert!(s.is_enabled());
}

#[test]
fn hello_is_answered_with_an_lsa_broadcast() {
    let mut s = init_state("10.0.0.1".to_string(), config(), vec![]);
    let net = IpNet::V4 { addr: ipv4(10, 0, 0, 1), prefix: 24 };
    let acts = s.handle_hello("10.0.0.2", net, 1000, 5000);
    assert_eq!(acts.len(), 2);
    assert!(matches!(acts[0], Action::RecomputeRoutes { delayed: true }));
    match &acts[1] {
        Action::SendLsa { addr, router_ip, originator, seq_num, path } => {
            assert_eq!(*addr, SocketAddress { ip: ipv4(10, 0, 0, 255), port: 5000 });
            assert_eq!(router_ip, "10.0.0.1/24");
            assert_eq!(originator, "10.0.0.1/24");
            assert_eq!(*seq_num, 1000);
            assert_eq!(path, &vec!["10.0.0.1/24".to_string()]);
        }
        _ => panic!("an LSA is sent"),
    }
    assert_eq!(s.neighbors.len(), 1);
    s.disable();
    assert!(s.handle_hello("10.0.0.3", net, 1000, 5000).is_empty());
}

#[test]
fn lsa_is_recorded_once_and_forwarded() {
    let mut s = init_state("10.0.0.1".to_string(), config(), vec![]);
    let net = IpNet::V4 { addr: ipv4(10, 0, 0, 1), prefix: 24 };
    let m = lsa("10.0.0.9", 4, vec!["10.0.0.9"], 10);
    let acts = s.handle_lsa(&m, "10.0.0.1", net, 5000);
    assert_eq!(acts.len(), 3);
    assert!(matches!(acts[1], Action::RecordLsa));
    match &acts[2] {
        Action::ForwardLsa { local_ip, path } => {
            assert_eq!(local_ip, "10.0.0.1");
            assert_eq!(path, &vec!["10.0.0.9".to_string(), "10.0.0.1".to_string()]);
        }
        _ => panic!("forwarded"),
    }
    assert!(s.handle_lsa(&m, "10.0.0.1", net, 5000).is_empty());
    let looped = lsa("10.0.0.8", 1, vec!["10.0.0.1"], 10);
    assert!(s.handle_lsa(&looped, "10.0.0.1", net, 5000).is_empty());
    assert_eq!(s.processed_lsa.len(), 2);
}

#[test]
fn datagrams_from_the_router_itself_are_dropped() {
    let mut s = init_state("10.0.0.1".to_string(), config(), vec![]);
    let local = vec![LocalAddress {
        ip: IpAddress::V4(ipv4(10, 0, 0, 1)),
        text: "10.0.0.1".to_string(),
        network: IpNet::V4 { addr: ipv4(10, 0, 0, 1), prefix: 24 },
    }];
    let hello = Incoming::Hello { router_ip: "10.0.0.1".to_string() };
    assert!(s.on_datagram(IpAddress::V4(ipv4(10, 0, 0, 1)), &hello, &local, 1, 5000).is_empty());
    let hello = Incoming::Hello { router_ip: "10.0.0.2".to_string() };
    assert_eq!(s.on_datagram(IpAddress::V4(ipv4(10, 0, 0, 2)), &hello, &local, 1, 5000).len(), 2);
}

#[test]
fn config_paths() {
    assert_eq!(hostname_prefix("r1.lab.local"), "r1");
    assert_eq!(hostname_prefix("r2"), "r2");
    assert_eq!(config_path("r1"), "src/conf/config_r1.toml");
    assert!(default_link_active());
}

#[test]
fn advertised_route_clone_keeps_fields() {
    let a = AdvertisedRoute { prefix: "p".to_string(), state: RouteState::Active(2) };
    let b = a.clone();
    assert_eq!(b.prefix, "p");
    assert_eq!(b.state, RouteState::Active(2));
}

#[test]
fn optimal_routes_are_recomputed_and_listed_for_installation() {
    let lsa_of = |o: &str, routes: Vec<(&str, u32)>| LSAMessage {
        message_type: 2,
        router_ip: o.to_string(),
        last_hop: None,
        originator: o.to_string(),
        seq_num: 1,
        neighbor_count: 0,
        neighbors: vec![],
        routing_table: routes
            .into_iter()
            .map(|(p, m)| AdvertisedRoute { prefix: p.to_string(), state: RouteState::Active(m) })
            .collect(),
        path: vec![],
        ttl: 64,
    };
    let mut s = init_state("10.0.0.1".to_string(), config(), vec![]);
    assert!(calculate_optimal_routes(&mut s).is_none());
    assert!(s.routing_table.is_empty());

    s.neighbors.push(Neighbor { neighbor_ip: "10.0.0.2".to_string(), link_up: true, capacity: 100, last_seen: 0 });
    s.neighbors.push(Neighbor { neighbor_ip: "10.0.0.3".to_string(), link_up: true, capacity: 10, last_seen: 0 });
    s.topology.push(LsdbEntry {
        originator: "10.0.0.2".to_string(),
        router: Router { last_lsa: Some(lsa_of("10.0.0.2", vec![("10.9.0.0/16", 2), ("lo", 1)])) },
    });
    s.topology.push(LsdbEntry {
        originator: "10.0.0.3".to_string(),
        router: Router { last_lsa: Some(lsa_of("10.0.0.3", vec![("10.9.0.0/16", 1)])) },
    });
    let install = calculate_optimal_routes(&mut s).unwrap();
    assert_eq!(install, vec![("10.9.0.0/16".to_string(), "10.0.0.2".to_string())]);
    let e = s.routing_table.iter().find(|e| e.destination == "10.9.0.0/16").unwrap();
    assert_eq!(e.next_hop, "10.0.0.2");
    assert_eq!(e.state, RouteState::Active(3));
    assert!(s.routing_table.iter().any(|e| e.destination == "lo"));
}

#[test]
fn interface_state_records_the_time_of_a_change() {
    let mut s = InterfaceState::new_at("eth0".to_string(), 100, true, 1000);
    assert_eq!(s.last_state_change, 1000);
    s.set_link_state_at(true, 2000);
    assert_eq!(s.last_state_change, 1000);
    s.set_link_state_at(false, 3000);
    assert!(!s.link_active);
    assert_eq!(s.last_state_change, 3000);
}
