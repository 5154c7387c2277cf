use routing_project::ospf::types::{
    HelloPacket, LSAHeader, Link, LinkState, OSPFMessage, RouterConfig, RouterLSA, RouterLSALink, RoutingEntry,
};
use routing_project::ospf::protocol::{OSPFProtocol, build_routing_table};
use routing_project::ospf::manager::{
    LegacyCommand, ManagerError, format_routing_table, handle_legacy_message_at, parse_legacy_message,
    process_ospf_message_at,
};
use routing_project::net_utils::{IpAddress, SocketAddress};

fn ipv4(a: u32, b: u32, c: u32, d: u32) -> u32 {
    (a << 24) | (b << 16) | (c << 8) | d
}

fn config(id: u32) -> RouterConfig {
    RouterConfig { router_id: id, name: "r".to_string(), hello_interval: 10, dead_interval: 40, lsa_refresh_interval: 30 }
}

fn hello(from: u32, heard: Vec<u32>) -> HelloPacket {
    HelloPacket { router_id: from, area_id: 0, hello_interval: 10, dead_interval: 40, neighbors: heard, timestamp: 1 }
}

fn lsa(adv: u32, seq: u32, links: Vec<(u32, u32)>) -> RouterLSA {
    let links: Vec<RouterLSALink> = links
        .into_iter()
        .map(|(id, metric)| RouterLSALink { link_id: id, link_data: id, link_type: 1, num_metrics: 0, metric })
        .collect();
    RouterLSA {
        header: LSAHeader {
            lsa_type: 1,
            link_state_id: adv,
            advertising_router: adv,
            sequence_number: seq,
            age: 0,
            checksum: 0,
            length: 0,
        },
        flags: 0,
        num_links: links.len() as u16,
        links,
    }
}

fn link(to: u32, cost: u32, state: LinkState) -> Link {
    Link { neighbor_id: to, interface_addr: to, cost, capacity: 100, state, last_hello: 0 }
}

#[test]
fn hello_adds_a_neighbour_heard_on_ipv4() {
    let mut p = OSPFProtocol::new(config(1));
    p.process_hello_at(&hello(2, vec![]), IpAddress::V4(ipv4(10, 0, 0, 2)), 100);
    let plan = p.send_hello_packets_at(200);
    assert_eq!(plan.packet.router_id, 1);
    assert_eq!(plan.packet.area_id, 0);
    assert_eq!(plan.packet.hello_interval, 10);
    assert_eq!(plan.packet.dead_interval, 40);
    assert_eq!(plan.packet.neighbors, vec![2]);
    assert_eq!(plan.packet.timestamp, 200);
    assert_eq!(plan.unicast, vec![SocketAddress { ip: ipv4(10, 0, 0, 2), port: 8080 }]);
    assert_eq!(
        plan.multicast,
        vec![SocketAddress { ip: ipv4(224, 0, 0, 5), port: 8080 }, SocketAddress { ip: ipv4(224, 0, 0, 6), port: 8080 }]
    );
}

#[test]
fn hello_from_ipv6_changes_nothing() {
    let mut p = OSPFProtocol::new(config(1));
    p.process_hello_at(&hello(2, vec![1]), IpAddress::V6(1), 100);
    assert!(p.send_hello_packets_at(1).packet.neighbors.is_empty());
}

#[test]
fn hello_brings_the_link_up() {
    let mut p = OSPFProtocol::new(config(1));
    p.add_link(2, link(2, 5, LinkState::Down));
    assert_eq!(p.find_next_hop(9), None);
    p.process_hello_at(&hello(2, vec![1]), IpAddress::V4(ipv4(10, 0, 0, 2)), 100);
    assert_eq!(p.find_next_hop(9), Some(2));
    let own = p.generate_and_flood_lsa();
    assert_eq!(own.links.len(), 1);
    assert_eq!(own.links[0].link_id, 2);
    assert_eq!(own.links[0].metric, 5);
}

#[test]
fn own_lsa_lists_up_links_and_advances_the_sequence() {
    let mut p = OSPFProtocol::new(config(7));
    p.add_link(2, link(2, 5, LinkState::Up));
    p.add_link(3, link(3, 1, LinkState::Down));
    let first = p.generate_and_flood_lsa();
    assert_eq!(first.header.lsa_type, 1);
    assert_eq!(first.header.advertising_router, 7);
    assert_eq!(first.header.link_state_id, 7);
    assert_eq!(first.header.sequence_number, 1);
    assert_eq!(first.num_links, 1);
    assert_eq!(first.links, vec![RouterLSALink { link_id: 2, link_data: 2, link_type: 1, num_metrics: 0, metric: 5 }]);
    let second = p.generate_and_flood_lsa();
    assert_eq!(second.header.sequence_number, 2);
}

#[test]
fn routing_table_from_the_lsa_database() {
    let mut p = OSPFProtocol::new(config(1));
    p.add_link(2, link(2, 5, LinkState::Up));
    let _ = p.generate_and_flood_lsa();
    p.process_lsa(lsa(2, 1, vec![(1, 5), (3, 2)]));
    p.process_lsa(lsa(3, 1, vec![(2, 2)]));
    let t = p.get_routing_table();
    assert_eq!(t.len(), 2);
    assert_eq!((t[0].destination, t[0].next_hop, t[0].cost, t[0].interface.as_str()), (2, 2, 5, "eth0"));
    assert_eq!((t[1].destination, t[1].next_hop, t[1].cost, t[1].interface.as_str()), (3, 2, 7, "eth0"));
}

#[test]
fn older_lsa_is_ignored() {
    let mut p = OSPFProtocol::new(config(1));
    p.add_link(2, link(2, 5, LinkState::Up));
    let _ = p.generate_and_flood_lsa();
    p.process_lsa(lsa(2, 4, vec![(1, 5)]));
    assert_eq!(p.get_routing_table()[0].cost, 5);
    p.process_lsa(lsa(2, 4, vec![(1, 1)]));
    p.process_lsa(lsa(2, 3, vec![(1, 1)]));
    p.process_lsa(lsa(3, 1, vec![(2, 2)]));
    let t = p.get_routing_table();
    assert_eq!(t.len(), 2);
    assert_eq!((t[0].destination, t[0].cost), (2, 5));
    assert_eq!((t[1].destination, t[1].cost), (3, 7));
    p.process_lsa(lsa(2, 5, vec![(1, 1)]));
    let t = p.get_routing_table();
    assert_eq!((t[0].destination, t[0].cost), (2, 1));
    assert_eq!((t[1].destination, t[1].cost), (3, 3));
}

#[test]
fn unreached_routers_get_no_route() {
    let mut p = OSPFProtocol::new(config(1));
    p.process_lsa(lsa(5, 1, vec![(6, 1)]));
    p.process_lsa(lsa(6, 1, vec![(5, 1)]));
    assert!(p.get_routing_table().is_empty());
}

#[test]
fn next_hop_falls_back_to_the_destination() {
    let entries = build_routing_table(&vec![1, 2, 3], 1, &vec![Some(0), Some(4), None], None);
    assert_eq!(entries.len(), 1);
    assert_eq!((entries[0].destination, entries[0].next_hop, entries[0].cost), (2, 2, 4));
}

#[test]
fn dead_neighbours_are_dropped_and_their_links_go_down() {
    let mut p = OSPFProtocol::new(config(1));
    p.add_link(2, link(2, 5, LinkState::Up));
    p.add_link(3, link(3, 5, LinkState::Up));
    p.process_hello_at(&hello(2, vec![]), IpAddress::V4(2), 100);
    p.process_hello_at(&hello(3, vec![]), IpAddress::V4(3), 130);
    p.cleanup_dead_neighbors_at(150);
    assert_eq!(p.send_hello_packets_at(150).packet.neighbors, vec![3]);
    assert_eq!(p.find_next_hop(0), Some(3));
    let own = p.generate_and_flood_lsa();
    assert_eq!(own.links.len(), 1);
    assert_eq!(own.links[0].link_id, 3);
}

#[test]
fn legacy_command_parsing() {
    assert_eq!(
        parse_legacy_message(b"  10.0.0.2 5 100 Up extra "),
        Ok(Some(LegacyCommand { neighbor_ip: ipv4(10, 0, 0, 2), cost: 5, capacity: 100, state: LinkState::Up }))
    );
    assert_eq!(
        parse_legacy_message(b"10.0.0.2 5 100 Inactive"),
        Ok(Some(LegacyCommand { neighbor_ip: ipv4(10, 0, 0, 2), cost: 5, capacity: 100, state: LinkState::Down }))
    );
    assert_eq!(parse_legacy_message(b"10.0.0.2 5 Active").map(|c| c.is_none()), Ok(true));
    assert_eq!(parse_legacy_message(b"host 5 100 Up"), Err(ManagerError::InvalidAddress));
    assert_eq!(parse_legacy_message(b"10.0.0.2 -5 100 Up"), Err(ManagerError::InvalidCost));
    assert_eq!(parse_legacy_message(b"10.0.0.2 5 lots Up"), Err(ManagerError::InvalidCapacity));
    assert_eq!(parse_legacy_message(&[0xff, 0x20]), Err(ManagerError::InvalidUtf8));
}

#[test]
fn legacy_command_number_limits() {
    assert_eq!(
        parse_legacy_message(b"10.0.0.2\t+42\n4294967296 Down"),
        Ok(Some(LegacyCommand { neighbor_ip: ipv4(10, 0, 0, 2), cost: 42, capacity: 4294967296, state: LinkState::Down }))
    );
    assert_eq!(parse_legacy_message(b"10.0.0.2 4294967296 1 Up"), Err(ManagerError::InvalidCost));
    assert_eq!(parse_legacy_message(b"10.0.0.2 4294967295 18446744073709551616 Up"), Err(ManagerError::InvalidCapacity));
    assert_eq!(parse_legacy_message(b"10.0.0.2 5 100"), Ok(None));
}

#[test]
fn routing_table_text() {
    let table = vec![RoutingEntry { destination: ipv4(10, 0, 0, 2), next_hop: ipv4(10, 0, 0, 3), cost: 5, interface: "eth0".to_string() }];
    assert_eq!(
        format_routing_table(&table),
        "=== Table de Routage ===\n\
         Destination     | Next Hop       | Cost | Interface\n\
         ----------------|----------------|------|----------\n\
         10.0.0.2        | 10.0.0.3       | 5    | eth0\n"
    );
}

#[test]
fn legacy_message_adds_the_link_and_answers_the_table() {
    let mut p = OSPFProtocol::new(config(1));
    let _ = p.generate_and_flood_lsa();
    p.process_lsa(lsa(2, 1, vec![(1, 3)]));
    let text = handle_legacy_message_at(&mut p, b"0.0.0.2 3 100 Up", 50).unwrap().unwrap();
    assert_eq!(
        text,
        "=== Table de Routage ===\n\
         Destination     | Next Hop       | Cost | Interface\n\
         ----------------|----------------|------|----------\n\
         0.0.0.2         | 0.0.0.2        | 3    | eth0\n"
    );
    assert_eq!(p.find_next_hop(0), Some(2));
    assert!(handle_legacy_message_at(&mut p, b"0.0.0.2 3", 50).unwrap().is_none());
}

#[test]
fn acknowledgments_are_only_shown() {
    let mut p = OSPFProtocol::new(config(1));
    let ack = process_ospf_message_at(&mut p, OSPFMessage::LSAck(vec![]), IpAddress::V4(2), 1);
    assert_eq!(ack.as_deref(), Some("Réception LSA ACK"));
    let none = process_ospf_message_at(&mut p, OSPFMessage::Hello(hello(2, vec![])), IpAddress::V4(2), 1);
    assert!(none.is_none());
    assert_eq!(p.send_hello_packets_at(1).packet.neighbors, vec![2]);
}

#[test]
fn large_metrics_away_from_the_router_are_accepted() {
    let mut p = OSPFProtocol::new(config(1));
    let far = lsa(5, 1, vec![(6, 3_000_000_000)]);
    assert!(p.lsa_fits(&far));
    p.process_lsa(far);
    let back = lsa(6, 1, vec![(5, 3_000_000_000)]);
    assert!(p.lsa_fits(&back));
    p.process_lsa(back);
    assert!(p.metrics_fit());
    assert!(p.get_routing_table().is_empty());
}

#[test]
fn distances_up_to_the_u32_limit_are_accepted() {
    let mut p = OSPFProtocol::new(config(1));
    p.add_link(2, link(2, 4_000_000_000, LinkState::Up));
    let _ = p.generate_and_flood_lsa();
    assert!(p.metrics_fit());
    let l2 = lsa(2, 1, vec![(1, 4_000_000_000), (3, 294_967_295)]);
    assert!(p.lsa_fits(&l2));
    p.process_lsa(l2);
    let l3 = lsa(3, 1, vec![(2, 294_967_295)]);
    assert!(p.lsa_fits(&l3));
    p.process_lsa(l3);
    let t = p.get_routing_table();
    assert_eq!(t.len(), 2);
    assert_eq!((t[0].destination, t[0].cost), (2, 4_000_000_000));
    assert_eq!((t[1].destination, t[1].cost), (3, 4_294_967_295));
    let over = lsa(4, 1, vec![(3, 1)]);
    assert!(!p.lsa_fits(&over));
    let stale = lsa(3, 1, vec![(4, 1)]);
    assert!(p.lsa_fits(&stale));
}
