use routing_project::protocol::hello_protocol::{HelloMessage, receive_hello_message, send_hello_message};
use routing_project::protocol::packet_parser::{Packet, PacketParser, parse_packet, serialize_packet};
use routing_project::protocol::message_types::{
    LinkInfo, LinkStateUpdate, ProtocolMessage, RouteRequest, RouteResponse, ServerHello,
};
use routing_project::error::ProtocolError;
use routing_project::server::protocol_server::{ServerState, discovery_hello};
use routing_project::server::response_handler::{
    ResponseMessage, error_response_text, handle_response, hello_response, link_state_message, route_response,
    send_response,
};
use routing_project::routing_core::routing_table::{Route, RoutingTable};
use routing_project::routing_core::neighbor_discovery::{Neighbor, NeighborDiscovery};
use routing_project::client::protocol_client::Request;
use routing_project::client::request_handler::process_request;
use routing_project::utils::logger::{log_debug, log_error, log_info};
use routing_project::utils::config::Config;
use routing_project::net_utils::IpAddress;
use routing_project::hello::hello_message;

#[test]
fn hello_serializes_to_twelve_big_endian_bytes() {
    let m = HelloMessage::new(0x0a00_0001, 0x0a00_0002, 0x0102_0304);
    assert_eq!(
        m.serialize(),
        vec![10, 0, 0, 1, 10, 0, 0, 2, 1, 2, 3, 4]
    );
    assert_eq!(send_hello_message(&m), m.serialize());
}

#[test]
fn hello_roundtrip() {
    let m = HelloMessage::new(0xc0a8_0101, 0xc0a8_0102, 77);
    let back = HelloMessage::deserialize(&m.serialize());
    assert_eq!(back, Some(m));
}

#[test]
fn hello_from_bytes_ignores_the_rest() {
    let data = [1u8, 2, 3, 4, 5, 6, 7, 8, 0, 0, 0, 9, 99, 100];
    let m = receive_hello_message(&data).unwrap();
    assert_eq!(m.source_ip, 0x0102_0304);
    assert_eq!(m.neighbor_ip, 0x0506_0708);
    assert_eq!(m.sequence_number, 9);
    assert_eq!(m.serialize(), data[..12].to_vec());
}

#[test]
fn hello_needs_twelve_bytes() {
    assert_eq!(HelloMessage::deserialize(&[0u8; 11]), None);
}

#[test]
fn packet_roundtrip() {
    let p = Packet::new(0x0a00_0001, 0x0a00_0002, vec![7, 8, 9]);
    let bytes = serialize_packet(&p);
    assert_eq!(bytes, vec![10, 0, 0, 1, 10, 0, 0, 2, 7, 8, 9]);
    let q = parse_packet(&bytes).unwrap();
    assert_eq!(q.source_ip, 0x0a00_0001);
    assert_eq!(q.destination_ip, 0x0a00_0002);
    assert_eq!(q.payload, vec![7, 8, 9]);
}

#[test]
fn packet_needs_eight_bytes() {
    assert!(parse_packet(&[1u8, 2, 3, 4, 5, 6, 7]).is_none());
    let p = parse_packet(&[1u8, 2, 3, 4, 5, 6, 7, 8]).unwrap();
    assert!(p.payload.is_empty());
}

#[test]
fn packet_text_refuses_invalid_utf8() {
    match PacketParser::packet_text(&[0xff, 0xfe]) {
        Err(ProtocolError::Protocol(m)) => assert_eq!(m, "Invalid UTF-8 in packet"),
        _ => panic!("invalid UTF-8 is refused"),
    }
    assert_eq!(PacketParser::packet_text("{\"a\":1}".as_bytes()).ok(), Some("{\"a\":1}".to_string()));
}

#[test]
fn validate_message_cases() {
    let ok = ProtocolMessage::Hello(ServerHello { router_id: "r".to_string(), sequence_number: 1, timestamp: 5 });
    let no_time = ProtocolMessage::Hello(ServerHello { router_id: "r".to_string(), sequence_number: 1, timestamp: 0 });
    let no_id = ProtocolMessage::LinkState(LinkStateUpdate { router_id: String::new(), timestamp: 5, links: vec![] });
    let req = ProtocolMessage::RouteRequest(RouteRequest { destination: "d".to_string(), source: String::new() });
    let resp = ProtocolMessage::RouteResponse(RouteResponse {
        destination: "d".to_string(),
        next_hop: "n".to_string(),
        metric: 1,
        timestamp: 0,
    });
    assert!(PacketParser::validate_message(&ok));
    assert!(!PacketParser::validate_message(&no_time));
    assert!(!PacketParser::validate_message(&no_id));
    assert!(!PacketParser::validate_message(&req));
    assert!(PacketParser::validate_message(&resp));
}

#[test]
fn server_records_hello_and_answers_route_requests() {
    let mut s = ServerState::new();
    let sender = IpAddress::V4(0x0a00_0002);
    let hello = ProtocolMessage::Hello(ServerHello { router_id: "R2".to_string(), sequence_number: 1, timestamp: 1 });
    assert!(s.handle_message(hello, sender, 10).is_none());
    assert_eq!(s.neighbor_discovery.get_neighbors()[0].system_name, "R2");

    let unknown = ProtocolMessage::RouteRequest(RouteRequest { destination: "X".to_string(), source: "R2".to_string() });
    assert!(s.handle_message(unknown, sender, 11).is_none());

    let update = ProtocolMessage::LinkState(LinkStateUpdate {
        router_id: "R2".to_string(),
        timestamp: 1,
        links: vec![LinkInfo { neighbor_id: "R3".to_string(), is_active: true, metric: 4 }],
    });
    assert!(s.handle_message(update, sender, 12).is_none());
    let known = ProtocolMessage::RouteRequest(RouteRequest { destination: "R3".to_string(), source: "R2".to_string() });
    match s.handle_message(known, sender, 13) {
        Some(ProtocolMessage::RouteResponse(r)) => {
            assert_eq!(r.destination, "R3");
            assert_eq!(r.next_hop, "R3");
            assert_eq!(r.metric, 4);
            assert_eq!(r.timestamp, 13);
        }
        _ => panic!("a known route is answered"),
    }
}

#[test]
fn server_takes_route_responses() {
    let mut s = ServerState::new();
    let resp = ProtocolMessage::RouteResponse(RouteResponse {
        destination: "D".to_string(),
        next_hop: "N".to_string(),
        metric: 9,
        timestamp: 0,
    });
    assert!(s.handle_message(resp, IpAddress::V4(1), 20).is_none());
    let r = s.routing_table.get_route("D").unwrap();
    assert_eq!(r.next_hop, "N");
    assert_eq!(r.metric, 9);
    assert_eq!(r.timestamp, 20);
}

#[test]
fn discovery_hello_names_the_local_router() {
    match discovery_hello(99) {
        ProtocolMessage::Hello(h) => {
            assert_eq!(h.router_id, "local_router");
            assert_eq!(h.sequence_number, 1);
            assert_eq!(h.timestamp, 99);
        }
        _ => panic!("a HELLO"),
    }
}

#[test]
fn response_messages() {
    match hello_response("R1".to_string(), 5) {
        ProtocolMessage::Hello(h) => assert_eq!((h.router_id.as_str(), h.sequence_number, h.timestamp), ("R1", 1, 5)),
        _ => panic!("a HELLO"),
    }
    match route_response("D".to_string(), "N".to_string(), 3, 6) {
        ProtocolMessage::RouteResponse(r) => assert_eq!((r.metric, r.timestamp), (3, 6)),
        _ => panic!("a route response"),
    }
    let u = LinkStateUpdate { router_id: "R".to_string(), timestamp: 1, links: vec![] };
    assert!(matches!(link_state_message(u), ProtocolMessage::LinkState(_)));
    assert_eq!(error_response_text("boom"), "{\"error\": \"boom\"}");
}

#[test]
fn handle_response_applies_routes_and_neighbours() {
    let mut t = RoutingTable::new();
    let mut d = NeighborDiscovery::new();
    let routes = vec![
        Route { destination: "A".to_string(), next_hop: "B".to_string(), metric: 2, timestamp: 7 },
        Route { destination: "A".to_string(), next_hop: "C".to_string(), metric: 1, timestamp: 8 },
    ];
    let log = handle_response(ResponseMessage::UpdateRoutingTable(routes), &mut t, &mut d);
    assert_eq!(log.as_deref(), Some("Routing table updated with new routes."));
    assert_eq!(t.get_route("A").unwrap().next_hop, "C");
    let ns = vec![Neighbor { ip_address: IpAddress::V4(3), system_name: "N3".to_string() }];
    let log = handle_response(ResponseMessage::NeighborList(ns), &mut t, &mut d);
    assert_eq!(log.as_deref(), Some("Neighbor list updated."));
    assert_eq!(d.get_neighbors().len(), 1);
    let log = handle_response(ResponseMessage::Error("bad".to_string()), &mut t, &mut d);
    assert_eq!(log.as_deref(), Some("Error received: bad"));
    assert!(handle_response(ResponseMessage::Acknowledgment, &mut t, &mut d).is_none());
}

#[test]
fn every_request_is_acknowledged() {
    let req = ProtocolMessage::RouteRequest(RouteRequest { destination: "d".to_string(), source: "s".to_string() });
    assert!(matches!(send_response(&req), ResponseMessage::Acknowledgment));
    let r = process_request(Request { request_type: "x".to_string(), payload: "y".to_string() });
    assert_eq!(r.status, "OK");
    assert_eq!(r.data, "");
}

#[test]
fn log_lines() {
    assert_eq!(log_info("up"), "[INFO] up");
    assert_eq!(log_error("down"), "[ERROR] down");
    assert_eq!(log_debug("x"), "[DEBUG] x");
}

#[test]
fn default_config() {
    let c = Config::default();
    assert_eq!(c.bind_address, "0.0.0.0:8080");
    assert_eq!(c.broadcast_address, "255.255.255.255:8080");
    assert_eq!(c.router_id.len(), 36);
    assert_eq!(c.hello_interval, 30);
    assert_eq!(c.dead_interval, 120);
    assert_ne!(Config::default().router_id, c.router_id);
}

#[test]
fn hello_message_type_one() {
    let m = hello_message("10.0.0.1");
    assert_eq!(m.message_type, 1);
    assert_eq!(m.router_ip, "10.0.0.1");
}
