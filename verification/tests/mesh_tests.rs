use routing_project::mesh::{
    LSAMessage, Neighbor, Router, RouteTargetError, check_computable, compute_shortest_paths, hello_message,
    lsa_message, route_target, routing_rows, update_topology,
};

fn nb(id: &str, up: bool, capacity: u32) -> Neighbor {
    Neighbor { neighbor_id: id.to_string(), link_up: up, capacity }
}

fn router(id: &str, neighbors: Vec<Neighbor>) -> Router {
    Router { router_id: id.to_string(), neighbors }
}

fn rows_of(t: &Vec<Router>, source: &str) -> Vec<(String, String, u32)> {
    assert!(check_computable(t, source));
    let table = compute_shortest_paths(t, source);
    routing_rows(&table, source).into_iter().map(|r| (r.destination, r.gateway, r.cost)).collect()
}

#[test]
fn shortest_paths_through_a_cheaper_hop() {
    let t = vec![
        router("A", vec![nb("B", true, 100), nb("C", true, 10)]),
        router("B", vec![nb("C", true, 1000)]),
        router("C", vec![]),
    ];
    assert_eq!(
        rows_of(&t, "A"),
        vec![("B".to_string(), "A".to_string(), 10), ("C".to_string(), "B".to_string(), 11)]
    );
    let table = compute_shortest_paths(&t, "A");
    assert_eq!(table.settled, vec!["A".to_string(), "B".to_string(), "C".to_string()]);
}

#[test]
fn down_links_are_not_followed() {
    let t = vec![router("A", vec![nb("B", false, 100)]), router("B", vec![])];
    assert_eq!(rows_of(&t, "A"), vec![("B".to_string(), "0.0.0.0".to_string(), u32::MAX)]);
}

#[test]
fn settling_stops_after_as_many_nodes_as_routers() {
    let t = vec![
        router("S", vec![nb("X", true, 1000), nb("A", true, 200)]),
        router("A", vec![nb("B", true, 1000)]),
    ];
    assert_eq!(
        rows_of(&t, "S"),
        vec![("A".to_string(), "S".to_string(), 5), ("X".to_string(), "S".to_string(), 1)]
    );
}

#[test]
fn unreached_router_with_free_links_only() {
    let t = vec![router("A", vec![]), router("Z", vec![nb("Y", true, 5000)])];
    assert_eq!(
        rows_of(&t, "A"),
        vec![("Z".to_string(), "0.0.0.0".to_string(), u32::MAX), ("Y".to_string(), "Z".to_string(), u32::MAX)]
    );
}

#[test]
fn computable_refusals() {
    let unreachable_costly = vec![router("A", vec![]), router("Z", vec![nb("Y", true, 100)])];
    assert!(!check_computable(&unreachable_costly, "A"));
    let zero_capacity = vec![router("A", vec![nb("B", true, 0)])];
    assert!(!check_computable(&zero_capacity, "A"));
    let duplicate = vec![router("A", vec![]), router("A", vec![])];
    assert!(!check_computable(&duplicate, "A"));
    let zero_but_down = vec![router("A", vec![nb("B", false, 0)])];
    assert!(check_computable(&zero_but_down, "A"));
}

#[test]
fn topology_update_replaces_or_adds() {
    let mut t = vec![router("A", vec![])];
    let lsa = LSAMessage { message_type: 2, router_id: "A".to_string(), neighbor_count: 1, neighbors: vec![nb("B", true, 10)] };
    update_topology(&mut t, lsa);
    assert_eq!(t.len(), 1);
    assert_eq!(t[0].neighbors.len(), 1);
    update_topology(&mut t, lsa_message("C"));
    assert_eq!(t.len(), 2);
    assert_eq!(t[1].router_id, "C");
    assert_eq!(t[1].neighbors[0].neighbor_id, "192.168.1.1");
}

#[test]
fn mesh_messages() {
    let h = hello_message("10.0.0.1");
    assert_eq!((h.message_type, h.router_id.as_str()), (1, "10.0.0.1"));
    let l = lsa_message("10.0.0.1");
    assert_eq!((l.message_type, l.neighbor_count), (2, 1));
    assert!(l.neighbors[0].link_up);
    assert_eq!(l.neighbors[0].capacity, 100);
}

#[test]
fn route_targets() {
    assert_eq!(route_target("10.0.0.2", "10.0.0.1"), Ok((0x0a00_0002, 0x0a00_0001)));
    assert_eq!(route_target("B", "10.0.0.1"), Err(RouteTargetError::InvalidDestination));
    assert_eq!(route_target("10.0.0.2", "0.0.0.0/8"), Err(RouteTargetError::InvalidGateway));
}

#[test]
fn every_reached_node_has_its_gateway() {
    let t = vec![
        router("A", vec![nb("B", true, 100), nb("C", true, 10)]),
        router("B", vec![nb("C", true, 1000)]),
        router("C", vec![]),
    ];
    let table = compute_shortest_paths(&t, "A");
    let a = table.nodes.iter().find(|n| n.id == "A").unwrap();
    assert_eq!((a.cost, a.prev.clone()), (0, None));
    let b = table.nodes.iter().find(|n| n.id == "B").unwrap();
    assert_eq!((b.cost, b.prev.clone()), (10, Some("A".to_string())));
    let c = table.nodes.iter().find(|n| n.id == "C").unwrap();
    assert_eq!((c.cost, c.prev.clone()), (11, Some("B".to_string())));
}

#[test]
fn unreached_routers_that_are_never_settled_are_accepted() {
    let t = vec![
        router("S", vec![nb("X", true, 2000)]),
        router("U", vec![nb("V", true, 10), nb("W", true, 0)]),
    ];
    assert!(check_computable(&t, "S"));
    let table = compute_shortest_paths(&t, "S");
    assert_eq!(table.settled, vec!["S".to_string(), "X".to_string()]);
    let u = table.nodes.iter().find(|n| n.id == "U").unwrap();
    assert_eq!(u.cost, u32::MAX);
    let x = table.nodes.iter().find(|n| n.id == "X").unwrap();
    assert_eq!((x.cost, x.prev.clone()), (0, Some("S".to_string())));
}
