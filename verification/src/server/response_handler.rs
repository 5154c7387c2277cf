use vstd::prelude::*;
use crate::protocol::message_types::{ProtocolMessage, ServerHello, RouteResponse, LinkStateUpdate};
use crate::routing_core::routing_table::{Route, RoutingTable, RouteV};
use crate::routing_core::neighbor_discovery::{Neighbor, NeighborDiscovery};
use crate::net_utils::IpAddress;
use crate::text::concat;

verus! {

/// A request to the server is a protocol message.
pub type RequestMessage = ProtocolMessage;

/// What the server answers or is told.
#[derive(Debug)]
pub enum ResponseMessage {
    UpdateRoutingTable(Vec<Route>),
    NeighborList(Vec<Neighbor>),
    Error(String),
    Acknowledgment,
}

/// The HELLO sent in answer to a router.
pub fn hello_response(router_id: String, now: u64) -> (m: ProtocolMessage)
    ensures
        m matches ProtocolMessage::Hello(h) && h.router_id@ == router_id@ && h.sequence_number == 1 && h.timestamp == now,
{
    ProtocolMessage::Hello(ServerHello { router_id, sequence_number: 1, timestamp: now })
}

/// The route response sent for a route.
pub fn route_response(destination: String, next_hop: String, metric: u32, now: u64) -> (m: ProtocolMessage)
    ensures
        m matches ProtocolMessage::RouteResponse(r) && r.destination@ == destination@ && r.next_hop@ == next_hop@
            && r.metric == metric && r.timestamp == now,
{
    ProtocolMessage::RouteResponse(RouteResponse { destination, next_hop, metric, timestamp: now })
}

/// The message that broadcasts a link-state update.
pub fn link_state_message(link_state: LinkStateUpdate) -> (m: ProtocolMessage)
    ensures
        m == ProtocolMessage::LinkState(link_state),
{
    ProtocolMessage::LinkState(link_state)
}

/// The JSON text of an error answer: `{"error": "<message>"}`, with the
/// message as it is.
pub fn error_response_text(error_msg: &str) -> (r: String)
    ensures
        r@ == "{\"error\": \""@ + error_msg@ + "\"}"@,
{
    let r = concat("{\"error\": \"", error_msg);
    concat(r.as_str(), "\"}")
}

/// The routing table after setting each route of `routes`, in order.
pub open spec fn with_routes(m: Map<Seq<char>, RouteV>, routes: Seq<Route>) -> Map<Seq<char>, RouteV>
    decreases routes.len(),
{
    if routes.len() == 0 {
        m
    } else {
        with_routes(m, routes.drop_last()).insert(routes.last().destination@, routes.last().value())
    }
}

/// The neighbours after recording each of `neighbors`, in order.
pub open spec fn with_neighbors(m: Map<IpAddress, Seq<char>>, neighbors: Seq<Neighbor>) -> Map<IpAddress, Seq<char>>
    decreases neighbors.len(),
{
    if neighbors.len() == 0 {
        m
    } else {
        with_neighbors(m, neighbors.drop_last()).insert(neighbors.last().ip_address, neighbors.last().system_name@)
    }
}

/// The event logged for a response.
pub open spec fn response_log(r: ResponseMessage) -> Option<Seq<char>> {
    match r {
        ResponseMessage::UpdateRoutingTable(_) => Some("Routing table updated with new routes."@),
        ResponseMessage::NeighborList(_) => Some("Neighbor list updated."@),
        ResponseMessage::Error(m) => Some("Error received: "@ + m@),
        ResponseMessage::Acknowledgment => None,
    }
}

/// Applies a response: its routes go into the routing table, its
/// neighbours into the neighbour list; an error or an acknowledgment
/// changes nothing.  The result is the event to log.
pub fn handle_response(
    response: ResponseMessage,
    routing_table: &mut RoutingTable,
    neighbor_discovery: &mut NeighborDiscovery,
) -> (log: Option<String>)
    requires
        old(routing_table).wf(),
        old(neighbor_discovery).wf(),
    ensures
        final(routing_table).wf(),
        final(neighbor_discovery).wf(),
        final(routing_table)@ == match response {
            ResponseMessage::UpdateRoutingTable(routes) => with_routes(old(routing_table)@, routes@),
            _ => old(routing_table)@,
        },
        final(neighbor_discovery)@ == match response {
            ResponseMessage::NeighborList(ns) => with_neighbors(old(neighbor_discovery)@, ns@),
            _ => old(neighbor_discovery)@,
        },
        match log {
            Some(l) => response_log(response) == Some(l@),
            None => response_log(response) is None,
        },
{
    match response {
        ResponseMessage::UpdateRoutingTable(routes) => {
            let mut i: usize = 0;
            while i < routes.len()
                invariant
                    i <= routes.len(),
                    routing_table.wf(),
                    routing_table@ == with_routes(old(routing_table)@, routes@.take(i as int)),
                decreases routes.len() - i,
            {
                let r = &routes[i];
                assert(routes@.take(i as int + 1).drop_last() =~= routes@.take(i as int));
                routing_table.update_route_at(r.destination.clone(), r.next_hop.clone(), r.metric, r.timestamp);
                i += 1;
            }
            assert(routes@.take(routes.len() as int) =~= routes@);
            Some("Routing table updated with new routes.".to_string())
        },
        ResponseMessage::NeighborList(neighbors) => {
            let mut i: usize = 0;
            while i < neighbors.len()
                invariant
                    i <= neighbors.len(),
                    neighbor_discovery.wf(),
                    neighbor_discovery@ == with_neighbors(old(neighbor_discovery)@, neighbors@.take(i as int)),
                decreases neighbors.len() - i,
            {
                let n = &neighbors[i];
                assert(neighbors@.take(i as int + 1).drop_last() =~= neighbors@.take(i as int));
                neighbor_discovery.add_neighbor(n.ip_address, n.system_name.clone());
                i += 1;
            }
            assert(neighbors@.take(neighbors.len() as int) =~= neighbors@);
            Some("Neighbor list updated.".to_string())
        },
        ResponseMessage::Error(error_msg) => Some(concat("Error received: ", error_msg.as_str())),
        ResponseMessage::Acknowledgment => None,
    }
}

/// Every request is acknowledged.
pub fn send_response(request: &RequestMessage) -> (r: ResponseMessage)
    ensures
        r is Acknowledgment,
{
    ResponseMessage::Acknowledgment
}

} // verus!
