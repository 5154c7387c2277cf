use vstd::prelude::*;
use crate::protocol::message_types::{ProtocolMessage, ServerHello, RouteResponse};
use crate::routing_core::routing_table::{RoutingTable, RouteV, link_routes};
use crate::routing_core::neighbor_discovery::NeighborDiscovery;
use crate::net_utils::IpAddress;

verus! {

/// What the protocol server knows: its routes and its neighbours.
pub struct ServerState {
    pub routing_table: RoutingTable,
    pub neighbor_discovery: NeighborDiscovery,
}

impl ServerState {
    pub open spec fn wf(&self) -> bool {
        self.routing_table.wf() && self.neighbor_discovery.wf()
    }

    /// No route and no neighbour.
    pub fn new() -> (s: Self)
        ensures
            s.wf(),
            s.routing_table@ == Map::<Seq<char>, RouteV>::empty(),
            s.neighbor_discovery@ == Map::<IpAddress, Seq<char>>::empty(),
    {
        ServerState { routing_table: RoutingTable::new(), neighbor_discovery: NeighborDiscovery::new() }
    }

    /// Handles a message from `sender` at time `now`; the result is the
    /// message to send back to the sender, if any.  A HELLO records the
    /// sender under the router's name; a link-state update sets a route
    /// through each of its active links; a route request is answered with
    /// the route, when there is one; a route response sets that route.
    pub fn handle_message(&mut self, message: ProtocolMessage, sender: IpAddress, now: u64) -> (reply: Option<
        ProtocolMessage,
    >)
        requires
            old(self).wf(),
        ensures
            final(self).wf(),
            match message {
                ProtocolMessage::Hello(h) => final(self).neighbor_discovery@ == old(self).neighbor_discovery@.insert(
                    sender,
                    h.router_id@,
                ) && final(self).routing_table@ == old(self).routing_table@ && reply is None,
                ProtocolMessage::LinkState(l) => final(self).routing_table@ == link_routes(
                    old(self).routing_table@,
                    l.links@,
                    now,
                ) && final(self).neighbor_discovery@ == old(self).neighbor_discovery@ && reply is None,
                ProtocolMessage::RouteRequest(q) => final(self).routing_table@ == old(self).routing_table@
                    && final(self).neighbor_discovery@ == old(self).neighbor_discovery@ && (if old(
                    self,
                ).routing_table@.contains_key(q.destination@) {
                    reply matches Some(ProtocolMessage::RouteResponse(p)) && p.destination@ == q.destination@
                        && p.next_hop@ == old(self).routing_table@[q.destination@].next_hop && p.metric == old(
                        self,
                    ).routing_table@[q.destination@].metric && p.timestamp == now
                } else {
                    reply is None
                }),
                ProtocolMessage::RouteResponse(p) => final(self).routing_table@ == old(self).routing_table@.insert(
                    p.destination@,
                    RouteV { next_hop: p.next_hop@, metric: p.metric, timestamp: now },
                ) && final(self).neighbor_discovery@ == old(self).neighbor_discovery@ && reply is None,
            },
    {
        match message {
            ProtocolMessage::Hello(hello) => {
                self.neighbor_discovery.add_neighbor(sender, hello.router_id);
                None
            },
            ProtocolMessage::LinkState(link_state) => {
                self.routing_table.update_from_link_state_at(link_state, now);
                None
            },
            ProtocolMessage::RouteRequest(request) => {
                match self.routing_table.get_route(request.destination.as_str()) {
                    Some(route) => Some(
                        ProtocolMessage::RouteResponse(
                            RouteResponse {
                                destination: request.destination,
                                next_hop: route.next_hop.clone(),
                                metric: route.metric,
                                timestamp: now,
                            },
                        ),
                    ),
                    None => None,
                }
            },
            ProtocolMessage::RouteResponse(response) => {
                self.routing_table.update_route_at(response.destination, response.next_hop, response.metric, now);
                None
            },
        }
    }
}

/// The HELLO the server broadcasts to find its neighbours.
pub fn discovery_hello(now: u64) -> (m: ProtocolMessage)
    ensures
        m matches ProtocolMessage::Hello(h) && h.router_id@ == "local_router"@ && h.sequence_number == 1 && h.timestamp
            == now,
{
    ProtocolMessage::Hello(ServerHello { router_id: "local_router".to_string(), sequence_number: 1, timestamp: now })
}

} // verus!
