use vstd::prelude::*;

verus! {

/// The kinds of protocol message.
#[derive(Debug, Clone, Copy, PartialEq, Eq, Structural)]
pub enum MessageType {
    Hello,
    RouteRequest,
    RouteResponse,
    UpdateRequest,
    UpdateResponse,
}

/// A HELLO naming its sender.
#[derive(Debug)]
pub struct HelloMessage {
    pub sender_ip: String,
    pub sender_name: String,
}

/// A request for the route from `source_ip` to `destination_ip`.
#[derive(Debug)]
pub struct RouteRequestMessage {
    pub source_ip: String,
    pub destination_ip: String,
}

/// The answer to a route request.
#[derive(Debug)]
pub struct RouteResponseMessage {
    pub source_ip: String,
    pub destination_ip: String,
    pub next_hop: String,
    pub hops: u32,
    pub link_state: Vec<LinkState>,
}

/// A request to update routes.
#[derive(Debug)]
pub struct UpdateRequestMessage {
    pub source_ip: String,
    pub updates: Vec<RouteUpdate>,
}

/// The answer to an update request.
#[derive(Debug)]
pub struct UpdateResponseMessage {
    pub source_ip: String,
    pub success: bool,
}

/// State of a link to an address.
#[derive(Debug)]
pub struct LinkState {
    pub ip: String,
    pub is_active: bool,
    pub capacity: u32,
}

/// One route update.
#[derive(Debug)]
pub struct RouteUpdate {
    pub destination_ip: String,
    pub next_hop: String,
    pub hops: u32,
}

/// A link of a link-state update: neighbour, state and metric.
#[derive(Debug)]
pub struct LinkInfo {
    pub neighbor_id: String,
    pub is_active: bool,
    pub metric: u32,
}

/// A router's links, at a time.
#[derive(Debug)]
pub struct LinkStateUpdate {
    pub router_id: String,
    pub timestamp: u64,
    pub links: Vec<LinkInfo>,
}

/// A HELLO of the protocol server.
#[derive(Debug)]
pub struct ServerHello {
    pub router_id: String,
    pub sequence_number: u32,
    pub timestamp: u64,
}

/// A request for the route to `destination`.
#[derive(Debug)]
pub struct RouteRequest {
    pub destination: String,
    pub source: String,
}

/// The route to `destination`.
#[derive(Debug)]
pub struct RouteResponse {
    pub destination: String,
    pub next_hop: String,
    pub metric: u32,
    pub timestamp: u64,
}

/// The messages of the protocol server.
#[derive(Debug)]
pub enum ProtocolMessage {
    Hello(ServerHello),
    LinkState(LinkStateUpdate),
    RouteRequest(RouteRequest),
    RouteResponse(RouteResponse),
}

} // verus!
