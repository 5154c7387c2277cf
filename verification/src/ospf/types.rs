use vstd::prelude::*;
use crate::clock::unix_time_secs;

verus! {

/// Settings of an OSPF router; addresses are IPv4 numbers.
#[derive(Debug, Clone)]
pub struct RouterConfig {
    pub router_id: u32,
    pub name: String,
    pub hello_interval: u32,
    pub dead_interval: u32,
    pub lsa_refresh_interval: u32,
}

/// State of a link.
#[derive(Debug, Clone, Copy, PartialEq, Eq, Structural)]
pub enum LinkState {
    Up,
    Down,
}

/// A link to a neighbour router.
#[derive(Debug, Clone, Copy, PartialEq, Eq, Structural)]
pub struct Link {
    pub neighbor_id: u32,
    pub interface_addr: u32,
    pub cost: u32,
    pub capacity: u64,
    pub state: LinkState,
    pub last_hello: u64,
}

/// State of an adjacency with a neighbour.
#[derive(Debug, Clone, Copy, PartialEq, Eq, Structural)]
pub enum NeighborState {
    Down,
    Init,
    TwoWay,
    ExStart,
    Exchange,
    Loading,
    Full,
}

/// A neighbour router.
#[derive(Debug, Clone, Copy, PartialEq, Eq, Structural)]
pub struct Neighbor {
    pub router_id: u32,
    pub state: NeighborState,
    pub last_seen: u64,
    pub interface_addr: u32,
}

/// A HELLO packet: the sender, its timers and the neighbours it has heard.
#[derive(Debug)]
pub struct HelloPacket {
    pub router_id: u32,
    pub area_id: u32,
    pub hello_interval: u32,
    pub dead_interval: u32,
    pub neighbors: Vec<u32>,
    pub timestamp: u64,
}

/// The header of an LSA.
#[derive(Debug, Clone, Copy, PartialEq, Eq, Structural)]
pub struct LSAHeader {
    pub lsa_type: u8,
    pub link_state_id: u32,
    pub advertising_router: u32,
    pub sequence_number: u32,
    pub age: u16,
    pub checksum: u16,
    pub length: u16,
}

/// A link in a router LSA.
#[derive(Debug, Clone, Copy, PartialEq, Eq, Structural)]
pub struct RouterLSALink {
    pub link_id: u32,
    pub link_data: u32,
    pub link_type: u8,
    pub num_metrics: u8,
    pub metric: u32,
}

/// A router LSA: a router's links.
#[derive(Debug)]
pub struct RouterLSA {
    pub header: LSAHeader,
    pub flags: u8,
    pub num_links: u16,
    pub links: Vec<RouterLSALink>,
}

/// The value of a router LSA.
pub struct RouterLSAV {
    pub header: LSAHeader,
    pub flags: u8,
    pub num_links: u16,
    pub links: Seq<RouterLSALink>,
}

impl View for RouterLSA {
    type V = RouterLSAV;

    open spec fn view(&self) -> RouterLSAV {
        RouterLSAV { header: self.header, flags: self.flags, num_links: self.num_links, links: self.links@ }
    }
}

/// The messages of the protocol.
#[derive(Debug)]
pub enum OSPFMessage {
    Hello(HelloPacket),
    LSA(RouterLSA),
    LSAck(Vec<LSAHeader>),
}

/// A route: destination, next hop, cost and interface.
#[derive(Debug)]
pub struct RoutingEntry {
    pub destination: u32,
    pub next_hop: u32,
    pub cost: u32,
    pub interface: String,
}

/// The value of a route.
pub struct RoutingEntryV {
    pub destination: u32,
    pub next_hop: u32,
    pub cost: u32,
    pub interface: Seq<char>,
}

impl View for RoutingEntry {
    type V = RoutingEntryV;

    open spec fn view(&self) -> RoutingEntryV {
        RoutingEntryV {
            destination: self.destination,
            next_hop: self.next_hop,
            cost: self.cost,
            interface: self.interface@,
        }
    }
}

/// Seconds since the Unix epoch, from the system clock.
pub fn current_timestamp() -> (t: u64) {
    unix_time_secs()
}

} // verus!
