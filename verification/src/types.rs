use vstd::prelude::*;
use crate::clock::unix_time_secs;
use crate::dijkstra::{calculate_ospf_cost, spec_ospf_cost};

verus! {

/// State of a route: reachable at a metric, or unreachable.
#[derive(Debug, Clone, Copy, PartialEq, Eq, Structural)]
pub enum RouteState {
    Active(u32),
    Unreachable,
}

/// A HELLO message (message type 1).
#[derive(Debug)]
pub struct HelloMessage {
    pub message_type: u8,
    pub router_ip: String,
}

/// A neighbour as known from its HELLO messages.
#[derive(Debug)]
pub struct Neighbor {
    pub neighbor_ip: String,
    pub link_up: bool,
    pub capacity: u32,
    pub last_seen: u64,
}

/// The value of a neighbour entry.
pub struct NeighborV {
    pub neighbor_ip: Seq<char>,
    pub link_up: bool,
    pub capacity: u32,
    pub last_seen: u64,
}

impl View for Neighbor {
    type V = NeighborV;

    open spec fn view(&self) -> NeighborV {
        NeighborV {
            neighbor_ip: self.neighbor_ip@,
            link_up: self.link_up,
            capacity: self.capacity,
            last_seen: self.last_seen,
        }
    }
}

impl Clone for Neighbor {
    fn clone(&self) -> (r: Self)
        ensures
            r@ == self@,
    {
        Neighbor {
            neighbor_ip: self.neighbor_ip.clone(),
            link_up: self.link_up,
            capacity: self.capacity,
            last_seen: self.last_seen,
        }
    }
}

/// One entry of a routing table: destination prefix, next hop and state.
#[derive(Debug)]
pub struct RouteEntry {
    pub destination: String,
    pub next_hop: String,
    pub state: RouteState,
}

/// The value of a routing-table entry.
pub struct RouteEntryV {
    pub destination: Seq<char>,
    pub next_hop: Seq<char>,
    pub state: RouteState,
}

impl View for RouteEntry {
    type V = RouteEntryV;

    open spec fn view(&self) -> RouteEntryV {
        RouteEntryV {
            destination: self.destination@,
            next_hop: self.next_hop@,
            state: self.state,
        }
    }
}

impl Clone for RouteEntry {
    fn clone(&self) -> (r: Self)
        ensures
            r@ == self@,
    {
        RouteEntry {
            destination: self.destination.clone(),
            next_hop: self.next_hop.clone(),
            state: self.state,
        }
    }
}

/// A prefix and its advertised state, as carried by a link-state advertisement.
#[derive(Debug)]
pub struct AdvertisedRoute {
    pub prefix: String,
    pub state: RouteState,
}

impl Clone for AdvertisedRoute {
    fn clone(&self) -> (r: Self)
        ensures
            r.prefix@ == self.prefix@,
            r.state == self.state,
    {
        AdvertisedRoute { prefix: self.prefix.clone(), state: self.state }
    }
}

/// A link-state advertisement (message type 2).
#[derive(Debug)]
pub struct LSAMessage {
    pub message_type: u8,
    pub router_ip: String,
    pub last_hop: Option<String>,
    pub originator: String,
    pub seq_num: u32,
    pub neighbor_count: usize,
    pub neighbors: Vec<Neighbor>,
    /// Advertised prefixes (CIDR) and their states; each prefix at most once.
    pub routing_table: Vec<AdvertisedRoute>,
    pub path: Vec<String>,
    pub ttl: u8,
}

/// The value of a link-state advertisement.
pub struct LSAMessageV {
    pub message_type: u8,
    pub router_ip: Seq<char>,
    pub last_hop: Option<Seq<char>>,
    pub originator: Seq<char>,
    pub seq_num: u32,
    pub neighbor_count: usize,
    pub neighbors: Seq<NeighborV>,
    pub routing_table: Seq<(Seq<char>, RouteState)>,
    pub path: Seq<Seq<char>>,
    pub ttl: u8,
}

/// The character sequences of an optional string.
pub open spec fn opt_str(o: Option<String>) -> Option<Seq<char>> {
    match o {
        Some(s) => Some(s@),
        None => None,
    }
}

/// The character sequences of a sequence of strings.
pub open spec fn str_seq(v: Seq<String>) -> Seq<Seq<char>> {
    v.map_values(|s: String| s@)
}

/// The values of a sequence of neighbours.
pub open spec fn neighbor_seq(v: Seq<Neighbor>) -> Seq<NeighborV> {
    v.map_values(|n: Neighbor| n@)
}

/// The values of advertised routes.
pub open spec fn advertised_seq(v: Seq<AdvertisedRoute>) -> Seq<(Seq<char>, RouteState)> {
    v.map_values(|a: AdvertisedRoute| (a.prefix@, a.state))
}

/// The values of routing-table entries.
pub open spec fn entry_seq(v: Seq<RouteEntry>) -> Seq<RouteEntryV> {
    v.map_values(|e: RouteEntry| e@)
}

impl View for LSAMessage {
    type V = LSAMessageV;

    open spec fn view(&self) -> LSAMessageV {
        LSAMessageV {
            message_type: self.message_type,
            router_ip: self.router_ip@,
            last_hop: opt_str(self.last_hop),
            originator: self.originator@,
            seq_num: self.seq_num,
            neighbor_count: self.neighbor_count,
            neighbors: neighbor_seq(self.neighbors@),
            routing_table: advertised_seq(self.routing_table@),
            path: str_seq(self.path@),
            ttl: self.ttl,
        }
    }
}

/// A copy of a list of strings.
pub fn clone_strings(v: &Vec<String>) -> (r: Vec<String>)
    ensures
        str_seq(r@) == str_seq(v@),
{
    let mut r: Vec<String> = Vec::new();
    let mut i: usize = 0;
    while i < v.len()
        invariant
            i <= v.len(),
            r@.len() == i,
            str_seq(r@) == str_seq(v@.take(i as int)),
        decreases v.len() - i,
    {
        let ghost old_r = r@;
        r.push(v[i].clone());
        proof {
            assert forall|k: int| 0 <= k < i + 1 implies #[trigger] str_seq(r@)[k] == str_seq(
                v@.take(i + 1),
            )[k] by {
                if k < i {
                    assert(str_seq(old_r)[k] == str_seq(v@.take(i as int))[k]);
                }
            }
            assert(str_seq(r@) =~= str_seq(v@.take(i + 1)));
        }
        i += 1;
    }
    assert(v@.take(v.len() as int) =~= v@);
    r
}

/// A copy of a list of neighbours.
pub fn clone_neighbors(v: &Vec<Neighbor>) -> (r: Vec<Neighbor>)
    ensures
        neighbor_seq(r@) == neighbor_seq(v@),
{
    let mut r: Vec<Neighbor> = Vec::new();
    let mut i: usize = 0;
    while i < v.len()
        invariant
            i <= v.len(),
            r@.len() == i,
            neighbor_seq(r@) == neighbor_seq(v@.take(i as int)),
        decreases v.len() - i,
    {
        let ghost old_r = r@;
        let c = v[i].clone();
        assert(c@ == v@[i as int]@);
        r.push(c);
        proof {
            assert forall|k: int| 0 <= k < i + 1 implies #[trigger] neighbor_seq(r@)[k] == neighbor_seq(
                v@.take(i + 1),
            )[k] by {
                if k < i {
                    assert(neighbor_seq(old_r)[k] == neighbor_seq(v@.take(i as int))[k]);
                    assert(r@[k] == old_r[k]);
                } else {
                    assert(r@[k] == c);
                    assert(v@.take(i + 1)[k] == v@[k]);
                }
            }
            assert(neighbor_seq(r@) =~= neighbor_seq(v@.take(i + 1)));
        }
        i += 1;
    }
    assert(v@.take(v.len() as int) =~= v@);
    r
}

/// A copy of a list of advertised routes.
pub fn clone_advertised(v: &Vec<AdvertisedRoute>) -> (r: Vec<AdvertisedRoute>)
    ensures
        advertised_seq(r@) == advertised_seq(v@),
{
    let mut r: Vec<AdvertisedRoute> = Vec::new();
    let mut i: usize = 0;
    while i < v.len()
        invariant
            i <= v.len(),
            r@.len() == i,
            advertised_seq(r@) == advertised_seq(v@.take(i as int)),
        decreases v.len() - i,
    {
        let ghost old_r = r@;
        r.push(v[i].clone());
        proof {
            assert forall|k: int| 0 <= k < i + 1 implies #[trigger] advertised_seq(r@)[k] == advertised_seq(
                v@.take(i + 1),
            )[k] by {
                if k < i {
                    assert(advertised_seq(old_r)[k] == advertised_seq(v@.take(i as int))[k]);
                }
            }
            assert(advertised_seq(r@) =~= advertised_seq(v@.take(i + 1)));
        }
        i += 1;
    }
    assert(v@.take(v.len() as int) =~= v@);
    r
}

/// A copy of an optional string.
pub fn clone_opt_string(o: &Option<String>) -> (r: Option<String>)
    ensures
        opt_str(r) == opt_str(*o),
{
    match o {
        Some(s) => Some(s.clone()),
        None => None,
    }
}

impl Clone for LSAMessage {
    fn clone(&self) -> (r: Self)
        ensures
            r@ == self@,
    {
        LSAMessage {
            message_type: self.message_type,
            router_ip: self.router_ip.clone(),
            last_hop: clone_opt_string(&self.last_hop),
            originator: self.originator.clone(),
            seq_num: self.seq_num,
            neighbor_count: self.neighbor_count,
            neighbors: clone_neighbors(&self.neighbors),
            routing_table: clone_advertised(&self.routing_table),
            path: clone_strings(&self.path),
            ttl: self.ttl,
        }
    }
}

/// What the link-state database keeps of one originating router.
#[derive(Debug)]
pub struct Router {
    pub last_lsa: Option<LSAMessage>,
}

impl Router {
    /// A router of which no advertisement is known yet.
    pub fn new() -> (r: Self)
        ensures
            r.last_lsa is None,
    {
        Router { last_lsa: None }
    }
}

/// One entry of the link-state database: an originator and what is known of it.
#[derive(Debug)]
pub struct LsdbEntry {
    pub originator: String,
    pub router: Router,
}

/// State of one interface of the router.
#[derive(Debug)]
pub struct InterfaceState {
    pub name: String,
    pub capacity_mbps: u32,
    pub link_active: bool,
    pub ip_address: Option<String>,
    pub network: Option<String>,
    pub last_state_change: u64,
}

impl InterfaceState {
    /// A new interface, without address, last changed at `now`.
    pub fn new_at(name: String, capacity_mbps: u32, link_active: bool, now: u64) -> (s: Self)
        ensures
            s.name@ == name@,
            s.capacity_mbps == capacity_mbps,
            s.link_active == link_active,
            s.ip_address is None,
            s.network is None,
            s.last_state_change == now,
    {
        InterfaceState { name, capacity_mbps, link_active, ip_address: None, network: None, last_state_change: now }
    }

    /// A new interface, without address, changed now (by the system clock).
    pub fn new(name: String, capacity_mbps: u32, link_active: bool) -> (s: Self)
        ensures
            s.name@ == name@,
            s.capacity_mbps == capacity_mbps,
            s.link_active == link_active,
            s.ip_address is None,
            s.network is None,
    {
        Self::new_at(name, capacity_mbps, link_active, unix_time_secs())
    }

    /// Sets the state of the link; a change records `now` as the time of
    /// the last change.
    pub fn set_link_state_at(&mut self, active: bool, now: u64)
        ensures
            final(self).link_active == active,
            final(self).name == old(self).name,
            final(self).capacity_mbps == old(self).capacity_mbps,
            final(self).ip_address == old(self).ip_address,
            final(self).network == old(self).network,
            final(self).last_state_change == if old(self).link_active != active {
                now
            } else {
                old(self).last_state_change
            },
    {
        if self.link_active != active {
            self.link_active = active;
            self.last_state_change = now;
        }
    }

    /// Sets the state of the link; a change records the current time.
    pub fn set_link_state(&mut self, active: bool)
        ensures
            final(self).link_active == active,
            final(self).name == old(self).name,
            final(self).capacity_mbps == old(self).capacity_mbps,
            final(self).ip_address == old(self).ip_address,
            final(self).network == old(self).network,
            old(self).link_active == active ==> final(self).last_state_change == old(self).last_state_change,
    {
        if self.link_active != active {
            self.set_link_state_at(active, unix_time_secs());
        }
    }

    /// Whether the link is up.
    pub fn is_link_up(&self) -> (r: bool)
        ensures
            r == self.link_active,
    {
        self.link_active
    }

    /// The OSPF cost of the interface: `100_000_000 / (capacity_mbps *
    /// 1_000_000)`, at least 1, and infinite (`u32::MAX`) when the link is
    /// down or of no capacity.
    pub fn get_ospf_cost(&self) -> (c: u32)
        ensures
            c == spec_ospf_cost(self.capacity_mbps, self.link_active),
    {
        calculate_ospf_cost(self.capacity_mbps, self.link_active)
    }
}

} // verus!
