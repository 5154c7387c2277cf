use vstd::prelude::*;
use crate::types::{LsdbEntry, Neighbor, RouteEntry, neighbor_seq, entry_seq};
use crate::read_config::RouterConfig;
use crate::lsa::{lsdb_seq, unique_originators};
use crate::neighbor::unique_neighbors;

verus! {

/// The state of a router.
#[derive(Debug)]
pub struct AppState {
    /// The link-state database: the last advertisement of each originator.
    pub topology: Vec<LsdbEntry>,
    /// The neighbours, one entry per address.
    pub neighbors: Vec<Neighbor>,
    /// The routing table: destination prefix, next hop and state.
    pub routing_table: Vec<RouteEntry>,
    /// The (originator, sequence number) pairs of the advertisements seen.
    pub processed_lsa: Vec<(String, u32)>,
    pub local_ip: String,
    pub enabled: bool,
    pub config: RouterConfig,
    pub key: Vec<u8>,
}

impl AppState {
    /// Each originator and each neighbour address occurs once.
    pub open spec fn wf(&self) -> bool {
        &&& unique_originators(lsdb_seq(self.topology@))
        &&& unique_neighbors(neighbor_seq(self.neighbors@))
    }

    /// Turns the protocol on.
    pub fn enable(&mut self)
        ensures
            final(self).enabled,
            final(self).config == old(self).config,
            final(self).local_ip == old(self).local_ip,
            final(self).key == old(self).key,
            final(self).topology == old(self).topology,
            final(self).neighbors == old(self).neighbors,
            final(self).routing_table == old(self).routing_table,
            final(self).processed_lsa == old(self).processed_lsa,
    {
        self.enabled = true;
    }

    /// Turns the protocol off.
    pub fn disable(&mut self)
        ensures
            !final(self).enabled,
            final(self).config == old(self).config,
            final(self).local_ip == old(self).local_ip,
            final(self).key == old(self).key,
            final(self).topology == old(self).topology,
            final(self).neighbors == old(self).neighbors,
            final(self).routing_table == old(self).routing_table,
            final(self).processed_lsa == old(self).processed_lsa,
    {
        self.enabled = false;
    }

    /// Whether the protocol is on.
    pub fn is_enabled(&self) -> (r: bool)
        ensures
            r == self.enabled,
    {
        self.enabled
    }
}

/// The state of a router that starts with `router_ip`, its configuration
/// and key: empty tables, protocol on.
pub fn init_state(router_ip: String, config: RouterConfig, key: Vec<u8>) -> (s: AppState)
    ensures
        s.wf(),
        s.topology@.len() == 0,
        s.neighbors@.len() == 0,
        s.routing_table@.len() == 0,
        s.processed_lsa@.len() == 0,
        s.local_ip == router_ip,
        s.enabled,
        s.config == config,
        s.key == key,
{
    let s = AppState {
        topology: Vec::new(),
        neighbors: Vec::new(),
        routing_table: Vec::new(),
        processed_lsa: Vec::new(),
        local_ip: router_ip,
        enabled: true,
        config,
        key,
    };
    assert(lsdb_seq(s.topology@) =~= Seq::empty());
    assert(neighbor_seq(s.neighbors@) =~= Seq::empty());
    s
}

} // verus!
