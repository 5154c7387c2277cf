use vstd::prelude::*;
use crate::types::{Neighbor, NeighborV, neighbor_seq};
use crate::read_config::InterfaceConfig;
use crate::dijkstra::{calculate_ospf_cost, spec_ospf_cost};

verus! {

/// Seconds without a HELLO after which a neighbour is down (four HELLO
/// intervals).
pub const NEIGHBOR_TIMEOUT_SEC: u64 = 8;

/// Capacity and state given to a neighbour's link: those of the first
/// active interface, else of the first interface, else 100 Mbps and down.
pub open spec fn spec_interface_info(interfaces: Seq<InterfaceConfig>) -> (u32, bool) {
    if exists|i: int| 0 <= i < interfaces.len() && interfaces[i].link_active {
        let i = choose|i: int|
            0 <= i < interfaces.len() && interfaces[i].link_active && forall|j: int|
                0 <= j < i ==> !interfaces[j].link_active;
        (interfaces[i].capacity_mbps, true)
    } else if interfaces.len() > 0 {
        (interfaces[0].capacity_mbps, interfaces[0].link_active)
    } else {
        (100, false)
    }
}

/// Capacity and state of the link to a neighbour, from the configured
/// interfaces.
pub fn get_interface_info_for_neighbor(interfaces: &Vec<InterfaceConfig>) -> (r: (u32, bool))
    ensures
        r == spec_interface_info(interfaces@),
{
    let mut i: usize = 0;
    while i < interfaces.len()
        invariant
            i <= interfaces.len(),
            forall|j: int| 0 <= j < i ==> !interfaces@[j].link_active,
        decreases interfaces.len() - i,
    {
        if interfaces[i].link_active {
            proof {
                let k = choose|k: int|
                    0 <= k < interfaces@.len() && interfaces@[k].link_active && forall|j: int|
                        0 <= j < k ==> !interfaces@[j].link_active;
                assert(k == i) by {
                    if k < i {
                    } else if k > i {
                    }
                }
            }
            return (interfaces[i].capacity_mbps, true);
        }
        i += 1;
    }
    if interfaces.len() > 0 {
        (interfaces[0].capacity_mbps, interfaces[0].link_active)
    } else {
        (100, false)
    }
}

/// A neighbour's link takes the capacity of the active interface that comes
/// first: when interface `k` is active and none before it is, the result
/// is `k`'s capacity and up; when none is active, it is the first
/// interface's capacity and state.
pub proof fn law_first_active_interface_wins(interfaces: Seq<InterfaceConfig>, r: (u32, bool), k: int)
    requires
        r == spec_interface_info(interfaces),
        0 <= k < interfaces.len(),
    ensures
        interfaces[k].link_active && (forall|j: int| 0 <= j < k ==> !interfaces[j].link_active) ==> r == (
            interfaces[k].capacity_mbps,
            true,
        ),
        (forall|j: int| 0 <= j < interfaces.len() ==> !interfaces[j].link_active) ==> r == (
            interfaces[0].capacity_mbps,
            false,
        ),
{
    if interfaces[k].link_active && (forall|j: int| 0 <= j < k ==> !interfaces[j].link_active) {
        let i = choose|i: int|
            0 <= i < interfaces.len() && interfaces[i].link_active && forall|j: int|
                0 <= j < i ==> !interfaces[j].link_active;
        assert(i == k) by {
            if i < k {
                assert(!interfaces[i].link_active);
            } else if i > k {
                assert(!interfaces[k].link_active);
            }
        }
    }
    if forall|j: int| 0 <= j < interfaces.len() ==> !interfaces[j].link_active {
        assert(!interfaces[0].link_active);
    }
}

/// No neighbour address occurs twice.
pub open spec fn unique_neighbors(s: Seq<NeighborV>) -> bool {
    forall|a: int, b: int| 0 <= a < s.len() && 0 <= b < s.len() && a != b ==> s[a].neighbor_ip != s[b].neighbor_ip
}

/// `s1` is `s0` after a HELLO from `ip` at time `t`: the entry of `ip`
/// (added at the end if absent) is seen at `t`, with the capacity and state
/// of `spec_interface_info`; every other entry is unchanged.
pub open spec fn neighbor_updated(s0: Seq<NeighborV>, s1: Seq<NeighborV>, ip: Seq<char>, t: u64, interfaces: Seq<InterfaceConfig>) -> bool {
    let (capacity, up) = spec_interface_info(interfaces);
    let n = NeighborV { neighbor_ip: ip, link_up: up, capacity, last_seen: t };
    ||| exists|k: int| 0 <= k < s0.len() && s0[k].neighbor_ip == ip && s1 == s0.update(k, n)
    ||| (forall|k: int| 0 <= k < s0.len() ==> s0[k].neighbor_ip != ip) && s1 == s0.push(n)
}

/// Records a HELLO from `neighbor_ip` at `current_time`: its entry (added
/// at the end if absent) is seen now, with the capacity and state of
/// `spec_interface_info`; every other entry is unchanged.
pub fn update_neighbor(neighbors: &mut Vec<Neighbor>, neighbor_ip: &str, current_time: u64, interfaces: &Vec<InterfaceConfig>)
    requires
        unique_neighbors(neighbor_seq(old(neighbors)@)),
    ensures
        unique_neighbors(neighbor_seq(final(neighbors)@)),
        neighbor_updated(neighbor_seq(old(neighbors)@), neighbor_seq(final(neighbors)@), neighbor_ip@, current_time, interfaces@),
{
    let (capacity, link_active) = get_interface_info_for_neighbor(interfaces);
    let ip = neighbor_ip.to_string();
    let ghost s0 = neighbor_seq(neighbors@);
    let mut k: usize = 0;
    while k < neighbors.len()
        invariant
            k <= neighbors.len(),
            neighbors@ == old(neighbors)@,
            s0 == neighbor_seq(neighbors@),
            unique_neighbors(s0),
            ip@ == neighbor_ip@,
            (capacity, link_active) == spec_interface_info(interfaces@),
            forall|j: int| 0 <= j < k ==> s0[j].neighbor_ip != neighbor_ip@,
        decreases neighbors.len() - k,
    {
        if neighbors[k].neighbor_ip == ip {
            let n = Neighbor { neighbor_ip: ip, link_up: link_active, capacity, last_seen: current_time };
            neighbors.set(k, n);
            proof {
                let s1 = neighbor_seq(neighbors@);
                assert(neighbors@[k as int]@ == NeighborV { neighbor_ip: neighbor_ip@, link_up: link_active, capacity, last_seen: current_time });
                assert(s0[k as int].neighbor_ip == neighbor_ip@);
                assert(s1 =~= s0.update(k as int, neighbors@[k as int]@));
                let ki = k as int;
                assert(0 <= ki < s0.len() && s0[ki].neighbor_ip == neighbor_ip@ && s1 == s0.update(ki, NeighborV { neighbor_ip: neighbor_ip@, link_up: spec_interface_info(interfaces@).1, capacity: spec_interface_info(interfaces@).0, last_seen: current_time }));
                assert forall|a: int, b: int| 0 <= a < s1.len() && 0 <= b < s1.len() && a != b implies s1[a].neighbor_ip != s1[b].neighbor_ip by {
                    assert(s1[a].neighbor_ip == s0[a].neighbor_ip);
                    assert(s1[b].neighbor_ip == s0[b].neighbor_ip);
                }
            }
            return;
        }
        k += 1;
    }
    let n = Neighbor { neighbor_ip: ip, link_up: link_active, capacity, last_seen: current_time };
    neighbors.push(n);
    proof {
        let s1 = neighbor_seq(neighbors@);
        assert(s1 =~= s0.push(neighbors@[s0.len() as int]@));
    }
}

/// A neighbour whose link is up and which has been silent longer than the
/// timeout at `current_time`.
pub open spec fn timed_out(n: NeighborV, current_time: u64) -> bool {
    n.link_up && current_time - n.last_seen > NEIGHBOR_TIMEOUT_SEC
}

/// Marks down every neighbour of `timed_out`; says whether any was.
pub fn check_neighbor_timeouts(neighbors: &mut Vec<Neighbor>, current_time: u64) -> (changed: bool)
    requires
        forall|k: int| 0 <= k < old(neighbors)@.len() ==> old(neighbors)@[k].last_seen <= current_time,
    ensures
        final(neighbors)@.len() == old(neighbors)@.len(),
        forall|k: int| 0 <= k < final(neighbors)@.len() ==> #[trigger] final(neighbors)@[k]@ == if timed_out(old(neighbors)@[k]@, current_time) {
            NeighborV { link_up: false, ..old(neighbors)@[k]@ }
        } else {
            old(neighbors)@[k]@
        },
        changed == exists|k: int| 0 <= k < old(neighbors)@.len() && timed_out(#[trigger] old(neighbors)@[k]@, current_time),
{
    let mut changed = false;
    let mut k: usize = 0;
    while k < neighbors.len()
        invariant
            k <= neighbors.len(),
            neighbors@.len() == old(neighbors)@.len(),
            forall|j: int| 0 <= j < old(neighbors)@.len() ==> old(neighbors)@[j].last_seen <= current_time,
            forall|j: int| k <= j < neighbors@.len() ==> neighbors@[j] == old(neighbors)@[j],
            forall|j: int| 0 <= j < k ==> #[trigger] neighbors@[j]@ == if timed_out(old(neighbors)@[j]@, current_time) {
                NeighborV { link_up: false, ..old(neighbors)@[j]@ }
            } else {
                old(neighbors)@[j]@
            },
            changed == exists|j: int| 0 <= j < k && timed_out(#[trigger] old(neighbors)@[j]@, current_time),
        decreases neighbors.len() - k,
    {
        assert(neighbors@[k as int] == old(neighbors)@[k as int]);
        let ghost was = changed;
        if neighbors[k].link_up && current_time - neighbors[k].last_seen > NEIGHBOR_TIMEOUT_SEC {
            let n = Neighbor {
                neighbor_ip: neighbors[k].neighbor_ip.clone(),
                link_up: false,
                capacity: neighbors[k].capacity,
                last_seen: neighbors[k].last_seen,
            };
            neighbors.set(k, n);
            changed = true;
            assert(timed_out(old(neighbors)@[k as int]@, current_time));
        } else {
            assert(!timed_out(old(neighbors)@[k as int]@, current_time));
        }
        proof {
            if !changed {
                assert forall|j: int| 0 <= j < k + 1 implies !timed_out(#[trigger] old(neighbors)@[j]@, current_time) by {
                    if j < k {
                        assert(!was);
                    }
                }
            }
        }
        k += 1;
    }
    changed
}

/// One row of the interface report.
#[derive(Debug)]
pub struct InterfaceRow {
    pub name: String,
    pub capacity_mbps: u32,
    pub active: bool,
    /// The OSPF cost; `u32::MAX` stands for an infinite cost.
    pub cost: u32,
}

/// How many interfaces are active, and so how redundant the router is.
#[derive(Debug, Clone, Copy, PartialEq, Eq, Structural)]
pub enum Redundancy {
    /// No active interface: the router is isolated.
    Isolated,
    /// One active interface: no redundancy.
    Single,
    /// Several active interfaces.
    Redundant,
}

/// The state of the configured interfaces.
#[derive(Debug)]
pub struct InterfaceReport {
    pub rows: Vec<InterfaceRow>,
    pub total_interfaces: usize,
    pub active_interfaces: usize,
    pub total_capacity_mbps: u32,
    pub redundancy: Redundancy,
}

/// Number of active interfaces.
pub open spec fn active_count(s: Seq<InterfaceConfig>) -> nat
    decreases s.len(),
{
    if s.len() == 0 {
        0
    } else {
        active_count(s.drop_last()) + if s.last().link_active {
            1nat
        } else {
            0nat
        }
    }
}

/// Sum of the capacities of the active interfaces.
pub open spec fn active_capacity(s: Seq<InterfaceConfig>) -> nat
    decreases s.len(),
{
    if s.len() == 0 {
        0
    } else {
        active_capacity(s.drop_last()) + if s.last().link_active {
            s.last().capacity_mbps as nat
        } else {
            0nat
        }
    }
}

proof fn lemma_active_capacity_monotone(s: Seq<InterfaceConfig>, i: int)
    requires
        0 <= i <= s.len(),
    ensures
        active_capacity(s.take(i)) <= active_capacity(s),
    decreases s.len() - i,
{
    if i < s.len() {
        lemma_active_capacity_monotone(s, i + 1);
        assert(s.take(i + 1).drop_last() =~= s.take(i));
    } else {
        assert(s.take(i) =~= s);
    }
}

proof fn lemma_active_count_le(s: Seq<InterfaceConfig>)
    ensures
        active_count(s) <= s.len(),
    decreases s.len(),
{
    if s.len() > 0 {
        lemma_active_count_le(s.drop_last());
    }
}

/// Report on the configured interfaces: per interface its capacity, state
/// and OSPF cost (infinite when inactive), then the totals and redundancy.
pub fn interface_report(interfaces: &Vec<InterfaceConfig>) -> (r: InterfaceReport)
    requires
        active_capacity(interfaces@) <= u32::MAX,
    ensures
        r.rows.len() == interfaces.len(),
        forall|k: int|
            0 <= k < interfaces.len() ==> {
                let row = #[trigger] r.rows@[k];
                &&& row.name@ == interfaces@[k].name@
                &&& row.capacity_mbps == interfaces@[k].capacity_mbps
                &&& row.active == interfaces@[k].link_active
                &&& row.cost == spec_ospf_cost(interfaces@[k].capacity_mbps, interfaces@[k].link_active)
            },
        r.total_interfaces == interfaces.len(),
        r.active_interfaces == active_count(interfaces@),
        r.total_capacity_mbps == active_capacity(interfaces@),
        r.redundancy == if active_count(interfaces@) == 0 {
            Redundancy::Isolated
        } else if active_count(interfaces@) == 1 {
            Redundancy::Single
        } else {
            Redundancy::Redundant
        },
{
    let mut rows: Vec<InterfaceRow> = Vec::new();
    let mut active: usize = 0;
    let mut total: u32 = 0;
    let mut i: usize = 0;
    while i < interfaces.len()
        invariant
            i <= interfaces.len(),
            active_capacity(interfaces@) <= u32::MAX,
            rows.len() == i,
            forall|k: int|
                0 <= k < i ==> {
                    let row = #[trigger] rows@[k];
                    &&& row.name@ == interfaces@[k].name@
                    &&& row.capacity_mbps == interfaces@[k].capacity_mbps
                    &&& row.active == interfaces@[k].link_active
                    &&& row.cost == spec_ospf_cost(interfaces@[k].capacity_mbps, interfaces@[k].link_active)
                },
            active == active_count(interfaces@.take(i as int)),
            total == active_capacity(interfaces@.take(i as int)),
        decreases interfaces.len() - i,
    {
        let c = &interfaces[i];
        proof {
            assert(interfaces@.take(i as int + 1).drop_last() =~= interfaces@.take(i as int));
            lemma_active_capacity_monotone(interfaces@, i as int + 1);
            lemma_active_count_le(interfaces@.take(i as int));
        }
        rows.push(
            InterfaceRow {
                name: c.name.clone(),
                capacity_mbps: c.capacity_mbps,
                active: c.link_active,
                cost: calculate_ospf_cost(c.capacity_mbps, c.link_active),
            },
        );
        if c.link_active {
            active += 1;
            total += c.capacity_mbps;
        }
        i += 1;
    }
    assert(interfaces@.take(interfaces.len() as int) =~= interfaces@);
    let redundancy = if active == 0 {
        Redundancy::Isolated
    } else if active == 1 {
        Redundancy::Single
    } else {
        Redundancy::Redundant
    };
    InterfaceReport {
        rows,
        total_interfaces: interfaces.len(),
        active_interfaces: active,
        total_capacity_mbps: total,
        redundancy,
    }
}

} // verus!
