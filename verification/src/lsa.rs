use vstd::prelude::*;
use crate::types::{Neighbor, NeighborV, LSAMessage, LSAMessageV, LsdbEntry, Router, AdvertisedRoute, RouteEntry, RouteEntryV, RouteState, advertised_seq, entry_seq, neighbor_seq, str_seq, opt_str, clone_neighbors, clone_advertised};
use crate::error::AppError;
use crate::text::{contains_char, concat, spec_decimal};
use crate::net_utils::{spec_parse_ip_network, spec_parse_ipv4, parse_ip_network, parse_ipv4, spec_contains, spec_network, ipv4_network_contains, ipv4_network_address, valid_nets};
use crate::net_utils::{IpNet, spec_is_loopback, spec_is_unspecified, is_loopback, is_unspecified, spec_ipv4_net_text, ipv4_net_to_string, octet};

verus! {

/// Time to live of a newly originated advertisement.
pub const INITIAL_TTL: u8 = 64;

/// The prefix-to-state map of advertised routes (a later entry for the same
/// prefix wins; entries are unique in well-formed advertisements).
pub open spec fn adv_map(s: Seq<(Seq<char>, RouteState)>) -> Map<Seq<char>, RouteState>
    decreases s.len(),
{
    if s.len() == 0 {
        Map::empty()
    } else {
        adv_map(s.drop_last()).insert(s.last().0, s.last().1)
    }
}

/// No prefix is advertised twice.
pub open spec fn unique_prefixes(s: Seq<(Seq<char>, RouteState)>) -> bool {
    forall|a: int, b: int| 0 <= a < s.len() && 0 <= b < s.len() && a != b ==> s[a].0 != s[b].0
}

proof fn lemma_adv_map_update(s: Seq<(Seq<char>, RouteState)>, k: int, v: RouteState)
    requires
        unique_prefixes(s),
        0 <= k < s.len(),
    ensures
        adv_map(s.update(k, (s[k].0, v))) == adv_map(s).insert(s[k].0, v),
    decreases s.len(),
{
    let t = s.update(k, (s[k].0, v));
    if k == s.len() - 1 {
        assert(t.drop_last() =~= s.drop_last());
        assert(adv_map(t) =~= adv_map(s).insert(s[k].0, v));
    } else {
        assert(t.drop_last() =~= s.drop_last().update(k, (s[k].0, v)));
        lemma_adv_map_update(s.drop_last(), k, v);
        assert(s.last().0 != s[k].0);
        assert(adv_map(t) =~= adv_map(s).insert(s[k].0, v));
    }
}

proof fn lemma_adv_map_absent(s: Seq<(Seq<char>, RouteState)>, key: Seq<char>)
    requires
        forall|i: int| 0 <= i < s.len() ==> s[i].0 != key,
    ensures
        !adv_map(s).contains_key(key),
    decreases s.len(),
{
    if s.len() > 0 {
        lemma_adv_map_absent(s.drop_last(), key);
    }
}

/// Sets the state of `prefix` among `routes`, adding it if absent.
pub fn set_route_state(routes: &mut Vec<AdvertisedRoute>, prefix: String, state: RouteState)
    requires
        unique_prefixes(advertised_seq(old(routes)@)),
    ensures
        unique_prefixes(advertised_seq(final(routes)@)),
        adv_map(advertised_seq(final(routes)@)) == adv_map(advertised_seq(old(routes)@)).insert(prefix@, state),
{
    let ghost s0 = advertised_seq(routes@);
    let mut k: usize = 0;
    while k < routes.len()
        invariant
            k <= routes.len(),
            routes@ == old(routes)@,
            s0 == advertised_seq(routes@),
            unique_prefixes(s0),
            forall|j: int| 0 <= j < k ==> routes@[j].prefix@ != prefix@,
        decreases routes.len() - k,
    {
        if routes[k].prefix == prefix {
            routes.set(k, AdvertisedRoute { prefix, state });
            proof {
                assert(advertised_seq(routes@) =~= s0.update(k as int, (s0[k as int].0, state)));
                lemma_adv_map_update(s0, k as int, state);
                let s1 = advertised_seq(routes@);
                assert forall|a: int, b: int| 0 <= a < s1.len() && 0 <= b < s1.len() && a != b implies s1[a].0 != s1[b].0 by {
                    assert(s1[a].0 == s0[a].0);
                    assert(s1[b].0 == s0[b].0);
                }
            }
            return;
        }
        k += 1;
    }
    routes.push(AdvertisedRoute { prefix, state });
    proof {
        assert(advertised_seq(routes@) =~= s0.push((prefix@, state)));
        assert(advertised_seq(routes@).drop_last() =~= s0);
    }
}

/// The prefix-to-state map of a routing table (destination to state).
pub open spec fn table_states(t: Seq<RouteEntryV>) -> Map<Seq<char>, RouteState>
    decreases t.len(),
{
    if t.len() == 0 {
        Map::empty()
    } else {
        table_states(t.drop_last()).insert(t.last().destination, t.last().state)
    }
}

/// An interface address on a backbone (`10.0.0.0/8`) or access
/// (`192.168.0.0/16`) network, advertised at metric 0.
pub open spec fn advertised_local(n: IpNet) -> bool {
    n matches IpNet::V4 { addr, .. } && !spec_is_loopback(addr) && !spec_is_unspecified(addr) && (
    octet(addr, 0) == 10 || (octet(addr, 0) == 192 && octet(addr, 1) == 168))
}

/// An interface address on an access network (`192.168.0.0/16`).
pub open spec fn access_local(n: IpNet) -> bool {
    n matches IpNet::V4 { addr, .. } && !spec_is_loopback(addr) && !spec_is_unspecified(addr) && octet(addr, 0)
        == 192 && octet(addr, 1) == 168
}

/// `m` with the local backbone and access networks of `addrs` added at
/// metric 0, in order.
pub open spec fn with_local_networks(m: Map<Seq<char>, RouteState>, addrs: Seq<IpNet>) -> Map<Seq<char>, RouteState>
    decreases addrs.len(),
{
    if addrs.len() == 0 {
        m
    } else {
        let prev = with_local_networks(m, addrs.drop_last());
        match addrs.last() {
            IpNet::V4 { addr, prefix } => if advertised_local(addrs.last()) {
                prev.insert(spec_ipv4_net_text(addr, prefix), RouteState::Active(0))
            } else {
                prev
            },
            IpNet::V6 { .. } => prev,
        }
    }
}

/// The routes an advertisement of this router carries: its routing table,
/// its backbone and access networks at metric 0, and, for a router on an
/// access network, the default route `0.0.0.0/0` at metric 20.
pub open spec fn advertised_routes(t: Seq<RouteEntryV>, addrs: Seq<IpNet>) -> Map<Seq<char>, RouteState> {
    let m = with_local_networks(table_states(t), addrs);
    if exists|i: int| 0 <= i < addrs.len() && access_local(#[trigger] addrs[i]) {
        m.insert("0.0.0.0/0"@, RouteState::Active(20))
    } else {
        m
    }
}

proof fn lemma_decimal_len(n: nat)
    ensures
        spec_decimal(n).len() >= 1,
        n >= 10 ==> spec_decimal(n).len() >= 2,
    decreases n,
{
    if n >= 10 {
        lemma_decimal_len(n / 10);
    }
}

proof fn lemma_local_network_kept(m: Map<Seq<char>, RouteState>, addrs: Seq<IpNet>, i: int, addr: u32, prefix: u8)
    requires
        0 <= i < addrs.len(),
        addrs[i] == (IpNet::V4 { addr, prefix }),
        advertised_local(addrs[i]),
    ensures
        with_local_networks(m, addrs).contains_key(spec_ipv4_net_text(addr, prefix)),
        with_local_networks(m, addrs)[spec_ipv4_net_text(addr, prefix)] == RouteState::Active(0),
    decreases addrs.len(),
{
    if i < addrs.len() - 1 {
        assert(addrs.drop_last()[i] == addrs[i]);
        lemma_local_network_kept(m, addrs.drop_last(), i, addr, prefix);
    }
}

/// Every local IPv4 address that is neither loopback nor unspecified, on a
/// backbone (`10.0.0.0/8`) or access (`192.168.0.0/16`) network, has its
/// network advertised at metric 0 in the routes of this router's
/// advertisement, whatever the routing table holds.
pub proof fn law_local_networks_advertised(
    table: Seq<RouteEntryV>,
    addrs: Seq<IpNet>,
    routes: Seq<(Seq<char>, RouteState)>,
    i: int,
    addr: u32,
    prefix: u8,
)
    requires
        adv_map(routes) == advertised_routes(table, addrs),
        0 <= i < addrs.len(),
        addrs[i] == (IpNet::V4 { addr, prefix }),
        !spec_is_loopback(addr),
        !spec_is_unspecified(addr),
        octet(addr, 0) == 10 || (octet(addr, 0) == 192 && octet(addr, 1) == 168),
    ensures
        adv_map(routes).contains_key(spec_ipv4_net_text(addr, prefix)),
        adv_map(routes)[spec_ipv4_net_text(addr, prefix)] == RouteState::Active(0),
{
    lemma_local_network_kept(table_states(table), addrs, i, addr, prefix);
    let text = spec_ipv4_net_text(addr, prefix);
    lemma_decimal_len(octet(addr, 0) as nat);
    lemma_decimal_len(octet(addr, 1) as nat);
    lemma_decimal_len(octet(addr, 2) as nat);
    lemma_decimal_len(octet(addr, 3) as nat);
    lemma_decimal_len(prefix as nat);
    reveal_strlit(".");
    reveal_strlit("/");
    assert(text.len() >= 10);
    reveal_strlit("0.0.0.0/0");
    assert(text != "0.0.0.0/0"@);
}

/// A router with a local IPv4 address (neither loopback nor unspecified)
/// on an access network (`192.168.0.0/16`) advertises the default route
/// `0.0.0.0/0` at metric 20.
pub proof fn law_access_router_advertises_default_route(
    table: Seq<RouteEntryV>,
    addrs: Seq<IpNet>,
    routes: Seq<(Seq<char>, RouteState)>,
    i: int,
    addr: u32,
    prefix: u8,
)
    requires
        adv_map(routes) == advertised_routes(table, addrs),
        0 <= i < addrs.len(),
        addrs[i] == (IpNet::V4 { addr, prefix }),
        !spec_is_loopback(addr),
        !spec_is_unspecified(addr),
        octet(addr, 0) == 192,
        octet(addr, 1) == 168,
    ensures
        adv_map(routes).contains_key("0.0.0.0/0"@),
        adv_map(routes)["0.0.0.0/0"@] == RouteState::Active(20),
{
    assert(access_local(addrs[i]));
}

/// The link-state advertisement this router sends: the given header fields,
/// all its neighbours, and the routes of `advertised_routes`.
pub fn build_lsa(
    router_ip: &str,
    last_hop: Option<&str>,
    originator: &str,
    seq_num: u32,
    path: Vec<String>,
    neighbors: &Vec<Neighbor>,
    routing_table: &Vec<RouteEntry>,
    local_addrs: &Vec<IpNet>,
) -> (m: LSAMessage)
    ensures
        m.message_type == 2,
        m.router_ip@ == router_ip@,
        m.last_hop.is_some() == last_hop.is_some(),
        last_hop matches Some(h) ==> m.last_hop->0@ == h@,
        m.originator@ == originator@,
        m.seq_num == seq_num,
        m.neighbor_count == neighbors.len(),
        neighbor_seq(m.neighbors@) == neighbor_seq(neighbors@),
        unique_prefixes(advertised_seq(m.routing_table@)),
        adv_map(advertised_seq(m.routing_table@)) == advertised_routes(entry_seq(routing_table@), local_addrs@),
        m.path@ == path@,
        m.ttl == INITIAL_TTL,
{
    let mut routes: Vec<AdvertisedRoute> = Vec::new();
    let mut i: usize = 0;
    while i < routing_table.len()
        invariant
            i <= routing_table.len(),
            unique_prefixes(advertised_seq(routes@)),
            adv_map(advertised_seq(routes@)) == table_states(entry_seq(routing_table@.take(i as int))),
        decreases routing_table.len() - i,
    {
        let e = &routing_table[i];
        set_route_state(&mut routes, e.destination.clone(), e.state);
        assert(entry_seq(routing_table@.take(i as int + 1)).drop_last() =~= entry_seq(routing_table@.take(i as int)));
        i += 1;
    }
    assert(routing_table@.take(routing_table.len() as int) =~= routing_table@);
    let ghost base = table_states(entry_seq(routing_table@));
    let mut has_access = false;
    let mut j: usize = 0;
    while j < local_addrs.len()
        invariant
            j <= local_addrs.len(),
            unique_prefixes(advertised_seq(routes@)),
            adv_map(advertised_seq(routes@)) == with_local_networks(base, local_addrs@.take(j as int)),
            has_access == exists|k: int| 0 <= k < j && access_local(#[trigger] local_addrs@[k]),
        decreases local_addrs.len() - j,
    {
        assert(local_addrs@.take(j as int + 1).drop_last() =~= local_addrs@.take(j as int));
        if let IpNet::V4 { addr, prefix } = local_addrs[j] {
            if !is_loopback(addr) && !is_unspecified(addr) {
                let first = (addr >> 24u32) & 0xff;
                let second = (addr >> 16u32) & 0xff;
                assert(octet(addr, 0) == first);
                assert(octet(addr, 1) == second);
                if first == 10 {
                    set_route_state(&mut routes, ipv4_net_to_string(addr, prefix), RouteState::Active(0));
                } else if first == 192 && second == 168 {
                    set_route_state(&mut routes, ipv4_net_to_string(addr, prefix), RouteState::Active(0));
                    has_access = true;
                }
            }
        }
        j += 1;
    }
    assert(local_addrs@.take(local_addrs.len() as int) =~= local_addrs@);
    if has_access {
        set_route_state(&mut routes, "0.0.0.0/0".to_string(), RouteState::Active(20));
    }
    let last_hop = match last_hop {
        Some(h) => Some(h.to_string()),
        None => None,
    };
    let neighbors_vec = clone_neighbors(neighbors);
    LSAMessage {
        message_type: 2,
        router_ip: router_ip.to_string(),
        last_hop,
        originator: originator.to_string(),
        seq_num,
        neighbor_count: neighbors.len(),
        neighbors: neighbors_vec,
        routing_table: routes,
        path,
        ttl: INITIAL_TTL,
    }
}


/// `s` contains the string `x`.
pub fn contains_string(s: &Vec<String>, x: &String) -> (r: bool)
    ensures
        r == str_seq(s@).contains(x@),
{
    let mut i: usize = 0;
    while i < s.len()
        invariant
            i <= s.len(),
            forall|j: int| 0 <= j < i ==> s@[j]@ != x@,
        decreases s.len() - i,
    {
        if s[i] == *x {
            assert(str_seq(s@)[i as int] == x@);
            return true;
        }
        i += 1;
    }
    assert forall|j: int| 0 <= j < str_seq(s@).len() implies str_seq(s@)[j] != x@ by {
        assert(str_seq(s@)[j] == s@[j]@);
    }
    false
}

/// A forwarded copy of an advertisement is sent to neighbour `n`: it is not
/// this router, not the hop it came from, its link is up and the path does
/// not pass through it yet.
pub open spec fn forwards_to(n: NeighborV, local: Seq<char>, last_hop: Option<Seq<char>>, path: Seq<Seq<char>>) -> bool {
    &&& n.neighbor_ip != local
    &&& last_hop != Some(n.neighbor_ip)
    &&& n.link_up
    &&& !path.contains(n.neighbor_ip)
}

/// `path` with `local` appended unless it is there already.
pub open spec fn path_through(path: Seq<Seq<char>>, local: Seq<char>) -> Seq<Seq<char>> {
    if path.contains(local) {
        path
    } else {
        path.push(local)
    }
}

/// `x` is the address of a neighbour whose link is up, that is neither
/// `local` nor `last_hop`, and that `path` does not pass through.
pub open spec fn eligible_neighbor(
    ns: Seq<NeighborV>,
    local: Seq<char>,
    last_hop: Option<Seq<char>>,
    path: Seq<Seq<char>>,
    x: Seq<char>,
) -> bool {
    exists|m: int|
        #![trigger ns[m]]
        0 <= m < ns.len() && ns[m].link_up && ns[m].neighbor_ip == x && x != local && last_hop != Some(x)
            && !path.contains(x)
}

/// Forwarding targets are exactly the neighbours that may receive a copy:
/// each target is a neighbour whose link is up, that is neither this
/// router nor the hop the advertisement came from, and that the path does
/// not pass through; and every such neighbour is a target.
pub proof fn law_forward_targets_are_live_neighbors(
    local: Seq<char>,
    last_hop: Option<Seq<char>>,
    path: Seq<Seq<char>>,
    ns: Seq<NeighborV>,
    targets: Seq<Seq<char>>,
)
    requires
        targets == ns.filter(|n: NeighborV| forwards_to(n, local, last_hop, path)).map_values(
            |n: NeighborV| n.neighbor_ip,
        ),
    ensures
        forall|k: int| 0 <= k < targets.len() ==> eligible_neighbor(ns, local, last_hop, path, #[trigger] targets[k]),
        forall|x: Seq<char>| #[trigger] eligible_neighbor(ns, local, last_hop, path, x) ==> targets.contains(x),
{
    let pred = |n: NeighborV| forwards_to(n, local, last_hop, path);
    let f = ns.filter(pred);
    broadcast use vstd::seq_lib::group_filter_ensures;
    assert forall|k: int| 0 <= k < targets.len() implies eligible_neighbor(ns, local, last_hop, path, #[trigger] targets[k]) by {
        assert(pred(f[k]));
        assert(f.contains(f[k]));
        ns.lemma_filter_contains_rev(pred, f[k]);
        let m = choose|m: int| 0 <= m < ns.len() && ns[m] == f[k];
        assert(ns[m] == f[k]);
        assert(targets[k] == f[k].neighbor_ip);
    }
    assert forall|x: Seq<char>| #[trigger] eligible_neighbor(ns, local, last_hop, path, x) implies targets.contains(x) by {
        let m = choose|m: int|
            #![trigger ns[m]]
            0 <= m < ns.len() && ns[m].link_up && ns[m].neighbor_ip == x && x != local && last_hop != Some(x)
                && !path.contains(x);
        assert(pred(ns[m]));
        assert(f.contains(ns[m]));
        let j = choose|j: int| 0 <= j < f.len() && f[j] == ns[m];
        assert(targets[j] == x);
    }
}

/// An advertisement to forward and the neighbours to forward it to.
#[derive(Debug)]
pub struct ForwardPlan {
    pub message: LSAMessage,
    pub targets: Vec<String>,
}

/// What forwarding `original_lsa` from `local_ip` sends: nothing once its
/// time to live is 1 or less; otherwise a copy with this router as sender
/// and last hop, the path through this router and one less time to live,
/// to every neighbour of `forwards_to`, in order.
pub fn forward_plan(
    local_ip: &str,
    original_lsa: &LSAMessage,
    path: Vec<String>,
    neighbors: &Vec<Neighbor>,
) -> (r: Option<ForwardPlan>)
    ensures
        original_lsa.ttl <= 1 <==> r is None,
        r matches Some(p) ==> {
            let path2 = path_through(str_seq(path@), local_ip@);
            &&& p.message@ == (LSAMessageV {
                message_type: 2,
                router_ip: local_ip@,
                last_hop: Some(local_ip@),
                originator: original_lsa.originator@,
                seq_num: original_lsa.seq_num,
                neighbor_count: original_lsa.neighbor_count,
                neighbors: original_lsa@.neighbors,
                routing_table: original_lsa@.routing_table,
                path: path2,
                ttl: (original_lsa.ttl - 1) as u8,
            })
            &&& str_seq(p.targets@) == neighbor_seq(neighbors@).filter(
                |n: NeighborV| forwards_to(n, local_ip@, original_lsa@.last_hop, path2),
            ).map_values(|n: NeighborV| n.neighbor_ip)
        },
{
    if original_lsa.ttl <= 1 {
        return None;
    }
    let local = local_ip.to_string();
    let mut path = path;
    let ghost p0 = str_seq(path@);
    if !contains_string(&path, &local) {
        path.push(local.clone());
        assert(str_seq(path@) =~= p0.push(local@));
    }
    assert(str_seq(path@) == path_through(p0, local_ip@));
    let ghost path2 = str_seq(path@);
    let ghost pred = |n: NeighborV| forwards_to(n, local_ip@, original_lsa@.last_hop, path2);
    let mut targets: Vec<String> = Vec::new();
    let mut i: usize = 0;
    while i < neighbors.len()
        invariant
            i <= neighbors.len(),
            local@ == local_ip@,
            path2 == str_seq(path@),
            pred == (|n: NeighborV| forwards_to(n, local_ip@, original_lsa@.last_hop, path2)),
            str_seq(targets@) == neighbor_seq(neighbors@.take(i as int)).filter(pred).map_values(
                |n: NeighborV| n.neighbor_ip,
            ),
        decreases neighbors.len() - i,
    {
        let n = &neighbors[i];
        let ghost prefix = neighbor_seq(neighbors@.take(i as int));
        let ghost next = neighbor_seq(neighbors@.take(i as int + 1));
        proof {
            assert(next.drop_last() =~= prefix);
            assert(next.last() == n@);
            reveal(Seq::filter);
        }
        let mut send = n.neighbor_ip != local && n.link_up;
        if send {
            match &original_lsa.last_hop {
                Some(h) => {
                    if n.neighbor_ip == *h {
                        send = false;
                    }
                },
                None => {},
            }
        }
        if send && contains_string(&path, &n.neighbor_ip) {
            send = false;
        }
        assert(send == pred(n@));
        if send {
            let ghost old_t = targets@;
            targets.push(n.neighbor_ip.clone());
            assert(str_seq(targets@) =~= str_seq(old_t).push(n.neighbor_ip@));
            assert(next.filter(pred) == prefix.filter(pred).push(n@));
            assert(next.filter(pred).map_values(|n: NeighborV| n.neighbor_ip) =~= prefix.filter(pred).map_values(
                |n: NeighborV| n.neighbor_ip,
            ).push(n.neighbor_ip@));
        } else {
            assert(next.filter(pred) == prefix.filter(pred));
        }
        i += 1;
    }
    assert(neighbors@.take(neighbors.len() as int) =~= neighbors@);
    let message = LSAMessage {
        message_type: 2,
        router_ip: local.clone(),
        last_hop: Some(local.clone()),
        originator: original_lsa.originator.clone(),
        seq_num: original_lsa.seq_num,
        neighbor_count: original_lsa.neighbor_count,
        neighbors: clone_neighbors(&original_lsa.neighbors),
        routing_table: clone_advertised(&original_lsa.routing_table),
        path,
        ttl: original_lsa.ttl - 1,
    };
    assert(message@.path == path2);
    assert(message@.neighbors == original_lsa@.neighbors);
    assert(message@.routing_table == original_lsa@.routing_table);
    assert(message@.last_hop == Some(local_ip@));
    Some(ForwardPlan { message, targets })
}

/// An advertisement from `router_ip` that declares `poisoned_route`
/// unreachable.
pub fn poisoned_route_lsa(router_ip: &str, poisoned_route: &str, seq_num: u32, path: Vec<String>) -> (m: LSAMessage)
    ensures
        m@ == (LSAMessageV {
            message_type: 2,
            router_ip: router_ip@,
            last_hop: None,
            originator: router_ip@,
            seq_num,
            neighbor_count: 0,
            neighbors: Seq::empty(),
            routing_table: seq![(poisoned_route@, RouteState::Unreachable)],
            path: str_seq(path@),
            ttl: INITIAL_TTL,
        }),
{
    let mut routing_table: Vec<AdvertisedRoute> = Vec::new();
    routing_table.push(AdvertisedRoute { prefix: poisoned_route.to_string(), state: RouteState::Unreachable });
    let m = LSAMessage {
        message_type: 2,
        router_ip: router_ip.to_string(),
        last_hop: None,
        originator: router_ip.to_string(),
        seq_num,
        neighbor_count: 0,
        neighbors: Vec::new(),
        routing_table,
        path,
        ttl: INITIAL_TTL,
    };
    assert(advertised_seq(m.routing_table@) =~= seq![(poisoned_route@, RouteState::Unreachable)]);
    assert(neighbor_seq(m.neighbors@) =~= Seq::<NeighborV>::empty());
    m
}

/// The value of a link-state database entry.
pub open spec fn lsdb_view(e: LsdbEntry) -> (Seq<char>, Option<LSAMessageV>) {
    (
        e.originator@,
        match e.router.last_lsa {
            Some(l) => Some(l@),
            None => None,
        },
    )
}

/// The values of a link-state database.
pub open spec fn lsdb_seq(s: Seq<LsdbEntry>) -> Seq<(Seq<char>, Option<LSAMessageV>)> {
    s.map_values(|e: LsdbEntry| lsdb_view(e))
}

/// No originator occurs twice.
pub open spec fn unique_originators(s: Seq<(Seq<char>, Option<LSAMessageV>)>) -> bool {
    forall|a: int, b: int| 0 <= a < s.len() && 0 <= b < s.len() && a != b ==> s[a].0 != s[b].0
}

/// What the database keeps of an originator after receiving `lsa`: the new
/// advertisement when none was known or it has a greater sequence number,
/// else the known one.
pub open spec fn kept_lsa(known: Option<LSAMessageV>, lsa: LSAMessageV) -> Option<LSAMessageV> {
    match known {
        Some(old) => if lsa.seq_num > old.seq_num {
            Some(lsa)
        } else {
            Some(old)
        },
        None => Some(lsa),
    }
}

/// Recording the same advertisement twice keeps what recording it once
/// keeps; the sequence number kept for an originator never decreases and is
/// at least that of the advertisement received.
pub proof fn law_kept_lsa_idempotent(known: Option<LSAMessageV>, lsa: LSAMessageV)
    ensures
        kept_lsa(kept_lsa(known, lsa), lsa) == kept_lsa(known, lsa),
        kept_lsa(known, lsa) is Some,
        known matches Some(k) ==> kept_lsa(known, lsa)->0.seq_num >= k.seq_num,
        kept_lsa(known, lsa)->0.seq_num >= lsa.seq_num,
{
}

/// Records `lsa` in the link-state database: the entry of its originator
/// (added at the end if absent) keeps the advertisement of greater sequence
/// number; every other entry is unchanged.
pub fn update_topology(lsdb: &mut Vec<LsdbEntry>, lsa: &LSAMessage)
    requires
        unique_originators(lsdb_seq(old(lsdb)@)),
    ensures
        unique_originators(lsdb_seq(final(lsdb)@)),
        ({
            let s0 = lsdb_seq(old(lsdb)@);
            let s1 = lsdb_seq(final(lsdb)@);
            ||| exists|k: int|
                0 <= k < s0.len() && s0[k].0 == lsa.originator@ && s1 == s0.update(
                    k,
                    (lsa.originator@, kept_lsa(s0[k].1, lsa@)),
                )
            ||| (forall|k: int| 0 <= k < s0.len() ==> s0[k].0 != lsa.originator@) && s1 == s0.push(
                (lsa.originator@, Some(lsa@)),
            )
        }),
{
    let ghost s0 = lsdb_seq(lsdb@);
    let mut k: usize = 0;
    while k < lsdb.len()
        invariant
            k <= lsdb.len(),
            lsdb@ == old(lsdb)@,
            s0 == lsdb_seq(lsdb@),
            unique_originators(s0),
            forall|j: int| 0 <= j < k ==> s0[j].0 != lsa.originator@,
        decreases lsdb.len() - k,
    {
        if lsdb[k].originator == lsa.originator {
            let newer = match &lsdb[k].router.last_lsa {
                Some(old_lsa) => lsa.seq_num > old_lsa.seq_num,
                None => true,
            };
            if newer {
                let e = LsdbEntry { originator: lsa.originator.clone(), router: Router { last_lsa: Some(lsa.clone()) } };
                lsdb.set(k, e);
                proof {
                    let s1 = lsdb_seq(lsdb@);
                    assert(s1 =~= s0.update(k as int, (lsa.originator@, kept_lsa(s0[k as int].1, lsa@))));
                    assert forall|a: int, b: int| 0 <= a < s1.len() && 0 <= b < s1.len() && a != b implies s1[a].0 != s1[b].0 by {
                        assert(s1[a].0 == s0[a].0);
                        assert(s1[b].0 == s0[b].0);
                    }
                }
            } else {
                proof {
                    assert(lsdb_seq(lsdb@) =~= s0.update(k as int, (lsa.originator@, kept_lsa(s0[k as int].1, lsa@))));
                }
            }
            return;
        }
        k += 1;
    }
    let e = LsdbEntry { originator: lsa.originator.clone(), router: Router { last_lsa: Some(lsa.clone()) } };
    lsdb.push(e);
    proof {
        let s1 = lsdb_seq(lsdb@);
        assert(s1 =~= s0.push((lsa.originator@, Some(lsa@))));
    }
}

/// What installing a route in the system table comes to.
#[derive(Debug, Clone, Copy, PartialEq, Eq, Structural)]
pub enum RouteDecision {
    /// Nothing to install.
    Skip,
    /// Install a route to `network/prefix` through `gateway`.
    Install { network: u32, prefix: u8, gateway: u32 },
    /// The destination is an IPv6 network, which the system table of this
    /// router does not take.
    Ipv6Unsupported,
}

/// Some local IPv4 network contains `ip`.
pub open spec fn on_local_network(local_nets: Seq<IpNet>, ip: u32) -> bool {
    exists|i: int| 0 <= i < local_nets.len() && (#[trigger] local_nets[i] matches IpNet::V4 { addr, prefix } && spec_contains(addr, prefix, ip))
}

/// `network/prefix` is the network of one of the local IPv4 networks.
pub open spec fn is_local_network(local_nets: Seq<IpNet>, network: u32, prefix: u8) -> bool {
    exists|i: int| 0 <= i < local_nets.len() && (#[trigger] local_nets[i] matches IpNet::V4 { addr, prefix: p } && spec_network(addr, p) == network && p == prefix)
}

/// `s` starts with `p`.
pub open spec fn starts_with(s: Seq<char>, p: Seq<char>) -> bool {
    p.len() <= s.len() && s.subrange(0, p.len() as int) == p
}

/// The route of `destination` through `gateway` that the system table
/// should get, given the local networks: none for a destination without a
/// prefix length, a loopback or unspecified gateway, a gateway off the local
/// networks, or a destination that is a local network; an error when
/// the destination or the gateway does not parse.
pub fn route_install_decision(destination: &str, gateway: &str, local_nets: &Vec<IpNet>) -> (r: Result<RouteDecision, AppError>)
    requires
        valid_nets(local_nets@),
    ensures
        !destination@.contains('/') ==> r == Ok::<RouteDecision, AppError>(RouteDecision::Skip),
        destination@.contains('/') ==> match spec_parse_ip_network(destination@) {
            None => r matches Err(AppError::RouteError(m)) && starts_with(m@, "Invalid destination network "@ + destination@ + ": "@),
            Some(net) => match spec_parse_ipv4(gateway@) {
                None => r matches Err(AppError::RouteError(m)) && m@ == "Invalid gateway IP "@ + gateway@ + ": "@ + "invalid IPv4 address syntax"@,
                Some(gw) => if gw >> 24u32 == 127 || gw == 0 || !on_local_network(local_nets@, gw) {
                    r == Ok::<RouteDecision, AppError>(RouteDecision::Skip)
                } else {
                    match net {
                        IpNet::V4 { addr, prefix } => if is_local_network(local_nets@, spec_network(addr, prefix), prefix) {
                            r == Ok::<RouteDecision, AppError>(RouteDecision::Skip)
                        } else {
                            r == Ok::<RouteDecision, AppError>(RouteDecision::Install { network: spec_network(addr, prefix), prefix, gateway: gw })
                        },
                        IpNet::V6 { .. } => r == Ok::<RouteDecision, AppError>(RouteDecision::Ipv6Unsupported),
                    }
                },
            },
        },
{
    if !contains_char(destination, '/') {
        return Ok(RouteDecision::Skip);
    }
    let network = match parse_ip_network(destination) {
        Ok(n) => n,
        Err(e) => {
            let m = concat("Invalid destination network ", destination);
            let m = concat(m.as_str(), ": ");
            let m = concat(m.as_str(), e.as_str());
            proof {
                let p = "Invalid destination network "@ + destination@ + ": "@;
                assert(m@.subrange(0, p.len() as int) =~= p);
            }
            return Err(AppError::RouteError(m));
        },
    };
    let gw = match parse_ipv4(gateway) {
        Ok(a) => a,
        Err(e) => {
            let m = concat("Invalid gateway IP ", gateway);
            let m = concat(m.as_str(), ": ");
            let m = concat(m.as_str(), e.as_str());
            return Err(AppError::RouteError(m));
        },
    };
    if gw >> 24u32 == 127 || gw == 0 {
        return Ok(RouteDecision::Skip);
    }
    let mut gateway_is_local = false;
    let mut i: usize = 0;
    while i < local_nets.len()
        invariant
            i <= local_nets.len(),
            valid_nets(local_nets@),
            gateway_is_local == exists|j: int| 0 <= j < i && (#[trigger] local_nets@[j] matches IpNet::V4 { addr, prefix } && spec_contains(addr, prefix, gw)),
        decreases local_nets.len() - i,
    {
        if let IpNet::V4 { addr, prefix } = local_nets[i] {
            assert(local_nets@[i as int] matches IpNet::V4 { prefix, .. });
            if ipv4_network_contains(addr, prefix, gw) {
                gateway_is_local = true;
            }
        }
        i += 1;
    }
    if !gateway_is_local {
        return Ok(RouteDecision::Skip);
    }
    match network {
        IpNet::V4 { addr, prefix } => {
            let dest_net = ipv4_network_address(addr, prefix);
            let mut is_local = false;
            let mut i: usize = 0;
            while i < local_nets.len()
                invariant
                    i <= local_nets.len(),
                    valid_nets(local_nets@),
                    is_local == exists|j: int| 0 <= j < i && (#[trigger] local_nets@[j] matches IpNet::V4 { addr: a, prefix: p } && spec_network(a, p) == dest_net && p == prefix),
                decreases local_nets.len() - i,
            {
                if let IpNet::V4 { addr: a, prefix: p } = local_nets[i] {
                    assert(local_nets@[i as int] matches IpNet::V4 { prefix, .. });
                    if ipv4_network_address(a, p) == dest_net && p == prefix {
                        is_local = true;
                    }
                }
                i += 1;
            }
            if is_local {
                Ok(RouteDecision::Skip)
            } else {
                Ok(RouteDecision::Install { network: dest_net, prefix, gateway: gw })
            }
        },
        IpNet::V6 { .. } => Ok(RouteDecision::Ipv6Unsupported),
    }
}

} // verus!
