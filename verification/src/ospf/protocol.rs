use vstd::prelude::*;
use crate::assoc::{assoc_map, assoc_unique, has_key, key_index, upsert, lemma_key_index, lemma_has_key, lemma_upsert, find_key};
use crate::net_utils::{IpAddress, SocketAddress};
use petgraph::algo::dijkstra;
use petgraph::graph::{NodeIndex, UnGraph};
use crate::ospf::types::{
    RouterConfig, LinkState, Link, Neighbor, NeighborState, HelloPacket, LSAHeader, RouterLSA, RouterLSAV,
    RouterLSALink, RoutingEntry, RoutingEntryV, current_timestamp,
};

verus! {

/// The router-LSA pairs of a database, by value.
pub open spec fn lsa_pairs(s: Seq<(u32, RouterLSA)>) -> Seq<(u32, RouterLSAV)> {
    s.map_values(|p: (u32, RouterLSA)| (p.0, p.1@))
}

/// The values of a routing table.
pub open spec fn table_view(s: Seq<RoutingEntry>) -> Seq<RoutingEntryV> {
    s.map_values(|e: RoutingEntry| e@)
}

/// The neighbour that a HELLO from `id`, received on `addr` at `now`,
/// leaves: the known one (or a new one in state `Init`), seen at `now`,
/// and in state `TwoWay` when the HELLO lists this router.
pub open spec fn hello_neighbor(
    nbrs: Seq<(u32, Neighbor)>,
    id: u32,
    addr: u32,
    now: u64,
    lists_us: bool,
) -> Neighbor {
    let base = if has_key(nbrs, id) {
        assoc_map(nbrs)[id]
    } else {
        Neighbor { router_id: id, state: NeighborState::Init, last_seen: now, interface_addr: addr }
    };
    Neighbor { last_seen: now, state: if lists_us { NeighborState::TwoWay } else { base.state }, ..base }
}

/// The links after a HELLO from `id` at `now`: its link, if there is one,
/// is up and has just heard a HELLO.
pub open spec fn hello_links(links: Seq<(u32, Link)>, id: u32, now: u64) -> Seq<(u32, Link)> {
    if has_key(links, id) {
        upsert(links, id, Link { last_hello: now, state: LinkState::Up, ..assoc_map(links)[id] })
    } else {
        links
    }
}

/// Neighbours and links before (`n0`, `l0`) and after (`n1`, `l1`) a
/// HELLO from router `id` sent from `sender` and received at `now`;
/// `lists_us` tells whether the HELLO lists this router.  A HELLO from an
/// IPv6 address changes nothing.
pub open spec fn after_hello(
    n0: Seq<(u32, Neighbor)>,
    l0: Seq<(u32, Link)>,
    n1: Seq<(u32, Neighbor)>,
    l1: Seq<(u32, Link)>,
    id: u32,
    lists_us: bool,
    sender: IpAddress,
    now: u64,
) -> bool {
    match sender {
        IpAddress::V4(addr) => n1 == upsert(n0, id, hello_neighbor(n0, id, addr, now, lists_us)) && l1 == hello_links(
            l0,
            id,
            now,
        ),
        IpAddress::V6(_) => n1 == n0 && l1 == l0,
    }
}

/// The key of the first link that is up, in the order of the links.
pub open spec fn first_up_link(links: Seq<(u32, Link)>) -> Option<u32>
    decreases links.len(),
{
    if links.len() == 0 {
        None
    } else if links[0].1.state == LinkState::Up {
        Some(links[0].0)
    } else {
        first_up_link(links.drop_first())
    }
}

/// An OSPF router: its neighbours, links and LSA database (each keyed by
/// router id, at most one entry per key), its routing table and the
/// sequence number of its next LSA.
pub struct OSPFProtocol {
    config: RouterConfig,
    neighbors: Vec<(u32, Neighbor)>,
    links: Vec<(u32, Link)>,
    lsa_database: Vec<(u32, RouterLSA)>,
    routing_table: Vec<RoutingEntry>,
    sequence_number: u32,
}

impl OSPFProtocol {
    pub closed spec fn wf(&self) -> bool {
        &&& assoc_unique(self.neighbors@)
        &&& assoc_unique(self.links@)
        &&& assoc_unique(lsa_pairs(self.lsa_database@))
    }

    /// This router's id.
    pub closed spec fn router_id(&self) -> u32 {
        self.config.router_id
    }

    /// The configured timers: HELLO interval and dead interval.
    pub closed spec fn hello_interval(&self) -> u32 {
        self.config.hello_interval
    }

    pub closed spec fn dead_interval(&self) -> u32 {
        self.config.dead_interval
    }

    /// The neighbours, in the order they were first heard.
    pub closed spec fn neighbor_entries(&self) -> Seq<(u32, Neighbor)> {
        self.neighbors@
    }

    /// The links, in the order they were first added.
    pub closed spec fn link_entries(&self) -> Seq<(u32, Link)> {
        self.links@
    }

    /// The LSA database, in the order the routers were first heard of.
    pub closed spec fn lsa_entries(&self) -> Seq<(u32, RouterLSAV)> {
        lsa_pairs(self.lsa_database@)
    }

    /// The routing table.
    pub closed spec fn table(&self) -> Seq<RoutingEntryV> {
        table_view(self.routing_table@)
    }

    /// The sequence number of the next LSA.
    pub closed spec fn next_sequence(&self) -> u32 {
        self.sequence_number
    }

    /// A router with this configuration, knowing nothing yet; its first LSA
    /// will have sequence number 1.
    pub fn new(config: RouterConfig) -> (p: Self)
        ensures
            p.wf(),
            p.router_id() == config.router_id,
            p.hello_interval() == config.hello_interval,
            p.dead_interval() == config.dead_interval,
            p.neighbor_entries() == Seq::<(u32, Neighbor)>::empty(),
            p.link_entries() == Seq::<(u32, Link)>::empty(),
            p.lsa_entries() == Seq::<(u32, RouterLSAV)>::empty(),
            p.table() == Seq::<RoutingEntryV>::empty(),
            p.next_sequence() == 1,
    {
        let p = OSPFProtocol {
            config,
            neighbors: Vec::new(),
            links: Vec::new(),
            lsa_database: Vec::new(),
            routing_table: Vec::new(),
            sequence_number: 1,
        };
        assert(lsa_pairs(p.lsa_database@) =~= Seq::empty());
        assert(table_view(p.routing_table@) =~= Seq::empty());
        p
    }

    /// Handles a HELLO received from `sender_ip` at time `now`.  A HELLO
    /// from an IPv6 address changes nothing.  Otherwise the sender becomes
    /// (or stays) a neighbour, seen at `now`, in state `TwoWay` when the
    /// HELLO lists this router; the link to the sender, if any, comes up.
    pub fn process_hello_at(&mut self, hello: &HelloPacket, sender_ip: IpAddress, now: u64)
        requires
            old(self).wf(),
        ensures
            final(self).wf(),
            final(self).router_id() == old(self).router_id(),
            final(self).hello_interval() == old(self).hello_interval(),
            final(self).dead_interval() == old(self).dead_interval(),
            final(self).lsa_entries() == old(self).lsa_entries(),
            final(self).table() == old(self).table(),
            final(self).next_sequence() == old(self).next_sequence(),
            after_hello(
                old(self).neighbor_entries(),
                old(self).link_entries(),
                final(self).neighbor_entries(),
                final(self).link_entries(),
                hello.router_id,
                hello.neighbors@.contains(old(self).router_id()),
                sender_ip,
                now,
            ),
    {
        let addr = match sender_ip {
            IpAddress::V4(a) => a,
            IpAddress::V6(_) => return,
        };
        let id = hello.router_id;
        let mut lists_us = false;
        let mut i: usize = 0;
        while i < hello.neighbors.len()
            invariant
                i <= hello.neighbors@.len(),
                lists_us == (exists|j: int| 0 <= j < i && hello.neighbors@[j] == self.config.router_id),
            decreases hello.neighbors.len() - i,
        {
            if hello.neighbors[i] == self.config.router_id {
                lists_us = true;
            }
            i += 1;
        }
        let ghost n0 = self.neighbors@;
        let base = match find_key(&self.neighbors, id) {
            Some(k) => {
                proof {
                    lemma_key_index(n0, k as int);
                    lemma_has_key(n0, id);
                }
                self.neighbors[k].1
            },
            None => {
                Neighbor { router_id: id, state: NeighborState::Init, last_seen: now, interface_addr: addr }
            },
        };
        let n2 = Neighbor {
            router_id: base.router_id,
            state: if lists_us {
                NeighborState::TwoWay
            } else {
                base.state
            },
            last_seen: now,
            interface_addr: base.interface_addr,
        };
        proof {
            lemma_has_key(n0, id);
            assert(lists_us == hello.neighbors@.contains(self.config.router_id));
            assert(n2 == hello_neighbor(n0, id, addr, now, hello.neighbors@.contains(self.config.router_id)));
        }
        self.set_neighbor(id, n2);
        let ghost l0 = self.links@;
        match find_key(&self.links, id) {
            Some(k) => {
                let l = self.links[k].1;
                let l2 = Link {
                    neighbor_id: l.neighbor_id,
                    interface_addr: l.interface_addr,
                    cost: l.cost,
                    capacity: l.capacity,
                    state: LinkState::Up,
                    last_hello: now,
                };
                proof {
                    lemma_key_index(l0, k as int);
                    lemma_has_key(l0, id);
                }
                self.links.set(k, (id, l2));
                proof {
                    lemma_upsert(l0, id, l2);
                    assert(self.links@ =~= upsert(l0, id, l2));
                }
            },
            None => {},
        }
    }

    fn set_neighbor(&mut self, id: u32, n: Neighbor)
        requires
            old(self).wf(),
        ensures
            final(self).wf(),
            final(self).neighbors@ == upsert(old(self).neighbors@, id, n),
            final(self).links == old(self).links,
            final(self).lsa_database == old(self).lsa_database,
            final(self).routing_table == old(self).routing_table,
            final(self).config == old(self).config,
            final(self).sequence_number == old(self).sequence_number,
    {
        let ghost n0 = self.neighbors@;
        proof {
            lemma_upsert(n0, id, n);
        }
        match find_key(&self.neighbors, id) {
            Some(k) => {
                proof {
                    lemma_key_index(n0, k as int);
                }
                self.neighbors.set(k, (id, n));
                assert(self.neighbors@ =~= upsert(n0, id, n));
            },
            None => {
                self.neighbors.push((id, n));
            },
        }
    }

    /// Handles a HELLO received now.
    pub fn process_hello(&mut self, hello: &HelloPacket, sender_ip: IpAddress)
        requires
            old(self).wf(),
        ensures
            final(self).wf(),
            final(self).router_id() == old(self).router_id(),
            final(self).lsa_entries() == old(self).lsa_entries(),
            final(self).table() == old(self).table(),
            final(self).next_sequence() == old(self).next_sequence(),
            exists|now: u64|
                after_hello(
                    old(self).neighbor_entries(),
                    old(self).link_entries(),
                    final(self).neighbor_entries(),
                    final(self).link_entries(),
                    hello.router_id,
                    hello.neighbors@.contains(old(self).router_id()),
                    sender_ip,
                    now,
                ),
    {
        let now = current_timestamp();
        self.process_hello_at(hello, sender_ip, now);
    }

    /// Adds the link to `neighbor_id`, replacing the one there was.
    pub fn add_link(&mut self, neighbor_id: u32, link: Link)
        requires
            old(self).wf(),
        ensures
            final(self).wf(),
            final(self).link_entries() == upsert(old(self).link_entries(), neighbor_id, link),
            final(self).router_id() == old(self).router_id(),
            final(self).neighbor_entries() == old(self).neighbor_entries(),
            final(self).lsa_entries() == old(self).lsa_entries(),
            final(self).table() == old(self).table(),
            final(self).next_sequence() == old(self).next_sequence(),
    {
        let ghost l0 = self.links@;
        proof {
            lemma_upsert(l0, neighbor_id, link);
        }
        match find_key(&self.links, neighbor_id) {
            Some(k) => {
                proof {
                    lemma_key_index(l0, k as int);
                }
                self.links.set(k, (neighbor_id, link));
                assert(self.links@ =~= upsert(l0, neighbor_id, link));
            },
            None => {
                self.links.push((neighbor_id, link));
            },
        }
    }

    /// The next hop towards any destination: the first link that is up
    /// (the destination is not looked at).
    pub fn find_next_hop(&self, destination: u32) -> (r: Option<u32>)
        ensures
            r == first_up_link(self.link_entries()),
    {
        let mut i: usize = 0;
        assert(self.links@.subrange(0, self.links@.len() as int) =~= self.links@);
        while i < self.links.len()
            invariant
                i <= self.links@.len(),
                first_up_link(self.links@) == first_up_link(self.links@.subrange(i as int, self.links@.len() as int)),
            decreases self.links.len() - i,
        {
            let ghost rest = self.links@.subrange(i as int, self.links@.len() as int);
            assert(rest.drop_first() =~= self.links@.subrange(i + 1, self.links@.len() as int));
            if self.links[i].1.state == LinkState::Up {
                return Some(self.links[i].0);
            }
            i += 1;
        }
        None
    }

    /// The routing table.
    pub fn get_routing_table(&self) -> (r: &Vec<RoutingEntry>)
        ensures
            table_view(r@) == self.table(),
    {
        &self.routing_table
    }

    /// The sequence number of the next LSA.
    pub fn sequence_number(&self) -> (r: u32)
        ensures
            r == self.next_sequence(),
    {
        self.sequence_number
    }

    /// Acknowledgments need no work; the result is the line to show.
    pub fn process_lsa_ack(&self, headers: Vec<LSAHeader>) -> (line: String)
        ensures
            line@ == "Réception LSA ACK"@,
    {
        "Réception LSA ACK".to_string()
    }
}

/// The routers of the LSA database, in its order.
pub open spec fn lsa_keys(s: Seq<(u32, RouterLSAV)>) -> Seq<u32> {
    s.map_values(|p: (u32, RouterLSAV)| p.0)
}

/// The nodes of the graph built from the LSA database: its routers, and
/// this router at the end when the database does not hold it.
pub open spec fn graph_nodes(s: Seq<(u32, RouterLSAV)>, own: u32) -> Seq<u32> {
    if lsa_keys(s).contains(own) {
        lsa_keys(s)
    } else {
        lsa_keys(s).push(own)
    }
}

/// The position of `id` among the nodes.
pub open spec fn index_in(nodes: Seq<u32>, id: u32) -> int {
    choose|i: int| 0 <= i < nodes.len() && nodes[i] == id
}

/// The edges from node `src` given by a router's LSA links: one per link
/// to a router that is a node, weighted by the link's metric.
pub open spec fn link_edges(src: int, links: Seq<RouterLSALink>, nodes: Seq<u32>) -> Seq<(usize, usize, u32)>
    decreases links.len(),
{
    if links.len() == 0 {
        Seq::empty()
    } else {
        let e = link_edges(src, links.drop_last(), nodes);
        let l = links.last();
        if nodes.contains(l.link_id) {
            e.push((src as usize, index_in(nodes, l.link_id) as usize, l.metric))
        } else {
            e
        }
    }
}

/// The edges of the graph built from the LSA database, router by router.
pub open spec fn graph_edges(s: Seq<(u32, RouterLSAV)>, nodes: Seq<u32>) -> Seq<(usize, usize, u32)>
    decreases s.len(),
{
    if s.len() == 0 {
        Seq::empty()
    } else {
        graph_edges(s.drop_last(), nodes) + link_edges(s.len() - 1, s.last().1.links, nodes)
    }
}

/// `w` is a walk over the undirected `edges` from node `s` to node `t`:
/// each step is an edge, taken in either direction.
pub open spec fn is_edge_walk(edges: Seq<(usize, usize, u32)>, w: Seq<int>, s: int, t: int) -> bool
    decreases w.len(),
{
    if w.len() == 0 {
        s == t
    } else {
        let e = w.last();
        &&& 0 <= e < edges.len()
        &&& {
            ||| edges[e].1 as int == t && is_edge_walk(edges, w.drop_last(), s, edges[e].0 as int)
            ||| edges[e].0 as int == t && is_edge_walk(edges, w.drop_last(), s, edges[e].1 as int)
        }
    }
}

/// The sum of the weights of the edges of a walk.
pub open spec fn edge_walk_weight(edges: Seq<(usize, usize, u32)>, w: Seq<int>) -> nat
    decreases w.len(),
{
    if w.len() == 0 {
        0
    } else {
        edge_walk_weight(edges, w.drop_last()) + edges[w.last()].2 as nat
    }
}

/// `x` is the least weight of a walk from `start` to `v`.
pub open spec fn least_distance(edges: Seq<(usize, usize, u32)>, start: int, v: int, x: nat) -> bool {
    &&& exists|w: Seq<int>| #[trigger] is_edge_walk(edges, w, start, v) && edge_walk_weight(edges, w) == x
    &&& forall|w: Seq<int>| #[trigger] is_edge_walk(edges, w, start, v) ==> edge_walk_weight(edges, w) >= x
}

/// `d` gives, for each of the `n` nodes, the least weight of a walk from
/// `start` to it, or `None` when no walk reaches it.
pub open spec fn least_distances(n: nat, edges: Seq<(usize, usize, u32)>, start: int, d: Seq<Option<u128>>) -> bool {
    &&& d.len() == n
    &&& forall|v: int|
        0 <= v < n ==> match #[trigger] d[v] {
            Some(x) => least_distance(edges, start, v, x as nat),
            None => forall|w: Seq<int>| !#[trigger] is_edge_walk(edges, w, start, v),
        }
}

/// The step from node `a` over an edge of weight `w` to node `b` keeps
/// Dijkstra's sums within `u32`: unless `b` is strictly nearer the start
/// than `a` (and so is finished before `a`), `a`'s distance plus `w` fits.
pub open spec fn step_fits(edges: Seq<(usize, usize, u32)>, start: int, a: int, b: int, w: u32) -> bool {
    forall|x: nat|
        #[trigger] least_distance(edges, start, a, x) ==> x + w <= u32::MAX || exists|y: nat|
            #[trigger] least_distance(edges, start, b, y) && y < x
}

/// Dijkstra's sums in `u32` from `start` over these edges never overflow:
/// every step over an edge, in either direction, fits.
pub open spec fn distances_fit(edges: Seq<(usize, usize, u32)>, start: int) -> bool {
    forall|e: int|
        0 <= e < edges.len() ==> #[trigger] step_fits(edges, start, edges[e].0 as int, edges[e].1 as int, edges[e].2)
            && step_fits(edges, start, edges[e].1 as int, edges[e].0 as int, edges[e].2)
}

/// The distances that fit in `u32`, as `u32`.
pub open spec fn narrow(d: Seq<Option<u128>>) -> Seq<Option<u32>> {
    d.map_values(|o: Option<u128>| match o {
        Some(x) => Some(x as u32),
        None => None,
    })
}

/// What petgraph's `dijkstra` gives on the undirected graph with `n` nodes
/// and these weighted edges, from node `start`: each node's distance, when
/// it is reached.
pub uninterp spec fn spec_dijkstra_distances(n: nat, edges: Seq<(usize, usize, u32)>, start: usize) -> Seq<
    Option<u128>,
>;

/// Distances from `start` by `petgraph::algo::dijkstra` on an undirected
/// graph of `n` nodes (0 to n - 1) and the given edges `(a, b, weight)`,
/// the weights taken as `u128`: as its documentation says, the length of
/// the shortest path from the start to every reachable node (the least
/// weight of a walk), and none for a node it does not reach; the start is
/// at distance 0.  Each score is the weight of a walk that uses every edge
/// at most once (edges into visited nodes are skipped), so it is below
/// `2^64 * 2^32` and the `u128` sums never overflow.
#[verifier::external_body]
fn dijkstra_distances(n: usize, edges: &Vec<(usize, usize, u32)>, start: usize) -> (r: Vec<Option<u128>>)
    requires
        start < n,
        forall|k: int| 0 <= k < edges@.len() ==> edges@[k].0 < n && edges@[k].1 < n,
    ensures
        r@ == spec_dijkstra_distances(n as nat, edges@, start),
        r@.len() == n,
        r@[start as int] == Some(0u128),
        least_distances(n as nat, edges@, start as int, r@),
{
    let mut graph: UnGraph<(), u128> = UnGraph::new_undirected();
    let idx: Vec<NodeIndex> = (0..n).map(|_| graph.add_node(())).collect();
    for &(a, b, w) in edges.iter() {
        graph.add_edge(idx[a], idx[b], w as u128);
    }
    let d = dijkstra(&graph, idx[start], None, |e| *e.weight());
    idx.iter().map(|i| d.get(i).copied()).collect()
}

proof fn lemma_least_unique(edges: Seq<(usize, usize, u32)>, start: int, v: int, x: nat, y: nat)
    requires
        least_distance(edges, start, v, x),
        least_distance(edges, start, v, y),
    ensures
        x == y,
{
    let wx = choose|w: Seq<int>| #[trigger] is_edge_walk(edges, w, start, v) && edge_walk_weight(edges, w) == x;
    let wy = choose|w: Seq<int>| #[trigger] is_edge_walk(edges, w, start, v) && edge_walk_weight(edges, w) == y;
}

/// When the sums fit, every distance fits in `u32`.
proof fn lemma_distances_fit_u32(n: nat, edges: Seq<(usize, usize, u32)>, start: int, d: Seq<Option<u128>>, v: int)
    requires
        least_distances(n, edges, start, d),
        distances_fit(edges, start),
        forall|k: int| 0 <= k < edges.len() ==> edges[k].0 < n && edges[k].1 < n,
        0 <= v < n,
        d[v] is Some,
    ensures
        d[v]->0 <= u32::MAX,
{
    let x = d[v]->0 as nat;
    assert(least_distance(edges, start, v, x));
    let w = choose|w: Seq<int>| #[trigger] is_edge_walk(edges, w, start, v) && edge_walk_weight(edges, w) == x;
    if w.len() > 0 && x > u32::MAX {
        let e = w.last();
        let p = w.drop_last();
        let we = edges[e].2;
        assert(edge_walk_weight(edges, w) == edge_walk_weight(edges, p) + we);
        let a: int = if edges[e].1 as int == v && is_edge_walk(edges, p, start, edges[e].0 as int) {
            edges[e].0 as int
        } else {
            edges[e].1 as int
        };
        assert(is_edge_walk(edges, p, start, a));
        assert(0 <= a < n);
        match d[a] {
            Some(xa0) => {
                let xa = xa0 as nat;
                assert(least_distance(edges, start, a, xa));
                assert(edge_walk_weight(edges, p) >= xa);
                // the walk to `a` then over `e` reaches `v`
                let wa = choose|w2: Seq<int>| #[trigger] is_edge_walk(edges, w2, start, a) && edge_walk_weight(edges, w2) == xa;
                let w3 = wa.push(e);
                assert(w3.drop_last() =~= wa);
                assert(is_edge_walk(edges, w3, start, v));
                assert(edge_walk_weight(edges, w3) == xa + we);
                assert(x <= xa + we);
                assert(x == xa + we);
                assert(step_fits(edges, start, edges[e].0 as int, edges[e].1 as int, edges[e].2));
                assert(step_fits(edges, start, edges[e].1 as int, edges[e].0 as int, edges[e].2));
                assert(step_fits(edges, start, a, v, we));
                if !(xa + we <= u32::MAX) {
                    let y = choose|y: nat| #[trigger] least_distance(edges, start, v, y) && y < xa;
                    lemma_least_unique(edges, start, v, x, y);
                }
            },
            None => {
                assert(!is_edge_walk(edges, p, start, a));
            },
        }
    }
}

/// The distances as `u32`, all of which fit.
fn narrow_distances(d: &Vec<Option<u128>>) -> (r: Vec<Option<u32>>)
    requires
        forall|v: int| 0 <= v < d@.len() && #[trigger] d@[v] is Some ==> d@[v]->0 <= u32::MAX,
    ensures
        r@ == narrow(d@),
{
    let mut r: Vec<Option<u32>> = Vec::new();
    let mut i: usize = 0;
    while i < d.len()
        invariant
            i <= d@.len(),
            forall|v: int| 0 <= v < d@.len() && #[trigger] d@[v] is Some ==> d@[v]->0 <= u32::MAX,
            r@ == narrow(d@.take(i as int)),
        decreases d.len() - i,
    {
        let x = match d[i] {
            Some(v) => Some(v as u32),
            None => None,
        };
        r.push(x);
        i += 1;
        assert(r@ =~= narrow(d@.take(i as int)));
    }
    assert(d@.take(d@.len() as int) =~= d@);
    r
}

/// The routes to the reached nodes other than `own`, in node order: the
/// node's distance as cost, `hop` as next hop (the node itself when there
/// is none), on interface `eth0`.
pub open spec fn routes_from(nodes: Seq<u32>, own: u32, dist: Seq<Option<u32>>, hop: Option<u32>) -> Seq<
    RoutingEntryV,
>
    decreases nodes.len(),
{
    if nodes.len() == 0 {
        Seq::empty()
    } else {
        let r = routes_from(nodes.drop_last(), own, dist, hop);
        let i = nodes.len() - 1;
        let d = nodes[i];
        if d != own && dist[i] is Some {
            r.push(
                RoutingEntryV {
                    destination: d,
                    next_hop: match hop {
                        Some(h) => h,
                        None => d,
                    },
                    cost: dist[i]->0,
                    interface: "eth0"@,
                },
            )
        } else {
            r
        }
    }
}

/// The routing table for these nodes, from the distances computed from
/// `own` and the next hop to use.
pub fn build_routing_table(nodes: &Vec<u32>, own: u32, dist: &Vec<Option<u32>>, hop: Option<u32>) -> (t: Vec<
    RoutingEntry,
>)
    requires
        dist@.len() == nodes@.len(),
    ensures
        table_view(t@) == routes_from(nodes@, own, dist@, hop),
{
    let mut t: Vec<RoutingEntry> = Vec::new();
    let mut i: usize = 0;
    while i < nodes.len()
        invariant
            i <= nodes@.len(),
            dist@.len() == nodes@.len(),
            table_view(t@) == routes_from(nodes@.take(i as int), own, dist@, hop),
        decreases nodes.len() - i,
    {
        let ghost t0 = t@;
        assert(nodes@.take(i + 1).drop_last() =~= nodes@.take(i as int));
        if nodes[i] != own {
            match dist[i] {
                Some(cost) => {
                    let d = nodes[i];
                    let next_hop = match hop {
                        Some(h) => h,
                        None => d,
                    };
                    t.push(RoutingEntry { destination: d, next_hop, cost, interface: "eth0".to_string() });
                    assert(table_view(t@) =~= table_view(t0).push(t@.last()@));
                },
                None => {},
            }
        }
        i += 1;
    }
    assert(nodes@.take(nodes@.len() as int) =~= nodes@);
    t
}

fn index_of(nodes: &Vec<u32>, id: u32) -> (r: Option<usize>)
    ensures
        match r {
            Some(i) => i < nodes@.len() && nodes@[i as int] == id,
            None => !nodes@.contains(id),
        },
{
    let mut i: usize = 0;
    while i < nodes.len()
        invariant
            i <= nodes@.len(),
            forall|j: int| 0 <= j < i ==> nodes@[j] != id,
        decreases nodes.len() - i,
    {
        if nodes[i] == id {
            return Some(i);
        }
        i += 1;
    }
    None
}

/// No node occurs twice.
pub open spec fn unique_nodes(nodes: Seq<u32>) -> bool {
    forall|a: int, b: int| 0 <= a < nodes.len() && 0 <= b < nodes.len() && a != b ==> nodes[a] != nodes[b]
}

proof fn lemma_index_in(nodes: Seq<u32>, i: int)
    requires
        unique_nodes(nodes),
        0 <= i < nodes.len(),
    ensures
        index_in(nodes, nodes[i]) == i,
{
    let j = index_in(nodes, nodes[i]);
    assert(0 <= j < nodes.len() && nodes[j] == nodes[i]);
}

/// The distances from router `own` to the nodes of the graph of the LSA
/// database, as petgraph's Dijkstra computes them.
pub open spec fn ospf_distances(s: Seq<(u32, RouterLSAV)>, own: u32) -> Seq<Option<u128>> {
    let nodes = graph_nodes(s, own);
    spec_dijkstra_distances(nodes.len(), graph_edges(s, nodes), index_in(nodes, own) as usize)
}

/// Dijkstra's sums over the graph of an LSA database, from router `own`,
/// fit in `u32`.
pub open spec fn ospf_fits(s: Seq<(u32, RouterLSAV)>, own: u32) -> bool {
    let nodes = graph_nodes(s, own);
    distances_fit(graph_edges(s, nodes), index_in(nodes, own))
}

/// The routing table computed from an LSA database for router `own` with
/// these links: the routes to the routers reached from `own` over the
/// database's graph, at their distance, through the first link that is up.
pub open spec fn routes_for(s: Seq<(u32, RouterLSAV)>, own: u32, links: Seq<(u32, Link)>) -> Seq<RoutingEntryV> {
    routes_from(graph_nodes(s, own), own, narrow(ospf_distances(s, own)), first_up_link(links))
}

/// The graph of an LSA database seen from router `own`: its nodes, its
/// edges and the position of `own` among the nodes.
fn build_graph(db: &Vec<(u32, RouterLSA)>, own: u32) -> (g: (Vec<u32>, Vec<(usize, usize, u32)>, usize))
    requires
        assoc_unique(lsa_pairs(db@)),
    ensures
        g.0@ == graph_nodes(lsa_pairs(db@), own),
        unique_nodes(g.0@),
        g.1@ == graph_edges(lsa_pairs(db@), g.0@),
        forall|k: int| 0 <= k < g.1@.len() ==> g.1@[k].0 < g.0@.len() && g.1@[k].1 < g.0@.len(),
        g.2 < g.0@.len(),
        g.2 == index_in(g.0@, own),
{
        let ghost s = lsa_pairs(db@);
        let mut nodes: Vec<u32> = Vec::new();
        let mut i: usize = 0;
        while i < db.len()
            invariant
                i <= db@.len(),
                s == lsa_pairs(db@),
                nodes@ == lsa_keys(s.take(i as int)),
            decreases db.len() - i,
        {
            nodes.push(db[i].0);
            i += 1;
            assert(nodes@ =~= lsa_keys(s.take(i as int)));
        }
        assert(s.take(s.len() as int) =~= s);
        proof {
            assert forall|a: int, b: int| 0 <= a < nodes@.len() && 0 <= b < nodes@.len() && a != b implies nodes@[a]
                != nodes@[b] by {
                assert(nodes@[a] == s[a].0);
                assert(nodes@[b] == s[b].0);
            }
        }
        if index_of(&nodes, own).is_none() {
            let ghost n0 = nodes@;
            nodes.push(own);
            proof {
                assert forall|a: int, b: int| 0 <= a < nodes@.len() && 0 <= b < nodes@.len() && a != b implies nodes@[a]
                    != nodes@[b] by {
                    if a < n0.len() && b < n0.len() {
                        assert(nodes@[a] == n0[a] && nodes@[b] == n0[b]);
                    } else if a < n0.len() {
                        assert(nodes@[a] == n0[a]);
                        assert(nodes@[b] == own);
                        if n0[a] == own {
                            assert(n0.contains(own));
                        }
                    } else if b < n0.len() {
                        assert(nodes@[b] == n0[b]);
                        assert(nodes@[a] == own);
                        if n0[b] == own {
                            assert(n0.contains(own));
                        }
                    }
                }
            }
        }
        let ghost ns = nodes@;
        assert(ns == graph_nodes(s, own));
        assert(unique_nodes(ns));
        let n = nodes.len();
        let mut edges: Vec<(usize, usize, u32)> = Vec::new();
        let mut i: usize = 0;
        while i < db.len()
            invariant
                i <= db@.len(),
                s == lsa_pairs(db@),
                nodes@ == ns,
                unique_nodes(ns),
                n == ns.len(),
                s.len() <= ns.len(),
                edges@ == graph_edges(s.take(i as int), ns),
                forall|k: int| 0 <= k < edges@.len() ==> edges@[k].0 < n && edges@[k].1 < n,
            decreases db.len() - i,
        {
            let links = &db[i].1.links;
            let ghost e0 = edges@;
            assert(s[i as int].1.links == links@);
            let mut j: usize = 0;
            while j < links.len()
                invariant
                    i < db@.len(),
                    s == lsa_pairs(db@),
                    links == &db@[i as int].1.links,
                    nodes@ == ns,
                    unique_nodes(ns),
                    n == ns.len(),
                    s.len() <= ns.len(),
                    j <= links@.len(),
                    edges@ == e0 + link_edges(i as int, links@.take(j as int), ns),
                    forall|k: int| 0 <= k < edges@.len() ==> edges@[k].0 < n && edges@[k].1 < n,
                decreases links.len() - j,
            {
                let l = links[j];
                assert(links@.take(j + 1).drop_last() =~= links@.take(j as int));
                match index_of(&nodes, l.link_id) {
                    Some(t) => {
                        proof {
                            lemma_index_in(ns, t as int);
                        }
                        edges.push((i, t, l.metric));
                        assert(edges@ =~= e0 + link_edges(i as int, links@.take(j + 1), ns));
                    },
                    None => {},
                }
                j += 1;
            }
            proof {
                assert(links@.take(links@.len() as int) =~= links@);
                assert(s.take(i + 1).drop_last() =~= s.take(i as int));
                assert(s.take(i + 1).last() == s[i as int]);
            }
            i += 1;
        }
        proof {
            assert(s.take(s.len() as int) =~= s);
        }
        let own_idx = match index_of(&nodes, own) {
            Some(k) => k,
            None => {
                assert(ns.contains(own)) by {
                    if lsa_keys(s).contains(own) {
                    } else {
                        assert(ns[ns.len() - 1] == own);
                    }
                }
                0
            },
        };
        proof {
            lemma_index_in(ns, own_idx as int);
        }
        (nodes, edges, own_idx)
}

/// Whether a step from node `a` over an edge of weight `w` to node `b`
/// fits, given the distances `d`.
pub open spec fn step_ok(d: Seq<Option<u128>>, a: int, b: int, w: u32) -> bool {
    match d[a] {
        None => true,
        Some(x) => x + w <= u32::MAX || (d[b] matches Some(y) && y < x),
    }
}

proof fn lemma_step_fits(n: nat, edges: Seq<(usize, usize, u32)>, start: int, d: Seq<Option<u128>>, a: int, b: int, w: u32)
    requires
        least_distances(n, edges, start, d),
        0 <= a < n,
        0 <= b < n,
    ensures
        step_fits(edges, start, a, b, w) == step_ok(d, a, b, w),
{
    match d[a] {
        None => {
            assert forall|x: nat| !#[trigger] least_distance(edges, start, a, x) by {
                if least_distance(edges, start, a, x) {
                    let wx = choose|wx: Seq<int>| #[trigger] is_edge_walk(edges, wx, start, a) && edge_walk_weight(edges, wx) == x;
                    assert(!is_edge_walk(edges, wx, start, a));
                }
            }
        },
        Some(x0) => {
            assert(least_distance(edges, start, a, x0 as nat));
            if step_fits(edges, start, a, b, w) {
                if !(x0 + w <= u32::MAX) {
                    let y = choose|y: nat| #[trigger] least_distance(edges, start, b, y) && y < x0;
                    match d[b] {
                        Some(y0) => {
                            lemma_least_unique(edges, start, b, y, y0 as nat);
                        },
                        None => {
                            let wy = choose|wy: Seq<int>| #[trigger] is_edge_walk(edges, wy, start, b) && edge_walk_weight(edges, wy) == y;
                            assert(!is_edge_walk(edges, wy, start, b));
                        },
                    }
                }
            }
            if step_ok(d, a, b, w) {
                assert forall|x: nat| #[trigger] least_distance(edges, start, a, x) implies x + w <= u32::MAX || exists|y: nat|
                    #[trigger] least_distance(edges, start, b, y) && y < x by {
                    lemma_least_unique(edges, start, a, x, x0 as nat);
                    if !(x + w <= u32::MAX) {
                        let y0 = d[b]->0;
                        assert(least_distance(edges, start, b, y0 as nat));
                    }
                }
            }
        },
    }
}

/// Whether Dijkstra's sums in `u32` fit, given the exact distances `d`.
fn fits_check(edges: &Vec<(usize, usize, u32)>, d: &Vec<Option<u128>>, Ghost(start): Ghost<int>) -> (r: bool)
    requires
        least_distances(d@.len(), edges@, start, d@),
        forall|k: int| 0 <= k < edges@.len() ==> edges@[k].0 < d@.len() && edges@[k].1 < d@.len(),
    ensures
        r == distances_fit(edges@, start),
{
    let mut i: usize = 0;
    while i < edges.len()
        invariant
            i <= edges@.len(),
            least_distances(d@.len(), edges@, start, d@),
            forall|k: int| 0 <= k < edges@.len() ==> edges@[k].0 < d@.len() && edges@[k].1 < d@.len(),
            forall|e: int|
                0 <= e < i ==> #[trigger] step_fits(edges@, start, edges@[e].0 as int, edges@[e].1 as int, edges@[e].2)
                    && step_fits(edges@, start, edges@[e].1 as int, edges@[e].0 as int, edges@[e].2),
        decreases edges.len() - i,
    {
        let (a, b, w) = edges[i];
        proof {
            lemma_step_fits(d@.len(), edges@, start, d@, a as int, b as int, w);
            lemma_step_fits(d@.len(), edges@, start, d@, b as int, a as int, w);
        }
        let ab = match d[a] {
            None => true,
            Some(x) => x <= (4294967295u128 - w as u128) || match d[b] {
                Some(y) => y < x,
                None => false,
            },
        };
        let ba = match d[b] {
            None => true,
            Some(x) => x <= (4294967295u128 - w as u128) || match d[a] {
                Some(y) => y < x,
                None => false,
            },
        };
        assert(ab == step_ok(d@, a as int, b as int, w));
        assert(ba == step_ok(d@, b as int, a as int, w));
        assert(edges@[i as int] == (a, b, w));
        if !(ab && ba) {
            return false;
        }
        proof {
            assert forall|e: int| 0 <= e < i + 1 implies #[trigger] step_fits(edges@, start, edges@[e].0 as int, edges@[e].1 as int, edges@[e].2)
                && step_fits(edges@, start, edges@[e].1 as int, edges@[e].0 as int, edges@[e].2) by {
                if e == i {
                    assert(step_fits(edges@, start, a as int, b as int, w));
                    assert(step_fits(edges@, start, b as int, a as int, w));
                }
            }
        }
        i += 1;
    }
    true
}

/// Whether Dijkstra's sums in `u32` over the graph of this database, from
/// router `own`, fit.
fn graph_fits(db: &Vec<(u32, RouterLSA)>, own: u32) -> (r: bool)
    requires
        assoc_unique(lsa_pairs(db@)),
    ensures
        r == ospf_fits(lsa_pairs(db@), own),
{
    let (nodes, edges, start) = build_graph(db, own);
    let d = dijkstra_distances(nodes.len(), &edges, start);
    fits_check(&edges, &d, Ghost(start as int))
}

/// A copy of an LSA.
fn copy_lsa(l: &RouterLSA) -> (c: RouterLSA)
    ensures
        c@ == l@,
{
    let mut links: Vec<RouterLSALink> = Vec::new();
    let mut i: usize = 0;
    while i < l.links.len()
        invariant
            i <= l.links@.len(),
            links@ == l.links@.take(i as int),
        decreases l.links.len() - i,
    {
        links.push(l.links[i]);
        i += 1;
        assert(links@ =~= l.links@.take(i as int));
    }
    assert(l.links@.take(l.links@.len() as int) =~= l.links@);
    RouterLSA { header: l.header, flags: l.flags, num_links: l.num_links, links }
}

impl OSPFProtocol {
    /// Recomputes the routing table: shortest distances from this router
    /// over the graph of the LSA database (each the least weight of a walk
    /// to the router); every other reached router gets a route through the
    /// first link that is up.
    pub fn calculate_routing_table(&mut self)
        requires
            old(self).wf(),
            ospf_fits(old(self).lsa_entries(), old(self).router_id()),
        ensures
            final(self).wf(),
            final(self).table() == routes_for(old(self).lsa_entries(), old(self).router_id(), old(self).link_entries()),
            least_distances(
                graph_nodes(old(self).lsa_entries(), old(self).router_id()).len(),
                graph_edges(old(self).lsa_entries(), graph_nodes(old(self).lsa_entries(), old(self).router_id())),
                index_in(graph_nodes(old(self).lsa_entries(), old(self).router_id()), old(self).router_id()),
                ospf_distances(old(self).lsa_entries(), old(self).router_id()),
            ),
            forall|v: int|
                0 <= v < ospf_distances(old(self).lsa_entries(), old(self).router_id()).len()
                    && #[trigger] ospf_distances(old(self).lsa_entries(), old(self).router_id())[v] is Some
                    ==> ospf_distances(old(self).lsa_entries(), old(self).router_id())[v]->0 <= u32::MAX,
            final(self).router_id() == old(self).router_id(),
            final(self).hello_interval() == old(self).hello_interval(),
            final(self).dead_interval() == old(self).dead_interval(),
            final(self).neighbor_entries() == old(self).neighbor_entries(),
            final(self).link_entries() == old(self).link_entries(),
            final(self).lsa_entries() == old(self).lsa_entries(),
            final(self).next_sequence() == old(self).next_sequence(),
    {
        let ghost s = lsa_pairs(self.lsa_database@);
        let own = self.config.router_id;
        let (nodes, edges, own_idx) = build_graph(&self.lsa_database, own);
        let ghost ns = nodes@;
        let n = nodes.len();
        let wide = dijkstra_distances(n, &edges, own_idx);
        proof {
            assert(index_in(ns, own) == own_idx);
            assert forall|v: int| 0 <= v < wide@.len() && #[trigger] wide@[v] is Some implies wide@[v]->0 <= u32::MAX by {
                lemma_distances_fit_u32(n as nat, edges@, own_idx as int, wide@, v);
            }
        }
        let dist = narrow_distances(&wide);
        let hop = self.find_next_hop(own);
        self.routing_table = build_routing_table(&nodes, own, &dist, hop);
    }
}

/// An LSA is taken when the database has none from its router, or an
/// older one (lower sequence number).
pub open spec fn lsa_accepted(s: Seq<(u32, RouterLSAV)>, lsa: RouterLSAV) -> bool {
    !has_key(s, lsa.header.advertising_router) || lsa.header.sequence_number > assoc_map(
        s,
    )[lsa.header.advertising_router].header.sequence_number
}

/// Once an LSA has been taken into a database, the same LSA offered again
/// is refused: handing a router the same advertisement twice changes its
/// database and routing table once.
pub proof fn law_lsa_taken_once(s: Seq<(u32, RouterLSAV)>, lsa: RouterLSAV)
    requires
        assoc_unique(s),
    ensures
        !lsa_accepted(upsert(s, lsa.header.advertising_router, lsa), lsa),
{
    let k = lsa.header.advertising_router;
    lemma_upsert(s, k, lsa);
    lemma_has_key(upsert(s, k, lsa), k);
}

/// An LSA whose sequence number is not greater than that of the LSA held for
/// its router is refused.
pub proof fn law_stale_lsa_refused(s: Seq<(u32, RouterLSAV)>, held: RouterLSAV, lsa: RouterLSAV)
    requires
        assoc_unique(s),
        held.header.advertising_router == lsa.header.advertising_router,
        lsa.header.sequence_number <= held.header.sequence_number,
    ensures
        !lsa_accepted(upsert(s, held.header.advertising_router, held), lsa),
{
    let k = held.header.advertising_router;
    lemma_upsert(s, k, held);
    lemma_has_key(upsert(s, k, held), k);
}

/// The LSA links for the links that are up, in the order of the links.
pub open spec fn up_lsa_links(links: Seq<(u32, Link)>) -> Seq<RouterLSALink>
    decreases links.len(),
{
    if links.len() == 0 {
        Seq::empty()
    } else {
        let r = up_lsa_links(links.drop_last());
        let p = links.last();
        if p.1.state == LinkState::Up {
            r.push(
                RouterLSALink {
                    link_id: p.0,
                    link_data: p.1.interface_addr,
                    link_type: 1,
                    num_metrics: 0,
                    metric: p.1.cost,
                },
            )
        } else {
            r
        }
    }
}

/// The router LSA that router `router_id` with these links originates
/// with sequence number `seq`.
pub open spec fn own_lsa(links: Seq<(u32, Link)>, router_id: u32, seq: u32) -> RouterLSAV {
    let ls = up_lsa_links(links);
    RouterLSAV {
        header: LSAHeader {
            lsa_type: 1,
            link_state_id: router_id,
            advertising_router: router_id,
            sequence_number: seq,
            age: 0,
            checksum: 0,
            length: 0,
        },
        flags: 0,
        num_links: ls.len() as u16,
        links: ls,
    }
}

/// A neighbour not heard from for more than `dead` seconds at `now`.
pub open spec fn is_dead(n: Neighbor, now: u64, dead: u32) -> bool {
    now - n.last_seen > dead
}

/// The neighbours still alive at `now`, in order.
pub open spec fn live_neighbors(s: Seq<(u32, Neighbor)>, now: u64, dead: u32) -> Seq<(u32, Neighbor)>
    decreases s.len(),
{
    if s.len() == 0 {
        Seq::empty()
    } else {
        let r = live_neighbors(s.drop_last(), now, dead);
        if is_dead(s.last().1, now, dead) {
            r
        } else {
            r.push(s.last())
        }
    }
}

/// `k` is a neighbour that is dead at `now`.
pub open spec fn dead_id(s: Seq<(u32, Neighbor)>, k: u32, now: u64, dead: u32) -> bool {
    exists|i: int| 0 <= i < s.len() && s[i].0 == k && is_dead(s[i].1, now, dead)
}

/// No neighbour of `s` was last seen after `now`.
pub open spec fn clock_not_behind(s: Seq<(u32, Neighbor)>, now: u64) -> bool {
    forall|i: int| 0 <= i < s.len() ==> s[i].1.last_seen <= now
}

/// A link marked down.
pub open spec fn link_down(p: (u32, Link)) -> (u32, Link) {
    (p.0, Link { state: LinkState::Down, ..p.1 })
}

/// The links after the dead neighbours are dropped: the link to each dead
/// neighbour is down, the others are as they were.
pub open spec fn links_after_cleanup(l: Seq<(u32, Link)>, s: Seq<(u32, Neighbor)>, now: u64, dead: u32) -> Seq<(u32, Link)> {
    l.map_values(|p: (u32, Link)| if dead_id(s, p.0, now, dead) { link_down(p) } else { p })
}

/// What to send in a HELLO round: the packet, the neighbours' addresses to
/// send it to, and the multicast groups.
#[derive(Debug)]
pub struct HelloPlan {
    pub packet: HelloPacket,
    pub unicast: Vec<SocketAddress>,
    pub multicast: Vec<SocketAddress>,
}

/// The port HELLOs are sent to.
pub const HELLO_PORT: u16 = 8080;

impl OSPFProtocol {
    /// Takes `lsa` into the database when it is new or newer than the one
    /// held for its router, and then recomputes the routing table;
    /// otherwise nothing changes.
    pub fn process_lsa(&mut self, lsa: RouterLSA)
        requires
            old(self).wf(),
            lsa_accepted(old(self).lsa_entries(), lsa@) ==> ospf_fits(
                upsert(old(self).lsa_entries(), lsa.header.advertising_router, lsa@),
                old(self).router_id(),
            ),
        ensures
            final(self).wf(),
            lsa_accepted(old(self).lsa_entries(), lsa@) ==> final(self).lsa_entries() == upsert(
                old(self).lsa_entries(),
                lsa.header.advertising_router,
                lsa@,
            ) && final(self).table() == routes_for(final(self).lsa_entries(), old(self).router_id(), old(self).link_entries()),
            !lsa_accepted(old(self).lsa_entries(), lsa@) ==> final(self).lsa_entries() == old(self).lsa_entries()
                && final(self).table() == old(self).table(),
            final(self).router_id() == old(self).router_id(),
            final(self).hello_interval() == old(self).hello_interval(),
            final(self).dead_interval() == old(self).dead_interval(),
            final(self).neighbor_entries() == old(self).neighbor_entries(),
            final(self).link_entries() == old(self).link_entries(),
            final(self).next_sequence() == old(self).next_sequence(),
    {
        let adv = lsa.header.advertising_router;
        let ghost s0 = lsa_pairs(self.lsa_database@);
        let ghost v = lsa@;
        proof {
            lemma_has_key(s0, adv);
            lemma_upsert(s0, adv, v);
        }
        match find_key(&self.lsa_database, adv) {
            Some(k) => {
                proof {
                    assert(s0[k as int] == (adv, self.lsa_database@[k as int].1@));
                    lemma_key_index(s0, k as int);
                }
                if lsa.header.sequence_number > self.lsa_database[k].1.header.sequence_number {
                    self.lsa_database.set(k, (adv, lsa));
                    assert(lsa_pairs(self.lsa_database@) =~= upsert(s0, adv, v));
                    self.calculate_routing_table();
                }
            },
            None => {
                proof {
                    assert forall|i: int| 0 <= i < s0.len() implies s0[i].0 != adv by {
                        assert(s0[i].0 == self.lsa_database@[i].0);
                    }
                    assert(!has_key(s0, adv));
                }
                self.lsa_database.push((adv, lsa));
                assert(lsa_pairs(self.lsa_database@) =~= upsert(s0, adv, v));
                self.calculate_routing_table();
            },
        }
    }

    fn build_own_lsa(&self) -> (lsa: RouterLSA)
        ensures
            lsa@ == own_lsa(self.link_entries(), self.router_id(), self.next_sequence()),
    {
        let mut lsa_links: Vec<RouterLSALink> = Vec::new();
        let mut i: usize = 0;
        while i < self.links.len()
            invariant
                i <= self.links@.len(),
                lsa_links@ == up_lsa_links(self.links@.take(i as int)),
            decreases self.links.len() - i,
        {
            let p = self.links[i];
            assert(self.links@.take(i + 1).drop_last() =~= self.links@.take(i as int));
            if p.1.state == LinkState::Up {
                lsa_links.push(
                    RouterLSALink { link_id: p.0, link_data: p.1.interface_addr, link_type: 1, num_metrics: 0, metric: p.1.cost },
                );
            }
            i += 1;
        }
        assert(self.links@.take(self.links@.len() as int) =~= self.links@);
        let num_links = lsa_links.len() as u16;
        RouterLSA {
            header: LSAHeader {
                lsa_type: 1,
                link_state_id: self.config.router_id,
                advertising_router: self.config.router_id,
                sequence_number: self.sequence_number,
                age: 0,
                checksum: 0,
                length: 0,
            },
            flags: 0,
            num_links,
            links: lsa_links,
        }
    }

    /// Originates this router's LSA from its links that are up, stores it
    /// in the database under this router and moves to the next sequence
    /// number.  The result is the LSA, to be flooded.
    pub fn generate_and_flood_lsa(&mut self) -> (lsa: RouterLSA)
        requires
            old(self).wf(),
            old(self).next_sequence() < u32::MAX,
        ensures
            final(self).wf(),
            lsa@ == own_lsa(old(self).link_entries(), old(self).router_id(), old(self).next_sequence()),
            final(self).lsa_entries() == upsert(old(self).lsa_entries(), old(self).router_id(), lsa@),
            final(self).next_sequence() == old(self).next_sequence() + 1,
            final(self).router_id() == old(self).router_id(),
            final(self).hello_interval() == old(self).hello_interval(),
            final(self).dead_interval() == old(self).dead_interval(),
            final(self).neighbor_entries() == old(self).neighbor_entries(),
            final(self).link_entries() == old(self).link_entries(),
            final(self).table() == old(self).table(),
    {
        let stored = self.build_own_lsa();
        let lsa = self.build_own_lsa();
        let rid = self.config.router_id;
        let ghost s0 = lsa_pairs(self.lsa_database@);
        let ghost v = lsa@;
        proof {
            lemma_upsert(s0, rid, v);
        }
        match find_key(&self.lsa_database, rid) {
            Some(k) => {
                proof {
                    assert(s0[k as int].0 == rid);
                    lemma_key_index(s0, k as int);
                }
                self.lsa_database.set(k, (rid, stored));
                assert(lsa_pairs(self.lsa_database@) =~= upsert(s0, rid, v));
            },
            None => {
                proof {
                    assert forall|i: int| 0 <= i < s0.len() implies s0[i].0 != rid by {
                        assert(s0[i].0 == self.lsa_database@[i].0);
                    }
                    assert(!has_key(s0, rid));
                }
                self.lsa_database.push((rid, stored));
                assert(lsa_pairs(self.lsa_database@) =~= upsert(s0, rid, v));
            },
        }
        self.sequence_number = self.sequence_number + 1;
        lsa
    }

    /// Drops the neighbours not heard from for more than the dead interval
    /// at `now`, marks their links down, and recomputes the routing table
    /// when some neighbour is left.
    pub fn cleanup_dead_neighbors_at(&mut self, now: u64)
        requires
            old(self).wf(),
            forall|i: int| 0 <= i < old(self).neighbor_entries().len() ==> old(self).neighbor_entries()[i].1.last_seen <= now,
            live_neighbors(old(self).neighbor_entries(), now, old(self).dead_interval()).len() > 0 ==> ospf_fits(
                old(self).lsa_entries(),
                old(self).router_id(),
            ),
        ensures
            final(self).wf(),
            final(self).neighbor_entries() == live_neighbors(old(self).neighbor_entries(), now, old(self).dead_interval()),
            final(self).link_entries() == links_after_cleanup(
                old(self).link_entries(),
                old(self).neighbor_entries(),
                now,
                old(self).dead_interval(),
            ),
            final(self).table() == if final(self).neighbor_entries().len() > 0 {
                routes_for(old(self).lsa_entries(), old(self).router_id(), final(self).link_entries())
            } else {
                old(self).table()
            },
            final(self).router_id() == old(self).router_id(),
            final(self).hello_interval() == old(self).hello_interval(),
            final(self).dead_interval() == old(self).dead_interval(),
            final(self).lsa_entries() == old(self).lsa_entries(),
            final(self).next_sequence() == old(self).next_sequence(),
    {
        let dead = self.config.dead_interval;
        let ghost n0 = self.neighbors@;
        let ghost l0 = self.links@;
        let mut live: Vec<(u32, Neighbor)> = Vec::new();
        let mut dead_ids: Vec<u32> = Vec::new();
        let mut i: usize = 0;
        while i < self.neighbors.len()
            invariant
                i <= n0.len(),
                n0 == self.neighbors@,
                dead == self.config.dead_interval,
                forall|j: int| 0 <= j < n0.len() ==> n0[j].1.last_seen <= now,
                live@ == live_neighbors(n0.take(i as int), now, dead),
                forall|k: u32| dead_ids@.contains(k) <==> dead_id(n0.take(i as int), k, now, dead),
                assoc_unique(n0),
            decreases self.neighbors.len() - i,
        {
            let p = self.neighbors[i];
            let ghost d0 = dead_ids@;
            let ghost s0t = n0.take(i as int);
            let ghost s1 = n0.take(i + 1);
            assert(s1.drop_last() =~= s0t);
            assert(s1.last() == p);
            assert(forall|j: int| 0 <= j < i ==> s1[j] == s0t[j]);
            assert(s1[i as int] == p);
            if now - p.1.last_seen > dead as u64 {
                dead_ids.push(p.0);
                proof {
                    assert forall|k: u32| dead_ids@.contains(k) <==> dead_id(s1, k, now, dead) by {
                        if dead_ids@.contains(k) {
                            let m = choose|m: int| 0 <= m < dead_ids@.len() && dead_ids@[m] == k;
                            if m < d0.len() {
                                assert(d0[m] == k);
                                assert(d0.contains(k));
                                assert(dead_id(s0t, k, now, dead));
                                let j = choose|j: int| 0 <= j < s0t.len() && s0t[j].0 == k && is_dead(s0t[j].1, now, dead);
                                assert(s1[j] == s0t[j]);
                            } else {
                                assert(s1[i as int] == p);
                            }
                        }
                        if dead_id(s1, k, now, dead) {
                            let j = choose|j: int| 0 <= j < s1.len() && s1[j].0 == k && is_dead(s1[j].1, now, dead);
                            if j < i {
                                assert(s0t[j] == s1[j]);
                                assert(dead_id(s0t, k, now, dead));
                                assert(d0.contains(k));
                                let m = choose|m: int| 0 <= m < d0.len() && d0[m] == k;
                                assert(dead_ids@[m] == k);
                            } else {
                                assert(dead_ids@[d0.len() as int] == k);
                            }
                        }
                    }
                }
            } else {
                live.push(p);
                proof {
                    assert forall|k: u32| dead_ids@.contains(k) <==> dead_id(s1, k, now, dead) by {
                        if dead_id(s1, k, now, dead) {
                            let j = choose|j: int| 0 <= j < s1.len() && s1[j].0 == k && is_dead(s1[j].1, now, dead);
                            assert(j < i);
                            assert(s0t[j] == s1[j]);
                            assert(dead_id(s0t, k, now, dead));
                        }
                        if dead_id(s0t, k, now, dead) {
                            let j = choose|j: int| 0 <= j < s0t.len() && s0t[j].0 == k && is_dead(s0t[j].1, now, dead);
                            assert(s0t[j] == s1[j]);
                        }
                    }
                }
            }
            i += 1;
        }
        assert(n0.take(n0.len() as int) =~= n0);
        proof {
            lemma_live_unique(n0, now, dead);
        }
        self.neighbors = live;
        let mut j: usize = 0;
        while j < dead_ids.len()
            invariant
                j <= dead_ids@.len(),
                self.links@.len() == l0.len(),
                assoc_unique(l0),
                self.neighbors@ == live_neighbors(n0, now, dead),
                assoc_unique(self.neighbors@),
                self.lsa_database == old(self).lsa_database,
                self.config == old(self).config,
                self.routing_table == old(self).routing_table,
                self.sequence_number == old(self).sequence_number,
                forall|m: int|
                    0 <= m < l0.len() ==> self.links@[m] == if dead_ids@.take(j as int).contains(l0[m].0) {
                        link_down(l0[m])
                    } else {
                        l0[m]
                    },
            decreases dead_ids.len() - j,
        {
            let ghost lj = self.links@;
            let id = dead_ids[j];
            match find_key(&self.links, id) {
                Some(k) => {
                    let p = self.links[k];
                    self.links.set(k, (p.0, Link {
                        neighbor_id: p.1.neighbor_id,
                        interface_addr: p.1.interface_addr,
                        cost: p.1.cost,
                        capacity: p.1.capacity,
                        state: LinkState::Down,
                        last_hello: p.1.last_hello,
                    }));
                },
                None => {},
            }
            proof {
                assert forall|m: int| 0 <= m < l0.len() implies self.links@[m] == if dead_ids@.take(j + 1).contains(l0[m].0) {
                    link_down(l0[m])
                } else {
                    l0[m]
                } by {
                    let t0 = dead_ids@.take(j as int);
                    let t1 = dead_ids@.take(j + 1);
                    assert(t1 =~= t0.push(id));
                    assert(t1.contains(l0[m].0) <==> (t0.contains(l0[m].0) || l0[m].0 == id)) by {
                        if t1.contains(l0[m].0) {
                            let q = choose|q: int| 0 <= q < t1.len() && t1[q] == l0[m].0;
                            if q < t0.len() {
                                assert(t0[q] == l0[m].0);
                            }
                        }
                        if t0.contains(l0[m].0) {
                            let q = choose|q: int| 0 <= q < t0.len() && t0[q] == l0[m].0;
                            assert(t1[q] == l0[m].0);
                        }
                        if l0[m].0 == id {
                            assert(t1[t0.len() as int] == id);
                        }
                    }
                    assert(lj[m].0 == l0[m].0);
                    if l0[m].0 == id {
                        assert(has_key(lj, id));
                    }
                }
            }
            j += 1;
        }
        proof {
            assert(dead_ids@.take(dead_ids@.len() as int) =~= dead_ids@);
            assert(self.links@ =~= links_after_cleanup(l0, n0, now, dead));
            assert(assoc_unique(self.links@)) by {
                assert forall|a: int, b: int| 0 <= a < self.links@.len() && 0 <= b < self.links@.len() && a != b implies self.links@[a].0 != self.links@[b].0 by {
                    assert(self.links@[a].0 == l0[a].0);
                    assert(self.links@[b].0 == l0[b].0);
                }
            }
        }
        if self.neighbors.len() > 0 {
            self.calculate_routing_table();
        }
    }

    /// Drops the neighbours dead at the clock's current reading `now`, as
    /// `cleanup_dead_neighbors_at` does: their links go down and, when some
    /// neighbour is left, the routing table is recomputed. When a neighbour
    /// was last seen after `now`, nothing changes.
    pub fn cleanup_dead_neighbors(&mut self)
        requires
            old(self).wf(),
            old(self).neighbor_entries().len() > 0 ==> ospf_fits(old(self).lsa_entries(), old(self).router_id()),
        ensures
            final(self).wf(),
            final(self).lsa_entries() == old(self).lsa_entries(),
            final(self).router_id() == old(self).router_id(),
            final(self).hello_interval() == old(self).hello_interval(),
            final(self).dead_interval() == old(self).dead_interval(),
            final(self).next_sequence() == old(self).next_sequence(),
            exists|now: u64|
                if #[trigger] clock_not_behind(old(self).neighbor_entries(), now) {
                    &&& final(self).neighbor_entries() == live_neighbors(
                        old(self).neighbor_entries(),
                        now,
                        old(self).dead_interval(),
                    )
                    &&& final(self).link_entries() == links_after_cleanup(
                        old(self).link_entries(),
                        old(self).neighbor_entries(),
                        now,
                        old(self).dead_interval(),
                    )
                    &&& final(self).table() == if final(self).neighbor_entries().len() > 0 {
                        routes_for(old(self).lsa_entries(), old(self).router_id(), final(self).link_entries())
                    } else {
                        old(self).table()
                    }
                } else {
                    &&& final(self).neighbor_entries() == old(self).neighbor_entries()
                    &&& final(self).link_entries() == old(self).link_entries()
                    &&& final(self).table() == old(self).table()
                },
    {
        let now = current_timestamp();
        let mut clock_ok = true;
        let mut i: usize = 0;
        while i < self.neighbors.len()
            invariant
                i <= self.neighbors@.len(),
                clock_ok ==> forall|j: int| 0 <= j < i ==> self.neighbors@[j].1.last_seen <= now,
                !clock_ok ==> exists|j: int| 0 <= j < i && self.neighbors@[j].1.last_seen > now,
            decreases self.neighbors.len() - i,
        {
            if self.neighbors[i].1.last_seen > now {
                clock_ok = false;
            }
            i += 1;
        }
        if clock_ok {
            proof {
                lemma_live_len(self.neighbors@, now, self.config.dead_interval);
            }
            self.cleanup_dead_neighbors_at(now);
        }
        assert(clock_ok == clock_not_behind(old(self).neighbor_entries(), now));
    }

    /// The HELLO round at time `now`: a HELLO listing the known neighbours,
    /// sent to each neighbour's interface address on port 8080 and to the
    /// two OSPF multicast groups 224.0.0.5 and 224.0.0.6 on that port.
    pub fn send_hello_packets_at(&self, now: u64) -> (plan: HelloPlan)
        ensures
            plan.packet.router_id == self.router_id(),
            plan.packet.area_id == 0,
            plan.packet.hello_interval == self.hello_interval(),
            plan.packet.dead_interval == self.dead_interval(),
            plan.packet.neighbors@ == self.neighbor_entries().map_values(|p: (u32, Neighbor)| p.0),
            plan.packet.timestamp == now,
            plan.unicast@ == self.neighbor_entries().map_values(
                |p: (u32, Neighbor)| SocketAddress { ip: p.1.interface_addr, port: HELLO_PORT },
            ),
            plan.multicast@ == seq![
                SocketAddress { ip: 0xE000_0005, port: HELLO_PORT },
                SocketAddress { ip: 0xE000_0006, port: HELLO_PORT },
            ],
    {
        let mut ids: Vec<u32> = Vec::new();
        let mut unicast: Vec<SocketAddress> = Vec::new();
        let mut i: usize = 0;
        while i < self.neighbors.len()
            invariant
                i <= self.neighbors@.len(),
                ids@ == self.neighbors@.take(i as int).map_values(|p: (u32, Neighbor)| p.0),
                unicast@ == self.neighbors@.take(i as int).map_values(
                    |p: (u32, Neighbor)| SocketAddress { ip: p.1.interface_addr, port: HELLO_PORT },
                ),
            decreases self.neighbors.len() - i,
        {
            let p = self.neighbors[i];
            ids.push(p.0);
            unicast.push(SocketAddress { ip: p.1.interface_addr, port: HELLO_PORT });
            i += 1;
            assert(ids@ =~= self.neighbors@.take(i as int).map_values(|p: (u32, Neighbor)| p.0));
            assert(unicast@ =~= self.neighbors@.take(i as int).map_values(
                |p: (u32, Neighbor)| SocketAddress { ip: p.1.interface_addr, port: HELLO_PORT },
            ));
        }
        assert(self.neighbors@.take(self.neighbors@.len() as int) =~= self.neighbors@);
        let mut multicast: Vec<SocketAddress> = Vec::new();
        multicast.push(SocketAddress { ip: 0xE000_0005, port: HELLO_PORT });
        multicast.push(SocketAddress { ip: 0xE000_0006, port: HELLO_PORT });
        assert(multicast@ =~= seq![
            SocketAddress { ip: 0xE000_0005, port: HELLO_PORT },
            SocketAddress { ip: 0xE000_0006, port: HELLO_PORT },
        ]);
        HelloPlan {
            packet: HelloPacket {
                router_id: self.config.router_id,
                area_id: 0,
                hello_interval: self.config.hello_interval,
                dead_interval: self.config.dead_interval,
                neighbors: ids,
                timestamp: now,
            },
            unicast,
            multicast,
        }
    }

    /// The HELLO round now.
    pub fn send_hello_packets(&self) -> (plan: HelloPlan)
        ensures
            plan.packet.router_id == self.router_id(),
            plan.packet.area_id == 0,
            plan.packet.hello_interval == self.hello_interval(),
            plan.packet.dead_interval == self.dead_interval(),
            plan.packet.neighbors@ == self.neighbor_entries().map_values(|p: (u32, Neighbor)| p.0),
            plan.unicast@ == self.neighbor_entries().map_values(
                |p: (u32, Neighbor)| SocketAddress { ip: p.1.interface_addr, port: HELLO_PORT },
            ),
            plan.multicast@ == seq![
                SocketAddress { ip: 0xE000_0005, port: HELLO_PORT },
                SocketAddress { ip: 0xE000_0006, port: HELLO_PORT },
            ],
    {
        let now = current_timestamp();
        self.send_hello_packets_at(now)
    }
}

proof fn lemma_live_len(s: Seq<(u32, Neighbor)>, now: u64, dead: u32)
    ensures
        live_neighbors(s, now, dead).len() <= s.len(),
    decreases s.len(),
{
    if s.len() > 0 {
        lemma_live_len(s.drop_last(), now, dead);
    }
}

proof fn lemma_live_unique(s: Seq<(u32, Neighbor)>, now: u64, dead: u32)
    requires
        assoc_unique(s),
    ensures
        assoc_unique(live_neighbors(s, now, dead)),
        forall|k: int| 0 <= k < live_neighbors(s, now, dead).len() ==> s.contains(#[trigger] live_neighbors(s, now, dead)[k]),
    decreases s.len(),
{
    if s.len() > 0 {
        let t = s.drop_last();
        assert(assoc_unique(t)) by {
            assert forall|a: int, b: int| 0 <= a < t.len() && 0 <= b < t.len() && a != b implies t[a].0 != t[b].0 by {
                assert(t[a] == s[a] && t[b] == s[b]);
            }
        }
        lemma_live_unique(t, now, dead);
        let r = live_neighbors(t, now, dead);
        assert forall|k: int| 0 <= k < r.len() implies s.contains(#[trigger] r[k]) by {
            let q = choose|q: int| 0 <= q < t.len() && t[q] == r[k];
            assert(s[q] == t[q]);
        }
        if !is_dead(s.last().1, now, dead) {
            let r2 = r.push(s.last());
            assert forall|a: int, b: int| 0 <= a < r2.len() && 0 <= b < r2.len() && a != b implies r2[a].0 != r2[b].0 by {
                if a < r.len() && b < r.len() {
                    assert(r2[a] == r[a] && r2[b] == r[b]);
                } else if a < r.len() {
                    let q = choose|q: int| 0 <= q < t.len() && t[q] == r[a];
                    assert(s[q] == t[q]);
                    assert(s[s.len() - 1] == s.last());
                } else if b < r.len() {
                    let q = choose|q: int| 0 <= q < t.len() && t[q] == r[b];
                    assert(s[q] == t[q]);
                    assert(s[s.len() - 1] == s.last());
                }
            }
            assert forall|k: int| 0 <= k < r2.len() implies s.contains(#[trigger] r2[k]) by {
                if k < r.len() {
                    assert(r2[k] == r[k]);
                } else {
                    assert(s[s.len() - 1] == r2[k]);
                }
            }
        }
    }
}

impl OSPFProtocol {
    /// Whether the routing-table computation over the LSA database runs
    /// without its `u32` sums overflowing.
    pub fn metrics_fit(&self) -> (r: bool)
        requires
            self.wf(),
        ensures
            r == ospf_fits(self.lsa_entries(), self.router_id()),
    {
        graph_fits(&self.lsa_database, self.config.router_id)
    }

    /// Whether `process_lsa` may take `lsa`: when it would be taken, the
    /// routing-table computation over the resulting database runs without
    /// its `u32` sums overflowing.
    pub fn lsa_fits(&self, lsa: &RouterLSA) -> (r: bool)
        requires
            self.wf(),
        ensures
            r == (lsa_accepted(self.lsa_entries(), lsa@) ==> ospf_fits(
                upsert(self.lsa_entries(), lsa.header.advertising_router, lsa@),
                self.router_id(),
            )),
    {
        let ghost s = lsa_pairs(self.lsa_database@);
        let adv = lsa.header.advertising_router;
        proof {
            lemma_has_key(s, adv);
            lemma_upsert(s, adv, lsa@);
        }
        match find_key(&self.lsa_database, adv) {
            Some(k) => {
                proof {
                    assert(s[k as int].0 == adv);
                    lemma_key_index(s, k as int);
                }
                if !(lsa.header.sequence_number > self.lsa_database[k].1.header.sequence_number) {
                    return true;
                }
            },
            None => {
                proof {
                    assert forall|i: int| 0 <= i < s.len() implies s[i].0 != adv by {
                        assert(s[i].0 == self.lsa_database@[i].0);
                    }
                }
            },
        }
        assert(lsa_accepted(s, lsa@));
        let ghost u = upsert(s, adv, lsa@);
        let mut db: Vec<(u32, RouterLSA)> = Vec::new();
        let mut present = false;
        let mut i: usize = 0;
        while i < self.lsa_database.len()
            invariant
                i <= s.len(),
                s == lsa_pairs(self.lsa_database@),
                assoc_unique(s),
                u == upsert(s, adv, lsa@),
                adv == lsa.header.advertising_router,
                lsa_pairs(db@) == u.take(i as int),
                present == (exists|j: int| 0 <= j < i && s[j].0 == adv),
            decreases self.lsa_database.len() - i,
        {
            let key = self.lsa_database[i].0;
            let l = if key == adv {
                proof {
                    assert(s[i as int].0 == adv);
                    lemma_key_index(s, i as int);
                    assert(u[i as int] == (adv, lsa@));
                }
                present = true;
                copy_lsa(lsa)
            } else {
                proof {
                    assert(s[i as int].0 != adv);
                    if has_key(s, adv) {
                        assert(key_index(s, adv) != i);
                    }
                    assert(u[i as int] == s[i as int]);
                }
                copy_lsa(&self.lsa_database[i].1)
            };
            let ghost d0 = db@;
            proof {
                assert((key, l@) == u[i as int]);
                assert(lsa_pairs(d0) == u.take(i as int));
                assert(lsa_pairs(d0).len() == d0.len());
                assert(d0.len() == i);
            }
            db.push((key, l));
            proof {
                assert(db@ == d0.push((key, l)));
                assert forall|j: int| 0 <= j < i + 1 implies #[trigger] lsa_pairs(db@)[j] == u.take(
                    i as int + 1,
                )[j] by {
                    if j < i {
                        assert(db@[j] == d0[j]);
                        assert(lsa_pairs(d0)[j] == u.take(i as int)[j]);
                    } else {
                        assert(db@[j] == (key, l));
                    }
                }
                assert(lsa_pairs(db@) =~= u.take(i as int + 1));
            }
            i += 1;
        }
        if !present {
            assert(!has_key(s, adv));
            let ghost d0 = db@;
            let c = copy_lsa(lsa);
            proof {
                assert(u == s.push((adv, lsa@)));
                assert(u.take(s.len() as int) =~= s);
                assert(lsa_pairs(d0) == s);
                assert(lsa_pairs(d0).len() == d0.len());
            }
            db.push((adv, c));
            proof {
                assert(db@ == d0.push((adv, c)));
                assert forall|j: int| 0 <= j < u.len() implies #[trigger] lsa_pairs(db@)[j] == u[j] by {
                    if j < s.len() {
                        assert(db@[j] == d0[j]);
                        assert(lsa_pairs(d0)[j] == s[j]);
                    } else {
                        assert(db@[j] == (adv, c));
                    }
                }
                assert(lsa_pairs(db@) =~= u);
            }
        } else {
            assert(has_key(s, adv));
            assert(lsa_pairs(db@) =~= u);
        }
        graph_fits(&db, self.config.router_id)
    }
}

} // verus!
