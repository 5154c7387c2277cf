use vstd::prelude::*;

verus! {

/// Reference bandwidth of the cost formula, in bits per second (100 Mbps).
pub const REFERENCE_BANDWIDTH_BPS: u64 = 100_000_000;

/// The OSPF cost of a link: `100_000_000 / (capacity_mbps * 1_000_000)`,
/// at least 1; an inactive link or one of capacity 0 costs `u32::MAX`.
pub open spec fn spec_ospf_cost(capacity_mbps: u32, is_active: bool) -> u32 {
    if !is_active || capacity_mbps == 0 {
        u32::MAX
    } else {
        let c = 100_000_000int / (capacity_mbps as int * 1_000_000);
        if c < 1 {
            1
        } else {
            c as u32
        }
    }
}

/// Cost of a link of the given capacity in Mbps and state.
pub fn calculate_ospf_cost(capacity_mbps: u32, is_active: bool) -> (cost: u32)
    ensures
        cost == spec_ospf_cost(capacity_mbps, is_active),
{
    if !is_active {
        return u32::MAX;
    }
    if capacity_mbps == 0 {
        return u32::MAX;
    }
    let bandwidth_bps: u64 = capacity_mbps as u64 * 1_000_000;
    let cost: u64 = REFERENCE_BANDWIDTH_BPS / bandwidth_bps;
    if cost < 1 {
        1
    } else {
        cost as u32
    }
}

/// A link of greater capacity never costs more than one of smaller
/// capacity; an active link of positive capacity costs at least 1 and less
/// than an inactive link, which costs `u32::MAX`.
pub proof fn law_cost_prefers_capacity(small: u32, large: u32)
    requires
        0 < small <= large,
    ensures
        spec_ospf_cost(large, true) <= spec_ospf_cost(small, true),
        1 <= spec_ospf_cost(small, true) < spec_ospf_cost(small, false),
        spec_ospf_cost(small, false) == u32::MAX,
{
    let a = small as int * 1_000_000;
    let b = large as int * 1_000_000;
    assert(1 <= a <= b) by (nonlinear_arith)
        requires
            0 < small <= large,
            a == small as int * 1_000_000,
            b == large as int * 1_000_000,
    ;
    vstd::arithmetic::div_mod::lemma_div_is_ordered_by_denominator(100_000_000int, a, b);
    assert(100_000_000int / a <= 100_000_000) by (nonlinear_arith)
        requires
            1 <= a,
    ;
}

/// A router of the topology graph.
#[derive(Debug, Clone)]
pub struct NetworkNode {
    pub router_id: String,
    pub interfaces: Vec<InterfaceInfo>,
    pub is_reachable: bool,
}

/// An interface of a router of the topology graph.
#[derive(Debug, Clone)]
pub struct InterfaceInfo {
    pub name: String,
    pub network: String,
    pub capacity_mbps: u32,
    pub is_active: bool,
    pub connected_to: Option<String>,
}

/// A directed link of the topology graph.
#[derive(Debug, Clone)]
pub struct NetworkLink {
    pub from: String,
    pub to: String,
    pub cost: u32,
    pub capacity_mbps: u32,
    pub is_active: bool,
    pub hop_count: u32,
}

/// The routers of a topology (at most one per router id) and its links.
#[derive(Debug, Clone)]
pub struct NetworkTopology {
    pub nodes: Vec<NetworkNode>,
    pub links: Vec<NetworkLink>,
}

/// A computed route to one destination.
#[derive(Debug, Clone)]
pub struct RouteInfo {
    pub destination: String,
    pub next_hop: String,
    pub total_cost: u32,
    pub hop_count: u32,
    pub bottleneck_capacity: u32,
    pub path: Vec<String>,
    pub is_reachable: bool,
}

/// The character sequences of a sequence of strings.
pub open spec fn strs(v: Seq<String>) -> Seq<Seq<char>> {
    v.map_values(|s: String| s@)
}

/// `w` is a sequence of indices of active links leading from `src` to `dst`.
pub open spec fn is_walk(links: Seq<NetworkLink>, w: Seq<usize>, src: Seq<char>, dst: Seq<char>) -> bool
    decreases w.len(),
{
    if w.len() == 0 {
        src == dst
    } else {
        let l = w.last() as int;
        &&& 0 <= l < links.len()
        &&& links[l].is_active
        &&& links[l].to@ == dst
        &&& is_walk(links, w.drop_last(), src, links[l].from@)
    }
}

/// Sum of the costs of the links of a walk.
pub open spec fn walk_cost(links: Seq<NetworkLink>, w: Seq<usize>) -> nat
    decreases w.len(),
{
    if w.len() == 0 {
        0
    } else {
        walk_cost(links, w.drop_last()) + links[w.last() as int].cost as nat
    }
}

/// The routers a walk passes through, starting with `src`.
pub open spec fn walk_nodes(links: Seq<NetworkLink>, w: Seq<usize>, src: Seq<char>) -> Seq<Seq<char>>
    decreases w.len(),
{
    if w.len() == 0 {
        seq![src]
    } else {
        walk_nodes(links, w.drop_last(), src).push(links[w.last() as int].to@)
    }
}

/// The smallest capacity along a walk (`u32::MAX` for the empty walk).
pub open spec fn walk_bottleneck(links: Seq<NetworkLink>, w: Seq<usize>) -> u32
    decreases w.len(),
{
    if w.len() == 0 {
        u32::MAX
    } else {
        let b = walk_bottleneck(links, w.drop_last());
        let c = links[w.last() as int].capacity_mbps;
        if c < b {
            c
        } else {
            b
        }
    }
}

/// Some walk from `src` to `dst` costs less than `u32::MAX`.
pub open spec fn reachable(links: Seq<NetworkLink>, src: Seq<char>, dst: Seq<char>) -> bool {
    exists|w: Seq<usize>| is_walk(links, w, src, dst) && walk_cost(links, w) < u32::MAX
}

/// `r` is a cheapest route from `src` over `links`, with the fewest hops
/// among the cheapest; its path passes through no router twice, and its
/// fields describe one such walk.
pub open spec fn is_shortest_route(links: Seq<NetworkLink>, src: Seq<char>, r: RouteInfo) -> bool {
    &&& r.is_reachable
    &&& r.destination@ != src
    &&& r.total_cost < u32::MAX
    &&& no_repeats(strs(r.path@))
    &&& forall|w: Seq<usize>| #[trigger]
        is_walk(links, w, src, r.destination@) ==> walk_cost(links, w) >= r.total_cost
    &&& forall|w: Seq<usize>| #[trigger]
        is_walk(links, w, src, r.destination@) ==> lex_le(r.total_cost as int, r.hop_count as int, walk_cost(links, w) as int, w.len() as int)
    &&& exists|w: Seq<usize>|
        {
            &&& #[trigger] is_walk(links, w, src, r.destination@)
            &&& walk_cost(links, w) == r.total_cost
            &&& strs(r.path@) == walk_nodes(links, w, src)
            &&& r.hop_count == w.len()
            &&& r.bottleneck_capacity == walk_bottleneck(links, w)
            &&& r.next_hop@ == walk_nodes(links, w, src)[1]
        }
}

/// No two routes of `routes` have the same destination.
pub open spec fn distinct_destinations(routes: Seq<RouteInfo>) -> bool {
    forall|i: int, j: int|
        0 <= i < routes.len() && 0 <= j < routes.len() && i != j ==> routes[i].destination@
            != routes[j].destination@
}

/// The routing table computed from `links` for `src`: one cheapest route to
/// every other router reachable at a cost below `u32::MAX`, and no other.
pub open spec fn shortest_paths_spec(links: Seq<NetworkLink>, src: Seq<char>, routes: Seq<RouteInfo>) -> bool {
    &&& distinct_destinations(routes)
    &&& forall|i: int| 0 <= i < routes.len() ==> is_shortest_route(links, src, #[trigger] routes[i])
    &&& forall|dst: Seq<char>|
        dst != src && #[trigger] reachable(links, src, dst) ==> exists|i: int|
            0 <= i < routes.len() && routes[i].destination@ == dst
}

/// The link is active and leaves `router_id`.
pub open spec fn active_from(router_id: Seq<char>) -> spec_fn(NetworkLink) -> bool {
    |l: NetworkLink| l.from@ == router_id && l.is_active
}

/// No two strings of `v` are equal.
pub open spec fn unique_strs(v: Seq<Seq<char>>) -> bool {
    forall|i: int, j: int| 0 <= i < v.len() && 0 <= j < v.len() && i != j ==> v[i] != v[j]
}

/// Number of `true` entries.
pub open spec fn count_true(s: Seq<bool>) -> nat
    decreases s.len(),
{
    if s.len() == 0 {
        0
    } else {
        count_true(s.drop_last()) + if s.last() {
            1nat
        } else {
            0nat
        }
    }
}

proof fn lemma_count_true_bound(s: Seq<bool>, k: int)
    requires
        0 <= k < s.len(),
        !s[k],
    ensures
        count_true(s) < s.len(),
    decreases s.len(),
{
    if k < s.len() - 1 {
        lemma_count_true_bound(s.drop_last(), k);
    } else {
        lemma_count_true_le(s.drop_last());
    }
}

pub proof fn lemma_count_true_le(s: Seq<bool>)
    ensures
        count_true(s) <= s.len(),
    decreases s.len(),
{
    if s.len() > 0 {
        lemma_count_true_le(s.drop_last());
    }
}

pub proof fn lemma_count_true_set(s: Seq<bool>, k: int)
    requires
        0 <= k < s.len(),
        !s[k],
    ensures
        count_true(s.update(k, true)) == count_true(s) + 1,
    decreases s.len(),
{
    let t = s.update(k, true);
    if k < s.len() - 1 {
        assert(t.drop_last() =~= s.drop_last().update(k, true));
        lemma_count_true_set(s.drop_last(), k);
    } else {
        assert(t.drop_last() =~= s.drop_last());
    }
}

proof fn lemma_walk_indices(links: Seq<NetworkLink>, w: Seq<usize>, src: Seq<char>, dst: Seq<char>)
    requires
        is_walk(links, w, src, dst),
    ensures
        forall|t: int| 0 <= t < w.len() ==> w[t] < links.len(),
    decreases w.len(),
{
    if w.len() > 0 {
        let l = w.last() as int;
        lemma_walk_indices(links, w.drop_last(), src, links[l].from@);
        assert forall|t: int| 0 <= t < w.len() implies w[t] < links.len() by {
            if t < w.len() - 1 {
                assert(w.drop_last()[t] == w[t]);
            }
        }
    }
}

/// `(c1, h1)` comes no later than `(c2, h2)` in the order of routes:
/// a lower cost, or an equal cost and no more hops.
pub open spec fn lex_le(c1: int, h1: int, c2: int, h2: int) -> bool {
    c1 < c2 || (c1 == c2 && h1 <= h2)
}

/// The hop counts of the walks found so far.
pub open spec fn hop_seq(walks: Seq<Vec<usize>>) -> Seq<int> {
    walks.map_values(|w: Vec<usize>| w@.len() as int)
}

/// A walk from the source to a router that is not finished yet comes no
/// earlier than `(mc, mh)`, the least (cost, hops) of the unfinished
/// routers.
proof fn lemma_walk_lower_bound(
    links: Seq<NetworkLink>,
    idv: Seq<Seq<char>>,
    lf: Seq<usize>,
    lt: Seq<usize>,
    visited: Seq<bool>,
    dist: Seq<u32>,
    hops: Seq<int>,
    mc: int,
    mh: int,
    w: Seq<usize>,
    k: int,
)
    requires
        idv.len() == visited.len(),
        idv.len() == dist.len(),
        idv.len() == hops.len(),
        idv.len() > 0,
        lf.len() == links.len(),
        lt.len() == links.len(),
        unique_strs(idv),
        forall|l: int|
            0 <= l < links.len() ==> lf[l] < idv.len() && idv[lf[l] as int] == links[l].from@ && lt[l]
                < idv.len() && idv[lt[l] as int] == links[l].to@,
        dist[0] == 0,
        hops[0] == 0,
        forall|j: int| 0 <= j < idv.len() && !visited[j] ==> lex_le(mc, mh, dist[j] as int, hops[j]),
        forall|i: int, w2: Seq<usize>|
            0 <= i < idv.len() && visited[i] && #[trigger] is_walk(links, w2, idv[0], idv[i])
                ==> lex_le(dist[i] as int, hops[i], walk_cost(links, w2) as int, w2.len() as int),
        forall|l: int|
            0 <= l < links.len() && links[l].is_active && #[trigger] visited[lf[l] as int]
                ==> lex_le(dist[lt[l] as int] as int, hops[lt[l] as int], dist[lf[l] as int] + links[l].cost, hops[lf[l] as int] + 1),
        0 <= k < idv.len(),
        !visited[k],
        is_walk(links, w, idv[0], idv[k]),
    ensures
        lex_le(mc, mh, walk_cost(links, w) as int, w.len() as int),
    decreases w.len(),
{
    if w.len() == 0 {
        assert(k == 0);
    } else {
        let l = w.last() as int;
        let x = lf[l] as int;
        assert(lt[l] as int == k);
        let w2 = w.drop_last();
        assert(is_walk(links, w2, idv[0], idv[x]));
        assert(walk_cost(links, w) == walk_cost(links, w2) + links[l].cost);
        if visited[x] {
            assert(lex_le(dist[x] as int, hops[x], walk_cost(links, w2) as int, w2.len() as int));
        } else {
            lemma_walk_lower_bound(links, idv, lf, lt, visited, dist, hops, mc, mh, w2, x);
        }
    }
}

/// Index of `s` in `ids`, if present.
fn find_index(ids: &Vec<String>, s: &String) -> (r: Option<usize>)
    ensures
        match r {
            Some(i) => i < ids.len() && ids@[i as int]@ == s@,
            None => forall|i: int| 0 <= i < ids.len() ==> ids@[i]@ != s@,
        },
{
    let mut i: usize = 0;
    while i < ids.len()
        invariant
            i <= ids.len(),
            forall|j: int| 0 <= j < i ==> ids@[j]@ != s@,
        decreases ids.len() - i,
    {
        if ids[i] == *s {
            return Some(i);
        }
        i += 1;
    }
    None
}

/// Index of `s` in `ids`, appending it first if absent.
fn intern(ids: &mut Vec<String>, s: &String) -> (r: usize)
    requires
        unique_strs(strs(old(ids)@)),
    ensures
        unique_strs(strs(final(ids)@)),
        r < final(ids).len(),
        final(ids)@[r as int]@ == s@,
        old(ids).len() <= final(ids).len() <= old(ids).len() + 1,
        forall|k: int| 0 <= k < old(ids).len() ==> final(ids)@[k] == old(ids)@[k],
{
    match find_index(ids, s) {
        Some(i) => i,
        None => {
            ids.push(s.clone());
            assert(strs(ids@) =~= strs(old(ids)@).push(s@));
            ids.len() - 1
        },
    }
}

/// `w` followed by `l`.
fn push_copy(w: &Vec<usize>, l: usize) -> (r: Vec<usize>)
    ensures
        r@ == w@.push(l),
{
    let mut r: Vec<usize> = Vec::new();
    let mut i: usize = 0;
    while i < w.len()
        invariant
            i <= w.len(),
            r@ == w@.take(i as int),
        decreases w.len() - i,
    {
        r.push(w[i]);
        i += 1;
        assert(r@ =~= w@.take(i as int));
    }
    assert(w@.take(w.len() as int) =~= w@);
    r.push(l);
    r
}

impl NetworkTopology {
    /// Routers are identified by their router id: no id occurs twice.
    pub open spec fn wf(&self) -> bool {
        forall|i: int, j: int|
            0 <= i < self.nodes.len() && 0 <= j < self.nodes.len() && i != j
                ==> self.nodes@[i].router_id@ != self.nodes@[j].router_id@
    }

    /// An empty topology.
    pub fn new() -> (t: Self)
        ensures
            t.nodes@.len() == 0,
            t.links@.len() == 0,
            t.wf(),
            symmetric_links(t.links@),
    {
        let t = NetworkTopology { nodes: Vec::new(), links: Vec::new() };
        assert(t.links@ =~= Seq::<NetworkLink>::empty());
        t
    }

    /// Adds the router `router_id`, replacing any router of that id.
    pub fn add_router(&mut self, router_id: String, interfaces: Vec<InterfaceInfo>)
        requires
            old(self).wf(),
        ensures
            final(self).wf(),
            final(self).links == old(self).links,
            ({
                let node = NetworkNode { router_id, interfaces, is_reachable: true };
                ||| exists|k: int|
                    0 <= k < old(self).nodes.len() && old(self).nodes@[k].router_id@ == router_id@
                        && final(self).nodes@ == old(self).nodes@.update(k, node)
                ||| (forall|k: int|
                    0 <= k < old(self).nodes.len() ==> old(self).nodes@[k].router_id@ != router_id@)
                    && final(self).nodes@ == old(self).nodes@.push(node)
            }),
    {
        let ghost node = NetworkNode { router_id, interfaces, is_reachable: true };
        let mut k: usize = 0;
        while k < self.nodes.len()
            invariant
                k <= self.nodes.len(),
                self == old(self),
                old(self).wf(),
                forall|j: int| 0 <= j < k ==> self.nodes@[j].router_id@ != router_id@,
            decreases self.nodes.len() - k,
        {
            if self.nodes[k].router_id == router_id {
                assert(old(self).nodes@[k as int].router_id@ == router_id@);
                let node = NetworkNode { router_id: router_id.clone(), interfaces, is_reachable: true };
                self.nodes.set(k, node);
                assert forall|i: int, j: int|
                    0 <= i < self.nodes.len() && 0 <= j < self.nodes.len() && i != j implies self.nodes@[i].router_id@
                    != self.nodes@[j].router_id@ by {
                    assert(self.nodes@[k as int].router_id@ == old(self).nodes@[k as int].router_id@);
                    if i != k as int {
                        assert(self.nodes@[i] == old(self).nodes@[i]);
                    }
                    if j != k as int {
                        assert(self.nodes@[j] == old(self).nodes@[j]);
                    }
                }
                return;
            }
            k += 1;
        }
        let node = NetworkNode { router_id: router_id.clone(), interfaces, is_reachable: true };
        self.nodes.push(node);
    }

    /// Adds an active or inactive link in both directions, costed from its
    /// capacity.
    pub fn add_link(&mut self, from: String, to: String, capacity_mbps: u32, is_active: bool)
        ensures
            final(self).nodes == old(self).nodes,
            symmetric_links(old(self).links@) ==> symmetric_links(final(self).links@),
            final(self).links@ == old(self).links@.push(
                NetworkLink {
                    from,
                    to,
                    cost: spec_ospf_cost(capacity_mbps, is_active),
                    capacity_mbps,
                    is_active,
                    hop_count: 1,
                },
            ).push(
                NetworkLink {
                    from: to,
                    to: from,
                    cost: spec_ospf_cost(capacity_mbps, is_active),
                    capacity_mbps,
                    is_active,
                    hop_count: 1,
                },
            ),
    {
        let cost = calculate_ospf_cost(capacity_mbps, is_active);
        self.links.push(
            NetworkLink {
                from: from.clone(),
                to: to.clone(),
                cost,
                capacity_mbps,
                is_active,
                hop_count: 1,
            },
        );
        let ghost l0 = self.links@;
        self.links.push(NetworkLink { from: to, to: from, cost, capacity_mbps, is_active, hop_count: 1 });
        proof {
            if symmetric_links(old(self).links@) {
                law_paired_links_stay_symmetric(old(self).links@, l0.last(), self.links@.last());
                assert(self.links@ =~= old(self).links@.push(l0.last()).push(self.links@.last()));
            }
        }
    }

    /// Adds a link in both directions whose capacity is the smaller of the
    /// two ends' capacities.
    pub fn add_link_with_min_capacity(
        &mut self,
        from: String,
        to: String,
        local_capacity: u32,
        neighbor_capacity: u32,
        is_active: bool,
    )
        ensures
            final(self).nodes == old(self).nodes,
            symmetric_links(old(self).links@) ==> symmetric_links(final(self).links@),
            ({
                let c = if local_capacity <= neighbor_capacity {
                    local_capacity
                } else {
                    neighbor_capacity
                };
                final(self).links@ == old(self).links@.push(
                    NetworkLink {
                        from,
                        to,
                        cost: spec_ospf_cost(c, is_active),
                        capacity_mbps: c,
                        is_active,
                        hop_count: 1,
                    },
                ).push(
                    NetworkLink {
                        from: to,
                        to: from,
                        cost: spec_ospf_cost(c, is_active),
                        capacity_mbps: c,
                        is_active,
                        hop_count: 1,
                    },
                )
            }),
    {
        let min_capacity = if local_capacity <= neighbor_capacity {
            local_capacity
        } else {
            neighbor_capacity
        };
        let cost = calculate_ospf_cost(min_capacity, is_active);
        self.links.push(
            NetworkLink {
                from: from.clone(),
                to: to.clone(),
                cost,
                capacity_mbps: min_capacity,
                is_active,
                hop_count: 1,
            },
        );
        let ghost l0 = self.links@;
        self.links.push(
            NetworkLink {
                from: to,
                to: from,
                cost,
                capacity_mbps: min_capacity,
                is_active,
                hop_count: 1,
            },
        );
        proof {
            if symmetric_links(old(self).links@) {
                law_paired_links_stay_symmetric(old(self).links@, l0.last(), self.links@.last());
                assert(self.links@ =~= old(self).links@.push(l0.last()).push(self.links@.last()));
            }
        }
    }

    /// The active links leaving `router_id`, in order.
    pub fn get_active_neighbors(&self, router_id: &str) -> (res: Vec<&NetworkLink>)
        ensures
            res@.len() == self.links@.filter(active_from(router_id@)).len(),
            forall|i: int|
                0 <= i < res@.len() ==> *res@[i] == self.links@.filter(active_from(router_id@))[i],
    {
        let rid = router_id.to_string();
        let mut res: Vec<&NetworkLink> = Vec::new();
        let mut i: usize = 0;
        while i < self.links.len()
            invariant
                i <= self.links.len(),
                rid@ == router_id@,
                res@.len() == self.links@.take(i as int).filter(active_from(router_id@)).len(),
                forall|k: int|
                    0 <= k < res@.len() ==> *res@[k] == self.links@.take(i as int).filter(
                        active_from(router_id@),
                    )[k],
            decreases self.links.len() - i,
        {
            let ghost prefix = self.links@.take(i as int);
            let link = &self.links[i];
            proof {
                assert(self.links@.take(i as int + 1).drop_last() =~= prefix);
                reveal(Seq::filter);
            }
            if link.from == rid && link.is_active {
                res.push(link);
            }
            i += 1;
        }
        assert(self.links@.take(self.links.len() as int) =~= self.links@);
        res
    }

    /// The first link from `from` to `to`, if any.
    pub fn find_link(&self, from: &str, to: &str) -> (res: Option<&NetworkLink>)
        ensures
            match res {
                Some(l) => exists|i: int|
                    0 <= i < self.links.len() && *l == self.links@[i] && self.links@[i].from@ == from@
                        && self.links@[i].to@ == to@ && forall|j: int|
                        0 <= j < i ==> !(self.links@[j].from@ == from@ && self.links@[j].to@ == to@),
                None => forall|j: int|
                    0 <= j < self.links.len() ==> !(self.links@[j].from@ == from@ && self.links@[j].to@
                        == to@),
            },
    {
        let f = from.to_string();
        let t = to.to_string();
        let mut i: usize = 0;
        while i < self.links.len()
            invariant
                i <= self.links.len(),
                f@ == from@,
                t@ == to@,
                forall|j: int|
                    0 <= j < i ==> !(self.links@[j].from@ == from@ && self.links@[j].to@ == to@),
            decreases self.links.len() - i,
        {
            if self.links[i].from == f && self.links[i].to == t {
                return Some(&self.links[i]);
            }
            i += 1;
        }
        None
    }

    /// Builds the walk, path and bottleneck of the route to one router.
    fn build_route(
        &self,
        source: &String,
        dest: &String,
        cost: u32,
        w: &Vec<usize>,
    ) -> (r: RouteInfo)
        requires
            is_walk(self.links@, w@, source@, dest@),
            w@.len() > 0,
            w@.len() < u32::MAX,
            walk_cost(self.links@, w@) == cost,
        ensures
            r.destination@ == dest@,
            r.total_cost == cost,
            r.is_reachable,
            strs(r.path@) == walk_nodes(self.links@, w@, source@),
            r.hop_count == w@.len(),
            r.bottleneck_capacity == walk_bottleneck(self.links@, w@),
            r.next_hop@ == walk_nodes(self.links@, w@, source@)[1],
    {
        proof {
            lemma_walk_indices(self.links@, w@, source@, dest@);
        }
        let mut path: Vec<String> = Vec::new();
        path.push(source.clone());
        let mut bott: u32 = u32::MAX;
        let mut t: usize = 0;
        assert(w@.take(0) =~= Seq::<usize>::empty());
        assert(strs(path@) =~= seq![source@]);
        while t < w.len()
            invariant
                t <= w.len(),
                forall|i: int| 0 <= i < w.len() ==> w@[i] < self.links.len(),
                strs(path@) == walk_nodes(self.links@, w@.take(t as int), source@),
                bott == walk_bottleneck(self.links@, w@.take(t as int)),
            decreases w.len() - t,
        {
            let l = w[t];
            let ghost old_path = path@;
            path.push(self.links[l].to.clone());
            if self.links[l].capacity_mbps < bott {
                bott = self.links[l].capacity_mbps;
            }
            proof {
                let wt = w@.take(t as int + 1);
                assert(wt.drop_last() =~= w@.take(t as int));
                assert(wt.last() == l);
                assert(strs(path@) =~= strs(old_path).push(self.links@[l as int].to@));
            }
            t += 1;
        }
        assert(w@.take(w.len() as int) =~= w@);
        proof {
            lemma_walk_nodes_len(self.links@, w@, source@);
        }
        let next_hop = path[1].clone();
        RouteInfo {
            destination: dest.clone(),
            next_hop,
            total_cost: cost,
            hop_count: w.len() as u32,
            bottleneck_capacity: bott,
            path,
            is_reachable: true,
        }
    }

    /// Cheapest routes from `source` over the active links: for every other
    /// router that some walk of cost below `u32::MAX` reaches, one route
    /// describing a cheapest such walk, with the fewest hops among the
    /// cheapest (the order of routes is cost, then hop count).
    pub fn calculate_shortest_paths(&self, source: &str) -> (routes: Vec<RouteInfo>)
        requires
            self.links.len() < 0x7fff_ffff,
        ensures
            shortest_paths_spec(self.links@, source@, routes@),
    {
        let ghost lv = self.links@;
        let src: String = source.to_string();
        assert(src@ == source@);
        // The routers: the source, then every link end in order of appearance.
        let mut ids: Vec<String> = Vec::new();
        ids.push(src.clone());
        let mut lf: Vec<usize> = Vec::new();
        let mut lt: Vec<usize> = Vec::new();
        let mut l: usize = 0;
        assert(strs(ids@) =~= seq![source@]);
        while l < self.links.len()
            invariant
                l <= self.links.len(),
                lv == self.links@,
                unique_strs(strs(ids@)),
                ids.len() >= 1,
                ids.len() <= 2 * l + 1,
                ids@[0]@ == source@,
                lf.len() == l,
                lt.len() == l,
                forall|k: int|
                    0 <= k < l ==> lf@[k] < ids.len() && ids@[lf@[k] as int]@ == lv[k].from@
                        && lt@[k] < ids.len() && ids@[lt@[k] as int]@ == lv[k].to@,
            decreases self.links.len() - l,
        {
            let ghost before = ids@;
            let a = intern(&mut ids, &self.links[l].from);
            let b = intern(&mut ids, &self.links[l].to);
            lf.push(a);
            lt.push(b);
            assert forall|k: int| 0 <= k < l + 1 implies lf@[k] < ids.len() && ids@[lf@[k] as int]@
                == lv[k].from@ && lt@[k] < ids.len() && ids@[lt@[k] as int]@ == lv[k].to@ by {
                if k < l {
                    assert(ids@[lf@[k] as int] == before[lf@[k] as int]);
                    assert(ids@[lt@[k] as int] == before[lt@[k] as int]);
                }
            }
            l += 1;
        }
        let n = ids.len();
        let ghost idv = strs(ids@);
        // Tentative distances, walks and the finished set.
        let mut dist: Vec<u32> = Vec::new();
        let mut walks: Vec<Vec<usize>> = Vec::new();
        let mut visited: Vec<bool> = Vec::new();
        let mut i: usize = 0;
        while i < n
            invariant
                i <= n,
                dist.len() == i,
                walks.len() == i,
                visited.len() == i,
                forall|j: int| 0 <= j < i ==> dist@[j] == if j == 0 { 0u32 } else { u32::MAX },
                forall|j: int| 0 <= j < i ==> walks@[j]@.len() == 0,
                forall|j: int| 0 <= j < i ==> !visited@[j],
            decreases n - i,
        {
            if i == 0 {
                dist.push(0);
            } else {
                dist.push(u32::MAX);
            }
            walks.push(Vec::new());
            visited.push(false);
            i += 1;
        }
        let mut finished: usize = 0;
        proof {
            assert(count_true(visited@) == 0) by {
                lemma_count_zero(visited@);
            }
        }
        loop
            invariant
                n == ids.len(),
                n >= 1,
                n < u32::MAX,
                idv == strs(ids@),
                lv == self.links@,
                unique_strs(idv),
                idv[0] == source@,
                lf.len() == lv.len(),
                lt.len() == lv.len(),
                forall|k: int|
                    0 <= k < lv.len() ==> lf@[k] < n && idv[lf@[k] as int] == lv[k].from@ && lt@[k]
                        < n && idv[lt@[k] as int] == lv[k].to@,
                dist.len() == n,
                walks.len() == n,
                visited.len() == n,
                dist@[0] == 0,
                walks@[0]@.len() == 0,
                finished == count_true(visited@),
                finished <= n,
                forall|j: int|
                    0 <= j < n && dist@[j] < u32::MAX ==> is_walk(lv, walks@[j]@, idv[0], idv[j])
                        && walk_cost(lv, walks@[j]@) == dist@[j] && walks@[j]@.len() <= finished,
                forall|j: int| 0 <= j < n && dist@[j] == u32::MAX ==> walks@[j]@.len() == 0,
                forall|j: int| 0 <= j < n && visited@[j] ==> dist@[j] < u32::MAX,
                forall|j: int, w2: Seq<usize>|
                    0 <= j < n && visited@[j] && #[trigger] is_walk(lv, w2, idv[0], idv[j])
                        ==> lex_le(dist@[j] as int, walks@[j]@.len() as int, walk_cost(lv, w2) as int, w2.len() as int),
                forall|k: int|
                    0 <= k < lv.len() && lv[k].is_active && #[trigger] visited@[lf@[k] as int]
                        ==> lex_le(dist@[lt@[k] as int] as int, walks@[lt@[k] as int]@.len() as int, dist@[lf@[k] as int] + lv[k].cost, walks@[lf@[k] as int]@.len() + 1 as int),
                forall|a: int, b: int|
                    0 <= a < n && 0 <= b < n && visited@[a] && !visited@[b] ==> lex_le(dist@[a] as int, walks@[a]@.len() as int, dist@[b] as int, walks@[b]@.len() as int),
            ensures
                forall|j: int| 0 <= j < n && !visited@[j] ==> dist@[j] == u32::MAX,
            decreases n - finished,
        {
            // The unfinished router of smallest tentative distance.
            let mut best: Option<usize> = None;
            let mut j: usize = 0;
            while j < n
                invariant
                    j <= n,
                    n == dist.len(),
                    n == visited.len(),
                    n == walks.len(),
                    forall|k: int| 0 <= k < n && dist@[k] == u32::MAX ==> walks@[k]@.len() == 0,
                    match best {
                        None => forall|k: int| 0 <= k < j && !visited@[k] ==> dist@[k] == u32::MAX,
                        Some(b) => b < n && !visited@[b as int] && dist@[b as int] < u32::MAX
                            && forall|k: int|
                            0 <= k < j && !visited@[k] ==> lex_le(dist@[b as int] as int, walks@[b as int]@.len() as int, dist@[k] as int, walks@[k]@.len() as int),
                    },
                decreases n - j,
            {
                if !visited[j] && dist[j] < u32::MAX {
                    match best {
                        None => {
                            best = Some(j);
                        },
                        Some(b) => {
                            if dist[j] < dist[b] || (dist[j] == dist[b] && walks[j].len() < walks[b].len()) {
                                best = Some(j);
                            }
                        },
                    }
                }
                j += 1;
            }
            let u = match best {
                None => {
                    break ;
                },
                Some(b) => b,
            };
            proof {
                // Every walk to `u` comes no earlier than its tentative
                // (cost, hops).
                let hs = hop_seq(walks@);
                assert forall|jj: int| 0 <= jj < n implies hs[jj] == walks@[jj]@.len() by {}
                assert forall|w2: Seq<usize>| #[trigger]
                    is_walk(lv, w2, idv[0], idv[u as int]) implies lex_le(dist@[u as int] as int, walks@[u as int]@.len() as int, walk_cost(lv, w2) as int, w2.len() as int) by {
                    lemma_walk_lower_bound(
                        lv,
                        idv,
                        lf@,
                        lt@,
                        visited@,
                        dist@,
                        hs,
                        dist@[u as int] as int,
                        walks@[u as int]@.len() as int,
                        w2,
                        u as int,
                    );
                }
                lemma_count_true_bound(visited@, u as int);
                lemma_count_true_set(visited@, u as int);
            }
            visited.set(u, true);
            finished += 1;
            let du = dist[u];
            let hu = walks[u].len();
            // Relax the active links leaving `u`.
            let mut k: usize = 0;
            while k < self.links.len()
                invariant
                    n == ids.len(),
                    idv == strs(ids@),
                    lv == self.links@,
                    unique_strs(idv),
                    idv[0] == source@,
                    lf.len() == lv.len(),
                    lt.len() == lv.len(),
                    forall|kk: int|
                        0 <= kk < lv.len() ==> lf@[kk] < n && idv[lf@[kk] as int] == lv[kk].from@
                            && lt@[kk] < n && idv[lt@[kk] as int] == lv[kk].to@,
                    dist.len() == n,
                    walks.len() == n,
                    visited.len() == n,
                    u < n,
                    visited@[u as int],
                    du == dist@[u as int],
                    du < u32::MAX,
                    hu == walks@[u as int]@.len(),
                    walks@[u as int]@.len() < finished,
                    dist@[0] == 0,
                    walks@[0]@.len() == 0,
                    finished == count_true(visited@),
                    finished <= n,
                    k <= lv.len(),
                    forall|j: int|
                        0 <= j < n && dist@[j] < u32::MAX ==> is_walk(lv, walks@[j]@, idv[0], idv[j])
                            && walk_cost(lv, walks@[j]@) == dist@[j] && walks@[j]@.len()
                            <= finished,
                    forall|j: int| 0 <= j < n && dist@[j] == u32::MAX ==> walks@[j]@.len() == 0,
                    forall|j: int| 0 <= j < n && visited@[j] ==> dist@[j] < u32::MAX,
                    forall|j: int| 0 <= j < n && visited@[j] ==> lex_le(dist@[j] as int, walks@[j]@.len() as int, du as int, hu as int),
                    forall|j: int, w2: Seq<usize>|
                        0 <= j < n && visited@[j] && #[trigger] is_walk(lv, w2, idv[0], idv[j])
                            ==> lex_le(dist@[j] as int, walks@[j]@.len() as int, walk_cost(lv, w2) as int, w2.len() as int),
                    forall|kk: int|
                        0 <= kk < lv.len() && lv[kk].is_active && #[trigger] visited@[lf@[kk] as int]
                            && (lf@[kk] != u || kk < k) ==> lex_le(dist@[lt@[kk] as int] as int, walks@[lt@[kk] as int]@.len() as int, dist@[lf@[kk] as int] + lv[kk].cost, walks@[lf@[kk] as int]@.len() + 1 as int),
                    forall|a: int, b: int|
                        0 <= a < n && 0 <= b < n && visited@[a] && !visited@[b] ==> lex_le(dist@[a] as int, walks@[a]@.len() as int, dist@[b] as int, walks@[b]@.len() as int),
                decreases lv.len() - k,
            {
                let v = lt[k];
                if self.links[k].is_active && lf[k] == u && !visited[v] {
                    match du.checked_add(self.links[k].cost) {
                        Some(nc) => {
                            if nc < dist[v] || (nc == dist[v] && hu + 1 < walks[v].len()) {
                                let nw = push_copy(&walks[u], k);
                                proof {
                                    let wu = walks@[u as int]@;
                                    assert(nw@.drop_last() =~= wu);
                                    assert(nw@.last() == k);
                                }
                                let ghost wu = walks@[u as int]@;
                                dist.set(v, nc);
                                walks.set(v, nw);
                                proof {
                                    assert(lv[k as int].from@ == idv[u as int]);
                                    assert(is_walk(lv, wu, idv[0], idv[u as int]));
                                    assert(is_walk(lv, nw@, idv[0], idv[v as int]));
                                    assert(walk_cost(lv, nw@) == nc);
                                }
                            }
                        },
                        None => {},
                    }
                }
                k += 1;
            }
            assert(k == lv.len());
        }
        // Every router that keeps a finite distance is finished.
        proof {
            assert(visited@[0]);
            assert forall|kk: int, w2: Seq<usize>|
                0 <= kk < n && !visited@[kk] && #[trigger] is_walk(lv, w2, idv[0], idv[kk])
                implies walk_cost(lv, w2) >= u32::MAX by {
                let hs = hop_seq(walks@);
                assert forall|jj: int| 0 <= jj < n implies hs[jj] == walks@[jj]@.len() by {}
                lemma_walk_lower_bound(lv, idv, lf@, lt@, visited@, dist@, hs, u32::MAX as int, 0, w2, kk);
            }
        }
        let mut routes: Vec<RouteInfo> = Vec::new();
        let ghost mut didx: Seq<int> = Seq::empty();
        let mut v: usize = 1;
        while v < n
            invariant
                1 <= v <= n,
                n == ids.len(),
                n < u32::MAX,
                idv == strs(ids@),
                lv == self.links@,
                unique_strs(idv),
                idv[0] == source@,
                dist.len() == n,
                walks.len() == n,
                visited.len() == n,
                finished <= n,
                forall|j: int|
                    0 <= j < n && dist@[j] < u32::MAX ==> is_walk(lv, walks@[j]@, idv[0], idv[j])
                        && walk_cost(lv, walks@[j]@) == dist@[j] && walks@[j]@.len() <= finished,
                forall|j: int| 0 <= j < n && !visited@[j] ==> dist@[j] == u32::MAX,
                forall|j: int, w2: Seq<usize>|
                    0 <= j < n && visited@[j] && #[trigger] is_walk(lv, w2, idv[0], idv[j])
                        ==> lex_le(dist@[j] as int, walks@[j]@.len() as int, walk_cost(lv, w2) as int, w2.len() as int),
                forall|i2: int| 0 <= i2 < routes.len() ==> is_shortest_route(lv, source@, #[trigger] routes@[i2]),
                didx.len() == routes.len(),
                forall|i2: int| 0 <= i2 < routes.len() ==> 1 <= #[trigger] didx[i2] < v && routes@[i2].destination@ == idv[didx[i2]],
                forall|a: int, b: int| 0 <= a < b < routes.len() ==> didx[a] < didx[b],
                forall|j: int|
                    1 <= j < v && dist@[j] < u32::MAX ==> exists|i2: int|
                        0 <= i2 < routes.len() && #[trigger] didx[i2] == j,
            decreases n - v,
        {
            if dist[v] < u32::MAX {
                assert(idv[v as int] != idv[0]);
                let r = self.build_route(&ids[0], &ids[v], dist[v], &walks[v]);
                proof {
                    let w = walks@[v as int]@;
                    assert(is_walk(lv, w, source@, r.destination@));
                    assert(visited@[v as int]);
                    lemma_least_walk_is_simple(lv, w, source@, r.destination@);
                }
                let ghost old_routes = routes@;
                let ghost old_didx = didx;
                routes.push(r);
                proof {
                    didx = didx.push(v as int);
                    assert forall|i2: int| 0 <= i2 < routes.len() implies is_shortest_route(
                        lv,
                        source@,
                        #[trigger] routes@[i2],
                    ) by {
                        if i2 < old_routes.len() {
                            assert(routes@[i2] == old_routes[i2]);
                        }
                    }
                    assert forall|j: int|
                        1 <= j < v + 1 && dist@[j] < u32::MAX implies exists|i2: int|
                        0 <= i2 < routes.len() && #[trigger] didx[i2] == j by {
                        if j < v {
                            let i3 = choose|i3: int| 0 <= i3 < old_routes.len() && #[trigger] old_didx[i3] == j;
                            assert(didx[i3] == j);
                        } else {
                            assert(didx[old_routes.len() as int] == j);
                        }
                    }
                }
            }
            v += 1;
        }
        proof {
            assert forall|a: int, b: int|
                0 <= a < routes.len() && 0 <= b < routes.len() && a != b implies routes@[a].destination@
                != routes@[b].destination@ by {
                assert(didx[a] != didx[b]);
            }
            assert forall|dst: Seq<char>|
                dst != source@ && #[trigger] reachable(lv, source@, dst) implies exists|i2: int|
                0 <= i2 < routes.len() && routes@[i2].destination@ == dst by {
                let w = choose|w: Seq<usize>| is_walk(lv, w, source@, dst) && walk_cost(lv, w) < u32::MAX;
                assert(w.len() > 0);
                let l = w.last() as int;
                let j = lt@[l] as int;
                assert(idv[j] == dst);
                assert(j != 0);
                if !visited@[j] {
                    assert(walk_cost(lv, w) >= u32::MAX);
                }
                assert(dist@[j] < u32::MAX);
                let i2 = choose|i2: int| 0 <= i2 < routes.len() && #[trigger] didx[i2] == j;
                assert(routes@[i2].destination@ == dst);
            }
        }
        routes
    }
}

proof fn lemma_count_zero(s: Seq<bool>)
    requires
        forall|j: int| 0 <= j < s.len() ==> !s[j],
    ensures
        count_true(s) == 0,
    decreases s.len(),
{
    if s.len() > 0 {
        lemma_count_zero(s.drop_last());
    }
}

proof fn lemma_walk_nodes_len(links: Seq<NetworkLink>, w: Seq<usize>, src: Seq<char>)
    ensures
        walk_nodes(links, w, src).len() == w.len() + 1,
    decreases w.len(),
{
    if w.len() > 0 {
        lemma_walk_nodes_len(links, w.drop_last(), src);
    }
}

} // verus!

verus! {

use crate::types::{Neighbor, NeighborV, LsdbEntry, RouteEntry, RouteEntryV, RouteState, AdvertisedRoute, neighbor_seq, entry_seq};
use crate::read_config::InterfaceConfig;

/// Metric of a prefix advertised at `metric` by a router reached at `cost`:
/// their sum, saturating, and `u32::MAX` when either is `u32::MAX`.
pub open spec fn combine_metric(cost: u32, metric: u32) -> u32 {
    if metric == u32::MAX || cost == u32::MAX {
        u32::MAX
    } else if cost + metric > u32::MAX {
        u32::MAX
    } else {
        (cost + metric) as u32
    }
}

/// The advertised routes of the last advertisement known of an originator.
pub open spec fn lsa_routes(e: LsdbEntry) -> Seq<AdvertisedRoute> {
    match e.router.last_lsa {
        Some(l) => l.routing_table@,
        None => Seq::empty(),
    }
}

/// Route `r` is the route to `o`.
pub open spec fn route_to(routes: Seq<RouteInfo>, o: Seq<char>, r: int) -> bool {
    0 <= r < routes.len() && routes[r].destination@ == o
}

/// Entry `j` of the advertisement of originator `i`, reached by route `r`,
/// offers a route to its prefix.
pub open spec fn candidate(routes: Seq<RouteInfo>, lsdb: Seq<LsdbEntry>, i: int, j: int, r: int) -> bool {
    &&& 0 <= i < lsdb.len()
    &&& 0 <= j < lsa_routes(lsdb[i]).len()
    &&& route_to(routes, lsdb[i].originator@, r)
    &&& routes[r].is_reachable
    &&& routes[r].total_cost < u32::MAX
    &&& lsa_routes(lsdb[i])[j].state is Active
}

/// The metric that candidate `(i, j, r)` offers.
pub open spec fn candidate_metric(routes: Seq<RouteInfo>, lsdb: Seq<LsdbEntry>, i: int, j: int, r: int) -> u32 {
    match lsa_routes(lsdb[i])[j].state {
        RouteState::Active(m) => combine_metric(routes[r].total_cost, m),
        RouteState::Unreachable => u32::MAX,
    }
}

/// No two entries of a routing table have the same destination.
pub open spec fn unique_destinations(t: Seq<RouteEntryV>) -> bool {
    forall|a: int, b: int|
        0 <= a < t.len() && 0 <= b < t.len() && a != b ==> t[a].destination != t[b].destination
}

/// Candidate `(i, j)` comes before position `(ci, cj)` of the scan.
pub open spec fn scanned(i: int, j: int, ci: int, cj: int) -> bool {
    i < ci || (i == ci && j < cj)
}

/// Entry `e` is offered by a scanned candidate and is no worse than any
/// scanned candidate for its destination.
pub open spec fn entry_justified(
    routes: Seq<RouteInfo>,
    lsdb: Seq<LsdbEntry>,
    e: RouteEntryV,
    ci: int,
    cj: int,
) -> bool {
    &&& e.state is Active
    &&& exists|i: int, j: int, r: int|
        #![trigger candidate(routes, lsdb, i, j, r)]
        candidate(routes, lsdb, i, j, r) && scanned(i, j, ci, cj) && lsa_routes(lsdb[i])[j].prefix@
            == e.destination && routes[r].next_hop@ == e.next_hop && candidate_metric(routes, lsdb, i, j, r)
            == e.state->0
}

/// The routing table built from the scanned candidates.
pub open spec fn table_upto(routes: Seq<RouteInfo>, lsdb: Seq<LsdbEntry>, t: Seq<RouteEntryV>, ci: int, cj: int) -> bool {
    &&& unique_destinations(t)
    &&& forall|k: int| 0 <= k < t.len() ==> entry_justified(routes, lsdb, #[trigger] t[k], ci, cj)
    &&& forall|i: int, j: int, r: int|
        #![trigger candidate(routes, lsdb, i, j, r)]
        candidate(routes, lsdb, i, j, r) && scanned(i, j, ci, cj) ==> exists|k: int|
            0 <= k < t.len() && #[trigger] t[k].destination == lsa_routes(lsdb[i])[j].prefix@ && t[k].state->0
                <= candidate_metric(routes, lsdb, i, j, r)
}

/// The routing table built from the advertisements of `lsdb` and the routes
/// to their originators: for every advertised active prefix, the smallest
/// metric offered for it, through the next hop of an originator offering it.
pub open spec fn optimal_table_spec(routes: Seq<RouteInfo>, lsdb: Seq<LsdbEntry>, t: Seq<RouteEntryV>) -> bool {
    table_upto(routes, lsdb, t, lsdb.len() as int, 0)
}

/// Index of the entry for `dest` in `table`, if any.
pub fn find_entry(table: &Vec<RouteEntry>, dest: &String) -> (r: Option<usize>)
    ensures
        match r {
            Some(k) => k < table.len() && table@[k as int].destination@ == dest@,
            None => forall|k: int| 0 <= k < table.len() ==> table@[k].destination@ != dest@,
        },
{
    let mut k: usize = 0;
    while k < table.len()
        invariant
            k <= table.len(),
            forall|m: int| 0 <= m < k ==> table@[m].destination@ != dest@,
        decreases table.len() - k,
    {
        if table[k].destination == *dest {
            return Some(k);
        }
        k += 1;
    }
    None
}

/// Index of the route to `dest`, if any.
pub fn find_route(routes: &Vec<RouteInfo>, dest: &String) -> (r: Option<usize>)
    ensures
        match r {
            Some(k) => route_to(routes@, dest@, k as int),
            None => forall|k: int| 0 <= k < routes.len() ==> !route_to(routes@, dest@, k),
        },
{
    let mut k: usize = 0;
    while k < routes.len()
        invariant
            k <= routes.len(),
            forall|m: int| 0 <= m < k ==> !route_to(routes@, dest@, m),
        decreases routes.len() - k,
    {
        if routes[k].destination == *dest {
            return Some(k);
        }
        k += 1;
    }
    None
}

/// Sum of a route's cost and an advertised metric, as the table keeps it.
pub fn combine(cost: u32, metric: u32) -> (r: u32)
    ensures
        r == combine_metric(cost, metric),
{
    if metric == u32::MAX || cost == u32::MAX {
        u32::MAX
    } else {
        cost.saturating_add(metric)
    }
}

/// The routing table built from the routes to the originators (`routes`,
/// one per destination) and the advertisements they sent (`lsdb`).
/// Without any route the table is left as it is (`None`).
pub fn optimal_routing_table(routes: &Vec<RouteInfo>, lsdb: &Vec<LsdbEntry>) -> (res: Option<Vec<RouteEntry>>)
    requires
        distinct_destinations(routes@),
    ensures
        routes@.len() == 0 <==> res is None,
        match res {
            Some(t) => optimal_table_spec(routes@, lsdb@, entry_seq(t@)),
            None => true,
        },
{
    if routes.len() == 0 {
        return None;
    }
    let mut table: Vec<RouteEntry> = Vec::new();
    let mut i: usize = 0;
    assert(table_upto(routes@, lsdb@, entry_seq(table@), 0, 0));
    while i < lsdb.len()
        invariant
            i <= lsdb.len(),
            distinct_destinations(routes@),
            table_upto(routes@, lsdb@, entry_seq(table@), i as int, 0),
        decreases lsdb.len() - i,
    {
        let entry = &lsdb[i];
        let found = find_route(routes, &entry.originator);
        match (&entry.router.last_lsa, found) {
            (Some(lsa), Some(r)) => {
                let cost = routes[r].total_cost;
                if routes[r].is_reachable && cost < u32::MAX {
                    let mut j: usize = 0;
                    while j < lsa.routing_table.len()
                        invariant
                            i < lsdb.len(),
                            entry == &lsdb@[i as int],
                            lsdb@[i as int].router.last_lsa == Some(*lsa),
                            j <= lsa.routing_table.len(),
                            distinct_destinations(routes@),
                            route_to(routes@, lsdb@[i as int].originator@, r as int),
                            routes@[r as int].is_reachable,
                            cost == routes@[r as int].total_cost,
                            cost < u32::MAX,
                            table_upto(routes@, lsdb@, entry_seq(table@), i as int, j as int),
                        decreases lsa.routing_table.len() - j,
                    {
                        let adv = &lsa.routing_table[j];
                        let ghost t0 = entry_seq(table@);
                        assert(lsa_routes(lsdb@[i as int]) == lsa.routing_table@);
                        assert(lsa_routes(lsdb@[i as int])[j as int] == *adv);
                        match adv.state {
                            RouteState::Active(metric) => {
                                let total = combine(cost, metric);
                                assert(candidate(routes@, lsdb@, i as int, j as int, r as int));
                                assert(candidate_metric(routes@, lsdb@, i as int, j as int, r as int) == total);
                                match find_entry(&table, &adv.prefix) {
                                    None => {
                                        let e = RouteEntry {
                                            destination: adv.prefix.clone(),
                                            next_hop: routes[r].next_hop.clone(),
                                            state: RouteState::Active(total),
                                        };
                                        let ghost ev = e@;
                                        table.push(e);
                                        proof {
                                            assert(entry_seq(table@) =~= t0.push(ev));
                                            lemma_table_push(routes@, lsdb@, t0, entry_seq(table@), i as int, j as int, r as int);
                                        }
                                    },
                                    Some(k) => {
                                        let better = match table[k].state {
                                            RouteState::Active(current) => total < current,
                                            RouteState::Unreachable => true,
                                        };
                                        if better {
                                            let e = RouteEntry {
                                                destination: adv.prefix.clone(),
                                                next_hop: routes[r].next_hop.clone(),
                                                state: RouteState::Active(total),
                                            };
                                            let ghost ev = e@;
                                            table.set(k, e);
                                            proof {
                                                assert(entry_seq(table@) =~= t0.update(k as int, ev));
                                                lemma_table_replace(routes@, lsdb@, t0, entry_seq(table@), i as int, j as int, r as int, k as int);
                                            }
                                        } else {
                                            proof {
                                                lemma_table_keep(routes@, lsdb@, t0, i as int, j as int, r as int, k as int);
                                            }
                                        }
                                    },
                                }
                            },
                            RouteState::Unreachable => {
                                proof {
                                    lemma_table_skip(routes@, lsdb@, t0, i as int, j as int);
                                }
                            },
                        }
                        j += 1;
                    }
                    proof {
                        lemma_table_next_originator(routes@, lsdb@, entry_seq(table@), i as int, j as int);
                    }
                } else {
                    proof {
                        lemma_table_no_candidates(routes@, lsdb@, entry_seq(table@), i as int);
                    }
                }
            },
            _ => {
                proof {
                    lemma_table_no_candidates(routes@, lsdb@, entry_seq(table@), i as int);
                }
            },
        }
        i += 1;
    }
    Some(table)
}

#[verifier::rlimit(40)]
proof fn lemma_table_push(
    routes: Seq<RouteInfo>,
    lsdb: Seq<LsdbEntry>,
    t0: Seq<RouteEntryV>,
    t1: Seq<RouteEntryV>,
    i: int,
    j: int,
    r: int,
)
    requires
        distinct_destinations(routes),
        table_upto(routes, lsdb, t0, i, j),
        candidate(routes, lsdb, i, j, r),
        forall|k: int| 0 <= k < t0.len() ==> t0[k].destination != lsa_routes(lsdb[i])[j].prefix@,
        t1 == t0.push(
            RouteEntryV {
                destination: lsa_routes(lsdb[i])[j].prefix@,
                next_hop: routes[r].next_hop@,
                state: RouteState::Active(candidate_metric(routes, lsdb, i, j, r)),
            },
        ),
    ensures
        table_upto(routes, lsdb, t1, i, j + 1),
{
    let n = t0.len() as int;
    assert forall|a: int, b: int|
        0 <= a < t1.len() && 0 <= b < t1.len() && a != b implies t1[a].destination != t1[b].destination by {
        if a < n {
            assert(t1[a] == t0[a]);
        }
        if b < n {
            assert(t1[b] == t0[b]);
        }
    }
    assert forall|k: int| 0 <= k < t1.len() implies entry_justified(routes, lsdb, #[trigger] t1[k], i, j + 1) by {
        if k < n {
            assert(t1[k] == t0[k]);
            assert(entry_justified(routes, lsdb, t0[k], i, j));
            let (i2, j2, r2) = choose|i2: int, j2: int, r2: int|
                #![trigger candidate(routes, lsdb, i2, j2, r2)]
                candidate(routes, lsdb, i2, j2, r2) && scanned(i2, j2, i, j) && lsa_routes(lsdb[i2])[j2].prefix@
                    == t0[k].destination && routes[r2].next_hop@ == t0[k].next_hop && candidate_metric(
                    routes,
                    lsdb,
                    i2,
                    j2,
                    r2,
                ) == t0[k].state->0;
            assert(scanned(i2, j2, i, j + 1));
        } else {
            assert(scanned(i, j, i, j + 1));
        }
    }
    assert forall|i2: int, j2: int, r2: int|
        #![trigger candidate(routes, lsdb, i2, j2, r2)]
        candidate(routes, lsdb, i2, j2, r2) && scanned(i2, j2, i, j + 1) implies exists|k: int|
        0 <= k < t1.len() && #[trigger] t1[k].destination == lsa_routes(lsdb[i2])[j2].prefix@ && t1[k].state->0
            <= candidate_metric(routes, lsdb, i2, j2, r2) by {
        if scanned(i2, j2, i, j) {
            let k = choose|k: int|
                0 <= k < t0.len() && #[trigger] t0[k].destination == lsa_routes(lsdb[i2])[j2].prefix@
                    && t0[k].state->0 <= candidate_metric(routes, lsdb, i2, j2, r2);
            assert(t1[k] == t0[k]);
        } else {
            assert(i2 == i && j2 == j);
            assert(r2 == r);
            assert(t1[n].destination == lsa_routes(lsdb[i2])[j2].prefix@);
        }
    }
}

#[verifier::rlimit(40)]
proof fn lemma_table_replace(
    routes: Seq<RouteInfo>,
    lsdb: Seq<LsdbEntry>,
    t0: Seq<RouteEntryV>,
    t1: Seq<RouteEntryV>,
    i: int,
    j: int,
    r: int,
    k: int,
)
    requires
        distinct_destinations(routes),
        table_upto(routes, lsdb, t0, i, j),
        candidate(routes, lsdb, i, j, r),
        0 <= k < t0.len(),
        t0[k].destination == lsa_routes(lsdb[i])[j].prefix@,
        t0[k].state is Active ==> candidate_metric(routes, lsdb, i, j, r) < t0[k].state->0,
        t1 == t0.update(
            k,
            RouteEntryV {
                destination: lsa_routes(lsdb[i])[j].prefix@,
                next_hop: routes[r].next_hop@,
                state: RouteState::Active(candidate_metric(routes, lsdb, i, j, r)),
            },
        ),
    ensures
        table_upto(routes, lsdb, t1, i, j + 1),
{
    assert(entry_justified(routes, lsdb, t0[k], i, j));
    assert forall|a: int, b: int|
        0 <= a < t1.len() && 0 <= b < t1.len() && a != b implies t1[a].destination != t1[b].destination by {
        if a != k {
            assert(t1[a] == t0[a]);
        }
        if b != k {
            assert(t1[b] == t0[b]);
        }
    }
    assert forall|m: int| 0 <= m < t1.len() implies entry_justified(routes, lsdb, #[trigger] t1[m], i, j + 1) by {
        if m != k {
            assert(t1[m] == t0[m]);
            assert(entry_justified(routes, lsdb, t0[m], i, j));
            let (i2, j2, r2) = choose|i2: int, j2: int, r2: int|
                #![trigger candidate(routes, lsdb, i2, j2, r2)]
                candidate(routes, lsdb, i2, j2, r2) && scanned(i2, j2, i, j) && lsa_routes(lsdb[i2])[j2].prefix@
                    == t0[m].destination && routes[r2].next_hop@ == t0[m].next_hop && candidate_metric(
                    routes,
                    lsdb,
                    i2,
                    j2,
                    r2,
                ) == t0[m].state->0;
            assert(scanned(i2, j2, i, j + 1));
        } else {
            assert(scanned(i, j, i, j + 1));
        }
    }
    assert forall|i2: int, j2: int, r2: int|
        #![trigger candidate(routes, lsdb, i2, j2, r2)]
        candidate(routes, lsdb, i2, j2, r2) && scanned(i2, j2, i, j + 1) implies exists|m: int|
        0 <= m < t1.len() && #[trigger] t1[m].destination == lsa_routes(lsdb[i2])[j2].prefix@ && t1[m].state->0
            <= candidate_metric(routes, lsdb, i2, j2, r2) by {
        if scanned(i2, j2, i, j) {
            let m = choose|m: int|
                0 <= m < t0.len() && #[trigger] t0[m].destination == lsa_routes(lsdb[i2])[j2].prefix@
                    && t0[m].state->0 <= candidate_metric(routes, lsdb, i2, j2, r2);
            if m != k {
                assert(t1[m] == t0[m]);
            } else {
                assert(t1[k].destination == lsa_routes(lsdb[i2])[j2].prefix@);
            }
        } else {
            assert(i2 == i && j2 == j);
            assert(r2 == r);
            assert(t1[k].destination == lsa_routes(lsdb[i2])[j2].prefix@);
        }
    }
}

proof fn lemma_table_keep(
    routes: Seq<RouteInfo>,
    lsdb: Seq<LsdbEntry>,
    t0: Seq<RouteEntryV>,
    i: int,
    j: int,
    r: int,
    k: int,
)
    requires
        distinct_destinations(routes),
        table_upto(routes, lsdb, t0, i, j),
        candidate(routes, lsdb, i, j, r),
        0 <= k < t0.len(),
        t0[k].destination == lsa_routes(lsdb[i])[j].prefix@,
        t0[k].state is Active,
        candidate_metric(routes, lsdb, i, j, r) >= t0[k].state->0,
    ensures
        table_upto(routes, lsdb, t0, i, j + 1),
{
    assert forall|m: int| 0 <= m < t0.len() implies entry_justified(routes, lsdb, #[trigger] t0[m], i, j + 1) by {
        assert(entry_justified(routes, lsdb, t0[m], i, j));
        let (i2, j2, r2) = choose|i2: int, j2: int, r2: int|
            #![trigger candidate(routes, lsdb, i2, j2, r2)]
            candidate(routes, lsdb, i2, j2, r2) && scanned(i2, j2, i, j) && lsa_routes(lsdb[i2])[j2].prefix@
                == t0[m].destination && routes[r2].next_hop@ == t0[m].next_hop && candidate_metric(
                routes,
                lsdb,
                i2,
                j2,
                r2,
            ) == t0[m].state->0;
        assert(scanned(i2, j2, i, j + 1));
    }
    assert forall|i2: int, j2: int, r2: int|
        #![trigger candidate(routes, lsdb, i2, j2, r2)]
        candidate(routes, lsdb, i2, j2, r2) && scanned(i2, j2, i, j + 1) implies exists|m: int|
        0 <= m < t0.len() && #[trigger] t0[m].destination == lsa_routes(lsdb[i2])[j2].prefix@ && t0[m].state->0
            <= candidate_metric(routes, lsdb, i2, j2, r2) by {
        if !scanned(i2, j2, i, j) {
            assert(i2 == i && j2 == j);
            assert(r2 == r);
            assert(t0[k].destination == lsa_routes(lsdb[i2])[j2].prefix@);
        }
    }
}

proof fn lemma_table_skip(routes: Seq<RouteInfo>, lsdb: Seq<LsdbEntry>, t0: Seq<RouteEntryV>, i: int, j: int)
    requires
        table_upto(routes, lsdb, t0, i, j),
        0 <= i < lsdb.len(),
        0 <= j < lsa_routes(lsdb[i]).len(),
        lsa_routes(lsdb[i])[j].state is Unreachable,
    ensures
        table_upto(routes, lsdb, t0, i, j + 1),
{
    assert forall|m: int| 0 <= m < t0.len() implies entry_justified(routes, lsdb, #[trigger] t0[m], i, j + 1) by {
        assert(entry_justified(routes, lsdb, t0[m], i, j));
        let (i2, j2, r2) = choose|i2: int, j2: int, r2: int|
            #![trigger candidate(routes, lsdb, i2, j2, r2)]
            candidate(routes, lsdb, i2, j2, r2) && scanned(i2, j2, i, j) && lsa_routes(lsdb[i2])[j2].prefix@
                == t0[m].destination && routes[r2].next_hop@ == t0[m].next_hop && candidate_metric(
                routes,
                lsdb,
                i2,
                j2,
                r2,
            ) == t0[m].state->0;
        assert(scanned(i2, j2, i, j + 1));
    }
    assert forall|i2: int, j2: int, r2: int|
        #![trigger candidate(routes, lsdb, i2, j2, r2)]
        candidate(routes, lsdb, i2, j2, r2) && scanned(i2, j2, i, j + 1) implies exists|m: int|
        0 <= m < t0.len() && #[trigger] t0[m].destination == lsa_routes(lsdb[i2])[j2].prefix@ && t0[m].state->0
            <= candidate_metric(routes, lsdb, i2, j2, r2) by {
        assert(scanned(i2, j2, i, j));
    }
}

proof fn lemma_table_next_originator(routes: Seq<RouteInfo>, lsdb: Seq<LsdbEntry>, t0: Seq<RouteEntryV>, i: int, j: int)
    requires
        table_upto(routes, lsdb, t0, i, j),
        0 <= i < lsdb.len(),
        j == lsa_routes(lsdb[i]).len(),
    ensures
        table_upto(routes, lsdb, t0, i + 1, 0),
{
    assert forall|m: int| 0 <= m < t0.len() implies entry_justified(routes, lsdb, #[trigger] t0[m], i + 1, 0) by {
        assert(entry_justified(routes, lsdb, t0[m], i, j));
        let (i2, j2, r2) = choose|i2: int, j2: int, r2: int|
            #![trigger candidate(routes, lsdb, i2, j2, r2)]
            candidate(routes, lsdb, i2, j2, r2) && scanned(i2, j2, i, j) && lsa_routes(lsdb[i2])[j2].prefix@
                == t0[m].destination && routes[r2].next_hop@ == t0[m].next_hop && candidate_metric(
                routes,
                lsdb,
                i2,
                j2,
                r2,
            ) == t0[m].state->0;
        assert(scanned(i2, j2, i + 1, 0));
    }
    assert forall|i2: int, j2: int, r2: int|
        #![trigger candidate(routes, lsdb, i2, j2, r2)]
        candidate(routes, lsdb, i2, j2, r2) && scanned(i2, j2, i + 1, 0) implies exists|m: int|
        0 <= m < t0.len() && #[trigger] t0[m].destination == lsa_routes(lsdb[i2])[j2].prefix@ && t0[m].state->0
            <= candidate_metric(routes, lsdb, i2, j2, r2) by {
        assert(scanned(i2, j2, i, j));
    }
}

proof fn lemma_table_no_candidates(routes: Seq<RouteInfo>, lsdb: Seq<LsdbEntry>, t0: Seq<RouteEntryV>, i: int)
    requires
        table_upto(routes, lsdb, t0, i, 0),
        0 <= i < lsdb.len(),
        forall|j: int, r: int| !candidate(routes, lsdb, i, j, r),
    ensures
        table_upto(routes, lsdb, t0, i + 1, 0),
{
    assert forall|m: int| 0 <= m < t0.len() implies entry_justified(routes, lsdb, #[trigger] t0[m], i + 1, 0) by {
        assert(entry_justified(routes, lsdb, t0[m], i, 0));
        let (i2, j2, r2) = choose|i2: int, j2: int, r2: int|
            #![trigger candidate(routes, lsdb, i2, j2, r2)]
            candidate(routes, lsdb, i2, j2, r2) && scanned(i2, j2, i, 0) && lsa_routes(lsdb[i2])[j2].prefix@
                == t0[m].destination && routes[r2].next_hop@ == t0[m].next_hop && candidate_metric(
                routes,
                lsdb,
                i2,
                j2,
                r2,
            ) == t0[m].state->0;
        assert(scanned(i2, j2, i + 1, 0));
    }
    assert forall|i2: int, j2: int, r2: int|
        #![trigger candidate(routes, lsdb, i2, j2, r2)]
        candidate(routes, lsdb, i2, j2, r2) && scanned(i2, j2, i + 1, 0) implies exists|m: int|
        0 <= m < t0.len() && #[trigger] t0[m].destination == lsa_routes(lsdb[i2])[j2].prefix@ && t0[m].state->0
            <= candidate_metric(routes, lsdb, i2, j2, r2) by {
        if i2 == i {
            assert(!candidate(routes, lsdb, i2, j2, r2));
        }
        assert(scanned(i2, j2, i, 0));
    }
}

} // verus!

verus! {

use vstd::string::StringExecFns;

/// `info` describes configured interface `c` of the local router.
pub open spec fn local_interface_info(c: InterfaceConfig, info: InterfaceInfo) -> bool {
    &&& info.name@ == c.name@
    &&& info.network@ == "network_"@ + c.name@
    &&& info.capacity_mbps == c.capacity_mbps
    &&& info.is_active == c.link_active
    &&& info.connected_to is None
}

/// The links (from, to, capacity) that the neighbours whose link is up give
/// the local router, both directions of each in turn.
pub open spec fn neighbor_links(local: Seq<char>, ns: Seq<NeighborV>) -> Seq<(Seq<char>, Seq<char>, u32)>
    decreases ns.len(),
{
    if ns.len() == 0 {
        Seq::empty()
    } else {
        let prev = neighbor_links(local, ns.drop_last());
        let n = ns.last();
        if n.link_up {
            prev.push((local, n.neighbor_ip, n.capacity)).push((n.neighbor_ip, local, n.capacity))
        } else {
            prev
        }
    }
}

/// `x` is a neighbour whose link is up, at capacity `c`.
pub open spec fn up_neighbor(ns: Seq<NeighborV>, x: Seq<char>, c: u32) -> bool {
    exists|m: int| #![trigger ns[m]] 0 <= m < ns.len() && ns[m].link_up && ns[m].neighbor_ip == x && ns[m].capacity == c
}

proof fn lemma_neighbor_links_ends(local: Seq<char>, ns: Seq<NeighborV>)
    ensures
        forall|k: int|
            0 <= k < neighbor_links(local, ns).len() ==> {
                let e = #[trigger] neighbor_links(local, ns)[k];
                (e.0 == local && up_neighbor(ns, e.1, e.2)) || (e.1 == local && up_neighbor(ns, e.0, e.2))
            },
        forall|m: int|
            0 <= m < ns.len() && #[trigger] ns[m].link_up ==> neighbor_links(local, ns).contains(
                (local, ns[m].neighbor_ip, ns[m].capacity),
            ) && neighbor_links(local, ns).contains((ns[m].neighbor_ip, local, ns[m].capacity)),
    decreases ns.len(),
{
    if ns.len() > 0 {
        let p = ns.drop_last();
        lemma_neighbor_links_ends(local, p);
        let prev = neighbor_links(local, p);
        let nl = neighbor_links(local, ns);
        let n = ns.last();
        assert forall|x: Seq<char>, c: u32| up_neighbor(p, x, c) implies up_neighbor(ns, x, c) by {
            let m = choose|m: int| #![trigger p[m]] 0 <= m < p.len() && p[m].link_up && p[m].neighbor_ip == x && p[m].capacity == c;
            assert(ns[m] == p[m]);
        }
        if n.link_up {
            assert(ns[ns.len() - 1] == n);
            assert(up_neighbor(ns, n.neighbor_ip, n.capacity));
            assert forall|k: int| 0 <= k < nl.len() implies {
                let e = #[trigger] nl[k];
                (e.0 == local && up_neighbor(ns, e.1, e.2)) || (e.1 == local && up_neighbor(ns, e.0, e.2))
            } by {
                if k < prev.len() {
                    assert(nl[k] == prev[k]);
                }
            }
            assert forall|m: int| 0 <= m < ns.len() && #[trigger] ns[m].link_up implies nl.contains(
                (local, ns[m].neighbor_ip, ns[m].capacity),
            ) && nl.contains((ns[m].neighbor_ip, local, ns[m].capacity)) by {
                if m < p.len() {
                    assert(p[m] == ns[m]);
                    assert(p[m].link_up);
                    let j1 = choose|j: int| 0 <= j < prev.len() && prev[j] == (local, ns[m].neighbor_ip, ns[m].capacity);
                    let j2 = choose|j: int| 0 <= j < prev.len() && prev[j] == (ns[m].neighbor_ip, local, ns[m].capacity);
                    assert(nl[j1] == prev[j1]);
                    assert(nl[j2] == prev[j2]);
                } else {
                    assert(nl[prev.len() as int] == (local, n.neighbor_ip, n.capacity));
                    assert(nl[prev.len() as int + 1] == (n.neighbor_ip, local, n.capacity));
                }
            }
        } else {
            assert(nl == prev);
            assert forall|m: int| 0 <= m < ns.len() && #[trigger] ns[m].link_up implies nl.contains(
                (local, ns[m].neighbor_ip, ns[m].capacity),
            ) && nl.contains((ns[m].neighbor_ip, local, ns[m].capacity)) by {
                if m < p.len() {
                    assert(p[m] == ns[m]);
                    assert(p[m].link_up);
                } else {
                    assert(ns[m] == n);
                }
            }
        }
    }
}

/// The links of the topology built from the neighbours come from the
/// neighbours whose link is up: each link is active and joins the local
/// router and such a neighbour, in one direction or the other, at that
/// neighbour's capacity; every such neighbour gives a link each way; and
/// a neighbour whose link is down (with no up entry of the same address)
/// is the end of no link.
pub proof fn law_topology_links_need_link_up(local: Seq<char>, ns: Seq<NeighborV>, links: Seq<NetworkLink>)
    requires
        links_match(links, neighbor_links(local, ns)),
    ensures
        forall|k: int|
            0 <= k < links.len() ==> #[trigger] links[k].is_active && (
                (links[k].from@ == local && up_neighbor(ns, links[k].to@, links[k].capacity_mbps))
                || (links[k].to@ == local && up_neighbor(ns, links[k].from@, links[k].capacity_mbps))),
        forall|m: int|
            0 <= m < ns.len() && #[trigger] ns[m].link_up ==> (exists|k: int|
                0 <= k < links.len() && #[trigger] links[k].from@ == local && links[k].to@ == ns[m].neighbor_ip
                    && links[k].capacity_mbps == ns[m].capacity) && (exists|k: int|
                0 <= k < links.len() && #[trigger] links[k].to@ == local && links[k].from@ == ns[m].neighbor_ip
                    && links[k].capacity_mbps == ns[m].capacity),
        forall|m: int|
            0 <= m < ns.len() && !#[trigger] ns[m].link_up && ns[m].neighbor_ip != local && (forall|j: int|
                0 <= j < ns.len() && ns[j].neighbor_ip == ns[m].neighbor_ip ==> !ns[j].link_up) ==> forall|k: int|
                0 <= k < links.len() ==> #[trigger] links[k].from@ != ns[m].neighbor_ip && links[k].to@
                    != ns[m].neighbor_ip,
{
    lemma_neighbor_links_ends(local, ns);
    let nl = neighbor_links(local, ns);
    assert forall|k: int| 0 <= k < links.len() implies #[trigger] links[k].is_active && (
        (links[k].from@ == local && up_neighbor(ns, links[k].to@, links[k].capacity_mbps))
        || (links[k].to@ == local && up_neighbor(ns, links[k].from@, links[k].capacity_mbps))) by {
        assert(links[k].from@ == nl[k].0);
    }
    assert forall|m: int| 0 <= m < ns.len() && #[trigger] ns[m].link_up implies (exists|k: int|
        0 <= k < links.len() && #[trigger] links[k].from@ == local && links[k].to@ == ns[m].neighbor_ip
            && links[k].capacity_mbps == ns[m].capacity) && (exists|k: int|
        0 <= k < links.len() && #[trigger] links[k].to@ == local && links[k].from@ == ns[m].neighbor_ip
            && links[k].capacity_mbps == ns[m].capacity) by {
        let j1 = choose|j: int| 0 <= j < nl.len() && nl[j] == (local, ns[m].neighbor_ip, ns[m].capacity);
        let j2 = choose|j: int| 0 <= j < nl.len() && nl[j] == (ns[m].neighbor_ip, local, ns[m].capacity);
        assert(links[j1].from@ == nl[j1].0);
        assert(links[j2].from@ == nl[j2].0);
    }
    assert forall|m: int|
        0 <= m < ns.len() && !#[trigger] ns[m].link_up && ns[m].neighbor_ip != local && (forall|j: int|
            0 <= j < ns.len() && ns[j].neighbor_ip == ns[m].neighbor_ip ==> !ns[j].link_up) implies forall|k: int|
            0 <= k < links.len() ==> #[trigger] links[k].from@ != ns[m].neighbor_ip && links[k].to@
                != ns[m].neighbor_ip by {
        assert forall|k: int| 0 <= k < links.len() implies #[trigger] links[k].from@ != ns[m].neighbor_ip && links[k].to@
            != ns[m].neighbor_ip by {
            assert(links[k].from@ == nl[k].0);
            let e = nl[k];
            if e.0 == local {
                let q = choose|q: int| #![trigger ns[q]] 0 <= q < ns.len() && ns[q].link_up && ns[q].neighbor_ip == e.1 && ns[q].capacity == e.2;
                assert(ns[q].link_up);
            } else {
                let q = choose|q: int| #![trigger ns[q]] 0 <= q < ns.len() && ns[q].link_up && ns[q].neighbor_ip == e.0 && ns[q].capacity == e.2;
                assert(ns[q].link_up);
            }
        }
    }
}

/// `links` are the active links described by `expected`.
pub open spec fn links_match(links: Seq<NetworkLink>, expected: Seq<(Seq<char>, Seq<char>, u32)>) -> bool {
    &&& links.len() == expected.len()
    &&& forall|k: int|
        0 <= k < links.len() ==> {
            &&& #[trigger] links[k].from@ == expected[k].0
            &&& links[k].to@ == expected[k].1
            &&& links[k].capacity_mbps == expected[k].2
            &&& links[k].cost == spec_ospf_cost(expected[k].2, true)
            &&& links[k].is_active
            &&& links[k].hop_count == 1
        }
}

/// The topology seen from the local router: the local router with its
/// configured interfaces, each neighbour as a router, and a link of the
/// neighbour's capacity in both directions to each neighbour whose link is up.
#[verifier::spinoff_prover]
#[verifier::rlimit(30)]
pub fn build_network_topology(
    local_ip: &String,
    interfaces: &Vec<InterfaceConfig>,
    neighbors: &Vec<Neighbor>,
) -> (t: NetworkTopology)
    ensures
        t.wf(),
        t.nodes.len() >= 1,
        t.nodes@[0].router_id@ == local_ip@,
        t.nodes@[0].is_reachable,
        t.nodes@[0].interfaces.len() == interfaces.len(),
        forall|k: int|
            0 <= k < interfaces.len() ==> local_interface_info(
                interfaces@[k],
                #[trigger] t.nodes@[0].interfaces@[k],
            ),
        forall|k: int|
            1 <= k < t.nodes.len() ==> t.nodes@[k].router_id@ != local_ip@ && t.nodes@[k].interfaces.len()
                == 0 && t.nodes@[k].is_reachable && exists|m: int|
                0 <= m < neighbors.len() && #[trigger] neighbors@[m].neighbor_ip@ == t.nodes@[k].router_id@,
        forall|m: int|
            #![trigger neighbors@[m]]
            0 <= m < neighbors.len() ==> exists|k: int|
                0 <= k < t.nodes.len() && #[trigger] t.nodes@[k].router_id@ == neighbors@[m].neighbor_ip@,
        links_match(t.links@, neighbor_links(local_ip@, neighbor_seq(neighbors@))),
{
    let mut infos: Vec<InterfaceInfo> = Vec::new();
    let mut i: usize = 0;
    while i < interfaces.len()
        invariant
            i <= interfaces.len(),
            infos.len() == i,
            forall|k: int| 0 <= k < i ==> local_interface_info(interfaces@[k], #[trigger] infos@[k]),
        decreases interfaces.len() - i,
    {
        let mut network = "network_".to_string();
        network.append(interfaces[i].name.as_str());
        infos.push(
            InterfaceInfo {
                name: interfaces[i].name.clone(),
                network,
                capacity_mbps: interfaces[i].capacity_mbps,
                is_active: interfaces[i].link_active,
                connected_to: None,
            },
        );
        i += 1;
    }
    let mut topology = NetworkTopology::new();
    topology.add_router(local_ip.clone(), infos);
    assert(topology.nodes@.len() == 1);
    let mut m: usize = 0;
    while m < neighbors.len()
        invariant
            m <= neighbors.len(),
            topology.wf(),
            topology.nodes.len() >= 1,
            topology.nodes@[0].router_id@ == local_ip@,
            topology.nodes@[0].is_reachable,
            topology.nodes@[0].interfaces.len() == interfaces.len(),
            forall|k: int|
                0 <= k < interfaces.len() ==> local_interface_info(
                    interfaces@[k],
                    #[trigger] topology.nodes@[0].interfaces@[k],
                ),
            forall|k: int|
                1 <= k < topology.nodes.len() ==> topology.nodes@[k].router_id@ != local_ip@
                    && topology.nodes@[k].interfaces.len() == 0 && topology.nodes@[k].is_reachable && exists|q: int|
                    0 <= q < m && #[trigger] neighbors@[q].neighbor_ip@ == topology.nodes@[k].router_id@,
            forall|q: int|
                #![trigger neighbors@[q]]
                0 <= q < m ==> exists|k: int|
                    0 <= k < topology.nodes.len() && #[trigger] topology.nodes@[k].router_id@
                        == neighbors@[q].neighbor_ip@,
            links_match(topology.links@, neighbor_links(local_ip@, neighbor_seq(neighbors@.take(m as int)))),
        decreases neighbors.len() - m,
    {
        let n = &neighbors[m];
        let ghost nodes0 = topology.nodes@;
        let ghost links0 = topology.links@;
        let mut present = false;
        let mut k: usize = 0;
        while k < topology.nodes.len()
            invariant
                k <= topology.nodes.len(),
                topology.nodes@ == nodes0,
                present ==> exists|kk: int| 0 <= kk < topology.nodes.len() && #[trigger] topology.nodes@[kk].router_id@ == n.neighbor_ip@,
                !present ==> forall|kk: int| 0 <= kk < k ==> topology.nodes@[kk].router_id@ != n.neighbor_ip@,
            decreases topology.nodes.len() - k,
        {
            if topology.nodes[k].router_id == n.neighbor_ip {
                present = true;
            }
            k += 1;
        }
        if !present {
            topology.add_router(n.neighbor_ip.clone(), Vec::new());
            assert(topology.nodes@ == nodes0.push(topology.nodes@[nodes0.len() as int]));
        }
        if n.link_up {
            topology.add_link_with_min_capacity(local_ip.clone(), n.neighbor_ip.clone(), n.capacity, n.capacity, true);
        }
        proof {
            let nt = neighbors@.take(m as int + 1);
            assert(nt.drop_last() =~= neighbors@.take(m as int));
            assert(neighbor_seq(nt).drop_last() =~= neighbor_seq(neighbors@.take(m as int)));
            assert(neighbor_seq(nt).last() == n@);
            assert forall|q: int| #![trigger neighbors@[q]] 0 <= q < m + 1 implies exists|kk: int|
                0 <= kk < topology.nodes.len() && #[trigger] topology.nodes@[kk].router_id@ == neighbors@[q].neighbor_ip@ by {
                if q < m {
                    let kk = choose|kk: int| 0 <= kk < nodes0.len() && #[trigger] nodes0[kk].router_id@ == neighbors@[q].neighbor_ip@;
                    assert(topology.nodes@[kk] == nodes0[kk]);
                } else if !present {
                    assert(topology.nodes@[nodes0.len() as int].router_id@ == neighbors@[q].neighbor_ip@);
                }
            }
            assert forall|kk: int|
                1 <= kk < topology.nodes.len() implies topology.nodes@[kk].router_id@ != local_ip@
                    && topology.nodes@[kk].interfaces.len() == 0 && topology.nodes@[kk].is_reachable && exists|q: int|
                    0 <= q < m + 1 && #[trigger] neighbors@[q].neighbor_ip@ == topology.nodes@[kk].router_id@ by {
                if kk < nodes0.len() {
                    assert(topology.nodes@[kk] == nodes0[kk]);
                    let q = choose|q: int| 0 <= q < m && #[trigger] neighbors@[q].neighbor_ip@ == nodes0[kk].router_id@;
                } else {
                    assert(!present);
                    assert(topology.nodes@[kk].router_id@ == neighbors@[m as int].neighbor_ip@);
                    assert(nodes0[0].router_id@ == local_ip@);
                }
            }
            let nl = neighbor_links(local_ip@, neighbor_seq(nt));
            let prev = neighbor_links(local_ip@, neighbor_seq(neighbors@.take(m as int)));
            assert(links_match(links0, prev));
            assert(links_match(topology.links@, nl)) by {
                if n.link_up {
                    assert(topology.links@.len() == links0.len() + 2);
                    assert(nl == prev.push((local_ip@, n.neighbor_ip@, n.capacity)).push(
                        (n.neighbor_ip@, local_ip@, n.capacity),
                    ));
                    assert forall|kk: int| 0 <= kk < topology.links.len() implies {
                        &&& #[trigger] topology.links@[kk].from@ == nl[kk].0
                        &&& topology.links@[kk].to@ == nl[kk].1
                        &&& topology.links@[kk].capacity_mbps == nl[kk].2
                        &&& topology.links@[kk].cost == spec_ospf_cost(nl[kk].2, true)
                        &&& topology.links@[kk].is_active
                        &&& topology.links@[kk].hop_count == 1
                    } by {
                        if kk < links0.len() {
                            assert(topology.links@[kk] == links0[kk]);
                            assert(nl[kk] == prev[kk]);
                        }
                    }
                } else {
                    assert(nl == prev);
                    assert(topology.links@ == links0);
                }
            }
        }
        m += 1;
    }
    assert(neighbors@.take(neighbors.len() as int) =~= neighbors@);
    topology
}

/// The route that the system table gets for `destination` (a network in
/// CIDR notation) through `gateway`: the destination's network, prefix
/// length and the gateway.  Refused, with the message given, are a
/// destination without a prefix length, one that does not parse, an IPv6
/// destination, a gateway that is not an IPv4 address, and an unspecified,
/// broadcast or loopback gateway.
pub fn system_route_request(destination: &str, gateway: &str) -> (r: Result<(u32, u8, u32), crate::error::AppError>)
    ensures
        !destination@.contains('/') ==> (r matches Err(crate::error::AppError::RouteError(m)) && m@
            == "Format de destination invalide (CIDR attendu): "@ + destination@),
        destination@.contains('/') ==> match crate::net_utils::spec_parse_ip_network(destination@) {
            None => r matches Err(crate::error::AppError::RouteError(m)) && crate::lsa::starts_with(
                m@,
                "Analyse du réseau destination échouée "@ + destination@ + ": "@,
            ),
            Some(crate::net_utils::IpNet::V6 { .. }) => r matches Err(crate::error::AppError::RouteError(m)) && m@
                == "IPv6 non supporté"@,
            Some(crate::net_utils::IpNet::V4 { addr, prefix }) => match crate::net_utils::spec_parse_ipv4(gateway@) {
                None => r matches Err(crate::error::AppError::RouteError(m)) && m@ == "Passerelle IPv4 invalide "@
                    + gateway@ + ": "@ + "invalid IPv4 address syntax"@,
                Some(g) => if g == 0 || g == 0xffff_ffff || crate::net_utils::spec_is_loopback(g) {
                    r matches Err(crate::error::AppError::RouteError(m)) && m@ == "Adresse de passerelle invalide: "@
                        + crate::net_utils::spec_ipv4_text(g)
                } else {
                    r == Ok::<(u32, u8, u32), crate::error::AppError>(
                        (crate::net_utils::spec_network(addr, prefix), prefix, g),
                    )
                },
            },
        },
{
    if !crate::text::contains_char(destination, '/') {
        let m = crate::text::concat("Format de destination invalide (CIDR attendu): ", destination);
        return Err(crate::error::AppError::RouteError(m));
    }
    let network = match crate::net_utils::parse_ip_network(destination) {
        Ok(n) => n,
        Err(e) => {
            let m = crate::text::concat("Analyse du réseau destination échouée ", destination);
            let m = crate::text::concat(m.as_str(), ": ");
            let m = crate::text::concat(m.as_str(), e.as_str());
            proof {
                let p = "Analyse du réseau destination échouée "@ + destination@ + ": "@;
                assert(m@.subrange(0, p.len() as int) =~= p);
            }
            return Err(crate::error::AppError::RouteError(m));
        },
    };
    let (addr, prefix) = match network {
        crate::net_utils::IpNet::V4 { addr, prefix } => (addr, prefix),
        crate::net_utils::IpNet::V6 { .. } => {
            return Err(crate::error::AppError::RouteError("IPv6 non supporté".to_string()));
        },
    };
    let g = match crate::net_utils::parse_ipv4(gateway) {
        Ok(g) => g,
        Err(e) => {
            let m = crate::text::concat("Passerelle IPv4 invalide ", gateway);
            let m = crate::text::concat(m.as_str(), ": ");
            let m = crate::text::concat(m.as_str(), e.as_str());
            return Err(crate::error::AppError::RouteError(m));
        },
    };
    if crate::net_utils::is_unspecified(g) || g == 0xffff_ffff || crate::net_utils::is_loopback(g) {
        let t = crate::net_utils::ipv4_to_string(g);
        let m = crate::text::concat("Adresse de passerelle invalide: ", t.as_str());
        return Err(crate::error::AppError::RouteError(m));
    }
    let network = crate::net_utils::ipv4_network_address(addr, prefix);
    Ok((network, prefix, g))
}

} // verus!

verus! {

use crate::state::AppState;

/// The (destination, next hop) pairs of the entries of `t` whose
/// destination is a prefix (holds `/`), in table order.
pub open spec fn install_list(t: Seq<RouteEntryV>) -> Seq<(Seq<char>, Seq<char>)>
    decreases t.len(),
{
    if t.len() == 0 {
        Seq::empty()
    } else {
        let r = install_list(t.drop_last());
        let e = t.last();
        if e.destination.contains('/') {
            r.push((e.destination, e.next_hop))
        } else {
            r
        }
    }
}

/// The values of a sequence of string pairs.
pub open spec fn pair_seq(v: Seq<(String, String)>) -> Seq<(Seq<char>, Seq<char>)> {
    v.map_values(|p: (String, String)| (p.0@, p.1@))
}

proof fn lemma_neighbor_links_len(local: Seq<char>, ns: Seq<NeighborV>)
    ensures
        neighbor_links(local, ns).len() <= 2 * ns.len(),
    decreases ns.len(),
{
    if ns.len() > 0 {
        lemma_neighbor_links_len(local, ns.drop_last());
    }
}

/// The routes of `table` that go to the system table.
fn install_routes(table: &Vec<RouteEntry>) -> (r: Vec<(String, String)>)
    ensures
        pair_seq(r@) == install_list(entry_seq(table@)),
{
    let mut r: Vec<(String, String)> = Vec::new();
    let mut i: usize = 0;
    while i < table.len()
        invariant
            i <= table.len(),
            pair_seq(r@) == install_list(entry_seq(table@).take(i as int)),
        decreases table.len() - i,
    {
        let ghost t = entry_seq(table@).take(i as int + 1);
        assert(t.drop_last() =~= entry_seq(table@).take(i as int));
        assert(t.last() == table@[i as int]@);
        if crate::text::contains_char(table[i].destination.as_str(), '/') {
            r.push((table[i].destination.clone(), table[i].next_hop.clone()));
        }
        assert(pair_seq(r@) =~= install_list(t));
        i += 1;
    }
    assert(entry_seq(table@).take(table.len() as int) =~= entry_seq(table@));
    r
}

/// Recomputes the routing table of `state`: the topology seen from the
/// local router (its interfaces and the neighbours whose link is up), the
/// cheapest routes over it, and from them and the link-state database the
/// table of advertised networks. When no router is reachable the table is
/// left as it was and `None` comes back; otherwise the table is replaced
/// and the (prefix, next hop) pairs to install in the system table come
/// back: the entries whose destination holds `/`.
pub fn calculate_optimal_routes(state: &mut AppState) -> (install: Option<Vec<(String, String)>>)
    requires
        2 * old(state).neighbors@.len() < 0x7fff_ffff,
    ensures
        final(state).topology == old(state).topology,
        final(state).neighbors == old(state).neighbors,
        final(state).processed_lsa == old(state).processed_lsa,
        final(state).local_ip == old(state).local_ip,
        final(state).enabled == old(state).enabled,
        final(state).config == old(state).config,
        final(state).key == old(state).key,
        exists|links: Seq<NetworkLink>, routes: Seq<RouteInfo>|
            {
                &&& links_match(links, neighbor_links(old(state).local_ip@, neighbor_seq(old(state).neighbors@)))
                &&& #[trigger] shortest_paths_spec(links, old(state).local_ip@, routes)
                &&& routes.len() == 0 ==> install is None && final(state).routing_table == old(state).routing_table
                &&& routes.len() > 0 ==> optimal_table_spec(routes, old(state).topology@, entry_seq(final(state).routing_table@))
                    && (install matches Some(v) && pair_seq(v@) == install_list(entry_seq(final(state).routing_table@)))
            },
{
    let topology = build_network_topology(&state.local_ip, &state.config.interfaces, &state.neighbors);
    proof {
        lemma_neighbor_links_len(state.local_ip@, neighbor_seq(state.neighbors@));
    }
    let routes = topology.calculate_shortest_paths(state.local_ip.as_str());
    match optimal_routing_table(&routes, &state.topology) {
        None => {
            assert(shortest_paths_spec(topology.links@, state.local_ip@, routes@));
            None
        },
        Some(table) => {
            let install = install_routes(&table);
            state.routing_table = table;
            assert(shortest_paths_spec(topology.links@, state.local_ip@, routes@));
            Some(install)
        },
    }
}

} // verus!

verus! {

proof fn lemma_walk_extend(links: Seq<NetworkLink>, links2: Seq<NetworkLink>, w: Seq<usize>, src: Seq<char>, dst: Seq<char>)
    requires
        is_walk(links, w, src, dst),
        links.len() <= links2.len(),
        links2.take(links.len() as int) == links,
    ensures
        is_walk(links2, w, src, dst),
        walk_cost(links2, w) == walk_cost(links, w),
    decreases w.len(),
{
    if w.len() > 0 {
        let k = w.last() as int;
        assert(links2.take(links.len() as int)[k] == links2[k]);
        lemma_walk_extend(links, links2, w.drop_last(), src, links[k].from@);
    }
}

/// Adding links never raises the cost of a route nor drops a destination:
/// when `links2` is `links` followed by more links (as after `add_link` or
/// `add_link_with_min_capacity`), every destination routed from `src` over
/// `links` is routed over `links2`, at a cost no higher.
pub proof fn law_added_links_never_raise_costs(
    links: Seq<NetworkLink>,
    links2: Seq<NetworkLink>,
    src: Seq<char>,
    routes: Seq<RouteInfo>,
    routes2: Seq<RouteInfo>,
    i: int,
)
    requires
        links.len() <= links2.len(),
        links2.take(links.len() as int) == links,
        shortest_paths_spec(links, src, routes),
        shortest_paths_spec(links2, src, routes2),
        0 <= i < routes.len(),
    ensures
        exists|i2: int|
            0 <= i2 < routes2.len() && routes2[i2].destination@ == routes[i].destination@ && routes2[i2].total_cost
                <= routes[i].total_cost,
{
    let r = routes[i];
    assert(is_shortest_route(links, src, r));
    let w = choose|w: Seq<usize>|
        {
            &&& #[trigger] is_walk(links, w, src, r.destination@)
            &&& walk_cost(links, w) == r.total_cost
            &&& strs(r.path@) == walk_nodes(links, w, src)
            &&& r.hop_count == w.len()
            &&& r.bottleneck_capacity == walk_bottleneck(links, w)
            &&& r.next_hop@ == walk_nodes(links, w, src)[1]
        };
    lemma_walk_extend(links, links2, w, src, r.destination@);
    assert(reachable(links2, src, r.destination@));
    let i2 = choose|i2: int| 0 <= i2 < routes2.len() && routes2[i2].destination@ == r.destination@;
    assert(is_shortest_route(links2, src, routes2[i2]));
    assert(is_walk(links2, w, src, routes2[i2].destination@));
}

/// The walk `e` followed by `w`.
proof fn lemma_walk_prepend(links: Seq<NetworkLink>, e: usize, w: Seq<usize>, src: Seq<char>, dst: Seq<char>)
    requires
        is_walk(links, w, links[e as int].to@, dst),
        0 <= e < links.len(),
        links[e as int].is_active,
        links[e as int].from@ == src,
    ensures
        is_walk(links, seq![e] + w, src, dst),
        walk_cost(links, seq![e] + w) == links[e as int].cost + walk_cost(links, w),
    decreases w.len(),
{
    let v = seq![e] + w;
    if w.len() == 0 {
        assert(v =~= seq![e]);
        assert(v.drop_last() =~= Seq::<usize>::empty());
        assert(is_walk(links, Seq::<usize>::empty(), src, links[e as int].from@));
        assert(walk_cost(links, Seq::<usize>::empty()) == 0);
        assert(v.last() == e);
    } else {
        let k = w.last() as int;
        assert(v.drop_last() =~= seq![e] + w.drop_last());
        assert(v.last() == w.last());
        lemma_walk_prepend(links, e, w.drop_last(), src, links[k].from@);
    }
}

/// Link `k` has a reverse link: active alike, of the same cost.
pub open spec fn has_reverse(links: Seq<NetworkLink>, k: int) -> bool {
    exists|k2: int|
        0 <= k2 < links.len() && #[trigger] links[k2].from@ == links[k].to@ && links[k2].to@ == links[k].from@
            && links[k2].cost == links[k].cost && links[k2].is_active == links[k].is_active
}

/// Every link has a reverse link.
pub open spec fn symmetric_links(links: Seq<NetworkLink>) -> bool {
    forall|k: int| 0 <= k < links.len() ==> #[trigger] has_reverse(links, k)
}

/// The links of a new topology are symmetric, and adding a link with its
/// reverse (as `add_link` and `add_link_with_min_capacity` do) keeps them
/// so.
pub proof fn law_paired_links_stay_symmetric(links: Seq<NetworkLink>, a: NetworkLink, b: NetworkLink)
    requires
        symmetric_links(links),
        b.from@ == a.to@,
        b.to@ == a.from@,
        b.cost == a.cost,
        b.is_active == a.is_active,
    ensures
        symmetric_links(Seq::<NetworkLink>::empty()),
        symmetric_links(links.push(a).push(b)),
{
    let t = links.push(a).push(b);
    assert forall|k: int| 0 <= k < t.len() implies #[trigger] has_reverse(t, k) by {
        if k < links.len() {
            assert(links[k] == t[k]);
            assert(has_reverse(links, k));
            let k2 = choose|k2: int|
                0 <= k2 < links.len() && #[trigger] links[k2].from@ == links[k].to@ && links[k2].to@ == links[k].from@
                    && links[k2].cost == links[k].cost && links[k2].is_active == links[k].is_active;
            assert(t[k2] == links[k2]);
        } else if k == links.len() {
            assert(t[links.len() + 1int] == b);
        } else {
            assert(t[links.len() as int] == a);
        }
    }
    assert(symmetric_links(t));
}

proof fn lemma_walk_reverse(links: Seq<NetworkLink>, w: Seq<usize>, a: Seq<char>, b: Seq<char>)
    requires
        symmetric_links(links),
        links.len() <= usize::MAX,
        is_walk(links, w, a, b),
    ensures
        exists|w2: Seq<usize>| #[trigger] is_walk(links, w2, b, a) && walk_cost(links, w2) == walk_cost(links, w),
    decreases w.len(),
{
    if w.len() == 0 {
        assert(is_walk(links, w, b, a));
    } else {
        let k = w.last() as int;
        let x = links[k].from@;
        lemma_walk_reverse(links, w.drop_last(), a, x);
        let r = choose|w2: Seq<usize>| #[trigger] is_walk(links, w2, x, a) && walk_cost(links, w2) == walk_cost(links, w.drop_last());
        assert(has_reverse(links, k));
        let k2 = choose|k2: int|
            0 <= k2 < links.len() && #[trigger] links[k2].from@ == links[k].to@ && links[k2].to@ == links[k].from@
                && links[k2].cost == links[k].cost && links[k2].is_active == links[k].is_active;
        let e = k2 as usize;
        assert(e as int == k2);
        assert(links[e as int].to@ == x);
        lemma_walk_prepend(links, e, r, b, a);
        assert(walk_cost(links, w) == walk_cost(links, w.drop_last()) + links[k].cost);
        assert(is_walk(links, seq![e] + r, b, a) && walk_cost(links, seq![e] + r) == walk_cost(links, w));
    }
}

/// Over symmetric links (every topology built from `NetworkTopology::new`
/// by `add_router`, `add_link` and `add_link_with_min_capacity` has them,
/// by their contracts), the route from `a` to `b` costs what the route
/// from `b` to `a` costs.
pub proof fn law_route_costs_are_symmetric(
    links: Seq<NetworkLink>,
    a: Seq<char>,
    b: Seq<char>,
    from_a: Seq<RouteInfo>,
    from_b: Seq<RouteInfo>,
    i: int,
)
    requires
        symmetric_links(links),
        links.len() <= usize::MAX,
        shortest_paths_spec(links, a, from_a),
        shortest_paths_spec(links, b, from_b),
        0 <= i < from_a.len(),
        from_a[i].destination@ == b,
    ensures
        exists|j: int| 0 <= j < from_b.len() && from_b[j].destination@ == a && from_b[j].total_cost == from_a[i].total_cost,
{
    let r = from_a[i];
    assert(is_shortest_route(links, a, r));
    let w = choose|w: Seq<usize>|
        {
            &&& #[trigger] is_walk(links, w, a, r.destination@)
            &&& walk_cost(links, w) == r.total_cost
            &&& strs(r.path@) == walk_nodes(links, w, a)
            &&& r.hop_count == w.len()
            &&& r.bottleneck_capacity == walk_bottleneck(links, w)
            &&& r.next_hop@ == walk_nodes(links, w, a)[1]
        };
    lemma_walk_reverse(links, w, a, b);
    let w2 = choose|w2: Seq<usize>| #[trigger] is_walk(links, w2, b, a) && walk_cost(links, w2) == walk_cost(links, w);
    assert(reachable(links, b, a));
    let j = choose|j: int| 0 <= j < from_b.len() && from_b[j].destination@ == a;
    let s = from_b[j];
    assert(is_shortest_route(links, b, s));
    assert(walk_cost(links, w2) >= s.total_cost);
    let v = choose|v: Seq<usize>|
        {
            &&& #[trigger] is_walk(links, v, b, s.destination@)
            &&& walk_cost(links, v) == s.total_cost
            &&& strs(s.path@) == walk_nodes(links, v, b)
            &&& s.hop_count == v.len()
            &&& s.bottleneck_capacity == walk_bottleneck(links, v)
            &&& s.next_hop@ == walk_nodes(links, v, b)[1]
        };
    lemma_walk_reverse(links, v, b, a);
    let v2 = choose|v2: Seq<usize>| #[trigger] is_walk(links, v2, a, b) && walk_cost(links, v2) == walk_cost(links, v);
    assert(is_walk(links, v2, a, r.destination@));
    assert(walk_cost(links, v2) >= r.total_cost);
}

} // verus!

verus! {

/// No router occurs twice in `s`.
pub open spec fn no_repeats(s: Seq<Seq<char>>) -> bool {
    forall|a: int, b: int| 0 <= a < b < s.len() ==> s[a] != s[b]
}

proof fn lemma_walk_nodes_last(links: Seq<NetworkLink>, w: Seq<usize>, a: Seq<char>, b: Seq<char>)
    requires
        is_walk(links, w, a, b),
    ensures
        walk_nodes(links, w, a).len() == w.len() + 1,
        walk_nodes(links, w, a)[w.len() as int] == b,
{
    lemma_walk_nodes_len(links, w, a);
    if w.len() > 0 {
        lemma_walk_nodes_len(links, w.drop_last(), a);
    }
}

proof fn lemma_walk_take(links: Seq<NetworkLink>, w: Seq<usize>, a: Seq<char>, b: Seq<char>, i: int)
    requires
        is_walk(links, w, a, b),
        0 <= i <= w.len(),
    ensures
        is_walk(links, w.take(i), a, walk_nodes(links, w, a)[i]),
        walk_cost(links, w.take(i)) <= walk_cost(links, w),
    decreases w.len(),
{
    lemma_walk_nodes_last(links, w, a, b);
    if i == w.len() {
        assert(w.take(i) =~= w);
    } else {
        let l = w.last() as int;
        let v = w.drop_last();
        assert(v.take(i) =~= w.take(i));
        lemma_walk_take(links, v, a, links[l].from@, i);
        lemma_walk_nodes_len(links, v, a);
        assert(walk_nodes(links, w, a) == walk_nodes(links, v, a).push(links[l].to@));
        assert(walk_nodes(links, w, a)[i] == walk_nodes(links, v, a)[i]);
    }
}

proof fn lemma_walk_skip(links: Seq<NetworkLink>, w: Seq<usize>, a: Seq<char>, b: Seq<char>, j: int)
    requires
        is_walk(links, w, a, b),
        0 <= j <= w.len(),
    ensures
        is_walk(links, w.skip(j), walk_nodes(links, w, a)[j], b),
        walk_cost(links, w.take(j)) + walk_cost(links, w.skip(j)) == walk_cost(links, w),
    decreases w.len(),
{
    lemma_walk_nodes_last(links, w, a, b);
    if j == w.len() {
        assert(w.take(j) =~= w);
        assert(w.skip(j) =~= Seq::<usize>::empty());
    } else {
        let l = w.last() as int;
        let v = w.drop_last();
        lemma_walk_skip(links, v, a, links[l].from@, j);
        lemma_walk_nodes_len(links, v, a);
        assert(walk_nodes(links, w, a) == walk_nodes(links, v, a).push(links[l].to@));
        assert(walk_nodes(links, w, a)[j] == walk_nodes(links, v, a)[j]);
        assert(w.skip(j).drop_last() =~= v.skip(j));
        assert(w.skip(j).last() == w.last());
        assert(v.take(j) =~= w.take(j));
    }
}

proof fn lemma_walk_concat(links: Seq<NetworkLink>, p: Seq<usize>, q: Seq<usize>, a: Seq<char>, x: Seq<char>, b: Seq<char>)
    requires
        is_walk(links, p, a, x),
        is_walk(links, q, x, b),
    ensures
        is_walk(links, p + q, a, b),
        walk_cost(links, p + q) == walk_cost(links, p) + walk_cost(links, q),
    decreases q.len(),
{
    if q.len() == 0 {
        assert(p + q =~= p);
    } else {
        let l = q.last() as int;
        lemma_walk_concat(links, p, q.drop_last(), a, x, links[l].from@);
        assert((p + q).drop_last() =~= p + q.drop_last());
        assert((p + q).last() == q.last());
    }
}

/// A walk that comes first in the order of routes (least cost, then fewest
/// hops) among the walks between its ends passes through no router twice.
proof fn lemma_least_walk_is_simple(links: Seq<NetworkLink>, w: Seq<usize>, a: Seq<char>, b: Seq<char>)
    requires
        is_walk(links, w, a, b),
        forall|w2: Seq<usize>| #[trigger]
            is_walk(links, w2, a, b) ==> lex_le(walk_cost(links, w) as int, w.len() as int, walk_cost(links, w2) as int, w2.len() as int),
    ensures
        no_repeats(walk_nodes(links, w, a)),
{
    let ns = walk_nodes(links, w, a);
    lemma_walk_nodes_last(links, w, a, b);
    assert forall|i: int, j: int| 0 <= i < j < ns.len() implies ns[i] != ns[j] by {
        if ns[i] == ns[j] {
            lemma_walk_take(links, w, a, b, i);
            lemma_walk_take(links, w, a, b, j);
            lemma_walk_skip(links, w, a, b, j);
            lemma_walk_take(links, w.take(j), a, ns[j], i);
            assert(w.take(j).take(i) =~= w.take(i));
            lemma_walk_concat(links, w.take(i), w.skip(j), a, ns[i], b);
            let w2 = w.take(i) + w.skip(j);
            assert(w2.len() < w.len());
            assert(is_walk(links, w2, a, b));
        }
    }
}

} // verus!
