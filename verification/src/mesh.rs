use vstd::prelude::*;
use crate::assoc::{assoc_map, assoc_unique, lemma_assoc_lookup, lemma_assoc_absent, lemma_assoc_update, lemma_assoc_push};
use crate::lsa::contains_string;
use crate::types::str_seq;
use crate::dijkstra::{count_true, lemma_count_true_le, lemma_count_true_set};
use crate::net_utils::parse_ipv4;
use crate::net_utils::spec_parse_ipv4;

verus! {

/// A neighbour in a link-state advertisement: its id, whether the link is
/// up and its capacity in Mbit/s.
#[derive(Debug)]
pub struct Neighbor {
    pub neighbor_id: String,
    pub link_up: bool,
    pub capacity: u32,
}

/// A router of the topology and its neighbours.
#[derive(Debug)]
pub struct Router {
    pub router_id: String,
    pub neighbors: Vec<Neighbor>,
}

/// The cost found for a node and the node it is reached from.
#[derive(Debug)]
pub struct NodeCost {
    pub id: String,
    pub cost: u32,
    pub prev: Option<String>,
}

/// The result of the shortest-path computation: every node with its cost
/// and predecessor, and the nodes settled, in the order they were.
#[derive(Debug)]
pub struct PathTable {
    pub nodes: Vec<NodeCost>,
    pub settled: Vec<String>,
}

/// The cost of a link: 1000 divided by its capacity.
pub open spec fn weight(n: Neighbor) -> u32 {
    1000u32 / n.capacity
}

/// The ids of the routers of a topology.
pub open spec fn router_ids(t: Seq<Router>) -> Seq<Seq<char>> {
    t.map_values(|r: Router| r.router_id@)
}

/// No router id occurs twice.
pub open spec fn unique_routers(t: Seq<Router>) -> bool {
    forall|a: int, b: int| 0 <= a < t.len() && 0 <= b < t.len() && a != b ==> t[a].router_id@ != t[b].router_id@
}

/// Router `a` of the topology has an up link to `b`.
pub open spec fn linked(t: Seq<Router>, a: Seq<char>, b: Seq<char>) -> bool {
    exists|i: int, j: int|
        0 <= i < t.len() && 0 <= j < t[i].neighbors@.len() && t[i].router_id@ == a && t[i].neighbors@[j].link_up
            && t[i].neighbors@[j].neighbor_id@ == b
}

/// `w` is a walk of routers of the topology along up links.
pub open spec fn is_walk(t: Seq<Router>, w: Seq<Seq<char>>) -> bool {
    &&& w.len() >= 1
    &&& forall|i: int| 0 <= i < w.len() ==> router_ids(t).contains(#[trigger] w[i])
    &&& forall|i: int| 0 <= i < w.len() - 1 ==> linked(t, #[trigger] w[i], w[i + 1])
}

/// Router `r` can be reached from `source` along up links.
pub open spec fn reachable(t: Seq<Router>, source: Seq<char>, r: Seq<char>) -> bool {
    exists|w: Seq<Seq<char>>| #[trigger] is_walk(t, w) && w[0] == source && w.last() == r
}

/// Node `x` gets a finite cost: a router reachable from `source`, or the
/// far end of an up link of such a router.
pub open spec fn reached(t: Seq<Router>, source: Seq<char>, x: Seq<char>) -> bool {
    ||| reachable(t, source, x)
    ||| exists|i: int, j: int|
        0 <= i < t.len() && 0 <= j < t[i].neighbors@.len() && reachable(t, source, t[i].router_id@)
            && t[i].neighbors@[j].link_up && #[trigger] t[i].neighbors@[j].neighbor_id@ == x
}

/// At least as many distinct nodes as there are routers get a finite cost,
/// so the computation settles no node of infinite cost.
pub open spec fn enough_reached(t: Seq<Router>, source: Seq<char>) -> bool {
    exists|ws: Seq<Seq<char>>|
        ws.len() == t.len() && ws.no_duplicates() && forall|k: int| 0 <= k < ws.len() ==> #[trigger] reached(t, source, ws[k])
}

/// The conditions under which the computation neither overflows nor
/// divides by zero: router ids are unique, the topology has fewer than
/// 4294967 routers (each link cost is at most 1000), every up link of a
/// router reachable from the source has a nonzero capacity, and, unless
/// enough nodes are reached that no unreached router is ever settled,
/// every up link has a nonzero capacity and a router with an up link of
/// capacity at most 1000 is reachable (an unreached router has cost
/// `u32::MAX`, to which only a zero cost can be added).
pub open spec fn computable(t: Seq<Router>, source: Seq<char>) -> bool {
    &&& unique_routers(t)
    &&& 1000 * t.len() < u32::MAX
    &&& forall|i: int, j: int|
        0 <= i < t.len() && 0 <= j < t[i].neighbors@.len() && reachable(t, source, t[i].router_id@)
            && t[i].neighbors@[j].link_up ==> t[i].neighbors@[j].capacity > 0
    &&& enough_reached(t, source) || all_links_computable(t, source)
}

/// Every up link has a nonzero capacity, and a router with an up link of
/// capacity at most 1000 is reachable from the source.
pub open spec fn all_links_computable(t: Seq<Router>, source: Seq<char>) -> bool {
    &&& forall|i: int, j: int|
        0 <= i < t.len() && 0 <= j < t[i].neighbors@.len() && t[i].neighbors@[j].link_up ==> t[i].neighbors@[j].capacity
            > 0
    &&& forall|i: int, j: int|
        0 <= i < t.len() && 0 <= j < t[i].neighbors@.len() && t[i].neighbors@[j].link_up
            && t[i].neighbors@[j].capacity <= 1000 ==> reachable(t, source, t[i].router_id@)
}

/// A sequence without repeats whose elements all occur in `big` is no
/// longer than `big`.
proof fn lemma_distinct_within(ws: Seq<Seq<char>>, big: Seq<Seq<char>>)
    requires
        ws.no_duplicates(),
        forall|k: int| 0 <= k < ws.len() ==> big.contains(#[trigger] ws[k]),
    ensures
        ws.len() <= big.len(),
{
    ws.unique_seq_to_set();
    big.lemma_cardinality_of_set();
    assert(ws.to_set().subset_of(big.to_set())) by {
        assert forall|x: Seq<char>| ws.to_set().contains(x) implies big.to_set().contains(x) by {
            let k = choose|k: int| 0 <= k < ws.len() && ws[k] == x;
            assert(big.contains(ws[k]));
        }
    }
    vstd::set_lib::lemma_len_subset(ws.to_set(), big.to_set());
}

/// The id-to-cost pairs of the nodes.
pub open spec fn cost_pairs(n: Seq<NodeCost>) -> Seq<(Seq<char>, u32)> {
    n.map_values(|c: NodeCost| (c.id@, c.cost))
}

/// The costs of the nodes, by id.
pub open spec fn costs(n: Seq<NodeCost>) -> Map<Seq<char>, u32> {
    assoc_map(cost_pairs(n))
}

/// The properties of a shortest-path table for topology `t` and `source`
/// (`settled` is `vis`), with the up links of settled node `last` from
/// position `from` on not yet relaxed (none when `last` is not a settled
/// position):
/// - node ids are unique, the routers of the topology are nodes, the
///   settled nodes are distinct nodes, at most one per router;
/// - the source, when it is a router, costs 0 and is settled first;
/// - a cost is `u32::MAX` (unreached) or at most 1000 per settled node;
/// - no settled node costs more than a node that is not settled, and the
///   settled nodes come in order of cost;
/// - every up link of a settled router is relaxed: its far end is a node
///   costing at most the router's cost plus the link's cost.
pub open spec fn props_upto(t: Seq<Router>, source: Seq<char>, n: Seq<NodeCost>, vis: Seq<Seq<char>>, last: int, from: int) -> bool {
    let cm = costs(n);
    &&& assoc_unique(cost_pairs(n))
    &&& forall|i: int| 0 <= i < t.len() ==> cm.contains_key(#[trigger] t[i].router_id@)
    &&& forall|a: int| 0 <= a < vis.len() ==> cm.contains_key(#[trigger] vis[a])
    &&& forall|a: int, b: int| 0 <= a < vis.len() && 0 <= b < vis.len() && a != b ==> vis[a] != vis[b]
    &&& vis.len() <= t.len()
    &&& router_ids(t).contains(source) ==> cm.contains_key(source) && cm[source] == 0
    &&& router_ids(t).contains(source) && vis.len() > 0 ==> vis[0] == source
    &&& forall|x: Seq<char>| #[trigger] cm.contains_key(x) ==> cm[x] == u32::MAX || cm[x] <= 1000 * vis.len()
    &&& forall|a: int, x: Seq<char>|
        0 <= a < vis.len() && #[trigger] cm.contains_key(x) && !vis.contains(x) ==> cm[#[trigger] vis[a]] <= cm[x]
    &&& forall|a: int, b: int| 0 <= a < b < vis.len() ==> cm[#[trigger] vis[a]] <= cm[#[trigger] vis[b]]
    &&& forall|a: int, i: int, j: int|
        0 <= a < vis.len() && 0 <= i < t.len() && 0 <= j < t[i].neighbors@.len() && t[i].router_id@ == #[trigger] vis[a]
            && (#[trigger] t[i].neighbors@[j]).link_up && !(a == last && j >= from) ==> cm.contains_key(
            t[i].neighbors@[j].neighbor_id@,
        ) && cm[t[i].neighbors@[j].neighbor_id@] <= cm[vis[a]] + weight(t[i].neighbors@[j])
}

/// The properties of a finished shortest-path table (see `props_upto`).
pub open spec fn table_props(t: Seq<Router>, source: Seq<char>, n: Seq<NodeCost>, vis: Seq<Seq<char>>) -> bool {
    props_upto(t, source, n, vis, -1, 0)
}

/// Node `k` is reached through its predecessor: a settled node with an up
/// link to it, the node costing the predecessor's cost plus that link's
/// cost.
pub open spec fn reached_through(t: Seq<Router>, n: Seq<NodeCost>, vis: Seq<Seq<char>>, k: int) -> bool {
    &&& n[k].prev is Some
    &&& vis.contains(n[k].prev->0@)
    &&& costs(n).contains_key(n[k].prev->0@)
    &&& exists|i: int, j: int|
        0 <= i < t.len() && 0 <= j < t[i].neighbors@.len() && t[i].router_id@ == n[k].prev->0@
            && #[trigger] t[i].neighbors@[j].link_up && t[i].neighbors@[j].neighbor_id@ == n[k].id@
            && n[k].cost == costs(n)[n[k].prev->0@] + weight(t[i].neighbors@[j])
}

/// The predecessors (gateways) of a shortest-path table: the source, when
/// it is a router, has none; every other node of finite cost is reached
/// through its predecessor.
pub open spec fn prevs_ok(t: Seq<Router>, source: Seq<char>, n: Seq<NodeCost>, vis: Seq<Seq<char>>) -> bool {
    forall|k: int|
        0 <= k < n.len() ==> {
            &&& (router_ids(t).contains(source) && (#[trigger] n[k]).id@ == source ==> n[k].prev is None)
            &&& (n[k].cost < u32::MAX && !(router_ids(t).contains(source) && n[k].id@ == source) ==> reached_through(
                t,
                n,
                vis,
                k,
            ))
        }
}

proof fn lemma_prevs_settle(t: Seq<Router>, source: Seq<char>, n: Seq<NodeCost>, vis: Seq<Seq<char>>, x: Seq<char>)
    requires
        prevs_ok(t, source, n, vis),
    ensures
        prevs_ok(t, source, n, vis.push(x)),
{
    let v2 = vis.push(x);
    assert forall|k: int| 0 <= k < n.len() && n[k].cost < u32::MAX && !(router_ids(t).contains(source) && n[k].id@ == source)
        implies reached_through(t, n, v2, k) by {
        assert(reached_through(t, n, vis, k));
        let q = choose|q: int| 0 <= q < vis.len() && vis[q] == n[k].prev->0@;
        assert(v2[q] == vis[q]);
    }
}

/// A relaxation keeps the predecessors right: node `kk` (new or updated)
/// gets settled node `cur` as predecessor and costs `cur`'s cost plus the
/// cost of the up link `t[ri].neighbors[j]` to it, the other nodes keep
/// their values and the settled nodes keep their costs.
proof fn lemma_prevs_relax(
    t: Seq<Router>,
    source: Seq<char>,
    n0: Seq<NodeCost>,
    n1: Seq<NodeCost>,
    vis: Seq<Seq<char>>,
    kk: int,
    ri: int,
    j: int,
)
    requires
        prevs_ok(t, source, n0, vis),
        n1.len() == n0.len() || (n1.len() == n0.len() + 1 && kk == n0.len()),
        0 <= kk < n1.len(),
        forall|k: int| 0 <= k < n0.len() && k != kk ==> n1[k] == n0[k],
        0 <= ri < t.len(),
        0 <= j < t[ri].neighbors@.len(),
        t[ri].neighbors@[j].link_up,
        n1[kk].id@ == t[ri].neighbors@[j].neighbor_id@,
        n1[kk].prev is Some,
        n1[kk].prev->0@ == t[ri].router_id@,
        vis.contains(t[ri].router_id@),
        costs(n1).contains_key(t[ri].router_id@),
        n1[kk].cost == costs(n1)[t[ri].router_id@] + weight(t[ri].neighbors@[j]),
        !(router_ids(t).contains(source) && n1[kk].id@ == source),
        forall|x: Seq<char>| #[trigger] vis.contains(x) && costs(n0).contains_key(x) ==> costs(n1).contains_key(x)
            && costs(n1)[x] == costs(n0)[x],
    ensures
        prevs_ok(t, source, n1, vis),
{
    assert forall|k: int| 0 <= k < n1.len() implies {
        &&& (router_ids(t).contains(source) && (#[trigger] n1[k]).id@ == source ==> n1[k].prev is None)
        &&& (n1[k].cost < u32::MAX && !(router_ids(t).contains(source) && n1[k].id@ == source) ==> reached_through(
            t,
            n1,
            vis,
            k,
        ))
    } by {
        if k == kk {
            assert(t[ri].neighbors@[j].link_up);
        } else {
            assert(n1[k] == n0[k]);
            assert(n0[k] == n0[k]);
            if n1[k].cost < u32::MAX && !(router_ids(t).contains(source) && n1[k].id@ == source) {
                assert(reached_through(t, n0, vis, k));
                let p = n0[k].prev->0@;
                assert(vis.contains(p) && costs(n0).contains_key(p));
                assert(costs(n1)[p] == costs(n0)[p]);
                let (i, jj) = choose|i: int, jj: int|
                    0 <= i < t.len() && 0 <= jj < t[i].neighbors@.len() && t[i].router_id@ == p
                        && #[trigger] t[i].neighbors@[jj].link_up && t[i].neighbors@[jj].neighbor_id@ == n0[k].id@
                        && n0[k].cost == costs(n0)[p] + weight(t[i].neighbors@[jj]);
                assert(t[i].neighbors@[jj].link_up);
            }
        }
    }
}

/// Every router of finite cost is reachable from the source.
pub open spec fn finite_reachable(t: Seq<Router>, source: Seq<char>, n: Seq<NodeCost>) -> bool {
    forall|x: Seq<char>|
        #[trigger] costs(n).contains_key(x) && costs(n)[x] < u32::MAX && router_ids(t).contains(x) ==> reachable(
            t,
            source,
            x,
        )
}

proof fn lemma_walk_prefix(t: Seq<Router>, w: Seq<Seq<char>>)
    requires
        is_walk(t, w),
        w.len() >= 2,
    ensures
        is_walk(t, w.drop_last()),
{
    let v = w.drop_last();
    assert forall|i: int| 0 <= i < v.len() implies router_ids(t).contains(#[trigger] v[i]) by {
        assert(v[i] == w[i]);
    }
    assert forall|i: int| 0 <= i < v.len() - 1 implies linked(t, #[trigger] v[i], v[i + 1]) by {
        assert(v[i] == w[i] && v[i + 1] == w[i + 1]);
    }
}

/// When every node of finite cost is settled, every router on a walk from
/// the source has a finite cost.
proof fn lemma_walk_finite(t: Seq<Router>, source: Seq<char>, n: Seq<NodeCost>, vis: Seq<Seq<char>>, w: Seq<Seq<char>>)
    requires
        computable(t, source),
        table_props(t, source, n, vis),
        vis.len() < t.len(),
        forall|x: Seq<char>| #[trigger] costs(n).contains_key(x) && costs(n)[x] < u32::MAX ==> vis.contains(x),
        is_walk(t, w),
        w[0] == source,
    ensures
        costs(n).contains_key(w.last()),
        costs(n)[w.last()] < u32::MAX,
    decreases w.len(),
{
    let cm = costs(n);
    if w.len() == 1 {
        assert(router_ids(t).contains(w[0]));
    } else {
        lemma_walk_prefix(t, w);
        let v = w.drop_last();
        lemma_walk_finite(t, source, n, vis, v);
        let p = v.last();
        assert(p == w[w.len() - 2]);
        assert(vis.contains(p));
        let a = choose|a: int| 0 <= a < vis.len() && vis[a] == p;
        assert(linked(t, w[w.len() - 2], w[w.len() - 2 + 1]));
        let (i, j) = choose|i: int, j: int|
            0 <= i < t.len() && 0 <= j < t[i].neighbors@.len() && t[i].router_id@ == p && t[i].neighbors@[j].link_up
                && t[i].neighbors@[j].neighbor_id@ == w.last();
        let nb = t[i].neighbors@[j];
        assert(nb.capacity > 0);
        assert(weight(nb) <= 1000) by (nonlinear_arith)
            requires
                nb.capacity > 0,
                weight(nb) == 1000u32 / nb.capacity,
        ;
        assert(cm[vis[a]] <= 1000 * vis.len());
        assert(cm[w.last()] <= cm[vis[a]] + weight(nb));
        assert(1000 * vis.len() + 1000 <= 1000 * t.len()) by (nonlinear_arith)
            requires
                vis.len() < t.len(),
        ;
    }
}

/// When every node of finite cost is settled and fewer nodes than routers
/// are settled, not enough nodes are reached.
proof fn lemma_not_enough_reached(t: Seq<Router>, source: Seq<char>, n: Seq<NodeCost>, vis: Seq<Seq<char>>)
    requires
        computable(t, source),
        table_props(t, source, n, vis),
        vis.len() < t.len(),
        forall|x: Seq<char>| #[trigger] costs(n).contains_key(x) && costs(n)[x] < u32::MAX ==> vis.contains(x),
    ensures
        !enough_reached(t, source),
{
    let cm = costs(n);
    if enough_reached(t, source) {
        let ws = choose|ws: Seq<Seq<char>>|
            ws.len() == t.len() && ws.no_duplicates() && forall|k: int| 0 <= k < ws.len() ==> #[trigger] reached(t, source, ws[k]);
        assert forall|k: int| 0 <= k < ws.len() implies vis.contains(#[trigger] ws[k]) by {
            let x = ws[k];
            assert(reached(t, source, x));
            if reachable(t, source, x) {
                let w = choose|w: Seq<Seq<char>>| #[trigger] is_walk(t, w) && w[0] == source && w.last() == x;
                lemma_walk_finite(t, source, n, vis, w);
            } else {
                let (i, j) = choose|i: int, j: int|
                    0 <= i < t.len() && 0 <= j < t[i].neighbors@.len() && reachable(t, source, t[i].router_id@)
                        && t[i].neighbors@[j].link_up && #[trigger] t[i].neighbors@[j].neighbor_id@ == x;
                let rid = t[i].router_id@;
                let w = choose|w: Seq<Seq<char>>| #[trigger] is_walk(t, w) && w[0] == source && w.last() == rid;
                lemma_walk_finite(t, source, n, vis, w);
                assert(vis.contains(rid));
                let a = choose|a: int| 0 <= a < vis.len() && vis[a] == rid;
                let nb = t[i].neighbors@[j];
                assert(nb.capacity > 0);
                assert(weight(nb) <= 1000) by (nonlinear_arith)
                    requires
                        nb.capacity > 0,
                        weight(nb) == 1000u32 / nb.capacity,
                ;
                assert(cm.contains_key(vis[a]));
                assert(cm[vis[a]] <= 1000 * vis.len());
                assert(cm.contains_key(x) && cm[x] <= cm[vis[a]] + weight(nb));
                assert(1000 * vis.len() + 1000 <= 1000 * t.len()) by (nonlinear_arith)
                    requires
                        vis.len() < t.len(),
                ;
            }
        }
        lemma_distinct_within(ws, vis);
    }
}

proof fn lemma_reach_step(t: Seq<Router>, source: Seq<char>, ri: int, j: int)
    requires
        0 <= ri < t.len(),
        0 <= j < t[ri].neighbors@.len(),
        t[ri].neighbors@[j].link_up,
        reachable(t, source, t[ri].router_id@),
        router_ids(t).contains(t[ri].neighbors@[j].neighbor_id@),
    ensures
        reachable(t, source, t[ri].neighbors@[j].neighbor_id@),
{
    let x = t[ri].neighbors@[j].neighbor_id@;
    let w = choose|w: Seq<Seq<char>>| #[trigger] is_walk(t, w) && w[0] == source && w.last() == t[ri].router_id@;
    assert(linked(t, w.last(), x));
    lemma_walk_push(t, w, x);
}

proof fn lemma_finite_reach_update(t: Seq<Router>, source: Seq<char>, n0: Seq<NodeCost>, n1: Seq<NodeCost>, d: Seq<char>, v: u32)
    requires
        finite_reachable(t, source, n0),
        costs(n1) == costs(n0).insert(d, v),
        v < u32::MAX && router_ids(t).contains(d) ==> reachable(t, source, d),
    ensures
        finite_reachable(t, source, n1),
{
    assert forall|x: Seq<char>| #[trigger] costs(n1).contains_key(x) && costs(n1)[x] < u32::MAX && router_ids(t).contains(x)
        implies reachable(t, source, x) by {
        if x != d {
            assert(costs(n0).contains_key(x));
        }
    }
}

fn find_node(nodes: &Vec<NodeCost>, id: &String) -> (r: Option<usize>)
    ensures
        match r {
            Some(k) => k < nodes@.len() && nodes@[k as int].id@ == id@,
            None => forall|k: int| 0 <= k < nodes@.len() ==> nodes@[k].id@ != id@,
        },
{
    let mut k: usize = 0;
    while k < nodes.len()
        invariant
            k <= nodes@.len(),
            forall|j: int| 0 <= j < k ==> nodes@[j].id@ != id@,
        decreases nodes.len() - k,
    {
        if nodes[k].id == *id {
            return Some(k);
        }
        k += 1;
    }
    None
}

fn find_router(t: &Vec<Router>, id: &String) -> (r: Option<usize>)
    ensures
        match r {
            Some(k) => k < t@.len() && t@[k as int].router_id@ == id@,
            None => forall|k: int| 0 <= k < t@.len() ==> t@[k].router_id@ != id@,
        },
{
    let mut k: usize = 0;
    while k < t.len()
        invariant
            k <= t@.len(),
            forall|j: int| 0 <= j < k ==> t@[j].router_id@ != id@,
        decreases t.len() - k,
    {
        if t[k].router_id == *id {
            return Some(k);
        }
        k += 1;
    }
    None
}

/// The first node, in node order, of least cost among those not settled.
fn pick_next(nodes: &Vec<NodeCost>, visited: &Vec<String>) -> (r: Option<usize>)
    ensures
        match r {
            Some(b) => b < nodes@.len() && !str_seq(visited@).contains(nodes@[b as int].id@) && forall|k: int|
                0 <= k < nodes@.len() && !str_seq(visited@).contains(nodes@[k].id@) ==> nodes@[b as int].cost
                    <= nodes@[k].cost,
            None => forall|k: int| 0 <= k < nodes@.len() ==> str_seq(visited@).contains(nodes@[k].id@),
        },
{
    let mut best: Option<usize> = None;
    let mut k: usize = 0;
    while k < nodes.len()
        invariant
            k <= nodes@.len(),
            match best {
                Some(b) => b < k && !str_seq(visited@).contains(nodes@[b as int].id@) && forall|j: int|
                    0 <= j < k && !str_seq(visited@).contains(nodes@[j].id@) ==> nodes@[b as int].cost <= nodes@[j].cost,
                None => forall|j: int| 0 <= j < k ==> str_seq(visited@).contains(nodes@[j].id@),
            },
        decreases nodes.len() - k,
    {
        if !contains_string(visited, &nodes[k].id) {
            match best {
                None => {
                    best = Some(k);
                },
                Some(b) => {
                    if nodes[k].cost < nodes[b].cost {
                        best = Some(k);
                    }
                },
            }
        }
        k += 1;
    }
    best
}

proof fn lemma_costs_lookup(n: Seq<NodeCost>, k: int)
    requires
        assoc_unique(cost_pairs(n)),
        0 <= k < n.len(),
    ensures
        costs(n).contains_key(n[k].id@),
        costs(n)[n[k].id@] == n[k].cost,
{
    lemma_assoc_lookup(cost_pairs(n), k);
}

proof fn lemma_costs_absent(n: Seq<NodeCost>, id: Seq<char>)
    requires
        forall|k: int| 0 <= k < n.len() ==> n[k].id@ != id,
    ensures
        !costs(n).contains_key(id),
{
    assert forall|k: int| 0 <= k < cost_pairs(n).len() implies cost_pairs(n)[k].0 != id by {
        assert(cost_pairs(n)[k].0 == n[k].id@);
    }
    lemma_assoc_absent(cost_pairs(n), id);
}

proof fn lemma_costs_has(n: Seq<NodeCost>, id: Seq<char>)
    requires
        assoc_unique(cost_pairs(n)),
        costs(n).contains_key(id),
    ensures
        exists|k: int| 0 <= k < n.len() && n[k].id@ == id,
{
    if forall|k: int| 0 <= k < n.len() ==> n[k].id@ != id {
        lemma_costs_absent(n, id);
    }
}

/// Shortest paths from `source` over the topology, as the router computes
/// them: every router starts at cost `u32::MAX` (0 for the source); the
/// cheapest node not yet settled (the first one in node order among equals)
/// is settled, and each of its up links lowers the cost of its far end to
/// the settled cost plus `1000 / capacity` when that is less, the far end
/// becoming a node when it was not one; this stops after as many
/// settlements as there are routers, or when every node is settled.
#[verifier::spinoff_prover]
#[verifier::rlimit(80)]
pub fn compute_shortest_paths(topology: &Vec<Router>, source: &str) -> (res: PathTable)
    requires
        computable(topology@, source@),
    ensures
        table_props(topology@, source@, res.nodes@, str_seq(res.settled@)),
        prevs_ok(topology@, source@, res.nodes@, str_seq(res.settled@)),
        res.settled@.len() == topology@.len() || forall|k: int|
            0 <= k < res.nodes@.len() ==> str_seq(res.settled@).contains(res.nodes@[k].id@),
{
    let ghost t = topology@;
    let ghost src = source@;
    let mut nodes: Vec<NodeCost> = Vec::new();
    let source_id = source.to_string();
    let mut i: usize = 0;
    while i < topology.len()
        invariant
            t == topology@,
            source_id@ == src,
            computable(t, src),
            i <= t.len(),
            nodes@.len() == i,
            forall|k: int| 0 <= k < i ==> nodes@[k].id@ == t[k].router_id@ && nodes@[k].cost == (if t[k].router_id@ == src {
                0u32
            } else {
                u32::MAX
            }) && nodes@[k].prev is None,
        decreases topology.len() - i,
    {
        let id = topology[i].router_id.clone();
        let cost: u32 = if id == source_id { 0 } else { u32::MAX };
        nodes.push(NodeCost { id, cost, prev: None });
        i += 1;
    }
    proof {
        assert forall|a: int, b: int| 0 <= a < cost_pairs(nodes@).len() && 0 <= b < cost_pairs(nodes@).len() && a != b implies cost_pairs(
            nodes@,
        )[a].0 != cost_pairs(nodes@)[b].0 by {
            assert(cost_pairs(nodes@)[a].0 == t[a].router_id@);
            assert(cost_pairs(nodes@)[b].0 == t[b].router_id@);
        }
        assert forall|k: int| 0 <= k < t.len() implies costs(nodes@).contains_key(#[trigger] t[k].router_id@) && costs(
            nodes@,
        )[t[k].router_id@] == (if t[k].router_id@ == src {
            0u32
        } else {
            u32::MAX
        }) by {
            lemma_costs_lookup(nodes@, k);
        }
        if router_ids(t).contains(src) {
            let k = choose|k: int| 0 <= k < router_ids(t).len() && router_ids(t)[k] == src;
            assert(t[k].router_id@ == src);
        }
        assert forall|x: Seq<char>| #[trigger] costs(nodes@).contains_key(x) implies costs(nodes@)[x] == (if x == src {
            0u32
        } else {
            u32::MAX
        }) by {
            lemma_costs_has(nodes@, x);
            let k = choose|k: int| 0 <= k < nodes@.len() && nodes@[k].id@ == x;
            lemma_costs_lookup(nodes@, k);
        }
    }
    let mut visited: Vec<String> = Vec::new();
    let mut all_settled = false;
    assert(finite_reachable(t, src, nodes@)) by {
        assert forall|x: Seq<char>| #[trigger] costs(nodes@).contains_key(x) && costs(nodes@)[x] < u32::MAX && router_ids(t).contains(x)
            implies reachable(t, src, x) by {
            assert(x == src);
            assert(is_walk(t, seq![src]));
        }
    }
    assert(prevs_ok(t, src, nodes@, str_seq(visited@))) by {
        assert forall|k: int| 0 <= k < nodes@.len() implies nodes@[k].prev is None && (nodes@[k].cost < u32::MAX ==> nodes@[k].id@ == src && router_ids(t).contains(src)) by {
            assert(nodes@[k].id@ == t[k].router_id@);
            if nodes@[k].cost < u32::MAX {
                assert(router_ids(t)[k] == src);
            }
        }
    }
    while visited.len() < topology.len()
        invariant
            t == topology@,
            src == source@,
            computable(t, src),
            table_props(t, src, nodes@, str_seq(visited@)),
            prevs_ok(t, src, nodes@, str_seq(visited@)),
            finite_reachable(t, src, nodes@),
            visited@.len() == 0 ==> forall|x: Seq<char>| #[trigger] costs(nodes@).contains_key(x) ==> costs(nodes@)[x] == (
            if x == src {
                0u32
            } else {
                u32::MAX
            }),
            all_settled ==> forall|k: int| 0 <= k < nodes@.len() ==> str_seq(visited@).contains(nodes@[k].id@),
        ensures
            table_props(t, src, nodes@, str_seq(visited@)),
            prevs_ok(t, src, nodes@, str_seq(visited@)),
            visited@.len() == t.len() || forall|k: int|
                0 <= k < nodes@.len() ==> str_seq(visited@).contains(nodes@[k].id@),
        decreases topology.len() - visited.len(),
    {
        let b = match pick_next(&nodes, &visited) {
            Some(b) => b,
            None => {
                all_settled = true;
                break;
            },
        };
        let ghost vis = str_seq(visited@);
        let ghost cm = costs(nodes@);
        let current = nodes[b].id.clone();
        let c = nodes[b].cost;
        proof {
            lemma_costs_lookup(nodes@, b as int);
            // `c` is the least cost of a node not settled
            assert forall|x: Seq<char>| #[trigger] cm.contains_key(x) && !vis.contains(x) implies c <= cm[x] by {
                lemma_costs_has(nodes@, x);
                let k = choose|k: int| 0 <= k < nodes@.len() && nodes@[k].id@ == x;
                lemma_costs_lookup(nodes@, k);
            }
            // the settled nodes cost at most `c`
            assert forall|a: int| 0 <= a < vis.len() implies cm[#[trigger] vis[a]] <= c by {
                assert(cm.contains_key(current@) && !vis.contains(current@));
            }
            if vis.len() == 0 && router_ids(t).contains(src) {
                assert(cm[src] == 0);
                assert(!vis.contains(src));
                assert(c == 0);
                assert(current@ == src);
            }
        }
        visited.push(current.clone());
        let ghost vis2 = str_seq(visited@);
        proof {
            assert(vis2 =~= vis.push(current@));
            lemma_prevs_settle(t, src, nodes@, vis, current@);
            assert(vis2[vis.len() as int] == current@);
            assert forall|a: int| 0 <= a < vis.len() implies vis2[a] == vis[a] by {}
        }
        match find_router(topology, &current) {
            None => {
                proof {
                    assert(props_upto(t, src, nodes@, vis2, -1, 0)) by {
                        assert forall|a: int, x: Seq<char>|
                            0 <= a < vis2.len() && #[trigger] cm.contains_key(x) && !vis2.contains(x) implies cm[#[trigger] vis2[a]] <= cm[x] by {
                            if a < vis.len() {
                                assert(vis2[a] == vis[a]);
                                if vis.contains(x) {
                                    let q = choose|q: int| 0 <= q < vis.len() && vis[q] == x;
                                    assert(vis2[q] == x);
                                }
                            }
                        }
                        assert forall|a: int, b2: int| 0 <= a < b2 < vis2.len() implies cm[#[trigger] vis2[a]] <= cm[#[trigger] vis2[b2]] by {
                            if b2 == vis.len() {
                                assert(vis2[a] == vis[a]);
                            } else {
                                assert(vis2[a] == vis[a] && vis2[b2] == vis[b2]);
                            }
                        }
                        assert forall|x: Seq<char>| #[trigger] cm.contains_key(x) implies cm[x] == u32::MAX || cm[x] <= 1000 * vis2.len() by {}
                    }
                }
            },
            Some(ri) => {
                let ghost r = t[ri as int];
                proof {
                    assert(router_ids(t)[ri as int] == current@);
                    if c == u32::MAX {
                        // every node of finite cost is settled, so not
                        // enough nodes are reached; this router cannot be
                        // reached and has no up link of capacity at most 1000
                        assert forall|x: Seq<char>| #[trigger] cm.contains_key(x) && cm[x] < u32::MAX implies vis.contains(x) by {}
                        lemma_not_enough_reached(t, src, nodes@, vis);
                        assert(all_links_computable(t, src));
                        assert forall|j: int| 0 <= j < r.neighbors@.len() && r.neighbors@[j].link_up implies r.neighbors@[j].capacity > 1000 by {
                            if r.neighbors@[j].capacity <= 1000 {
                                assert(reachable(t, src, r.router_id@));
                                let w = choose|w: Seq<Seq<char>>| #[trigger] is_walk(t, w) && w[0] == src && w.last() == r.router_id@;
                                lemma_walk_finite(t, src, nodes@, vis, w);
                            }
                        }
                    } else {
                        assert(router_ids(t).contains(current@));
                        assert(reachable(t, src, current@));
                        assert forall|q: int| 0 <= q < r.neighbors@.len() && r.neighbors@[q].link_up implies r.neighbors@[q].capacity > 0 by {
                            assert(t[ri as int].neighbors@[q] == r.neighbors@[q]);
                        }
                    }
                }
                let mut j: usize = 0;
                while j < topology[ri].neighbors.len()
                    invariant
                        t == topology@,
                        src == source@,
                        computable(t, src),
                        ri < t.len(),
                        r == t[ri as int],
                        t[ri as int].router_id@ == current@,
                        vis2 == str_seq(visited@),
                        vis2.len() == vis.len() + 1,
                        vis2.len() <= t.len(),
                        vis2[vis.len() as int] == current@,
                        j <= r.neighbors@.len(),
                        costs(nodes@).contains_key(current@),
                        costs(nodes@)[current@] == c,
                        c == u32::MAX || c <= 1000 * vis.len(),
                        c == u32::MAX ==> forall|q: int| 0 <= q < r.neighbors@.len() && r.neighbors@[q].link_up ==> r.neighbors@[q].capacity > 1000,
                        c < u32::MAX ==> reachable(t, src, current@),
                        c < u32::MAX ==> forall|q: int| 0 <= q < r.neighbors@.len() && r.neighbors@[q].link_up ==> r.neighbors@[q].capacity > 0,
                        finite_reachable(t, src, nodes@),
                        forall|a: int| 0 <= a < vis2.len() ==> costs(nodes@)[#[trigger] vis2[a]] <= c,
                        forall|x: Seq<char>| #[trigger] costs(nodes@).contains_key(x) && !vis2.contains(x) ==> c <= costs(nodes@)[x],
                        props_upto(t, src, nodes@, vis2, vis.len() as int, j as int),
                        prevs_ok(t, src, nodes@, vis2),
                    decreases r.neighbors@.len() - j,
                {
                    let nb = &topology[ri].neighbors[j];
                    if nb.link_up {
                        let ghost cm0 = costs(nodes@);
                        let ghost n0 = nodes@;
                        proof {
                            assert(r.neighbors@[j as int] == *nb);
                            assert(nb.capacity > 0);
                            assert(weight(*nb) <= 1000) by (nonlinear_arith)
                                requires
                                    nb.capacity > 0,
                                    weight(*nb) == 1000u32 / nb.capacity,
                            ;
                            if c != u32::MAX {
                                assert(1000 * vis.len() + 1000 <= 1000 * t.len()) by (nonlinear_arith)
                                    requires
                                        vis.len() < t.len(),
                                ;
                            } else {
                                assert(weight(*nb) == 0) by (nonlinear_arith)
                                    requires
                                        nb.capacity > 1000,
                                        weight(*nb) == 1000u32 / nb.capacity,
                                ;
                            }
                        }
                        let w = 1000 / nb.capacity;
                        let new_cost = c + w;
                        match find_node(&nodes, &nb.neighbor_id) {
                            None => {
                                proof {
                                    lemma_costs_absent(n0, nb.neighbor_id@);
                                    assert forall|k: int| 0 <= k < cost_pairs(n0).len() implies cost_pairs(n0)[k].0 != nb.neighbor_id@ by {
                                        assert(cost_pairs(n0)[k].0 == n0[k].id@);
                                    }
                                    lemma_assoc_push(cost_pairs(n0), nb.neighbor_id@, new_cost);
                                }
                                nodes.push(NodeCost { id: nb.neighbor_id.clone(), cost: new_cost, prev: Some(current.clone()) });
                                proof {
                                    assert(cost_pairs(nodes@) =~= cost_pairs(n0).push((nb.neighbor_id@, new_cost)));
                                    assert(costs(nodes@) == cm0.insert(nb.neighbor_id@, new_cost));
                                    assert(!vis2.contains(nb.neighbor_id@)) by {
                                        if vis2.contains(nb.neighbor_id@) {
                                            let q = choose|q: int| 0 <= q < vis2.len() && vis2[q] == nb.neighbor_id@;
                                            assert(cm0.contains_key(vis2[q]));
                                        }
                                    }
                                    assert(vis2.contains(current@)) by {
                                        assert(vis2[vis.len() as int] == current@);
                                    }
                                    if router_ids(t).contains(src) {
                                        assert(cm0.contains_key(src));
                                    }
                                    assert(nodes@[n0.len() as int].id@ == nb.neighbor_id@);
                                    lemma_prevs_relax(t, src, n0, nodes@, vis2, n0.len() as int, ri as int, j as int);
                                    if new_cost < u32::MAX && router_ids(t).contains(nb.neighbor_id@) {
                                        lemma_reach_step(t, src, ri as int, j as int);
                                    }
                                    lemma_finite_reach_update(t, src, n0, nodes@, nb.neighbor_id@, new_cost);
                                }
                            },
                            Some(k) => {
                                proof {
                                    lemma_costs_lookup(n0, k as int);
                                }
                                if new_cost < nodes[k].cost {
                                    proof {
                                        assert(!vis2.contains(nb.neighbor_id@)) by {
                                            if vis2.contains(nb.neighbor_id@) {
                                                let q = choose|q: int| 0 <= q < vis2.len() && vis2[q] == nb.neighbor_id@;
                                                assert(cm0[vis2[q]] <= c);
                                            }
                                        }
                                        lemma_assoc_update(cost_pairs(n0), k as int, new_cost);
                                    }
                                    let id = nodes[k].id.clone();
                                    nodes.set(k, NodeCost { id, cost: new_cost, prev: Some(current.clone()) });
                                    proof {
                                        assert(cost_pairs(nodes@) =~= cost_pairs(n0).update(k as int, (cost_pairs(n0)[k as int].0, new_cost)));
                                        assert(costs(nodes@) == cm0.insert(nb.neighbor_id@, new_cost));
                                        assert(vis2.contains(current@)) by {
                                            assert(vis2[vis.len() as int] == current@);
                                        }
                                        if router_ids(t).contains(src) {
                                            assert(cm0.contains_key(src) && cm0[src] == 0);
                                        }
                                        assert(nb.neighbor_id@ != current@);
                                        lemma_prevs_relax(t, src, n0, nodes@, vis2, k as int, ri as int, j as int);
                                        if new_cost < u32::MAX && router_ids(t).contains(nb.neighbor_id@) {
                                            lemma_reach_step(t, src, ri as int, j as int);
                                        }
                                        lemma_finite_reach_update(t, src, n0, nodes@, nb.neighbor_id@, new_cost);
                                    }
                                }
                            },
                        }
                        proof {
                            let cm1 = costs(nodes@);
                            let d = nb.neighbor_id@;
                            assert(cm1.contains_key(d) && cm1[d] <= new_cost);
                            assert(cm1 == cm0 || (cm1 == cm0.insert(d, cm1[d]) && !vis2.contains(d) && c <= cm1[d] && cm1[d] < u32::MAX || cm1 == cm0.insert(d, cm1[d]) && !cm0.contains_key(d) && !vis2.contains(d) && c <= cm1[d]));
                            assert forall|x: Seq<char>| cm0.contains_key(x) implies #[trigger] cm1.contains_key(x) && cm1[x] <= cm0[x] by {}
                            assert forall|a: int| 0 <= a < vis2.len() implies cm1[#[trigger] vis2[a]] == cm0[vis2[a]] by {
                                assert(cm0.contains_key(vis2[a]));
                            }
                            assert(props_upto(t, src, nodes@, vis2, vis.len() as int, j + 1)) by {
                                assert forall|a: int, i: int, jj: int|
                                    0 <= a < vis2.len() && 0 <= i < t.len() && 0 <= jj < t[i].neighbors@.len() && t[i].router_id@
                                        == #[trigger] vis2[a] && (#[trigger] t[i].neighbors@[jj]).link_up && !(a == vis.len() && jj >= j + 1)
                                        implies cm1.contains_key(t[i].neighbors@[jj].neighbor_id@)
                                        && cm1[t[i].neighbors@[jj].neighbor_id@] <= cm1[vis2[a]] + weight(t[i].neighbors@[jj]) by {
                                    assert(cm0.contains_key(vis2[a]));
                                    if a == vis.len() && jj == j {
                                        assert(i == ri);
                                        assert(t[i].neighbors@[jj] == *nb);
                                    } else {
                                        assert(cm0.contains_key(t[i].neighbors@[jj].neighbor_id@));
                                    }
                                }
                                assert forall|a: int, x: Seq<char>|
                                    0 <= a < vis2.len() && #[trigger] cm1.contains_key(x) && !vis2.contains(x) implies cm1[#[trigger] vis2[a]] <= cm1[x] by {
                                    assert(cm0.contains_key(vis2[a]));
                                    if x != d {
                                        assert(cm0.contains_key(x));
                                    }
                                }
                                assert forall|x: Seq<char>| #[trigger] cm1.contains_key(x) implies cm1[x] == u32::MAX || cm1[x] <= 1000 * vis2.len() by {
                                    if x != d {
                                        assert(cm0.contains_key(x));
                                    }
                                }
                                assert forall|q: int| 0 <= q < t.len() implies cm1.contains_key(#[trigger] t[q].router_id@) by {
                                    assert(cm0.contains_key(t[q].router_id@));
                                }
                                if router_ids(t).contains(src) {
                                    assert(cm0.contains_key(src) && cm0[src] == 0);
                                }
                            }
                            assert forall|x: Seq<char>| #[trigger] cm1.contains_key(x) && !vis2.contains(x) implies c <= cm1[x] by {
                                if x != d {
                                    assert(cm0.contains_key(x));
                                }
                            }
                        }
                    }
                    j += 1;
                }
                proof {
                    let cm1 = costs(nodes@);
                    assert(props_upto(t, src, nodes@, vis2, -1, 0)) by {
                        assert forall|a: int, i: int, jj: int|
                            0 <= a < vis2.len() && 0 <= i < t.len() && 0 <= jj < t[i].neighbors@.len() && t[i].router_id@
                                == #[trigger] vis2[a] && (#[trigger] t[i].neighbors@[jj]).link_up implies cm1.contains_key(
                            t[i].neighbors@[jj].neighbor_id@,
                        ) && cm1[t[i].neighbors@[jj].neighbor_id@] <= cm1[vis2[a]] + weight(t[i].neighbors@[jj]) by {
                            if a == vis.len() {
                                assert(i == ri);
                            }
                        }
                    }
                }
            },
        }
    }
    PathTable { nodes, settled: visited }
}

proof fn lemma_walk_push(t: Seq<Router>, w: Seq<Seq<char>>, x: Seq<char>)
    requires
        is_walk(t, w),
        router_ids(t).contains(x),
        linked(t, w.last(), x),
    ensures
        is_walk(t, w.push(x)),
        w.push(x)[0] == w[0],
        w.push(x).last() == x,
{
    let v = w.push(x);
    assert forall|i: int| 0 <= i < v.len() implies router_ids(t).contains(#[trigger] v[i]) by {
        if i < w.len() {
            assert(v[i] == w[i]);
        }
    }
    assert forall|i: int| 0 <= i < v.len() - 1 implies linked(t, #[trigger] v[i], v[i + 1]) by {
        assert(v[i] == w[i]);
        if i < w.len() - 1 {
            assert(v[i + 1] == w[i + 1]);
        } else {
            assert(w[i] == w.last());
        }
    }
}

/// Every router on a walk from the source is marked, when the source is
/// marked and the marked routers are closed under up links to routers.
proof fn lemma_walk_marked(t: Seq<Router>, src: Seq<char>, mark: Seq<bool>, w: Seq<Seq<char>>)
    requires
        unique_routers(t),
        mark.len() == t.len(),
        forall|i: int| 0 <= i < t.len() && t[i].router_id@ == src ==> mark[i],
        forall|u: int, j: int, v: int|
            0 <= u < t.len() && mark[u] && 0 <= j < t[u].neighbors@.len() && t[u].neighbors@[j].link_up && 0 <= v < t.len()
                && #[trigger] t[v].router_id@ == (#[trigger] t[u].neighbors@[j]).neighbor_id@ ==> mark[v],
        is_walk(t, w),
        w[0] == src,
    ensures
        forall|i: int| 0 <= i < t.len() && t[i].router_id@ == w.last() ==> mark[i],
    decreases w.len(),
{
    if w.len() > 1 {
        lemma_walk_prefix(t, w);
        let p = w.drop_last();
        lemma_walk_marked(t, src, mark, p);
        assert(p.last() == w[w.len() - 2]);
        assert(linked(t, w[w.len() - 2], w[w.len() - 2 + 1]));
        let (u, j) = choose|u: int, j: int|
            0 <= u < t.len() && 0 <= j < t[u].neighbors@.len() && t[u].router_id@ == w[w.len() - 2]
                && t[u].neighbors@[j].link_up && t[u].neighbors@[j].neighbor_id@ == w.last();
        assert(mark[u]);
        assert forall|i: int| 0 <= i < t.len() && t[i].router_id@ == w.last() implies mark[i] by {
            assert(t[i].router_id@ == t[u].neighbors@[j].neighbor_id@);
        }
    }
}

/// Appends `x` to `found` when it is not there yet.
fn push_new(found: &mut Vec<String>, x: &String, Ghost(t): Ghost<Seq<Router>>, Ghost(src): Ghost<Seq<char>>)
    requires
        str_seq(old(found)@).no_duplicates(),
        forall|k: int| 0 <= k < old(found)@.len() ==> reached(t, src, #[trigger] str_seq(old(found)@)[k]),
        reached(t, src, x@),
    ensures
        str_seq(final(found)@).no_duplicates(),
        forall|k: int| 0 <= k < final(found)@.len() ==> reached(t, src, #[trigger] str_seq(final(found)@)[k]),
        str_seq(final(found)@).contains(x@),
        forall|y: Seq<char>| str_seq(old(found)@).contains(y) ==> str_seq(final(found)@).contains(y),
{
    if !contains_string(found, x) {
        let ghost f0 = str_seq(found@);
        found.push(x.clone());
        assert(str_seq(found@) =~= f0.push(x@));
        assert(str_seq(found@)[f0.len() as int] == x@);
        assert forall|y: Seq<char>| f0.contains(y) implies str_seq(found@).contains(y) by {
            let k = choose|k: int| 0 <= k < f0.len() && f0[k] == y;
            assert(str_seq(found@)[k] == y);
        }
    }
}

/// Whether `compute_shortest_paths` may run on this topology from this
/// source (see `computable`).
pub fn check_computable(topology: &Vec<Router>, source: &str) -> (r: bool)
    ensures
        r == computable(topology@, source@),
{
    let ghost t = topology@;
    let ghost src = source@;
    let n = topology.len();
    // distinct router ids
    let mut a: usize = 0;
    while a < n
        invariant
            t == topology@,
            n == t.len(),
            a <= n,
            forall|x: int, y: int| 0 <= x < a && 0 <= y < n && x != y ==> t[x].router_id@ != t[y].router_id@,
        decreases n - a,
    {
        let mut b: usize = 0;
        while b < n
            invariant
                t == topology@,
                n == t.len(),
                a < n,
                b <= n,
                forall|x: int, y: int| 0 <= x < a && 0 <= y < n && x != y ==> t[x].router_id@ != t[y].router_id@,
                forall|y: int| 0 <= y < b && a != y ==> t[a as int].router_id@ != t[y].router_id@,
            decreases n - b,
        {
            if a != b && topology[a].router_id == topology[b].router_id {
                return false;
            }
            b += 1;
        }
        a += 1;
    }
    assert(unique_routers(t));
    if !(n < 4294968) {
        return false;
    }
    assert(1000 * t.len() < u32::MAX);
    // which up links have a capacity
    let mut all_caps = true;
    let mut zero_cap: Vec<bool> = Vec::new();
    let mut i: usize = 0;
    while i < n
        invariant
            t == topology@,
            n == t.len(),
            i <= n,
            zero_cap@.len() == i,
            forall|x: int| 0 <= x < i ==> (zero_cap@[x] <==> exists|j: int|
                0 <= j < t[x].neighbors@.len() && t[x].neighbors@[j].link_up && #[trigger] t[x].neighbors@[j].capacity == 0),
            all_caps <==> forall|x: int| 0 <= x < i ==> !zero_cap@[x],
        decreases n - i,
    {
        let mut z = false;
        let mut j: usize = 0;
        while j < topology[i].neighbors.len()
            invariant
                t == topology@,
                n == t.len(),
                i < n,
                j <= t[i as int].neighbors@.len(),
                z <==> exists|jj: int| 0 <= jj < j && t[i as int].neighbors@[jj].link_up && #[trigger] t[i as int].neighbors@[jj].capacity == 0,
            decreases t[i as int].neighbors@.len() - j,
        {
            let nb = &topology[i].neighbors[j];
            if nb.link_up && nb.capacity == 0 {
                z = true;
            }
            j += 1;
        }
        if z {
            all_caps = false;
        }
        let ghost z0 = zero_cap@;
        zero_cap.push(z);
        assert(zero_cap@ =~= z0.push(z));
        proof {
            if all_caps {
                assert forall|x: int| 0 <= x < i + 1 implies !zero_cap@[x] by {
                    if x < i {
                        assert(!z0[x]);
                    }
                }
            } else {
                if z {
                    assert(zero_cap@[i as int]);
                } else {
                    let x = choose|x: int| 0 <= x < i && z0[x];
                    assert(zero_cap@[x]);
                }
            }
        }
        i += 1;
    }
    // the routers reached from the source
    let mut mark: Vec<bool> = Vec::new();
    let mut k: usize = 0;
    while k < n
        invariant
            k <= n,
            mark@.len() == k,
            forall|x: int| 0 <= x < k ==> !mark@[x],
        decreases n - k,
    {
        mark.push(false);
        k += 1;
    }
    proof {
        assert(count_true(mark@) == 0) by {
            lemma_count_zero(mark@);
        }
    }
    let mut queue: Vec<usize> = Vec::new();
    let source_id = source.to_string();
    match find_router(topology, &source_id) {
        Some(s0) => {
            proof {
                lemma_count_true_set(mark@, s0 as int);
                let w = seq![src];
                assert(router_ids(t)[s0 as int] == src);
                assert(is_walk(t, w));
                assert(reachable(t, src, t[s0 as int].router_id@));
            }
            let ghost m0 = mark@;
            mark.set(s0, true);
            queue.push(s0);
            proof {
                assert forall|v: int| 0 <= v < n && mark@[v] implies exists|q: int| 0 <= q < queue@.len() && queue@[q] == v by {
                    if v != s0 {
                        assert(m0[v]);
                    }
                    assert(queue@[0] == s0);
                }
                assert forall|v: int| 0 <= v < n && mark@[v] implies reachable(t, src, #[trigger] t[v].router_id@) by {
                    if v != s0 {
                        assert(m0[v]);
                    }
                }
            }
        },
        None => {},
    }
    let mut idx: usize = 0;
    while idx < queue.len()
        invariant
            t == topology@,
            src == source@,
            n == t.len(),
            unique_routers(t),
            mark@.len() == n,
            queue@.len() == count_true(mark@),
            idx <= queue@.len(),
            forall|q: int| 0 <= q < queue@.len() ==> queue@[q] < n && mark@[queue@[q] as int],
            forall|v: int| 0 <= v < n && mark@[v] ==> exists|q: int| 0 <= q < queue@.len() && queue@[q] == v,
            forall|v: int| 0 <= v < n && mark@[v] ==> reachable(t, src, #[trigger] t[v].router_id@),
            forall|v: int| 0 <= v < n && t[v].router_id@ == src ==> mark@[v],
            forall|q: int, j: int, v: int|
                0 <= q < idx && 0 <= j < t[queue@[q] as int].neighbors@.len() && t[queue@[q] as int].neighbors@[j].link_up
                    && 0 <= v < n && #[trigger] t[v].router_id@ == (#[trigger] t[queue@[q] as int].neighbors@[j]).neighbor_id@
                    ==> mark@[v],
        decreases n - queue@.len(), queue@.len() - idx,
    {
        let u = queue[idx];
        let ghost qlen0 = queue@.len();
        let mut j: usize = 0;
        while j < topology[u].neighbors.len()
            invariant
                queue@.len() >= qlen0,
                t == topology@,
                src == source@,
                n == t.len(),
                unique_routers(t),
                u < n,
                mark@[u as int],
                u == queue@[idx as int],
                idx < queue@.len(),
                mark@.len() == n,
                queue@.len() == count_true(mark@),
                j <= t[u as int].neighbors@.len(),
                forall|q: int| 0 <= q < queue@.len() ==> queue@[q] < n && mark@[queue@[q] as int],
                forall|v: int| 0 <= v < n && mark@[v] ==> exists|q: int| 0 <= q < queue@.len() && queue@[q] == v,
                forall|v: int| 0 <= v < n && mark@[v] ==> reachable(t, src, #[trigger] t[v].router_id@),
                forall|v: int| 0 <= v < n && t[v].router_id@ == src ==> mark@[v],
                forall|q: int, jj: int, v: int|
                    0 <= q < idx && 0 <= jj < t[queue@[q] as int].neighbors@.len() && t[queue@[q] as int].neighbors@[jj].link_up
                        && 0 <= v < n && #[trigger] t[v].router_id@ == (#[trigger] t[queue@[q] as int].neighbors@[jj]).neighbor_id@
                        ==> mark@[v],
                forall|jj: int, v: int|
                    0 <= jj < j && t[u as int].neighbors@[jj].link_up && 0 <= v < n && #[trigger] t[v].router_id@
                        == (#[trigger] t[u as int].neighbors@[jj]).neighbor_id@ ==> mark@[v],
            decreases t[u as int].neighbors@.len() - j,
        {
            let nb = &topology[u].neighbors[j];
            if nb.link_up {
                match find_router(topology, &nb.neighbor_id) {
                    Some(v) => {
                        if !mark[v] {
                            let ghost m0 = mark@;
                            let ghost q0 = queue@;
                            proof {
                                lemma_count_true_set(m0, v as int);
                                lemma_count_true_le(m0.update(v as int, true));
                                let w = choose|w: Seq<Seq<char>>| #[trigger] is_walk(t, w) && w[0] == src && w.last() == t[u as int].router_id@;
                                assert(router_ids(t)[v as int] == t[v as int].router_id@);
                                assert(linked(t, w.last(), t[v as int].router_id@)) by {
                                    assert(t[u as int].neighbors@[j as int] == *nb);
                                }
                                lemma_walk_push(t, w, t[v as int].router_id@);
                                assert(reachable(t, src, t[v as int].router_id@));
                            }
                            mark.set(v, true);
                            queue.push(v);
                            proof {
                                assert forall|q: int| 0 <= q < queue@.len() implies queue@[q] < n && mark@[queue@[q] as int] by {
                                    if q < q0.len() {
                                        assert(queue@[q] == q0[q]);
                                    }
                                }
                                assert forall|x: int| 0 <= x < n && mark@[x] implies exists|q: int| 0 <= q < queue@.len() && queue@[q] == x by {
                                    if x != v {
                                        assert(m0[x]);
                                        let q = choose|q: int| 0 <= q < q0.len() && q0[q] == x;
                                        assert(queue@[q] == x);
                                    } else {
                                        assert(queue@[q0.len() as int] == x);
                                    }
                                }
                                assert forall|q: int, jj: int, x: int|
                                    0 <= q < idx && 0 <= jj < t[queue@[q] as int].neighbors@.len() && t[queue@[q] as int].neighbors@[jj].link_up
                                        && 0 <= x < n && #[trigger] t[x].router_id@ == (#[trigger] t[queue@[q] as int].neighbors@[jj]).neighbor_id@
                                        implies mark@[x] by {
                                    assert(queue@[q] == q0[q]);
                                    assert(t[q0[q] as int].neighbors@[jj] == t[queue@[q] as int].neighbors@[jj]);
                                    if x != v {
                                        assert(m0[x]);
                                    }
                                }
                                assert(queue@[idx as int] == q0[idx as int]);
                            }
                        }
                    },
                    None => {},
                }
            }
            proof {
                assert forall|jj: int, x: int|
                    0 <= jj < j + 1 && t[u as int].neighbors@[jj].link_up && 0 <= x < n && #[trigger] t[x].router_id@
                        == (#[trigger] t[u as int].neighbors@[jj]).neighbor_id@ implies mark@[x] by {
                    if jj == j {
                        assert(t[u as int].neighbors@[jj] == *nb);
                    }
                }
            }
            j += 1;
        }
        proof {
            assert forall|q: int, jj: int, x: int|
                0 <= q < idx + 1 && 0 <= jj < t[queue@[q] as int].neighbors@.len() && t[queue@[q] as int].neighbors@[jj].link_up
                    && 0 <= x < n && #[trigger] t[x].router_id@ == (#[trigger] t[queue@[q] as int].neighbors@[jj]).neighbor_id@
                    implies mark@[x] by {
                if q == idx {
                    assert(queue@[q] == u);
                }
            }
            lemma_count_true_le(mark@);
        }
        idx += 1;
    }
    proof {
        // the marked routers are closed under up links
        assert forall|uu: int, jj: int, v: int|
            0 <= uu < t.len() && mark@[uu] && 0 <= jj < t[uu].neighbors@.len() && t[uu].neighbors@[jj].link_up && 0 <= v < t.len()
                && #[trigger] t[v].router_id@ == (#[trigger] t[uu].neighbors@[jj]).neighbor_id@ implies mark@[v] by {
            let q = choose|q: int| 0 <= q < queue@.len() && queue@[q] == uu;
            assert(t[queue@[q] as int].neighbors@[jj] == t[uu].neighbors@[jj]);
        }
    }
    proof {
        // a router is marked exactly when it is reachable
        assert forall|v: int| 0 <= v < n && reachable(t, src, #[trigger] t[v].router_id@) implies mark@[v] by {
            let w = choose|w: Seq<Seq<char>>| #[trigger] is_walk(t, w) && w[0] == src && w.last() == t[v].router_id@;
            lemma_walk_marked(t, src, mark@, w);
        }
    }
    // the up links of reached routers have a capacity
    let mut i: usize = 0;
    while i < n
        invariant
            t == topology@,
            src == source@,
            n == t.len(),
            mark@.len() == n,
            zero_cap@.len() == n,
            forall|x: int| 0 <= x < n ==> (zero_cap@[x] <==> exists|j: int|
                0 <= j < t[x].neighbors@.len() && t[x].neighbors@[j].link_up && #[trigger] t[x].neighbors@[j].capacity == 0),
            forall|v: int| 0 <= v < n && mark@[v] ==> reachable(t, src, #[trigger] t[v].router_id@),
            i <= n,
            forall|x: int| 0 <= x < i && mark@[x] ==> !zero_cap@[x],
        decreases n - i,
    {
        if mark[i] && zero_cap[i] {
            proof {
                let j = choose|j: int|
                    0 <= j < t[i as int].neighbors@.len() && t[i as int].neighbors@[j].link_up && #[trigger] t[i as int].neighbors@[j].capacity == 0;
                assert(reachable(t, src, t[i as int].router_id@));
            }
            return false;
        }
        i += 1;
    }
    assert forall|x: int, j: int|
        0 <= x < t.len() && 0 <= j < t[x].neighbors@.len() && reachable(t, src, t[x].router_id@) && t[x].neighbors@[j].link_up
        implies t[x].neighbors@[j].capacity > 0 by {
        assert(mark@[x]);
        if t[x].neighbors@[j].capacity == 0 {
            assert(zero_cap@[x]);
        }
    }
    // the distinct nodes that get a finite cost
    let mut found: Vec<String> = Vec::new();
    let mut i: usize = 0;
    while i < n
        invariant
            t == topology@,
            src == source@,
            n == t.len(),
            mark@.len() == n,
            forall|v: int| 0 <= v < n && mark@[v] ==> reachable(t, src, #[trigger] t[v].router_id@),
            i <= n,
            str_seq(found@).no_duplicates(),
            forall|k: int| 0 <= k < found@.len() ==> reached(t, src, #[trigger] str_seq(found@)[k]),
            forall|x: int| 0 <= x < i && mark@[x] ==> str_seq(found@).contains(#[trigger] t[x].router_id@),
            forall|x: int, j: int|
                0 <= x < i && mark@[x] && 0 <= j < t[x].neighbors@.len() && t[x].neighbors@[j].link_up ==> str_seq(found@).contains(
                    #[trigger] t[x].neighbors@[j].neighbor_id@,
                ),
        decreases n - i,
    {
        if mark[i] {
            proof {
                assert(reachable(t, src, t[i as int].router_id@));
            }
            push_new(&mut found, &topology[i].router_id, Ghost(t), Ghost(src));
            let mut j: usize = 0;
            while j < topology[i].neighbors.len()
                invariant
                    t == topology@,
                    src == source@,
                    n == t.len(),
                    mark@.len() == n,
                    forall|v: int| 0 <= v < n && mark@[v] ==> reachable(t, src, #[trigger] t[v].router_id@),
                    i < n,
                    mark@[i as int],
                    j <= t[i as int].neighbors@.len(),
                    str_seq(found@).no_duplicates(),
                    forall|k: int| 0 <= k < found@.len() ==> reached(t, src, #[trigger] str_seq(found@)[k]),
                    forall|x: int| 0 <= x < i + 1 && mark@[x] ==> str_seq(found@).contains(#[trigger] t[x].router_id@),
                    forall|x: int, jj: int|
                        0 <= x < i && mark@[x] && 0 <= jj < t[x].neighbors@.len() && t[x].neighbors@[jj].link_up ==> str_seq(found@).contains(
                            #[trigger] t[x].neighbors@[jj].neighbor_id@,
                        ),
                    forall|jj: int|
                        0 <= jj < j && t[i as int].neighbors@[jj].link_up ==> str_seq(found@).contains(
                            #[trigger] t[i as int].neighbors@[jj].neighbor_id@,
                        ),
                decreases t[i as int].neighbors@.len() - j,
            {
                if topology[i].neighbors[j].link_up {
                    proof {
                        assert(reachable(t, src, t[i as int].router_id@));
                        assert(reached(t, src, t[i as int].neighbors@[j as int].neighbor_id@));
                    }
                    push_new(&mut found, &topology[i].neighbors[j].neighbor_id, Ghost(t), Ghost(src));
                }
                j += 1;
            }
        }
        i += 1;
    }
    proof {
        // every node that gets a finite cost is found
        assert forall|x: Seq<char>| reached(t, src, x) implies str_seq(found@).contains(x) by {
            if reachable(t, src, x) {
                let w = choose|w: Seq<Seq<char>>| #[trigger] is_walk(t, w) && w[0] == src && w.last() == x;
                assert(router_ids(t).contains(w[w.len() - 1]));
                let v = choose|v: int| 0 <= v < router_ids(t).len() && router_ids(t)[v] == x;
                assert(t[v].router_id@ == x);
                assert(mark@[v]);
            } else {
                let (a, j) = choose|a: int, j: int|
                    0 <= a < t.len() && 0 <= j < t[a].neighbors@.len() && reachable(t, src, t[a].router_id@)
                        && t[a].neighbors@[j].link_up && #[trigger] t[a].neighbors@[j].neighbor_id@ == x;
                assert(mark@[a]);
            }
        }
    }
    if found.len() >= n {
        proof {
            let ws = str_seq(found@).take(n as int);
            assert forall|k: int| 0 <= k < ws.len() implies #[trigger] reached(t, src, ws[k]) by {
                assert(ws[k] == str_seq(found@)[k]);
            }
            assert(ws.no_duplicates()) by {
                assert forall|a: int, b: int| 0 <= a < ws.len() && 0 <= b < ws.len() && a != b implies ws[a] != ws[b] by {
                    assert(ws[a] == str_seq(found@)[a] && ws[b] == str_seq(found@)[b]);
                }
            }
            assert(enough_reached(t, src));
        }
        return true;
    }
    proof {
        if enough_reached(t, src) {
            let ws = choose|ws: Seq<Seq<char>>|
                ws.len() == t.len() && ws.no_duplicates() && forall|k: int| 0 <= k < ws.len() ==> #[trigger] reached(t, src, ws[k]);
            assert forall|k: int| 0 <= k < ws.len() implies str_seq(found@).contains(#[trigger] ws[k]) by {
                assert(reached(t, src, ws[k]));
            }
            lemma_distinct_within(ws, str_seq(found@));
        }
    }
    if !all_caps {
        proof {
            let x = choose|x: int| 0 <= x < n && zero_cap@[x];
            let j = choose|j: int|
                0 <= j < t[x].neighbors@.len() && t[x].neighbors@[j].link_up && #[trigger] t[x].neighbors@[j].capacity == 0;
            assert(!all_links_computable(t, src));
        }
        return false;
    }
    proof {
        assert forall|x: int, j: int|
            0 <= x < t.len() && 0 <= j < t[x].neighbors@.len() && t[x].neighbors@[j].link_up implies t[x].neighbors@[j].capacity > 0 by {
            assert(!zero_cap@[x]);
            if t[x].neighbors@[j].capacity == 0 {
                assert(zero_cap@[x]);
            }
        }
    }
    // the routers with a cheap up link are reached
    let mut i: usize = 0;
    while i < n
        invariant
            t == topology@,
            src == source@,
            n == t.len(),
            unique_routers(t),
            1000 * t.len() < u32::MAX,
            !enough_reached(t, src),
            forall|x: int, j: int|
                0 <= x < t.len() && 0 <= j < t[x].neighbors@.len() && reachable(t, src, t[x].router_id@) && t[x].neighbors@[j].link_up
                    ==> t[x].neighbors@[j].capacity > 0,
            forall|x: int, j: int|
                0 <= x < t.len() && 0 <= j < t[x].neighbors@.len() && t[x].neighbors@[j].link_up ==> t[x].neighbors@[j].capacity > 0,
            mark@.len() == n,
            i <= n,
            forall|v: int| 0 <= v < n && mark@[v] ==> reachable(t, src, #[trigger] t[v].router_id@),
            forall|v: int| 0 <= v < n && t[v].router_id@ == src ==> mark@[v],
            forall|uu: int, jj: int, v: int|
                0 <= uu < t.len() && mark@[uu] && 0 <= jj < t[uu].neighbors@.len() && t[uu].neighbors@[jj].link_up && 0 <= v < t.len()
                    && #[trigger] t[v].router_id@ == (#[trigger] t[uu].neighbors@[jj]).neighbor_id@ ==> mark@[v],
            forall|x: int, j: int|
                0 <= x < i && 0 <= j < t[x].neighbors@.len() && t[x].neighbors@[j].link_up && t[x].neighbors@[j].capacity <= 1000
                    ==> reachable(t, src, t[x].router_id@),
        decreases n - i,
    {
        let mut j: usize = 0;
        while j < topology[i].neighbors.len()
            invariant
                t == topology@,
                src == source@,
                n == t.len(),
                unique_routers(t),
                mark@.len() == n,
                i < n,
                j <= t[i as int].neighbors@.len(),
                1000 * t.len() < u32::MAX,
                !enough_reached(t, src),
                forall|x: int, jj: int|
                    0 <= x < t.len() && 0 <= jj < t[x].neighbors@.len() && reachable(t, src, t[x].router_id@) && t[x].neighbors@[jj].link_up
                        ==> t[x].neighbors@[jj].capacity > 0,
                forall|x: int, jj: int|
                    0 <= x < t.len() && 0 <= jj < t[x].neighbors@.len() && t[x].neighbors@[jj].link_up ==> t[x].neighbors@[jj].capacity > 0,
                forall|v: int| 0 <= v < n && mark@[v] ==> reachable(t, src, #[trigger] t[v].router_id@),
                forall|v: int| 0 <= v < n && t[v].router_id@ == src ==> mark@[v],
                forall|uu: int, jj: int, v: int|
                    0 <= uu < t.len() && mark@[uu] && 0 <= jj < t[uu].neighbors@.len() && t[uu].neighbors@[jj].link_up && 0 <= v < t.len()
                        && #[trigger] t[v].router_id@ == (#[trigger] t[uu].neighbors@[jj]).neighbor_id@ ==> mark@[v],
                forall|x: int, jj: int|
                    0 <= x < i && 0 <= jj < t[x].neighbors@.len() && t[x].neighbors@[jj].link_up && t[x].neighbors@[jj].capacity <= 1000
                        ==> reachable(t, src, t[x].router_id@),
                forall|jj: int|
                    0 <= jj < j && t[i as int].neighbors@[jj].link_up && t[i as int].neighbors@[jj].capacity <= 1000
                        ==> reachable(t, src, t[i as int].router_id@),
            decreases t[i as int].neighbors@.len() - j,
        {
            let nb = &topology[i].neighbors[j];
            if nb.link_up && nb.capacity <= 1000 && !mark[i] {
                proof {
                    if reachable(t, src, t[i as int].router_id@) {
                        let w = choose|w: Seq<Seq<char>>| #[trigger] is_walk(t, w) && w[0] == src && w.last() == t[i as int].router_id@;
                        lemma_walk_marked(t, src, mark@, w);
                    }
                }
                return false;
            }
            j += 1;
        }
        i += 1;
    }
    true
}

proof fn lemma_count_zero(s: Seq<bool>)
    requires
        forall|x: int| 0 <= x < s.len() ==> !s[x],
    ensures
        count_true(s) == 0,
    decreases s.len(),
{
    if s.len() > 0 {
        lemma_count_zero(s.drop_last());
    }
}

/// A HELLO of the multicast router (message type 1).
#[derive(Debug)]
pub struct HelloMessage {
    pub message_type: u8,
    pub router_id: String,
}

/// A link-state advertisement of the multicast router (message type 2):
/// the router and its neighbours.
#[derive(Debug)]
pub struct LSAMessage {
    pub message_type: u8,
    pub router_id: String,
    pub neighbor_count: usize,
    pub neighbors: Vec<Neighbor>,
}

/// The HELLO that router `router_id` sends.
pub fn hello_message(router_id: &str) -> (m: HelloMessage)
    ensures
        m.message_type == 1,
        m.router_id@ == router_id@,
{
    HelloMessage { message_type: 1, router_id: router_id.to_string() }
}

/// The advertisement that router `router_id` sends in answer to a HELLO:
/// one neighbour, `192.168.1.1`, up, at 100 Mbit/s.
pub fn lsa_message(router_id: &str) -> (m: LSAMessage)
    ensures
        m.message_type == 2,
        m.router_id@ == router_id@,
        m.neighbor_count == 1,
        m.neighbors@.len() == 1,
        m.neighbors@[0].neighbor_id@ == "192.168.1.1"@,
        m.neighbors@[0].link_up,
        m.neighbors@[0].capacity == 100,
{
    let mut neighbors: Vec<Neighbor> = Vec::new();
    neighbors.push(Neighbor { neighbor_id: "192.168.1.1".to_string(), link_up: true, capacity: 100 });
    LSAMessage { message_type: 2, router_id: router_id.to_string(), neighbor_count: 1, neighbors }
}

/// Records an advertisement: the advertising router, with the neighbours it
/// lists, replaces what the topology held for it, or is added at the end.
pub fn update_topology(topology: &mut Vec<Router>, lsa: LSAMessage)
    requires
        unique_routers(old(topology)@),
    ensures
        unique_routers(final(topology)@),
        (exists|k: int| 0 <= k < old(topology)@.len() && old(topology)@[k].router_id@ == lsa.router_id@) ==> exists|k: int|
            0 <= k < old(topology)@.len() && old(topology)@[k].router_id@ == lsa.router_id@
                && final(topology)@ == old(topology)@.update(k, (Router { router_id: lsa.router_id, neighbors: lsa.neighbors })),
        !(exists|k: int| 0 <= k < old(topology)@.len() && old(topology)@[k].router_id@ == lsa.router_id@)
            ==> final(topology)@ == old(topology)@.push((Router { router_id: lsa.router_id, neighbors: lsa.neighbors })),
{
    let ghost t0 = topology@;
    let ghost r = Router { router_id: lsa.router_id, neighbors: lsa.neighbors };
    match find_router(topology, &lsa.router_id) {
        Some(k) => {
            topology.set(k, Router { router_id: lsa.router_id, neighbors: lsa.neighbors });
            proof {
                assert(topology@ == t0.update(k as int, r));
                assert forall|a: int, b: int| 0 <= a < topology@.len() && 0 <= b < topology@.len() && a != b implies topology@[a].router_id@ != topology@[b].router_id@ by {
                    assert(topology@[a].router_id@ == t0[a].router_id@);
                    assert(topology@[b].router_id@ == t0[b].router_id@);
                }
            }
        },
        None => {
            topology.push(Router { router_id: lsa.router_id, neighbors: lsa.neighbors });
            proof {
                assert forall|a: int, b: int| 0 <= a < topology@.len() && 0 <= b < topology@.len() && a != b implies topology@[a].router_id@ != topology@[b].router_id@ by {
                    if a < t0.len() {
                        assert(topology@[a] == t0[a]);
                    }
                    if b < t0.len() {
                        assert(topology@[b] == t0[b]);
                    }
                }
            }
        },
    }
}

/// A route to install: to `destination` through `gateway`, at `cost`.
#[derive(Debug)]
pub struct RouteRow {
    pub destination: String,
    pub gateway: String,
    pub cost: u32,
}

/// The routes of a shortest-path table: one per node other than the
/// source, in node order, through the node's predecessor (`0.0.0.0` when it
/// has none).
pub open spec fn spec_rows(n: Seq<NodeCost>, source: Seq<char>) -> Seq<(Seq<char>, Seq<char>, u32)>
    decreases n.len(),
{
    if n.len() == 0 {
        Seq::empty()
    } else {
        let r = spec_rows(n.drop_last(), source);
        let x = n.last();
        if x.id@ == source {
            r
        } else {
            r.push(
                (
                    x.id@,
                    match x.prev {
                        Some(p) => p@,
                        None => "0.0.0.0"@,
                    },
                    x.cost,
                ),
            )
        }
    }
}

pub open spec fn rows_view(r: Seq<RouteRow>) -> Seq<(Seq<char>, Seq<char>, u32)> {
    r.map_values(|x: RouteRow| (x.destination@, x.gateway@, x.cost))
}

/// The routes to install from a shortest-path table.
pub fn routing_rows(table: &PathTable, source: &str) -> (rows: Vec<RouteRow>)
    ensures
        rows_view(rows@) == spec_rows(table.nodes@, source@),
{
    let source_id = source.to_string();
    let mut rows: Vec<RouteRow> = Vec::new();
    let mut i: usize = 0;
    while i < table.nodes.len()
        invariant
            i <= table.nodes@.len(),
            source_id@ == source@,
            rows_view(rows@) == spec_rows(table.nodes@.take(i as int), source@),
        decreases table.nodes.len() - i,
    {
        let x = &table.nodes[i];
        let ghost r0 = rows@;
        assert(table.nodes@.take(i + 1).drop_last() =~= table.nodes@.take(i as int));
        if x.id != source_id {
            let gateway = match &x.prev {
                Some(p) => p.clone(),
                None => "0.0.0.0".to_string(),
            };
            rows.push(RouteRow { destination: x.id.clone(), gateway, cost: x.cost });
            assert(rows_view(rows@) =~= rows_view(r0).push(rows_view(rows@).last()));
        }
        i += 1;
    }
    assert(table.nodes@.take(table.nodes@.len() as int) =~= table.nodes@);
    rows
}

/// Why a route could not be installed.
#[derive(Debug, Clone, Copy, PartialEq, Eq, Structural)]
pub enum RouteTargetError {
    InvalidDestination,
    InvalidGateway,
}

/// The host route (prefix /32) to install for a row: destination and
/// gateway, both IPv4 addresses.
pub fn route_target(destination: &str, gateway: &str) -> (r: Result<(u32, u32), RouteTargetError>)
    ensures
        match spec_parse_ipv4(destination@) {
            None => r == Err::<(u32, u32), RouteTargetError>(RouteTargetError::InvalidDestination),
            Some(d) => match spec_parse_ipv4(gateway@) {
                None => r == Err::<(u32, u32), RouteTargetError>(RouteTargetError::InvalidGateway),
                Some(g) => r == Ok::<(u32, u32), RouteTargetError>((d, g)),
            },
        },
{
    let d = match parse_ipv4(destination) {
        Ok(d) => d,
        Err(_) => return Err(RouteTargetError::InvalidDestination),
    };
    let g = match parse_ipv4(gateway) {
        Ok(g) => g,
        Err(_) => return Err(RouteTargetError::InvalidGateway),
    };
    Ok((d, g))
}

/// The far end of hop `h` (router index, neighbour index).
pub open spec fn hop_end(t: Seq<Router>, h: (int, int)) -> Seq<char> {
    t[h.0].neighbors@[h.1].neighbor_id@
}

/// `p` is a path of up links from `source`: each hop leaves the router the
/// previous one reached (the first leaves the source).
pub open spec fn is_path(t: Seq<Router>, source: Seq<char>, p: Seq<(int, int)>) -> bool {
    &&& p.len() >= 1
    &&& forall|k: int|
        0 <= k < p.len() ==> 0 <= (#[trigger] p[k]).0 < t.len() && 0 <= p[k].1 < t[p[k].0].neighbors@.len()
            && t[p[k].0].neighbors@[p[k].1].link_up
    &&& t[p[0].0].router_id@ == source
    &&& forall|k: int| 0 <= k < p.len() - 1 ==> t[(#[trigger] p[k + 1]).0].router_id@ == hop_end(t, p[k])
}

/// The cost of a path: the sum of its links' costs.
pub open spec fn path_cost(t: Seq<Router>, p: Seq<(int, int)>) -> nat
    decreases p.len(),
{
    if p.len() == 0 {
        0
    } else {
        path_cost(t, p.drop_last()) + weight(t[p.last().0].neighbors@[p.last().1]) as nat
    }
}

proof fn lemma_path_prefix(t: Seq<Router>, source: Seq<char>, p: Seq<(int, int)>)
    requires
        is_path(t, source, p),
        p.len() >= 2,
    ensures
        is_path(t, source, p.drop_last()),
{
    let q = p.drop_last();
    assert forall|k: int| 0 <= k < q.len() implies 0 <= (#[trigger] q[k]).0 < t.len() && 0 <= q[k].1 < t[q[k].0].neighbors@.len()
        && t[q[k].0].neighbors@[q[k].1].link_up by {
        assert(q[k] == p[k]);
    }
    assert forall|k: int| 0 <= k < q.len() - 1 implies t[(#[trigger] q[k + 1]).0].router_id@ == hop_end(t, q[k]) by {
        assert(q[k] == p[k] && q[k + 1] == p[k + 1]);
    }
    assert(q[0] == p[0]);
}

/// Along a path, the end of the path, or a node not yet settled, costs at
/// most the path's cost.
proof fn lemma_path_bound(t: Seq<Router>, source: Seq<char>, n: Seq<NodeCost>, vis: Seq<Seq<char>>, p: Seq<(int, int)>)
    requires
        table_props(t, source, n, vis),
        vis.len() > 0,
        is_path(t, source, p),
    ensures
        exists|y: Seq<char>|
            #[trigger] costs(n).contains_key(y) && (y == hop_end(t, p.last()) || !vis.contains(y)) && costs(n)[y]
                <= path_cost(t, p),
    decreases p.len(),
{
    let cm = costs(n);
    let h = p.last();
    assert(p[p.len() - 1] == h);
    let r = t[h.0];
    let nb = r.neighbors@[h.1];
    assert(path_cost(t, p) == path_cost(t, p.drop_last()) + weight(nb) as nat);
    if p.len() == 1 {
        assert(router_ids(t)[h.0] == source);
        assert(vis[0] == source);
        assert(cm.contains_key(hop_end(t, h)) && cm[hop_end(t, h)] <= cm[vis[0]] + weight(nb));
        assert(cm.contains_key(hop_end(t, h)));
    } else {
        lemma_path_prefix(t, source, p);
        let q = p.drop_last();
        lemma_path_bound(t, source, n, vis, q);
        let y = choose|y: Seq<char>|
            #[trigger] cm.contains_key(y) && (y == hop_end(t, q.last()) || !vis.contains(y)) && cm[y] <= path_cost(t, q);
        assert(q.last() == p[p.len() - 2]);
        assert(t[p[p.len() - 2 + 1].0].router_id@ == hop_end(t, p[p.len() - 2]));
        if !vis.contains(y) {
            assert(cm.contains_key(y));
        } else {
            // `y` ends the shorter path and is settled: its link to the end
            // of this path is relaxed
            assert(y == r.router_id@);
            let a = choose|a: int| 0 <= a < vis.len() && vis[a] == y;
            assert(cm.contains_key(hop_end(t, h)) && cm[hop_end(t, h)] <= cm[vis[a]] + weight(nb));
            assert(cm.contains_key(hop_end(t, h)));
        }
    }
}

/// A settled node costs no more than any path of up links from the source
/// to it: the costs of settled nodes are shortest distances.
pub proof fn law_settled_costs_are_shortest(
    t: Seq<Router>,
    source: Seq<char>,
    n: Seq<NodeCost>,
    vis: Seq<Seq<char>>,
    p: Seq<(int, int)>,
)
    requires
        table_props(t, source, n, vis),
        is_path(t, source, p),
        vis.contains(hop_end(t, p.last())),
    ensures
        costs(n).contains_key(hop_end(t, p.last())),
        costs(n)[hop_end(t, p.last())] <= path_cost(t, p),
{
    let cm = costs(n);
    let d = hop_end(t, p.last());
    lemma_path_bound(t, source, n, vis, p);
    let y = choose|y: Seq<char>| #[trigger] cm.contains_key(y) && (y == d || !vis.contains(y)) && cm[y] <= path_cost(t, p);
    let a = choose|a: int| 0 <= a < vis.len() && vis[a] == d;
    assert(cm.contains_key(vis[a]));
}

} // verus!
