use vstd::prelude::*;
use crate::clock::unix_time_secs;
use crate::protocol::message_types::{LinkStateUpdate, LinkInfo};

verus! {

/// A route: destination, next hop, metric and time of the last update.
#[derive(Debug)]
pub struct Route {
    pub destination: String,
    pub next_hop: String,
    pub metric: u32,
    pub timestamp: u64,
}

/// The value of a route.
pub struct RouteV {
    pub next_hop: Seq<char>,
    pub metric: u32,
    pub timestamp: u64,
}

impl Route {
    pub open spec fn value(&self) -> RouteV {
        RouteV { next_hop: self.next_hop@, metric: self.metric, timestamp: self.timestamp }
    }
}

/// The destination-to-route map of a sequence of routes.
pub open spec fn routes_map(s: Seq<Route>) -> Map<Seq<char>, RouteV>
    decreases s.len(),
{
    if s.len() == 0 {
        Map::empty()
    } else {
        routes_map(s.drop_last()).insert(s.last().destination@, s.last().value())
    }
}

/// No destination occurs twice.
pub open spec fn unique_routes(s: Seq<Route>) -> bool {
    forall|a: int, b: int| 0 <= a < s.len() && 0 <= b < s.len() && a != b ==> s[a].destination@ != s[b].destination@
}

proof fn lemma_routes_map_lookup(s: Seq<Route>, k: int)
    requires
        unique_routes(s),
        0 <= k < s.len(),
    ensures
        routes_map(s).contains_key(s[k].destination@),
        routes_map(s)[s[k].destination@] == s[k].value(),
    decreases s.len(),
{
    if k < s.len() - 1 {
        lemma_routes_map_lookup(s.drop_last(), k);
    }
}

proof fn lemma_routes_map_absent(s: Seq<Route>, d: Seq<char>)
    requires
        forall|k: int| 0 <= k < s.len() ==> s[k].destination@ != d,
    ensures
        !routes_map(s).contains_key(d),
    decreases s.len(),
{
    if s.len() > 0 {
        lemma_routes_map_absent(s.drop_last(), d);
    }
}

proof fn lemma_routes_map_update(s: Seq<Route>, k: int, r: Route)
    requires
        unique_routes(s),
        0 <= k < s.len(),
        r.destination@ == s[k].destination@,
    ensures
        routes_map(s.update(k, r)) == routes_map(s).insert(r.destination@, r.value()),
        unique_routes(s.update(k, r)),
    decreases s.len(),
{
    let t = s.update(k, r);
    if k == s.len() - 1 {
        assert(t.drop_last() =~= s.drop_last());
        assert(routes_map(t) =~= routes_map(s).insert(r.destination@, r.value()));
    } else {
        assert(t.drop_last() =~= s.drop_last().update(k, r));
        lemma_routes_map_update(s.drop_last(), k, r);
        assert(routes_map(t) =~= routes_map(s).insert(r.destination@, r.value()));
    }
    assert forall|a: int, b: int| 0 <= a < t.len() && 0 <= b < t.len() && a != b implies t[a].destination@ != t[b].destination@ by {
        assert(t[a].destination@ == s[a].destination@);
        assert(t[b].destination@ == s[b].destination@);
    }
}

proof fn lemma_routes_map_remove(s: Seq<Route>, k: int)
    requires
        unique_routes(s),
        0 <= k < s.len(),
    ensures
        routes_map(s.remove(k)) == routes_map(s).remove(s[k].destination@),
        unique_routes(s.remove(k)),
    decreases s.len(),
{
    let t = s.remove(k);
    let d = s[k].destination@;
    if k == s.len() - 1 {
        assert(t =~= s.drop_last());
        assert forall|j: int| 0 <= j < t.len() implies t[j].destination@ != d by {
            assert(t[j] == s[j]);
        }
        lemma_routes_map_absent(t, d);
        assert(routes_map(t) =~= routes_map(s).remove(d));
    } else {
        assert(t.drop_last() =~= s.drop_last().remove(k));
        assert(t.last() == s.last());
        lemma_routes_map_remove(s.drop_last(), k);
        assert(routes_map(t) =~= routes_map(s).remove(d));
    }
    assert forall|a: int, b: int| 0 <= a < t.len() && 0 <= b < t.len() && a != b implies t[a].destination@ != t[b].destination@ by {
        let sa = if a < k { a } else { a + 1 };
        let sb = if b < k { b } else { b + 1 };
        assert(t[a] == s[sa]);
        assert(t[b] == s[sb]);
    }
}

/// A routing table: at most one route per destination.
pub struct RoutingTable {
    routes: Vec<Route>,
}

impl View for RoutingTable {
    type V = Map<Seq<char>, RouteV>;

    closed spec fn view(&self) -> Map<Seq<char>, RouteV> {
        routes_map(self.routes@)
    }
}

impl RoutingTable {
    /// At most one route per destination.
    pub closed spec fn wf(&self) -> bool {
        unique_routes(self.routes@)
    }

    /// The routes, in the table's order.
    pub closed spec fn route_seq(&self) -> Seq<Route> {
        self.routes@
    }

    /// An empty table.
    pub fn new() -> (t: Self)
        ensures
            t.wf(),
            t@ == Map::<Seq<char>, RouteV>::empty(),
    {
        RoutingTable { routes: Vec::new() }
    }

    fn find(&self, destination: &str) -> (r: Option<usize>)
        ensures
            match r {
                Some(k) => k < self.routes@.len() && self.routes@[k as int].destination@ == destination@,
                None => forall|k: int| 0 <= k < self.routes@.len() ==> self.routes@[k].destination@ != destination@,
            },
    {
        let d = destination.to_string();
        let mut k: usize = 0;
        while k < self.routes.len()
            invariant
                k <= self.routes.len(),
                d@ == destination@,
                forall|j: int| 0 <= j < k ==> self.routes@[j].destination@ != destination@,
            decreases self.routes.len() - k,
        {
            if self.routes[k].destination == d {
                return Some(k);
            }
            k += 1;
        }
        None
    }

    /// The route to `destination`, if any.
    pub fn get_route(&self, destination: &str) -> (r: Option<&Route>)
        requires
            self.wf(),
        ensures
            self@.contains_key(destination@) <==> r is Some,
            r matches Some(route) ==> route.destination@ == destination@ && route.value() == self@[destination@],
    {
        match self.find(destination) {
            Some(k) => {
                proof {
                    lemma_routes_map_lookup(self.routes@, k as int);
                }
                Some(&self.routes[k])
            },
            None => {
                proof {
                    lemma_routes_map_absent(self.routes@, destination@);
                }
                None
            },
        }
    }

    /// Sets the route to `destination`, stamped with `timestamp`.
    pub fn update_route_at(&mut self, destination: String, next_hop: String, metric: u32, timestamp: u64)
        requires
            old(self).wf(),
        ensures
            final(self).wf(),
            final(self)@ == old(self)@.insert(destination@, RouteV { next_hop: next_hop@, metric, timestamp }),
    {
        let route = Route { destination, next_hop, metric, timestamp };
        match self.find(route.destination.as_str()) {
            Some(k) => {
                proof {
                    lemma_routes_map_update(self.routes@, k as int, route);
                }
                self.routes.set(k, route);
            },
            None => {
                let ghost s0 = self.routes@;
                proof {
                    assert forall|a: int, b: int| 0 <= a < s0.len() + 1 && 0 <= b < s0.len() + 1 && a != b implies s0.push(route)[a].destination@ != s0.push(route)[b].destination@ by {
                    }
                    assert(s0.push(route).drop_last() =~= s0);
                }
                self.routes.push(route);
            },
        }
    }

    /// Sets the route to `destination`, stamped with the current time.
    pub fn update_route(&mut self, destination: String, next_hop: String, metric: u32)
        requires
            old(self).wf(),
        ensures
            final(self).wf(),
            exists|t: u64| final(self)@ == old(self)@.insert(destination@, RouteV { next_hop: next_hop@, metric, timestamp: t }),
    {
        let t = unix_time_secs();
        self.update_route_at(destination, next_hop, metric, t);
    }

    /// A route through each active link of `link_state` to its neighbour,
    /// at the link's metric, stamped with `timestamp`, in order.
    pub fn update_from_link_state_at(&mut self, link_state: LinkStateUpdate, timestamp: u64)
        requires
            old(self).wf(),
        ensures
            final(self).wf(),
            final(self)@ == link_routes(old(self)@, link_state.links@, timestamp),
    {
        let links = link_state.links;
        let mut i: usize = 0;
        while i < links.len()
            invariant
                i <= links.len(),
                self.wf(),
                self@ == link_routes(old(self)@, links@.take(i as int), timestamp),
            decreases links.len() - i,
        {
            let l = &links[i];
            assert(links@.take(i as int + 1).drop_last() =~= links@.take(i as int));
            if l.is_active {
                self.update_route_at(l.neighbor_id.clone(), l.neighbor_id.clone(), l.metric, timestamp);
            }
            i += 1;
        }
        assert(links@.take(links.len() as int) =~= links@);
    }

    /// A route through each active link of `link_state` to its neighbour,
    /// at the link's metric, stamped with the current time.
    pub fn update_from_link_state(&mut self, link_state: LinkStateUpdate)
        requires
            old(self).wf(),
        ensures
            final(self).wf(),
            exists|t: u64| final(self)@ == link_routes(old(self)@, link_state.links@, t),
    {
        let t = unix_time_secs();
        self.update_from_link_state_at(link_state, t);
    }

    /// All routes.
    pub fn get_all_routes(&self) -> (r: &Vec<Route>)
        requires
            self.wf(),
        ensures
            r@ == self.route_seq(),
            routes_map(r@) == self@,
            unique_routes(r@),
    {
        &self.routes
    }

    /// Removes and returns the route to `destination`, if any.
    pub fn remove_route(&mut self, destination: &str) -> (r: Option<Route>)
        requires
            old(self).wf(),
        ensures
            final(self).wf(),
            final(self)@ == old(self)@.remove(destination@),
            old(self)@.contains_key(destination@) <==> r is Some,
            r matches Some(route) ==> route.destination@ == destination@ && route.value() == old(self)@[destination@],
    {
        match self.find(destination) {
            Some(k) => {
                proof {
                    lemma_routes_map_lookup(self.routes@, k as int);
                    lemma_routes_map_remove(self.routes@, k as int);
                }
                let r = self.routes.remove(k);
                Some(r)
            },
            None => {
                proof {
                    lemma_routes_map_absent(self.routes@, destination@);
                    assert(old(self)@.remove(destination@) =~= old(self)@);
                }
                None
            },
        }
    }
}

/// `m` after a route through each active link of `links` to its
/// neighbour, at the link's metric, stamped `t`, in order.
pub open spec fn link_routes(m: Map<Seq<char>, RouteV>, links: Seq<LinkInfo>, t: u64) -> Map<Seq<char>, RouteV>
    decreases links.len(),
{
    if links.len() == 0 {
        m
    } else {
        let prev = link_routes(m, links.drop_last(), t);
        let l = links.last();
        if l.is_active {
            prev.insert(l.neighbor_id@, RouteV { next_hop: l.neighbor_id@, metric: l.metric, timestamp: t })
        } else {
            prev
        }
    }
}

/// Reading a route back after setting it gives what was set.
pub proof fn law_get_after_update(m: Map<Seq<char>, RouteV>, d: Seq<char>, v: RouteV)
    ensures
        m.insert(d, v).contains_key(d),
        m.insert(d, v)[d] == v,
{
}

/// Setting a route leaves the other destinations alone.
pub proof fn law_update_other(m: Map<Seq<char>, RouteV>, d: Seq<char>, v: RouteV, other: Seq<char>)
    requires
        other != d,
    ensures
        m.insert(d, v).contains_key(other) == m.contains_key(other),
        m.contains_key(other) ==> m.insert(d, v)[other] == m[other],
{
}

/// After removing a route there is none to that destination.
pub proof fn law_get_after_remove(m: Map<Seq<char>, RouteV>, d: Seq<char>)
    ensures
        !m.remove(d).contains_key(d),
{
}

} // verus!
