use vstd::prelude::*;
use crate::types::{str_seq, clone_strings};
use crate::lsa::contains_string;

verus! {

/// A link of a router: where it leads, its cost, its capacity and whether
/// it is up.
#[derive(Debug)]
pub struct Link {
    pub destination: String,
    pub cost: u32,
    pub capacity: u32,
    pub is_active: bool,
}

/// A router and its links, at most one per destination.
#[derive(Debug)]
pub struct Router {
    pub id: String,
    pub links: Vec<Link>,
}

/// A best path: its destination, its cost and the routers along it.
#[derive(Debug)]
pub struct PathEntry {
    pub destination: String,
    pub cost: u32,
    pub path: Vec<String>,
}

pub open spec fn entry_view(e: PathEntry) -> (Seq<char>, u32, Seq<Seq<char>>) {
    (e.destination@, e.cost, str_seq(e.path@))
}

pub open spec fn entries_view(s: Seq<PathEntry>) -> Seq<(Seq<char>, u32, Seq<Seq<char>>)> {
    s.map_values(|e: PathEntry| entry_view(e))
}

/// No two links lead to the same destination.
pub open spec fn unique_link_dests(links: Seq<Link>) -> bool {
    forall|a: int, b: int|
        0 <= a < links.len() && 0 <= b < links.len() && a != b ==> links[a].destination@ != links[b].destination@
}

/// The direct path of link `l` of router `id`.
pub open spec fn direct_path(id: Seq<char>, l: Link) -> (Seq<char>, u32, Seq<Seq<char>>) {
    (l.destination@, l.cost, seq![id, l.destination@])
}

/// The direct path of each active link, in the order of the links.
pub open spec fn direct_paths(id: Seq<char>, links: Seq<Link>) -> Seq<(Seq<char>, u32, Seq<Seq<char>>)>
    decreases links.len(),
{
    if links.len() == 0 {
        Seq::empty()
    } else {
        let rest = direct_paths(id, links.drop_last());
        if links.last().is_active {
            rest.push(direct_path(id, links.last()))
        } else {
            rest
        }
    }
}

/// The sum of the costs of the active links to other routers than `id`.
pub open spec fn other_cost(id: Seq<char>, links: Seq<Link>) -> nat
    decreases links.len(),
{
    if links.len() == 0 {
        0
    } else {
        let l = links.last();
        other_cost(id, links.drop_last()) + if l.is_active && l.destination@ != id {
            l.cost as nat
        } else {
            0
        }
    }
}

/// The highest cost of an active link (0 when none is active).
pub open spec fn max_active_cost(links: Seq<Link>) -> nat
    decreases links.len(),
{
    if links.len() == 0 {
        0
    } else {
        let m = max_active_cost(links.drop_last());
        let l = links.last();
        if l.is_active && l.cost > m {
            l.cost as nat
        } else {
            m
        }
    }
}

/// The sum of the costs of the active links to other routers than `id`
/// whose destination is in `vis`.
pub open spec fn visited_cost(id: Seq<char>, links: Seq<Link>, vis: Seq<Seq<char>>) -> nat
    decreases links.len(),
{
    if links.len() == 0 {
        0
    } else {
        let l = links.last();
        visited_cost(id, links.drop_last(), vis) + if l.is_active && l.destination@ != id && vis.contains(
            l.destination@,
        ) {
            l.cost as nat
        } else {
            0
        }
    }
}

/// The number of active links whose destination is not in `vis`.
pub open spec fn unvisited_links(links: Seq<Link>, vis: Seq<Seq<char>>) -> nat
    decreases links.len(),
{
    if links.len() == 0 {
        0
    } else {
        unvisited_links(links.drop_last(), vis) + if links.last().is_active && !vis.contains(
            links.last().destination@,
        ) {
            1nat
        } else {
            0
        }
    }
}

proof fn lemma_unique_drop_last(links: Seq<Link>)
    requires
        unique_link_dests(links),
        links.len() > 0,
    ensures
        unique_link_dests(links.drop_last()),
{
    assert forall|a: int, b: int|
        0 <= a < links.len() - 1 && 0 <= b < links.len() - 1 && a != b implies links.drop_last()[a].destination@
        != links.drop_last()[b].destination@ by {
        assert(links.drop_last()[a] == links[a]);
        assert(links.drop_last()[b] == links[b]);
    }
}

proof fn lemma_visited_le_other(id: Seq<char>, links: Seq<Link>, vis: Seq<Seq<char>>)
    ensures
        visited_cost(id, links, vis) <= other_cost(id, links),
    decreases links.len(),
{
    if links.len() > 0 {
        lemma_visited_le_other(id, links.drop_last(), vis);
    }
}

proof fn lemma_max_active(links: Seq<Link>, j: int)
    requires
        0 <= j < links.len(),
        links[j].is_active,
    ensures
        links[j].cost <= max_active_cost(links),
    decreases links.len(),
{
    if j < links.len() - 1 {
        lemma_max_active(links.drop_last(), j);
        assert(links.drop_last()[j] == links[j]);
    }
}

/// Adding a router that no active link to another router leads to leaves
/// the visited cost as it is.
proof fn lemma_visited_push_none(id: Seq<char>, links: Seq<Link>, vis: Seq<Seq<char>>, v: Seq<char>)
    requires
        v == id || forall|i: int| 0 <= i < links.len() ==> links[i].destination@ != v,
    ensures
        visited_cost(id, links, vis.push(v)) == visited_cost(id, links, vis),
    decreases links.len(),
{
    if links.len() > 0 {
        let l = links.last();
        assert forall|i: int| 0 <= i < links.len() - 1 && v != id implies links.drop_last()[i].destination@ != v by {
            assert(links.drop_last()[i] == links[i]);
        }
        lemma_visited_push_none(id, links.drop_last(), vis, v);
        if l.destination@ != v {
            assert(vis.push(v).contains(l.destination@) == vis.contains(l.destination@)) by {
                if vis.push(v).contains(l.destination@) {
                    let k = choose|k: int| 0 <= k < vis.push(v).len() && vis.push(v)[k] == l.destination@;
                    assert(k < vis.len());
                    assert(vis[k] == l.destination@);
                }
                if vis.contains(l.destination@) {
                    let k = choose|k: int| 0 <= k < vis.len() && vis[k] == l.destination@;
                    assert(vis.push(v)[k] == l.destination@);
                }
            }
        } else {
            assert(links[links.len() - 1] == l);
        }
    }
}

/// Adding the destination of active link `j` (not yet visited, not `id`)
/// adds that link's cost.
proof fn lemma_visited_push(id: Seq<char>, links: Seq<Link>, vis: Seq<Seq<char>>, j: int)
    requires
        unique_link_dests(links),
        0 <= j < links.len(),
        links[j].is_active,
        links[j].destination@ != id,
        !vis.contains(links[j].destination@),
    ensures
        visited_cost(id, links, vis.push(links[j].destination@)) == visited_cost(id, links, vis) + links[j].cost,
    decreases links.len(),
{
    let v = links[j].destination@;
    let l = links.last();
    let w = vis.push(v);
    assert(w[vis.len() as int] == v);
    lemma_unique_drop_last(links);
    if j == links.len() - 1 {
        assert forall|i: int| 0 <= i < links.drop_last().len() implies links.drop_last()[i].destination@ != v by {
            assert(links.drop_last()[i] == links[i]);
        }
        lemma_visited_push_none(id, links.drop_last(), vis, v);
        assert(w.contains(v));
    } else {
        assert(links.drop_last()[j] == links[j]);
        lemma_visited_push(id, links.drop_last(), vis, j);
        assert(links[links.len() - 1] == l);
        assert(l.destination@ != v);
        assert(w.contains(l.destination@) == vis.contains(l.destination@)) by {
            if w.contains(l.destination@) {
                let k = choose|k: int| 0 <= k < w.len() && w[k] == l.destination@;
                assert(k < vis.len());
                assert(vis[k] == l.destination@);
            }
            if vis.contains(l.destination@) {
                let k = choose|k: int| 0 <= k < vis.len() && vis[k] == l.destination@;
                assert(w[k] == l.destination@);
            }
        }
    }
}

/// Visiting a router never adds unvisited links, and visiting the
/// destination of an unvisited active link removes one.
proof fn lemma_unvisited_push(links: Seq<Link>, vis: Seq<Seq<char>>, v: Seq<char>)
    ensures
        unvisited_links(links, vis.push(v)) <= unvisited_links(links, vis),
        (exists|j: int| 0 <= j < links.len() && links[j].is_active && links[j].destination@ == v) && !vis.contains(v)
            ==> unvisited_links(links, vis.push(v)) < unvisited_links(links, vis),
    decreases links.len(),
{
    if links.len() > 0 {
        let l = links.last();
        let w = vis.push(v);
        lemma_unvisited_push(links.drop_last(), vis, v);
        assert(vis.contains(l.destination@) ==> w.contains(l.destination@)) by {
            if vis.contains(l.destination@) {
                let k = choose|k: int| 0 <= k < vis.len() && vis[k] == l.destination@;
                assert(w[k] == l.destination@);
            }
        }
        assert(w[vis.len() as int] == v);
        if (exists|j: int| 0 <= j < links.len() && links[j].is_active && links[j].destination@ == v) && !vis.contains(v) {
            let j = choose|j: int| 0 <= j < links.len() && links[j].is_active && links[j].destination@ == v;
            if j < links.len() - 1 {
                assert(links.drop_last()[j] == links[j]);
            } else {
                assert(links[links.len() - 1] == l);
            }
        }
    }
}

proof fn lemma_direct_paths_member(id: Seq<char>, links: Seq<Link>, j: int)
    requires
        0 <= j < links.len(),
        links[j].is_active,
    ensures
        exists|k: int| 0 <= k < direct_paths(id, links).len() && direct_paths(id, links)[k] == direct_path(id, links[j]),
    decreases links.len(),
{
    let dp = direct_paths(id, links);
    if j == links.len() - 1 {
        assert(dp[dp.len() - 1] == direct_path(id, links[j]));
    } else {
        assert(links.drop_last()[j] == links[j]);
        lemma_direct_paths_member(id, links.drop_last(), j);
        let rest = direct_paths(id, links.drop_last());
        let k = choose|k: int| 0 <= k < rest.len() && rest[k] == direct_path(id, links[j]);
        assert(dp[k] == rest[k]);
    }
}

proof fn lemma_direct_paths_from(id: Seq<char>, links: Seq<Link>, k: int)
    requires
        0 <= k < direct_paths(id, links).len(),
    ensures
        exists|i: int| 0 <= i < links.len() && links[i].is_active && direct_paths(id, links)[k] == direct_path(id, links[i]),
    decreases links.len(),
{
    let rest = direct_paths(id, links.drop_last());
    if k < rest.len() {
        lemma_direct_paths_from(id, links.drop_last(), k);
        let i = choose|i: int|
            0 <= i < links.drop_last().len() && links.drop_last()[i].is_active && rest[k] == direct_path(
                id,
                links.drop_last()[i],
            );
        assert(links.drop_last()[i] == links[i]);
    } else {
        assert(links[links.len() - 1] == links.last());
    }
}

proof fn lemma_str_seq_push(v: Seq<String>, x: String)
    ensures
        str_seq(v.push(x)) == str_seq(v).push(x@),
{
    assert(str_seq(v.push(x)) =~= str_seq(v).push(x@));
}

proof fn lemma_direct_paths_take(id: Seq<char>, links: Seq<Link>, j: int)
    requires
        0 <= j < links.len(),
    ensures
        direct_paths(id, links.take(j + 1)) == if links[j].is_active {
            direct_paths(id, links.take(j)).push(direct_path(id, links[j]))
        } else {
            direct_paths(id, links.take(j))
        },
{
    assert(links.take(j + 1).drop_last() =~= links.take(j));
    assert(links.take(j + 1).last() == links[j]);
}

fn find_path(best: &Vec<PathEntry>, dest: &String) -> (r: Option<usize>)
    ensures
        match r {
            Some(k) => k < best@.len() && best@[k as int].destination@ == dest@,
            None => forall|k: int| 0 <= k < best@.len() ==> best@[k].destination@ != dest@,
        },
{
    let mut k: usize = 0;
    while k < best.len()
        invariant
            k <= best.len(),
            forall|i: int| 0 <= i < k ==> best@[i].destination@ != dest@,
        decreases best.len() - k,
    {
        if best[k].destination == *dest {
            return Some(k);
        }
        k += 1;
    }
    None
}

impl Router {
    /// Destinations are unique.
    pub open spec fn wf(&self) -> bool {
        unique_link_dests(self.links@)
    }

    /// The sums of costs that `calculate_best_paths` adds up stay within
    /// `u32`: the costs of the active links to other routers, plus the
    /// highest active cost.
    pub open spec fn costs_fit(&self) -> bool {
        other_cost(self.id@, self.links@) + max_active_cost(self.links@) <= u32::MAX
    }

    /// A router with no link.
    pub fn new(id: &str) -> (r: Self)
        ensures
            r.wf(),
            r.id@ == id@,
            r.links@ == Seq::<Link>::empty(),
    {
        Router { id: id.to_string(), links: Vec::new() }
    }

    /// Adds the link to `destination`, replacing the one there was.
    pub fn add_link(&mut self, destination: &str, cost: u32, capacity: u32, is_active: bool)
        requires
            old(self).wf(),
        ensures
            final(self).wf(),
            final(self).id == old(self).id,
            (exists|k: int| 0 <= k < old(self).links@.len() && old(self).links@[k].destination@ == destination@)
                ==> exists|k: int|
                0 <= k < old(self).links@.len() && old(self).links@[k].destination@ == destination@
                    && final(self).links@.len() == old(self).links@.len() && final(self).links@[k].destination@
                    == destination@ && final(self).links@[k].cost == cost && final(self).links@[k].capacity == capacity
                    && final(self).links@[k].is_active == is_active && (forall|i: int|
                    0 <= i < old(self).links@.len() && i != k ==> final(self).links@[i] == old(self).links@[i]),
            !(exists|k: int| 0 <= k < old(self).links@.len() && old(self).links@[k].destination@ == destination@)
                ==> final(self).links@.len() == old(self).links@.len() + 1 && final(self).links@.drop_last()
                == old(self).links@ && final(self).links@.last().destination@ == destination@
                && final(self).links@.last().cost == cost && final(self).links@.last().capacity == capacity
                && final(self).links@.last().is_active == is_active,
    {
        let link = Link { destination: destination.to_string(), cost, capacity, is_active };
        let mut k: usize = 0;
        while k < self.links.len()
            invariant
                k <= self.links.len(),
                self.links == old(self).links,
                self.id == old(self).id,
                unique_link_dests(self.links@),
                link.destination@ == destination@,
                link.cost == cost,
                link.capacity == capacity,
                link.is_active == is_active,
                forall|i: int| 0 <= i < k ==> self.links@[i].destination@ != destination@,
            decreases self.links.len() - k,
        {
            if self.links[k].destination == link.destination {
                let ghost before = self.links@;
                self.links.set(k, link);
                proof {
                    assert forall|a: int, b: int|
                        0 <= a < self.links@.len() && 0 <= b < self.links@.len() && a != b implies self.links@[a].destination@
                        != self.links@[b].destination@ by {
                        assert(self.links@[a].destination@ == before[a].destination@);
                        assert(self.links@[b].destination@ == before[b].destination@);
                    }
                    assert(before[k as int].destination@ == destination@);
                    assert(self.links@[k as int] == link);
                    assert(forall|i: int| 0 <= i < before.len() && i != k ==> self.links@[i] == before[i]);
                    assert(0 <= k < before.len() && before[k as int].destination@ == destination@
                        && self.links@.len() == before.len() && self.links@[k as int].destination@ == destination@
                        && self.links@[k as int].cost == cost && self.links@[k as int].capacity == capacity
                        && self.links@[k as int].is_active == is_active && (forall|i: int|
                        0 <= i < before.len() && i != k ==> self.links@[i] == before[i]));
                }
                return;
            }
            k += 1;
        }
        let ghost before = self.links@;
        self.links.push(link);
        proof {
            assert(self.links@.drop_last() =~= before);
            assert forall|a: int, b: int|
                0 <= a < self.links@.len() && 0 <= b < self.links@.len() && a != b implies self.links@[a].destination@
                != self.links@[b].destination@ by {
                if a < before.len() {
                    assert(self.links@[a] == before[a]);
                }
                if b < before.len() {
                    assert(self.links@[b] == before[b]);
                }
            }
        }
    }

    /// The best path found to each destination, by a depth-first walk
    /// from this router over its links.  As the router only knows its own
    /// links, every walk past the first step costs at least as much as the
    /// direct link, so the result is the direct path of each active link
    /// at that link's cost, in the order of the links.
    pub fn calculate_best_paths(&self) -> (res: Vec<PathEntry>)
        requires
            self.wf(),
            self.costs_fit(),
        ensures
            entries_view(res@) == direct_paths(self.id@, self.links@),
    {
        let ghost id = self.id@;
        let ghost links = self.links@;
        let ghost total = other_cost(id, links);
        let ghost maxc = max_active_cost(links);
        let mut best: Vec<PathEntry> = Vec::new();
        let mut visited: Vec<String> = Vec::new();
        let mut start: Vec<String> = Vec::new();
        start.push(self.id.clone());
        let mut to_visit: Vec<(String, u32, Vec<String>)> = Vec::new();
        to_visit.push((self.id.clone(), 0, start));
        let ghost mut src: Seq<int> = seq![-1int];
        proof {
            assert(str_seq(to_visit@[0].2@) =~= seq![id]);
        }
        while to_visit.len() > 0
            invariant
                id == self.id@,
                links == self.links@,
                unique_link_dests(links),
                total == other_cost(id, links),
                maxc == max_active_cost(links),
                total + maxc <= u32::MAX,
                src.len() == to_visit@.len(),
                str_seq(visited@).len() == 0 ==> to_visit@.len() == 1 && src[0] == -1 && to_visit@[0].0@ == id
                    && to_visit@[0].1 == 0 && str_seq(to_visit@[0].2@) == seq![id] && best@.len() == 0,
                str_seq(visited@).len() > 0 ==> str_seq(visited@)[0] == id && entries_view(best@) == direct_paths(
                    id,
                    links,
                ),
                forall|k: int|
                    0 <= k < to_visit@.len() ==> (src[k] == -1 && to_visit@[k].0@ == id && to_visit@[k].1 == 0) || (0
                        <= src[k] < links.len() && links[src[k]].is_active && links[src[k]].destination@
                        == to_visit@[k].0@ && to_visit@[k].1 <= visited_cost(id, links, str_seq(visited@))
                        + links[src[k]].cost),
            decreases
                (if str_seq(visited@).contains(id) {
                    0nat
                } else {
                    1nat
                }) + unvisited_links(links, str_seq(visited@)),
                to_visit@.len(),
        {
            let ghost vis = str_seq(visited@);
            let ghost s = src.last();
            let ghost stack_before = to_visit@;
            let top = to_visit.pop().unwrap();
            proof {
                assert(stack_before.last() == top);
                assert(to_visit@ =~= stack_before.drop_last());
                src = src.drop_last();
            }
            let (current_id, current_cost, path) = top;
            if contains_string(&visited, &current_id) {
                proof {
                    assert forall|k: int| 0 <= k < to_visit@.len() implies (src[k] == -1 && to_visit@[k].0@ == id
                        && to_visit@[k].1 == 0) || (0 <= src[k] < links.len() && links[src[k]].is_active
                        && links[src[k]].destination@ == to_visit@[k].0@ && to_visit@[k].1 <= visited_cost(
                        id,
                        links,
                        vis,
                    ) + links[src[k]].cost) by {
                        assert(to_visit@[k] == stack_before[k]);
                    }
                }
                continue;
            }
            let ghost first = vis.len() == 0;
            proof {
                if !first {
                    assert(vis.contains(id)) by {
                        assert(vis[0] == id);
                    }
                }
                // the router being visited is `id` (first visit only) or the
                // destination of an active link to another router
                if s != -1 {
                    assert(current_id@ != id);
                }
            }
            let ghost vis2 = vis.push(current_id@);
            let ghost visited_before = visited@;
            visited.push(current_id.clone());
            proof {
                lemma_str_seq_push(visited_before, current_id);
                assert(str_seq(visited@) == vis2);
                if s == -1 {
                    assert(current_id@ == id);
                    lemma_visited_push_none(id, links, vis, current_id@);
                } else {
                    lemma_visited_push(id, links, vis, s);
                }
                lemma_visited_le_other(id, links, vis2);
                lemma_unvisited_push(links, vis, current_id@);
                if s != -1 {
                    assert(links[s].destination@ == current_id@);
                }
                assert(vis2[vis.len() as int] == current_id@);
                assert(vis2.contains(id)) by {
                    if s == -1 {
                        assert(vis2[vis.len() as int] == id);
                    } else {
                        assert(vis[0] == id);
                        assert(vis2[0] == id);
                    }
                }
                if first {
                    assert(s == -1);
                    assert(str_seq(path@) == seq![id]);
                }
            }
            let ghost cost_vis = visited_cost(id, links, vis2);
            assert(current_cost <= cost_vis);
            let mut j: usize = 0;
            while j < self.links.len()
                invariant
                    id == self.id@,
                    links == self.links@,
                    unique_link_dests(links),
                    total == other_cost(id, links),
                    maxc == max_active_cost(links),
                    total + maxc <= u32::MAX,
                    j <= links.len(),
                    str_seq(visited@) == vis2,
                    vis2.len() > 0,
                    vis2[0] == id,
                    cost_vis == visited_cost(id, links, vis2),
                    cost_vis <= total,
                    current_cost <= cost_vis,
                    src.len() == to_visit@.len(),
                    first ==> current_cost == 0 && str_seq(path@) == seq![id] && entries_view(best@) == direct_paths(
                        id,
                        links.take(j as int),
                    ),
                    !first ==> entries_view(best@) == direct_paths(id, links),
                    forall|k: int|
                        0 <= k < to_visit@.len() ==> (src[k] == -1 && to_visit@[k].0@ == id && to_visit@[k].1 == 0)
                            || (0 <= src[k] < links.len() && links[src[k]].is_active && links[src[k]].destination@
                            == to_visit@[k].0@ && to_visit@[k].1 <= cost_vis + links[src[k]].cost),
                decreases links.len() - j,
            {
                proof {
                    lemma_direct_paths_take(id, links, j as int);
                }
                let link = &self.links[j];
                if link.is_active {
                    proof {
                        lemma_max_active(links, j as int);
                    }
                    let new_cost = current_cost + link.cost;
                    let mut new_path = clone_strings(&path);
                    let ghost np0 = new_path@;
                    new_path.push(link.destination.clone());
                    proof {
                        lemma_str_seq_push(np0, link.destination);
                    }
                    match find_path(&best, &link.destination) {
                        None => {
                            proof {
                                if !first {
                                    lemma_direct_paths_member(id, links, j as int);
                                    let k = choose|k: int|
                                        0 <= k < direct_paths(id, links).len() && direct_paths(id, links)[k]
                                            == direct_path(id, links[j as int]);
                                    assert(entries_view(best@)[k] == entry_view(best@[k]));
                                    assert(false);
                                }
                            }
                            let ghost b0 = best@;
                            best.push(PathEntry { destination: link.destination.clone(), cost: new_cost, path: clone_strings(&new_path) });
                            proof {
                                assert(str_seq(new_path@) =~= seq![id, links[j as int].destination@]);
                                assert(entries_view(best@) =~= entries_view(b0).push(direct_path(id, links[j as int])));
                            }
                        },
                        Some(k) => {
                            proof {
                                assert(entries_view(best@)[k as int] == entry_view(best@[k as int]));
                                if first {
                                    lemma_direct_paths_from(id, links.take(j as int), k as int);
                                    let i = choose|i: int|
                                        0 <= i < links.take(j as int).len() && links.take(j as int)[i].is_active
                                            && direct_paths(id, links.take(j as int))[k as int] == direct_path(
                                            id,
                                            links.take(j as int)[i],
                                        );
                                    assert(links.take(j as int)[i] == links[i]);
                                    assert(false);
                                } else {
                                    lemma_direct_paths_from(id, links, k as int);
                                    let i = choose|i: int|
                                        0 <= i < links.len() && links[i].is_active && direct_paths(id, links)[k as int]
                                            == direct_path(id, links[i]);
                                    assert(i == j);
                                }
                            }
                            if new_cost < best[k].cost {
                                best.set(k, PathEntry { destination: link.destination.clone(), cost: new_cost, path: clone_strings(&new_path) });
                            }
                        },
                    }
                    let ghost s0 = to_visit@;
                    to_visit.push((link.destination.clone(), new_cost, new_path));
                    proof {
                        src = src.push(j as int);
                        assert forall|k: int| 0 <= k < to_visit@.len() implies (src[k] == -1 && to_visit@[k].0@ == id
                            && to_visit@[k].1 == 0) || (0 <= src[k] < links.len() && links[src[k]].is_active
                            && links[src[k]].destination@ == to_visit@[k].0@ && to_visit@[k].1 <= cost_vis
                            + links[src[k]].cost) by {
                            if k < s0.len() {
                                assert(to_visit@[k] == s0[k]);
                            }
                        }
                    }
                }
                j += 1;
            }
            proof {
                if first {
                    assert(links.take(links.len() as int) =~= links);
                }
            }
        }
        best
    }
}

/// `e` is the direct path of one of the active links.
pub open spec fn direct_path_of_active_link(id: Seq<char>, links: Seq<Link>, e: (Seq<char>, u32, Seq<Seq<char>>)) -> bool {
    exists|i: int| 0 <= i < links.len() && links[i].is_active && e == direct_path(id, links[i])
}

/// The best paths are the direct links: each active link gives its
/// destination the path `[id, destination]` at the link's cost, and every
/// best path is the direct path of an active link.
pub proof fn law_best_paths_are_direct_links(id: Seq<char>, links: Seq<Link>)
    ensures
        forall|j: int|
            0 <= j < links.len() && links[j].is_active ==> exists|k: int|
                0 <= k < direct_paths(id, links).len() && direct_paths(id, links)[k] == direct_path(id, links[j]),
        forall|k: int|
            0 <= k < direct_paths(id, links).len() ==> direct_path_of_active_link(id, links, #[trigger] direct_paths(id, links)[k]),
{
    assert forall|j: int| 0 <= j < links.len() && links[j].is_active implies exists|k: int|
        0 <= k < direct_paths(id, links).len() && direct_paths(id, links)[k] == direct_path(id, links[j]) by {
        lemma_direct_paths_member(id, links, j);
    }
    assert forall|k: int| 0 <= k < direct_paths(id, links).len() implies direct_path_of_active_link(id, links, #[trigger] direct_paths(id, links)[k]) by {
        lemma_direct_paths_from(id, links, k);
    }
}

/// The hop `(from, to)` of the cheapest of `paths`, each given as
/// `(from, to, cost)`: the first one of least cost.
pub fn calculate_best_path<'a>(paths: &Vec<(&'a str, &'a str, u32)>) -> (r: (&'a str, &'a str))
    requires
        paths@.len() > 0,
    ensures
        exists|k: int|
            0 <= k < paths@.len() && r == (paths@[k].0, paths@[k].1) && (forall|j: int|
                0 <= j < paths@.len() ==> paths@[k].2 <= paths@[j].2) && (forall|j: int|
                0 <= j < k ==> paths@[j].2 > paths@[k].2),
{
    let mut best: usize = 0;
    let mut i: usize = 1;
    while i < paths.len()
        invariant
            0 <= best < i <= paths@.len(),
            forall|j: int| 0 <= j < i ==> paths@[best as int].2 <= paths@[j].2,
            forall|j: int| 0 <= j < best ==> paths@[j].2 > paths@[best as int].2,
        decreases paths.len() - i,
    {
        if paths[i].2 < paths[best].2 {
            best = i;
        }
        i += 1;
    }
    (paths[best].0, paths[best].1)
}

/// Adds or replaces the link of `router` to `destination`.
pub fn update_router(router: &mut Router, destination: &str, cost: u32, capacity: u32, is_active: bool)
    requires
        old(router).wf(),
    ensures
        final(router).wf(),
        final(router).id == old(router).id,
        (exists|k: int| 0 <= k < old(router).links@.len() && old(router).links@[k].destination@ == destination@)
            ==> exists|k: int|
            0 <= k < old(router).links@.len() && old(router).links@[k].destination@ == destination@
                && final(router).links@.len() == old(router).links@.len() && final(router).links@[k].destination@
                == destination@ && final(router).links@[k].cost == cost && final(router).links@[k].capacity == capacity
                && final(router).links@[k].is_active == is_active && (forall|i: int|
                0 <= i < old(router).links@.len() && i != k ==> final(router).links@[i] == old(router).links@[i]),
        !(exists|k: int| 0 <= k < old(router).links@.len() && old(router).links@[k].destination@ == destination@)
            ==> final(router).links@.len() == old(router).links@.len() + 1 && final(router).links@.drop_last()
            == old(router).links@ && final(router).links@.last().destination@ == destination@
            && final(router).links@.last().cost == cost && final(router).links@.last().capacity == capacity
            && final(router).links@.last().is_active == is_active,
{
    router.add_link(destination, cost, capacity, is_active);
}

/// The best paths of `router`.
pub fn calculate_paths(router: &Router) -> (res: Vec<PathEntry>)
    requires
        router.wf(),
        router.costs_fit(),
    ensures
        entries_view(res@) == direct_paths(router.id@, router.links@),
{
    router.calculate_best_paths()
}

} // verus!
