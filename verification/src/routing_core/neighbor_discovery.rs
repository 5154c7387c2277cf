use vstd::prelude::*;
use crate::assoc::{assoc_map, assoc_unique, lemma_assoc_lookup, lemma_assoc_absent, lemma_assoc_update, lemma_assoc_push, lemma_assoc_remove};
use crate::net_utils::{IpAddress, ip_address_text, spec_ip_text};
use crate::text::concat;

verus! {

/// A neighbour found on the network: its address and system name.
#[derive(Debug, Clone)]
pub struct Neighbor {
    pub ip_address: IpAddress,
    pub system_name: String,
}

/// The address-to-name pairs of a list of neighbours.
pub open spec fn neighbor_pairs(s: Seq<Neighbor>) -> Seq<(IpAddress, Seq<char>)> {
    s.map_values(|n: Neighbor| (n.ip_address, n.system_name@))
}

/// The line that shows a neighbour (address, name).
pub open spec fn spec_neighbor_line(n: (IpAddress, Seq<char>)) -> Seq<char> {
    "Neighbor IP: "@ + spec_ip_text(n.0) + ", System Name: "@ + n.1
}

/// The neighbours found, at most one per address.
pub struct NeighborDiscovery {
    neighbors: Vec<Neighbor>,
}

impl View for NeighborDiscovery {
    type V = Map<IpAddress, Seq<char>>;

    closed spec fn view(&self) -> Map<IpAddress, Seq<char>> {
        assoc_map(neighbor_pairs(self.neighbors@))
    }
}

impl NeighborDiscovery {
    /// Addresses are unique.
    pub closed spec fn wf(&self) -> bool {
        assoc_unique(neighbor_pairs(self.neighbors@))
    }

    /// The neighbours (address, name), in the order they were first found.
    pub closed spec fn entries(&self) -> Seq<(IpAddress, Seq<char>)> {
        neighbor_pairs(self.neighbors@)
    }

    proof fn lemma_lookup(&self, k: int)
        requires
            self.wf(),
            0 <= k < self.neighbors@.len(),
        ensures
            self@.contains_key(self.neighbors@[k].ip_address),
            self@[self.neighbors@[k].ip_address] == self.neighbors@[k].system_name@,
    {
        lemma_assoc_lookup(neighbor_pairs(self.neighbors@), k);
    }

    fn find(&self, ip_address: IpAddress) -> (r: Option<usize>)
        requires
            self.wf(),
        ensures
            match r {
                Some(k) => k < self.neighbors@.len() && self.neighbors@[k as int].ip_address == ip_address,
                None => !self@.contains_key(ip_address),
            },
    {
        let mut k: usize = 0;
        while k < self.neighbors.len()
            invariant
                k <= self.neighbors.len(),
                forall|j: int| 0 <= j < k ==> self.neighbors@[j].ip_address != ip_address,
            decreases self.neighbors.len() - k,
        {
            if self.neighbors[k].ip_address == ip_address {
                return Some(k);
            }
            k += 1;
        }
        proof {
            assert forall|j: int| 0 <= j < neighbor_pairs(self.neighbors@).len() implies neighbor_pairs(
                self.neighbors@,
            )[j].0 != ip_address by {
                assert(neighbor_pairs(self.neighbors@)[j].0 == self.neighbors@[j].ip_address);
            }
            lemma_assoc_absent(neighbor_pairs(self.neighbors@), ip_address);
        }
        None
    }

    /// No neighbour.
    pub fn new() -> (d: Self)
        ensures
            d.wf(),
            d@ == Map::<IpAddress, Seq<char>>::empty(),
    {
        let d = NeighborDiscovery { neighbors: Vec::new() };
        assert(neighbor_pairs(d.neighbors@) =~= Seq::empty());
        d
    }

    /// Records the neighbour at `ip_address` under `system_name`, replacing
    /// what was known of that address.
    pub fn add_neighbor(&mut self, ip_address: IpAddress, system_name: String)
        requires
            old(self).wf(),
        ensures
            final(self).wf(),
            final(self)@ == old(self)@.insert(ip_address, system_name@),
    {
        let n = Neighbor { ip_address, system_name };
        let ghost s0 = self.neighbors@;
        match self.find(ip_address) {
            Some(k) => {
                self.neighbors.set(k, n);
                proof {
                    assert(neighbor_pairs(self.neighbors@) =~= neighbor_pairs(s0).update(
                        k as int,
                        (neighbor_pairs(s0)[k as int].0, n.system_name@),
                    ));
                    lemma_assoc_update(neighbor_pairs(s0), k as int, n.system_name@);
                }
            },
            None => {
                proof {
                    assert forall|j: int| 0 <= j < neighbor_pairs(s0).len() implies neighbor_pairs(s0)[j].0
                        != ip_address by {
                        if neighbor_pairs(s0)[j].0 == ip_address {
                            lemma_assoc_lookup(neighbor_pairs(s0), j);
                        }
                    }
                    lemma_assoc_push(neighbor_pairs(s0), ip_address, n.system_name@);
                }
                self.neighbors.push(n);
                proof {
                    assert(neighbor_pairs(self.neighbors@) =~= neighbor_pairs(s0).push((ip_address, n.system_name@)));
                }
            },
        }
    }

    /// Forgets the neighbour at `ip_address`, if it is known.
    pub fn remove_neighbor(&mut self, ip_address: &IpAddress)
        requires
            old(self).wf(),
        ensures
            final(self).wf(),
            final(self)@ == old(self)@.remove(*ip_address),
    {
        let ghost s0 = self.neighbors@;
        match self.find(*ip_address) {
            Some(k) => {
                self.neighbors.remove(k);
                proof {
                    assert(neighbor_pairs(self.neighbors@) =~= neighbor_pairs(s0).remove(k as int));
                    lemma_assoc_remove(neighbor_pairs(s0), k as int);
                }
            },
            None => {
                assert(old(self)@.remove(*ip_address) =~= old(self)@);
            },
        }
    }

    /// The neighbours, each once.
    pub fn get_neighbors(&self) -> (r: Vec<&Neighbor>)
        requires
            self.wf(),
        ensures
            r@.len() == self@.len(),
            r@.len() == self.entries().len(),
            forall|k: int| 0 <= k < r@.len() ==> (r@[k].ip_address, r@[k].system_name@) == self.entries()[k],
            forall|k: int|
                0 <= k < r@.len() ==> self@.contains_key(r@[k].ip_address) && self@[r@[k].ip_address]
                    == r@[k].system_name@,
            forall|a: IpAddress| #[trigger] self@.contains_key(a) ==> exists|k: int| 0 <= k < r@.len() && r@[k].ip_address == a,
            forall|a: int, b: int| 0 <= a < r@.len() && 0 <= b < r@.len() && a != b ==> r@[a].ip_address != r@[b].ip_address,
    {
        let mut r: Vec<&Neighbor> = Vec::new();
        let mut i: usize = 0;
        while i < self.neighbors.len()
            invariant
                self.wf(),
                i <= self.neighbors@.len(),
                r@.len() == i,
                forall|k: int| 0 <= k < i ==> r@[k] == self.neighbors@[k],
            decreases self.neighbors.len() - i,
        {
            r.push(&self.neighbors[i]);
            i += 1;
        }
        proof {
            let pairs = neighbor_pairs(self.neighbors@);
            assert forall|k: int| 0 <= k < r@.len() implies self@.contains_key(r@[k].ip_address) && self@[r@[k].ip_address]
                == r@[k].system_name@ by {
                self.lemma_lookup(k);
            }
            assert forall|a: IpAddress| #[trigger] self@.contains_key(a) implies exists|k: int|
                0 <= k < r@.len() && r@[k].ip_address == a by {
                if forall|j: int| 0 <= j < pairs.len() ==> pairs[j].0 != a {
                    lemma_assoc_absent(pairs, a);
                }
                let j = choose|j: int| 0 <= j < pairs.len() && pairs[j].0 == a;
                assert(r@[j].ip_address == pairs[j].0);
            }
            assert forall|a: int, b: int| 0 <= a < r@.len() && 0 <= b < r@.len() && a != b implies r@[a].ip_address
                != r@[b].ip_address by {
                assert(pairs[a].0 == r@[a].ip_address);
                assert(pairs[b].0 == r@[b].ip_address);
            }
            lemma_assoc_len(pairs);
        }
        r
    }

    /// The line shown for each neighbour, in the order of `get_neighbors`.
    pub fn display_neighbors(&self) -> (lines: Vec<String>)
        requires
            self.wf(),
        ensures
            lines@.len() == self.entries().len(),
            forall|k: int| 0 <= k < lines@.len() ==> lines@[k]@ == spec_neighbor_line(self.entries()[k]),
    {
        let mut lines: Vec<String> = Vec::new();
        let mut i: usize = 0;
        while i < self.neighbors.len()
            invariant
                i <= self.neighbors@.len(),
                lines@.len() == i,
                forall|k: int| 0 <= k < i ==> lines@[k]@ == spec_neighbor_line(neighbor_pairs(self.neighbors@)[k]),
            decreases self.neighbors.len() - i,
        {
            let n = &self.neighbors[i];
            let ip = ip_address_text(n.ip_address);
            let l = concat("Neighbor IP: ", ip.as_str());
            let l = concat(l.as_str(), ", System Name: ");
            let l = concat(l.as_str(), n.system_name.as_str());
            proof {
                assert(neighbor_pairs(self.neighbors@)[i as int] == (n.ip_address, n.system_name@));
            }
            lines.push(l);
            i += 1;
        }
        lines
    }
}

/// A unique association list has as many keys as pairs.
proof fn lemma_assoc_len(s: Seq<(IpAddress, Seq<char>)>)
    requires
        assoc_unique(s),
    ensures
        assoc_map(s).len() == s.len(),
        assoc_map(s).dom().finite(),
    decreases s.len(),
{
    if s.len() > 0 {
        let t = s.drop_last();
        assert(assoc_unique(t)) by {
            assert forall|a: int, b: int| 0 <= a < t.len() && 0 <= b < t.len() && a != b implies t[a].0 != t[b].0 by {
                assert(t[a] == s[a]);
                assert(t[b] == s[b]);
            }
        }
        lemma_assoc_len(t);
        assert forall|j: int| 0 <= j < t.len() implies t[j].0 != s.last().0 by {
            assert(t[j] == s[j]);
            assert(s[s.len() - 1] == s.last());
        }
        lemma_assoc_absent(t, s.last().0);
    }
}

} // verus!
