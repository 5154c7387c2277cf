use vstd::prelude::*;
use crate::assoc::{assoc_map, assoc_unique, lemma_assoc_lookup, lemma_assoc_absent, lemma_assoc_update, lemma_assoc_push, lemma_assoc_remove};
use crate::error::ProtocolError;
use crate::net_utils::{IpAddress, SocketAddress};

verus! {

/// A network interface taken into the routing calculations.
#[derive(Debug)]
pub struct NetworkInterface {
    pub name: String,
    pub ip_address: IpAddress,
    pub is_active: bool,
    pub metric: u32,
}

/// What an interface holds besides its name.
pub struct InterfaceV {
    pub ip_address: IpAddress,
    pub is_active: bool,
    pub metric: u32,
}

impl NetworkInterface {
    pub open spec fn value(&self) -> InterfaceV {
        InterfaceV { ip_address: self.ip_address, is_active: self.is_active, metric: self.metric }
    }

    /// An active interface.
    pub fn new(name: String, ip_address: IpAddress, metric: u32) -> (r: Self)
        ensures
            r.name == name,
            r.ip_address == ip_address,
            r.is_active,
            r.metric == metric,
    {
        NetworkInterface { name, ip_address, is_active: true, metric }
    }

    /// The limited-broadcast address `255.255.255.255` on `port` for an
    /// IPv4 interface; IPv6 has no broadcast.
    pub fn get_broadcast_address(&self, port: u16) -> (r: Result<SocketAddress, ProtocolError>)
        ensures
            self.ip_address is V4 ==> r == Ok::<SocketAddress, ProtocolError>(SocketAddress { ip: 0xffff_ffff, port }),
            self.ip_address is V6 ==> (r matches Err(ProtocolError::NetworkInterface(m)) && m@
                == "IPv6 broadcast not supported"@),
    {
        match self.ip_address {
            IpAddress::V4(_) => Ok(SocketAddress { ip: 0xffff_ffff, port }),
            IpAddress::V6(_) => Err(ProtocolError::NetworkInterface("IPv6 broadcast not supported".to_string())),
        }
    }

    /// Both addresses are IPv4 and share their first three octets (a /24
    /// network).
    pub fn is_same_network(&self, other_ip: &IpAddress) -> (r: bool)
        ensures
            r == (self.ip_address matches IpAddress::V4(a) && (*other_ip matches IpAddress::V4(b) && a / 256 == b / 256)),
    {
        match (self.ip_address, *other_ip) {
            (IpAddress::V4(a), IpAddress::V4(b)) => {
                assert(a >> 8u32 == a / 256) by (bit_vector);
                assert(b >> 8u32 == b / 256) by (bit_vector);
                (a >> 8u32) == (b >> 8u32)
            },
            _ => false,
        }
    }
}

/// The name-to-interface pairs of a list of interfaces.
pub open spec fn interface_pairs(s: Seq<NetworkInterface>) -> Seq<(Seq<char>, InterfaceV)> {
    s.map_values(|i: NetworkInterface| (i.name@, i.value()))
}

/// The interfaces of a router, at most one per name.
pub struct NetworkInterfaceManager {
    interfaces: Vec<NetworkInterface>,
}

impl View for NetworkInterfaceManager {
    type V = Map<Seq<char>, InterfaceV>;

    closed spec fn view(&self) -> Map<Seq<char>, InterfaceV> {
        assoc_map(interface_pairs(self.interfaces@))
    }
}

impl NetworkInterfaceManager {
    /// Names are unique.
    pub closed spec fn wf(&self) -> bool {
        assoc_unique(interface_pairs(self.interfaces@))
    }

    proof fn lemma_lookup(&self, k: int)
        requires
            self.wf(),
            0 <= k < self.interfaces@.len(),
        ensures
            self@.contains_key(self.interfaces@[k].name@),
            self@[self.interfaces@[k].name@] == self.interfaces@[k].value(),
    {
        lemma_assoc_lookup(interface_pairs(self.interfaces@), k);
    }

    fn find(&self, name: &str) -> (r: Option<usize>)
        requires
            self.wf(),
        ensures
            match r {
                Some(k) => k < self.interfaces@.len() && self.interfaces@[k as int].name@ == name@,
                None => !self@.contains_key(name@),
            },
    {
        let d = name.to_string();
        let mut k: usize = 0;
        while k < self.interfaces.len()
            invariant
                k <= self.interfaces.len(),
                d@ == name@,
                forall|j: int| 0 <= j < k ==> self.interfaces@[j].name@ != name@,
            decreases self.interfaces.len() - k,
        {
            if self.interfaces[k].name == d {
                return Some(k);
            }
            k += 1;
        }
        proof {
            assert forall|j: int| 0 <= j < interface_pairs(self.interfaces@).len() implies interface_pairs(
                self.interfaces@,
            )[j].0 != name@ by {
                assert(interface_pairs(self.interfaces@)[j].0 == self.interfaces@[j].name@);
            }
            lemma_assoc_absent(interface_pairs(self.interfaces@), name@);
        }
        None
    }

    /// No interface.
    pub fn new() -> (m: Self)
        ensures
            m.wf(),
            m@ == Map::<Seq<char>, InterfaceV>::empty(),
    {
        let m = NetworkInterfaceManager { interfaces: Vec::new() };
        assert(interface_pairs(m.interfaces@) =~= Seq::empty());
        m
    }

    /// Adds the active interface `name`, replacing the one of that name.
    pub fn add_interface(&mut self, name: String, ip_address: IpAddress, metric: u32)
        requires
            old(self).wf(),
        ensures
            final(self).wf(),
            final(self)@ == old(self)@.insert(name@, InterfaceV { ip_address, is_active: true, metric }),
    {
        let iface = NetworkInterface { name, ip_address, is_active: true, metric };
        let ghost s0 = self.interfaces@;
        match self.find(iface.name.as_str()) {
            Some(k) => {
                self.interfaces.set(k, iface);
                proof {
                    assert(interface_pairs(self.interfaces@) =~= interface_pairs(s0).update(
                        k as int,
                        (interface_pairs(s0)[k as int].0, iface.value()),
                    ));
                    lemma_assoc_update(interface_pairs(s0), k as int, iface.value());
                }
            },
            None => {
                proof {
                    assert forall|j: int| 0 <= j < interface_pairs(s0).len() implies interface_pairs(s0)[j].0
                        != iface.name@ by {
                        if interface_pairs(s0)[j].0 == iface.name@ {
                            lemma_assoc_lookup(interface_pairs(s0), j);
                        }
                    }
                    lemma_assoc_push(interface_pairs(s0), iface.name@, iface.value());
                }
                self.interfaces.push(iface);
                proof {
                    assert(interface_pairs(self.interfaces@) =~= interface_pairs(s0).push((iface.name@, iface.value())));
                }
            },
        }
    }

    /// Removes the interface `name`, if there is one.
    pub fn remove_interface(&mut self, name: &str)
        requires
            old(self).wf(),
        ensures
            final(self).wf(),
            final(self)@ == old(self)@.remove(name@),
    {
        let ghost s0 = self.interfaces@;
        match self.find(name) {
            Some(k) => {
                self.interfaces.remove(k);
                proof {
                    assert(interface_pairs(self.interfaces@) =~= interface_pairs(s0).remove(k as int));
                    lemma_assoc_remove(interface_pairs(s0), k as int);
                }
            },
            None => {
                assert(old(self)@.remove(name@) =~= old(self)@);
            },
        }
    }

    /// Marks the interface `name` up or down; nothing changes when there is
    /// no such interface.
    pub fn set_interface_status(&mut self, name: &str, status: bool)
        requires
            old(self).wf(),
        ensures
            final(self).wf(),
            old(self)@.contains_key(name@) ==> final(self)@ == old(self)@.insert(
                name@,
                InterfaceV { is_active: status, ..old(self)@[name@] },
            ),
            !old(self)@.contains_key(name@) ==> final(self)@ == old(self)@,
    {
        let ghost s0 = self.interfaces@;
        match self.find(name) {
            Some(k) => {
                proof {
                    lemma_assoc_lookup(interface_pairs(s0), k as int);
                }
                let old_iface = &self.interfaces[k];
                let iface = NetworkInterface {
                    name: old_iface.name.clone(),
                    ip_address: old_iface.ip_address,
                    is_active: status,
                    metric: old_iface.metric,
                };
                self.interfaces.set(k, iface);
                proof {
                    assert(interface_pairs(self.interfaces@) =~= interface_pairs(s0).update(
                        k as int,
                        (interface_pairs(s0)[k as int].0, iface.value()),
                    ));
                    lemma_assoc_update(interface_pairs(s0), k as int, iface.value());
                }
            },
            None => {},
        }
    }

    /// The active interfaces, each once.
    pub fn get_active_interfaces(&self) -> (r: Vec<&NetworkInterface>)
        requires
            self.wf(),
        ensures
            forall|k: int|
                0 <= k < r@.len() ==> r@[k].is_active && self@.contains_key(r@[k].name@) && self@[r@[k].name@]
                    == r@[k].value(),
            forall|name: Seq<char>|
                self@.contains_key(name) && (#[trigger] self@[name]).is_active ==> exists|k: int|
                    0 <= k < r@.len() && r@[k].name@ == name,
            forall|a: int, b: int| 0 <= a < r@.len() && 0 <= b < r@.len() && a != b ==> r@[a].name@ != r@[b].name@,
    {
        let mut r: Vec<&NetworkInterface> = Vec::new();
        let ghost mut idx: Seq<int> = Seq::empty();
        let mut i: usize = 0;
        while i < self.interfaces.len()
            invariant
                self.wf(),
                i <= self.interfaces@.len(),
                idx.len() == r@.len(),
                forall|k: int|
                    #![trigger idx[k]]
                    0 <= k < r@.len() ==> 0 <= idx[k] < i && r@[k] == self.interfaces@[idx[k]] && r@[k].is_active,
                forall|a: int, b: int| 0 <= a < r@.len() && 0 <= b < r@.len() && a < b ==> idx[a] < idx[b],
                forall|j: int|
                    0 <= j < i && self.interfaces@[j].is_active ==> exists|k: int| 0 <= k < r@.len() && idx[k] == j,
            decreases self.interfaces.len() - i,
        {
            let ghost r0 = r@;
            let ghost idx0 = idx;
            if self.interfaces[i].is_active {
                r.push(&self.interfaces[i]);
                proof {
                    idx = idx.push(i as int);
                    assert(idx[idx.len() - 1] == i);
                    assert forall|k: int| #![trigger idx[k]] 0 <= k < r@.len() implies 0 <= idx[k] < i + 1 && r@[k] == self.interfaces@[idx[k]]
                        && r@[k].is_active by {
                        if k < r0.len() {
                            assert(idx[k] == idx0[k]);
                            assert(r@[k] == r0[k]);
                        }
                    }
                    assert forall|a: int, b: int| 0 <= a < r@.len() && 0 <= b < r@.len() && a < b implies idx[a] < idx[b] by {
                        assert(idx[a] == idx0[a]);

                        if b < r0.len() {
                            assert(idx[b] == idx0[b]);
                        }
                    }
                    assert forall|j: int| 0 <= j < i + 1 && self.interfaces@[j].is_active implies exists|k: int|
                        0 <= k < r@.len() && idx[k] == j by {
                        if j < i {
                            let k = choose|k: int| 0 <= k < r0.len() && idx0[k] == j;
                            assert(idx[k] == j);
                        } else {
                            assert(idx[r@.len() - 1] == j);
                        }
                    }
                }
            }
            i += 1;
        }
        proof {
            assert forall|k: int| 0 <= k < r@.len() implies r@[k].is_active && self@.contains_key(r@[k].name@)
                && self@[r@[k].name@] == r@[k].value() by {
                self.lemma_lookup(idx[k]);
            }
            assert forall|name: Seq<char>| self@.contains_key(name) && (#[trigger] self@[name]).is_active implies exists|k: int|
                0 <= k < r@.len() && r@[k].name@ == name by {
                let pairs = interface_pairs(self.interfaces@);
                if forall|j: int| 0 <= j < pairs.len() ==> pairs[j].0 != name {
                    lemma_assoc_absent(pairs, name);
                }
                let j = choose|j: int| 0 <= j < pairs.len() && pairs[j].0 == name;
                assert(pairs[j].0 == self.interfaces@[j].name@);
                self.lemma_lookup(j);
                let k = choose|k: int| 0 <= k < r@.len() && idx[k] == j;
                assert(r@[k].name@ == name);
            }
            assert forall|a: int, b: int| 0 <= a < r@.len() && 0 <= b < r@.len() && a != b implies r@[a].name@
                != r@[b].name@ by {
                let pairs = interface_pairs(self.interfaces@);
                assert(pairs[idx[a]].0 == self.interfaces@[idx[a]].name@);
                assert(pairs[idx[b]].0 == self.interfaces@[idx[b]].name@);
            }
        }
        r
    }

    /// The interface `name`, if there is one.
    pub fn get_interface(&self, name: &str) -> (r: Option<&NetworkInterface>)
        requires
            self.wf(),
        ensures
            self@.contains_key(name@) <==> r is Some,
            r matches Some(i) ==> i.name@ == name@ && self@[name@] == i.value(),
    {
        match self.find(name) {
            Some(k) => {
                proof {
                    self.lemma_lookup(k as int);
                }
                Some(&self.interfaces[k])
            },
            None => None,
        }
    }
}

} // verus!
