use vstd::prelude::*;
use crate::types::{HelloMessage, LSAMessage, Neighbor, NeighborV, RouteEntry, RouteEntryV, RouteState, neighbor_seq, entry_seq, str_seq};
use crate::error::AppError;
use crate::state::AppState;
use crate::net_utils::{IpAddress, IpNet, LocalAddress, SocketAddress, determine_receiving_interface, calculate_broadcast_for_interface, spec_broadcast, spec_ipv4_net_text, ipv4_net_to_string, on_sender_network, usable_local};
use crate::neighbor::{update_neighbor, neighbor_updated, unique_neighbors};
use crate::lsa::contains_string;
use crate::text::{spec_decimal, u64_to_decimal, concat, join, spec_join};

verus! {

/// A datagram as the packet loop reads it.
#[derive(Debug)]
pub enum Incoming {
    /// A HELLO (type 1) from the router at `router_ip`.
    Hello { router_ip: String },
    /// A link-state advertisement (type 2).
    Lsa(LSAMessage),
    /// A control message (type 3) and its command, if it has one.
    Control { command: Option<String> },
    /// Anything else: another type, no type, or no message at all.
    Other,
}

/// What the packet loop does after a datagram, in order.
#[derive(Debug)]
pub enum Action {
    /// Recompute the routing table; `delayed`: after a short pause, in the
    /// background.
    RecomputeRoutes { delayed: bool },
    /// Send this router's advertisement, with these header fields, to `addr`.
    SendLsa { addr: SocketAddress, router_ip: String, originator: String, seq_num: u32, path: Vec<String> },
    /// Record the received advertisement in the link-state database.
    RecordLsa,
    /// Forward the received advertisement from `local_ip` along `path`.
    ForwardLsa { local_ip: String, path: Vec<String> },
    /// Answer the sender with `text`.
    Reply(String),
    /// Stop the packet loop with this error.
    Fail(AppError),
}

/// Text of a route state, as `Debug` writes it.
pub open spec fn spec_state_text(s: RouteState) -> Seq<char> {
    match s {
        RouteState::Active(m) => "Active("@ + spec_decimal(m as nat) + ")"@,
        RouteState::Unreachable => "Unreachable"@,
    }
}

pub fn route_state_text(s: RouteState) -> (r: String)
    ensures
        r@ == spec_state_text(s),
{
    match s {
        RouteState::Active(m) => {
            let d = u64_to_decimal(m as u64);
            let r = concat("Active(", d.as_str());
            concat(r.as_str(), ")")
        },
        RouteState::Unreachable => "Unreachable".to_string(),
    }
}

/// One line of the routing-table answer: `dest -> next_hop (state)`.
pub open spec fn spec_route_line(e: RouteEntryV) -> Seq<char> {
    e.destination + " -> "@ + e.next_hop + " ("@ + spec_state_text(e.state) + ")"@
}

/// The answer to `routing-table`.
pub open spec fn spec_routing_table_text(t: Seq<RouteEntryV>) -> Seq<char> {
    if t.len() == 0 {
        "Table de routage vide"@
    } else {
        spec_join(t.map_values(|e: RouteEntryV| spec_route_line(e)), "\n"@)
    }
}

/// The answer to `routing-table`: one line per route, or a notice that the
/// table is empty.
pub fn routing_table_text(table: &Vec<RouteEntry>) -> (r: String)
    ensures
        r@ == spec_routing_table_text(entry_seq(table@)),
{
    if table.len() == 0 {
        return "Table de routage vide".to_string();
    }
    let mut lines: Vec<String> = Vec::new();
    let mut i: usize = 0;
    while i < table.len()
        invariant
            i <= table.len(),
            lines.len() == i,
            forall|k: int| 0 <= k < i ==> #[trigger] lines@[k]@ == spec_route_line(table@[k]@),
        decreases table.len() - i,
    {
        let e = &table[i];
        let st = route_state_text(e.state);
        let l = concat(e.destination.as_str(), " -> ");
        let l = concat(l.as_str(), e.next_hop.as_str());
        let l = concat(l.as_str(), " (");
        let l = concat(l.as_str(), st.as_str());
        let l = concat(l.as_str(), ")");
        lines.push(l);
        i += 1;
    }
    let r = join(&lines, "\n");
    assert(lines@.map_values(|s: String| s@) =~= entry_seq(table@).map_values(|e: RouteEntryV| spec_route_line(e)));
    r
}

/// Seconds since `last_seen` at `now`, 0 if `last_seen` is later.
pub open spec fn spec_age(now: u64, last_seen: u64) -> u64 {
    if now >= last_seen {
        (now - last_seen) as u64
    } else {
        0
    }
}

/// One line of the neighbours answer.
pub open spec fn spec_neighbor_line(n: NeighborV, now: u64) -> Seq<char> {
    n.neighbor_ip + " (dernière activité: il y a "@ + spec_decimal(spec_age(now, n.last_seen) as nat) + " secondes)"@
}

/// The answer to `neighbors`.
pub open spec fn spec_neighbors_text(s: Seq<NeighborV>, now: u64) -> Seq<char> {
    if s.len() == 0 {
        "Aucun voisin détecté"@
    } else {
        spec_join(s.map_values(|n: NeighborV| spec_neighbor_line(n, now)), "\n"@)
    }
}

/// The answer to `neighbors`: each neighbour with the seconds since its
/// last HELLO, or a notice that there is none.
pub fn neighbors_text(neighbors: &Vec<Neighbor>, now: u64) -> (r: String)
    ensures
        r@ == spec_neighbors_text(neighbor_seq(neighbors@), now),
{
    if neighbors.len() == 0 {
        return "Aucun voisin détecté".to_string();
    }
    let mut lines: Vec<String> = Vec::new();
    let mut i: usize = 0;
    while i < neighbors.len()
        invariant
            i <= neighbors.len(),
            lines.len() == i,
            forall|k: int| 0 <= k < i ==> #[trigger] lines@[k]@ == spec_neighbor_line(neighbors@[k]@, now),
        decreases neighbors.len() - i,
    {
        let n = &neighbors[i];
        let age = now.saturating_sub(n.last_seen);
        let d = u64_to_decimal(age);
        let l = concat(n.neighbor_ip.as_str(), " (dernière activité: il y a ");
        let l = concat(l.as_str(), d.as_str());
        let l = concat(l.as_str(), " secondes)");
        lines.push(l);
        i += 1;
    }
    let r = join(&lines, "\n");
    assert(lines@.map_values(|s: String| s@) =~= neighbor_seq(neighbors@).map_values(|n: NeighborV| spec_neighbor_line(n, now)));
    r
}

/// The answer to an unknown command.
pub open spec fn spec_unknown_command_text(c: Seq<char>) -> Seq<char> {
    "Commande inconnue: '"@ + c + "'. Utilisez 'help' pour voir les commandes disponibles."@
}

/// The effect of a control command on whether the protocol is on.
pub open spec fn spec_control_enabled(enabled: bool, command: Option<Seq<char>>) -> bool {
    match command {
        Some(c) => if c == "enable"@ {
            true
        } else if c == "disable"@ {
            false
        } else {
            enabled
        },
        None => enabled,
    }
}

/// The answer to a control command, given the routing table and neighbours.
pub open spec fn spec_control_reply(command: Option<Seq<char>>, table: Seq<RouteEntryV>, neighbors: Seq<NeighborV>, now: u64) -> Seq<char> {
    match command {
        Some(c) => if c == "connexion"@ {
            "Connexion établie avec succès"@
        } else if c == "enable"@ {
            "Protocole OSPF activé"@
        } else if c == "disable"@ {
            "Protocole OSPF désactivé"@
        } else if c == "routing-table"@ {
            spec_routing_table_text(table)
        } else if c == "neighbors"@ {
            spec_neighbors_text(neighbors, now)
        } else {
            spec_unknown_command_text(c)
        },
        None => "Erreur: message de contrôle sans commande"@,
    }
}

/// `s` equals the literal `lit`.
fn str_is(s: &String, lit: &str) -> (r: bool)
    ensures
        r == (s@ == lit@),
{
    *s == lit.to_string()
}

/// A sender address is one of this router's own addresses.
pub open spec fn is_own_address(local_ips: Seq<LocalAddress>, a: IpAddress) -> bool {
    exists|i: int| 0 <= i < local_ips.len() && (#[trigger] local_ips[i]).ip == a
}

pub fn own_address(local_ips: &Vec<LocalAddress>, a: IpAddress) -> (r: bool)
    ensures
        r == is_own_address(local_ips@, a),
{
    let mut i: usize = 0;
    while i < local_ips.len()
        invariant
            i <= local_ips.len(),
            forall|j: int| 0 <= j < i ==> local_ips@[j].ip != a,
        decreases local_ips.len() - i,
    {
        if local_ips[i].ip == a {
            return true;
        }
        i += 1;
    }
    false
}

/// The pair (originator, sequence number) occurs among `seen`.
pub open spec fn seen_lsa(seen: Seq<(String, u32)>, originator: Seq<char>, seq: u32) -> bool {
    exists|i: int| 0 <= i < seen.len() && (#[trigger] seen[i]).0@ == originator && seen[i].1 == seq
}

/// Once an advertisement has been recorded as seen, it stays seen, and so
/// does every advertisement seen before: a copy that arrives again is a
/// duplicate.
pub proof fn law_recorded_lsa_is_seen(seen: Seq<(String, u32)>, originator: String, seq: u32, other: Seq<char>, other_seq: u32)
    ensures
        seen_lsa(seen.push((originator, seq)), originator@, seq),
        seen_lsa(seen, other, other_seq) ==> seen_lsa(seen.push((originator, seq)), other, other_seq),
{
    let t = seen.push((originator, seq));
    assert(t[seen.len() as int] == (originator, seq));
    if seen_lsa(seen, other, other_seq) {
        let i = choose|i: int| 0 <= i < seen.len() && (#[trigger] seen[i]).0@ == other && seen[i].1 == other_seq;
        assert(t[i] == seen[i]);
    }
}

fn contains_lsa(seen: &Vec<(String, u32)>, originator: &String, seq: u32) -> (r: bool)
    ensures
        r == seen_lsa(seen@, originator@, seq),
{
    let mut i: usize = 0;
    while i < seen.len()
        invariant
            i <= seen.len(),
            forall|j: int| 0 <= j < i ==> !(seen@[j].0@ == originator@ && seen@[j].1 == seq),
        decreases seen.len() - i,
    {
        if seen[i].1 == seq && seen[i].0 == *originator {
            return true;
        }
        i += 1;
    }
    false
}

/// The advertisement of this router that answers a HELLO received on
/// interface network `net`: sent to the network's broadcast address, from
/// the network's text (`a.b.c.d/p`) as sender, originator and path.
pub open spec fn hello_answer(a: Action, net: IpNet, now: u64, port: u16) -> bool {
    a matches Action::SendLsa { addr, router_ip, originator, seq_num, path } && net matches IpNet::V4 { addr: ia, prefix }
        && addr == (SocketAddress { ip: spec_broadcast(ia, prefix), port }) && router_ip@ == spec_ipv4_net_text(ia, prefix)
        && originator@ == router_ip@ && seq_num == now as u32 && str_seq(path@) == seq![router_ip@]
}

/// The optional command text of a control message.
pub open spec fn opt_str_view(c: Option<&String>) -> Option<Seq<char>> {
    match c {
        Some(s) => Some(s@),
        None => None,
    }
}

/// `s1` and `acts` are what handling a HELLO from `router_ip`, received on
/// interface network `net` at `now`, makes of `s0`: nothing while the
/// protocol is off; otherwise the neighbour is recorded, routes are
/// recomputed in the background and this router's advertisement is
/// broadcast on that network (an IPv6 network stops the loop instead).
pub open spec fn hello_handled(s0: AppState, s1: AppState, acts: Seq<Action>, router_ip: Seq<char>, net: IpNet, now: u64, port: u16) -> bool {
    &&& s1.topology == s0.topology
    &&& s1.routing_table == s0.routing_table
    &&& s1.processed_lsa == s0.processed_lsa
    &&& s1.enabled == s0.enabled
    &&& s1.config == s0.config
    &&& s1.local_ip == s0.local_ip
    &&& s1.key == s0.key
    &&& !s0.enabled ==> acts.len() == 0 && s1.neighbors == s0.neighbors
    &&& s0.enabled ==> {
        &&& neighbor_updated(neighbor_seq(s0.neighbors@), neighbor_seq(s1.neighbors@), router_ip, now, s0.config.interfaces@)
        &&& acts.len() == 2
        &&& acts[0] matches Action::RecomputeRoutes { delayed: true }
        &&& match net {
            IpNet::V4 { .. } => hello_answer(acts[1], net, now, port),
            IpNet::V6 { .. } => acts[1] matches Action::Fail(AppError::NetworkError(m)) && m@ == "Invalid IPv4 network"@,
        }
    }
}

/// `s1` and `acts` are what handling `lsa`, received on `receiving_ip`,
/// network `net`, makes of `s0`: nothing while the protocol is off; a copy
/// already seen (same originator and sequence number), one whose time to
/// live is over, one of this router, or one whose path passes through this
/// router leaves all but the seen set alone; any other recomputes the
/// routes, is recorded and is forwarded along its path extended with this
/// router (an IPv6 network stops the loop before forwarding).
pub open spec fn lsa_handled(s0: AppState, s1: AppState, acts: Seq<Action>, lsa: LSAMessage, receiving_ip: Seq<char>, net: IpNet, port: u16) -> bool {
    &&& s1.topology == s0.topology
    &&& s1.neighbors == s0.neighbors
    &&& s1.routing_table == s0.routing_table
    &&& s1.enabled == s0.enabled
    &&& s1.config == s0.config
    &&& s1.local_ip == s0.local_ip
    &&& s1.key == s0.key
    &&& !s0.enabled ==> acts.len() == 0 && s1.processed_lsa == s0.processed_lsa
    &&& s0.enabled ==> {
        let dup = seen_lsa(s0.processed_lsa@, lsa.originator@, lsa.seq_num);
        &&& dup ==> s1.processed_lsa == s0.processed_lsa
        &&& !dup ==> s1.processed_lsa@.len() == s0.processed_lsa@.len() + 1
            && s1.processed_lsa@.drop_last() == s0.processed_lsa@
            && s1.processed_lsa@.last().0@ == lsa.originator@
            && s1.processed_lsa@.last().1 == lsa.seq_num
        &&& if !dup && lsa.ttl > 0 && lsa.originator@ != receiving_ip && !str_seq(lsa.path@).contains(receiving_ip) {
            &&& acts.len() == 3
            &&& acts[0] matches Action::RecomputeRoutes { delayed: false }
            &&& acts[1] matches Action::RecordLsa
            &&& match net {
                IpNet::V4 { .. } => acts[2] matches Action::ForwardLsa { local_ip, path } && local_ip@ == receiving_ip
                    && str_seq(path@) == str_seq(lsa.path@).push(receiving_ip),
                IpNet::V6 { .. } => acts[2] matches Action::Fail(AppError::NetworkError(m)) && m@ == "Invalid IPv4 network"@,
            }
        } else {
            acts.len() == 0
        }
    }
}

/// `s1` and `acts` are what a control message with `command` at `now` makes
/// of `s0`: `enable` and `disable` turn the protocol on and off; every
/// command gets its answer.
pub open spec fn control_handled(s0: AppState, s1: AppState, acts: Seq<Action>, command: Option<Seq<char>>, now: u64) -> bool {
    &&& s1.topology == s0.topology
    &&& s1.neighbors == s0.neighbors
    &&& s1.routing_table == s0.routing_table
    &&& s1.processed_lsa == s0.processed_lsa
    &&& s1.config == s0.config
    &&& s1.local_ip == s0.local_ip
    &&& s1.key == s0.key
    &&& s1.enabled == spec_control_enabled(s0.enabled, command)
    &&& acts.len() == 1
    &&& acts[0] matches Action::Reply(t) && t@ == spec_control_reply(
        command,
        entry_seq(s0.routing_table@),
        neighbor_seq(s0.neighbors@),
        now,
    )
}

/// Local address `i` is the one on which a packet from `sender` arrived:
/// the first on an IPv4 network containing the sender, else (when there is
/// none) the first usable IPv4 address.
pub open spec fn is_receiving(local_ips: Seq<LocalAddress>, sender: IpAddress, i: int) -> bool {
    &&& 0 <= i < local_ips.len()
    &&& {
        ||| on_sender_network(local_ips[i], sender) && forall|j: int| 0 <= j < i ==> !on_sender_network(local_ips[j], sender)
        ||| (forall|j: int| 0 <= j < local_ips.len() ==> !on_sender_network(local_ips[j], sender)) && usable_local(local_ips[i])
            && forall|j: int| 0 <= j < i ==> !usable_local(local_ips[j])
    }
}

/// No local address can receive a packet from `sender`.
pub open spec fn no_receiving(local_ips: Seq<LocalAddress>, sender: IpAddress) -> bool {
    forall|j: int| 0 <= j < local_ips.len() ==> !on_sender_network(local_ips[j], sender) && !usable_local(local_ips[j])
}

/// `s1` and `acts` are what handling `msg`, received on the local address
/// of text `receiving_ip` and network `net` at `now`, makes of `s0`.
pub open spec fn datagram_handled(s0: AppState, s1: AppState, acts: Seq<Action>, msg: Incoming, receiving_ip: Seq<char>, net: IpNet, now: u64, port: u16) -> bool {
    match msg {
        Incoming::Hello { router_ip } => hello_handled(s0, s1, acts, router_ip@, net, now, port),
        Incoming::Lsa(lsa) => lsa_handled(s0, s1, acts, lsa, receiving_ip, net, port),
        Incoming::Control { command } => control_handled(s0, s1, acts, match command { Some(c) => Some(c@), None => None }, now),
        Incoming::Other => acts.len() == 0 && s1 == s0,
    }
}

impl AppState {
    /// A HELLO from `router_ip` received on interface network `net` at `now`:
    /// ignored while the protocol is off; otherwise the neighbour is
    /// recorded, routes are recomputed in the background and this router's
    /// advertisement is broadcast on that network (an IPv6 network stops the
    /// loop instead).
    pub fn handle_hello(&mut self, router_ip: &str, net: IpNet, now: u64, port: u16) -> (acts: Vec<Action>)
        requires
            old(self).wf(),
            net matches IpNet::V4 { prefix, .. } ==> prefix <= 32,
        ensures
            final(self).wf(),
            hello_handled(*old(self), *final(self), acts@, router_ip@, net, now, port),
    {
        let mut acts: Vec<Action> = Vec::new();
        if !self.enabled {
            return acts;
        }
        update_neighbor(&mut self.neighbors, router_ip, now, &self.config.interfaces);
        acts.push(Action::RecomputeRoutes { delayed: true });
        let ghost acts0 = acts@;
        match calculate_broadcast_for_interface(router_ip, net, port) {
            Ok(addr) => {
                if let IpNet::V4 { addr: ia, prefix } = net {
                    let prefix_text = ipv4_net_to_string(ia, prefix);
                    let mut path: Vec<String> = Vec::new();
                    path.push(prefix_text.clone());
                    assert(str_seq(path@) =~= seq![prefix_text@]);
                    acts.push(Action::SendLsa {
                        addr,
                        router_ip: prefix_text.clone(),
                        originator: prefix_text,
                        seq_num: now as u32,
                        path,
                    });
                }
            },
            Err(e) => {
                acts.push(Action::Fail(e));
            },
        }
        assert(acts@[0] == acts0[0]);
        acts
    }

    /// A link-state advertisement received on `receiving_ip`, network `net`:
    /// ignored while the protocol is off; a copy already seen (same
    /// originator and sequence number), one whose time to live is over, one
    /// of this router, or one whose path passes through this router leaves
    /// all but the seen set alone; any other recomputes the routes, is
    /// recorded and is forwarded along its path extended with this router
    /// (an IPv6 network stops the loop before forwarding).
    pub fn handle_lsa(&mut self, lsa: &LSAMessage, receiving_ip: &str, net: IpNet, port: u16) -> (acts: Vec<Action>)
        requires
            old(self).wf(),
            net matches IpNet::V4 { prefix, .. } ==> prefix <= 32,
        ensures
            final(self).wf(),
            lsa_handled(*old(self), *final(self), acts@, *lsa, receiving_ip@, net, port),
    {
        let mut acts: Vec<Action> = Vec::new();
        if !self.enabled {
            return acts;
        }
        let dup = contains_lsa(&self.processed_lsa, &lsa.originator, lsa.seq_num);
        if !dup {
            self.processed_lsa.push((lsa.originator.clone(), lsa.seq_num));
            assert(self.processed_lsa@.drop_last() =~= old(self).processed_lsa@);
        }
        if dup || lsa.ttl == 0 {
            return acts;
        }
        let local = receiving_ip.to_string();
        if lsa.originator == local {
            return acts;
        }
        if contains_string(&lsa.path, &local) {
            return acts;
        }
        acts.push(Action::RecomputeRoutes { delayed: false });
        acts.push(Action::RecordLsa);
        let ghost acts0 = acts@;
        match calculate_broadcast_for_interface(receiving_ip, net, port) {
            Ok(_) => {
                let mut path: Vec<String> = crate::types::clone_strings(&lsa.path);
                path.push(local.clone());
                assert(str_seq(path@) =~= str_seq(lsa.path@).push(local@));
                acts.push(Action::ForwardLsa { local_ip: local, path });
            },
            Err(e) => {
                acts.push(Action::Fail(e));
            },
        }
        assert(acts@[0] == acts0[0]);
        assert(acts@[1] == acts0[1]);
        acts
    }

    /// A control command (or a control message without one) at `now`:
    /// `enable` and `disable` turn the protocol on and off; every command
    /// gets its answer.
    pub fn handle_control(&mut self, command: Option<&String>, now: u64) -> (acts: Vec<Action>)
        ensures
            control_handled(*old(self), *final(self), acts@, opt_str_view(command), now),
    {
        let mut acts: Vec<Action> = Vec::new();
        proof {
            reveal_strlit("connexion");
            reveal_strlit("enable");
            reveal_strlit("disable");
            reveal_strlit("routing-table");
            reveal_strlit("neighbors");
        }
        let text = match command {
            Some(c) => {
                if str_is(c, "connexion") {
                    assert("connexion"@.len() == 9);
                    assert("enable"@.len() == 6);
                    assert(c@ != "enable"@);
                    assert(c@ != "disable"@);
                    "Connexion établie avec succès".to_string()
                } else if str_is(c, "enable") {
                    self.enable();
                    assert(c@ == "enable"@);
                    assert(self.enabled);
                    "Protocole OSPF activé".to_string()
                } else if str_is(c, "disable") {
                    self.disable();
                    "Protocole OSPF désactivé".to_string()
                } else if str_is(c, "routing-table") {
                    assert(c@ != "enable"@);
                    routing_table_text(&self.routing_table)
                } else if str_is(c, "neighbors") {
                    neighbors_text(&self.neighbors, now)
                } else {
                    let t = concat("Commande inconnue: '", c.as_str());
                    concat(t.as_str(), "'. Utilisez 'help' pour voir les commandes disponibles.")
                }
            },
            None => "Erreur: message de contrôle sans commande".to_string(),
        };
        assert(self.enabled == spec_control_enabled(old(self).enabled, match command { Some(c) => Some(c@), None => None }));
        acts.push(Action::Reply(text));
        acts
    }

    /// One datagram from `sender` at `now`: the router's own datagrams and
    /// those for which no receiving interface is found are dropped; the
    /// others are handled by kind.
    pub fn on_datagram(&mut self, sender: IpAddress, msg: &Incoming, local_ips: &Vec<LocalAddress>, now: u64, port: u16) -> (acts: Vec<Action>)
        requires
            old(self).wf(),
            forall|i: int| 0 <= i < local_ips.len() ==> (#[trigger] local_ips@[i].network matches IpNet::V4 { prefix, .. } ==> prefix <= 32),
        ensures
            final(self).wf(),
            is_own_address(local_ips@, sender) ==> acts@.len() == 0 && *final(self) == *old(self),
            msg matches Incoming::Other ==> acts@.len() == 0 && *final(self) == *old(self),
            !is_own_address(local_ips@, sender) && no_receiving(local_ips@, sender) ==> acts@.len() == 0
                && *final(self) == *old(self),
            !is_own_address(local_ips@, sender) && !no_receiving(local_ips@, sender) ==> exists|i: int|
                #[trigger] is_receiving(local_ips@, sender, i) && datagram_handled(
                    *old(self),
                    *final(self),
                    acts@,
                    *msg,
                    local_ips@[i].text@,
                    local_ips@[i].network,
                    now,
                    port,
                ),
    {
        if own_address(local_ips, sender) {
            return Vec::new();
        }
        let (receiving_ip, net) = match determine_receiving_interface(sender, local_ips) {
            Ok(x) => x,
            Err(_) => {
                return Vec::new();
            },
        };
        let ghost k = choose|i: int|
            0 <= i < local_ips.len() && receiving_ip@ == (#[trigger] local_ips@[i]).text@ && net == local_ips@[i].network
                && ((on_sender_network(local_ips@[i], sender) && forall|j: int|
                0 <= j < i ==> !on_sender_network(local_ips@[j], sender)) || ((forall|j: int|
                0 <= j < local_ips.len() ==> !on_sender_network(local_ips@[j], sender)) && usable_local(local_ips@[i])
                && forall|j: int| 0 <= j < i ==> !usable_local(local_ips@[j])));
        assert(is_receiving(local_ips@, sender, k));
        assert(!no_receiving(local_ips@, sender));
        match msg {
            Incoming::Hello { router_ip } => self.handle_hello(router_ip.as_str(), net, now, port),
            Incoming::Lsa(lsa) => self.handle_lsa(lsa, receiving_ip.as_str(), net, port),
            Incoming::Control { command } => self.handle_control(command.as_ref(), now),
            Incoming::Other => Vec::new(),
        }
    }
}

} // verus!
