use vstd::prelude::*;
use vstd::utf8::{valid_utf8, encode_utf8};
use crate::net_utils::{IpAddress, parse_ipv4, spec_parse_ipv4, ipv4_to_string, spec_ipv4_text};
use crate::text::{
    split_whitespace, spec_split_whitespace, parse_u32, parse_u64, spec_parse_unsigned, pad_right, spec_pad,
    u64_to_decimal, spec_decimal, concat,
};
use crate::protocol::packet_parser::utf8_text;
use crate::ospf::types::{Link, LinkState, OSPFMessage, RoutingEntry, RoutingEntryV};
use crate::ospf::protocol::{
    OSPFProtocol, table_view, lsa_accepted, ospf_fits, routes_for, after_hello,
};
use crate::assoc::upsert;

verus! {

/// Why a legacy link command was refused.
#[derive(Debug, Clone, Copy, PartialEq, Eq, Structural)]
pub enum ManagerError {
    /// The command is not UTF-8.
    InvalidUtf8,
    /// The first word is not an IPv4 address.
    InvalidAddress,
    /// The second word is not a `u32` cost.
    InvalidCost,
    /// The third word is not a `u64` capacity.
    InvalidCapacity,
}

/// A legacy link command: `<neighbour> <cost> <capacity> <state> ...`.
#[derive(Debug, Clone, Copy, PartialEq, Eq, Structural)]
pub struct LegacyCommand {
    pub neighbor_ip: u32,
    pub cost: u32,
    pub capacity: u64,
    pub state: LinkState,
}

/// The link state a word names: `Up` or `Active` is up, anything else down.
pub open spec fn spec_link_state(w: Seq<char>) -> LinkState {
    if w == "Up"@ || w == "Active"@ {
        LinkState::Up
    } else {
        LinkState::Down
    }
}

/// What a legacy command reads as: an error for the first word (in
/// order) that does not parse, nothing when there are fewer than four
/// words, else the command.
pub open spec fn spec_legacy(data: Seq<u8>) -> Result<Option<LegacyCommand>, ManagerError> {
    if !valid_utf8(data) {
        Err(ManagerError::InvalidUtf8)
    } else {
        let text = choose|t: Seq<char>| encode_utf8(t) == data;
        let parts = spec_split_whitespace(text);
        if parts.len() < 4 {
            Ok(None)
        } else if spec_parse_ipv4(parts[0]) is None {
            Err(ManagerError::InvalidAddress)
        } else if spec_parse_unsigned(parts[1], u32::MAX as nat) is None {
            Err(ManagerError::InvalidCost)
        } else if spec_parse_unsigned(parts[2], u64::MAX as nat) is None {
            Err(ManagerError::InvalidCapacity)
        } else {
            Ok(
                Some(
                    LegacyCommand {
                        neighbor_ip: spec_parse_ipv4(parts[0])->0,
                        cost: spec_parse_unsigned(parts[1], u32::MAX as nat)->0 as u32,
                        capacity: spec_parse_unsigned(parts[2], u64::MAX as nat)->0 as u64,
                        state: spec_link_state(parts[3]),
                    },
                ),
            )
        }
    }
}

/// The fourth word of a legacy command sets the link's state: `Up` and
/// `Active` both give an up link, any other word a down one.
pub proof fn law_legacy_state_word(data: Seq<u8>, text: Seq<char>, c: LegacyCommand)
    requires
        encode_utf8(text) == data,
        spec_legacy(data) == Ok::<Option<LegacyCommand>, ManagerError>(Some(c)),
    ensures
        spec_split_whitespace(text).len() >= 4,
        spec_split_whitespace(text)[3] == "Up"@ ==> c.state == LinkState::Up,
        spec_split_whitespace(text)[3] == "Active"@ ==> c.state == LinkState::Up,
        spec_split_whitespace(text)[3] != "Up"@ && spec_split_whitespace(text)[3] != "Active"@ ==> c.state
            == LinkState::Down,
{
    let t = choose|t: Seq<char>| encode_utf8(t) == data;
    assert(encode_utf8(t) == data);
    lemma_encode_injective(t, text);
}

proof fn lemma_encode_injective(a: Seq<char>, b: Seq<char>)
    requires
        encode_utf8(a) == encode_utf8(b),
    ensures
        a == b,
{
    vstd::utf8::encode_utf8_decode_utf8(a);
    vstd::utf8::encode_utf8_decode_utf8(b);
}

fn state_of(w: &String) -> (s: LinkState)
    ensures
        s == spec_link_state(w@),
{
    let up = "Up".to_string();
    let active = "Active".to_string();
    if *w == up || *w == active {
        LinkState::Up
    } else {
        LinkState::Down
    }
}

/// Reads a legacy link command.
pub fn parse_legacy_message(data: &[u8]) -> (r: Result<Option<LegacyCommand>, ManagerError>)
    ensures
        r == spec_legacy(data@),
{
    let text = match utf8_text(data) {
        Some(t) => t,
        None => return Err(ManagerError::InvalidUtf8),
    };
    proof {
        let t = choose|t: Seq<char>| encode_utf8(t) == data@;
        lemma_encode_injective(t, text@);
    }
    let parts = split_whitespace(text.as_str());
    let ghost pv = parts@.map_values(|w: String| w@);
    if parts.len() < 4 {
        return Ok(None);
    }
    assert(pv[0] == parts@[0]@ && pv[1] == parts@[1]@ && pv[2] == parts@[2]@ && pv[3] == parts@[3]@);
    let neighbor_ip = match parse_ipv4(parts[0].as_str()) {
        Ok(a) => a,
        Err(_) => return Err(ManagerError::InvalidAddress),
    };
    let cost = match parse_u32(parts[1].as_str()) {
        Some(c) => c,
        None => return Err(ManagerError::InvalidCost),
    };
    let capacity = match parse_u64(parts[2].as_str()) {
        Some(c) => c,
        None => return Err(ManagerError::InvalidCapacity),
    };
    let state = state_of(&parts[3]);
    Ok(Some(LegacyCommand { neighbor_ip, cost, capacity, state }))
}

/// The link a legacy command adds at time `now`: to the neighbour, on the
/// neighbour's address.
pub open spec fn command_link(c: LegacyCommand, now: u64) -> Link {
    Link {
        neighbor_id: c.neighbor_ip,
        interface_addr: c.neighbor_ip,
        cost: c.cost,
        capacity: c.capacity,
        state: c.state,
        last_hello: now,
    }
}

/// The table's heading.
pub open spec fn table_heading() -> Seq<char> {
    "=== Table de Routage ===\n"@ + "Destination     | Next Hop       | Cost | Interface\n"@
        + "----------------|----------------|------|----------\n"@
}

/// The line of a route.
pub open spec fn spec_entry_line(e: RoutingEntryV) -> Seq<char> {
    spec_pad(spec_ipv4_text(e.destination), 15) + " | "@ + spec_pad(spec_ipv4_text(e.next_hop), 14) + " | "@
        + spec_pad(spec_decimal(e.cost as nat), 4) + " | "@ + e.interface + "\n"@
}

/// The lines of some routes.
pub open spec fn spec_entry_lines(t: Seq<RoutingEntryV>) -> Seq<char>
    decreases t.len(),
{
    if t.len() == 0 {
        Seq::empty()
    } else {
        spec_entry_lines(t.drop_last()) + spec_entry_line(t.last())
    }
}

fn entry_line(e: &RoutingEntry) -> (r: String)
    ensures
        r@ == spec_entry_line(e@),
{
    let d = pad_right(ipv4_to_string(e.destination).as_str(), 15);
    let h = pad_right(ipv4_to_string(e.next_hop).as_str(), 14);
    let c = pad_right(u64_to_decimal(e.cost as u64).as_str(), 4);
    let r = concat(d.as_str(), " | ");
    let r = concat(r.as_str(), h.as_str());
    let r = concat(r.as_str(), " | ");
    let r = concat(r.as_str(), c.as_str());
    let r = concat(r.as_str(), " | ");
    let r = concat(r.as_str(), e.interface.as_str());
    concat(r.as_str(), "\n")
}

/// The routing table as text: a heading, then one line per route with
/// destination, next hop and cost padded to columns, and the interface.
pub fn format_routing_table(table: &Vec<RoutingEntry>) -> (r: String)
    ensures
        r@ == table_heading() + spec_entry_lines(table_view(table@)),
{
    let mut response = "=== Table de Routage ===\n".to_string();
    response.append("Destination     | Next Hop       | Cost | Interface\n");
    response.append("----------------|----------------|------|----------\n");
    let ghost tv = table_view(table@);
    let mut i: usize = 0;
    while i < table.len()
        invariant
            i <= table@.len(),
            tv == table_view(table@),
            response@ == table_heading() + spec_entry_lines(tv.take(i as int)),
        decreases table.len() - i,
    {
        let e = &table[i];
        let line = entry_line(e);
        response.append(line.as_str());
        proof {
            assert(tv.take(i + 1).drop_last() =~= tv.take(i as int));
            assert(tv.take(i + 1).last() == e@);
            assert(response@ =~= table_heading() + spec_entry_lines(tv.take(i + 1)));
        }
        i += 1;
    }
    assert(tv.take(tv.len() as int) =~= tv);
    response
}

/// Handles a legacy link command received at `now`: the link it names is
/// added (or replaced), the routing table recomputed, and the result is
/// the table as text.  With fewer than four words nothing happens.
pub fn handle_legacy_message_at(ospf: &mut OSPFProtocol, data: &[u8], now: u64) -> (r: Result<
    Option<String>,
    ManagerError,
>)
    requires
        old(ospf).wf(),
        spec_legacy(data@) matches Ok(Some(_)) ==> ospf_fits(old(ospf).lsa_entries(), old(ospf).router_id()),
    ensures
        final(ospf).wf(),
        match spec_legacy(data@) {
            Err(e) => r == Err::<Option<String>, ManagerError>(e) && final(ospf).link_entries() == old(ospf).link_entries()
                && final(ospf).table() == old(ospf).table(),
            Ok(None) => r matches Ok(None) && final(ospf).link_entries() == old(ospf).link_entries()
                && final(ospf).table() == old(ospf).table(),
            Ok(Some(c)) => final(ospf).link_entries() == upsert(
                old(ospf).link_entries(),
                c.neighbor_ip,
                command_link(c, now),
            ) && final(ospf).table() == routes_for(
                old(ospf).lsa_entries(),
                old(ospf).router_id(),
                final(ospf).link_entries(),
            ) && (r matches Ok(Some(text)) && text@ == table_heading() + spec_entry_lines(final(ospf).table())),
        },
        final(ospf).router_id() == old(ospf).router_id(),
        final(ospf).neighbor_entries() == old(ospf).neighbor_entries(),
        final(ospf).lsa_entries() == old(ospf).lsa_entries(),
        final(ospf).next_sequence() == old(ospf).next_sequence(),
{
    let cmd = match parse_legacy_message(data) {
        Ok(Some(c)) => c,
        Ok(None) => return Ok(None),
        Err(e) => return Err(e),
    };
    let link = Link {
        neighbor_id: cmd.neighbor_ip,
        interface_addr: cmd.neighbor_ip,
        cost: cmd.cost,
        capacity: cmd.capacity,
        state: cmd.state,
        last_hello: now,
    };
    ospf.add_link(cmd.neighbor_ip, link);
    ospf.calculate_routing_table();
    let text = format_routing_table(ospf.get_routing_table());
    Ok(Some(text))
}

/// Handles a protocol message from `sender_ip` received at `now`: a HELLO
/// or an LSA goes to the router; an acknowledgment only gives the line to
/// show, which is the result.
pub fn process_ospf_message_at(ospf: &mut OSPFProtocol, message: OSPFMessage, sender_ip: IpAddress, now: u64) -> (ack:
    Option<String>)
    requires
        old(ospf).wf(),
        message matches OSPFMessage::LSA(l) ==> (lsa_accepted(old(ospf).lsa_entries(), l@) ==> ospf_fits(
            upsert(old(ospf).lsa_entries(), l.header.advertising_router, l@),
            old(ospf).router_id(),
        )),
    ensures
        final(ospf).wf(),
        final(ospf).router_id() == old(ospf).router_id(),
        final(ospf).next_sequence() == old(ospf).next_sequence(),
        match message {
            OSPFMessage::Hello(h) => after_hello(
                old(ospf).neighbor_entries(),
                old(ospf).link_entries(),
                final(ospf).neighbor_entries(),
                final(ospf).link_entries(),
                h.router_id,
                h.neighbors@.contains(old(ospf).router_id()),
                sender_ip,
                now,
            ) && final(ospf).lsa_entries() == old(ospf).lsa_entries() && final(ospf).table() == old(ospf).table()
                && ack is None,
            OSPFMessage::LSA(l) => final(ospf).neighbor_entries() == old(ospf).neighbor_entries()
                && final(ospf).link_entries() == old(ospf).link_entries() && (if lsa_accepted(
                old(ospf).lsa_entries(),
                l@,
            ) {
                final(ospf).lsa_entries() == upsert(old(ospf).lsa_entries(), l.header.advertising_router, l@)
                    && final(ospf).table() == routes_for(
                    final(ospf).lsa_entries(),
                    old(ospf).router_id(),
                    old(ospf).link_entries(),
                )
            } else {
                final(ospf).lsa_entries() == old(ospf).lsa_entries() && final(ospf).table() == old(ospf).table()
            }) && ack is None,
            OSPFMessage::LSAck(_) => final(ospf).neighbor_entries() == old(ospf).neighbor_entries()
                && final(ospf).link_entries() == old(ospf).link_entries() && final(ospf).lsa_entries() == old(
                ospf,
            ).lsa_entries() && final(ospf).table() == old(ospf).table() && (ack matches Some(line) && line@
                == "Réception LSA ACK"@),
        },
{
    match message {
        OSPFMessage::Hello(hello) => {
            ospf.process_hello_at(&hello, sender_ip, now);
            None
        },
        OSPFMessage::LSA(lsa) => {
            ospf.process_lsa(lsa);
            None
        },
        OSPFMessage::LSAck(headers) => Some(ospf.process_lsa_ack(headers)),
    }
}

} // verus!
