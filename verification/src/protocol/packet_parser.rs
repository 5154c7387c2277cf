use vstd::prelude::*;
use vstd::utf8::{valid_utf8, encode_utf8};
use crate::error::ProtocolError;
use crate::protocol::message_types::ProtocolMessage;
use crate::protocol::hello_protocol::{be_bytes, from_be, lemma_be_roundtrip, lemma_bytes_roundtrip};

verus! {

/// A packet between two IPv4 addresses, with its payload.
#[derive(Debug)]
pub struct Packet {
    pub source_ip: u32,
    pub destination_ip: u32,
    pub payload: Vec<u8>,
}

impl Packet {
    pub fn new(source_ip: u32, destination_ip: u32, payload: Vec<u8>) -> (p: Self)
        ensures
            p.source_ip == source_ip,
            p.destination_ip == destination_ip,
            p.payload@ == payload@,
    {
        Packet { source_ip, destination_ip, payload }
    }
}

/// The bytes of a packet: source address, destination address (most
/// significant byte first), then the payload.
pub open spec fn packet_bytes(source_ip: u32, destination_ip: u32, payload: Seq<u8>) -> Seq<u8> {
    be_bytes(source_ip) + be_bytes(destination_ip) + payload
}

/// The packet that `data` encodes (addresses and payload), if it has the
/// eight bytes of the two addresses.
pub open spec fn spec_parse_packet(data: Seq<u8>) -> Option<(u32, u32, Seq<u8>)> {
    if data.len() < 8 {
        None
    } else {
        Some(
            (
                from_be(data[0], data[1], data[2], data[3]),
                from_be(data[4], data[5], data[6], data[7]),
                data.subrange(8, data.len() as int),
            ),
        )
    }
}

/// The packet in `data`; `None` when it is shorter than eight bytes.
pub fn parse_packet(data: &[u8]) -> (r: Option<Packet>)
    ensures
        match r {
            Some(p) => spec_parse_packet(data@) == Some((p.source_ip, p.destination_ip, p.payload@)),
            None => spec_parse_packet(data@) is None,
        },
{
    if data.len() < 8 {
        return None;
    }
    let source_ip = ((data[0] as u32) << 24u32) | ((data[1] as u32) << 16u32) | ((data[2] as u32) << 8u32) | (
    data[3] as u32);
    let destination_ip = ((data[4] as u32) << 24u32) | ((data[5] as u32) << 16u32) | ((data[6] as u32) << 8u32) | (
    data[7] as u32);
    let mut payload: Vec<u8> = Vec::new();
    let mut i: usize = 8;
    while i < data.len()
        invariant
            8 <= i <= data@.len(),
            payload@ == data@.subrange(8, i as int),
        decreases data.len() - i,
    {
        payload.push(data[i]);
        i += 1;
        assert(payload@ =~= data@.subrange(8, i as int));
    }
    Some(Packet::new(source_ip, destination_ip, payload))
}

/// The bytes of `packet`.
pub fn serialize_packet(packet: &Packet) -> (data: Vec<u8>)
    ensures
        data@ == packet_bytes(packet.source_ip, packet.destination_ip, packet.payload@),
{
    let mut data: Vec<u8> = Vec::new();
    let s = packet.source_ip;
    let d = packet.destination_ip;
    data.push(((s >> 24u32) & 0xff) as u8);
    data.push(((s >> 16u32) & 0xff) as u8);
    data.push(((s >> 8u32) & 0xff) as u8);
    data.push((s & 0xff) as u8);
    data.push(((d >> 24u32) & 0xff) as u8);
    data.push(((d >> 16u32) & 0xff) as u8);
    data.push(((d >> 8u32) & 0xff) as u8);
    data.push((d & 0xff) as u8);
    let mut i: usize = 0;
    while i < packet.payload.len()
        invariant
            i <= packet.payload@.len(),
            data@ == be_bytes(s) + be_bytes(d) + packet.payload@.take(i as int),
        decreases packet.payload.len() - i,
    {
        data.push(packet.payload[i]);
        i += 1;
        assert(data@ =~= be_bytes(s) + be_bytes(d) + packet.payload@.take(i as int));
    }
    assert(packet.payload@.take(packet.payload@.len() as int) =~= packet.payload@);
    data
}

/// Parsing the bytes of a packet gives the packet back.
pub proof fn law_packet_roundtrip(source_ip: u32, destination_ip: u32, payload: Seq<u8>)
    ensures
        spec_parse_packet(packet_bytes(source_ip, destination_ip, payload)) == Some(
            (source_ip, destination_ip, payload),
        ),
{
    let b = packet_bytes(source_ip, destination_ip, payload);
    lemma_be_roundtrip(source_ip);
    lemma_be_roundtrip(destination_ip);
    assert(b[0] == be_bytes(source_ip)[0] && b[1] == be_bytes(source_ip)[1] && b[2] == be_bytes(source_ip)[2] && b[3]
        == be_bytes(source_ip)[3]);
    assert(b[4] == be_bytes(destination_ip)[0] && b[5] == be_bytes(destination_ip)[1] && b[6] == be_bytes(
        destination_ip,
    )[2] && b[7] == be_bytes(destination_ip)[3]);
    assert(b.subrange(8, b.len() as int) =~= payload);
}

/// Writing back a parsed packet gives the bytes it was parsed from.
pub proof fn law_packet_bytes_roundtrip(data: Seq<u8>)
    requires
        data.len() >= 8,
    ensures
        spec_parse_packet(data) matches Some(p) && packet_bytes(p.0, p.1, p.2) == data,
{
    lemma_bytes_roundtrip(data[0], data[1], data[2], data[3]);
    lemma_bytes_roundtrip(data[4], data[5], data[6], data[7]);
    let p = spec_parse_packet(data).unwrap();
    assert(packet_bytes(p.0, p.1, p.2) =~= data);
}

/// The text of `data` through `std::str::from_utf8`, which accepts exactly
/// the valid UTF-8 byte strings and keeps their bytes.
#[verifier::external_body]
pub(crate) fn utf8_text(data: &[u8]) -> (r: Option<String>)
    ensures
        r is Some <==> valid_utf8(data@),
        r matches Some(s) ==> encode_utf8(s@) == data@,
{
    match std::str::from_utf8(data) {
        Ok(s) => Some(s.to_string()),
        Err(_) => None,
    }
}

/// Reading and checking of protocol messages.
pub struct PacketParser;

impl PacketParser {
    /// The text of a received message, which must be UTF-8; the message
    /// itself is JSON that the caller reads from this text.
    pub fn packet_text(data: &[u8]) -> (r: Result<String, ProtocolError>)
        ensures
            r is Ok <==> valid_utf8(data@),
            r matches Ok(s) ==> encode_utf8(s@) == data@,
            r is Err ==> (r matches Err(ProtocolError::Protocol(m)) && m@ == "Invalid UTF-8 in packet"@),
    {
        match utf8_text(data) {
            Some(s) => Ok(s),
            None => Err(ProtocolError::Protocol("Invalid UTF-8 in packet".to_string())),
        }
    }

    /// A HELLO or a link-state update names its router and has a nonzero
    /// timestamp; a route request names its destination and source; a
    /// route response names its destination and next hop.
    pub fn validate_message(message: &ProtocolMessage) -> (r: bool)
        ensures
            r == match *message {
                ProtocolMessage::Hello(h) => h.router_id@.len() > 0 && h.timestamp > 0,
                ProtocolMessage::LinkState(l) => l.router_id@.len() > 0 && l.timestamp > 0,
                ProtocolMessage::RouteRequest(q) => q.destination@.len() > 0 && q.source@.len() > 0,
                ProtocolMessage::RouteResponse(p) => p.destination@.len() > 0 && p.next_hop@.len() > 0,
            },
    {
        match message {
            ProtocolMessage::Hello(hello) => !hello.router_id.as_str().is_empty() && hello.timestamp > 0,
            ProtocolMessage::LinkState(link_state) => !link_state.router_id.as_str().is_empty()
                && link_state.timestamp > 0,
            ProtocolMessage::RouteRequest(request) => !request.destination.as_str().is_empty()
                && !request.source.as_str().is_empty(),
            ProtocolMessage::RouteResponse(response) => !response.destination.as_str().is_empty()
                && !response.next_hop.as_str().is_empty(),
        }
    }
}

} // verus!
