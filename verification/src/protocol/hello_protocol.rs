use vstd::prelude::*;

verus! {

/// A HELLO between two IPv4 routers, with a sequence number.
#[derive(Debug, Clone, Copy, PartialEq, Eq, Structural)]
pub struct HelloMessage {
    pub source_ip: u32,
    pub neighbor_ip: u32,
    pub sequence_number: u32,
}

/// The four bytes of `x`, most significant first.
pub open spec fn be_bytes(x: u32) -> Seq<u8> {
    seq![
        ((x >> 24u32) & 0xff) as u8,
        ((x >> 16u32) & 0xff) as u8,
        ((x >> 8u32) & 0xff) as u8,
        (x & 0xff) as u8,
    ]
}

/// The number whose bytes, most significant first, are `a b c d`.
pub open spec fn from_be(a: u8, b: u8, c: u8, d: u8) -> u32 {
    ((a as u32) << 24u32) | ((b as u32) << 16u32) | ((c as u32) << 8u32) | (d as u32)
}

/// The twelve bytes of a HELLO: source address, neighbour address and
/// sequence number, each most significant byte first.
pub open spec fn hello_bytes(m: HelloMessage) -> Seq<u8> {
    be_bytes(m.source_ip) + be_bytes(m.neighbor_ip) + be_bytes(m.sequence_number)
}

/// The HELLO that the first twelve bytes of `data` encode, if there are
/// twelve.
pub open spec fn spec_hello_decode(data: Seq<u8>) -> Option<HelloMessage> {
    if data.len() < 12 {
        None
    } else {
        Some(
            HelloMessage {
                source_ip: from_be(data[0], data[1], data[2], data[3]),
                neighbor_ip: from_be(data[4], data[5], data[6], data[7]),
                sequence_number: from_be(data[8], data[9], data[10], data[11]),
            },
        )
    }
}

pub proof fn lemma_be_roundtrip(x: u32)
    ensures
        from_be(be_bytes(x)[0], be_bytes(x)[1], be_bytes(x)[2], be_bytes(x)[3]) == x,
{
    let a = ((x >> 24u32) & 0xff) as u8;
    let b = ((x >> 16u32) & 0xff) as u8;
    let c = ((x >> 8u32) & 0xff) as u8;
    let d = (x & 0xff) as u8;
    assert(((a as u32) << 24u32) | ((b as u32) << 16u32) | ((c as u32) << 8u32) | (d as u32) == x) by (bit_vector)
        requires
            a == ((x >> 24u32) & 0xff) as u8,
            b == ((x >> 16u32) & 0xff) as u8,
            c == ((x >> 8u32) & 0xff) as u8,
            d == (x & 0xff) as u8,
    ;
}

pub proof fn lemma_bytes_roundtrip(a: u8, b: u8, c: u8, d: u8)
    ensures
        be_bytes(from_be(a, b, c, d)) == seq![a, b, c, d],
{
    let x = from_be(a, b, c, d);
    assert(((x >> 24u32) & 0xff) as u8 == a && ((x >> 16u32) & 0xff) as u8 == b && ((x >> 8u32) & 0xff) as u8 == c
        && (x & 0xff) as u8 == d) by (bit_vector)
        requires
            x == ((a as u32) << 24u32) | ((b as u32) << 16u32) | ((c as u32) << 8u32) | (d as u32),
    ;
    assert(be_bytes(x) =~= seq![a, b, c, d]);
}

fn push_be(buffer: &mut Vec<u8>, x: u32)
    ensures
        final(buffer)@ == old(buffer)@ + be_bytes(x),
{
    buffer.push(((x >> 24u32) & 0xff) as u8);
    buffer.push(((x >> 16u32) & 0xff) as u8);
    buffer.push(((x >> 8u32) & 0xff) as u8);
    buffer.push((x & 0xff) as u8);
    assert(final(buffer)@ =~= old(buffer)@ + be_bytes(x));
}

fn read_be(data: &[u8], at: usize) -> (x: u32)
    requires
        at + 4 <= data@.len(),
    ensures
        x == from_be(data@[at as int], data@[at + 1], data@[at + 2], data@[at + 3]),
{
    ((data[at] as u32) << 24u32) | ((data[at + 1] as u32) << 16u32) | ((data[at + 2] as u32) << 8u32) | (data[at
        + 3] as u32)
}

impl HelloMessage {
    pub fn new(source_ip: u32, neighbor_ip: u32, sequence_number: u32) -> (m: Self)
        ensures
            m == (HelloMessage { source_ip, neighbor_ip, sequence_number }),
    {
        HelloMessage { source_ip, neighbor_ip, sequence_number }
    }

    /// The twelve bytes of this HELLO.
    pub fn serialize(&self) -> (buffer: Vec<u8>)
        ensures
            buffer@ == hello_bytes(*self),
    {
        let mut buffer: Vec<u8> = Vec::new();
        push_be(&mut buffer, self.source_ip);
        push_be(&mut buffer, self.neighbor_ip);
        push_be(&mut buffer, self.sequence_number);
        assert(buffer@ =~= hello_bytes(*self));
        buffer
    }

    /// The HELLO in the first twelve bytes of `data`; `None` when there are
    /// fewer.  Bytes past the twelfth are ignored.
    pub fn deserialize(data: &[u8]) -> (r: Option<Self>)
        ensures
            r == spec_hello_decode(data@),
    {
        if data.len() < 12 {
            return None;
        }
        let source_ip = read_be(data, 0);
        let neighbor_ip = read_be(data, 4);
        let sequence_number = read_be(data, 8);
        Some(HelloMessage { source_ip, neighbor_ip, sequence_number })
    }
}

/// Reading back what `serialize` wrote gives the same HELLO.
pub proof fn law_hello_roundtrip(m: HelloMessage)
    ensures
        hello_bytes(m).len() == 12,
        spec_hello_decode(hello_bytes(m)) == Some(m),
{
    let b = hello_bytes(m);
    lemma_be_roundtrip(m.source_ip);
    lemma_be_roundtrip(m.neighbor_ip);
    lemma_be_roundtrip(m.sequence_number);
    assert(b[0] == be_bytes(m.source_ip)[0] && b[1] == be_bytes(m.source_ip)[1] && b[2] == be_bytes(m.source_ip)[2]
        && b[3] == be_bytes(m.source_ip)[3]);
    assert(b[4] == be_bytes(m.neighbor_ip)[0] && b[5] == be_bytes(m.neighbor_ip)[1] && b[6] == be_bytes(
        m.neighbor_ip,
    )[2] && b[7] == be_bytes(m.neighbor_ip)[3]);
    assert(b[8] == be_bytes(m.sequence_number)[0] && b[9] == be_bytes(m.sequence_number)[1] && b[10] == be_bytes(
        m.sequence_number,
    )[2] && b[11] == be_bytes(m.sequence_number)[3]);
}

/// A HELLO read from at least twelve bytes writes back as those twelve
/// bytes.
pub proof fn law_hello_bytes_roundtrip(data: Seq<u8>)
    requires
        data.len() >= 12,
    ensures
        spec_hello_decode(data) matches Some(m) && hello_bytes(m) == data.take(12),
{
    lemma_bytes_roundtrip(data[0], data[1], data[2], data[3]);
    lemma_bytes_roundtrip(data[4], data[5], data[6], data[7]);
    lemma_bytes_roundtrip(data[8], data[9], data[10], data[11]);
    let m = spec_hello_decode(data).unwrap();
    assert(hello_bytes(m) =~= data.take(12));
}

/// Sending is left to the caller, which owns the socket: this gives the
/// bytes to send.
pub fn send_hello_message(message: &HelloMessage) -> (bytes: Vec<u8>)
    ensures
        bytes@ == hello_bytes(*message),
{
    message.serialize()
}

/// The HELLO in a received datagram.
pub fn receive_hello_message(data: &[u8]) -> (r: Option<HelloMessage>)
    ensures
        r == spec_hello_decode(data@),
{
    HelloMessage::deserialize(data)
}

} // verus!
