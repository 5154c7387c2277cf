use vstd::prelude::*;
use pnet::ipnetwork::{IpNetwork, Ipv4Network, Ipv6Network};
use aes::Aes256;
use cbc::{Decryptor, Encryptor};
use cipher::{block_padding::Pkcs7, BlockDecryptMut, BlockEncryptMut, KeyIvInit};
use rand::{rngs::OsRng, RngCore};
use crate::error::AppError;
use crate::text::{spec_decimal, u64_to_decimal, concat, contains_char};

verus! {

/// An IP address; an IPv4 address is held as its 32-bit number.
#[derive(Debug, Clone, Copy, PartialEq, Eq, Structural)]
pub enum IpAddress {
    V4(u32),
    V6(u128),
}

/// An interface address with the length of its network prefix.
#[derive(Debug, Clone, Copy, PartialEq, Eq, Structural)]
pub enum IpNet {
    V4 { addr: u32, prefix: u8 },
    V6 { addr: u128, prefix: u8 },
}

/// An IPv4 socket address.
#[derive(Debug, Clone, Copy, PartialEq, Eq, Structural)]
pub struct SocketAddress {
    pub ip: u32,
    pub port: u16,
}

/// The network mask of a prefix length (at most 32).
pub open spec fn spec_mask(prefix: u8) -> u32 {
    (!(0xffff_ffffu64 >> prefix)) as u32
}

/// `ip` belongs to the network of `addr/prefix`.
pub open spec fn spec_contains(addr: u32, prefix: u8, ip: u32) -> bool {
    (ip & spec_mask(prefix)) == (addr & spec_mask(prefix))
}

/// The broadcast address of the network of `addr/prefix`.
pub open spec fn spec_broadcast(addr: u32, prefix: u8) -> u32 {
    addr | !spec_mask(prefix)
}

/// The network address of `addr/prefix`.
pub open spec fn spec_network(addr: u32, prefix: u8) -> u32 {
    addr & spec_mask(prefix)
}

/// Whether an `addr/prefix` network contains `ip`: `Ipv4Network::contains`.
#[verifier::external_body]
pub(crate) fn ipv4_network_contains(addr: u32, prefix: u8, ip: u32) -> (r: bool)
    requires
        prefix <= 32,
    ensures
        r == spec_contains(addr, prefix, ip),
{
    match Ipv4Network::new(addr.into(), prefix) {
        Ok(net) => net.contains(ip.into()),
        Err(_) => false,
    }
}

/// The broadcast address of `addr/prefix`: `Ipv4Network::broadcast`.
#[verifier::external_body]
pub(crate) fn ipv4_network_broadcast(addr: u32, prefix: u8) -> (r: u32)
    requires
        prefix <= 32,
    ensures
        r == spec_broadcast(addr, prefix),
{
    match Ipv4Network::new(addr.into(), prefix) {
        Ok(net) => u32::from(net.broadcast()),
        Err(_) => 0,
    }
}

/// The network address of `addr/prefix`: `Ipv4Network::network`.
#[verifier::external_body]
pub(crate) fn ipv4_network_address(addr: u32, prefix: u8) -> (r: u32)
    requires
        prefix <= 32,
    ensures
        r == spec_network(addr, prefix),
{
    match Ipv4Network::new(addr.into(), prefix) {
        Ok(net) => u32::from(net.network()),
        Err(_) => 0,
    }
}

/// What `IpNetwork::from_str` makes of a text: a network, or `None` when
/// the text is no IPv4 or IPv6 network in CIDR notation.
pub uninterp spec fn spec_parse_ip_network(s: Seq<char>) -> Option<IpNet>;

/// Parses a network in CIDR notation with `IpNetwork::from_str`; the error
/// is that crate's message.
#[verifier::external_body]
pub(crate) fn parse_ip_network(s: &str) -> (r: Result<IpNet, String>)
    ensures
        match r {
            Ok(n) => spec_parse_ip_network(s@) == Some(n),
            Err(_) => spec_parse_ip_network(s@) is None,
        },
        r matches Ok(IpNet::V4 { prefix, .. }) ==> prefix <= 32,
        r matches Ok(IpNet::V6 { prefix, .. }) ==> prefix <= 128,
{
    match s.parse::<IpNetwork>() {
        Ok(IpNetwork::V4(n)) => Ok(IpNet::V4 { addr: u32::from(n.ip()), prefix: n.prefix() }),
        Ok(IpNetwork::V6(n)) => Ok(IpNet::V6 { addr: u128::from(n.ip()), prefix: n.prefix() }),
        Err(e) => Err(e.to_string()),
    }
}

/// An IPv4 address in dotted-quad notation: a text without `/` that
/// `IpNetwork::from_str` reads as an IPv4 network (the dotted quad itself,
/// with the full prefix).
pub open spec fn spec_parse_ipv4(s: Seq<char>) -> Option<u32> {
    if s.contains('/') {
        None
    } else {
        match spec_parse_ip_network(s) {
            Some(IpNet::V4 { addr, .. }) => Some(addr),
            _ => None,
        }
    }
}

/// Parses a dotted-quad IPv4 address; the error is std's message for an
/// invalid IPv4 address.
pub fn parse_ipv4(s: &str) -> (r: Result<u32, String>)
    ensures
        match r {
            Ok(a) => spec_parse_ipv4(s@) == Some(a),
            Err(m) => spec_parse_ipv4(s@) is None && m@ == "invalid IPv4 address syntax"@,
        },
{
    if !contains_char(s, '/') {
        if let Ok(IpNet::V4 { addr, .. }) = parse_ip_network(s) {
            return Ok(addr);
        }
    }
    Err("invalid IPv4 address syntax".to_string())
}

/// `127.0.0.0/8`, as `Ipv4Addr::is_loopback` documents it.
pub open spec fn spec_is_loopback(ip: u32) -> bool {
    ip >> 24u32 == 127
}

/// `0.0.0.0`.
pub open spec fn spec_is_unspecified(ip: u32) -> bool {
    ip == 0
}

pub fn is_loopback(ip: u32) -> (r: bool)
    ensures
        r == spec_is_loopback(ip),
{
    ip >> 24u32 == 127
}

pub fn is_unspecified(ip: u32) -> (r: bool)
    ensures
        r == spec_is_unspecified(ip),
{
    ip == 0
}

/// Octet `k` (0 is the first) of an IPv4 address.
pub open spec fn octet(ip: u32, k: int) -> u32 {
    (ip >> ((24 - 8 * k) as u32)) & 0xff
}

/// Dotted-quad text of an IPv4 address.
pub open spec fn spec_ipv4_text(ip: u32) -> Seq<char> {
    spec_decimal(octet(ip, 0) as nat) + "."@ + spec_decimal(octet(ip, 1) as nat) + "."@ + spec_decimal(
        octet(ip, 2) as nat,
    ) + "."@ + spec_decimal(octet(ip, 3) as nat)
}

/// Dotted-quad text of an IPv4 address (`a.b.c.d`).
pub fn ipv4_to_string(ip: u32) -> (r: String)
    ensures
        r@ == spec_ipv4_text(ip),
{
    let a = u64_to_decimal(((ip >> 24u32) & 0xff) as u64);
    let b = u64_to_decimal(((ip >> 16u32) & 0xff) as u64);
    let c = u64_to_decimal(((ip >> 8u32) & 0xff) as u64);
    let d = u64_to_decimal((ip & 0xff) as u64);
    proof {
        reveal_strlit(".");
        assert(octet(ip, 0) == (ip >> 24u32) & 0xff);
        assert(octet(ip, 1) == (ip >> 16u32) & 0xff);
        assert(octet(ip, 2) == (ip >> 8u32) & 0xff);
        assert(octet(ip, 3) == (ip >> 0u32) & 0xff);
        assert((ip >> 0u32) == ip) by (bit_vector);
    }
    let r = concat(a.as_str(), ".");
    let r = concat(r.as_str(), b.as_str());
    let r = concat(r.as_str(), ".");
    let r = concat(r.as_str(), c.as_str());
    let r = concat(r.as_str(), ".");
    concat(r.as_str(), d.as_str())
}

/// The text std's `Display` gives an IPv6 address (RFC 5952 form).
pub uninterp spec fn spec_ipv6_text(ip: u128) -> Seq<char>;

/// Text of an IPv6 address, as std's `Display` for `Ipv6Addr` writes it
/// (reached through `Ipv6Network::ip`, with the full /128 prefix, which
/// `Ipv6Network::new` always accepts).
#[verifier::external_body]
fn ipv6_to_string(ip: u128) -> (r: String)
    ensures
        r@ == spec_ipv6_text(ip),
{
    match Ipv6Network::new(ip.into(), 128) {
        Ok(n) => n.ip().to_string(),
        Err(_) => String::new(),
    }
}

/// Text of an IP address: dotted quad for IPv4, std's form for IPv6.
pub open spec fn spec_ip_text(a: IpAddress) -> Seq<char> {
    match a {
        IpAddress::V4(ip) => spec_ipv4_text(ip),
        IpAddress::V6(ip) => spec_ipv6_text(ip),
    }
}

/// Text of an IP address.
pub fn ip_address_text(a: IpAddress) -> (r: String)
    ensures
        r@ == spec_ip_text(a),
{
    match a {
        IpAddress::V4(ip) => ipv4_to_string(ip),
        IpAddress::V6(ip) => ipv6_to_string(ip),
    }
}

/// CIDR text `a.b.c.d/p` of an IPv4 interface address.
pub open spec fn spec_ipv4_net_text(addr: u32, prefix: u8) -> Seq<char> {
    spec_ipv4_text(addr) + "/"@ + spec_decimal(prefix as nat)
}

/// CIDR text `a.b.c.d/p` of an IPv4 interface address, as
/// `Ipv4Network`'s `Display` writes it.
pub fn ipv4_net_to_string(addr: u32, prefix: u8) -> (r: String)
    ensures
        r@ == spec_ipv4_net_text(addr, prefix),
{
    let a = ipv4_to_string(addr);
    let p = u64_to_decimal(prefix as u64);
    let r = concat(a.as_str(), "/");
    concat(r.as_str(), p.as_str())
}

/// The IPv4 address of an interface address that is neither loopback nor
/// unspecified.
pub open spec fn usable_ipv4(n: IpNet) -> bool {
    n matches IpNet::V4 { addr, .. } && !spec_is_loopback(addr) && !spec_is_unspecified(addr)
}

/// The text of the first usable IPv4 address among the interface addresses.
pub fn get_local_ip(addrs: &Vec<IpNet>) -> (r: Result<String, AppError>)
    ensures
        match r {
            Ok(s) => exists|i: int|
                0 <= i < addrs.len() && usable_ipv4(#[trigger] addrs@[i]) && (forall|j: int|
                    0 <= j < i ==> !usable_ipv4(addrs@[j])) && s@ == spec_ipv4_text(
                    addrs@[i]->V4_addr,
                ),
            Err(e) => (forall|i: int| 0 <= i < addrs.len() ==> !usable_ipv4(#[trigger] addrs@[i]))
                && (e matches AppError::ConfigError(m) && m@ == "No valid IP address found"@),
        },
{
    let mut i: usize = 0;
    while i < addrs.len()
        invariant
            i <= addrs.len(),
            forall|j: int| 0 <= j < i ==> !usable_ipv4(addrs@[j]),
        decreases addrs.len() - i,
    {
        match addrs[i] {
            IpNet::V4 { addr, .. } => {
                if !is_loopback(addr) && !is_unspecified(addr) {
                    let s = ipv4_to_string(addr);
                    assert(usable_ipv4(addrs@[i as int]));
                    return Ok(s);
                }
            },
            IpNet::V6 { .. } => {},
        }
        i += 1;
    }
    let m = "No valid IP address found".to_string();
    Err(AppError::ConfigError(m))
}

/// An interface address and the broadcast address of its network.
#[derive(Debug)]
pub struct BroadcastTarget {
    pub local_ip: String,
    pub addr: SocketAddress,
}

/// The broadcast targets of the non-loopback IPv4 interface addresses, in
/// order: (address text, broadcast address of its network and `port`).
pub open spec fn spec_broadcast_targets(addrs: Seq<IpNet>, port: u16) -> Seq<(Seq<char>, SocketAddress)>
    decreases addrs.len(),
{
    if addrs.len() == 0 {
        Seq::empty()
    } else {
        let prev = spec_broadcast_targets(addrs.drop_last(), port);
        match addrs.last() {
            IpNet::V4 { addr, prefix } => if !spec_is_loopback(addr) {
                prev.push(
                    (spec_ipv4_text(addr), SocketAddress { ip: spec_broadcast(addr, prefix), port }),
                )
            } else {
                prev
            },
            IpNet::V6 { .. } => prev,
        }
    }
}

/// Interface addresses are well formed: IPv4 prefixes are at most 32.
pub open spec fn valid_nets(addrs: Seq<IpNet>) -> bool {
    forall|i: int| 0 <= i < addrs.len() ==> (#[trigger] addrs[i] matches IpNet::V4 { prefix, .. } ==> prefix <= 32)
}

/// Where to broadcast from each non-loopback IPv4 interface address.
pub fn get_broadcast_addresses(addrs: &Vec<IpNet>, port: u16) -> (r: Vec<BroadcastTarget>)
    requires
        valid_nets(addrs@),
    ensures
        r@.map_values(|t: BroadcastTarget| (t.local_ip@, t.addr)) == spec_broadcast_targets(addrs@, port),
{
    let mut r: Vec<BroadcastTarget> = Vec::new();
    let mut i: usize = 0;
    while i < addrs.len()
        invariant
            i <= addrs.len(),
            valid_nets(addrs@),
            r@.map_values(|t: BroadcastTarget| (t.local_ip@, t.addr)) == spec_broadcast_targets(
                addrs@.take(i as int),
                port,
            ),
        decreases addrs.len() - i,
    {
        let ghost old_r = r@;
        assert(addrs@.take(i as int + 1).drop_last() =~= addrs@.take(i as int));
        match addrs[i] {
            IpNet::V4 { addr, prefix } => {
                assert(addrs@[i as int] matches IpNet::V4 { prefix, .. });
                if !is_loopback(addr) {
                    let b = ipv4_network_broadcast(addr, prefix);
                    let t = BroadcastTarget { local_ip: ipv4_to_string(addr), addr: SocketAddress { ip: b, port } };
                    r.push(t);
                    assert(r@.map_values(|t: BroadcastTarget| (t.local_ip@, t.addr)) =~= old_r.map_values(
                        |t: BroadcastTarget| (t.local_ip@, t.addr),
                    ).push((spec_ipv4_text(addr), SocketAddress { ip: spec_broadcast(addr, prefix), port })));
                }
            },
            IpNet::V6 { .. } => {},
        }
        i += 1;
    }
    assert(addrs@.take(addrs.len() as int) =~= addrs@);
    r
}

/// A local address as the packet loop keeps it: the address, its text and
/// its interface network.
#[derive(Debug)]
pub struct LocalAddress {
    pub ip: IpAddress,
    pub text: String,
    pub network: IpNet,
}

/// Local address `l` is on an IPv4 network that contains `sender`.
pub open spec fn on_sender_network(l: LocalAddress, sender: IpAddress) -> bool {
    sender matches IpAddress::V4(s) && l.network matches IpNet::V4 { addr, prefix } && spec_contains(addr, prefix, s)
}

/// Local address `l` is an IPv4 address neither loopback nor unspecified.
pub open spec fn usable_local(l: LocalAddress) -> bool {
    l.ip matches IpAddress::V4(a) && !spec_is_loopback(a) && !spec_is_unspecified(a)
}

/// The local address on whose network a packet from `sender` arrived: the
/// first on an IPv4 network containing the sender, else the first usable
/// IPv4 address.
pub fn determine_receiving_interface(sender: IpAddress, local_ips: &Vec<LocalAddress>) -> (r: Result<(String, IpNet), AppError>)
    requires
        forall|i: int| 0 <= i < local_ips.len() ==> (#[trigger] local_ips@[i].network matches IpNet::V4 { prefix, .. } ==> prefix <= 32),
    ensures
        match r {
            Ok((text, net)) => exists|i: int|
                0 <= i < local_ips.len() && text@ == (#[trigger] local_ips@[i]).text@ && net == local_ips@[i].network
                    && ((on_sender_network(local_ips@[i], sender) && forall|j: int|
                    0 <= j < i ==> !on_sender_network(local_ips@[j], sender)) || ((forall|j: int|
                    0 <= j < local_ips.len() ==> !on_sender_network(local_ips@[j], sender)) && usable_local(
                    local_ips@[i],
                ) && forall|j: int| 0 <= j < i ==> !usable_local(local_ips@[j]))),
            Err(e) => (forall|j: int|
                0 <= j < local_ips.len() ==> !on_sender_network(local_ips@[j], sender) && !usable_local(
                    local_ips@[j],
                )) && (e matches AppError::NetworkError(m) && m@ == "No valid receiving interface found"@),
        },
{
    let mut i: usize = 0;
    while i < local_ips.len()
        invariant
            i <= local_ips.len(),
            forall|j: int| 0 <= j < local_ips.len() ==> (#[trigger] local_ips@[j].network matches IpNet::V4 { prefix, .. } ==> prefix <= 32),
            forall|j: int| 0 <= j < i ==> !on_sender_network(local_ips@[j], sender),
        decreases local_ips.len() - i,
    {
        if let IpAddress::V4(s) = sender {
            if let IpNet::V4 { addr, prefix } = local_ips[i].network {
                assert(local_ips@[i as int].network matches IpNet::V4 { prefix, .. });
                if ipv4_network_contains(addr, prefix, s) {
                    return Ok((local_ips[i].text.clone(), local_ips[i].network));
                }
            }
        }
        i += 1;
    }
    let mut i: usize = 0;
    while i < local_ips.len()
        invariant
            i <= local_ips.len(),
            forall|j: int| 0 <= j < local_ips.len() ==> !on_sender_network(local_ips@[j], sender),
            forall|j: int| 0 <= j < i ==> !usable_local(local_ips@[j]),
        decreases local_ips.len() - i,
    {
        if let IpAddress::V4(a) = local_ips[i].ip {
            if !is_loopback(a) && !is_unspecified(a) {
                return Ok((local_ips[i].text.clone(), local_ips[i].network));
            }
        }
        i += 1;
    }
    let m = "No valid receiving interface found".to_string();
    Err(AppError::NetworkError(m))
}

/// The broadcast address, at `port`, of an IPv4 interface network.
pub fn calculate_broadcast_for_interface(interface_ip: &str, ip_network: IpNet, port: u16) -> (r: Result<SocketAddress, AppError>)
    requires
        ip_network matches IpNet::V4 { prefix, .. } ==> prefix <= 32,
    ensures
        match ip_network {
            IpNet::V4 { addr, prefix } => r == Ok::<SocketAddress, AppError>(SocketAddress { ip: spec_broadcast(addr, prefix), port }),
            IpNet::V6 { .. } => r matches Err(AppError::NetworkError(m)) && m@ == "Invalid IPv4 network"@,
        },
{
    match ip_network {
        IpNet::V4 { addr, prefix } => Ok(SocketAddress { ip: ipv4_network_broadcast(addr, prefix), port }),
        IpNet::V6 { .. } => Err(AppError::NetworkError("Invalid IPv4 network".to_string())),
    }
}

} // verus!

verus! {

/// The AES-256-CBC encryption with PKCS#7 padding (`cbc::Encryptor<Aes256>`)
/// of `data` under `key` and `iv`.
pub uninterp spec fn spec_aes256_cbc_encrypt(key: Seq<u8>, iv: Seq<u8>, data: Seq<u8>) -> Seq<u8>;

/// The AES-256-CBC decryption with PKCS#7 unpadding
/// (`cbc::Decryptor<Aes256>`) of `data`, or `None` when the length or the
/// padding is wrong.
pub uninterp spec fn spec_aes256_cbc_decrypt(key: Seq<u8>, iv: Seq<u8>, data: Seq<u8>) -> Option<Seq<u8>>;

/// Encrypts with `cbc::Encryptor<Aes256>::encrypt_padded_vec_mut::<Pkcs7>`:
/// the result is named, and PKCS#7 pads to the next whole block (always
/// adding at least one byte).
#[verifier::external_body]
fn aes256_cbc_encrypt(key: &[u8], iv: &[u8], data: &[u8]) -> (r: Vec<u8>)
    requires
        key@.len() == 32,
        iv@.len() == 16,
    ensures
        r@ == spec_aes256_cbc_encrypt(key@, iv@, data@),
        r@.len() == (data@.len() / 16 + 1) * 16,
{
    match Encryptor::<Aes256>::new_from_slices(key, iv) {
        Ok(encryptor) => encryptor.encrypt_padded_vec_mut::<Pkcs7>(data),
        Err(_) => Vec::new(),
    }
}

/// Decrypts with `cbc::Decryptor<Aes256>::decrypt_padded_vec_mut::<Pkcs7>`:
/// the result is named, the error is the crate's message, and decrypting
/// what `aes256_cbc_encrypt` made under the same key and IV gives the data
/// back.
#[verifier::external_body]
fn aes256_cbc_decrypt(key: &[u8], iv: &[u8], data: &[u8]) -> (r: Result<Vec<u8>, String>)
    requires
        key@.len() == 32,
        iv@.len() == 16,
    ensures
        match r {
            Ok(p) => spec_aes256_cbc_decrypt(key@, iv@, data@) == Some(p@),
            Err(_) => spec_aes256_cbc_decrypt(key@, iv@, data@) is None,
        },
        r matches Ok(p) ==> forall|d: Seq<u8>|
            data@ == spec_aes256_cbc_encrypt(key@, iv@, d) ==> p@ == d,
        r is Err ==> forall|d: Seq<u8>| data@ != spec_aes256_cbc_encrypt(key@, iv@, d),
{
    match Decryptor::<Aes256>::new_from_slices(key, iv) {
        Ok(decryptor) => match decryptor.decrypt_padded_vec_mut::<Pkcs7>(data) {
            Ok(p) => Ok(p),
            Err(e) => Err(e.to_string()),
        },
        Err(e) => Err(e.to_string()),
    }
}

/// Sixteen bytes from the operating system's random source (`OsRng`).
#[verifier::external_body]
fn random_iv() -> (iv: Vec<u8>)
    ensures
        iv@.len() == 16,
{
    let mut iv = vec![0u8; 16];
    OsRng.fill_bytes(&mut iv);
    iv
}

/// `a` followed by `b`.
fn append_bytes(a: Vec<u8>, b: &Vec<u8>) -> (r: Vec<u8>)
    ensures
        r@ == a@ + b@,
{
    let mut r = a;
    let ghost a0 = r@;
    let mut i: usize = 0;
    while i < b.len()
        invariant
            i <= b.len(),
            r@ == a0 + b@.take(i as int),
        decreases b.len() - i,
    {
        r.push(b[i]);
        i += 1;
        assert(r@ =~= a0 + b@.take(i as int));
    }
    assert(b@.take(b.len() as int) =~= b@);
    r
}

/// Bytes `from..to` of `s`.
fn slice_range(s: &[u8], from: usize, to: usize) -> (r: Vec<u8>)
    requires
        from <= to <= s@.len(),
    ensures
        r@ == s@.subrange(from as int, to as int),
{
    let mut r: Vec<u8> = Vec::new();
    let mut i: usize = from;
    while i < to
        invariant
            from <= i <= to,
            to <= s@.len(),
            r@ == s@.subrange(from as int, i as int),
        decreases to - i,
    {
        r.push(s[i]);
        i += 1;
        assert(r@ =~= s@.subrange(from as int, i as int));
    }
    r
}

/// Encrypts `data` with AES-256-CBC under a 32-byte `key` and a fresh
/// random IV; the result is the IV followed by the ciphertext.
pub fn encrypt(data: &[u8], key: &[u8]) -> (r: Result<Vec<u8>, AppError>)
    ensures
        key@.len() == 32 <==> r is Ok,
        match r {
            Ok(c) => c@.len() == 16 + (data@.len() / 16 + 1) * 16 && c@.subrange(16, c@.len() as int)
                == spec_aes256_cbc_encrypt(key@, c@.subrange(0, 16), data@),
            Err(e) => e matches AppError::CryptoError(m) && m@ == "La clé doit faire 32 octets"@,
        },
{
    if key.len() != 32 {
        return Err(AppError::CryptoError("La clé doit faire 32 octets".to_string()));
    }
    let iv = random_iv();
    let ct = aes256_cbc_encrypt(key, iv.as_slice(), data);
    let ghost ivv = iv@;
    let r = append_bytes(iv, &ct);
    assert(r@.subrange(0, 16) =~= ivv);
    assert(r@.subrange(16, r@.len() as int) =~= ct@);
    Ok(r)
}

/// What `encrypt` returns under a key is, by `decrypt`'s contract, turned
/// back into the data under the same key: it is the IV followed by the
/// encryption of the data under that IV.
pub proof fn law_decrypt_undoes_encrypt(key: Seq<u8>, c: Seq<u8>, data: Seq<u8>)
    requires
        key.len() == 32,
        c.len() >= 16,
        c.subrange(16, c.len() as int) == spec_aes256_cbc_encrypt(key, c.subrange(0, 16), data),
    ensures
        c.subrange(0, 16).len() == 16,
        c == c.subrange(0, 16) + spec_aes256_cbc_encrypt(key, c.subrange(0, 16), data),
{
    assert(c =~= c.subrange(0, 16) + c.subrange(16, c.len() as int));
}

/// Decrypts what `encrypt` made: a 16-byte IV followed by AES-256-CBC
/// ciphertext, under a 32-byte `key`.
pub fn decrypt(ciphertext: &[u8], key: &[u8]) -> (r: Result<Vec<u8>, AppError>)
    ensures
        key@.len() != 32 ==> (r matches Err(AppError::CryptoError(m)) && m@ == "La clé doit faire 32 octets"@),
        key@.len() == 32 && ciphertext@.len() < 16 ==> (r matches Err(AppError::CryptoError(m)) && m@
            == "Ciphertext trop court pour contenir l'IV"@),
        key@.len() == 32 && ciphertext@.len() >= 16 ==> match spec_aes256_cbc_decrypt(
            key@,
            ciphertext@.subrange(0, 16),
            ciphertext@.subrange(16, ciphertext@.len() as int),
        ) {
            Some(p) => r matches Ok(q) && q@ == p,
            None => r matches Err(AppError::CryptoError(m)) && m@.len() >= "Erreur de déchiffrement: "@.len()
                && m@.subrange(0, "Erreur de déchiffrement: "@.len() as int) == "Erreur de déchiffrement: "@,
        },
        forall|iv: Seq<u8>, d: Seq<u8>|
            key@.len() == 32 && iv.len() == 16 && ciphertext@ == iv + spec_aes256_cbc_encrypt(key@, iv, d)
                ==> (r matches Ok(q) && q@ == d),
{
    if key.len() != 32 {
        return Err(AppError::CryptoError("La clé doit faire 32 octets".to_string()));
    }
    if ciphertext.len() < 16 {
        return Err(AppError::CryptoError("Ciphertext trop court pour contenir l'IV".to_string()));
    }
    let iv = slice_range(ciphertext, 0, 16);
    let body = slice_range(ciphertext, 16, ciphertext.len());
    proof {
        assert forall|iv2: Seq<u8>, d: Seq<u8>|
            iv2.len() == 16 && ciphertext@ == iv2 + spec_aes256_cbc_encrypt(key@, iv2, d) implies iv@ == iv2
            && body@ == spec_aes256_cbc_encrypt(key@, iv2, d) by {
            assert(iv@ =~= iv2);
            assert(body@ =~= spec_aes256_cbc_encrypt(key@, iv2, d));
        }
    }
    match aes256_cbc_decrypt(key, iv.as_slice(), body.as_slice()) {
        Ok(p) => Ok(p),
        Err(e) => {
            let m = concat("Erreur de déchiffrement: ", e.as_str());
            proof {
                reveal_strlit("Erreur de déchiffrement: ");
                assert(m@.subrange(0, "Erreur de déchiffrement: "@.len() as int) =~= "Erreur de déchiffrement: "@);
            }
            Err(AppError::CryptoError(m))
        },
    }
}

} // verus!
