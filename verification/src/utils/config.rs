use vstd::prelude::*;

verus! {

/// Settings of the protocol server.
#[derive(Debug, Clone)]
pub struct Config {
    pub bind_address: String,
    pub broadcast_address: String,
    pub router_id: String,
    pub hello_interval: u64,
    pub dead_interval: u64,
}

/// A fresh random (version 4) UUID in its hyphenated text form, through
/// `uuid::Uuid::new_v4`; that form is always 36 characters long.
#[verifier::external_body]
fn new_router_id() -> (r: String)
    ensures
        r@.len() == 36,
{
    uuid::Uuid::new_v4().to_string()
}

impl Default for Config {
    /// Listens on `0.0.0.0:8080`, broadcasts to `255.255.255.255:8080`,
    /// takes a fresh random router id, says HELLO every 30 s and declares
    /// a neighbour dead after 120 s.
    fn default() -> (c: Self)
        ensures
            c.bind_address@ == "0.0.0.0:8080"@,
            c.broadcast_address@ == "255.255.255.255:8080"@,
            c.router_id@.len() == 36,
            c.hello_interval == 30,
            c.dead_interval == 120,
    {
        Config {
            bind_address: "0.0.0.0:8080".to_string(),
            broadcast_address: "255.255.255.255:8080".to_string(),
            router_id: new_router_id(),
            hello_interval: 30,
            dead_interval: 120,
        }
    }
}

} // verus!
