use vstd::prelude::*;
use crate::types::HelloMessage;

verus! {

/// The HELLO a router sends to find its neighbours (message type 1).
pub fn hello_message(router_ip: &str) -> (m: HelloMessage)
    ensures
        m.message_type == 1,
        m.router_ip@ == router_ip@,
{
    HelloMessage { message_type: 1, router_ip: router_ip.to_string() }
}

} // verus!
