use vstd::prelude::*;

verus! {

/// An interface of an interface list: its name and capacity in Mbps.
#[derive(Debug)]
pub struct Interface {
    pub name: String,
    pub capacity_mbps: u32,
}

/// An interface list.
#[derive(Debug)]
pub struct Config {
    pub interfaces: Vec<Interface>,
}

} // verus!
