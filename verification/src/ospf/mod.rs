//! An OSPF-style router: HELLOs, router LSAs, the LSA database, the
//! routing table computed from it, and the legacy link commands.

pub mod types;
pub mod protocol;
pub mod manager;
