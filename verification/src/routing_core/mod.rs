//! Routing table, neighbour discovery, network interfaces and path
//! calculation.

pub mod routing_table;
pub mod path_calculation;
pub mod network_interface;
pub mod neighbor_discovery;
