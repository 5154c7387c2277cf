//! A link-state routing library: topology, shortest paths, link-state
//! advertisements, neighbour tracking and the message codecs of a small
//! OSPF-like protocol.

pub mod assoc;
pub mod dijkstra;
pub mod types;
pub mod read_config;
pub mod read_interfaces;
pub mod error;
pub mod text;
pub mod net_utils;
pub mod lsa;
pub mod clock;
pub mod neighbor;
pub mod interface_test;
pub mod state;
pub mod packet_loop;
pub mod routing_core;
pub mod protocol;
pub mod server;
pub mod client;
pub mod utils;
pub mod ospf;
pub mod mesh;
pub mod hello;
