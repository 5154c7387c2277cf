//! The protocol server's decisions and the replies it sends.

pub mod response_handler;
pub mod protocol_server;
