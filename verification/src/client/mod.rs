//! The client's requests and responses.

pub mod protocol_client;
pub mod request_handler;
