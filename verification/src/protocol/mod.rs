//! Protocol messages, their byte formats and their validation.

pub mod message_types;
pub mod hello_protocol;
pub mod packet_parser;
