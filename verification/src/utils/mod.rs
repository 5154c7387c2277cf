//! Configuration of the protocol server and log lines.

pub mod config;
pub mod logger;
