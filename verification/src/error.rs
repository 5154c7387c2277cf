use vstd::prelude::*;

verus! {

#[verifier::external_type_specification]
#[verifier::external_body]
pub struct ExIoError(std::io::Error);

#[verifier::external_type_specification]
#[verifier::external_body]
pub struct ExJsonError(serde_json::Error);

/// Errors of the router.
#[derive(Debug)]
pub enum AppError {
    NetworkError(String),
    ConfigError(String),
    IOError(std::io::Error),
    SerializationError(serde_json::Error),
    RouteError(String),
    CryptoError(String),
}

/// Errors of the protocol server and its parts.
#[derive(Debug)]
pub enum ProtocolError {
    Io(std::io::Error),
    NetworkInterface(String),
    Protocol(String),
    Serialization(serde_json::Error),
}

} // verus!
