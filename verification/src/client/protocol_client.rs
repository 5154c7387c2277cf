use vstd::prelude::*;

verus! {

/// A client request: its kind and its payload.
#[derive(Debug)]
pub struct Request {
    pub request_type: String,
    pub payload: String,
}

/// The server's answer: a status and data.
#[derive(Debug)]
pub struct Response {
    pub status: String,
    pub data: String,
}

} // verus!
