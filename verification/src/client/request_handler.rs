use vstd::prelude::*;
use crate::client::protocol_client::{Request, Response};

verus! {

/// Every request is answered `OK`, with no data.
pub fn process_request(request: Request) -> (r: Response)
    ensures
        r.status@ == "OK"@,
        r.data@.len() == 0,
{
    Response { status: "OK".to_string(), data: String::new() }
}

} // verus!
