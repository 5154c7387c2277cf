use vstd::prelude::*;
use crate::text::concat;

verus! {

/// The log line of an informational message: `[INFO] <message>`.
pub fn log_info(message: &str) -> (line: String)
    ensures
        line@ == "[INFO] "@ + message@,
{
    concat("[INFO] ", message)
}

/// The log line of an error: `[ERROR] <message>`.
pub fn log_error(message: &str) -> (line: String)
    ensures
        line@ == "[ERROR] "@ + message@,
{
    concat("[ERROR] ", message)
}

/// The log line of a debugging message: `[DEBUG] <message>`.
pub fn log_debug(message: &str) -> (line: String)
    ensures
        line@ == "[DEBUG] "@ + message@,
{
    concat("[DEBUG] ", message)
}

} // verus!
