use vstd::prelude::*;

verus! {

/// Seconds since the Unix epoch by the system clock (0 if the clock reads
/// earlier): `SystemTime::now().duration_since(UNIX_EPOCH)`. Nothing is
/// promised of the value, which depends on the clock.
#[verifier::external_body]
pub(crate) fn unix_time_secs() -> u64 {
    std::time::SystemTime::now()
        .duration_since(std::time::UNIX_EPOCH)
        .map(|d| d.as_secs())
        .unwrap_or(0)
}

} // verus!
