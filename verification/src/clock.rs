use vstd::prelude::*;

verus! {

/// Relies on std::time::SystemTime::now, read as milliseconds since
/// the Unix epoch; a clock set before the epoch reads as a negative
/// count instead of failing. The clock can say anything, so nothing is
/// promised of the result; callers clamp it into the supported range
/// themselves.
#[verifier::external_body]
pub fn now_millis() -> i64 {
    match std::time::SystemTime::now().duration_since(std::time::UNIX_EPOCH) {
        Ok(d) => i64::try_from(d.as_millis()).unwrap_or(i64::MAX),
        Err(_) => -1,
    }
}

} // verus!
