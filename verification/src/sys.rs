//! Readings of the clock and fresh identifiers, taken from outside crates.
//! Nothing can be promised about these values beyond their shape, so the
//! code that consumes them is verified for every value they could return.

use vstd::prelude::*;

verus! {

/// Relies on `std::time::SystemTime::now` and
/// `SystemTime::duration_since(UNIX_EPOCH)`: a nanosecond reading of the
/// wall clock, zero if the clock sits before the epoch.
#[verifier::external_body]
pub fn now_nanos() -> u64 {
    match std::time::SystemTime::now().duration_since(std::time::UNIX_EPOCH) {
        Ok(d) => d.as_nanos() as u64,
        Err(_) => 0,
    }
}

/// Relies on `chrono::Utc::now` and `DateTime::timestamp`: the wall clock
/// as seconds since the epoch.
#[verifier::external_body]
pub fn now_unix_seconds() -> i64 {
    chrono::Utc::now().timestamp()
}

/// Relies on `chrono::Utc::now`, `TimeDelta::days` and the `Display` of
/// `DateTime<Utc>`: the moment the given number of days from now, written
/// out. The bound keeps both the delta and the sum in range, so neither
/// call panics.
#[verifier::external_body]
pub fn expiry_string_days_from_now(days: u32) -> String
    requires
        days <= 36500,
{
    (chrono::Utc::now() + chrono::TimeDelta::days(days as i64)).to_string()
}

/// Relies on `uuid::Uuid::new_v4` and its `Display`: a fresh random
/// identifier in the hyphenated form, which is always 36 characters.
#[verifier::external_body]
pub fn new_session_id() -> (r: String)
    ensures
        r@.len() == 36,
{
    uuid::Uuid::new_v4().to_string()
}

} // verus!
