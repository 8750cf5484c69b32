//! The points where the library leans on code Verus does not read: fresh
//! ids, the clock, and string formatting.
//!
//! The id and clock results depend on the machine (randomness, the wall
//! clock), so their contracts promise nothing; every caller is verified for
//! every value that can come back. The formatting result is pinned exactly,
//! against the rendering `decimal_digits` defines.

use vstd::prelude::*;

verus! {

/// Relies on uuid::Uuid::new_v4 and Uuid::as_u128: a version-4 UUID drawn
/// from the operating system's randomness, read out as its 128-bit value.
/// The result is random, so nothing is promised of it.
#[verifier::external_body]
pub(crate) fn fresh_id() -> u128 {
    uuid::Uuid::new_v4().as_u128()
}

/// Relies on chrono::Utc::now and DateTime::timestamp_millis: the current UTC
/// wall-clock time as milliseconds since the Unix epoch. The result depends
/// on the clock, so nothing is promised of it.
#[verifier::external_body]
pub(crate) fn now_millis() -> i64 {
    chrono::Utc::now().timestamp_millis()
}

/// Relies on std's `format!` with the `Display` of u128, which renders the
/// value as its decimal digits, most significant first, with no sign and no
/// leading zeros: exactly `decimal_digits`.
#[verifier::external_body]
pub(crate) fn render_not_found(id: u128) -> (s: String)
    ensures
        s@ == crate::model::not_found_reason(id),
{
    format!("Order {} not found in sell or buy side", id)
}

} // verus!
