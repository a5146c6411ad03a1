//! The calls this library makes into outside crates.
use vstd::prelude::*;

verus! {

/// Relies on `uuid::Uuid::new_v4` and uuid's `Display`, which writes the
/// 36-character hyphenated form.
#[verifier::external_body]
pub(crate) fn new_order_id() -> (r: String)
    ensures
        r@.len() == 36,
{
    uuid::Uuid::new_v4().to_string()
}

/// Relies on `chrono::Utc::now` and `DateTime::timestamp`: the current time
/// in whole seconds since the Unix epoch. `Utc::now` panics on a clock set
/// before the epoch, so a returned time is not negative.
#[verifier::external_body]
pub(crate) fn unix_now() -> (r: i64)
    ensures
        r >= 0,
{
    chrono::Utc::now().timestamp()
}

} // verus!
