//! The wall clock, as RFC 3339 UTC text. The store orders and compares
//! instants textually; for the text chrono produces, that order agrees
//! with time.

use vstd::prelude::*;

verus! {

/// Relies on chrono's `Utc::now` and `to_rfc3339`: the current instant as
/// RFC 3339 UTC text. Nothing is assumed of the value.
#[verifier::external_body]
pub fn now_rfc3339() -> String {
    chrono::Utc::now().to_rfc3339()
}

/// The largest age, in days, the clock arithmetic accepts: about ten
/// thousand years, far inside the range the time library can represent,
/// so the subtraction below cannot leave it.
pub const MAX_AGE_DAYS: u32 = 3650000;

/// Relies on chrono's `Utc::now`, `Duration::days` and `to_rfc3339`: the
/// instant the given number of days before now, as RFC 3339 UTC text.
/// Nothing is assumed of the value. The subtraction aborts outside the
/// library's representable range, so the age is bounded.
#[verifier::external_body]
pub fn days_ago_rfc3339(days: u32) -> String
    requires
        days <= MAX_AGE_DAYS,
{
    (chrono::Utc::now() - chrono::Duration::days(days as i64)).to_rfc3339()
}

} // verus!
