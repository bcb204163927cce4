//! The wall clock.

use vstd::prelude::*;

verus! {

/// The time now, in whole seconds since the start of 1970: what
/// `chrono::Utc::now` reports, read by `DateTime::timestamp`. The clock of
/// the machine decides the value, so nothing is claimed of it. `Utc::now`
/// does not return where that clock stands before 1970.
#[verifier::external_body]
pub(crate) fn current_timestamp() -> (now: i64) {
    chrono::Utc::now().timestamp()
}

} // verus!
