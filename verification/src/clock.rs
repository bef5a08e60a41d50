//! The process clock, as Unix seconds.
//!
//! Every time-dependent rule in this library is a verified function of an
//! explicit `now` argument; this module is the one place the wall clock is
//! actually read.

use vstd::prelude::*;

verus! {

/// Relies on chrono::Utc::now and DateTime::timestamp: the current wall-clock
/// time as whole seconds since the Unix epoch. Nothing can be promised about
/// the value a clock returns.
#[verifier::external_body]
pub fn now_unix() -> i64 {
    chrono::Utc::now().timestamp()
}

} // verus!
