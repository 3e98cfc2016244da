//! The clock: the engine's only ambient input.

use vstd::prelude::*;

verus! {

/// Relies on chrono's `Utc::now`: the current wall-clock time in epoch
/// seconds.  Nothing can be promised of an ambient clock reading; every
/// caller's contract holds for every value it may return.
#[verifier::external_body]
pub fn time() -> (r: u32) {
    chrono::Utc::now().timestamp() as u32
}

} // verus!
