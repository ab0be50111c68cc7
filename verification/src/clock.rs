//! The monotonic clock that timestamps every event.

use vstd::prelude::*;

verus! {

/// Reads `minstant::Instant::now()` and hands it back as the nanoseconds
/// that lie between `minstant::Instant::ZERO` and that instant.
///
/// Nothing is claimed of the reading: it depends on when the call is made.
#[verifier::external_body]
pub(crate) fn now_nanos() -> (nanos: u64) {
    minstant::Instant::now().duration_since(minstant::Instant::ZERO).as_nanos() as u64
}

} // verus!
