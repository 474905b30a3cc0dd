//! The clock that times keepalives and timeouts.
use vstd::prelude::*;

verus! {

/// Calls `time::precise_time_ns`: a reading of the system's monotonic clock in
/// nanoseconds since an unspecified start. Nothing is claimed of the value, and two
/// readings may differ.
#[verifier::external_body]
pub(crate) fn precise_time_ns() -> u64 {
    time::precise_time_ns()
}

} // verus!
