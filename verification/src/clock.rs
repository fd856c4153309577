//! Wall-clock time for search time management.

use vstd::prelude::*;
use std::time::Instant;

verus! {

#[verifier::external_type_specification]
#[verifier::external_body]
pub struct ExInstant(Instant);

/// `Instant::now`: the current moment. Nothing is stated of it: it is the
/// time.
#[verifier::external_body]
pub(crate) fn clock_now() -> (r: Instant) {
    Instant::now()
}

/// `Instant::elapsed`, in whole milliseconds: how long ago `start` was.
/// Nothing is stated of the result: it depends on the time.
#[verifier::external_body]
pub(crate) fn millis_since(start: &Instant) -> (r: u64) {
    start.elapsed().as_millis() as u64
}

} // verus!
