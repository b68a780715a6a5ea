//! Wall-clock readings, carried through the engine as opaque values.

use std::time::SystemTime;
use vstd::prelude::*;

verus! {

/// `std::time::SystemTime`, declared so that records can hold a reading.
/// Nothing inside a reading is visible to the verifier.
#[verifier::external_type_specification]
#[verifier::external_body]
pub struct ExSystemTime(SystemTime);

/// Reads the wall clock with `std::time::SystemTime::now`. The reading
/// depends on the machine, so nothing is claimed of it.
#[verifier::external_body]
pub(crate) fn wall_clock() -> SystemTime {
    SystemTime::now()
}

} // verus!
