//! Plain-value pieces of the system surface.

use vstd::prelude::*;

verus! {

/// A point in time as plain values: whole seconds since the epoch and the
/// nanosecond remainder. The host converts its clock values into this
/// form at the boundary.
#[derive(Copy, Clone, PartialEq, Eq, Structural, Debug)]
pub struct Timestamp {
    pub secs: u64,
    pub nanos: u32,
}

/// The whole-second rendering of a file time: the nanosecond remainder is
/// dropped.
pub fn time_to_num(time: Timestamp) -> (r: u64)
    ensures
        r == time.secs,
{
    time.secs
}

} // verus!
