//! Wall-clock time in nanoseconds.

use vstd::prelude::*;

use crate::window::NS_PER_SEC;

verus! {

/// Wall-clock time in nanoseconds since the UNIX epoch, from a reading of the clock: what
/// has passed since the epoch, or nothing where the clock stands before it. Used to stamp
/// live packets and to drive time-window detectors.
pub fn now_nanos(since_epoch: Option<u128>) -> (ns: u64)
    ensures
        ns == (match since_epoch {
            Some(n) => n as int % 0x1_0000_0000_0000_0000,
            None => 0,
        }),
{
    match since_epoch {
        Some(n) => (n % 0x1_0000_0000_0000_0000) as u64,
        None => 0,
    }
}

/// Convert nanoseconds to whole seconds (floor).
pub fn nanos_to_secs(ns: u64) -> (s: u64)
    ensures
        s == ns / NS_PER_SEC,
{
    ns / NS_PER_SEC
}

} // verus!
