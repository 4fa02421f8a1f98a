//! The pacing of ticks: how long the server rests once a tick is done.

use vstd::prelude::*;

verus! {

/// The number of nanoseconds in a millisecond.
pub const NANOS_PER_MILLI: u128 = 1_000_000;

/// How long the server rests after a tick, in nanoseconds: what is left of
/// the tick where the tick took fewer whole milliseconds than it is long,
/// nothing where it took longer, and a whole tick where the time that it
/// took is not known.
pub open spec fn rest_after(tick_millis: u64, elapsed_nanos: Option<u128>) -> int {
    match elapsed_nanos {
        None => tick_millis * NANOS_PER_MILLI,
        Some(elapsed) => if elapsed / NANOS_PER_MILLI < tick_millis {
            tick_millis * NANOS_PER_MILLI - elapsed
        } else {
            0
        },
    }
}

/// How long the server rests after a tick of `tick_millis` milliseconds
/// that took `elapsed_nanos` nanoseconds, in nanoseconds.
pub fn rest(tick_millis: u64, elapsed_nanos: Option<u128>) -> (r: u128)
    ensures
        r == rest_after(tick_millis, elapsed_nanos),
        r <= tick_millis * NANOS_PER_MILLI,
{
    let full: u128 = tick_millis as u128 * NANOS_PER_MILLI;
    match elapsed_nanos {
        None => full,
        Some(elapsed) => {
            if elapsed / NANOS_PER_MILLI < tick_millis as u128 {
                full - elapsed
            } else {
                0
            }
        },
    }
}

} // verus!
