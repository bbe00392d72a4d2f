//! The time of a build as seconds from the Unix epoch.

use vstd::prelude::*;

verus! {

/// Why the system clock gives no build time.
#[derive(Clone, Copy, Debug, PartialEq, Eq, Hash, Structural)]
pub enum BuildTimeError {
    /// The clock stands so far from the epoch that the seconds, given here,
    /// do not fit a Unix timestamp.
    Overflow(i128),
}

/// The seconds from the epoch to a clock that stands `Ok(secs)` after it or
/// `Err(secs)` before it.
pub open spec fn signed_seconds(offset: Result<u64, u64>) -> int {
    match offset {
        Ok(secs) => secs as int,
        Err(secs) => -(secs as int),
    }
}

/// The Unix timestamp of a clock that stands `Ok(secs)` after the epoch or
/// `Err(secs)` before it.
pub fn unix_timestamp(offset: Result<u64, u64>) -> (outcome: Result<i64, BuildTimeError>)
    ensures
        match outcome {
            Ok(timestamp) => timestamp == signed_seconds(offset),
            Err(BuildTimeError::Overflow(seconds)) => {
                &&& seconds == signed_seconds(offset)
                &&& !(i64::MIN <= signed_seconds(offset) <= i64::MAX)
            },
        },
{
    let timestamp: i128 = match offset {
        Ok(secs) => secs as i128,
        Err(secs) => -(secs as i128),
    };
    if timestamp < i64::MIN as i128 || timestamp > i64::MAX as i128 {
        Err(BuildTimeError::Overflow(timestamp))
    } else {
        Ok(timestamp as i64)
    }
}

} // verus!
