//! Durations as whole numbers of milliseconds.

use std::time::Duration;

use vstd::prelude::*;

verus! {

/// The length of a duration in nanoseconds, as [`Duration::as_nanos`] gives it.
pub uninterp spec fn duration_nanos(duration: Duration) -> nat;

/// [`Duration::as_nanos`] returns the total number of nanoseconds in the
/// duration.
pub assume_specification[ std::time::Duration::as_nanos ](span: &std::time::Duration) -> (nanos: u128)
    ensures
        nanos as nat == duration_nanos(*span),
;

/// [`Duration::from_millis`] makes a duration of that many milliseconds, each
/// of them a million nanoseconds.
pub assume_specification[ std::time::Duration::from_millis ](millis: u64) -> (span: std::time::Duration)
    ensures
        duration_nanos(span) == millis as nat * 1_000_000,
;

/// Whether a duration is a positive whole number of milliseconds, at most
/// `max`.
pub open spec fn is_whole_millis(duration: Duration, max: nat) -> bool {
    let nanos = duration_nanos(duration);
    nanos > 0 && nanos % 1_000_000 == 0 && nanos / 1_000_000 <= max
}

/// The whole milliseconds in a duration.
pub open spec fn millis_of(duration: Duration) -> nat {
    duration_nanos(duration) / 1_000_000
}

/// The durations that are accepted are those of one millisecond, two
/// milliseconds and so on up to the bound, and each is read as its number of
/// milliseconds.
pub proof fn lemma_whole_milliseconds(duration: Duration, max: nat)
    ensures
        is_whole_millis(duration, max) ==> 1 <= millis_of(duration) <= max && duration_nanos(
            duration,
        ) == millis_of(duration) * 1_000_000,
        forall|ms: nat|
            1 <= ms <= max && duration_nanos(duration) == #[trigger] (ms * 1_000_000)
                ==> is_whole_millis(duration, max) && millis_of(duration) == ms,
{
}

/// The milliseconds of a duration that is a positive whole number of them and
/// fits in `u64`.
pub fn whole_millis(duration: Duration) -> (millis: Option<u64>)
    ensures
        match millis {
            Some(ms) => is_whole_millis(duration, u64::MAX as nat) && ms as nat == millis_of(
                duration,
            ),
            None => !is_whole_millis(duration, u64::MAX as nat),
        },
{
    let nanos: u128 = duration.as_nanos();
    let millis: u128 = nanos / 1_000_000;
    if nanos == 0 || nanos % 1_000_000 != 0 || millis > u64::MAX as u128 {
        None
    } else {
        Some(millis as u64)
    }
}

/// The milliseconds of a duration that is a positive whole number of them and
/// fits in `u32`, the width of durations on the wire.
pub fn wire_millis(duration: Duration) -> (millis: Option<u32>)
    ensures
        match millis {
            Some(ms) => is_whole_millis(duration, u32::MAX as nat) && ms as nat == millis_of(
                duration,
            ),
            None => !is_whole_millis(duration, u32::MAX as nat),
        },
{
    match whole_millis(duration) {
        Some(ms) => if ms > u32::MAX as u64 {
            None
        } else {
            Some(ms as u32)
        },
        None => None,
    }
}

} // verus!
