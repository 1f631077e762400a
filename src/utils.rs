//! Wall-clock timestamps in milliseconds since the Unix epoch.
use vstd::prelude::*;

verus! {

#[verifier::external_type_specification]
#[verifier::external_body]
pub struct ExSystemTime(std::time::SystemTime);

/// Relies on `std::time::SystemTime::now`: a reading of the system clock.
/// Nothing is known of the value read.
pub assume_specification[ std::time::SystemTime::now ]() -> std::time::SystemTime;

/// Relies on `core::time::Duration::as_millis`: the whole milliseconds of a
/// duration. The duration is opaque here, so nothing is stated of the count.
pub assume_specification[ core::time::Duration::as_millis ](d: &core::time::Duration) -> u128;

/// Relies on `std::time::SystemTime::duration_since` with the Unix epoch as the
/// earlier time: `None` stands for its error, which comes when `t` lies before
/// the epoch.
#[verifier::external_body]
fn since_unix_epoch(t: &std::time::SystemTime) -> (r: Option<core::time::Duration>) {
    t.duration_since(std::time::UNIX_EPOCH).ok()
}

/// The number of distinct `u64` values.
pub const U64_SPAN: u128 = 0x1_0000_0000_0000_0000;

/// The timestamp for a clock reading that lies `elapsed_ms` milliseconds after
/// the Unix epoch. The count is kept modulo 2^64, as a cast to `u64` keeps it.
/// A reading before the epoch (`None`) has no timestamp.
pub open spec fn timestamp_of(elapsed_ms: Option<u128>) -> Option<u64> {
    match elapsed_ms {
        Some(ms) => Some((ms % U64_SPAN) as u64),
        None => None,
    }
}

/// Turns the milliseconds elapsed since the Unix epoch into a timestamp;
/// `None`, a clock set before the epoch, stays `None`.
pub fn timestamp_from_elapsed(elapsed_ms: Option<u128>) -> (r: Option<u64>)
    ensures
        r == timestamp_of(elapsed_ms),
{
    match elapsed_ms {
        Some(ms) => Some((ms % U64_SPAN) as u64),
        None => None,
    }
}

/// The current time in milliseconds since the Unix epoch, read from the
/// system clock; `None` when the clock reads a time before the epoch. Any
/// reading may come back: it is whatever the clock says.
pub fn current_timestamp_ms() -> (r: Option<u64>) {
    let now = std::time::SystemTime::now();
    let elapsed = match since_unix_epoch(&now) {
        Some(d) => Some(d.as_millis()),
        None => None,
    };
    timestamp_from_elapsed(elapsed)
}

} // verus!
