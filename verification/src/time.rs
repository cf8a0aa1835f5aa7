//! Points in time and offsets from UTC, as the calendar crate judges them.

use vstd::prelude::*;

verus! {

/// Whether the calendar can hold the instant `secs` seconds and `nanos`
/// nanoseconds after the start of 1970, UTC.
pub uninterp spec fn timestamp_representable(secs: i64, nanos: u32) -> bool;

/// Asks `chrono::DateTime::from_timestamp` whether it accepts the instant.
/// The contract only names the answer.
#[verifier::external_body]
pub(crate) fn is_timestamp(secs: i64, nanos: u32) -> (b: bool)
    ensures
        b == timestamp_representable(secs, nanos),
{
    chrono::DateTime::from_timestamp(secs, nanos).is_some()
}

/// Whether `secs` seconds east of UTC is an offset that a time zone can
/// have: less than a day either way.
pub open spec fn offset_in_range(secs: int) -> bool {
    -86_400 < secs < 86_400
}

/// Asks `chrono::FixedOffset::east_opt` whether it accepts the offset; it
/// accepts exactly those of less than a day either way.
#[verifier::external_body]
pub(crate) fn is_offset(secs: i32) -> (b: bool)
    ensures
        b == offset_in_range(secs as int),
{
    chrono::FixedOffset::east_opt(secs).is_some()
}

} // verus!
