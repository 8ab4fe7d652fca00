//! Instants as the library handles them, and the recording start time of a
//! meeting.

use vstd::prelude::*;

verus! {

/// An instant in UTC: whole seconds since the Unix epoch, and nanoseconds
/// past that second.
#[derive(Debug, Clone, Copy, PartialEq, Eq, Structural)]
pub struct UtcTimestamp {
    pub seconds: i64,
    pub nanos: u32,
}

/// The instant that the RFC 3339 text `s` denotes
/// (`chrono::DateTime::parse_from_rfc3339`, taken to UTC), as seconds and
/// nanoseconds; none where `s` is not RFC 3339.
pub uninterp spec fn rfc3339_instant(s: Seq<char>) -> Option<(i64, u32)>;

/// Calls `chrono::DateTime::parse_from_rfc3339`, converts the instant to UTC
/// and reads its seconds and nanoseconds. The contract names the result, a
/// function of the text alone.
#[verifier::external_body]
fn parse_rfc3339(s: &str) -> (instant: Option<UtcTimestamp>)
    ensures
        match instant {
            Some(t) => rfc3339_instant(s@) == Some((t.seconds, t.nanos)),
            None => rfc3339_instant(s@) is None,
        },
{
    match chrono::DateTime::parse_from_rfc3339(s) {
        Ok(parsed) => {
            let utc = parsed.with_timezone(&chrono::Utc);
            Some(UtcTimestamp { seconds: utc.timestamp(), nanos: utc.timestamp_subsec_nanos() })
        },
        Err(_) => None,
    }
}

/// The start time of a recording: the `created_at` text that the recording
/// wrote into its folder's metadata, when there is one and it is RFC 3339;
/// otherwise `now`.
pub open spec fn start_time(recorded: Option<Seq<char>>, now: UtcTimestamp) -> UtcTimestamp {
    match recorded {
        Some(text) => match rfc3339_instant(text) {
            Some((seconds, nanos)) => UtcTimestamp { seconds, nanos },
            None => now,
        },
        None => now,
    }
}

/// The true wall-clock start of a recording: the `created_at` of its
/// metadata when that parses, else `now`.
pub fn resolve_meeting_start_time(recorded_created_at: &Option<String>, now: UtcTimestamp) -> (start:
    UtcTimestamp)
    ensures
        start == start_time(recorded_created_at.deep_view(), now),
{
    match recorded_created_at {
        Some(text) => match parse_rfc3339(text.as_str()) {
            Some(instant) => instant,
            None => now,
        },
        None => now,
    }
}

} // verus!
