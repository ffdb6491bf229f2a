//! How long to wait once the request quota is used up.
//!
//! The tracker says when the quota is renewed: a count of seconds since the
//! start of 1970, sent as text. The advice is worded from that count and from
//! the caller's clock.

use vstd::prelude::*;
use vstd::string::*;
use crate::text::{integer_value, signed_decimal, signed_decimal_text};

verus! {

/// Why no waiting time could be worked out.
#[derive(Debug, Clone, Copy, PartialEq, Eq, Structural)]
pub enum WaitError {
    /// The renewal time is not a whole number of seconds.
    NotANumber,
    /// The renewal time is beyond the calendar.
    InvalidTimestamp,
    /// The clock reading is beyond the calendar, or its fraction is a second or more.
    InvalidClock,
}

/// The count of seconds that a text stands for, where it stands for a number
/// and the number fits.
pub open spec fn parsed_seconds(text: Seq<char>) -> Option<i64> {
    match integer_value(text) {
        Some(value) => if i64::MIN <= value <= i64::MAX {
            Some(value as i64)
        } else {
            None
        },
        None => None,
    }
}

/// Whether chrono's `TimeZone::timestamp_opt`, asked of `Utc`, maps the
/// seconds and nanoseconds to a single moment.
pub uninterp spec fn is_moment(secs: i64, nanos: u32) -> bool;

/// The whole seconds from a clock reading to a later or earlier full second,
/// rounded towards zero.
pub open spec fn seconds_between(reset: int, now_secs: int, now_nanos: int) -> int {
    if now_nanos > 0 && reset > now_secs {
        reset - now_secs - 1
    } else {
        reset - now_secs
    }
}

/// The whole minutes in a number of seconds, rounded towards zero.
pub open spec fn whole_minutes(seconds: int) -> int {
    if seconds >= 0 {
        seconds / 60
    } else {
        -((-seconds) / 60)
    }
}

/// Calls `str::parse::<i64>`. The claim: it accepts decimal digits with or
/// without one sign before them, and nothing else, neither an empty text nor
/// blanks, and reports a number that does not fit the type as an error.
#[verifier::external_body]
fn parse_seconds(text: &str) -> (seconds: Option<i64>)
    ensures
        seconds == parsed_seconds(text@),
{
    text.parse::<i64>().ok()
}

/// Calls chrono's `TimeZone::timestamp_opt` on `Utc` and `MappedLocalTime::single`,
/// and tells whether a moment came back. Nothing is claimed of which counts
/// are moments; the answer is only given its name.
#[verifier::external_body]
fn moment_exists(secs: i64, nanos: u32) -> (known: bool)
    ensures
        known == is_moment(secs, nanos),
{
    chrono::TimeZone::timestamp_opt(&chrono::Utc, secs, nanos).single().is_some()
}

/// Subtracts two moments of chrono, the renewal time and the clock reading,
/// and calls `TimeDelta::num_seconds` on the difference. The claim: chrono
/// keeps the exact difference, and `num_seconds` drops its fraction towards
/// zero. Readings with a fraction of a second or more, by which chrono marks
/// leap seconds, are left out.
#[verifier::external_body]
fn seconds_until(reset: i64, now_secs: i64, now_nanos: u32) -> (seconds: i64)
    requires
        is_moment(reset, 0),
        is_moment(now_secs, now_nanos),
        now_nanos < 1_000_000_000,
    ensures
        seconds == seconds_between(reset as int, now_secs as int, now_nanos as int),
{
    let renewal = chrono::TimeZone::timestamp_opt(&chrono::Utc, reset, 0).single().unwrap();
    let now = chrono::TimeZone::timestamp_opt(&chrono::Utc, now_secs, now_nanos).single().unwrap();
    (renewal - now).num_seconds()
}

/// As `seconds_until`, with `TimeDelta::num_minutes`. The claim: it is the
/// number of whole seconds divided by 60, rounded towards zero.
#[verifier::external_body]
fn minutes_until(reset: i64, now_secs: i64, now_nanos: u32) -> (minutes: i64)
    requires
        is_moment(reset, 0),
        is_moment(now_secs, now_nanos),
        now_nanos < 1_000_000_000,
    ensures
        minutes == whole_minutes(
            seconds_between(reset as int, now_secs as int, now_nanos as int),
        ),
{
    let renewal = chrono::TimeZone::timestamp_opt(&chrono::Utc, reset, 0).single().unwrap();
    let now = chrono::TimeZone::timestamp_opt(&chrono::Utc, now_secs, now_nanos).single().unwrap();
    (renewal - now).num_minutes()
}

/// The wording of a waiting time: in minutes where at least one whole minute
/// is left, in seconds otherwise.
pub open spec fn wait_text(minutes: int, seconds: int) -> Seq<char> {
    if minutes > 0 {
        "after "@ + signed_decimal(minutes) + " minute(s)"@
    } else {
        "after "@ + signed_decimal(seconds) + " second(s)"@
    }
}

/// Words a waiting time that is given in whole minutes and in whole seconds.
pub fn wait_estimate(minutes: i64, seconds: i64) -> (text: String)
    ensures
        text@ == wait_text(minutes as int, seconds as int),
{
    let mut text = String::from_str("after ");
    if minutes > 0 {
        let count = signed_decimal_text(minutes);
        text.append(count.as_str());
        text.append(" minute(s)");
    } else {
        let count = signed_decimal_text(seconds);
        text.append(count.as_str());
        text.append(" second(s)");
    }
    text
}

/// The advice for a renewal time as the tracker sent it (`None` where what it
/// sent is no text) and a clock reading in seconds and nanoseconds.
pub open spec fn advice(reset: Option<&str>, now_secs: i64, now_nanos: u32) -> Result<
    Seq<char>,
    WaitError,
> {
    match reset {
        None => Ok("in sometime"@),
        Some(text) => match parsed_seconds(text@) {
            None => Err(WaitError::NotANumber),
            Some(renewal) => if !is_moment(renewal, 0) {
                Err(WaitError::InvalidTimestamp)
            } else if now_nanos >= 1_000_000_000 || !is_moment(now_secs, now_nanos) {
                Err(WaitError::InvalidClock)
            } else {
                let seconds = seconds_between(renewal as int, now_secs as int, now_nanos as int);
                Ok(wait_text(whole_minutes(seconds), seconds))
            },
        },
    }
}

/// Says when to try again: how long it is from the clock reading to the
/// renewal time.
pub fn retry_advice(reset: Option<&str>, now_secs: i64, now_nanos: u32) -> (outcome: Result<
    String,
    WaitError,
>)
    ensures
        match advice(reset, now_secs, now_nanos) {
            Ok(text) => outcome is Ok && outcome->Ok_0@ == text,
            Err(e) => outcome == Err::<String, WaitError>(e),
        },
{
    let text = match reset {
        None => {
            return Ok(String::from_str("in sometime"));
        },
        Some(text) => text,
    };
    let renewal = match parse_seconds(text) {
        None => {
            return Err(WaitError::NotANumber);
        },
        Some(renewal) => renewal,
    };
    if !moment_exists(renewal, 0) {
        return Err(WaitError::InvalidTimestamp);
    }
    if now_nanos >= 1_000_000_000 || !moment_exists(now_secs, now_nanos) {
        return Err(WaitError::InvalidClock);
    }
    let minutes = minutes_until(renewal, now_secs, now_nanos);
    let seconds = seconds_until(renewal, now_secs, now_nanos);
    Ok(wait_estimate(minutes, seconds))
}

} // verus!
