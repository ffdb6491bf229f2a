use issue_ranker::endpoints::{get_api_url, get_reactions_url};
use issue_ranker::model::Issue;
use issue_ranker::ratelimit::{retry_advice, wait_estimate, WaitError};
use issue_ranker::text::{decimal_text, signed_decimal_text};

#[test]
fn issues_address() {
    assert_eq!(
        get_api_url("angular", "angular"),
        "https://api.github.com/repos/angular/angular/issues?state=open&per_page=100"
    );
    assert_eq!(
        get_api_url("rust-lang", "rust"),
        "https://api.github.com/repos/rust-lang/rust/issues?state=open&per_page=100"
    );
}

#[test]
fn reactions_address() {
    let issue = Issue { number: 50123, title: "slow build".to_string(), is_pull_request: false };
    assert_eq!(
        get_reactions_url(&issue, "angular", "angular"),
        "https://api.github.com/repos/angular/angular/issues/50123/reactions"
    );
    let first = Issue { number: 0, title: String::new(), is_pull_request: false };
    assert_eq!(
        get_reactions_url(&first, "o", "r"),
        "https://api.github.com/repos/o/r/issues/0/reactions"
    );
}

#[test]
fn decimal_digits() {
    assert_eq!(decimal_text(0), "0");
    assert_eq!(decimal_text(9), "9");
    assert_eq!(decimal_text(10), "10");
    assert_eq!(decimal_text(1234567890), "1234567890");
    assert_eq!(decimal_text(u64::MAX), "18446744073709551615");
}

#[test]
fn signed_decimal_digits() {
    assert_eq!(signed_decimal_text(0), "0");
    assert_eq!(signed_decimal_text(-1), "-1");
    assert_eq!(signed_decimal_text(305), "305");
    assert_eq!(signed_decimal_text(i64::MAX), "9223372036854775807");
    assert_eq!(signed_decimal_text(i64::MIN), "-9223372036854775808");
}

#[test]
fn wait_is_worded_in_minutes_from_one_minute_on() {
    assert_eq!(wait_estimate(2, 125), "after 2 minute(s)");
    assert_eq!(wait_estimate(1, 60), "after 1 minute(s)");
    assert_eq!(wait_estimate(0, 59), "after 59 second(s)");
    assert_eq!(wait_estimate(0, 0), "after 0 second(s)");
    assert_eq!(wait_estimate(-3, -185), "after -185 second(s)");
}

#[test]
fn unreadable_renewal_time() {
    assert_eq!(retry_advice(None, 1_700_000_000, 0), Ok("in sometime".to_string()));
}

#[test]
fn renewal_time_that_is_no_number() {
    assert_eq!(retry_advice(Some("soon"), 1_700_000_000, 0), Err(WaitError::NotANumber));
    assert_eq!(retry_advice(Some(""), 1_700_000_000, 0), Err(WaitError::NotANumber));
    assert_eq!(retry_advice(Some("12.5"), 1_700_000_000, 0), Err(WaitError::NotANumber));
    assert_eq!(
        retry_advice(Some("9223372036854775808"), 1_700_000_000, 0),
        Err(WaitError::NotANumber)
    );
}

#[test]
fn renewal_time_beyond_the_calendar() {
    assert_eq!(
        retry_advice(Some("9223372036854775807"), 1_700_000_000, 0),
        Err(WaitError::InvalidTimestamp)
    );
}

#[test]
fn clock_reading_that_is_no_moment() {
    assert_eq!(retry_advice(Some("1000"), i64::MAX, 0), Err(WaitError::InvalidClock));
    assert_eq!(retry_advice(Some("1000"), 900, 1_000_000_000), Err(WaitError::InvalidClock));
    assert_eq!(retry_advice(Some("1000"), 959, 1_500_000_000), Err(WaitError::InvalidClock));
}

#[test]
fn wait_from_clock_to_renewal() {
    assert_eq!(retry_advice(Some("1000"), 0, 0), Ok("after 16 minute(s)".to_string()));
    assert_eq!(retry_advice(Some("1000"), 880, 0), Ok("after 2 minute(s)".to_string()));
    assert_eq!(retry_advice(Some("1000"), 940, 0), Ok("after 1 minute(s)".to_string()));
    assert_eq!(retry_advice(Some("1000"), 940, 1), Ok("after 59 second(s)".to_string()));
    assert_eq!(
        retry_advice(Some("1000"), 970, 500_000_000),
        Ok("after 29 second(s)".to_string())
    );
    assert_eq!(
        retry_advice(Some("1000"), 999, 500_000_000),
        Ok("after 0 second(s)".to_string())
    );
    assert_eq!(retry_advice(Some("1000"), 1000, 0), Ok("after 0 second(s)".to_string()));
    assert_eq!(
        retry_advice(Some("1000"), 1000, 999_999_999),
        Ok("after 0 second(s)".to_string())
    );
    assert_eq!(
        retry_advice(Some("1000"), 1010, 500_000_000),
        Ok("after -10 second(s)".to_string())
    );
    assert_eq!(retry_advice(Some("1000"), 1300, 0), Ok("after -300 second(s)".to_string()));
    assert_eq!(retry_advice(Some("+1000"), 880, 0), Ok("after 2 minute(s)".to_string()));
    assert_eq!(retry_advice(Some("-60"), -200, 0), Ok("after 2 minute(s)".to_string()));
    assert_eq!(
        retry_advice(Some("1700003600"), 1_700_000_000, 250),
        Ok("after 59 minute(s)".to_string())
    );
}
