//! Dates given on the command line: RFC 3339, a bare year, `YYYY-MM-DD`, or
//! `YYYY-MM-DDTHH:MM:SS`, all in UTC unless they say otherwise.
use vstd::prelude::*;
use crate::cve::Timestamp;
use crate::text::chars_of;

verus! {

/// The instant of an RFC 3339 date-time: `chrono::DateTime::parse_from_rfc3339`.
pub uninterp spec fn rfc3339_time(s: Seq<char>) -> Option<Timestamp>;

/// Midnight UTC of a `%Y-%m-%d` date: `chrono::NaiveDate::parse_from_str`.
pub uninterp spec fn day_time(s: Seq<char>) -> Option<Timestamp>;

/// A `%Y-%m-%dT%H:%M:%S` date-time taken as UTC: `chrono::NaiveDateTime::parse_from_str`.
pub uninterp spec fn day_clock_time(s: Seq<char>) -> Option<Timestamp>;

/// Reads an RFC 3339 date-time, such as `2021-01-01T00:00:00+02:00`, as an instant.
///
/// Calls `chrono::DateTime::parse_from_rfc3339` and converts the result to UTC; the contract
/// only ties the result to the text through the name `rfc3339_time`.
#[verifier::external_body]
fn parse_rfc3339(s: &str) -> (r: Option<Timestamp>)
    ensures
        r == rfc3339_time(s@),
{
    match chrono::DateTime::parse_from_rfc3339(s) {
        Ok(dt) => {
            let utc = dt.with_timezone(&chrono::Utc);
            Some(Timestamp { secs: utc.timestamp(), nanos: utc.timestamp_subsec_nanos() })
        },
        Err(_) => None,
    }
}

/// Reads a `YYYY-MM-DD` date as midnight UTC.
///
/// Calls `chrono::NaiveDate::parse_from_str` with `%Y-%m-%d`, then takes midnight of that day
/// in UTC; the contract only ties the result to the text through the name `day_time`.
#[verifier::external_body]
fn parse_day(s: &str) -> (r: Option<Timestamp>)
    ensures
        r == day_time(s@),
{
    match chrono::NaiveDate::parse_from_str(s, "%Y-%m-%d") {
        Ok(d) => match d.and_hms_opt(0, 0, 0) {
            Some(naive) => {
                let dt = naive.and_utc();
                Some(Timestamp { secs: dt.timestamp(), nanos: dt.timestamp_subsec_nanos() })
            },
            None => None,
        },
        Err(_) => None,
    }
}

/// Reads a `YYYY-MM-DDTHH:MM:SS` date-time as UTC.
///
/// Calls `chrono::NaiveDateTime::parse_from_str` with `%Y-%m-%dT%H:%M:%S` and takes the
/// result as UTC; the contract only ties the result to the text through the name
/// `day_clock_time`.
#[verifier::external_body]
fn parse_day_clock(s: &str) -> (r: Option<Timestamp>)
    ensures
        r == day_clock_time(s@),
{
    match chrono::NaiveDateTime::parse_from_str(s, "%Y-%m-%dT%H:%M:%S") {
        Ok(naive) => {
            let dt = naive.and_utc();
            Some(Timestamp { secs: dt.timestamp(), nanos: dt.timestamp_subsec_nanos() })
        },
        Err(_) => None,
    }
}

/// The number of leap years of the proleptic Gregorian calendar from year 1 to year `y`.
pub open spec fn leap_years_through(y: int) -> int {
    y / 4 - y / 100 + y / 400
}

/// The number of days from 1970-01-01 to January 1 of `year`.
pub open spec fn days_before_year(year: int) -> int {
    365 * (year - 1970) + leap_years_through(year - 1) - leap_years_through(1969)
}

/// Midnight UTC of January 1 of `year`.
pub open spec fn new_year(year: int) -> Timestamp {
    Timestamp { secs: (days_before_year(year) * 86400) as i64, nanos: 0 }
}

/// Midnight UTC of January 1 of a four-digit year.
fn new_year_time(year: i32) -> (t: Timestamp)
    requires
        0 <= year <= 9999,
    ensures
        t == new_year(year as int),
{
    let x: i64 = year as i64 - 1 + 400;
    assert(x / 4 - 100 == (year - 1) / 4) by (nonlinear_arith)
        requires x == year - 1 + 400, 0 <= year <= 9999;
    assert(x / 100 - 4 == (year - 1) / 100) by (nonlinear_arith)
        requires x == year - 1 + 400, 0 <= year <= 9999;
    assert(x / 400 - 1 == (year - 1) / 400) by (nonlinear_arith)
        requires x == year - 1 + 400, 0 <= year <= 9999;
    let leaps: i64 = (x / 4 - 100) - (x / 100 - 4) + (x / 400 - 1);
    let days: i64 = 365 * (year as i64 - 1970) + leaps - 477;
    assert(leap_years_through(1969) == 477);
    Timestamp { secs: days * 86400, nanos: 0 }
}

/// Whether a text is a year: four ASCII digits.
pub open spec fn is_year_text(s: Seq<char>) -> bool {
    s.len() == 4 && forall|i: int| 0 <= i < 4 ==> '0' <= #[trigger] s[i] <= '9'
}

/// The value of four decimal digits.
pub open spec fn year_value(s: Seq<char>) -> int {
    ((s[0] as int - 48) * 1000 + (s[1] as int - 48) * 100 + (s[2] as int - 48) * 10 + (s[3] as int
        - 48))
}

/// The message for a date that cannot be read.
pub open spec fn invalid_date_message(s: Seq<char>) -> Seq<char> {
    "invalid date: "@ + s + ". Use YYYY-MM-DD or ISO 8601."@
}

/// The date a command-line text stands for, given what the readers of its forms made of it:
/// RFC 3339 first, then a bare year, then `YYYY-MM-DD`, then `YYYY-MM-DDTHH:MM:SS`.
pub open spec fn date_choice(
    s: Seq<char>,
    rfc3339: Option<Timestamp>,
    day: Option<Timestamp>,
    day_clock: Option<Timestamp>,
) -> Result<Timestamp, Seq<char>> {
    match rfc3339 {
        Some(t) => Ok(t),
        None => if is_year_text(s) {
            Ok(new_year(year_value(s)))
        } else {
            match day {
                Some(t) => Ok(t),
                None => match day_clock {
                    Some(t) => Ok(t),
                    None => Err(invalid_date_message(s)),
                },
            }
        },
    }
}

fn year_of(s: &str) -> (r: Option<i32>)
    ensures
        is_year_text(s@) ==> r == Some(year_value(s@) as i32) && 0 <= year_value(s@) <= 9999,
        !is_year_text(s@) ==> r is None,
{
    let cs = chars_of(s);
    if cs.len() != 4 {
        return None;
    }
    let mut value: i32 = 0;
    let mut i: usize = 0;
    while i < 4
        invariant
            cs@ == s@,
            cs@.len() == 4,
            i <= 4,
            forall|j: int| 0 <= j < i ==> '0' <= #[trigger] cs@[j] <= '9',
            0 <= value < (if i == 0 { 1int } else if i == 1 { 10 } else if i == 2 { 100 } else if i == 3 {
                1000
            } else {
                10000
            }),
            i == 1 ==> value == cs@[0] as int - 48,
            i == 2 ==> value == (cs@[0] as int - 48) * 10 + (cs@[1] as int - 48),
            i == 3 ==> value == (cs@[0] as int - 48) * 100 + (cs@[1] as int - 48) * 10 + (cs@[2] as int
                - 48),
            i == 4 ==> value == year_value(cs@),
        decreases 4 - i,
    {
        let c = cs[i];
        if c < '0' || c > '9' {
            assert(!is_year_text(s@));
            return None;
        }
        let d = (c as u32 - 48) as i32;
        value = value * 10 + d;
        i += 1;
    }
    Some(value)
}

/// The date a command-line text stands for, given what the readers of its forms made of it.
pub fn choose_date(
    s: &str,
    rfc3339: Option<Timestamp>,
    day: Option<Timestamp>,
    day_clock: Option<Timestamp>,
) -> (r: Result<Timestamp, String>)
    ensures
        match date_choice(s@, rfc3339, day, day_clock) {
            Ok(t) => r == Ok::<Timestamp, String>(t),
            Err(m) => r is Err && r->Err_0@ == m,
        },
{
    if let Some(t) = rfc3339 {
        return Ok(t);
    }
    if let Some(year) = year_of(s) {
        return Ok(new_year_time(year));
    }
    if let Some(t) = day {
        return Ok(t);
    }
    if let Some(t) = day_clock {
        return Ok(t);
    }
    let mut msg = String::new();
    msg.append("invalid date: ");
    msg.append(s);
    msg.append(". Use YYYY-MM-DD or ISO 8601.");
    Err(msg)
}

/// The date a command-line text stands for: RFC 3339 first, then a bare year (midnight UTC
/// of January 1), then `YYYY-MM-DD` (midnight UTC), then `YYYY-MM-DDTHH:MM:SS` (UTC).
pub fn parse_date(s: &str) -> (r: Result<Timestamp, String>)
    ensures
        match date_choice(s@, rfc3339_time(s@), day_time(s@), day_clock_time(s@)) {
            Ok(t) => r == Ok::<Timestamp, String>(t),
            Err(m) => r is Err && r->Err_0@ == m,
        },
{
    let rfc3339 = parse_rfc3339(s);
    let day = parse_day(s);
    let day_clock = parse_day_clock(s);
    choose_date(s, rfc3339, day, day_clock)
}

} // verus!
