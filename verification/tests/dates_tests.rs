use cvedb::cve::Timestamp;
use cvedb::dates::{choose_date, parse_date};

fn date_at(secs: i64) -> Timestamp {
    Timestamp { secs, nanos: 0 }
}

#[test]
fn dates_in_each_form() {
    assert_eq!(parse_date("2021-01-01"), Ok(date_at(1609459200)));
    assert_eq!(parse_date("2021"), Ok(date_at(1609459200)));
    assert_eq!(parse_date("2021-01-01T00:00:00Z"), Ok(date_at(1609459200)));
    assert_eq!(parse_date("2021-01-01T00:00:00+02:00"), Ok(date_at(1609452000)));
    assert_eq!(parse_date("2021-01-01T12:30:05"), Ok(date_at(1609459200 + 45005)));
    assert_eq!(parse_date("2021-01-01T00:00:00.5Z"), Ok(Timestamp { secs: 1609459200, nanos: 500_000_000 }));
}

#[test]
fn bare_years_start_at_new_year() {
    assert_eq!(parse_date("1970"), Ok(date_at(0)));
    assert_eq!(parse_date("2000"), Ok(date_at(946684800)));
    assert_eq!(parse_date("1969"), Ok(date_at(-31536000)));
    assert_eq!(parse_date("0000"), Ok(date_at(-62167219200)));
    assert_eq!(parse_date("9999"), Ok(date_at(253370764800)));
    assert_eq!(parse_date("2024"), Ok(date_at(1704067200)));
}

#[test]
fn unreadable_dates_are_refused() {
    assert_eq!(
        parse_date("yesterday"),
        Err("invalid date: yesterday. Use YYYY-MM-DD or ISO 8601.".to_string())
    );
    assert_eq!(
        parse_date("202"),
        Err("invalid date: 202. Use YYYY-MM-DD or ISO 8601.".to_string())
    );
    assert!(parse_date("2021-13-01").is_err());
    assert!(parse_date("１２３４").is_err());
}

#[test]
fn choosing_among_read_forms() {
    assert_eq!(choose_date("x", Some(date_at(5)), Some(date_at(6)), Some(date_at(7))), Ok(date_at(5)));
    assert_eq!(choose_date("1999", None, Some(date_at(6)), Some(date_at(7))), Ok(date_at(915148800)));
    assert_eq!(choose_date("x", None, Some(date_at(6)), Some(date_at(7))), Ok(date_at(6)));
    assert_eq!(choose_date("x", None, None, Some(date_at(7))), Ok(date_at(7)));
    assert_eq!(
        choose_date("x", None, None, None),
        Err("invalid date: x. Use YYYY-MM-DD or ISO 8601.".to_string())
    );
}
