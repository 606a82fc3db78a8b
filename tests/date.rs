use chrono::{Datelike, NaiveDate};
use tempo_bot::date::{date_of, format_duration, parse_date_from_str, time_of_day, DateError};

#[test]
fn duration_text() {
    assert_eq!(format_duration(3661), "1h 1m 1s");
    assert_eq!(format_duration(0), "0h 0m 0s");
    assert_eq!(format_duration(59), "0h 0m 59s");
    assert_eq!(format_duration(28800), "8h 0m 0s");
    assert_eq!(format_duration(-3661), "-1h -1m -1s");
    assert_eq!(format_duration(-30), "0h 0m -30s");
    assert_eq!(format_duration(123456789), "34293h 33m 9s");
}

#[test]
fn days_and_times_of_timestamps() {
    assert_eq!(date_of(0), 719163);
    assert_eq!(date_of(-1), 719162);
    assert_eq!(date_of(86399), 719163);
    assert_eq!(time_of_day(-1), 86399);
    assert_eq!(time_of_day(1_620_205_200), 9 * 3600);
    let day = NaiveDate::from_ymd_opt(2021, 5, 5).unwrap().num_days_from_ce() as i64;
    assert_eq!(date_of(1_620_205_200), day);
}

#[test]
fn dates_from_text() {
    let today = NaiveDate::from_ymd_opt(2021, 5, 5).unwrap().num_days_from_ce();
    assert_eq!(parse_date_from_str("today", today), Ok(today));
    assert_eq!(parse_date_from_str("yesterday", today), Ok(today - 1));
    let d = NaiveDate::from_ymd_opt(2020, 2, 29).unwrap().num_days_from_ce();
    assert_eq!(parse_date_from_str("2020-02-29", today), Ok(d));
    assert_eq!(parse_date_from_str("2021-02-29", today), Err(DateError::Unparsable));
    assert_eq!(parse_date_from_str("tomorrow", today), Err(DateError::Unparsable));
}
