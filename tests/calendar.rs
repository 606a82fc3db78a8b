use chrono::{Datelike, NaiveDate};
use tempo_bot::calendar::{
    check_rrule_on_date, day_window, extract_tempo_code, meeting_events, meeting_from_fields, meetings_from_calendar,
    meetings_to_events, read_event, CalendarError, CalendarEvent, CalendarParser, EventFields, EventProperty,
};

fn day(y: i32, m: u32, d: u32) -> i32 {
    NaiveDate::from_ymd_opt(y, m, d).unwrap().num_days_from_ce()
}

fn prop(name: &str, value: &str) -> EventProperty {
    EventProperty { name: name.to_string(), value: Some(value.to_string()) }
}

fn event(props: Vec<EventProperty>) -> CalendarEvent {
    CalendarEvent { properties: props }
}

fn simple(title: &str, start: &str, end: &str) -> CalendarEvent {
    event(vec![prop("SUMMARY", title), prop("DTSTART", start), prop("DTEND", end)])
}

fn prefixes() -> Vec<String> {
    vec!["ABC".to_string(), "INT".to_string()]
}

#[test]
fn meeting_of_the_day_with_code() {
    let events = vec![simple("ABC-12 standup", "20210505T090000", "20210505T093000")];
    let r = meetings_from_calendar(&events, day(2021, 5, 5), &prefixes(), true).unwrap();
    assert_eq!(r.len(), 1);
    assert_eq!(r[0].title, "ABC-12 standup");
    assert_eq!(r[0].tempo_code.as_deref(), Some("ABC-12"));
    assert_eq!(r[0].duration, 1800);
}

#[test]
fn code_from_description_when_title_has_none() {
    let events = vec![event(vec![
        prop("SUMMARY", "Planning"),
        prop("DESCRIPTION", "See INT-7 and ABC-9"),
        prop("DTSTART", "20210505T100000"),
        prop("DTEND", "20210505T110000"),
    ])];
    let r = meetings_from_calendar(&events, day(2021, 5, 5), &prefixes(), false).unwrap();
    // Prefixes are tried in order: ABC before INT.
    assert_eq!(r[0].tempo_code.as_deref(), Some("ABC-9"));
    assert_eq!(r[0].description, "See INT-7 and ABC-9");
}

#[test]
fn code_prefers_first_prefix() {
    let p = prefixes();
    assert_eq!(extract_tempo_code("INT-3 then ABC-44", &p).as_deref(), Some("ABC-44"));
    assert_eq!(extract_tempo_code("nothing here", &p), None);
    assert_eq!(extract_tempo_code("ABC-", &p), None);
}

#[test]
fn meetings_of_other_days_are_dropped() {
    let events = vec![
        simple("yesterday", "20210504T090000", "20210504T100000"),
        simple("today", "20210505T090000", "20210505T100000"),
    ];
    let r = meetings_from_calendar(&events, day(2021, 5, 5), &prefixes(), true).unwrap();
    assert_eq!(r.len(), 1);
    assert_eq!(r[0].title, "today");
}

#[test]
fn meeting_without_end_is_dropped() {
    let events = vec![event(vec![prop("SUMMARY", "open"), prop("DTSTART", "20210505T090000")])];
    let r = meetings_from_calendar(&events, day(2021, 5, 5), &prefixes(), true).unwrap();
    assert!(r.is_empty());
}

#[test]
fn overlapping_meetings_are_resolved_on_request() {
    let events = vec![
        simple("A", "20210505T090000", "20210505T100000"),
        simple("B", "20210505T093000", "20210505T103000"),
    ];
    let r = meetings_from_calendar(&events, day(2021, 5, 5), &prefixes(), true).unwrap();
    let titles: Vec<&str> = r.iter().map(|m| m.title.as_str()).collect();
    assert_eq!(titles, vec!["A"]);
    let r = meetings_from_calendar(&events, day(2021, 5, 5), &prefixes(), false).unwrap();
    assert_eq!(r.len(), 2);
}

#[test]
fn missing_value_is_an_error() {
    let events = vec![event(vec![EventProperty { name: "SUMMARY".to_string(), value: None }])];
    let r = meetings_from_calendar(&events, day(2021, 5, 5), &prefixes(), true);
    assert_eq!(r.err(), Some(CalendarError::MissingValue));
}

#[test]
fn bad_time_is_an_error() {
    let events = vec![simple("x", "2021-05-05 09:00", "20210505T100000")];
    let r = meetings_from_calendar(&events, day(2021, 5, 5), &prefixes(), true);
    assert_eq!(r.err(), Some(CalendarError::InvalidDateTime));
}

#[test]
fn bad_prefix_is_an_error() {
    let r = meetings_from_calendar(&vec![], day(2021, 5, 5), &vec!["(".to_string()], true);
    assert_eq!(r.err(), Some(CalendarError::InvalidPrefix));
}

#[test]
fn daily_recurrence_occurs() {
    let events = vec![event(vec![
        prop("SUMMARY", "daily"),
        prop("DTSTART", "20210101T090000"),
        prop("DTEND", "20210101T091500"),
        prop("RRULE", "FREQ=DAILY"),
    ])];
    let r = meetings_from_calendar(&events, day(2021, 5, 5), &prefixes(), true).unwrap();
    assert_eq!(r.len(), 1);
    assert_eq!(r[0].duration, 900);
}

#[test]
fn weekly_recurrence_on_another_weekday_does_not_occur() {
    let events = vec![event(vec![
        prop("SUMMARY", "weekly"),
        prop("DTSTART", "20210104T120000"),
        prop("DTEND", "20210104T130000"),
        prop("RRULE", "FREQ=WEEKLY;BYDAY=MO"),
    ])];
    // 2021-05-05 is a Wednesday.
    let r = meetings_from_calendar(&events, day(2021, 5, 5), &prefixes(), true).unwrap();
    assert!(r.is_empty());
    let r = meetings_from_calendar(&events, day(2021, 5, 3), &prefixes(), true).unwrap();
    assert_eq!(r.len(), 1);
}

#[test]
fn malformed_recurrence_is_an_error() {
    let events = vec![event(vec![
        prop("SUMMARY", "broken"),
        prop("DTSTART", "20210101T090000"),
        prop("DTEND", "20210101T091500"),
        prop("RRULE", "FREQ=SOMETIMES"),
    ])];
    let r = meetings_from_calendar(&events, day(2021, 5, 5), &prefixes(), true);
    assert_eq!(r.err(), Some(CalendarError::InvalidRecurrence));
}

#[test]
fn far_dates_are_out_of_range() {
    let lines = vec!["DTSTART:20210101T090000".to_string(), "RRULE:FREQ=DAILY".to_string()];
    assert_eq!(check_rrule_on_date(&lines, i32::MAX), Err(CalendarError::DateOutOfRange));
    assert_eq!(check_rrule_on_date(&lines, day(2021, 5, 5)), Ok(true));
    assert_eq!(check_rrule_on_date(&lines, day(2020, 5, 5)), Ok(false));
}

#[test]
fn meeting_events_take_code_or_default_key() {
    let events = vec![
        simple("ABC-1 sync", "20210505T090000", "20210505T093000"),
        simple("lunch talk", "20210505T120000", "20210505T130000"),
    ];
    let meetings = meetings_from_calendar(&events, day(2021, 5, 5), &prefixes(), true).unwrap();
    let default = "INT-100".to_string();
    let r = meetings_to_events(meetings, Some(&default));
    assert_eq!(r[0].key, "ABC-1");
    assert_eq!(r[0].duration, 1800);
    assert_eq!(r[0].time, Some(9 * 3600));
    assert_eq!(r[0].description, "ABC-1 sync");
    assert_eq!(r[1].key, "INT-100");
    let meetings = meetings_from_calendar(&events, day(2021, 5, 5), &prefixes(), true).unwrap();
    let r = meetings_to_events(meetings, None);
    assert_eq!(r[1].key, "");
    assert!(!r[1].should_log());
}

#[test]
fn calendar_source_is_kept() {
    let p = CalendarParser::new("https://example.com/cal.ics");
    assert_eq!(p.ics_file_name(), "https://example.com/cal.ics");
    assert!(p.is_url());
    assert!(!CalendarParser::new("calendar.ics").is_url());
    assert!(!CalendarParser::new("/home/me/calendar.ics").is_url());
}

fn fields(start: i64, end: i64) -> EventFields {
    EventFields {
        title: "INT-5 review".to_string(),
        description: String::new(),
        start_time: start,
        end_time: end,
        recurrence: Vec::new(),
        has_rrule: true,
    }
}

#[test]
fn meeting_from_fields_follows_the_occurrence() {
    let p = prefixes();
    assert!(meeting_from_fields(fields(1_620_205_200, 1_620_207_000), false, &p).unwrap().is_none());
    let m = meeting_from_fields(fields(1_620_205_200, 1_620_207_000), true, &p).unwrap().unwrap();
    assert_eq!(m.duration, 1800);
    assert_eq!(m.tempo_code.as_deref(), Some("INT-5"));
    assert!(meeting_from_fields(fields(0, 1_620_207_000), true, &p).unwrap().is_none());
    assert_eq!(
        meeting_from_fields(fields(i64::MIN, i64::MAX), true, &p).err(),
        Some(CalendarError::DurationOutOfRange)
    );
}

#[test]
fn reading_event_properties() {
    let props = vec![
        prop("SUMMARY", "first"),
        prop("X-UNKNOWN", "ignored"),
        prop("DTSTART", "20210101T090000"),
        prop("RRULE", "FREQ=DAILY"),
        prop("EXDATE", "20210102T090000"),
        prop("SUMMARY", "second"),
    ];
    let f = read_event(&props).unwrap();
    assert_eq!(f.title, "second");
    assert!(f.has_rrule);
    assert_eq!(f.start_time, 1_609_491_600);
    assert_eq!(f.end_time, 0);
    assert_eq!(f.recurrence, vec!["DTSTART:20210101T090000", "RRULE:FREQ=DAILY", "EXDATE:20210102T090000"]);
}

#[test]
fn window_of_a_day() {
    assert_eq!(day_window(719163), (0, 86399));
    assert_eq!(day_window(day(2021, 5, 5)), (1_620_172_800, 1_620_259_199));
}

#[test]
fn a_malformed_event_anywhere_is_an_error() {
    let events = vec![
        simple("fine", "20210505T090000", "20210505T100000"),
        simple("other day", "20210601T090000", "20210601T100000"),
        simple("broken", "20210505T110000", "tomorrow"),
    ];
    let r = meetings_from_calendar(&events, day(2021, 5, 5), &prefixes(), true);
    assert_eq!(r.err(), Some(CalendarError::InvalidDateTime));
}

#[test]
fn meeting_work_events_are_sorted_by_duration() {
    let events = vec![
        simple("short ABC-1", "20210505T090000", "20210505T093000"),
        simple("long", "20210505T100000", "20210505T120000"),
        simple("mid", "20210505T130000", "20210505T140000"),
        simple("clash", "20210505T133000", "20210505T134500"),
    ];
    let default = "INT-100".to_string();
    let r = meeting_events(&events, day(2021, 5, 5), &prefixes(), Some(&default)).unwrap();
    let keys: Vec<(&str, i64)> = r.iter().map(|e| (e.event.title.as_str(), e.duration)).collect();
    assert_eq!(keys, vec![("long", 7200), ("mid", 3600), ("short ABC-1", 1800)]);
    assert_eq!(r[2].key, "ABC-1");
    assert_eq!(r[0].key, "INT-100");
    assert_eq!(
        meeting_events(&events, day(2021, 5, 5), &vec!["[".to_string()], None).err(),
        Some(CalendarError::InvalidPrefix)
    );
}
