use vstd::prelude::*;

use crate::date::{day_of, parse_date_time, parsed_date_time, str_eq, time_of_day, EPOCH_DAY, SECONDS_PER_DAY};
use crate::meeting::Meeting;
use crate::overlap::{pairwise_separate, remove_overlaps, resolve};
use crate::work_event::{sorted_by_key, stable_index, to_sorted_events, WorkEvent};

verus! {

/// One property of a calendar event, as the calendar file gives it.
pub struct EventProperty {
    pub name: String,
    pub value: Option<String>,
}

/// A calendar event: its properties, in the order of the file.
pub struct CalendarEvent {
    pub properties: Vec<EventProperty>,
}

/// Where to find a calendar: a URL or a file path.
pub struct CalendarParser {
    ics_file_name: String,
}

impl CalendarParser {
    pub fn new(ics_file_name: &str) -> (r: Self)
        ensures
            r.source()@ == ics_file_name@,
    {
        CalendarParser { ics_file_name: String::from_str(ics_file_name) }
    }

    pub closed spec fn source(&self) -> String {
        self.ics_file_name
    }

    pub fn ics_file_name(&self) -> (r: &String)
        ensures
            r == self.source(),
    {
        &self.ics_file_name
    }

    /// Whether the calendar is to be downloaded rather than read from a file.
    pub fn is_url(&self) -> (r: bool)
        ensures
            r == url_accepts(self.source()@),
    {
        parses_as_url(self.ics_file_name.as_str())
    }
}

/// Whether url's `Url::parse` accepts a text as an absolute URL.
pub uninterp spec fn url_accepts(text: Seq<char>) -> bool;

/// Relies on url's `Url::parse`, which returns an error for a text that is no
/// absolute URL.
#[verifier::external_body]
fn parses_as_url(text: &str) -> (r: bool)
    ensures
        r == url_accepts(text@),
{
    url::Url::parse(text).is_ok()
}

#[derive(Debug, Clone, Copy, PartialEq, Eq, Structural)]
pub enum CalendarError {
    /// A property that is read has no value.
    MissingValue,
    /// A start or end time is not of the form `YYYYMMDDTHHMMSS`.
    InvalidDateTime,
    /// The recurrence directives of an event do not form a recurrence set.
    InvalidRecurrence,
    /// A project prefix does not make a valid pattern.
    InvalidPrefix,
    /// The target day lies outside the range of dates that can be evaluated.
    DateOutOfRange,
    /// The end of an event lies too far from its start.
    DurationOutOfRange,
}

pub open spec fn ical_format() -> Seq<char> {
    "%Y%m%dT%H%M%S"@
}

pub open spec fn is_recurrence_name(n: Seq<char>) -> bool {
    n == "DTSTART"@ || n == "RRULE"@ || n == "RDATE"@ || n == "EXRULE"@ || n == "EXDATE"@
}

pub open spec fn is_read_name(n: Seq<char>) -> bool {
    n == "SUMMARY"@ || n == "DESCRIPTION"@ || n == "DTEND"@ || is_recurrence_name(n)
}

/// What goes wrong when a property is read: a missing value, or a time that
/// does not parse.
pub open spec fn prop_error(p: EventProperty) -> Option<CalendarError> {
    if !is_read_name(p.name@) {
        None
    } else {
        match p.value {
            None => Some(CalendarError::MissingValue),
            Some(v) => if (p.name@ == "DTEND"@ || p.name@ == "DTSTART"@) && parsed_date_time(v@, ical_format()) is None {
                Some(CalendarError::InvalidDateTime)
            } else {
                None
            },
        }
    }
}

/// The first error met when the properties are read in order.
pub open spec fn props_error(props: Seq<EventProperty>) -> Option<CalendarError>
    decreases props.len(),
{
    if props.len() == 0 {
        None
    } else {
        match props_error(props.drop_last()) {
            Some(e) => Some(e),
            None => prop_error(props.last()),
        }
    }
}

/// The text of the last property of that name, or nothing.
pub open spec fn last_text(props: Seq<EventProperty>, name: Seq<char>) -> Seq<char>
    decreases props.len(),
{
    if props.len() == 0 {
        Seq::empty()
    } else if props.last().name@ == name && props.last().value is Some {
        props.last().value->0@
    } else {
        last_text(props.drop_last(), name)
    }
}

/// The time of the last property of that name, or zero (unset).
pub open spec fn last_time(props: Seq<EventProperty>, name: Seq<char>) -> i64
    decreases props.len(),
{
    if props.len() == 0 {
        0
    } else if props.last().name@ == name && props.last().value is Some && parsed_date_time(
        props.last().value->0@,
        ical_format(),
    ) is Some {
        parsed_date_time(props.last().value->0@, ical_format())->0
    } else {
        last_time(props.drop_last(), name)
    }
}

/// The recurrence directives, one `NAME:VALUE` line each, in order.
pub open spec fn recurrence_lines(props: Seq<EventProperty>) -> Seq<Seq<char>>
    decreases props.len(),
{
    if props.len() == 0 {
        Seq::empty()
    } else if is_recurrence_name(props.last().name@) && props.last().value is Some {
        recurrence_lines(props.drop_last()).push(props.last().name@ + ":"@ + props.last().value->0@)
    } else {
        recurrence_lines(props.drop_last())
    }
}

pub open spec fn has_rrule(props: Seq<EventProperty>) -> bool {
    exists|k: int| 0 <= k < props.len() && (#[trigger] props[k]).name@ == "RRULE"@
}

/// Lines joined by line breaks.
pub open spec fn join_lines(lines: Seq<Seq<char>>) -> Seq<char>
    decreases lines.len(),
{
    if lines.len() == 0 {
        Seq::empty()
    } else if lines.len() == 1 {
        lines[0]
    } else {
        join_lines(lines.drop_last()) + "\n"@ + lines.last()
    }
}

proof fn lemma_names_distinct()
    ensures
        "SUMMARY"@ != "DESCRIPTION"@,
        "SUMMARY"@ != "DTEND"@,
        "SUMMARY"@ != "DTSTART"@,
        "SUMMARY"@ != "RRULE"@,
        "SUMMARY"@ != "RDATE"@,
        "SUMMARY"@ != "EXRULE"@,
        "SUMMARY"@ != "EXDATE"@,
        "DESCRIPTION"@ != "DTEND"@,
        "DESCRIPTION"@ != "DTSTART"@,
        "DESCRIPTION"@ != "RRULE"@,
        "DESCRIPTION"@ != "RDATE"@,
        "DESCRIPTION"@ != "EXRULE"@,
        "DESCRIPTION"@ != "EXDATE"@,
        "DTEND"@ != "DTSTART"@,
        "DTEND"@ != "RRULE"@,
        "DTEND"@ != "RDATE"@,
        "DTEND"@ != "EXRULE"@,
        "DTEND"@ != "EXDATE"@,
        "DTSTART"@ != "RRULE"@,
        "RRULE"@ != "RDATE"@,
        "EXRULE"@ != "EXDATE"@,
{
    reveal_strlit("SUMMARY");
    reveal_strlit("DESCRIPTION");
    reveal_strlit("DTEND");
    reveal_strlit("DTSTART");
    reveal_strlit("RRULE");
    reveal_strlit("RDATE");
    reveal_strlit("EXRULE");
    reveal_strlit("EXDATE");
    assert("SUMMARY"@[0] != "DTSTART"@[0]);
    assert("DTEND"@[0] != "RRULE"@[0]);
    assert("DTEND"@[1] != "RDATE"@[1]);
    assert("RRULE"@[1] != "RDATE"@[1]);
    assert("EXRULE"@[2] != "EXDATE"@[2]);
    assert("SUMMARY"@.len() != "DESCRIPTION"@.len());
    assert("SUMMARY"@.len() != "DTEND"@.len());
    assert("SUMMARY"@.len() != "RRULE"@.len());
    assert("SUMMARY"@.len() != "RDATE"@.len());
    assert("SUMMARY"@.len() != "EXRULE"@.len());
    assert("SUMMARY"@.len() != "EXDATE"@.len());
    assert("DESCRIPTION"@.len() != "DTEND"@.len());
    assert("DESCRIPTION"@.len() != "DTSTART"@.len());
    assert("DESCRIPTION"@.len() != "RRULE"@.len());
    assert("DESCRIPTION"@.len() != "RDATE"@.len());
    assert("DESCRIPTION"@.len() != "EXRULE"@.len());
    assert("DESCRIPTION"@.len() != "EXDATE"@.len());
    assert("DTEND"@.len() != "DTSTART"@.len());
    assert("DTEND"@.len() != "EXRULE"@.len());
    assert("DTEND"@.len() != "EXDATE"@.len());
    assert("DTSTART"@.len() != "RRULE"@.len());
}

/// An error met in a prefix of the properties is the error of all of them.
proof fn lemma_error_prefix(props: Seq<EventProperty>, k: int)
    requires
        0 <= k <= props.len(),
    ensures
        props_error(props.take(k)) is Some ==> props_error(props) == props_error(props.take(k)),
    decreases props.len() - k,
{
    if k < props.len() {
        lemma_error_prefix(props, k + 1);
        assert(props.take(k + 1).drop_last() =~= props.take(k));
    } else {
        assert(props.take(k) =~= props);
    }
}

/// Reading properties fails only on a missing value or a bad time.
proof fn lemma_props_error_kind(props: Seq<EventProperty>)
    ensures
        props_error(props) matches Some(e) ==> (e == CalendarError::MissingValue || e == CalendarError::InvalidDateTime),
    decreases props.len(),
{
    if props.len() > 0 {
        lemma_props_error_kind(props.drop_last());
    }
}

/// What reading the properties of an event gives.
pub struct EventFields {
    pub title: String,
    pub description: String,
    pub start_time: i64,
    pub end_time: i64,
    pub recurrence: Vec<String>,
    pub has_rrule: bool,
}

pub open spec fn views(v: Seq<String>) -> Seq<Seq<char>> {
    v.map_values(|s: String| s@)
}

/// The fields read from the properties, when no property is in error.
pub open spec fn fields_match(f: EventFields, props: Seq<EventProperty>) -> bool {
    &&& f.title@ == last_text(props, "SUMMARY"@)
    &&& f.description@ == last_text(props, "DESCRIPTION"@)
    &&& f.start_time == last_time(props, "DTSTART"@)
    &&& f.end_time == last_time(props, "DTEND"@)
    &&& views(f.recurrence@) == recurrence_lines(props)
    &&& f.has_rrule == has_rrule(props)
}

/// Reads the title, description, times and recurrence directives of an event.
pub fn read_event(props: &Vec<EventProperty>) -> (r: Result<EventFields, CalendarError>)
    ensures
        props_error(props@) matches Some(e) ==> r == Err::<EventFields, CalendarError>(e),
        props_error(props@) is None ==> (r matches Ok(f) && fields_match(f, props@)),
        r matches Err(e) ==> (e == CalendarError::MissingValue || e == CalendarError::InvalidDateTime),
{
    proof {
        lemma_names_distinct();
        reveal_strlit(":");
    }
    let mut f = EventFields {
        title: String::new(),
        description: String::new(),
        start_time: 0,
        end_time: 0,
        recurrence: Vec::new(),
        has_rrule: false,
    };
    let mut i: usize = 0;
    assert(views(f.recurrence@) =~= Seq::<Seq<char>>::empty());
    assert(props@.take(0) =~= Seq::<EventProperty>::empty());
    while i < props.len()
        invariant
            0 <= i <= props.len(),
            props_error(props@.take(i as int)) is None,
            fields_match(f, props@.take(i as int)),
        decreases props.len() - i,
    {
        let ghost pre = props@.take(i as int);
        let ghost cur = props@.take(i + 1);
        assert(cur.drop_last() =~= pre);
        assert(cur.last() == props@[i as int]);
        proof {
            lemma_error_prefix(props@, i + 1);
            lemma_names_distinct();
            reveal_strlit(":");
        }
        let p = &props[i];
        let name = p.name.as_str();
        let is_summary = str_eq(name, "SUMMARY");
        let is_description = str_eq(name, "DESCRIPTION");
        let is_end = str_eq(name, "DTEND");
        let is_start = str_eq(name, "DTSTART");
        let is_rrule = str_eq(name, "RRULE");
        let is_recurrence = is_start || is_rrule || str_eq(name, "RDATE") || str_eq(name, "EXRULE")
            || str_eq(name, "EXDATE");
        if is_summary || is_description || is_end || is_recurrence {
            let v = match &p.value {
                Some(v) => v,
                None => {
                    return Err(CalendarError::MissingValue);
                },
            };
            if is_summary {
                f.title = v.clone();
            } else if is_description {
                f.description = v.clone();
            } else if is_end {
                match parse_date_time(v.as_str(), "%Y%m%dT%H%M%S") {
                    Some(t) => {
                        f.end_time = t;
                    },
                    None => {
                        return Err(CalendarError::InvalidDateTime);
                    },
                }
            } else {
                let mut line = p.name.clone();
                line.append(":");
                line.append(v.as_str());
                let ghost old_lines = f.recurrence@;
                f.recurrence.push(line);
                assert(views(f.recurrence@) =~= views(old_lines).push(p.name@ + ":"@ + v@));
                if is_start {
                    match parse_date_time(v.as_str(), "%Y%m%dT%H%M%S") {
                        Some(t) => {
                            f.start_time = t;
                        },
                        None => {
                            return Err(CalendarError::InvalidDateTime);
                        },
                    }
                } else if is_rrule {
                    f.has_rrule = true;
                }
            }
        }
        proof {
            if has_rrule(cur) && !has_rrule(pre) {
                let k = choose|k: int| 0 <= k < cur.len() && (#[trigger] cur[k]).name@ == "RRULE"@;
                if k < pre.len() {
                    assert(pre[k] == cur[k]);
                }
            }
            if has_rrule(pre) {
                let k = choose|k: int| 0 <= k < pre.len() && (#[trigger] pre[k]).name@ == "RRULE"@;
                assert(cur[k] == pre[k]);
            }
            if is_rrule {
                assert(cur[i as int].name@ == "RRULE"@);
            }
        }
        i = i + 1;
    }
    assert(props@.take(i as int) =~= props@);
    Ok(f)
}

/// What rrule makes of a recurrence set in a window, as naive UTC timestamps.
/// Relies on rrule's `RRuleSet` (its `FromStr` parse, then `after`, `before` and
/// `all`, both bounds included) and on chrono's `DateTime::from_timestamp`, which
/// accepts the window's bounds. `None` where rrule refuses the text. The parse
/// reads a start time without a zone in the machine's zone, so the result depends
/// on the machine: of each occurrence only its place in the window is stated.
#[verifier::external_body]
fn recurrences_between(rules: &str, after: i64, before: i64, limit: u16) -> (r: Option<Vec<i64>>)
    requires
        -MAX_TIMESTAMP <= after <= before <= MAX_TIMESTAMP,
    ensures
        r matches Some(v) ==> forall|k: int| 0 <= k < v@.len() ==> after <= #[trigger] v@[k] <= before,
{
    let set: rrule::RRuleSet = rules.parse().ok()?;
    let tz = rrule::Tz::UTC;
    let after = chrono::DateTime::from_timestamp(after, 0)?.with_timezone(&tz);
    let before = chrono::DateTime::from_timestamp(before, 0)?.with_timezone(&tz);
    Some(set.after(after).before(before).all(limit).dates.iter().map(|d| d.timestamp()).collect())
}

/// Largest distance from 1970-01-01 of a timestamp handed to rrule.
pub const MAX_TIMESTAMP: i64 = 8_200_000_000_000;

/// Largest distance in days from 1970-01-01 of a day whose recurrences are evaluated.
pub const MAX_DAY_OFFSET: i32 = 94_000_000;

/// Most occurrences asked of rrule in one day.
pub const OCCURRENCE_LIMIT: u16 = 65535;

/// Some timestamp falls on the day.
pub fn occurs_on(timestamps: &Vec<i64>, date: i32) -> (r: bool)
    ensures
        r == exists|k: int| 0 <= k < timestamps@.len() && day_of(#[trigger] timestamps@[k]) == date,
{
    let mut i: usize = 0;
    while i < timestamps.len()
        invariant
            0 <= i <= timestamps.len(),
            forall|k: int| 0 <= k < i ==> day_of(#[trigger] timestamps@[k]) != date,
        decreases timestamps.len() - i,
    {
        if crate::date::date_of(timestamps[i]) == date as i64 {
            return true;
        }
        i = i + 1;
    }
    false
}

fn join_recurrence(lines: &Vec<String>) -> (r: String)
    ensures
        r@ == join_lines(views(lines@)),
{
    let mut s = String::new();
    let mut i: usize = 0;
    proof { reveal_strlit("\n"); }
    assert(views(lines@.take(0)) =~= Seq::<Seq<char>>::empty());
    while i < lines.len()
        invariant
            0 <= i <= lines.len(),
            s@ == join_lines(views(lines@.take(i as int))),
        decreases lines.len() - i,
    {
        assert(views(lines@.take(i + 1)).drop_last() =~= views(lines@.take(i as int)));
        if i > 0 {
            s.append("\n");
        }
        s.append(lines[i].as_str());
        i = i + 1;
        proof {
            if i == 1 {
                assert(views(lines@.take(1)) =~= seq![lines@[0]@]);
            }
        }
    }
    assert(lines@.take(i as int) =~= lines@);
    s
}

/// The day lies in the range whose recurrences can be evaluated.
pub open spec fn day_in_range(date: i32) -> bool {
    -MAX_DAY_OFFSET <= date - EPOCH_DAY <= MAX_DAY_OFFSET
}

/// The first and last second of a day, as naive timestamps.
pub fn day_window(date: i32) -> (r: (i64, i64))
    requires
        day_in_range(date),
    ensures
        r.0 == (date - EPOCH_DAY) * SECONDS_PER_DAY,
        r.1 == r.0 + SECONDS_PER_DAY - 1,
        -MAX_TIMESTAMP <= r.0 <= r.1 <= MAX_TIMESTAMP,
{
    let from: i64 = (date as i64 - EPOCH_DAY) * SECONDS_PER_DAY;
    (from, from + (SECONDS_PER_DAY - 1))
}

/// Whether a recurring event occurs on the day: whether rrule gives an occurrence
/// of the directives in the window from 00:00:00 to 23:59:59 of that day (UTC)
/// that falls on the day.
pub fn check_rrule_on_date(recurrence_rules: &Vec<String>, date: i32) -> (r: Result<bool, CalendarError>)
    ensures
        day_in_range(date) <==> r != Err::<bool, CalendarError>(CalendarError::DateOutOfRange),
        r matches Err(e) ==> (e == CalendarError::InvalidRecurrence || e == CalendarError::DateOutOfRange),
{
    let offset: i64 = date as i64 - EPOCH_DAY;
    if offset < -(MAX_DAY_OFFSET as i64) || offset > MAX_DAY_OFFSET as i64 {
        return Err(CalendarError::DateOutOfRange);
    }
    let text = join_recurrence(recurrence_rules);
    let (from, to) = day_window(date);
    match recurrences_between(text.as_str(), from, to, OCCURRENCE_LIMIT) {
        Some(timestamps) => Ok(occurs_on(&timestamps, date)),
        None => Err(CalendarError::InvalidRecurrence),
    }
}

/// Whether a regex pattern compiles, as regex's `Regex::new` decides.
pub uninterp spec fn regex_accepts(pattern: Seq<char>) -> bool;

/// The leftmost-first match of a pattern in a text, as regex's `Regex::find` gives it.
pub uninterp spec fn regex_leftmost(pattern: Seq<char>, text: Seq<char>) -> Option<Seq<char>>;

/// Relies on regex's `Regex::new`, which fails on an invalid pattern, and
/// `Regex::find` with `Match::as_str`, which give the text of the first match.
/// `None` where the pattern does not compile.
#[verifier::external_body]
fn regex_find(pattern: &str, text: &str) -> (r: Option<Option<String>>)
    ensures
        r is Some <==> regex_accepts(pattern@),
        r matches Some(m) ==> (m is Some <==> regex_leftmost(pattern@, text@) is Some),
        r matches Some(Some(s)) ==> regex_leftmost(pattern@, text@) == Some(s@),
{
    let re = match regex::Regex::new(pattern) {
        Ok(re) => re,
        Err(_) => return None,
    };
    match re.find(text) {
        Some(m) => Some(Some(m.as_str().to_string())),
        None => Some(None),
    }
}

/// The pattern of an issue code of a project: the prefix, a dash and digits.
pub open spec fn code_pattern(prefix: Seq<char>) -> Seq<char> {
    prefix + "-[0-9]+"@
}

/// Every prefix makes a valid pattern.
pub open spec fn prefixes_valid(prefixes: Seq<String>) -> bool {
    forall|k: int| 0 <= k < prefixes.len() ==> regex_accepts(#[trigger] code_pattern(prefixes[k]@))
}

/// The first match in the text of the pattern of a prefix, trying the prefixes in order.
pub open spec fn first_code(prefixes: Seq<String>, text: Seq<char>) -> Option<Seq<char>>
    decreases prefixes.len(),
{
    if prefixes.len() == 0 {
        None
    } else {
        match regex_leftmost(code_pattern(prefixes[0]@), text) {
            Some(m) => Some(m),
            None => first_code(prefixes.drop_first(), text),
        }
    }
}

fn make_code_pattern(prefix: &String) -> (r: String)
    ensures
        r@ == code_pattern(prefix@),
{
    let mut p = prefix.clone();
    p.append("-[0-9]+");
    p
}

/// Whether every prefix makes a valid pattern.
pub fn check_prefixes(prefixes: &Vec<String>) -> (r: bool)
    ensures
        r == prefixes_valid(prefixes@),
{
    let mut i: usize = 0;
    while i < prefixes.len()
        invariant
            0 <= i <= prefixes.len(),
            forall|k: int| 0 <= k < i ==> regex_accepts(#[trigger] code_pattern(prefixes@[k]@)),
        decreases prefixes.len() - i,
    {
        let pattern = make_code_pattern(&prefixes[i]);
        if regex_find(pattern.as_str(), "").is_none() {
            return false;
        }
        i = i + 1;
    }
    true
}

/// The first issue code found in the text, trying the prefixes in order.
pub fn extract_tempo_code(text: &str, prefixes: &Vec<String>) -> (r: Option<String>)
    requires
        prefixes_valid(prefixes@),
    ensures
        r is Some <==> first_code(prefixes@, text@) is Some,
        r matches Some(s) ==> first_code(prefixes@, text@) == Some(s@),
{
    let mut i: usize = 0;
    assert(prefixes@.skip(0) =~= prefixes@);
    while i < prefixes.len()
        invariant
            0 <= i <= prefixes.len(),
            prefixes_valid(prefixes@),
            first_code(prefixes@, text@) == first_code(prefixes@.skip(i as int), text@),
        decreases prefixes.len() - i,
    {
        assert(prefixes@.skip(i as int).drop_first() =~= prefixes@.skip(i + 1));
        assert(prefixes@.skip(i as int)[0] == prefixes@[i as int]);
        let pattern = make_code_pattern(&prefixes[i]);
        assert(regex_accepts(code_pattern(prefixes@[i as int]@)));
        match regex_find(pattern.as_str(), text) {
            Some(Some(m)) => {
                return Some(m);
            },
            _ => {},
        }
        i = i + 1;
    }
    None
}

/// The issue code of a meeting: from its title, else from its description.
pub open spec fn meeting_code(prefixes: Seq<String>, title: Seq<char>, description: Seq<char>) -> Option<Seq<char>> {
    match first_code(prefixes, title) {
        Some(c) => Some(c),
        None => first_code(prefixes, description),
    }
}

pub open spec fn code_view(code: Option<String>) -> Option<Seq<char>> {
    match code {
        Some(s) => Some(s@),
        None => None,
    }
}

/// The meeting carries what the properties give: title, description, times,
/// issue code, and the duration between its times.
pub open spec fn meeting_of(m: Meeting, props: Seq<EventProperty>, prefixes: Seq<String>) -> bool {
    &&& m.title@ == last_text(props, "SUMMARY"@)
    &&& m.description@ == last_text(props, "DESCRIPTION"@)
    &&& m.start_time == last_time(props, "DTSTART"@)
    &&& m.end_time == last_time(props, "DTEND"@)
    &&& m.duration == m.end_time - m.start_time
    &&& code_view(m.tempo_code) == meeting_code(prefixes, m.title@, m.description@)
    &&& m.start_time != 0
    &&& m.end_time != 0
}

/// The duration of an event does not fit an `i64`.
pub open spec fn duration_overflows(props: Seq<EventProperty>) -> bool {
    !(i64::MIN <= last_time(props, "DTEND"@) - last_time(props, "DTSTART"@) <= i64::MAX)
}

/// `e` is an error that the event itself causes on the day: its first property
/// error; for an event with a recurrence rule, a recurrence that cannot be
/// evaluated; or, for an event that may occur on the day with both times set, a
/// duration that does not fit an `i64`.
pub open spec fn error_from_event(e: CalendarError, props: Seq<EventProperty>, date: i32) -> bool {
    ||| props_error(props) == Some(e)
    ||| (props_error(props) is None && has_rrule(props) && (e == CalendarError::InvalidRecurrence
        || e == CalendarError::DateOutOfRange))
    ||| (props_error(props) is None && e == CalendarError::DurationOutOfRange && duration_overflows(props)
        && last_time(props, "DTSTART"@) != 0 && last_time(props, "DTEND"@) != 0 && (has_rrule(props)
        || day_of(last_time(props, "DTSTART"@)) == date))
}

/// No property error, no recurrence rule, and a duration that fits when the event
/// occurs on the day: nothing but the event's own data decides what it gives.
pub open spec fn plain_event(props: Seq<EventProperty>, date: i32) -> bool {
    &&& props_error(props) is None
    &&& !has_rrule(props)
    &&& (single_occurs(props, date) ==> !duration_overflows(props))
}

/// The meeting that the fields of an event make, given whether the event occurs
/// on the day: none when it does not, or when a time is unset.
pub fn meeting_from_fields(f: EventFields, occurs: bool, prefixes: &Vec<String>) -> (r: Result<
    Option<Meeting>,
    CalendarError,
>)
    requires
        prefixes_valid(prefixes@),
    ensures
        (!occurs || f.start_time == 0 || f.end_time == 0) ==> r == Ok::<Option<Meeting>, CalendarError>(None),
        (occurs && f.start_time != 0 && f.end_time != 0 && !(i64::MIN <= f.end_time - f.start_time <= i64::MAX))
            ==> r == Err::<Option<Meeting>, CalendarError>(CalendarError::DurationOutOfRange),
        (occurs && f.start_time != 0 && f.end_time != 0 && i64::MIN <= f.end_time - f.start_time <= i64::MAX)
            ==> (r matches Ok(Some(m)) && {
            &&& m.title == f.title
            &&& m.description == f.description
            &&& m.start_time == f.start_time
            &&& m.end_time == f.end_time
            &&& m.duration == f.end_time - f.start_time
            &&& code_view(m.tempo_code) == meeting_code(prefixes@, f.title@, f.description@)
        }),
{
    if !occurs {
        return Ok(None);
    }
    let code = match extract_tempo_code(f.title.as_str(), prefixes) {
        Some(c) => Some(c),
        None => extract_tempo_code(f.description.as_str(), prefixes),
    };
    let mut meeting = Meeting::new_default();
    meeting.title = f.title;
    meeting.description = f.description;
    meeting.tempo_code = code;
    meeting.start_time = f.start_time;
    meeting.end_time = f.end_time;
    if !meeting.has_start_time() || !meeting.has_end_time() {
        return Ok(None);
    }
    let d: i128 = meeting.end_time as i128 - meeting.start_time as i128;
    if d < i64::MIN as i128 || d > i64::MAX as i128 {
        return Err(CalendarError::DurationOutOfRange);
    }
    meeting.duration = d as i64;
    Ok(Some(meeting))
}

/// The meeting that an event makes on the day, if it occurs then and has both
/// times. An event without a recurrence rule occurs on the day of its start; one
/// with a rule occurs when rrule gives an occurrence on the day.
pub fn meeting_from_event(event: &CalendarEvent, date: i32, prefixes: &Vec<String>) -> (r: Result<
    Option<Meeting>,
    CalendarError,
>)
    requires
        prefixes_valid(prefixes@),
    ensures
        props_error(event.properties@) matches Some(e) ==> r == Err::<Option<Meeting>, CalendarError>(e),
        r matches Ok(Some(m)) ==> meeting_of(m, event.properties@, prefixes@),
        r matches Err(e) ==> error_from_event(e, event.properties@, date),
        props_error(event.properties@) is None && !has_rrule(event.properties@) ==> {
            let start = last_time(event.properties@, "DTSTART"@);
            let end = last_time(event.properties@, "DTEND"@);
            &&& (day_of(start) != date || start == 0 || end == 0) ==> r == Ok::<Option<Meeting>, CalendarError>(None)
            &&& (day_of(start) == date && start != 0 && end != 0 && i64::MIN <= end - start <= i64::MAX) ==> (r matches Ok(Some(_)))
            &&& (day_of(start) == date && start != 0 && end != 0 && !(i64::MIN <= end - start <= i64::MAX)) ==> r is Err
        },
{
    let props = &event.properties;
    let f = match read_event(props) {
        Ok(f) => f,
        Err(e) => {
            return Err(e);
        },
    };
    let occurs = if f.has_rrule {
        match check_rrule_on_date(&f.recurrence, date) {
            Ok(b) => b,
            Err(e) => {
                return Err(e);
            },
        }
    } else {
        crate::date::date_of(f.start_time) == date as i64
    };
    meeting_from_fields(f, occurs, prefixes)
}

/// An event without recurrence rule, read without error, that occurs on the day
/// with both times set.
pub open spec fn single_occurs(props: Seq<EventProperty>, date: i32) -> bool {
    &&& props_error(props) is None
    &&& !has_rrule(props)
    &&& day_of(last_time(props, "DTSTART"@)) == date
    &&& last_time(props, "DTSTART"@) != 0
    &&& last_time(props, "DTEND"@) != 0
}

/// The meetings `ms` are those of the events at indices `idx`, in order: each
/// meeting carries what its event gives, an event without recurrence rule made
/// a meeting only when it occurs, and every such event that occurs made one.
pub open spec fn meetings_of_events(
    ms: Seq<Meeting>,
    idx: Seq<int>,
    events: Seq<CalendarEvent>,
    date: i32,
    prefixes: Seq<String>,
) -> bool {
    &&& ms.len() == idx.len()
    &&& forall|k: int| 0 <= k < idx.len() ==> 0 <= #[trigger] idx[k] < events.len()
        && meeting_of(ms[k], events[idx[k]].properties@, prefixes)
        && (!has_rrule(events[idx[k]].properties@) ==> single_occurs(events[idx[k]].properties@, date))
    &&& forall|k: int, l: int| 0 <= k < l < idx.len() ==> idx[k] < idx[l]
    &&& forall|j: int| 0 <= j < events.len() && single_occurs(#[trigger] events[j].properties@, date)
        && i64::MIN <= last_time(events[j].properties@, "DTEND"@) - last_time(events[j].properties@, "DTSTART"@) <= i64::MAX
        ==> exists|k: int| 0 <= k < idx.len() && idx[k] == j
}

/// The meetings of the day: those the events make, in the order of the events,
/// with the meetings that compete for time removed when `remove_overlaps_flag`
/// holds. An invalid prefix is reported before any event is read; then the first
/// error of an event, in order.
pub fn meetings_from_calendar(
    events: &Vec<CalendarEvent>,
    date: i32,
    project_prefixes: &Vec<String>,
    remove_overlaps_flag: bool,
) -> (r: Result<Vec<Meeting>, CalendarError>)
    ensures
        !prefixes_valid(project_prefixes@) <==> r == Err::<Vec<Meeting>, CalendarError>(CalendarError::InvalidPrefix),
        r matches Ok(v) ==> exists|all: Seq<Meeting>, idx: Seq<int>| {
            &&& #[trigger] meetings_of_events(all, idx, events@, date, project_prefixes@)
            &&& (remove_overlaps_flag ==> v@ == resolve(all))
            &&& (!remove_overlaps_flag ==> v@ == all)
        },
        remove_overlaps_flag ==> (r matches Ok(v) ==> pairwise_separate(v@)),
        r matches Err(e) ==> (e != CalendarError::InvalidPrefix ==> exists|k: int|
            0 <= k < events@.len() && error_from_event(e, #[trigger] events@[k].properties@, date)),
        (exists|k: int| 0 <= k < events@.len() && (#[trigger] props_error(events@[k].properties@)) is Some)
            ==> r is Err,
        prefixes_valid(project_prefixes@) && (forall|k: int| 0 <= k < events@.len() ==> plain_event(
            #[trigger] events@[k].properties@,
            date,
        )) ==> r is Ok,
{
    if !check_prefixes(project_prefixes) {
        return Err(CalendarError::InvalidPrefix);
    }
    let mut meetings: Vec<Meeting> = Vec::new();
    let ghost mut idx: Seq<int> = Seq::empty();
    let mut i: usize = 0;
    while i < events.len()
        invariant
            0 <= i <= events.len(),
            prefixes_valid(project_prefixes@),
            meetings@.len() == idx.len(),
            forall|k: int| 0 <= k < idx.len() ==> 0 <= #[trigger] idx[k] < i
                && meeting_of(meetings@[k], events@[idx[k]].properties@, project_prefixes@)
                && (!has_rrule(events@[idx[k]].properties@) ==> single_occurs(events@[idx[k]].properties@, date)),
            forall|k: int, l: int| 0 <= k < l < idx.len() ==> idx[k] < idx[l],
            forall|j: int| 0 <= j < i ==> props_error(#[trigger] events@[j].properties@) is None,
            forall|j: int| 0 <= j < i && single_occurs(#[trigger] events@[j].properties@, date)
                && i64::MIN <= last_time(events@[j].properties@, "DTEND"@) - last_time(events@[j].properties@, "DTSTART"@) <= i64::MAX
                ==> exists|k: int| 0 <= k < idx.len() && idx[k] == j,
        decreases events.len() - i,
    {
        match meeting_from_event(&events[i], date, project_prefixes) {
            Ok(Some(m)) => {
                let ghost prev = meetings@;
                let ghost prev_idx = idx;
                meetings.push(m);
                proof {
                    idx = idx.push(i as int);
                    assert(idx[idx.len() - 1] == i as int);
                    assert forall|j: int| 0 <= j < i + 1 && single_occurs(#[trigger] events@[j].properties@, date)
                        && i64::MIN <= last_time(events@[j].properties@, "DTEND"@) - last_time(events@[j].properties@, "DTSTART"@) <= i64::MAX
                        implies exists|k: int| 0 <= k < idx.len() && idx[k] == j by {
                        if j < i {
                            let k = choose|k: int| 0 <= k < prev_idx.len() && prev_idx[k] == j;
                            assert(idx[k] == j);
                        } else {
                            assert(idx[idx.len() - 1] == j);
                        }
                    }
                    assert forall|k: int| 0 <= k < idx.len() implies 0 <= #[trigger] idx[k] < i + 1
                        && meeting_of(meetings@[k], events@[idx[k]].properties@, project_prefixes@)
                        && (!has_rrule(events@[idx[k]].properties@) ==> single_occurs(events@[idx[k]].properties@, date)) by {
                        if k < prev_idx.len() {
                            assert(idx[k] == prev_idx[k]);
                            assert(meetings@[k] == prev[k]);
                        }
                    }
                }
            },
            Ok(None) => {
                proof {
                    assert forall|j: int| 0 <= j < i + 1 && single_occurs(#[trigger] events@[j].properties@, date)
                        && i64::MIN <= last_time(events@[j].properties@, "DTEND"@) - last_time(events@[j].properties@, "DTSTART"@) <= i64::MAX
                        implies exists|k: int| 0 <= k < idx.len() && idx[k] == j by {
                        if j == i {
                            assert(false);
                        }
                    }
                }
            },
            Err(e) => {
                proof {
                    lemma_props_error_kind(events@[i as int].properties@);
                    assert(error_from_event(e, events@[i as int].properties@, date));
                    assert(!plain_event(events@[i as int].properties@, date));
                }
                return Err(e);
            },
        }
        i = i + 1;
    }
    let ghost all = meetings@;
    assert(meetings_of_events(all, idx, events@, date, project_prefixes@));
    if remove_overlaps_flag {
        let kept = remove_overlaps(meetings);
        assert(exists|a: Seq<Meeting>, x: Seq<int>| {
            &&& #[trigger] meetings_of_events(a, x, events@, date, project_prefixes@)
            &&& (remove_overlaps_flag ==> kept@ == resolve(a))
            &&& (!remove_overlaps_flag ==> kept@ == a)
        });
        Ok(kept)
    } else {
        assert(exists|a: Seq<Meeting>, x: Seq<int>| {
            &&& #[trigger] meetings_of_events(a, x, events@, date, project_prefixes@)
            &&& (remove_overlaps_flag ==> meetings@ == resolve(a))
            &&& (!remove_overlaps_flag ==> meetings@ == a)
        });
        Ok(meetings)
    }
}

/// The work events of the meetings: each takes its own duration and start time,
/// a weight of one, its title as description, and its issue code, else the default
/// issue key, else an empty key.
pub fn meetings_to_events(meetings: Vec<Meeting>, default_issue_key: Option<&String>) -> (r: Vec<
    WorkEvent<Meeting>,
>)
    ensures
        r@.len() == meetings@.len(),
        forall|k: int| 0 <= k < r@.len() ==> {
            let m = meetings@[k];
            &&& (#[trigger] r@[k]).event == m
            &&& r@[k].duration == m.duration
            &&& r@[k].score == 1
            &&& r@[k].description == m.title
            &&& r@[k].time == Some(crate::date::second_of_day(m.start_time) as u32)
            &&& r@[k].key@ == match m.tempo_code {
                Some(c) => c@,
                None => match default_issue_key {
                    Some(d) => d@,
                    None => Seq::<char>::empty(),
                },
            }
        },
{
    let ghost orig = meetings@;
    let n = meetings.len();
    let mut rest = meetings;
    let mut out: Vec<WorkEvent<Meeting>> = Vec::new();
    let mut i: usize = 0;
    assert(orig.skip(0) =~= orig);
    while rest.len() > 0
        invariant
            i + rest@.len() == orig.len(),
            orig.len() == n,
            rest@ == orig.skip(i as int),
            out@.len() == i,
            forall|k: int| 0 <= k < i ==> {
                let m = orig[k];
                &&& (#[trigger] out@[k]).event == m
                &&& out@[k].duration == m.duration
                &&& out@[k].score == 1
                &&& out@[k].description == m.title
                &&& out@[k].time == Some(crate::date::second_of_day(m.start_time) as u32)
                &&& out@[k].key@ == match m.tempo_code {
                    Some(c) => c@,
                    None => match default_issue_key {
                        Some(d) => d@,
                        None => Seq::<char>::empty(),
                    },
                }
            },
        decreases rest.len(),
    {
        let m = rest.remove(0);
        assert(orig[i as int] == m);
        assert(rest@ =~= orig.skip(i + 1));
        let key = match &m.tempo_code {
            Some(c) => c.clone(),
            None => match default_issue_key {
                Some(d) => d.clone(),
                None => String::new(),
            },
        };
        let time = time_of_day(m.start_time);
        let description = m.title.clone();
        let duration = m.duration;
        out.push(WorkEvent::new(duration, 1, key, description, Some(time), m));
        i = i + 1;
    }
    out
}

/// A work event made from a meeting: its duration and start time, a weight of one,
/// its title as description, and its issue code, else the default key, else none.
pub open spec fn meeting_event(w: WorkEvent<Meeting>, default_key: Option<Seq<char>>) -> bool {
    let m = w.event;
    &&& w.duration == m.duration
    &&& w.score == 1
    &&& w.description == m.title
    &&& w.time == Some(crate::date::second_of_day(m.start_time) as u32)
    &&& w.key@ == match m.tempo_code {
        Some(c) => c@,
        None => match default_key {
            Some(d) => d,
            None => Seq::<char>::empty(),
        },
    }
}

pub open spec fn key_view(k: Option<&String>) -> Option<Seq<char>> {
    match k {
        Some(s) => Some(s@),
        None => None,
    }
}

/// The events `v` are the meetings `resolve(all)`, each used once, where `all`
/// are the meetings of the events at `idx`; `order` gives the meeting of each
/// event, and events of equal duration keep the order of their meetings.
pub open spec fn resolved_in_order(
    v: Seq<WorkEvent<Meeting>>,
    all: Seq<Meeting>,
    idx: Seq<int>,
    order: Seq<int>,
    events: Seq<CalendarEvent>,
    date: i32,
    prefixes: Seq<String>,
) -> bool {
    &&& meetings_of_events(all, idx, events, date, prefixes)
    &&& order.len() == v.len()
    &&& v.len() == resolve(all).len()
    &&& forall|k: int| 0 <= k < order.len() ==> 0 <= #[trigger] order[k] < resolve(all).len()
        && v[k].event == resolve(all)[order[k]]
    &&& forall|k: int, l: int| 0 <= k < order.len() && 0 <= l < order.len() && k != l
        ==> #[trigger] order[k] != #[trigger] order[l]
    &&& forall|k: int, l: int| 0 <= k < l < order.len() && v[k].duration == v[l].duration
        ==> #[trigger] order[k] < #[trigger] order[l]
}

/// The work events of the day's meetings: the meetings of the calendar with those
/// that compete for time removed, as work events, sorted by decreasing duration
/// (equal durations keep their order). Errors are those of `meetings_from_calendar`.
pub fn meeting_events(
    events: &Vec<CalendarEvent>,
    date: i32,
    project_prefixes: &Vec<String>,
    default_issue_key: Option<&String>,
) -> (r: Result<Vec<WorkEvent<Meeting>>, CalendarError>)
    ensures
        !prefixes_valid(project_prefixes@) <==> r == Err::<Vec<WorkEvent<Meeting>>, CalendarError>(CalendarError::InvalidPrefix),
        r matches Err(e) ==> (e != CalendarError::InvalidPrefix ==> exists|k: int|
            0 <= k < events@.len() && error_from_event(e, #[trigger] events@[k].properties@, date)),
        (exists|k: int| 0 <= k < events@.len() && (#[trigger] props_error(events@[k].properties@)) is Some)
            ==> r is Err,
        prefixes_valid(project_prefixes@) && (forall|k: int| 0 <= k < events@.len() ==> plain_event(
            #[trigger] events@[k].properties@,
            date,
        )) ==> r is Ok,
        r matches Ok(v) ==> {
            &&& sorted_by_key(v@, false)
            &&& forall|k: int| 0 <= k < v@.len() ==> #[trigger] meeting_event(v@[k], key_view(default_issue_key))
            &&& exists|all: Seq<Meeting>, idx: Seq<int>, order: Seq<int>| #[trigger] resolved_in_order(
                v@,
                all,
                idx,
                order,
                events@,
                date,
                project_prefixes@,
            )
        },
{
    let meetings = match meetings_from_calendar(events, date, project_prefixes, true) {
        Ok(m) => m,
        Err(e) => {
            return Err(e);
        },
    };
    let ghost ms = meetings@;
    let w = meetings_to_events(meetings, default_issue_key);
    let ghost ws = w@;
    let v = to_sorted_events(w);
    proof {
        let (all, idx) = choose|all: Seq<Meeting>, idx: Seq<int>| {
            &&& #[trigger] meetings_of_events(all, idx, events@, date, project_prefixes@)
            &&& ms == resolve(all)
        };
        let order = choose|order: Seq<int>| #[trigger] stable_index(v@, ws, order, false);
        assert forall|k: int| 0 <= k < v@.len() implies #[trigger] meeting_event(v@[k], key_view(default_issue_key)) by {
            assert(v@[k] == ws[order[k]]);
        }
        assert forall|k: int| 0 <= k < order.len() implies 0 <= #[trigger] order[k] < resolve(all).len()
            && v@[k].event == resolve(all)[order[k]] by {
            assert(v@[k] == ws[order[k]]);
        }
        assert forall|k: int, l: int| 0 <= k < l < order.len() && v@[k].duration == v@[l].duration
            implies #[trigger] order[k] < #[trigger] order[l] by {
            assert(crate::work_event::order_key(v@[k], false) == crate::work_event::order_key(v@[l], false));
        }
        assert(resolved_in_order(v@, all, idx, order, events@, date, project_prefixes@));
    }
    Ok(v)
}

} // verus!
