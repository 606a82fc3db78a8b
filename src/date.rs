use vstd::prelude::*;
use chrono::Datelike;

verus! {

pub const SECONDS_PER_DAY: i64 = 86400;

/// The day number (days from the Common Era, 0001-01-01 being day 1) of 1970-01-01.
pub const EPOCH_DAY: i64 = 719163;

/// The day on which a naive timestamp falls, as a day number from the Common Era.
pub open spec fn day_of(timestamp: i64) -> int {
    timestamp as int / SECONDS_PER_DAY as int + EPOCH_DAY as int
}

/// Seconds elapsed since midnight at a naive timestamp.
pub open spec fn second_of_day(timestamp: i64) -> int {
    timestamp as int % SECONDS_PER_DAY as int
}

pub fn date_of(timestamp: i64) -> (r: i64)
    ensures
        r == day_of(timestamp),
{
    match timestamp.checked_div_euclid(SECONDS_PER_DAY) {
        Some(q) => q + EPOCH_DAY,
        None => {
            assert(false);
            0
        },
    }
}

pub fn time_of_day(timestamp: i64) -> (r: u32)
    ensures
        r == second_of_day(timestamp),
        r < SECONDS_PER_DAY,
{
    match timestamp.checked_rem_euclid(SECONDS_PER_DAY) {
        Some(q) => q as u32,
        None => {
            assert(false);
            0
        },
    }
}

/// What chrono's `NaiveDateTime::parse_from_str` makes of a text under a format,
/// as a naive timestamp.
pub uninterp spec fn parsed_date_time(text: Seq<char>, format: Seq<char>) -> Option<i64>;

/// What chrono's `NaiveDate::parse_from_str` makes of a text under a format, as
/// a day number from the Common Era.
pub uninterp spec fn parsed_date(text: Seq<char>, format: Seq<char>) -> Option<i32>;

/// Relies on chrono's `NaiveDateTime::parse_from_str`, read as seconds since
/// 1970-01-01T00:00:00 with no time zone; `None` where chrono refuses the text.
#[verifier::external_body]
pub(crate) fn parse_date_time(text: &str, format: &str) -> (r: Option<i64>)
    ensures
        r == parsed_date_time(text@, format@),
{
    match chrono::NaiveDateTime::parse_from_str(text, format) {
        Ok(t) => Some(t.and_utc().timestamp()),
        Err(_) => None,
    }
}

/// Relies on chrono's `NaiveDate::parse_from_str`, read as the day number that
/// `num_days_from_ce` gives; `None` where chrono refuses the text.
#[verifier::external_body]
pub(crate) fn parse_date(text: &str, format: &str) -> (r: Option<i32>)
    ensures
        r == parsed_date(text@, format@),
{
    match chrono::NaiveDate::parse_from_str(text, format) {
        Ok(d) => Some(d.num_days_from_ce()),
        Err(_) => None,
    }
}

/// Why a date given as text was refused.
#[derive(Debug, PartialEq, Eq, Structural)]
pub enum DateError {
    Unparsable,
}

/// A date given as `today`, `yesterday` or `YYYY-MM-DD`, as a day number; `today`
/// is the day number of the current date.
pub fn parse_date_from_str(text: &str, today: i32) -> (r: Result<i32, DateError>)
    requires
        today > i32::MIN,
    ensures
        text@ == "today"@ ==> r == Ok::<i32, DateError>(today),
        text@ == "yesterday"@ ==> r == Ok::<i32, DateError>((today - 1) as i32),
        text@ != "today"@ && text@ != "yesterday"@ ==> r == match parsed_date(text@, "%Y-%m-%d"@) {
            Some(d) => Ok::<i32, DateError>(d),
            None => Err(DateError::Unparsable),
        },
{
    proof {
        reveal_strlit("today");
        reveal_strlit("yesterday");
        assert("today"@.len() != "yesterday"@.len());
    }
    if str_eq(text, "today") {
        Ok(today)
    } else if str_eq(text, "yesterday") {
        Ok(today - 1)
    } else {
        match parse_date(text, "%Y-%m-%d") {
            Some(d) => Ok(d),
            None => Err(DateError::Unparsable),
        }
    }
}

/// Whether two texts are equal.
pub fn str_eq(a: &str, b: &str) -> (r: bool)
    ensures
        r == (a@ == b@),
{
    String::from_str(a) == String::from_str(b)
}

/// Whether `text` begins with `prefix`.
pub fn starts_with(text: &str, prefix: &str) -> (r: bool)
    ensures
        r == (prefix@.len() <= text@.len() && text@.subrange(0, prefix@.len() as int) == prefix@),
{
    let n = prefix.unicode_len();
    if n > text.unicode_len() {
        return false;
    }
    let mut i: usize = 0;
    while i < n
        invariant
            n == prefix@.len(),
            n <= text@.len(),
            0 <= i <= n,
            forall|k: int| 0 <= k < i ==> text@[k] == prefix@[k],
        decreases n - i,
    {
        if text.get_char(i) != prefix.get_char(i) {
            assert(text@.subrange(0, n as int)[i as int] != prefix@[i as int]);
            return false;
        }
        i = i + 1;
    }
    assert(text@.subrange(0, n as int) =~= prefix@);
    true
}

pub open spec fn digit_char(d: nat) -> char {
    if d == 0 { '0' }
    else if d == 1 { '1' }
    else if d == 2 { '2' }
    else if d == 3 { '3' }
    else if d == 4 { '4' }
    else if d == 5 { '5' }
    else if d == 6 { '6' }
    else if d == 7 { '7' }
    else if d == 8 { '8' }
    else { '9' }
}

/// The decimal digits of a natural number, most significant first.
pub open spec fn digits(n: nat) -> Seq<char>
    decreases n,
{
    if n < 10 {
        seq![digit_char(n)]
    } else {
        digits(n / 10).push(digit_char(n % 10))
    }
}

/// The decimal text of an integer, with a leading `-` below zero.
pub open spec fn decimal(n: int) -> Seq<char> {
    if n < 0 {
        seq!['-'] + digits((-n) as nat)
    } else {
        digits(n as nat)
    }
}

fn digit_str(d: u64) -> (r: &'static str)
    requires
        d < 10,
    ensures
        r@ == seq![digit_char(d as nat)],
{
    if d == 0 {
        proof { reveal_strlit("0"); }
        "0"
    } else if d == 1 {
        proof { reveal_strlit("1"); }
        "1"
    } else if d == 2 {
        proof { reveal_strlit("2"); }
        "2"
    } else if d == 3 {
        proof { reveal_strlit("3"); }
        "3"
    } else if d == 4 {
        proof { reveal_strlit("4"); }
        "4"
    } else if d == 5 {
        proof { reveal_strlit("5"); }
        "5"
    } else if d == 6 {
        proof { reveal_strlit("6"); }
        "6"
    } else if d == 7 {
        proof { reveal_strlit("7"); }
        "7"
    } else if d == 8 {
        proof { reveal_strlit("8"); }
        "8"
    } else {
        proof { reveal_strlit("9"); }
        "9"
    }
}

fn push_digits(s: &mut String, n: u64)
    ensures
        final(s)@ == old(s)@ + digits(n as nat),
    decreases n,
{
    if n >= 10 {
        push_digits(s, n / 10);
    }
    s.append(digit_str(n % 10));
    assert(s@ =~= old(s)@ + digits(n as nat));
}

/// Appends the decimal text of `n`, which is `-magnitude` when `negative` holds.
fn push_decimal(s: &mut String, magnitude: u64, negative: bool)
    ensures
        final(s)@ == old(s)@ + decimal(if negative { -(magnitude as int) } else { magnitude as int }),
{
    if negative && magnitude > 0 {
        proof { reveal_strlit("-"); }
        s.append("-");
        push_digits(s, magnitude);
        assert(s@ =~= old(s)@ + (seq!['-'] + digits(magnitude as nat)));
    } else {
        push_digits(s, magnitude);
    }
}

/// Integer division that rounds toward zero, as Rust's `/` does.
pub open spec fn div_toward_zero(a: int, b: int) -> int {
    if a >= 0 { a / b } else { -((-a) / b) }
}

/// The remainder that goes with `div_toward_zero`, as Rust's `%` gives it.
pub open spec fn rem_toward_zero(a: int, b: int) -> int {
    a - b * div_toward_zero(a, b)
}

/// A duration given in seconds, as hours, minutes and seconds.
pub open spec fn duration_text(d: int) -> Seq<char> {
    decimal(div_toward_zero(d, 3600)) + "h "@ + decimal(rem_toward_zero(div_toward_zero(d, 60), 60))
        + "m "@ + decimal(rem_toward_zero(d, 60)) + "s"@
}

/// Writes a duration as `<h>h <m>m <s>s`, each part truncated toward zero.
pub fn format_duration(duration_in_seconds: i64) -> (r: String)
    ensures
        r@ == duration_text(duration_in_seconds as int),
{
    let negative = duration_in_seconds < 0;
    let magnitude: u64 = if negative {
        (-(duration_in_seconds as i128)) as u64
    } else {
        duration_in_seconds as u64
    };
    let ghost d = duration_in_seconds as int;
    let ghost m = magnitude as int;
    assert(div_toward_zero(d, 3600) == if negative { -(m / 3600) } else { m / 3600 });
    assert(div_toward_zero(d, 60) == if negative { -(m / 60) } else { m / 60 });
    assert(rem_toward_zero(div_toward_zero(d, 60), 60) == if negative { -((m / 60) % 60) } else { (m / 60) % 60 });
    assert(rem_toward_zero(d, 60) == if negative { -(m % 60) } else { m % 60 });
    let mut s = String::new();
    push_decimal(&mut s, magnitude / 3600, negative);
    proof { reveal_strlit("h "); reveal_strlit("m "); reveal_strlit("s"); }
    s.append("h ");
    push_decimal(&mut s, (magnitude / 60) % 60, negative);
    s.append("m ");
    push_decimal(&mut s, magnitude % 60, negative);
    s.append("s");
    s
}

} // verus!
