use vstd::prelude::*;

verus! {

/// A meeting that occurs on the target day.
///
/// Times are naive timestamps: seconds since 1970-01-01T00:00:00, with no time zone.
/// A timestamp of zero stands for "not set".
pub struct Meeting {
    pub title: String,
    pub description: String,
    pub tempo_code: Option<String>,
    pub start_time: i64,
    pub end_time: i64,
    pub duration: i64,
}

impl Meeting {
    /// A meeting with empty text and unset times.
    pub fn new_default() -> (r: Self)
        ensures
            r.title@.len() == 0,
            r.description@.len() == 0,
            r.tempo_code is None,
            r.start_time == 0,
            r.end_time == 0,
            r.duration == 0,
    {
        Meeting {
            title: String::new(),
            description: String::new(),
            tempo_code: None,
            start_time: 0,
            end_time: 0,
            duration: 0,
        }
    }

    pub fn has_start_time(&self) -> (r: bool)
        ensures
            r == (self.start_time != 0),
    {
        self.start_time != 0
    }

    pub fn has_end_time(&self) -> (r: bool)
        ensures
            r == (self.end_time != 0),
    {
        self.end_time != 0
    }
}

} // verus!
