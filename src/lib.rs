use vstd::prelude::*;

pub mod allocation;
pub mod calendar;
pub mod date;
pub mod http;
pub mod jira;
pub mod meeting;
pub mod overlap;
pub mod scoring;
pub mod tempo;
pub mod work_event;

verus! {

pub struct JiraHttpConfig {
    pub host: String,
    pub email: String,
    pub api_key: String,
}

pub struct TempoHttpConfig {
    pub api_key: String,
    pub account_id: String,
}

/// What a run needs to know. The date is a day number from the Common Era.
pub struct Config {
    pub jira: JiraHttpConfig,
    pub tempo: TempoHttpConfig,
    pub board_id: i32,
    pub sprint_prefix: String,
    pub project_prefixes: Vec<String>,
    pub date: i32,
    pub target_workday_duration_seconds: Option<i32>,
    /// Every logged duration is a multiple of this increment.
    pub work_increment_seconds: i32,
    /// A proportional share below this duration gets nothing.
    pub min_work_increment_seconds: i32,
    pub calendar_ics: Option<String>,
    pub meeting_default_issue: Option<String>,
    pub dry_run: bool,
    pub skip_confirmation: bool,
}

/// What a run does once the work of the day is known.
#[derive(Debug, Clone, Copy, PartialEq, Eq, Structural)]
pub enum LogStep {
    /// No time is left in the day.
    NoTimeLeft,
    /// There is neither meeting nor issue to log.
    NothingToLog,
    /// The run only shows what it would log.
    DryRun,
    /// The user is asked before anything is logged.
    AskFirst,
    /// The work is logged.
    Log,
}

/// Whether the day still has time to log: a run stops at once when it has none.
pub fn time_left(remaining: i128) -> (r: Option<LogStep>)
    ensures
        r == (if remaining == 0 { Some(LogStep::NoTimeLeft) } else { None::<LogStep> }),
{
    if remaining == 0 {
        Some(LogStep::NoTimeLeft)
    } else {
        None
    }
}

/// The step after the meetings and issues of the day are known.
pub fn logging_step(has_meetings: bool, has_issues: bool, dry_run: bool, skip_confirmation: bool) -> (r: LogStep)
    ensures
        r == (if !has_meetings && !has_issues {
            LogStep::NothingToLog
        } else if dry_run {
            LogStep::DryRun
        } else if !skip_confirmation {
            LogStep::AskFirst
        } else {
            LogStep::Log
        }),
{
    if !has_meetings && !has_issues {
        LogStep::NothingToLog
    } else if dry_run {
        LogStep::DryRun
    } else if !skip_confirmation {
        LogStep::AskFirst
    } else {
        LogStep::Log
    }
}

/// The seconds of the day left to log: the target duration when one is set,
/// else the scheduled one, less what is already logged.
pub fn remaining_time(target: Option<i32>, scheduled: i32, logged: i128) -> (r: i128)
    requires
        -0x1_0000_0000_0000_0000_0000_0000 <= logged <= 0x1_0000_0000_0000_0000_0000_0000,
    ensures
        r == (match target {
            Some(t) => t as int,
            None => scheduled as int,
        }) - logged,
{
    let day: i32 = match target {
        Some(t) => t,
        None => scheduled,
    };
    day as i128 - logged
}

/// The budget for issues: the time left once meetings are counted, brought
/// within the range of an `i32`.
pub fn issue_budget(remaining: i128, meetings: i128) -> (r: i32)
    requires
        -0x1_0000_0000_0000_0000_0000_0000 <= remaining <= 0x1_0000_0000_0000_0000_0000_0000,
        -0x1_0000_0000_0000_0000_0000_0000 <= meetings <= 0x1_0000_0000_0000_0000_0000_0000,
    ensures
        r == (if remaining - meetings > i32::MAX { i32::MAX as int } else if remaining - meetings < i32::MIN { i32::MIN as int } else { remaining - meetings }),
{
    let left = remaining - meetings;
    if left > i32::MAX as i128 {
        i32::MAX
    } else if left < i32::MIN as i128 {
        i32::MIN
    } else {
        left as i32
    }
}

} // verus!
