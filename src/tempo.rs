use vstd::prelude::*;

verus! {

pub struct Schedule {
    pub date: String,
    pub required_seconds: i32,
    pub type_: String,
}

pub struct ListSchedulesResponseMetadata {
    pub count: i32,
}

pub struct ListSchedulesResponse {
    pub self_: String,
    pub metadata: ListSchedulesResponseMetadata,
    pub results: Vec<Schedule>,
}

pub struct WorkLogIssue {
    pub self_: String,
    pub key: String,
    pub id: i32,
}

pub struct WorkLogAuthor {
    pub self_: String,
    pub account_id: String,
    pub display_name: String,
}

pub struct WorkLog {
    pub self_: String,
    pub tempo_worklog_id: i32,
    pub jira_worklog_id: i32,
    pub issue: WorkLogIssue,
    pub time_spent_seconds: i32,
    pub billable_seconds: i32,
    pub start_date: String,
    pub start_time: String,
    pub description: String,
    pub created_at: String,
    pub updated_at: String,
    pub author: WorkLogAuthor,
}

pub struct ListWorkLogsResponseMetadata {
    pub count: i32,
    pub offset: i32,
    pub limit: i32,
}

pub struct ListWorkLogsResponse {
    pub self_: String,
    pub metadata: ListWorkLogsResponseMetadata,
    pub results: Vec<WorkLog>,
}

/// The seconds of work the first schedule of the day requires.
pub fn work_duration(schedules: &Vec<Schedule>) -> (r: Option<i32>)
    ensures
        r == (if schedules@.len() == 0 { None } else { Some(schedules@[0].required_seconds) }),
{
    if schedules.len() == 0 {
        None
    } else {
        Some(schedules[0].required_seconds)
    }
}

/// Sum of the time spent of some work logs.
pub open spec fn spent_sum(logs: Seq<WorkLog>) -> int
    decreases logs.len(),
{
    if logs.len() == 0 {
        0
    } else {
        spent_sum(logs.drop_last()) + logs.last().time_spent_seconds
    }
}

/// The seconds already logged.
pub fn logged_seconds(worklogs: &Vec<WorkLog>) -> (r: i128)
    ensures
        r == spent_sum(worklogs@),
{
    let mut sum: i128 = 0;
    let mut i: usize = 0;
    while i < worklogs.len()
        invariant
            0 <= i <= worklogs.len(),
            sum == spent_sum(worklogs@.take(i as int)),
            -0x8000_0000 * (i as int) <= sum <= 0x8000_0000 * (i as int),
        decreases worklogs.len() - i,
    {
        assert(worklogs@.take(i + 1).drop_last() =~= worklogs@.take(i as int));
        sum = sum + worklogs[i].time_spent_seconds as i128;
        i = i + 1;
    }
    assert(worklogs@.take(i as int) =~= worklogs@);
    sum
}

} // verus!
