use tempo_bot::http::{Credentials, HttpClientConfig};
use tempo_bot::tempo::{logged_seconds, work_duration, Schedule, WorkLog, WorkLogAuthor, WorkLogIssue};
use tempo_bot::{issue_budget, logging_step, remaining_time, time_left, LogStep};

fn worklog(seconds: i32) -> WorkLog {
    WorkLog {
        self_: String::new(),
        tempo_worklog_id: 0,
        jira_worklog_id: 0,
        issue: WorkLogIssue { self_: String::new(), key: String::new(), id: 0 },
        time_spent_seconds: seconds,
        billable_seconds: seconds,
        start_date: String::new(),
        start_time: String::new(),
        description: String::new(),
        created_at: String::new(),
        updated_at: String::new(),
        author: WorkLogAuthor { self_: String::new(), account_id: String::new(), display_name: String::new() },
    }
}

#[test]
fn base_url_of_a_client() {
    let c = HttpClientConfig::new("example.atlassian.net", "rest/agile/1.0", Credentials::Bearer("t".to_string()));
    assert_eq!(c.base_url, "https://example.atlassian.net/rest/agile/1.0");
    assert_eq!(c.host, "example.atlassian.net");
}

#[test]
fn day_budget() {
    let logs = vec![worklog(3600), worklog(1800)];
    assert_eq!(logged_seconds(&logs), 5400);
    let schedules = vec![Schedule { date: String::new(), required_seconds: 28800, type_: String::new() }];
    assert_eq!(work_duration(&schedules), Some(28800));
    assert_eq!(work_duration(&vec![]), None);
    assert_eq!(remaining_time(None, 28800, 5400), 23400);
    assert_eq!(remaining_time(Some(7 * 3600), 28800, 5400), 19800);
    assert_eq!(issue_budget(23400, 3600), 19800);
    assert_eq!(issue_budget(1 << 40, 0), i32::MAX);
    assert_eq!(issue_budget(-(1 << 40), 0), i32::MIN);
}

#[test]
fn steps_of_a_run() {
    assert_eq!(time_left(0), Some(LogStep::NoTimeLeft));
    assert_eq!(time_left(-60), None);
    assert_eq!(logging_step(false, false, false, true), LogStep::NothingToLog);
    assert_eq!(logging_step(true, false, true, true), LogStep::DryRun);
    assert_eq!(logging_step(false, true, false, false), LogStep::AskFirst);
    assert_eq!(logging_step(true, true, false, true), LogStep::Log);
}
