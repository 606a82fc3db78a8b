use chrono::{Datelike, NaiveDate};
use rand::rngs::StdRng;
use rand::SeedableRng;
use tempo_bot::jira::{
    first_sprint_with_prefix, issues_for_user, with_estimation_field, BoardConfiguration, BoardEstimation,
    BoardEstimationField, BoardLocation, ColumnConfig, Issue, IssueFields, IssueType, NumericField, Priority,
    PriorityLevel, Resolution, Sprint, Status, StatusCategory, User,
};
use tempo_bot::scoring::{issue_events, score_issues, JITTER_MAX, JITTER_MIN};

const ME: &str = "me@example.com";

fn user(email: &str) -> User {
    User {
        self_: String::new(),
        account_id: String::new(),
        email_address: email.to_string(),
        display_name: String::new(),
        active: true,
        time_zone: String::new(),
        account_type: String::new(),
    }
}

fn issue(key: &str, estimate: Option<u32>, assignee: Option<&str>, category: &str, priority: &str) -> Issue {
    Issue {
        expand: String::new(),
        id: String::new(),
        self_: String::new(),
        key: key.to_string(),
        fields: IssueFields {
            creator: user("boss@example.com"),
            reporter: user("boss@example.com"),
            assignee: assignee.map(user),
            updated: String::new(),
            created: String::new(),
            resolution_date: None,
            resolution: None,
            summary: String::new(),
            status: Status {
                self_: String::new(),
                id: String::new(),
                name: String::new(),
                description: String::new(),
                status_category: StatusCategory {
                    self_: String::new(),
                    id: 0,
                    name: String::new(),
                    key: category.to_string(),
                    color_name: String::new(),
                },
            },
            issue_type: IssueType {
                id: String::new(),
                description: String::new(),
                name: String::new(),
                subtask: false,
                hierarchy_level: 0,
            },
            flagged: false,
            epic: None,
            priority: Priority { self_: String::new(), id: String::new(), name: priority.to_string() },
            components: Vec::new(),
            labels: Vec::new(),
            time_spent: None,
            time_tracking: None,
            work_ratio: 0,
            additional_fields: vec![NumericField { name: "customfield_1".to_string(), hundredths: estimate }],
        },
        estimation_field_name: Some("customfield_1".to_string()),
    }
}

fn day(y: i32, m: u32, d: u32) -> i32 {
    NaiveDate::from_ymd_opt(y, m, d).unwrap().num_days_from_ce()
}

fn resolution() -> Resolution {
    Resolution { self_: String::new(), id: String::new(), name: String::new(), description: String::new() }
}

#[test]
fn score_of_an_assigned_issue_in_progress() {
    let i = issue("ABC-1", Some(300), Some(ME), "indeterminate", "High");
    assert_eq!(i.compute_time_score(ME, day(2021, 5, 5), 1000), 300 * 2 * 2 * 3 * 12 * 1000);
}

#[test]
fn score_defaults_and_factors() {
    let i = issue("ABC-2", None, None, "new", "Unknown label");
    assert_eq!(i.estimation(), None);
    assert_eq!(i.compute_time_score(ME, day(2021, 5, 5), 700), 100 * 3 * 10 * 700);
    let low = issue("ABC-3", Some(50), Some("other@example.com"), "done", "Low");
    assert_eq!(low.compute_time_score(ME, day(2021, 5, 5), 1300), 50 * 3 * 8 * 1300);
    let highest = issue("ABC-4", Some(100), None, "new", "Highest");
    assert_eq!(highest.compute_time_score(ME, day(2021, 5, 5), 1000), 100 * 3 * 15 * 1000);
}

#[test]
fn resolved_on_another_day_weighs_a_third() {
    let mut i = issue("ABC-5", Some(100), None, "done", "Medium");
    i.fields.resolution = Some(resolution());
    i.fields.resolution_date = Some("2021-05-04T10:00:00+00:00".to_string());
    assert_eq!(i.resolution_date(), Some(day(2021, 5, 4)));
    assert_eq!(i.compute_time_score(ME, day(2021, 5, 5), 1000), 100 * 10 * 1000);
    assert_eq!(i.compute_time_score(ME, day(2021, 5, 4), 1000), 100 * 3 * 10 * 1000);
}

#[test]
fn priority_levels() {
    let p = |n: &str| Priority { self_: String::new(), id: String::new(), name: n.to_string() }.level();
    assert_eq!(p("Highest"), PriorityLevel::Highest);
    assert_eq!(p("High"), PriorityLevel::High);
    assert_eq!(p("Medium"), PriorityLevel::Medium);
    assert_eq!(p("Low"), PriorityLevel::Low);
    assert_eq!(p("Blocker"), PriorityLevel::Medium);
}

#[test]
fn user_identity() {
    let i = issue("ABC-6", None, Some(ME), "new", "Medium");
    assert!(i.is_assigned_to(ME));
    assert!(!i.is_assigned_to("x@example.com"));
    assert!(!i.was_reported_by(ME));
    assert!(i.fields.reporter.is("boss@example.com"));
    assert!(!i.is_in_progress());
    assert!(!i.is_resolved());
}

#[test]
fn seeded_scores_stay_in_range_and_repeat() {
    let issues = vec![
        issue("ABC-1", Some(100), Some(ME), "indeterminate", "High"),
        issue("ABC-2", Some(200), None, "new", "Low"),
    ];
    let mut rng = StdRng::seed_from_u64(7);
    let a = score_issues(&issues, ME, day(2021, 5, 5), &mut rng);
    let mut rng = StdRng::seed_from_u64(7);
    let b = score_issues(&issues, ME, day(2021, 5, 5), &mut rng);
    assert_eq!(a, b);
    let base0 = 100 * 2 * 2 * 3 * 12;
    assert!(a[0] >= base0 * JITTER_MIN && a[0] <= base0 * JITTER_MAX);
    let base1 = 200 * 3 * 8;
    assert!(a[1] >= base1 * JITTER_MIN && a[1] <= base1 * JITTER_MAX);
}

#[test]
fn issue_events_are_sorted_and_fill_the_day() {
    let issues = vec![
        issue("ABC-1", Some(100), None, "new", "Low"),
        issue("ABC-2", Some(800), Some(ME), "indeterminate", "Highest"),
        issue("ABC-3", Some(300), Some(ME), "new", "Medium"),
    ];
    let mut rng = StdRng::seed_from_u64(1);
    let r = issue_events(issues, ME, day(2021, 5, 5), &mut rng, 28800, 900, 1800).unwrap();
    assert_eq!(r.len(), 3);
    assert_eq!(r[0].key, "ABC-2");
    for w in r.windows(2) {
        assert!(w[0].score >= w[1].score);
    }
    let sum: i64 = r.iter().map(|e| e.duration).sum();
    assert!(sum >= 0 && sum <= 28800 + 1800);
    for e in &r {
        assert_eq!(e.duration % 1800, 0);
        assert_eq!(e.key, e.event.key);
    }
    let mut rng = StdRng::seed_from_u64(1);
    let issues = vec![
        issue("ABC-1", Some(100), None, "new", "Low"),
        issue("ABC-2", Some(800), Some(ME), "indeterminate", "Highest"),
        issue("ABC-3", Some(300), Some(ME), "new", "Medium"),
    ];
    let again = issue_events(issues, ME, day(2021, 5, 5), &mut rng, 28800, 900, 1800).unwrap();
    let d1: Vec<(String, i64)> = r.iter().map(|e| (e.key.clone(), e.duration)).collect();
    let d2: Vec<(String, i64)> = again.iter().map(|e| (e.key.clone(), e.duration)).collect();
    assert_eq!(d1, d2);
}

#[test]
fn issues_of_the_user() {
    let mut reported = issue("ABC-9", None, None, "new", "Medium");
    reported.fields.reporter = user(ME);
    let issues = vec![
        issue("ABC-7", None, Some(ME), "new", "Medium"),
        issue("ABC-8", None, Some("x@example.com"), "new", "Medium"),
        reported,
    ];
    let r = issues_for_user(issues, ME);
    let keys: Vec<&str> = r.iter().map(|i| i.key.as_str()).collect();
    assert_eq!(keys, vec!["ABC-7", "ABC-9"]);
}

#[test]
fn estimation_field_is_recorded() {
    let mut i = issue("ABC-10", Some(250), None, "new", "Medium");
    i.estimation_field_name = None;
    assert_eq!(i.estimation(), None);
    let r = with_estimation_field(vec![i], &"customfield_1".to_string());
    assert_eq!(r[0].estimation(), Some(250));
}

fn sprint(name: &str, id: i32) -> Sprint {
    Sprint {
        id,
        self_: String::new(),
        state: "active".to_string(),
        name: name.to_string(),
        start_date: None,
        end_date: None,
        complete_date: None,
        origin_board_id: 1,
        goal: String::new(),
    }
}

#[test]
fn first_sprint_by_prefix() {
    let sprints = vec![sprint("Other 3", 1), sprint("Team 12", 2), sprint("Team 13", 3)];
    assert_eq!(first_sprint_with_prefix(sprints, "Team").map(|s| s.id), Some(2));
    let sprints = vec![sprint("Other 3", 1)];
    assert!(first_sprint_with_prefix(sprints, "Team").is_none());
}

fn board(estimation: Option<BoardEstimation>) -> BoardConfiguration {
    BoardConfiguration {
        self_: String::new(),
        id: 1,
        name: String::new(),
        type_: String::new(),
        location: BoardLocation {
            self_: String::new(),
            id: String::new(),
            name: String::new(),
            key: String::new(),
            type_: String::new(),
        },
        estimation,
        column_config: ColumnConfig { constraint_type: String::new(), columns: Vec::new() },
    }
}

#[test]
fn board_estimation_field() {
    let field = || Some(BoardEstimationField { field_id: "customfield_10016".to_string(), display_name: String::new() });
    let b = board(Some(BoardEstimation { type_: "field".to_string(), field: field() }));
    assert_eq!(b.estimation_field_name().as_deref(), Some("customfield_10016"));
    let b = board(Some(BoardEstimation { type_: "issueCount".to_string(), field: field() }));
    assert_eq!(b.estimation_field_name(), None);
    let b = board(Some(BoardEstimation { type_: "field".to_string(), field: None }));
    assert_eq!(b.estimation_field_name(), None);
    assert_eq!(board(None).estimation_field_name(), None);
}

#[test]
fn issue_events_keep_every_issue_once() {
    let issues = vec![
        issue("ABC-1", Some(100), None, "new", "Medium"),
        issue("ABC-1", Some(100), None, "new", "Medium"),
        issue("ABC-2", Some(5000), Some(ME), "indeterminate", "Highest"),
    ];
    let mut rng = StdRng::seed_from_u64(3);
    let r = issue_events(issues, ME, day(2021, 5, 5), &mut rng, 28800, 0, 900).unwrap();
    let keys: Vec<&str> = r.iter().map(|e| e.key.as_str()).collect();
    assert_eq!(keys, vec!["ABC-2", "ABC-1", "ABC-1"]);
}
