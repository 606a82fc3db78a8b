use vstd::prelude::*;

use crate::date::{parse_date, parsed_date, starts_with, str_eq};

verus! {

pub struct User {
    pub self_: String,
    pub account_id: String,
    pub email_address: String,
    pub display_name: String,
    pub active: bool,
    pub time_zone: String,
    pub account_type: String,
}

impl User {
    pub fn is(&self, email: &str) -> (r: bool)
        ensures
            r == (self.email_address@ == email@),
    {
        str_eq(self.email_address.as_str(), email)
    }
}

pub struct Priority {
    pub self_: String,
    pub id: String,
    pub name: String,
}

#[derive(Debug, Clone, Copy, PartialEq, Eq, Structural)]
pub enum PriorityLevel {
    Highest,
    High,
    Medium,
    Low,
}

/// The level a priority label stands for; an unknown label is `Medium`.
pub open spec fn level_of(name: Seq<char>) -> PriorityLevel {
    if name == "Highest"@ {
        PriorityLevel::Highest
    } else if name == "High"@ {
        PriorityLevel::High
    } else if name == "Low"@ {
        PriorityLevel::Low
    } else {
        PriorityLevel::Medium
    }
}

impl Priority {
    pub fn level(&self) -> (r: PriorityLevel)
        ensures
            r == level_of(self.name@),
    {
        let name = self.name.as_str();
        proof {
            reveal_strlit("Highest");
            reveal_strlit("High");
            reveal_strlit("Medium");
            reveal_strlit("Low");
            assert("Highest"@.len() == 7 && "High"@.len() == 4 && "Medium"@.len() == 6 && "Low"@.len() == 3);
        }
        if str_eq(name, "Highest") {
            PriorityLevel::Highest
        } else if str_eq(name, "High") {
            PriorityLevel::High
        } else if str_eq(name, "Medium") {
            PriorityLevel::Medium
        } else if str_eq(name, "Low") {
            PriorityLevel::Low
        } else {
            PriorityLevel::Medium
        }
    }
}

pub struct Resolution {
    pub self_: String,
    pub id: String,
    pub name: String,
    pub description: String,
}

pub struct StatusCategory {
    pub self_: String,
    pub id: i32,
    pub name: String,
    pub key: String,
    pub color_name: String,
}

pub struct Status {
    pub self_: String,
    pub id: String,
    pub name: String,
    pub description: String,
    pub status_category: StatusCategory,
}

pub struct IssueType {
    pub id: String,
    pub description: String,
    pub name: String,
    pub subtask: bool,
    pub hierarchy_level: i32,
}

pub struct Component {
    pub self_: String,
    pub id: String,
    pub name: String,
}

pub struct EpicColor {
    pub key: String,
}

pub struct Epic {
    pub self_: String,
    pub id: i32,
    pub key: String,
    pub name: String,
    pub summary: String,
    pub color: EpicColor,
    pub done: bool,
}

pub struct TimeTracking {
    pub time_spent: Option<String>,
    pub time_spent_seconds: Option<i32>,
    pub remaining_estimate: Option<String>,
    pub remaining_estimate_seconds: Option<i32>,
}

/// A custom field of an issue, with its value when that is a non-negative number,
/// in hundredths.
pub struct NumericField {
    pub name: String,
    pub hundredths: Option<u32>,
}

pub struct IssueFields {
    pub creator: User,
    pub reporter: User,
    pub assignee: Option<User>,
    pub updated: String,
    pub created: String,
    pub resolution_date: Option<String>,
    pub resolution: Option<Resolution>,
    pub summary: String,
    pub status: Status,
    pub issue_type: IssueType,
    pub flagged: bool,
    pub epic: Option<Epic>,
    pub priority: Priority,
    pub components: Vec<Component>,
    pub labels: Vec<String>,
    pub time_spent: Option<i32>,
    pub time_tracking: Option<TimeTracking>,
    pub work_ratio: i32,
    pub additional_fields: Vec<NumericField>,
}

pub struct Issue {
    pub expand: String,
    pub id: String,
    pub self_: String,
    pub key: String,
    pub fields: IssueFields,
    /// The custom field that holds the estimate, when the board has one.
    pub estimation_field_name: Option<String>,
}

/// The value of the first field of that name.
pub open spec fn field_value(fields: Seq<NumericField>, name: Seq<char>) -> Option<u32>
    decreases fields.len(),
{
    if fields.len() == 0 {
        None
    } else if fields[0].name@ == name {
        fields[0].hundredths
    } else {
        field_value(fields.drop_first(), name)
    }
}

/// The text form of the resolution date.
pub open spec fn resolution_date_format() -> Seq<char> {
    "%+"@
}

pub open spec fn assigned_to(issue: Issue, email: Seq<char>) -> bool {
    issue.fields.assignee matches Some(u) && u.email_address@ == email
}

pub open spec fn reported_by(issue: Issue, email: Seq<char>) -> bool {
    issue.fields.reporter.email_address@ == email
}

pub open spec fn in_progress(issue: Issue) -> bool {
    issue.fields.status.status_category.key@ == "indeterminate"@
}

pub open spec fn resolution_day(issue: Issue) -> Option<i32> {
    match issue.fields.resolution_date {
        Some(s) => parsed_date(s@, resolution_date_format()),
        None => None,
    }
}

pub open spec fn estimate_of(issue: Issue) -> Option<u32> {
    match issue.estimation_field_name {
        Some(name) => field_value(issue.fields.additional_fields@, name@),
        None => None,
    }
}

impl Issue {
    pub fn is_assigned_to(&self, email: &str) -> (r: bool)
        ensures
            r == assigned_to(*self, email@),
    {
        match &self.fields.assignee {
            Some(assignee) => assignee.is(email),
            None => false,
        }
    }

    pub fn was_reported_by(&self, email: &str) -> (r: bool)
        ensures
            r == reported_by(*self, email@),
    {
        self.fields.reporter.is(email)
    }

    pub fn is_resolved(&self) -> (r: bool)
        ensures
            r == (self.fields.resolution is Some),
    {
        self.fields.resolution.is_some()
    }

    /// The day the issue was resolved, when its resolution date reads as one.
    pub fn resolution_date(&self) -> (r: Option<i32>)
        ensures
            r == resolution_day(*self),
    {
        match &self.fields.resolution_date {
            Some(s) => {
                proof { reveal_strlit("%+"); }
                parse_date(s.as_str(), "%+")
            },
            None => None,
        }
    }

    pub fn is_in_progress(&self) -> (r: bool)
        ensures
            r == in_progress(*self),
    {
        str_eq(self.fields.status.status_category.key.as_str(), "indeterminate")
    }

    /// The estimate, in hundredths of a point, read from the board's estimation field.
    pub fn estimation(&self) -> (r: Option<u32>)
        ensures
            r == estimate_of(*self),
    {
        match &self.estimation_field_name {
            Some(name) => {
                let fields = &self.fields.additional_fields;
                let mut i: usize = 0;
                assert(fields@.skip(0) =~= fields@);
                while i < fields.len()
                    invariant
                        0 <= i <= fields.len(),
                        estimate_of(*self) == field_value(fields@.skip(i as int), name@),
                        fields@ == self.fields.additional_fields@,
                    decreases fields.len() - i,
                {
                    assert(fields@.skip(i as int).drop_first() =~= fields@.skip(i + 1));
                    assert(fields@.skip(i as int)[0] == fields@[i as int]);
                    if str_eq(fields[i].name.as_str(), name.as_str()) {
                        assert(field_value(fields@.skip(i as int), name@) == fields@[i as int].hundredths);
                        return fields[i].hundredths;
                    }
                    i = i + 1;
                }
                None
            },
            None => None,
        }
    }
}

pub struct ListIssuesResponse {
    pub expand: String,
    pub start_at: i32,
    pub max_results: i32,
    pub total: i32,
    pub issues: Vec<Issue>,
}

pub struct Sprint {
    pub id: i32,
    pub self_: String,
    pub state: String,
    pub name: String,
    pub start_date: Option<String>,
    pub end_date: Option<String>,
    pub complete_date: Option<String>,
    pub origin_board_id: i32,
    pub goal: String,
}

pub struct ListSprintsResponse {
    pub max_results: i32,
    pub start_at: i32,
    pub is_last: bool,
    pub values: Vec<Sprint>,
}

pub open spec fn has_prefix(name: Seq<char>, prefix: Seq<char>) -> bool {
    prefix.len() <= name.len() && name.subrange(0, prefix.len() as int) == prefix
}

/// The first sprint whose name starts with `prefix`.
pub fn first_sprint_with_prefix(sprints: Vec<Sprint>, prefix: &str) -> (r: Option<Sprint>)
    ensures
        r is None <==> forall|k: int| 0 <= k < sprints@.len() ==> !has_prefix(#[trigger] sprints@[k].name@, prefix@),
        r matches Some(s) ==> exists|k: int|
            0 <= k < sprints@.len() && s == sprints@[k] && has_prefix(sprints@[k].name@, prefix@)
                && forall|j: int| 0 <= j < k ==> !has_prefix(#[trigger] sprints@[j].name@, prefix@),
{
    let ghost orig = sprints@;
    let n = sprints.len();
    let mut rest = sprints;
    let mut i: usize = 0;
    while rest.len() > 0
        invariant
            i + rest@.len() == orig.len(),
            orig == sprints@,
            orig.len() == n,
            rest@ == orig.skip(i as int),
            forall|j: int| 0 <= j < i ==> !has_prefix(#[trigger] orig[j].name@, prefix@),
        decreases rest.len(),
    {
        let s = rest.remove(0);
        assert(orig[i as int] == s);
        if starts_with(s.name.as_str(), prefix) {
            assert(has_prefix(orig[i as int].name@, prefix@));
            return Some(s);
        }
        assert(rest@ =~= orig.skip(i + 1));
        i = i + 1;
    }
    None
}

/// The issues assigned to or reported by the user of that email, in order.
pub open spec fn involving(issues: Seq<Issue>, email: Seq<char>) -> Seq<Issue>
    decreases issues.len(),
{
    if issues.len() == 0 {
        issues
    } else {
        let r = involving(issues.drop_last(), email);
        if assigned_to(issues.last(), email) || reported_by(issues.last(), email) {
            r.push(issues.last())
        } else {
            r
        }
    }
}

pub fn issues_for_user(issues: Vec<Issue>, email: &str) -> (r: Vec<Issue>)
    ensures
        r@ == involving(issues@, email@),
{
    let ghost orig = issues@;
    let n = issues.len();
    let mut rest = issues;
    let mut out: Vec<Issue> = Vec::new();
    let mut i: usize = 0;
    assert(orig.take(0) =~= Seq::<Issue>::empty());
    assert(orig.skip(0) =~= orig);
    while rest.len() > 0
        invariant
            i + rest@.len() == orig.len(),
            orig.len() == n,
            rest@ == orig.skip(i as int),
            out@ == involving(orig.take(i as int), email@),
        decreases rest.len(),
    {
        let issue = rest.remove(0);
        assert(orig.take(i + 1).drop_last() =~= orig.take(i as int));
        assert(orig.take(i + 1).last() == issue);
        assert(rest@ =~= orig.skip(i + 1));
        if issue.is_assigned_to(email) || issue.was_reported_by(email) {
            out.push(issue);
        }
        i = i + 1;
    }
    assert(orig.take(i as int) =~= orig);
    out
}

/// Records the board's estimation field on every issue.
pub fn with_estimation_field(issues: Vec<Issue>, field: &String) -> (r: Vec<Issue>)
    ensures
        r@.len() == issues@.len(),
        forall|k: int| 0 <= k < r@.len() ==> (#[trigger] r@[k]).estimation_field_name == Some(*field)
            && r@[k].key == issues@[k].key && r@[k].id == issues@[k].id && r@[k].fields == issues@[k].fields,
{
    let ghost orig = issues@;
    let n = issues.len();
    let mut rest = issues;
    let mut out: Vec<Issue> = Vec::new();
    let mut i: usize = 0;
    assert(orig.skip(0) =~= orig);
    while rest.len() > 0
        invariant
            i + rest@.len() == orig.len(),
            orig.len() == n,
            rest@ == orig.skip(i as int),
            out@.len() == i,
            forall|k: int| 0 <= k < i ==> (#[trigger] out@[k]).estimation_field_name == Some(*field)
                && out@[k].key == orig[k].key && out@[k].id == orig[k].id && out@[k].fields == orig[k].fields,
        decreases rest.len(),
    {
        let mut issue = rest.remove(0);
        assert(orig[i as int] == issue);
        assert(rest@ =~= orig.skip(i + 1));
        issue.estimation_field_name = Some(field.clone());
        out.push(issue);
        i = i + 1;
    }
    out
}

pub struct BoardLocation {
    pub self_: String,
    pub id: String,
    pub name: String,
    pub key: String,
    pub type_: String,
}

pub struct BoardEstimationField {
    pub field_id: String,
    pub display_name: String,
}

pub struct BoardEstimation {
    pub type_: String,
    pub field: Option<BoardEstimationField>,
}

pub struct ColumnStatus {
    pub self_: String,
    pub id: String,
}

pub struct Column {
    pub name: String,
    pub statuses: Vec<ColumnStatus>,
}

pub struct ColumnConfig {
    pub constraint_type: String,
    pub columns: Vec<Column>,
}

pub struct BoardConfiguration {
    pub self_: String,
    pub id: i32,
    pub name: String,
    pub type_: String,
    pub location: BoardLocation,
    pub estimation: Option<BoardEstimation>,
    pub column_config: ColumnConfig,
}

impl BoardConfiguration {
    /// The id of the field that holds estimates, when the board estimates by a field.
    pub fn estimation_field_name(&self) -> (r: Option<String>)
        ensures
            r is Some <==> (self.estimation matches Some(e) && e.type_@ == "field"@ && e.field is Some),
            r matches Some(s) ==> (self.estimation matches Some(e) && e.field matches Some(f)
                && s@ == f.field_id@),
    {
        match &self.estimation {
            Some(estimation) => {
                if !str_eq(estimation.type_.as_str(), "field") {
                    return None;
                }
                match &estimation.field {
                    Some(field) => Some(field.field_id.clone()),
                    None => None,
                }
            },
            None => None,
        }
    }
}

} // verus!
