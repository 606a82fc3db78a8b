use vstd::prelude::*;
use rand::rngs::StdRng;
use rand::Rng;

use crate::allocation::{allocate, allocate_spec, as_ints, score_total, sorted_desc};
use crate::jira::{
    assigned_to, estimate_of, in_progress, level_of, resolution_day, Issue, PriorityLevel,
};
use crate::work_event::{lemma_sort_sorted, sort_desc, sort_events, WorkEvent};

verus! {

#[verifier::external_type_specification]
#[verifier::external_body]
pub struct ExStdRng(StdRng);

/// Relies on rand's `Rng::gen_range`: the value drawn lies in the inclusive range,
/// and only an empty range panics.
#[verifier::external_body]
fn draw_between(rng: &mut StdRng, low: u64, high: u64) -> (r: u64)
    requires
        low <= high,
    ensures
        low <= r <= high,
{
    rng.gen_range(low..=high)
}

/// Lowest random factor applied to a score, in thousandths.
pub const JITTER_MIN: u64 = 700;

/// Highest random factor applied to a score, in thousandths.
pub const JITTER_MAX: u64 = 1300;

/// Estimate of an issue that has none, in hundredths of a point.
pub const DEFAULT_ESTIMATE: u64 = 100;

pub open spec fn priority_factor(level: PriorityLevel) -> int {
    match level {
        PriorityLevel::Highest => 15,
        PriorityLevel::High => 12,
        PriorityLevel::Medium => 10,
        PriorityLevel::Low => 8,
    }
}

/// The issue was resolved, on another day than `date`.
pub open spec fn resolved_elsewhen(issue: Issue, date: i32) -> bool {
    issue.fields.resolution is Some && resolution_day(issue) != Some(date)
}

/// The priority score of an issue for a user on a day, with random factor `jitter`.
///
/// Scores are whole numbers in a common unit: the estimate in hundredths of a
/// point (one point when there is none), doubled when the user is the assignee,
/// doubled when the issue is in progress, tripled unless it was resolved on
/// another day, times the priority factor in tenths (1.5, 1.2, 1.0, 0.8) and the
/// random factor in thousandths. Only ratios of scores matter to the allocation.
pub open spec fn time_score(issue: Issue, email: Seq<char>, date: i32, jitter: u64) -> int {
    let estimate: int = match estimate_of(issue) {
        Some(e) => e as int,
        None => DEFAULT_ESTIMATE as int,
    };
    estimate * (if assigned_to(issue, email) { 2int } else { 1int }) * (if in_progress(issue) { 2int } else { 1int })
        * (if resolved_elsewhen(issue, date) { 1int } else { 3int }) * priority_factor(
        level_of(issue.fields.priority.name@),
    ) * jitter as int
}

impl Issue {
    pub fn compute_time_score(&self, user_email: &str, date: i32, jitter: u64) -> (r: u64)
        requires
            jitter <= JITTER_MAX,
        ensures
            r == time_score(*self, user_email@, date, jitter),
    {
        let mut score: u64 = match self.estimation() {
            Some(e) => e as u64,
            None => DEFAULT_ESTIMATE,
        };
        if self.is_assigned_to(user_email) {
            score = score * 2;
        }
        if self.is_in_progress() {
            score = score * 2;
        }
        let resolved_elsewhen = self.is_resolved() && match self.resolution_date() {
            Some(d) => d != date,
            None => true,
        };
        if !resolved_elsewhen {
            score = score * 3;
        }
        let factor: u64 = match self.fields.priority.level() {
            PriorityLevel::Highest => 15,
            PriorityLevel::High => 12,
            PriorityLevel::Medium => 10,
            PriorityLevel::Low => 8,
        };
        assert(score <= 0xffff_ffff * 12);
        assert(score * factor <= 0xffff_ffff * 12 * 15) by (nonlinear_arith)
            requires
                score <= 0xffff_ffff * 12,
                factor <= 15,
        ;
        score = score * factor;
        assert(score * jitter <= 0xffff_ffff * 12 * 15 * 1300) by (nonlinear_arith)
            requires
                score <= 0xffff_ffff * 12 * 15,
                jitter <= 1300,
        ;
        score * jitter
    }
}

/// `score` is the score of the issue under some random factor of the allowed range.
pub open spec fn jittered_score(score: u64, issue: Issue, email: Seq<char>, date: i32) -> bool {
    exists|j: u64| JITTER_MIN <= j <= JITTER_MAX && score == time_score(issue, email, date, j)
}

/// Draws a random factor in `[JITTER_MIN, JITTER_MAX]` for each issue and scores it.
pub fn score_issues(issues: &Vec<Issue>, user_email: &str, date: i32, rng: &mut StdRng) -> (r: Vec<u64>)
    ensures
        r@.len() == issues@.len(),
        forall|k: int| 0 <= k < r@.len() ==> #[trigger] jittered_score(r@[k], issues@[k], user_email@, date),
{
    let mut out: Vec<u64> = Vec::new();
    let mut i: usize = 0;
    while i < issues.len()
        invariant
            0 <= i <= issues.len(),
            out@.len() == i,
            forall|k: int| 0 <= k < i ==> #[trigger] jittered_score(out@[k], issues@[k], user_email@, date),
        decreases issues.len() - i,
    {
        let jitter = draw_between(rng, JITTER_MIN, JITTER_MAX);
        let s = issues[i].compute_time_score(user_email, date, jitter);
        let ghost prev = out@;
        out.push(s);
        assert(out@[i as int] == time_score(issues@[i as int], user_email@, date, jitter));
        assert(jittered_score(out@[i as int], issues@[i as int], user_email@, date));
        assert forall|k: int| 0 <= k < i + 1 implies #[trigger] jittered_score(out@[k], issues@[k], user_email@, date) by {
            if k < i {
                assert(out@[k] == prev[k]);
            }
        }
        i = i + 1;
    }
    out
}

pub open spec fn scores_of<T>(events: Seq<WorkEvent<T>>) -> Seq<u64> {
    events.map_values(|e: WorkEvent<T>| e.score)
}

pub open spec fn durations_of<T>(events: Seq<WorkEvent<T>>) -> Seq<i64> {
    events.map_values(|e: WorkEvent<T>| e.duration)
}

/// Sorts the events by decreasing score (equal scores keep their order) and gives
/// each its duration out of `budget` seconds; `None` when the scores add up past
/// `u64::MAX`.
pub fn allocate_events<T>(events: Vec<WorkEvent<T>>, budget: i32, floor: i32, increment: i32) -> (r:
    Option<Vec<WorkEvent<T>>>)
    requires
        increment > 0,
    ensures
        r is None <==> score_total(scores_of(sort_desc(events@, true))) > u64::MAX,
        r matches Some(v) ==> {
            let sorted = sort_desc(events@, true);
            &&& v@.len() == sorted.len()
            &&& sorted_desc(scores_of(v@))
            &&& as_ints(durations_of(v@)) == allocate_spec(budget as int, floor as int, increment as int, scores_of(sorted))
            &&& forall|k: int| 0 <= k < v@.len() ==> {
                &&& (#[trigger] v@[k]).score == sorted[k].score
                &&& v@[k].key == sorted[k].key
                &&& v@[k].description == sorted[k].description
                &&& v@[k].time == sorted[k].time
                &&& v@[k].event == sorted[k].event
            }
        },
{
    let sorted = sort_events(events, true);
    let ghost sorted_seq = sorted@;
    let mut scores: Vec<u64> = Vec::new();
    let mut i: usize = 0;
    while i < sorted.len()
        invariant
            0 <= i <= sorted.len(),
            scores@ == scores_of(sorted@).take(i as int),
        decreases sorted.len() - i,
    {
        scores.push(sorted[i].score);
        i = i + 1;
        assert(scores@ =~= scores_of(sorted@).take(i as int));
    }
    assert(scores@ =~= scores_of(sorted@));
    let durations = match allocate(budget, floor, increment, &scores) {
        Some(d) => d,
        None => {
            return None;
        },
    };
    let ghost want = allocate_spec(budget as int, floor as int, increment as int, scores@);
    assert(durations@.len() == sorted_seq.len()) by {
        assert(as_ints(durations@).len() == durations@.len());
        if score_total(scores@) == 0 {
        } else {
            crate::allocation::lemma_allocation_floor(budget as int, floor as int, increment as int, score_total(scores@), 0, scores@);
        }
    }
    let n = sorted.len();
    let mut rest = sorted;
    let mut out: Vec<WorkEvent<T>> = Vec::new();
    let mut k: usize = 0;
    assert(sorted_seq.skip(0) =~= sorted_seq);
    while rest.len() > 0
        invariant
            k + rest@.len() == sorted_seq.len(),
            sorted_seq.len() == n,
            durations@.len() == n,
            as_ints(durations@) == want,
            rest@ == sorted_seq.skip(k as int),
            out@.len() == k,
            forall|m: int| 0 <= m < k ==> {
                &&& (#[trigger] out@[m]).duration == durations@[m]
                &&& out@[m].score == sorted_seq[m].score
                &&& out@[m].key == sorted_seq[m].key
                &&& out@[m].description == sorted_seq[m].description
                &&& out@[m].time == sorted_seq[m].time
                &&& out@[m].event == sorted_seq[m].event
            },
        decreases rest.len(),
    {
        let mut e = rest.remove(0);
        assert(sorted_seq[k as int] == e);
        assert(rest@ =~= sorted_seq.skip(k + 1));
        e.duration = durations[k];
        out.push(e);
        k = k + 1;
    }
    assert(as_ints(durations_of(out@)) =~= want);
    proof {
        lemma_sort_sorted(events@, true);
        assert(sorted_seq == sort_desc(events@, true));
        assert forall|a: int, b: int| 0 <= a < b < scores_of(out@).len() implies scores_of(out@)[a] >= scores_of(out@)[b] by {
            assert(crate::work_event::order_key(sorted_seq[a], true) >= crate::work_event::order_key(sorted_seq[b], true));
        }
    }
    Some(out)
}

/// `idx` places each event at a distinct issue of the input, and events of equal
/// score keep the order of their issues.
pub open spec fn issue_order(v: Seq<WorkEvent<Issue>>, issues: Seq<Issue>, idx: Seq<int>) -> bool {
    &&& idx.len() == v.len()
    &&& v.len() == issues.len()
    &&& forall|k: int| 0 <= k < idx.len() ==> 0 <= #[trigger] idx[k] < issues.len() && v[k].event == issues[idx[k]]
    &&& forall|k: int, l: int| 0 <= k < idx.len() && 0 <= l < idx.len() && k != l ==> #[trigger] idx[k] != #[trigger] idx[l]
    &&& forall|k: int, l: int| 0 <= k < l < idx.len() && v[k].score == v[l].score ==> #[trigger] idx[k] < #[trigger] idx[l]
}

/// Highest score of an issue: the largest estimate under every factor.
pub const MAX_SCORE: u64 = 0xffff_ffff * 2 * 2 * 3 * 15 * 1300;

/// Number of issues up to which the scores are sure to add up within `u64`.
pub const MAX_ISSUES: usize = 16384;

/// The work events of the issues of a sprint: each scored for the user on `date`
/// with a random factor drawn from `rng`, sorted by decreasing score, and given
/// its share of `budget` seconds. `None` only past `MAX_ISSUES` issues, when the
/// scores may add up past `u64::MAX`.
pub fn issue_events(
    issues: Vec<Issue>,
    user_email: &str,
    date: i32,
    rng: &mut StdRng,
    budget: i32,
    floor: i32,
    increment: i32,
) -> (r: Option<Vec<WorkEvent<Issue>>>)
    requires
        increment > 0,
    ensures
        issues@.len() <= MAX_ISSUES ==> r is Some,
        r matches Some(v) ==> exists|idx: Seq<int>| #[trigger] issue_order(v@, issues@, idx),
        r matches Some(v) ==> {
            &&& v@.len() == issues@.len()
            &&& sorted_desc(scores_of(v@))
            &&& as_ints(durations_of(v@)) == allocate_spec(budget as int, floor as int, increment as int, scores_of(v@))
            &&& forall|k: int| 0 <= k < v@.len() ==> {
                &&& jittered_score((#[trigger] v@[k]).score, v@[k].event, user_email@, date)
                &&& v@[k].key == v@[k].event.key
                &&& v@[k].description@.len() == 0
                &&& v@[k].time is None
            }
        },
{
    let scores = score_issues(&issues, user_email, date, rng);
    let ghost orig = issues@;
    let n = issues.len();
    let mut rest = issues;
    let mut pending: Vec<WorkEvent<Issue>> = Vec::new();
    let mut i: usize = 0;
    assert(orig.skip(0) =~= orig);
    while rest.len() > 0
        invariant
            i + rest@.len() == orig.len(),
            orig.len() == n,
            scores@.len() == n,
            rest@ == orig.skip(i as int),
            pending@.len() == i,
            forall|k: int| 0 <= k < n ==> #[trigger] jittered_score(scores@[k], orig[k], user_email@, date),
            forall|m: int| 0 <= m < i ==> {
                &&& (#[trigger] pending@[m]).score == scores@[m]
                &&& pending@[m].event == orig[m]
                &&& pending@[m].key == orig[m].key
                &&& pending@[m].description@.len() == 0
                &&& pending@[m].time is None
            },
        decreases rest.len(),
    {
        let issue = rest.remove(0);
        assert(orig[i as int] == issue);
        assert(rest@ =~= orig.skip(i + 1));
        let key = issue.key.clone();
        pending.push(WorkEvent::new(0, scores[i], key, String::new(), None, issue));
        i = i + 1;
    }
    let ghost pend = pending@;
    proof {
        crate::work_event::lemma_sort_len(pend, true);
        crate::work_event::lemma_sort_members(pend, true);
        assert forall|k: int| 0 <= k < pend.len() implies (#[trigger] pend[k]).score <= MAX_SCORE by {
            lemma_score_bound(scores@[k], orig[k], user_email@, date);
        }
        crate::work_event::lemma_sort_keeps_score_bound(pend, true, MAX_SCORE as int);
        let sorted_scores = scores_of(sort_desc(pend, true));
        if n <= MAX_ISSUES {
            crate::allocation::lemma_total_at_most(sorted_scores, MAX_SCORE as int);
            assert(sorted_scores.len() * (MAX_SCORE as int) <= u64::MAX) by (nonlinear_arith)
                requires
                    sorted_scores.len() <= MAX_ISSUES,
            ;
        }
    }
    let r = allocate_events(pending, budget, floor, increment);
    proof {
        if r is Some {
            let v = r->0;
            let sorted = sort_desc(pend, true);
            assert(scores_of(v@) =~= scores_of(sorted));
            let idx = crate::work_event::lemma_sort_stable(pend, true);
            assert forall|k: int| 0 <= k < v@.len() implies {
                &&& jittered_score((#[trigger] v@[k]).score, v@[k].event, user_email@, date)
                &&& v@[k].key == v@[k].event.key
                &&& v@[k].description@.len() == 0
                &&& v@[k].time is None
            } by {
                assert(sorted[k] == pend[idx[k]]);
                assert(v@[k].event == orig[idx[k]]);
            }
            assert forall|k: int| 0 <= k < idx.len() implies 0 <= #[trigger] idx[k] < orig.len() && v@[k].event == orig[idx[k]] by {
                assert(sorted[k] == pend[idx[k]]);
            }
            assert forall|k: int, l: int| 0 <= k < l < idx.len() && v@[k].score == v@[l].score
                implies #[trigger] idx[k] < #[trigger] idx[l] by {
                assert(crate::work_event::order_key(sorted[k], true) == crate::work_event::order_key(sorted[l], true));
            }
            assert(issue_order(v@, orig, idx));
        }
    }
    r
}

/// A score under an allowed random factor is at most `MAX_SCORE`.
proof fn lemma_score_bound(score: u64, issue: Issue, email: Seq<char>, date: i32)
    requires
        jittered_score(score, issue, email, date),
    ensures
        score <= MAX_SCORE,
{
    let j = choose|j: u64| JITTER_MIN <= j <= JITTER_MAX && score == time_score(issue, email, date, j);
    let e: int = match estimate_of(issue) {
        Some(x) => x as int,
        None => DEFAULT_ESTIMATE as int,
    };
    let a: int = if assigned_to(issue, email) { 2 } else { 1 };
    let p: int = if in_progress(issue) { 2 } else { 1 };
    let t: int = if resolved_elsewhen(issue, date) { 1 } else { 3 };
    let f = priority_factor(level_of(issue.fields.priority.name@));
    assert(e * a * p * t * f * (j as int) <= 0xffff_ffff * 2 * 2 * 3 * 15 * 1300) by (nonlinear_arith)
        requires
            0 <= e <= 0xffff_ffff,
            1 <= a <= 2,
            1 <= p <= 2,
            1 <= t <= 3,
            8 <= f <= 15,
            0 <= j <= 1300,
    ;
}

/// The same issue, user, day and random factor give the same score.
pub proof fn lemma_score_deterministic(issue: Issue, other: Issue, email: Seq<char>, date: i32, jitter: u64)
    requires
        issue == other,
    ensures
        time_score(issue, email, date, jitter) == time_score(other, email, date, jitter),
{
}

} // verus!
