use tempo_bot::allocation::allocate;
use tempo_bot::scoring::allocate_events;
use tempo_bot::work_event::{to_sorted_events, total_duration, WorkEvent};

fn event(key: &str, score: u64, duration: i64) -> WorkEvent<()> {
    WorkEvent::new(duration, score, key.to_string(), String::new(), None, ())
}

#[test]
fn proportional_shares_use_the_whole_budget() {
    let events = vec![event("k1", 3, 0), event("k2", 1, 0)];
    let r = allocate_events(events, 7200, 900, 1800).unwrap();
    let keys: Vec<&str> = r.iter().map(|e| e.key.as_str()).collect();
    let durations: Vec<i64> = r.iter().map(|e| e.duration).collect();
    assert_eq!(keys, vec!["k1", "k2"]);
    assert_eq!(durations, vec![5400, 1800]);
    assert_eq!(total_duration(&r), 7200);
}

#[test]
fn small_scores_follow_proportional_rounding() {
    // Scores 0.01 and 0.0001, in units of 0.0001.
    let r = allocate(3600, 0, 1800, &vec![100, 1]).unwrap();
    assert_eq!(r, vec![3600, 0]);
}

#[test]
fn zero_rounded_items_are_promoted_while_budget_remains() {
    let r = allocate(3600, 0, 1800, &vec![1, 1, 1, 1, 1]).unwrap();
    assert_eq!(r, vec![1800, 1800, 0, 0, 0]);
}

#[test]
fn items_below_the_floor_get_nothing() {
    let r = allocate(7200, 2000, 1800, &vec![3, 1]).unwrap();
    assert_eq!(r, vec![5400, 0]);
}

#[test]
fn exact_half_rounds_up() {
    let r = allocate(2700, 0, 1800, &vec![1, 2]).unwrap();
    assert_eq!(r, vec![1800, 1800]);
}

#[test]
fn equal_halves_can_exceed_budget() {
    let r = allocate(3600, 0, 1800, &vec![1, 1, 1, 1]).unwrap();
    assert_eq!(r, vec![1800, 1800, 1800, 1800]);
}

#[test]
fn all_zero_scores_allocate_nothing() {
    let r = allocate(3600, 0, 1800, &vec![0, 0, 0]).unwrap();
    assert_eq!(r, vec![0, 0, 0]);
}

#[test]
fn empty_item_set() {
    assert_eq!(allocate(3600, 0, 1800, &vec![]).unwrap(), Vec::<i64>::new());
}

#[test]
fn overflowing_score_total_is_refused() {
    assert!(allocate(3600, 0, 1800, &vec![u64::MAX, 1]).is_none());
}

#[test]
fn negative_budget_gives_nothing_above_zero_floor() {
    assert_eq!(allocate(-3600, 0, 1800, &vec![1, 1]).unwrap(), vec![0, 0]);
}

#[test]
fn largest_budget_does_not_overflow() {
    let r = allocate(i32::MAX, 0, i32::MAX, &vec![1]).unwrap();
    assert_eq!(r, vec![i32::MAX as i64]);
}

#[test]
fn durations_are_multiples_and_sum_is_bounded() {
    let budget = 28_800;
    let increment = 900;
    let r = allocate(budget, 600, increment, &vec![9000, 5000, 3000, 700, 300, 20]).unwrap();
    for d in &r {
        assert_eq!(d % increment as i64, 0);
        assert!(*d >= 0);
    }
    let sum: i64 = r.iter().sum();
    assert!(sum <= budget as i64 + increment as i64);
    assert_eq!(r, vec![14400, 8100, 4500, 900, 0, 0]);
}

#[test]
fn floor_law_on_concrete_items() {
    // Shares: 6000, 1000, 800; the floor is 900.
    let r = allocate(7800, 900, 600, &vec![60, 10, 8]).unwrap();
    assert_eq!(r, vec![6000, 1200, 0]);
}

#[test]
fn allocation_is_deterministic() {
    let a = allocate(7200, 300, 600, &vec![5, 4, 4, 1]).unwrap();
    let b = allocate(7200, 300, 600, &vec![5, 4, 4, 1]).unwrap();
    assert_eq!(a, b);
}

#[test]
fn events_are_sorted_by_score_with_stable_ties() {
    let events = vec![event("low", 1, 0), event("tie1", 2, 0), event("high", 5, 0), event("tie2", 2, 0)];
    let r = allocate_events(events, 3600, 0, 600).unwrap();
    let keys: Vec<&str> = r.iter().map(|e| e.key.as_str()).collect();
    assert_eq!(keys, vec!["high", "tie1", "tie2", "low"]);
    let durations: Vec<i64> = r.iter().map(|e| e.duration).collect();
    assert_eq!(durations, vec![1800, 600, 600, 600]);
}

#[test]
fn events_sorted_by_duration_keep_ties_in_order() {
    let events = vec![event("a", 0, 600), event("b", 0, 1800), event("c", 0, 600), event("d", 0, 3600)];
    let r = to_sorted_events(events);
    let keys: Vec<&str> = r.iter().map(|e| e.key.as_str()).collect();
    assert_eq!(keys, vec!["d", "b", "a", "c"]);
}

#[test]
fn only_timed_keyed_events_are_logged() {
    assert!(event("K-1", 0, 60).should_log());
    assert!(!event("", 0, 60).should_log());
    assert!(!event("K-1", 0, 0).should_log());
}
