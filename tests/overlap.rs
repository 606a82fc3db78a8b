use tempo_bot::meeting::Meeting;
use tempo_bot::overlap::remove_overlaps;

// 2021-05-05T00:00:00
const DAY: i64 = 1_620_172_800;

fn meeting(title: &str, start_minutes: i64, end_minutes: i64) -> Meeting {
    let start = DAY + start_minutes * 60;
    let end = DAY + end_minutes * 60;
    Meeting {
        title: title.to_string(),
        description: String::new(),
        tempo_code: None,
        start_time: start,
        end_time: end,
        duration: end - start,
    }
}

fn titles(ms: &[Meeting]) -> Vec<String> {
    ms.iter().map(|m| m.title.clone()).collect()
}

fn overlap(a: &Meeting, b: &Meeting) -> bool {
    a.start_time < b.end_time && b.start_time < a.end_time
}

#[test]
fn equal_partial_overlap_keeps_first() {
    let a = meeting("A", 9 * 60, 10 * 60);
    let b = meeting("B", 9 * 60 + 30, 10 * 60 + 30);
    let r = remove_overlaps(vec![a, b]);
    assert_eq!(titles(&r), vec!["A"]);
}

#[test]
fn longer_partial_overlap_wins() {
    let a = meeting("A", 9 * 60, 10 * 60);
    let b = meeting("B", 9 * 60 + 30, 11 * 60);
    let r = remove_overlaps(vec![a, b]);
    assert_eq!(titles(&r), vec!["B"]);
}

#[test]
fn containing_meeting_is_kept_either_order() {
    let r = remove_overlaps(vec![meeting("outer", 9 * 60, 12 * 60), meeting("inner", 10 * 60, 11 * 60)]);
    assert_eq!(titles(&r), vec!["outer"]);
    let r = remove_overlaps(vec![meeting("inner", 10 * 60, 11 * 60), meeting("outer", 9 * 60, 12 * 60)]);
    assert_eq!(titles(&r), vec!["outer"]);
}

#[test]
fn identical_meetings_keep_one() {
    let r = remove_overlaps(vec![meeting("x", 60, 120), meeting("y", 60, 120)]);
    assert_eq!(titles(&r), vec!["x"]);
}

#[test]
fn separate_meetings_are_kept_in_order() {
    let ms = vec![meeting("c", 14 * 60, 15 * 60), meeting("a", 9 * 60, 10 * 60), meeting("b", 10 * 60, 11 * 60)];
    let r = remove_overlaps(ms);
    assert_eq!(titles(&r), vec!["c", "a", "b"]);
    let again = remove_overlaps(r);
    assert_eq!(titles(&again), vec!["c", "a", "b"]);
}

#[test]
fn empty_set_stays_empty() {
    assert!(remove_overlaps(Vec::new()).is_empty());
}

#[test]
fn resolved_meetings_do_not_overlap_and_resolving_again_changes_nothing() {
    let ms = vec![
        meeting("m1", 8 * 60, 9 * 60 + 15),
        meeting("m2", 9 * 60, 10 * 60),
        meeting("m3", 9 * 60 + 45, 12 * 60),
        meeting("m4", 10 * 60, 10 * 60 + 30),
        meeting("m5", 11 * 60 + 50, 13 * 60),
        meeting("m6", 13 * 60, 14 * 60),
        meeting("m7", 7 * 60, 15 * 60),
        meeting("m8", 15 * 60, 15 * 60 + 10),
    ];
    let r = remove_overlaps(ms);
    for i in 0..r.len() {
        for j in 0..r.len() {
            if i != j {
                assert!(!overlap(&r[i], &r[j]));
            }
        }
    }
    let first = titles(&r);
    assert_eq!(first, vec!["m7", "m8"]);
    let again = remove_overlaps(r);
    assert_eq!(titles(&again), first);
}
