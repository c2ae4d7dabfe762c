use cdh::clock::{now_secs, secs_since_epoch};
use cdh::frecency::{Advance, VisitAnchor};
use cdh::rank::{rank, text_less, Ranked};

fn r(path: &str, primary: u64, secondary: u64) -> Ranked {
    Ranked { path: path.to_string(), primary, secondary }
}

fn paths(v: &[Ranked]) -> Vec<&str> {
    v.iter().map(|e| e.path.as_str()).collect()
}

#[test]
fn out_of_order_visit_keeps_anchor() {
    let mut a = VisitAnchor::new();
    assert_eq!(a.elapsed_at(1000), None);
    assert_eq!(a.observe(1000), Advance::Start);
    assert_eq!(a.observe(500), Advance::Simultaneous);
    assert_eq!(a.last_ts(), Some(1000));
    assert_eq!(a.elapsed_at(1000), Some(0));
    assert_eq!(a.observe(1600), Advance::Decay(600));
    assert_eq!(a.elapsed_at(1500), Some(0));
    assert_eq!(a.elapsed_at(2000), Some(400));
}

#[test]
fn anchor_handles_extreme_timestamps() {
    let mut a = VisitAnchor::new();
    a.observe(i64::MIN);
    assert_eq!(a.observe(i64::MAX), Advance::Decay(u64::MAX));
}

#[test]
fn ties_break_by_ascending_path() {
    let out = rank(vec![r("C", 5, 0), r("B", 9, 0), r("A", 9, 0)], 2);
    assert_eq!(paths(&out), vec!["A", "B"]);
}

#[test]
fn secondary_key_breaks_primary_ties() {
    let out = rank(vec![r("/a", 7, 1), r("/b", 7, 3), r("/c", 8, 0)], 10);
    assert_eq!(paths(&out), vec!["/c", "/b", "/a"]);
    assert!(rank(vec![], 3).is_empty());
    assert!(rank(vec![r("/a", 1, 1)], 0).is_empty());
}

#[test]
fn path_order_is_by_character_code() {
    assert!(text_less("/a", "/b"));
    assert!(text_less("/a", "/ab"));
    assert!(!text_less("/ab", "/a"));
    assert!(!text_less("/a", "/a"));
    assert!(text_less("Z", "a"));
    assert!(text_less("z", "\u{e9}"));
}

#[test]
fn clock_is_after_the_epoch() {
    assert!(now_secs() > 1_600_000_000);
}

#[test]
fn limit_keeps_highest_keys() {
    let out = rank(vec![r("A", 10, 0), r("B", 15, 0), r("C", 21, 0), r("D", 10, 0)], 2);
    assert_eq!(paths(&out), vec!["C", "B"]);
}

#[test]
fn in_order_visits_decay_by_their_gaps() {
    let mut a = VisitAnchor::new();
    let t0 = 1_000_000;
    let steps: Vec<Advance> = [t0, t0 + 100, t0 + 5_000, t0 + 60_000]
        .iter()
        .map(|&t| a.observe(t))
        .collect();
    assert_eq!(
        steps,
        vec![Advance::Start, Advance::Decay(100), Advance::Decay(4_900), Advance::Decay(55_000)]
    );
    assert_eq!(a.last_ts(), Some(t0 + 60_000));
    assert_eq!(a.elapsed_at(t0 + 70_000), Some(10_000));
}

#[test]
fn epoch_seconds_conversion() {
    assert_eq!(secs_since_epoch(None), 0);
    assert_eq!(secs_since_epoch(Some(1_700_000_000)), 1_700_000_000);
    assert_eq!(secs_since_epoch(Some(u64::MAX)), i64::MAX);
    assert_eq!(secs_since_epoch(Some(i64::MAX as u64)), i64::MAX);
}
