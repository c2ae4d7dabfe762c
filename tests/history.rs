use cdh::history::{
    accept_raw, parse_raw_line, raw_candidates, uniq_candidates, uniq_ranks, Debouncer,
    IgnorePattern, PathFilter, RawEvent,
};

fn lines(v: &[&str]) -> Vec<String> {
    v.iter().map(|s| s.to_string()).collect()
}

fn ev(ts: i64, path: &str) -> RawEvent {
    RawEvent { ts, path: path.to_string() }
}

fn no_filter() -> PathFilter {
    PathFilter::new(None, &vec![])
}

#[test]
fn raw_line_parses_timestamp_and_trimmed_path() {
    let e = parse_raw_line("1700000000\t  /home/user/a \r").unwrap();
    assert_eq!(e.ts, 1700000000);
    assert_eq!(e.path, "/home/user/a");
    let e = parse_raw_line("-5\t/x\ty").unwrap();
    assert_eq!(e.ts, -5);
    assert_eq!(e.path, "/x\ty");
    assert!(parse_raw_line("17x\t/a").is_none());
    assert!(parse_raw_line(" 17\t/a").is_none());
    assert!(parse_raw_line("no tab here").is_none());
    assert!(parse_raw_line("99999999999999999999\t/a").is_none());
}

#[test]
fn token_filter_is_case_insensitive_or() {
    let f = PathFilter::new(None, &lines(&["ALPHA", "Gamma"]));
    assert!(f.admits_path("/tmp/keep_alpha"));
    assert!(f.admits_path("/srv/GAMMA_ray"));
    assert!(!f.admits_path("/tmp/skip_beta"));
    assert!(no_filter().admits_path("/anything"));
}

#[test]
fn ignore_pattern_and_tokens_combine() {
    let ig = IgnorePattern::new("skip_");
    assert!(ig.is_some());
    let f = PathFilter::new(ig, &lines(&["ALPHA"]));
    let raw = lines(&["1\t/tmp/keep_alpha", "2\t/tmp/skip_beta", "3\t/tmp/skip_alpha"]);
    let got = raw_candidates(&raw, &f);
    assert_eq!(got.len(), 1);
    assert_eq!(got[0].path, "/tmp/keep_alpha");
    let uniq = lines(&["/tmp/keep_alpha", "/tmp/skip_beta"]);
    assert_eq!(uniq_candidates(&uniq, &f), lines(&["/tmp/keep_alpha"]));
}

#[test]
fn invalid_ignore_pattern_is_rejected() {
    assert!(IgnorePattern::new("(unclosed").is_none());
    assert!(IgnorePattern::new("^/tmp/").unwrap().is_match("/tmp/x"));
    assert!(!IgnorePattern::new("^/tmp/").unwrap().is_match("/home/tmp/x"));
}

#[test]
fn consecutive_duplicates_count_once() {
    let cands = vec![ev(10, "/a"), ev(10, "/a"), ev(10, "/a"), ev(11, "/a"), ev(10, "/a")];
    let kept = accept_raw(&cands, &vec![true; 5]);
    let got: Vec<(i64, String)> = kept.into_iter().map(|e| (e.ts, e.path)).collect();
    assert_eq!(got, vec![(10, "/a".to_string()), (11, "/a".to_string()), (10, "/a".to_string())]);
}

#[test]
fn debounce_compares_with_last_accepted_record() {
    // the middle record is dropped by the presence check, so the third one
    // repeats the last accepted record
    let cands = vec![ev(5, "/a"), ev(6, "/gone"), ev(5, "/a")];
    let kept = accept_raw(&cands, &vec![true, false, true]);
    assert_eq!(kept.len(), 1);
    let mut d = Debouncer::new();
    assert!(d.accept(&ev(1, "/x")));
    assert!(!d.accept(&ev(1, "/x")));
    assert!(d.accept(&ev(1, "/y")));
    assert!(d.accept(&ev(1, "/x")));
}

#[test]
fn uniq_list_is_read_newest_first() {
    let uniq = lines(&["/a", "  ", "/b ", "/c", "/b"]);
    let cands = uniq_candidates(&uniq, &no_filter());
    assert_eq!(cands, lines(&["/b", "/c", "/b", "/a"]));
    let ranks = uniq_ranks(&cands, &vec![true; 4]);
    assert_eq!(
        ranks,
        vec![("/b".to_string(), 0), ("/c".to_string(), 1), ("/a".to_string(), 3)]
    );
}

#[test]
fn uniq_rank_counts_only_present_paths() {
    let cands = lines(&["/gone", "/b", "/a"]);
    let ranks = uniq_ranks(&cands, &vec![false, true, true]);
    assert_eq!(ranks, vec![("/b".to_string(), 0), ("/a".to_string(), 1)]);
}
