use fastjump::database::Database;
use fastjump::handlers::stats_listing;
use fastjump::rank::{
    dedup_paths, detect_smartcase, find_matches, keep_found, rank_matches, sort_candidates,
};

fn needles_of(n: &[&str]) -> Vec<String> {
    n.iter().map(|s| s.to_string()).collect()
}

fn store_of(entries: &[(&str, f32)]) -> Database {
    let mut db = Database::empty();
    for (p, w) in entries {
        db.upsert(p.to_string(), w.to_bits());
    }
    db
}

fn paths(r: &[(String, u32)]) -> Vec<&str> {
    r.iter().map(|e| e.0.as_str()).collect()
}

const CWD: &str = "/nowhere/cwd";

#[test]
fn equal_weights_greater_path_first() {
    let db = store_of(&[("/x/abc", 10.0), ("/x/abd", 10.0)]);
    let r = find_matches(&db, &needles_of(&["ab"]), &CWD.to_string(), None, false);
    assert_eq!(paths(&r)[0..2], ["/x/abd", "/x/abc"]);
}

#[test]
fn heavier_first_within_a_strategy() {
    let db = store_of(&[("/x/foo1", 1.0), ("/x/foo2", 20.0), ("/x/foo3", 5.0)]);
    let r = rank_matches(&db, &needles_of(&["foo"]), &CWD.to_string(), None);
    assert_eq!(paths(&r)[0..3], ["/x/foo2", "/x/foo3", "/x/foo1"]);
}

#[test]
fn strategy_priority_dominates_weight() {
    // "/a/bar" matches consecutively (and fuzzily, and anywhere); "/bar/zzzzzz"
    // only anywhere, so it follows despite its weight.
    let db = store_of(&[("/a/bar", 1.0), ("/bar/zzzzzz", 100.0)]);
    let r = find_matches(&db, &needles_of(&["bar"]), &CWD.to_string(), None, false);
    assert_eq!(paths(&r), ["/a/bar", "/bar/zzzzzz"]);
}

#[test]
fn empty_store_gives_current_dir() {
    let db = Database::empty();
    let r = find_matches(&db, &needles_of(&["foo"]), &CWD.to_string(), None, true);
    assert_eq!(r, vec![(".".to_string(), 0u32)]);
    assert_eq!(f32::from_bits(r[0].1), 0.0);
}

#[test]
fn no_match_gives_current_dir() {
    let db = store_of(&[("/x/abc", 10.0)]);
    let r = find_matches(&db, &needles_of(&["qqqqqq"]), &CWD.to_string(), None, false);
    assert_eq!(r, vec![(".".to_string(), 0u32)]);
}

#[test]
fn blank_query_gives_current_dir() {
    let db = store_of(&[("/x/abc", 10.0)]);
    let r = find_matches(&db, &Vec::new(), &CWD.to_string(), None, false);
    assert_eq!(r, vec![(".".to_string(), 0u32)]);
    let r = find_matches(&db, &needles_of(&["", "abc"]), &CWD.to_string(), None, false);
    assert_eq!(r, vec![(".".to_string(), 0u32)]);
}

#[test]
fn current_dir_is_excluded() {
    let db = store_of(&[("/home/u/foo", 10.0)]);
    let cwd = "/home/u/foo".to_string();
    let r = find_matches(&db, &needles_of(&["foo"]), &cwd, None, false);
    assert_eq!(r, vec![(".".to_string(), 0u32)]);
}

#[test]
fn missing_paths_dropped_when_checked() {
    let db = store_of(&[("/surely/not/here/tmp", 50.0), ("/tmp", 1.0)]);
    let r = find_matches(&db, &needles_of(&["tmp"]), &CWD.to_string(), None, true);
    assert!(paths(&r).iter().all(|p| *p == "/tmp"));
    assert!(!r.is_empty());
    let r = find_matches(&db, &needles_of(&["tmp"]), &CWD.to_string(), None, false);
    assert_eq!(paths(&r)[0], "/surely/not/here/tmp");
}

#[test]
fn smart_case_detection() {
    assert!(!detect_smartcase(&needles_of(&["foo", "bar"])));
    assert!(detect_smartcase(&needles_of(&["foo", "Bar"])));
    assert!(!detect_smartcase(&Vec::new()));
}

#[test]
fn uppercase_needle_is_case_sensitive() {
    let db = store_of(&[("/x/Foo", 1.0), ("/x/foo", 2.0)]);
    // consecutive sees only "/x/Foo"; fuzzy finds "foo" similar enough (2/3)
    let r = rank_matches(&db, &needles_of(&["Foo"]), &CWD.to_string(), None);
    assert_eq!(paths(&r), ["/x/Foo", "/x/foo"]);
    let r = rank_matches(&db, &needles_of(&["foo"]), &CWD.to_string(), None);
    assert_eq!(paths(&r)[0..2], ["/x/foo", "/x/Foo"]);
}

#[test]
fn sort_removes_duplicates_and_orders() {
    let v = vec![
        ("/b".to_string(), 2.0f32.to_bits()),
        ("/a".to_string(), 2.0f32.to_bits()),
        ("/c".to_string(), 9.0f32.to_bits()),
        ("/b".to_string(), 2.0f32.to_bits()),
    ];
    let r = sort_candidates(&v);
    assert_eq!(paths(&r), ["/c", "/b", "/a"]);
}

#[test]
fn stats_sorted_by_weight() {
    let db = store_of(&[("/a", 1.5), ("/b", 30.0), ("/c", 2.0)]);
    let r = stats_listing(&db);
    assert_eq!(paths(&r), ["/b", "/c", "/a"]);
}

#[test]
fn path_matched_by_several_strategies_listed_once() {
    let db = store_of(&[("foo", 0.0)]);
    let r = find_matches(&db, &needles_of(&["foo"]), &CWD.to_string(), None, false);
    assert_eq!(r, vec![("foo".to_string(), 0u32)]);
}

#[test]
fn dedup_keeps_first_occurrence() {
    let v = vec![
        ("/a".to_string(), 5),
        ("/b".to_string(), 9),
        ("/a".to_string(), 5),
        ("/c".to_string(), 1),
        ("/b".to_string(), 9),
    ];
    assert_eq!(paths(&dedup_paths(&v)), ["/a", "/b", "/c"]);
}

#[test]
fn existence_flags_filter_the_ranking() {
    let ranked = vec![("/a".to_string(), 5), ("/b".to_string(), 3), ("/c".to_string(), 1)];
    assert_eq!(paths(&keep_found(&ranked, &vec![false, true, true])), ["/b", "/c"]);
    assert_eq!(keep_found(&ranked, &vec![false, false, false]), vec![(".".to_string(), 0u32)]);
    assert_eq!(keep_found(&Vec::new(), &Vec::new()), vec![(".".to_string(), 0u32)]);
}
