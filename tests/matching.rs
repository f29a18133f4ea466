use fastjump::database::Database;
use fastjump::matching::{match_anywhere, match_consecutive, match_fuzzy, meets_threshold};
use fastjump::text::{MakeAsciiLowercaseCow, MakeAsciiUppercaseCow};

fn path_of(parts: &[&str]) -> String {
    parts.join("/")
}

fn store_of(paths: &[String], weight: f32) -> Database {
    let mut db = Database::empty();
    for p in paths {
        db.upsert(p.clone(), weight.to_bits());
    }
    db
}

fn needles_of(n: &[&str]) -> Vec<String> {
    n.iter().map(|s| s.to_string()).collect()
}

fn check(results: &[(String, u32)], test_set: &[(Vec<&str>, bool)]) {
    for v in test_set {
        let p = path_of(&v.0);
        assert_eq!(
            results.iter().any(|x| x.0 == p && x.1 == 10.0f32.to_bits()),
            v.1,
            "{}",
            p
        );
    }
}

#[test]
fn test_match_anywhere() {
    let needles = needles_of(&["foo", "bar"]);
    let test_set = [
        (vec!["", "foo", "bar", "baz"], true),
        (vec!["", "ffoof", "bbarb"], true),
        (vec!["", "ffoof", "baz", "bbarb"], true),
        (vec!["", "baz", "foo", "bar"], true),
        (vec!["", "foo", "baz"], false),
        (vec!["", "foo", "baz", "bar"], true),
        (vec!["", "foobarbaz"], true),
    ];
    let paths: Vec<String> = test_set.iter().map(|x| path_of(&x.0)).collect();
    let data = store_of(&paths, 10.0);
    let results = match_anywhere(&needles, &data, true);
    check(&results, &test_set);
}

#[test]
fn test_match_consecutive() {
    let needles = needles_of(&["foo", "bar"]);
    let test_set = [
        (vec!["", "foo", "bar", "baz"], false),
        (vec!["", "ffoof", "bbarb"], true),
        (vec!["", "ffoof", "baz", "bbarb"], false),
        (vec!["", "baz", "foo", "bar"], true),
        (vec!["", "foo", "baz"], false),
        (vec!["", "foo", "baz", "bar"], false),
        (vec!["", "foobarbaz"], false),
    ];
    let paths: Vec<String> = test_set.iter().map(|x| path_of(&x.0)).collect();
    let data = store_of(&paths, 10.0);
    let results = match_consecutive(&needles, &data, true);
    check(&results, &test_set);
}

#[test]
fn test_match_fuzzy() {
    let needles = needles_of(&["foo", "hme"]);
    let test_set = [
        (vec!["", "home"], true),
        (vec!["", "bar", "baz", "home"], true),
        (vec!["", "home", "bar", "baz"], false),
        (vec!["", "ffoof", "bbarb"], false),
    ];
    let paths: Vec<String> = test_set.iter().map(|x| path_of(&x.0)).collect();
    let data = store_of(&paths, 10.0);
    let results = match_fuzzy(&needles, &data, true, None);
    check(&results, &test_set);
}

#[test]
fn fuzzy_threshold_override() {
    let needles = needles_of(&["hme"]);
    let data = store_of(&["/home".to_string()], 10.0);
    assert_eq!(match_fuzzy(&needles, &data, true, Some(750)).len(), 1);
    assert_eq!(match_fuzzy(&needles, &data, true, Some(751)).len(), 0);
}

#[test]
fn case_sensitive_matching() {
    let data = store_of(&["/Foo/Bar".to_string()], 10.0);
    assert_eq!(match_anywhere(&needles_of(&["foo"]), &data, true).len(), 1);
    assert_eq!(match_anywhere(&needles_of(&["foo"]), &data, false).len(), 0);
    assert_eq!(match_anywhere(&needles_of(&["Foo"]), &data, false).len(), 1);
    assert_eq!(match_consecutive(&needles_of(&["Bar"]), &data, false).len(), 1);
    assert_eq!(match_consecutive(&needles_of(&["bar"]), &data, false).len(), 0);
}

#[test]
fn consecutive_needs_enough_components() {
    let data = store_of(&["a/b".to_string()], 10.0);
    assert_eq!(match_consecutive(&needles_of(&["a", "b"]), &data, true).len(), 1);
    assert_eq!(match_consecutive(&needles_of(&["x", "a", "b"]), &data, true).len(), 0);
}

#[test]
fn empty_store_matches_nothing() {
    let data = Database::empty();
    assert!(match_anywhere(&needles_of(&["a"]), &data, true).is_empty());
    assert!(match_consecutive(&needles_of(&["a"]), &data, true).is_empty());
    assert!(match_fuzzy(&needles_of(&["a"]), &data, true, None).is_empty());
}

#[test]
fn similarity_threshold_values() {
    // "hme" against "home": distance 1 over 4 characters, similarity 0.75
    assert!(meets_threshold(1, 3, 4, 600));
    assert!(meets_threshold(1, 3, 4, 750));
    assert!(!meets_threshold(1, 3, 4, 751));
    // distance 2 over 4: similarity 0.5
    assert!(!meets_threshold(2, 3, 4, 600));
    // two empty texts are identical
    assert!(meets_threshold(0, 0, 0, 600));
    assert!(meets_threshold(0, 0, 0, 1000));
    assert!(!meets_threshold(0, 0, 0, 1001));
    assert!(!meets_threshold(5, 3, 4, 0));
}

#[test]
fn ascii_case_folding() {
    let mut s = String::from("AbC/déF");
    s.make_ascii_lowercase_cow();
    assert_eq!(s, "abc/déf");
    let mut t = String::from("AbC/déF");
    t.make_ascii_uppercase_cow();
    assert_eq!(t, "ABC/DéF");
}
