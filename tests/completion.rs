use fastjump::database::Database;
use fastjump::handlers::{
    find_results, handle_jump, handle_tab_completion, parse_index, split_tab, QueryError,
};

fn needles_of(n: &[&str]) -> Vec<String> {
    n.iter().map(|s| s.to_string()).collect()
}

fn store_of(entries: &[(&str, f32)]) -> Database {
    let mut db = Database::empty();
    for (p, w) in entries {
        db.upsert(p.to_string(), w.to_bits());
    }
    db
}

fn chars(s: &str) -> Vec<char> {
    s.chars().collect()
}

const CWD: &str = "/nowhere/cwd";

#[test]
fn full_entry_is_echoed() {
    let db = Database::empty();
    let r = find_results(&needles_of(&["foo__2__/x/foo"]), &db, &CWD.to_string(), None, true);
    assert_eq!(r, Ok(vec!["/x/foo".to_string()]));
}

#[test]
fn index_picks_entry() {
    let db = store_of(&[("/x/foo", 10.0), ("/y/foo", 5.0)]);
    // the index counts from zero over the whole ranking
    let r = find_results(&needles_of(&["foo__1"]), &db, &CWD.to_string(), None, false);
    assert_eq!(r, Ok(vec!["/y/foo".to_string()]));
    let r = find_results(&needles_of(&["foo__0"]), &db, &CWD.to_string(), None, false);
    assert_eq!(r, Ok(vec!["/x/foo".to_string()]));
    let r = find_results(&needles_of(&["foo__zz"]), &db, &CWD.to_string(), None, false);
    assert_eq!(r, Ok(vec!["/x/foo".to_string()]));
}

#[test]
fn index_past_end() {
    let db = store_of(&[("/x/foo", 10.0)]);
    let r = find_results(&needles_of(&["foo__40"]), &db, &CWD.to_string(), None, false);
    assert_eq!(r, Err(QueryError::IndexOutOfRange));
}

#[test]
fn no_needles_is_an_error() {
    let db = Database::empty();
    let r = find_results(&Vec::new(), &db, &CWD.to_string(), None, true);
    assert_eq!(r, Err(QueryError::NoNeedles));
}

#[test]
fn completion_menu() {
    let db = store_of(&[("/x/foo", 10.0), ("/y/foo", 5.0)]);
    let r = find_results(&needles_of(&["foo"]), &db, &CWD.to_string(), None, true).unwrap();
    assert_eq!(r[0], "foo__1__/x/foo");
    assert_eq!(r[1], "foo__2__/y/foo");
    assert!(r.len() <= 9);
}

#[test]
fn completion_menu_holds_nine() {
    let mut entries: Vec<(String, f32)> = Vec::new();
    for i in 0..12 {
        entries.push((format!("/d{}/foo", i), i as f32));
    }
    let mut db = Database::empty();
    for (p, w) in &entries {
        db.upsert(p.clone(), w.to_bits());
    }
    let r = find_results(&needles_of(&["foo"]), &db, &CWD.to_string(), None, true).unwrap();
    assert_eq!(r.len(), 9);
    assert_eq!(r[0], "foo__1__/d11/foo");
    assert_eq!(r[8], "foo__9__/d3/foo");
}

#[test]
fn jump_gives_best_existing() {
    let db = store_of(&[("/tmp", 3.0), ("/surely/not/here/tmp", 99.0)]);
    let r = find_results(&needles_of(&["tmp"]), &db, &CWD.to_string(), None, false);
    assert_eq!(r, Ok(vec!["/tmp".to_string()]));
}

#[test]
fn jump_without_match_gives_dot() {
    let db = Database::empty();
    let r = find_results(&needles_of(&["tmp"]), &db, &CWD.to_string(), None, false);
    assert_eq!(r, Ok(vec![".".to_string()]));
}

#[test]
fn needles_are_normalized() {
    let db = store_of(&[("/x/foo", 10.0)]);
    let r = find_results(&needles_of(&["foo/"]), &db, &CWD.to_string(), None, true).unwrap();
    assert_eq!(r[0], "foo__1__/x/foo");
}

#[test]
fn split_on_delimiter() {
    let p = split_tab(&chars("a__1__/p"));
    assert_eq!(p, vec![chars("a"), chars("1"), chars("/p")]);
    let p = split_tab(&chars("a___b"));
    assert_eq!(p, vec![chars("a"), chars("_b")]);
    let p = split_tab(&chars(""));
    assert_eq!(p, vec![chars("")]);
}

#[test]
fn index_parsing() {
    assert_eq!(parse_index(&chars("5")), Some(5));
    assert_eq!(parse_index(&chars("+12")), Some(12));
    assert_eq!(parse_index(&chars("")), None);
    assert_eq!(parse_index(&chars("+")), None);
    assert_eq!(parse_index(&chars("1a")), None);
    assert_eq!(parse_index(&chars("-1")), None);
    assert_eq!(parse_index(&chars("99999999999999999999999")), None);
    assert_eq!(parse_index(&chars("18446744073709551615")), Some(usize::MAX));
}

#[test]
fn handler_entry_points() {
    let db = store_of(&[("/x/foo", 10.0)]);
    let r = handle_tab_completion(&needles_of(&["foo"]), &db, &CWD.to_string(), None).unwrap();
    assert_eq!(r[0], "foo__1__/x/foo");
    let r = handle_jump(&needles_of(&["foo__9__/y"]), &db, &CWD.to_string(), None);
    assert_eq!(r, Ok(vec!["/y".to_string()]));
}
