use fastjump::database::{backup_due, load_step, Database, LoadStep, StoreError, BACKUP_THRESHOLD};
use std::collections::HashMap;

fn weight_bits(w: f32) -> u32 {
    w.to_bits()
}

#[test]
fn get_defaults_to_zero() {
    let mut db = Database::empty();
    assert_eq!(db.get(&"/a".to_string()), 0);
    db.upsert("/a".to_string(), weight_bits(10.0));
    assert_eq!(f32::from_bits(db.get(&"/a".to_string())), 10.0);
    assert_eq!(db.get(&"/b".to_string()), 0);
}

#[test]
fn upsert_replaces_weight() {
    let mut db = Database::empty();
    db.upsert("/a".to_string(), weight_bits(10.0));
    db.upsert("/b".to_string(), weight_bits(3.0));
    db.upsert("/a".to_string(), weight_bits(14.142136));
    assert_eq!(db.len(), 2);
    assert_eq!(f32::from_bits(db.get(&"/a".to_string())), 14.142136);
    assert_eq!(f32::from_bits(db.get(&"/b".to_string())), 3.0);
}

#[test]
fn zero_weight_is_kept() {
    let mut db = Database::empty();
    db.upsert("/a".to_string(), weight_bits(0.0));
    assert_eq!(db.len(), 1);
    assert_eq!(db.path_at(0), "/a");
    assert_eq!(db.weight_at(0), 0);
}

#[test]
fn retain_by_flags() {
    let mut db = Database::empty();
    db.upsert("/a".to_string(), weight_bits(1.0));
    db.upsert("/b".to_string(), weight_bits(2.0));
    db.upsert("/c".to_string(), weight_bits(3.0));
    let removed = db.retain(&vec![true, false, true]);
    assert_eq!(removed, 1);
    assert_eq!(db.len(), 2);
    assert_eq!(f32::from_bits(db.get(&"/a".to_string())), 1.0);
    assert_eq!(db.get(&"/b".to_string()), 0);
    assert_eq!(f32::from_bits(db.get(&"/c".to_string())), 3.0);
}

#[test]
fn purge_removes_missing_paths() {
    let mut db = Database::empty();
    db.upsert("/".to_string(), weight_bits(5.0));
    db.upsert("/surely/not/here/fastjump-test".to_string(), weight_bits(7.0));
    let removed = db.purge();
    assert_eq!(removed, 1);
    assert_eq!(db.len(), 1);
    assert_eq!(f32::from_bits(db.get(&"/".to_string())), 5.0);
    assert_eq!(db.get(&"/surely/not/here/fastjump-test".to_string()), 0);
}

#[test]
fn round_trip_keeps_every_weight() {
    let mut db = Database::empty();
    db.upsert("/home/u".to_string(), weight_bits(14.142136));
    db.upsert("/tmp".to_string(), weight_bits(0.0));
    db.upsert("/home/u/src".to_string(), weight_bits(10.0));
    let bytes = db.to_bytes();
    let back = Database::from_bytes(&bytes).unwrap();
    assert_eq!(back.len(), 3);
    for k in ["/home/u", "/tmp", "/home/u/src"] {
        assert_eq!(back.get(&k.to_string()), db.get(&k.to_string()));
    }
}

#[test]
fn round_trip_empty_store() {
    let db = Database::empty();
    let back = Database::from_bytes(&db.to_bytes()).unwrap();
    assert_eq!(back.len(), 0);
}

#[test]
fn bytes_match_a_map_of_floats() {
    let mut db = Database::empty();
    db.upsert("/home/u".to_string(), weight_bits(10.0));
    let mut m: HashMap<String, f32> = HashMap::new();
    m.insert("/home/u".to_string(), 10.0);
    assert_eq!(db.to_bytes(), bincode::serialize(&m).unwrap());
    let back = Database::from_bytes(&bincode::serialize(&m).unwrap()).unwrap();
    assert_eq!(f32::from_bits(back.get(&"/home/u".to_string())), 10.0);
}

#[test]
fn corrupt_bytes_are_refused() {
    let r = Database::from_bytes(&vec![5, 0, 0]);
    assert!(matches!(r, Err(StoreError::Corrupt)));
    let r = Database::from_bytes(&Vec::new());
    assert!(matches!(r, Err(StoreError::Corrupt)));
    // a count of one entry whose path length runs past the end
    let r = Database::from_bytes(&vec![1, 0, 0, 0, 0, 0, 0, 0, 9, 0, 0, 0, 0, 0, 0, 0, b'a']);
    assert!(matches!(r, Err(StoreError::Corrupt)));
}

#[test]
fn trailing_bytes_after_a_table_are_ignored() {
    let mut db = Database::empty();
    db.upsert("/a".to_string(), weight_bits(2.0));
    let mut bytes = db.to_bytes();
    bytes.extend_from_slice(&[7, 7, 7]);
    let back = Database::from_bytes(&bytes).unwrap();
    assert_eq!(back.len(), 1);
    assert_eq!(f32::from_bits(back.get(&"/a".to_string())), 2.0);
}

#[test]
fn load_steps() {
    assert_eq!(load_step(true, true), LoadStep::ReadPrimary);
    assert_eq!(load_step(true, false), LoadStep::ReadPrimary);
    assert_eq!(load_step(false, true), LoadStep::PromoteBackup);
    assert_eq!(load_step(false, false), LoadStep::StartEmpty);
}

#[test]
fn backup_rotation() {
    assert!(backup_due(None));
    assert!(!backup_due(Some(0)));
    assert!(!backup_due(Some(BACKUP_THRESHOLD)));
    assert!(backup_due(Some(BACKUP_THRESHOLD + 1)));
    assert_eq!(BACKUP_THRESHOLD, 24 * 60 * 60);
}
