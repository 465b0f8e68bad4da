use site_server::store::{Database, StoredIp};

fn populated() -> Database {
    let mut db = Database::default();
    db.add_review_rating(5, 1, 100);
    db.add_review_rating(7, -1, 101);
    db.add_review_rating(5, 1, 102);
    for i in 0..20u32 {
        db.add_visit(StoredIp::V4(i), 200 + i as u64);
    }
    db.add_visit(StoredIp::V6(340_282_366_920_938_463_463_374_607_431_768_211_455), 300);
    db.add_visit(StoredIp::V4(3), 301);
    db
}

#[test]
fn snapshot_round_trip() {
    let db = populated();
    let bytes = db.snapshot_bytes();
    let back = Database::from_snapshot_bytes(&bytes);
    assert_eq!(back.review_ratings, db.review_ratings);
    assert_eq!(back.visit_history, db.visit_history);
    assert_eq!(back.least_visitor, db.least_visitor);
    assert_eq!(back.visits, db.visits);
    // The dirty marker is a timing field and is not persisted.
    assert!(back.dirty_start.is_none());
    assert!(db.dirty_start.is_some());
}

#[test]
fn empty_store_round_trip() {
    let db = Database::default();
    let bytes = db.snapshot_bytes();
    let back = Database::from_snapshot_bytes(&bytes);
    assert_eq!(back.review_ratings, Vec::new());
    assert_eq!(back.visit_history, Vec::new());
    assert_eq!(back.least_visitor, None);
    assert_eq!(back.visits, 0);
}

#[test]
fn truncated_snapshot_falls_back_to_default() {
    let db = populated();
    let mut bytes = db.snapshot_bytes();
    bytes.truncate(bytes.len() - 1);
    let back = Database::from_snapshot_bytes(&bytes);
    assert_eq!(back.visits, 0);
    assert!(back.review_ratings.is_empty());
    assert!(back.visit_history.is_empty());
}

#[test]
fn trailing_garbage_falls_back_to_default() {
    let db = populated();
    let mut bytes = db.snapshot_bytes();
    bytes.push(0);
    let back = Database::from_snapshot_bytes(&bytes);
    assert_eq!(back.visits, 0);
}

#[test]
fn arbitrary_bytes_fall_back_to_default() {
    let back = Database::from_snapshot_bytes(&b"not a snapshot at all".to_vec());
    assert_eq!(back.visits, 0);
    let back = Database::from_snapshot_bytes(&Vec::new());
    assert_eq!(back.visits, 0);
}
