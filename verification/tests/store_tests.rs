use site_server::store::{Database, StoredIp, VISIT_HISTORY_MAX_SIZE};

#[test]
fn ratings_accumulate() {
    let mut db = Database::default();
    assert_eq!(db.get_review_rating(5), 0);
    db.add_review_rating(5, 1, 10);
    assert_eq!(db.get_review_rating(5), 1);
    db.add_review_rating(5, 1, 11);
    assert_eq!(db.get_review_rating(5), 2);
    db.add_review_rating(5, -1, 12);
    assert_eq!(db.get_review_rating(5), 1);
    assert_eq!(db.get_review_rating(7), 0);
    db.add_review_rating(7, -1, 13);
    assert_eq!(db.get_review_rating(7), -1);
    let all = db.get_review_ratings();
    assert_eq!(all, vec![(5, 1), (7, -1)]);
}

#[test]
fn ratings_saturate_at_the_extremes() {
    let mut db = Database::default();
    db.add_review_rating(1, i64::MAX, 0);
    db.add_review_rating(1, 1, 0);
    assert_eq!(db.get_review_rating(1), i64::MAX);
    db.add_review_rating(2, i64::MIN, 0);
    db.add_review_rating(2, -1, 0);
    assert_eq!(db.get_review_rating(2), i64::MIN);
}

#[test]
fn visits_count_distinct_addresses() {
    let mut db = Database::default();
    assert_eq!(db.get_visits(), 0);
    db.add_visit(StoredIp::V4(1), 100);
    assert_eq!(db.get_visits(), 1);
    db.add_visit(StoredIp::V4(1), 101);
    assert_eq!(db.get_visits(), 1);
    db.add_visit(StoredIp::V4(2), 102);
    assert_eq!(db.get_visits(), 2);
    db.add_visit(StoredIp::V6(2), 103);
    assert_eq!(db.get_visits(), 3);
}

#[test]
fn two_distinct_addresses_count_twice_in_either_order() {
    let a = StoredIp::V4(10);
    let b = StoredIp::V6(77);
    let mut db1 = Database::default();
    db1.add_visit(a, 0);
    db1.add_visit(b, 1);
    let mut db2 = Database::default();
    db2.add_visit(b, 0);
    db2.add_visit(a, 1);
    assert_eq!(db1.get_visits(), 2);
    assert_eq!(db2.get_visits(), 2);
}

#[test]
fn history_never_exceeds_capacity() {
    let mut db = Database::default();
    for i in 0..(VISIT_HISTORY_MAX_SIZE as u32 + 50) {
        db.add_visit(StoredIp::V4(i), i as u64);
        assert!(db.visit_history.len() <= VISIT_HISTORY_MAX_SIZE);
    }
    assert_eq!(db.visit_history.len(), VISIT_HISTORY_MAX_SIZE);
    // Every first visit was counted, eviction notwithstanding.
    assert_eq!(db.get_visits(), VISIT_HISTORY_MAX_SIZE as u64 + 50);
}

#[test]
fn eviction_removes_the_cached_least_entry() {
    let mut db = Database::default();
    for i in 0..(VISIT_HISTORY_MAX_SIZE as u32) {
        db.add_visit(StoredIp::V4(i), 0);
    }
    assert_eq!(db.visit_history.len(), VISIT_HISTORY_MAX_SIZE);
    let cached = db.least_visitor.unwrap();
    // The next fresh address evicts exactly the cached candidate; the map
    // never exceeds its bound.
    db.add_visit(StoredIp::V4(999_999), 0);
    assert_eq!(db.visit_history.len(), VISIT_HISTORY_MAX_SIZE);
    assert!(!db.visit_history.iter().any(|e| e.0 == cached.ip));
    assert!(db.visit_history.iter().any(|e| e.0 == StoredIp::V4(999_999)));
}

#[test]
fn dirty_tracking_and_flush_due() {
    let mut db = Database::default();
    assert!(!db.flush_due(1000));
    db.add_review_rating(1, 1, 1000);
    assert!(!db.flush_due(1000));
    assert!(!db.flush_due(1060));
    assert!(db.flush_due(1061));
    // Later mutations do not move the dirty stamp.
    db.add_review_rating(1, 1, 2000);
    assert!(db.flush_due(1061));
    db.mark_clean();
    assert!(!db.flush_due(5000));
    // A clock that went backwards counts as no elapsed time.
    db.set_dirty(9000);
    assert!(!db.flush_due(8000));
}
