use telemt_admin::db::{Db, RegisterResult, RequestStatus};

fn pending_db_with_user(uid: i64) -> Db {
    let mut db = Db::new();
    match db.register_or_get(uid, Some("alice"), Some("Alice"), 100) {
        RegisterResult::NewPending(r) => assert_eq!(r.tg_user_id, uid),
        _ => panic!("expected a new pending row"),
    }
    db
}

/// Registration is idempotent: after the first call for an unresolved
/// identity, every further call answers "already pending" and never
/// creates a second row.
#[test]
fn register_or_get_idempotent() {
    let mut db = pending_db_with_user(7);
    for k in 0..5 {
        match db.register_or_get(7, Some("alice2"), None, 200 + k) {
            RegisterResult::AlreadyPending => {},
            _ => panic!("expected already pending"),
        }
    }
    let stats = db.admin_stats();
    assert_eq!(stats.total, 1);
    assert_eq!(stats.pending, 1);
    // the metadata refresh took effect in place
    let row = db.get_request_by_tg_user(7).unwrap();
    assert_eq!(row.tg_username.as_deref(), Some("alice2"));
    assert_eq!(row.created_at, 204);
}

#[test]
fn register_after_approval_returns_secret() {
    let mut db = pending_db_with_user(7);
    let row = db.get_pending_by_tg_user(7).unwrap();
    assert!(db.approve(row.id, "tg_7", "s3cret", 300).is_some());
    match db.register_or_get(7, None, None, 400) {
        RegisterResult::Approved(s) => assert_eq!(s, "s3cret"),
        _ => panic!("expected approved"),
    }
}

#[test]
fn register_after_rejection_is_final() {
    let mut db = pending_db_with_user(7);
    let row = db.get_pending_by_tg_user(7).unwrap();
    assert!(db.reject(row.id, 300).is_some());
    match db.register_or_get(7, None, None, 400) {
        RegisterResult::Rejected => {},
        _ => panic!("expected rejected"),
    }
}

/// Two approvals of the same pending id: exactly one succeeds, the other
/// observes the idempotent no-op, and exactly one approved row remains.
#[test]
fn approve_twice_single_success() {
    let mut db = pending_db_with_user(7);
    let id = db.get_pending_by_tg_user(7).unwrap().id;
    let first = db.approve(id, "tg_7", "one", 300);
    let second = db.approve(id, "tg_7", "two", 301);
    assert!(first.is_some());
    assert!(second.is_none());
    // the prior row is returned, still showing the pending state
    assert!(matches!(first.unwrap().status, RequestStatus::Pending));
    let row = db.get_request_by_tg_user(7).unwrap();
    assert!(matches!(row.status, RequestStatus::Approved));
    assert_eq!(row.secret.as_deref(), Some("one"));
    assert_eq!(row.resolved_at, Some(300));
    let stats = db.admin_stats();
    assert_eq!((stats.approved, stats.pending), (1, 0));
}

#[test]
fn reject_then_approve_is_noop() {
    let mut db = pending_db_with_user(7);
    let id = db.get_pending_by_tg_user(7).unwrap().id;
    assert!(db.reject(id, 300).is_some());
    assert!(db.reject(id, 301).is_none());
    assert!(db.approve(id, "tg_7", "x", 302).is_none());
    let stats = db.admin_stats();
    assert_eq!((stats.rejected, stats.approved), (1, 0));
}

#[test]
fn deactivate_only_approved_rows() {
    let mut db = pending_db_with_user(7);
    // pending rows are not deactivated
    assert!(!db.deactivate_user(7));
    let id = db.get_pending_by_tg_user(7).unwrap().id;
    db.approve(id, "tg_7", "s", 300);
    assert!(db.deactivate_user(7));
    // already deleted: no-op
    assert!(!db.deactivate_user(7));
    // the credential is retained on the deleted row for audit
    let row = db.get_request_by_tg_user(7).unwrap();
    assert!(matches!(row.status, RequestStatus::Deleted));
    assert_eq!(row.secret.as_deref(), Some("s"));
    // but the row no longer answers as approved
    assert!(db.get_approved(7).is_none());
    assert!(db.get_active_user_by_tg_user(7).is_none());
}

#[test]
fn set_approved_overrides_any_state() {
    let mut db = pending_db_with_user(7);
    let id = db.get_pending_by_tg_user(7).unwrap().id;
    db.reject(id, 200);
    // the administrative override re-grants even after a rejection
    db.set_approved(7, Some("bob"), Some("Bob"), "tg_7", "fresh", 300);
    let (user, secret) = db.get_approved(7).unwrap();
    assert_eq!(user, "tg_7");
    assert_eq!(secret, "fresh");
    // and creates the row when none exists
    db.set_approved(8, None, None, "tg_8", "other", 301);
    assert_eq!(db.get_approved(8).unwrap().1, "other");
    let stats = db.admin_stats();
    assert_eq!(stats.total, 2);
    assert_eq!(stats.approved, 2);
}

#[test]
fn get_pending_lookups() {
    let mut db = pending_db_with_user(7);
    let row = db.get_pending_by_tg_user(7).unwrap();
    assert_eq!(db.get_pending_by_id(row.id).unwrap().tg_user_id, 7);
    assert!(db.get_pending_by_id(row.id + 50).is_none());
    db.approve(row.id, "tg_7", "s", 300);
    assert!(db.get_pending_by_tg_user(7).is_none());
    assert!(db.get_pending_by_id(row.id).is_none());
}

#[test]
fn stats_partition_the_table() {
    let mut db = Db::new();
    for uid in 1..=6 {
        db.register_or_get(uid, None, None, uid);
    }
    let a = db.get_pending_by_tg_user(1).unwrap().id;
    let b = db.get_pending_by_tg_user(2).unwrap().id;
    let c = db.get_pending_by_tg_user(3).unwrap().id;
    db.approve(a, "tg_1", "s1", 100);
    db.approve(b, "tg_2", "s2", 100);
    db.reject(c, 100);
    db.deactivate_user(2);
    let stats = db.admin_stats();
    assert_eq!(stats.total, 6);
    assert_eq!(stats.pending, 3);
    assert_eq!(stats.approved, 1);
    assert_eq!(stats.rejected, 1);
    assert_eq!(stats.deleted, 1);
    assert_eq!(stats.total, stats.pending + stats.approved + stats.rejected + stats.deleted);
    assert_eq!(db.count_active_users(), 1);
}

#[test]
fn list_pending_sorted_oldest_first() {
    let mut db = Db::new();
    db.register_or_get(1, None, None, 300);
    db.register_or_get(2, None, None, 100);
    db.register_or_get(3, None, None, 200);
    let listed = db.list_pending_requests(10);
    let times: Vec<i64> = listed.iter().map(|r| r.created_at).collect();
    assert_eq!(times, vec![100, 200, 300]);
    assert_eq!(db.list_pending_requests(2).len(), 2);
}

#[test]
fn list_active_users_paged_newest_first() {
    let mut db = Db::new();
    for uid in 1..=5 {
        db.set_approved(uid, None, None, "tg_x", "s", uid * 10);
    }
    let page1 = db.list_active_users_page(2, 0);
    let t1: Vec<i64> = page1.iter().map(|r| r.created_at).collect();
    assert_eq!(t1, vec![50, 40]);
    let page2 = db.list_active_users_page(2, 2);
    let t2: Vec<i64> = page2.iter().map(|r| r.created_at).collect();
    assert_eq!(t2, vec![30, 20]);
    let page3 = db.list_active_users_page(2, 4);
    assert_eq!(page3.len(), 1);
    assert_eq!(page3[0].created_at, 10);
    assert_eq!(db.list_active_users_page(2, 6).len(), 0);
}

/// Rows sharing a creation time are listed in one fixed order (by id), so
/// pages cut at any offset stay disjoint and exhaustive.
#[test]
fn list_active_users_pages_disjoint_under_ties() {
    let mut db = Db::new();
    for uid in 1..=4 {
        db.set_approved(uid, None, None, "tg_x", "s", 100);
    }
    let page1 = db.list_active_users_page(2, 0);
    let page2 = db.list_active_users_page(2, 2);
    let mut seen: Vec<i64> = page1.iter().chain(page2.iter()).map(|r| r.tg_user_id).collect();
    seen.sort();
    assert_eq!(seen, vec![1, 2, 3, 4]);
    // ids break the tie, so the order is fixed
    assert_eq!(page1.iter().map(|r| r.tg_user_id).collect::<Vec<i64>>(), vec![1, 2]);
    assert_eq!(page2.iter().map(|r| r.tg_user_id).collect::<Vec<i64>>(), vec![3, 4]);
}

#[test]
fn find_by_username_ignores_case_and_at() {
    let mut db = Db::new();
    db.register_or_get(1, Some("Alice"), None, 100);
    db.register_or_get(2, Some("BOB"), None, 100);
    assert_eq!(db.find_tg_user_id_by_username("alice"), Some(1));
    assert_eq!(db.find_tg_user_id_by_username("@ALICE"), Some(1));
    assert_eq!(db.find_tg_user_id_by_username("bob"), Some(2));
    assert_eq!(db.find_tg_user_id_by_username("carol"), None);
    assert_eq!(db.find_tg_user_id_by_username("@"), None);
    assert_eq!(db.find_tg_user_id_by_username(""), None);
}

#[test]
fn find_by_username_prefers_latest_row() {
    let mut db = Db::new();
    db.register_or_get(1, Some("dup"), None, 100);
    db.register_or_get(2, Some("dup"), None, 900);
    db.register_or_get(3, Some("dup"), None, 500);
    assert_eq!(db.find_tg_user_id_by_username("dup"), Some(2));
}
