use telemt_admin::db::{Db, TokenConsumeError, TokenCreateError, TokenMode};

const DAY: i64 = 86_400;

#[test]
fn create_token_basic_fields() {
    let mut db = Db::new();
    let t = db.create_invite_token(7, true, Some(3), Some(99), 1_000).unwrap();
    assert_eq!(t.id, 1);
    assert_eq!(t.created_at, 1_000);
    assert_eq!(t.expires_at, 1_000 + 7 * DAY);
    assert!(t.auto_approve);
    assert_eq!(t.created_by, Some(99));
    assert_eq!(t.usage_count, 0);
    assert_eq!(t.max_usage, Some(3));
    assert!(t.is_active);
    assert_eq!(t.token.chars().count(), 10);
    assert!(t.token.chars().all(|c| c.is_ascii_alphanumeric()));
}

#[test]
fn create_token_rejects_bad_days() {
    let mut db = Db::new();
    assert_eq!(db.create_invite_token(0, false, None, None, 0).unwrap_err(), TokenCreateError::InvalidDays);
    assert_eq!(db.create_invite_token(-3, false, None, None, 0).unwrap_err(), TokenCreateError::InvalidDays);
}

#[test]
fn create_token_rejects_expiry_overflow() {
    let mut db = Db::new();
    assert_eq!(
        db.create_invite_token(i64::MAX / DAY + 1, false, None, None, 0).unwrap_err(),
        TokenCreateError::ExpiryOverflow
    );
    assert_eq!(
        db.create_invite_token(1, false, None, None, i64::MAX - DAY + 1).unwrap_err(),
        TokenCreateError::ExpiryOverflow
    );
}

/// A token created with a week of lifetime and three usage slots is
/// usable at once, exhausts after exactly three consumptions, and a
/// revocation makes it unusable with slots remaining on another token.
#[test]
fn token_round_trip_exhaustion_and_revocation() {
    let mut db = Db::new();
    let now = 50_000;
    let t = db.create_invite_token(7, true, Some(3), None, now).unwrap();

    for k in 1..=3 {
        let c = db.consume_invite_token(&t.token, now + k).unwrap();
        assert_eq!(c.usage_count, k);
        assert!(matches!(c.mode, TokenMode::AutoApprove));
        assert_eq!(c.max_usage, Some(3));
    }
    assert_eq!(
        db.consume_invite_token(&t.token, now + 10).unwrap_err(),
        TokenConsumeError::UsageLimitReached
    );

    // revocation wins over remaining slots on a fresh token
    let t2 = db.create_invite_token(7, false, Some(3), None, now).unwrap();
    assert_eq!(t2.revoked_at, None);
    assert!(db.revoke_invite_token(&t2.token, now + 4));
    assert_eq!(
        db.consume_invite_token(&t2.token, now + 1).unwrap_err(),
        TokenConsumeError::Revoked
    );
    // a second revocation reports that nothing changed
    assert!(!db.revoke_invite_token(&t2.token, now + 9));
    let listed = db.list_active_invite_tokens(50, now + 1);
    assert!(listed.iter().all(|x| x.token != t2.token));
}

/// Expiry is strict: at the exact expiry instant the token is already
/// unusable, and the failure is classified as Expired, never a silent
/// success.
#[test]
fn token_expiry_boundary() {
    let mut db = Db::new();
    let t = db.create_invite_token(1, false, None, None, 0).unwrap();
    assert_eq!(t.expires_at, DAY);
    // one second before expiry: fine
    let c = db.consume_invite_token(&t.token, DAY - 1).unwrap();
    assert_eq!(c.usage_count, 1);
    // at the expiry instant: expired
    assert_eq!(db.consume_invite_token(&t.token, DAY).unwrap_err(), TokenConsumeError::Expired);
    // and after
    assert_eq!(db.consume_invite_token(&t.token, DAY + 5).unwrap_err(), TokenConsumeError::Expired);
}

#[test]
fn consume_unknown_token_not_found() {
    let mut db = Db::new();
    assert_eq!(db.consume_invite_token("nosuchtok1", 0).unwrap_err(), TokenConsumeError::NotFound);
    assert!(!db.revoke_invite_token("nosuchtok1", 0));
}

#[test]
fn consume_more_than_cap_counts_exactly() {
    let mut db = Db::new();
    let now = 1_000;
    let t = db.create_invite_token(2, false, Some(2), None, now).unwrap();
    let mut ok = 0;
    let mut limited = 0;
    for k in 0..5 {
        match db.consume_invite_token(&t.token, now + k) {
            Ok(_) => ok += 1,
            Err(TokenConsumeError::UsageLimitReached) => limited += 1,
            Err(e) => panic!("unexpected error {:?}", e),
        }
    }
    assert_eq!(ok, 2);
    assert_eq!(limited, 3);
}

#[test]
fn list_active_tokens_sorted_and_filtered() {
    let mut db = Db::new();
    let now = 10_000;
    let a = db.create_invite_token(9, false, None, None, now).unwrap();
    let b = db.create_invite_token(2, false, None, None, now).unwrap();
    let c = db.create_invite_token(5, false, None, None, now).unwrap();
    // a capped token with no slots left and a revoked one are not listed
    let spent = db.create_invite_token(3, false, Some(1), None, now).unwrap();
    db.consume_invite_token(&spent.token, now + 1).unwrap();
    let revoked = db.create_invite_token(3, false, None, None, now).unwrap();
    db.revoke_invite_token(&revoked.token, now);

    let listed = db.list_active_invite_tokens(50, now + 2);
    let names: Vec<&str> = listed.iter().map(|t| t.token.as_str()).collect();
    assert_eq!(names, vec![b.token.as_str(), c.token.as_str(), a.token.as_str()]);

    // the limit truncates to the soonest expiries
    let limited = db.list_active_invite_tokens(2, now + 2);
    assert_eq!(limited.len(), 2);
    assert_eq!(limited[0].token, b.token);
    assert_eq!(limited[1].token, c.token);
}
