use telemt_admin::credstore::CredentialStore;
use telemt_admin::db::{Db, RegisterResult, RequestStatus, TokenConsumeError};
use telemt_admin::workflow::{
    apply_invite_token, check_token_policy, grant_direct, grant_pending, hard_ban, page_plan,
    start_route, telemt_username, StartRoute, TokenFlowOutcome, TokenPolicyError,
};

#[test]
fn telemt_username_format() {
    assert_eq!(telemt_username(42), "tg_42");
    assert_eq!(telemt_username(-5), "tg_-5");
}

#[test]
fn grant_pending_writes_credential_then_ledger() {
    let mut db = Db::new();
    let mut cred = CredentialStore::new();
    db.register_or_get(7, Some("alice"), None, 100);
    let id = db.get_pending_by_tg_user(7).unwrap().id;
    let prior = grant_pending(&mut db, &mut cred, id, "secret7", 200).unwrap();
    assert_eq!(prior.tg_user_id, 7);
    assert_eq!(cred.get_secret("tg_7").unwrap(), "secret7");
    let (user, secret) = db.get_approved(7).unwrap();
    assert_eq!((user.as_str(), secret.as_str()), ("tg_7", "secret7"));
}

#[test]
fn grant_pending_noop_when_not_pending() {
    let mut db = Db::new();
    let mut cred = CredentialStore::new();
    db.register_or_get(7, None, None, 100);
    let id = db.get_pending_by_tg_user(7).unwrap().id;
    grant_pending(&mut db, &mut cred, id, "one", 200).unwrap();
    // the second grant of the same id finds nothing pending: no-op,
    // nothing written anywhere
    assert!(grant_pending(&mut db, &mut cred, id, "two", 300).is_none());
    assert_eq!(cred.get_secret("tg_7").unwrap(), "one");
    assert_eq!(db.get_approved(7).unwrap().1, "one");
    assert!(grant_pending(&mut db, &mut cred, id + 9, "x", 300).is_none());
}

#[test]
fn grant_direct_upserts() {
    let mut db = Db::new();
    let mut cred = CredentialStore::new();
    grant_direct(&mut db, &mut cred, 9, Some("bob"), None, "s9", 100);
    assert_eq!(cred.get_secret("tg_9").unwrap(), "s9");
    assert_eq!(db.get_approved(9).unwrap().1, "s9");
}

/// An identity with no credential entry and no approved row: the ban
/// reports "not found", performs zero mutations, and asks for no restart.
#[test]
fn hard_ban_unknown_identity_is_noop() {
    let mut db = Db::new();
    let mut cred = CredentialStore::new();
    db.register_or_get(7, None, None, 100);  // pending, not approved
    let outcome = hard_ban(&mut db, &mut cred, 7);
    assert!(!outcome.removed_from_cfg);
    assert!(!outcome.removed_from_db);
    assert!(!outcome.changed());
    assert!(!outcome.should_restart());
    // nothing moved
    let stats = db.admin_stats();
    assert_eq!((stats.total, stats.pending), (1, 1));
    assert!(cred.get_secret("tg_7").is_none());
}

#[test]
fn hard_ban_removes_both_sides() {
    let mut db = Db::new();
    let mut cred = CredentialStore::new();
    grant_direct(&mut db, &mut cred, 7, None, None, "s", 100);
    let outcome = hard_ban(&mut db, &mut cred, 7);
    assert!(outcome.removed_from_cfg);
    assert!(outcome.removed_from_db);
    assert!(outcome.should_restart());
    assert!(cred.get_secret("tg_7").is_none());
    assert!(db.get_approved(7).is_none());
}

/// Auto-approve provisioning through a one-slot token: identity A is
/// granted (credential written, ledger approved); identity B then fails
/// on the usage limit with no ledger or credential mutation.
#[test]
fn one_slot_token_grants_once() {
    let mut db = Db::new();
    let mut cred = CredentialStore::new();
    let t = db.create_invite_token(1, true, Some(1), Some(1000), 0).unwrap();

    let out = apply_invite_token(&mut db, &mut cred, 7, Some("a"), None, &t.token, "sa", 10)
        .unwrap();
    match out {
        TokenFlowOutcome::AutoApproved(c) => {
            assert_eq!(c.usage_count, 1);
            assert_eq!(c.max_usage, Some(1));
        },
        _ => panic!("expected an auto-approve grant"),
    }
    assert_eq!(cred.get_secret("tg_7").unwrap(), "sa");
    assert_eq!(db.get_approved(7).unwrap().1, "sa");

    let before = db.admin_stats();
    let err = apply_invite_token(&mut db, &mut cred, 8, Some("b"), None, &t.token, "sb", 20)
        .unwrap_err();
    assert_eq!(err, TokenConsumeError::UsageLimitReached);
    // no mutation for B anywhere
    let after = db.admin_stats();
    assert_eq!(before, after);
    assert!(cred.get_secret("tg_8").is_none());
    assert!(db.get_request_by_tg_user(8).is_none());
}

#[test]
fn manual_token_registers_instead_of_granting() {
    let mut db = Db::new();
    let mut cred = CredentialStore::new();
    let t = db.create_invite_token(1, false, None, None, 0).unwrap();
    let out = apply_invite_token(&mut db, &mut cred, 7, Some("a"), Some("A"), &t.token, "s", 10)
        .unwrap();
    match out {
        TokenFlowOutcome::Manual(RegisterResult::NewPending(row), c) => {
            assert_eq!(row.tg_user_id, 7);
            assert!(matches!(row.status, RequestStatus::Pending));
            assert_eq!(c.usage_count, 1);
        },
        _ => panic!("expected a manual registration"),
    }
    // no credential is written on the manual path
    assert!(cred.get_secret("tg_7").is_none());
}

#[test]
fn token_policy_checks() {
    assert_eq!(check_token_policy(None, false, 7, 30, true), Ok(7));
    assert_eq!(check_token_policy(Some(10), false, 7, 30, true), Ok(10));
    assert_eq!(check_token_policy(Some(0), false, 7, 30, true), Err(TokenPolicyError::TooFewDays));
    assert_eq!(
        check_token_policy(Some(31), false, 7, 30, true),
        Err(TokenPolicyError::TooManyDays)
    );
    assert_eq!(
        check_token_policy(Some(5), true, 7, 30, false),
        Err(TokenPolicyError::AutoApproveForbidden)
    );
    assert_eq!(check_token_policy(Some(5), true, 7, 30, true), Ok(5));
}

#[test]
fn start_routing_table() {
    let mut db = Db::new();
    assert!(matches!(start_route(true, None, None), StartRoute::AdminPanel));
    assert!(matches!(start_route(false, None, None), StartRoute::AskForToken));
    match start_route(false, None, Some("tok".to_string())) {
        StartRoute::ProcessToken(t) => assert_eq!(t, "tok"),
        _ => panic!("expected token processing"),
    }

    db.register_or_get(7, None, None, 100);
    let pending = db.get_request_by_tg_user(7).unwrap();
    assert!(matches!(start_route(false, Some(&pending), None), StartRoute::AlreadyPendingNotice));

    let id = pending.id;
    db.approve(id, "tg_7", "sec", 200);
    let approved = db.get_request_by_tg_user(7).unwrap();
    match start_route(false, Some(&approved), Some("tok".to_string())) {
        StartRoute::SendExistingLink(s) => assert_eq!(s, "sec"),
        _ => panic!("expected the stored link"),
    }

    db.deactivate_user(7);
    let deleted = db.get_request_by_tg_user(7).unwrap();
    // a deleted identity starts over
    match start_route(false, Some(&deleted), Some("tok".to_string())) {
        StartRoute::ProcessToken(t) => assert_eq!(t, "tok"),
        _ => panic!("expected token processing"),
    }

    let mut db2 = Db::new();
    db2.register_or_get(8, None, None, 100);
    let id2 = db2.get_request_by_tg_user(8).unwrap().id;
    db2.reject(id2, 200);
    let rejected = db2.get_request_by_tg_user(8).unwrap();
    assert!(matches!(start_route(false, Some(&rejected), None), StartRoute::RejectedNotice));
}

#[test]
fn page_plan_clamps_and_offsets() {
    let p = page_plan(0, 10, 3);
    assert_eq!((p.page, p.total_pages, p.offset), (1, 1, 0));
    let p = page_plan(25, 10, 1);
    assert_eq!((p.page, p.total_pages, p.offset), (1, 3, 0));
    let p = page_plan(25, 10, 3);
    assert_eq!((p.page, p.total_pages, p.offset), (3, 3, 20));
    let p = page_plan(25, 10, 9);
    assert_eq!((p.page, p.total_pages, p.offset), (3, 3, 20));
    let p = page_plan(30, 10, 3);
    assert_eq!((p.page, p.total_pages, p.offset), (3, 3, 20));
}
