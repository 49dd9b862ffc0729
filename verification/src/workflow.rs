//! The provisioning workflow: the ordered transitions that turn a grant or
//! revoke decision into a credential-store entry and a ledger commit, and
//! the policy and routing decisions around them.  The one-call functions
//! here state each workflow's combined transition — the laws and the
//! scenario tests run them as given.  A deployment that must put a durable
//! credential write between the two steps (the data model's ordering:
//! a credential-write failure aborts before any ledger mutation) commits
//! the same transitions stepwise through the store methods, in the order
//! these contracts document.

use vstd::prelude::*;
use crate::db::Db;
use crate::db::RegistrationRequest;
use crate::db::ReqView;
use crate::db::RequestStatus;
use crate::db::RegisterResult;
use crate::db::ConsumedInviteToken;
use crate::db::TokenConsumeError;
use crate::db::TokenMode;
use crate::db::has_id;
use crate::db::idx_id;
use crate::db::opt_req_view;
use crate::db::view_opt_str;
use crate::db::approve_m;
use crate::db::register_or_get_m;
use crate::db::set_approved_m;
use crate::db::deactivate_m;
use crate::db::consume_m;
use crate::credstore::CredentialStore;
use crate::strutil::i64_dec;
use crate::strutil::i64_to_string;

verus! {

/// The internal username an identity provisions under.
pub open spec fn telemt_username_spec(tg_user_id: int) -> Seq<char> {
    "tg_"@ + i64_dec(tg_user_id)
}

pub fn telemt_username(tg_user_id: i64) -> (r: String)
    ensures
        r@ == telemt_username_spec(tg_user_id as int),
{
    let mut s = "tg_".to_owned();
    s.append(i64_to_string(tg_user_id).as_str());
    s
}

// ---------------------------------------------------------------------------
// token-creation policy
// ---------------------------------------------------------------------------

/// Why a token-creation request was refused at the policy boundary.
#[derive(Clone, Copy, Debug, PartialEq, Eq, Structural)]
pub enum TokenPolicyError {
    /// The effective lifetime is below one day.
    TooFewDays,
    /// The effective lifetime exceeds the configured maximum.
    TooManyDays,
    /// Auto-approving tokens are disabled by configuration.
    AutoApproveForbidden,
}

/// The caller-side policy on token creation: the effective day count (the
/// configured default when none was requested) must lie in
/// `1 ..= max_token_days`, and auto-approval must be permitted.
pub fn check_token_policy(
    requested_days: Option<i64>,
    auto_approve: bool,
    default_token_days: i64,
    max_token_days: i64,
    allow_auto_approve_tokens: bool,
) -> (r: Result<i64, TokenPolicyError>)
    ensures
        ({
            let d = if requested_days is Some {
                requested_days->0
            } else {
                default_token_days
            };
            &&& (d < 1 ==> r == Err::<i64, TokenPolicyError>(TokenPolicyError::TooFewDays))
            &&& (d >= 1 && d > max_token_days ==> r == Err::<i64, TokenPolicyError>(
                TokenPolicyError::TooManyDays,
            ))
            &&& (1 <= d <= max_token_days && auto_approve && !allow_auto_approve_tokens ==> r
                == Err::<i64, TokenPolicyError>(TokenPolicyError::AutoApproveForbidden))
            &&& (1 <= d <= max_token_days && (!auto_approve || allow_auto_approve_tokens) ==> r
                == Ok::<i64, TokenPolicyError>(d))
        }),
{
    let d = match requested_days {
        Some(v) => v,
        None => default_token_days,
    };
    if d < 1 {
        Err(TokenPolicyError::TooFewDays)
    } else if d > max_token_days {
        Err(TokenPolicyError::TooManyDays)
    } else if auto_approve && !allow_auto_approve_tokens {
        Err(TokenPolicyError::AutoApproveForbidden)
    } else {
        Ok(d)
    }
}

// ---------------------------------------------------------------------------
// start-command routing
// ---------------------------------------------------------------------------

/// Where a start command goes: the admin panel for admins; for a known
/// identity, the reply its row's status calls for; otherwise token
/// processing when a token was supplied, and an invitation to type one
/// when not.
pub enum StartRoute {
    AdminPanel,
    /// Already approved with a stored secret: send the existing link.
    SendExistingLink(String),
    AlreadyPendingNotice,
    RejectedNotice,
    ProcessToken(String),
    AskForToken,
}

pub ghost enum StartRouteView {
    AdminPanel,
    SendExistingLink(Seq<char>),
    AlreadyPendingNotice,
    RejectedNotice,
    ProcessToken(Seq<char>),
    AskForToken,
}

impl View for StartRoute {
    type V = StartRouteView;

    open spec fn view(&self) -> StartRouteView {
        match self {
            StartRoute::AdminPanel => StartRouteView::AdminPanel,
            StartRoute::SendExistingLink(s) => StartRouteView::SendExistingLink(s@),
            StartRoute::AlreadyPendingNotice => StartRouteView::AlreadyPendingNotice,
            StartRoute::RejectedNotice => StartRouteView::RejectedNotice,
            StartRoute::ProcessToken(t) => StartRouteView::ProcessToken(t@),
            StartRoute::AskForToken => StartRouteView::AskForToken,
        }
    }
}

pub open spec fn view_opt_req_ref(o: Option<&RegistrationRequest>) -> Option<ReqView> {
    match o {
        Some(r) => Some(r@),
        None => None,
    }
}

pub open spec fn view_opt_string_val(o: Option<String>) -> Option<Seq<char>> {
    match o {
        Some(s) => Some(s@),
        None => None,
    }
}

pub open spec fn start_fallthrough_spec(token: Option<Seq<char>>) -> StartRouteView {
    match token {
        Some(t) => StartRouteView::ProcessToken(t),
        None => StartRouteView::AskForToken,
    }
}

pub open spec fn start_route_spec(
    is_admin: bool,
    existing: Option<ReqView>,
    token: Option<Seq<char>>,
) -> StartRouteView {
    if is_admin {
        StartRouteView::AdminPanel
    } else {
        match existing {
            Some(row) => {
                if row.status is Approved && row.secret is Some {
                    StartRouteView::SendExistingLink(row.secret->0)
                } else if row.status is Pending {
                    StartRouteView::AlreadyPendingNotice
                } else if row.status is Rejected {
                    StartRouteView::RejectedNotice
                } else {
                    // approved without a secret, or deleted: treated as a
                    // fresh start
                    start_fallthrough_spec(token)
                }
            },
            None => start_fallthrough_spec(token),
        }
    }
}

pub fn start_route(
    is_admin: bool,
    existing: Option<&RegistrationRequest>,
    token: Option<String>,
) -> (r: StartRoute)
    ensures
        r@ == start_route_spec(is_admin, view_opt_req_ref(existing), view_opt_string_val(token)),
{
    if is_admin {
        return StartRoute::AdminPanel;
    }
    if let Some(row) = existing {
        match row.status {
            RequestStatus::Approved => {
                if let Some(secret) = &row.secret {
                    return StartRoute::SendExistingLink(secret.clone());
                }
            },
            RequestStatus::Pending => {
                return StartRoute::AlreadyPendingNotice;
            },
            RequestStatus::Rejected => {
                return StartRoute::RejectedNotice;
            },
            RequestStatus::Deleted => {},
        }
    }
    match token {
        Some(t) => StartRoute::ProcessToken(t),
        None => StartRoute::AskForToken,
    }
}

// ---------------------------------------------------------------------------
// grants
// ---------------------------------------------------------------------------

/// Grant a pending request: write the credential, then commit the ledger
/// transition, in that order.  A no-op returning `None` when the request
/// is not currently pending, so racing duplicate approvals resolve to one
/// grant.  On success the prior row is returned for messaging.  The
/// surrounding program persists the credential store between the two
/// steps and restarts the service afterwards.
pub fn grant_pending(
    db: &mut Db,
    cred: &mut CredentialStore,
    request_id: i64,
    secret: &str,
    now: i64,
) -> (r: Option<RegistrationRequest>)
    requires
        old(db).wf(),
        old(cred).wf(),
    ensures
        final(db).wf(),
        final(cred).wf(),
        ({
            let reqs = old(db)@.requests;
            if has_id(reqs, request_id as int) && reqs[idx_id(
                reqs,
                request_id as int,
            )].status is Pending {
                let row = reqs[idx_id(reqs, request_id as int)];
                let tu = telemt_username_spec(row.tg_user_id);
                &&& final(cred)@ == old(cred)@.insert(tu, secret@)
                &&& final(db)@ == approve_m(
                    old(db)@,
                    request_id as int,
                    tu,
                    secret@,
                    now as int,
                ).0
                &&& opt_req_view(r) == Some(row)
            } else {
                &&& final(db)@ == old(db)@
                &&& final(cred)@ == old(cred)@
                &&& r is None
            }
        }),
{
    let request = match db.get_pending_by_id(request_id) {
        Some(x) => x,
        None => {
            return None;
        },
    };
    let telemt_user = telemt_username(request.tg_user_id);
    cred.upsert_user(telemt_user.as_str(), secret);
    match db.approve(request_id, telemt_user.as_str(), secret, now) {
        Some(_) => Some(request),
        None => None,
    }
}

/// Direct administrative grant, bypassing the request queue: write the
/// credential, then upsert the ledger row straight to Approved.
pub fn grant_direct(
    db: &mut Db,
    cred: &mut CredentialStore,
    tg_user_id: i64,
    tg_username: Option<&str>,
    tg_display_name: Option<&str>,
    secret: &str,
    now: i64,
)
    requires
        old(db).wf(),
        old(cred).wf(),
        old(db)@.next_request_id < i64::MAX as int,
    ensures
        final(db).wf(),
        final(cred).wf(),
        final(cred)@ == old(cred)@.insert(telemt_username_spec(tg_user_id as int), secret@),
        final(db)@ == set_approved_m(
            old(db)@,
            tg_user_id as int,
            view_opt_str(tg_username),
            view_opt_str(tg_display_name),
            telemt_username_spec(tg_user_id as int),
            secret@,
            now as int,
        ),
{
    let telemt_user = telemt_username(tg_user_id);
    cred.upsert_user(telemt_user.as_str(), secret);
    db.set_approved(tg_user_id, tg_username, tg_display_name, telemt_user.as_str(), secret, now);
}

// ---------------------------------------------------------------------------
// revocation
// ---------------------------------------------------------------------------

/// What a ban changed, and what follow-up it calls for.
#[derive(Clone, Copy, Debug, PartialEq, Eq, Structural)]
pub struct BanOutcome {
    pub removed_from_cfg: bool,
    pub removed_from_db: bool,
}

impl BanOutcome {
    /// The service is restarted only when the credential store actually
    /// changed; nothing changed for the running process otherwise.
    pub fn should_restart(&self) -> (r: bool)
        ensures
            r == self.removed_from_cfg,
    {
        self.removed_from_cfg
    }

    /// Whether the ban found anything to undo; a wholly absent identity
    /// reports "not found".
    pub fn changed(&self) -> (r: bool)
        ensures
            r == (self.removed_from_cfg || self.removed_from_db),
    {
        self.removed_from_cfg || self.removed_from_db
    }
}

/// Revoke an identity's access: remove its credential, mark its ledger
/// row Deleted.  Both steps are conditional, so a ban of an unknown
/// identity changes nothing and reports it.
pub fn hard_ban(db: &mut Db, cred: &mut CredentialStore, tg_user_id: i64) -> (r: BanOutcome)
    requires
        old(db).wf(),
        old(cred).wf(),
    ensures
        final(db).wf(),
        final(cred).wf(),
        ({
            let tu = telemt_username_spec(tg_user_id as int);
            &&& r.removed_from_cfg == old(cred)@.contains_key(tu)
            &&& final(cred)@ == old(cred)@.remove(tu)
            &&& (!old(cred)@.contains_key(tu) ==> final(cred)@ == old(cred)@)
            &&& ({
                let (v2, changed) = deactivate_m(old(db)@, tg_user_id as int);
                final(db)@ == v2 && r.removed_from_db == changed
            })
        }),
{
    let telemt_user = telemt_username(tg_user_id);
    let removed_from_cfg = cred.remove_user(telemt_user.as_str());
    let removed_from_db = db.deactivate_user(tg_user_id);
    BanOutcome { removed_from_cfg, removed_from_db }
}

// ---------------------------------------------------------------------------
// token application
// ---------------------------------------------------------------------------

/// How a successfully consumed token was applied.
#[derive(Debug)]
pub enum TokenFlowOutcome {
    /// A manual-mode token: the identity went through ordinary
    /// registration; the registration outcome and the consumed token.
    Manual(RegisterResult, ConsumedInviteToken),
    /// An auto-approve token: the identity was granted access directly.
    AutoApproved(ConsumedInviteToken),
}

/// Apply a presented invite token for an identity: consume a usage slot
/// (the single conditional update that adjudicates races), then either
/// register the identity (manual mode) or grant access directly
/// (auto-approve mode).  A failed consumption changes nothing anywhere
/// and reports exactly why.
pub fn apply_invite_token(
    db: &mut Db,
    cred: &mut CredentialStore,
    tg_user_id: i64,
    tg_username: Option<&str>,
    tg_display_name: Option<&str>,
    token: &str,
    secret: &str,
    now: i64,
) -> (r: Result<TokenFlowOutcome, TokenConsumeError>)
    requires
        old(db).wf(),
        old(cred).wf(),
        old(db)@.next_request_id < i64::MAX as int,
    ensures
        final(db).wf(),
        final(cred).wf(),
        ({
            let (v1, cr) = consume_m(old(db)@, token@, now as int);
            match cr {
                Err(e) => r == Err::<TokenFlowOutcome, TokenConsumeError>(e) && final(db)@ == old(
                    db,
                )@ && final(cred)@ == old(cred)@,
                Ok(c) => {
                    if c.mode is Manual {
                        let (v2, rr) = register_or_get_m(
                            v1,
                            tg_user_id as int,
                            view_opt_str(tg_username),
                            view_opt_str(tg_display_name),
                            now as int,
                        );
                        &&& final(db)@ == v2
                        &&& final(cred)@ == old(cred)@
                        &&& (r matches Ok(TokenFlowOutcome::Manual(reg, con)) && reg@ == rr && con@
                            == c)
                    } else {
                        let tu = telemt_username_spec(tg_user_id as int);
                        &&& final(cred)@ == old(cred)@.insert(tu, secret@)
                        &&& final(db)@ == set_approved_m(
                            v1,
                            tg_user_id as int,
                            view_opt_str(tg_username),
                            view_opt_str(tg_display_name),
                            tu,
                            secret@,
                            now as int,
                        )
                        &&& (r matches Ok(TokenFlowOutcome::AutoApproved(con)) && con@ == c)
                    }
                },
            }
        }),
{
    let consumed = match db.consume_invite_token(token, now) {
        Ok(c) => c,
        Err(e) => {
            return Err(e);
        },
    };
    match consumed.mode {
        TokenMode::Manual => {
            let reg = db.register_or_get(tg_user_id, tg_username, tg_display_name, now);
            Ok(TokenFlowOutcome::Manual(reg, consumed))
        },
        TokenMode::AutoApprove => {
            grant_direct(db, cred, tg_user_id, tg_username, tg_display_name, secret, now);
            Ok(TokenFlowOutcome::AutoApproved(consumed))
        },
    }
}

// ---------------------------------------------------------------------------
// user-list pagination
// ---------------------------------------------------------------------------

/// A resolved page request: the clamped page number, the page count, and
/// the row offset of the page.
#[derive(Clone, Copy, Debug, PartialEq, Eq, Structural)]
pub struct PagePlan {
    pub page: i64,
    pub total_pages: i64,
    pub offset: i64,
}

/// Resolve a requested page against the user count: at least one page,
/// the request clamped into range, the offset pointing at the page's
/// first row.
pub fn page_plan(total: i64, page_size: i64, requested_page: i64) -> (r: PagePlan)
    requires
        total >= 0,
        page_size >= 1,
        requested_page >= 1,
        total <= i64::MAX - page_size,
    ensures
        ({
            let tp = (total as int + page_size as int - 1) / page_size as int;
            r.total_pages as int == if tp < 1 {
                1int
            } else {
                tp
            }
        }),
        r.page as int == if requested_page as int > r.total_pages as int {
            r.total_pages as int
        } else {
            requested_page as int
        },
        1 <= r.page <= r.total_pages,
        r.offset as int == (r.page as int - 1) * page_size as int,
        0 <= r.offset,
        total > 0 ==> r.offset < total,
        total == 0 ==> r.offset == 0,
{
    let tp0u: u64 = ((total as u64) + (page_size as u64 - 1)) / (page_size as u64);
    proof {
        let t = total as int;
        let s = page_size as int;
        let d = t + s - 1;
        vstd::arithmetic::div_mod::lemma_fundamental_div_mod(d, s);
        vstd::arithmetic::div_mod::lemma_mod_division_less_than_divisor(d, s);
        assert(d / s <= d) by (nonlinear_arith)
            requires
                s >= 1,
                d >= 0,
                s * (d / s) == d - d % s,
                0 <= d % s < s,
        ;
    }
    let tp0 = tp0u as i64;
    let total_pages = if tp0 < 1 {
        1
    } else {
        tp0
    };
    let page = if requested_page > total_pages {
        total_pages
    } else {
        requested_page
    };
    proof {
        let t = total as int;
        let s = page_size as int;
        let d = t + s - 1;
        vstd::arithmetic::div_mod::lemma_fundamental_div_mod(d, s);
        vstd::arithmetic::div_mod::lemma_mod_division_less_than_divisor(d, s);
        let q = d / s;
        assert(s * q == d - d % s);
        assert(tp0u as int == q);
        if t == 0 {
            assert(q == 0) by (nonlinear_arith)
                requires
                    s >= 1,
                    0 <= d < s,
                    s * q == d - d % s,
                    0 <= d % s < s,
                    q == d / s,
            ;
            assert(page == 1);
            assert((page as int - 1) * s == 0) by (nonlinear_arith)
                requires
                    page as int == 1,
            ;
        } else {
            // the last page starts strictly before `total`
            assert((q - 1) * s < t && q >= 1) by (nonlinear_arith)
                requires
                    s >= 1,
                    t >= 1,
                    d == t + s - 1,
                    s * q == d - d % s,
                    0 <= d % s < s,
            ;
            assert((page as int - 1) * s <= (q - 1) * s) by (nonlinear_arith)
                requires
                    s >= 1,
                    1 <= page as int <= q,
            ;
            assert(0 <= (page as int - 1) * s) by (nonlinear_arith)
                requires
                    s >= 1,
                    page as int >= 1,
            ;
        }
    }
    let offset = (page - 1) * page_size;
    PagePlan { page, total_pages, offset }
}

} // verus!
