//! The durable state of the service, modelled in memory: a ledger of
//! registration requests (one row per external identity) and a store of
//! invite tokens.  Every operation that the persistent store performed as a
//! single conditional SQL statement is a single method here, with a contract
//! that gives the exact transition; "zero rows affected" outcomes surface as
//! `None` / `false` results, never as errors.

use vstd::prelude::*;
use vstd::multiset::Multiset;

verus! {

// ---------------------------------------------------------------------------
// row types
// ---------------------------------------------------------------------------

/// Lifecycle status of a registration request.  `Deleted` is reachable only
/// from `Approved`; `Approved` and `Rejected` are resolutions of `Pending`.
#[derive(Clone, Copy, Debug, PartialEq, Eq, Structural)]
pub enum RequestStatus {
    Pending,
    Approved,
    Rejected,
    Deleted,
}

/// One ledger row.  The external identity `tg_user_id` is unique across
/// rows, as is the surrogate `id`.
#[derive(Clone, Debug)]
pub struct RegistrationRequest {
    pub id: i64,
    pub tg_user_id: i64,
    pub tg_username: Option<String>,
    pub tg_display_name: Option<String>,
    pub status: RequestStatus,
    pub telemt_username: Option<String>,
    pub secret: Option<String>,
    pub created_at: i64,
    pub resolved_at: Option<i64>,
}

/// One invite token row.  Exhaustion and expiry are computed predicates;
/// only revocation is stored (`is_active`).
#[derive(Clone, Debug)]
pub struct InviteToken {
    pub id: i64,
    pub token: String,
    pub created_at: i64,
    pub expires_at: i64,
    pub auto_approve: bool,
    pub created_by: Option<i64>,
    pub usage_count: i64,
    pub max_usage: Option<i64>,
    pub is_active: bool,
    /// When the token was explicitly revoked; audit only, never read back
    /// by the lifecycle logic.
    pub revoked_at: Option<i64>,
}

#[derive(Clone, Copy, Debug, PartialEq, Eq, Structural)]
pub enum TokenMode {
    Manual,
    AutoApprove,
}

/// What a successful consumption hands back: the post-increment row,
/// including its immutable mode, so the caller can branch without a second
/// lookup.
#[derive(Clone, Debug)]
pub struct ConsumedInviteToken {
    pub id: i64,
    pub token: String,
    pub mode: TokenMode,
    pub expires_at: i64,
    pub created_by: Option<i64>,
    pub usage_count: i64,
    pub max_usage: Option<i64>,
}

/// The four reasons a token cannot be consumed, mutually exclusive and
/// classified in this order.
#[derive(Clone, Copy, Debug, PartialEq, Eq, Structural)]
pub enum TokenConsumeError {
    NotFound,
    Revoked,
    Expired,
    UsageLimitReached,
}

/// Why token creation was refused.
#[derive(Clone, Copy, Debug, PartialEq, Eq, Structural)]
pub enum TokenCreateError {
    /// The requested lifetime is below one day.
    InvalidDays,
    /// `now + days * 86400` does not fit the timestamp type.
    ExpiryOverflow,
    /// No unique token string was found within the bounded retry budget.
    TokenCollision,
}

/// Result of `register_or_get`.
#[derive(Debug)]
pub enum RegisterResult {
    /// Already approved; carries the stored secret.
    Approved(String),
    /// A new pending row was created.
    NewPending(RegistrationRequest),
    /// A request is already on file (or approved without a secret, treated
    /// defensively the same way).
    AlreadyPending,
    /// Previously rejected; no re-registration path.
    Rejected,
}

/// Ledger row counts by status.
#[derive(Clone, Copy, Debug, PartialEq, Eq, Structural)]
pub struct AdminStats {
    pub total: i64,
    pub pending: i64,
    pub approved: i64,
    pub rejected: i64,
    pub deleted: i64,
}

// ---------------------------------------------------------------------------
// views
// ---------------------------------------------------------------------------

pub ghost struct ReqView {
    pub id: int,
    pub tg_user_id: int,
    pub tg_username: Option<Seq<char>>,
    pub tg_display_name: Option<Seq<char>>,
    pub status: RequestStatus,
    pub telemt_username: Option<Seq<char>>,
    pub secret: Option<Seq<char>>,
    pub created_at: int,
    pub resolved_at: Option<int>,
}

pub ghost struct TokenView {
    pub id: int,
    pub token: Seq<char>,
    pub created_at: int,
    pub expires_at: int,
    pub auto_approve: bool,
    pub created_by: Option<int>,
    pub usage_count: int,
    pub max_usage: Option<int>,
    pub is_active: bool,
    pub revoked_at: Option<int>,
}

pub ghost struct ConsumedTokenView {
    pub id: int,
    pub token: Seq<char>,
    pub mode: TokenMode,
    pub expires_at: int,
    pub created_by: Option<int>,
    pub usage_count: int,
    pub max_usage: Option<int>,
}

pub ghost enum RegisterResultView {
    Approved(Seq<char>),
    NewPending(ReqView),
    AlreadyPending,
    Rejected,
}

pub open spec fn view_opt_string(o: Option<String>) -> Option<Seq<char>> {
    match o {
        Some(s) => Some(s@),
        None => None,
    }
}

pub open spec fn view_opt_str(o: Option<&str>) -> Option<Seq<char>> {
    match o {
        Some(s) => Some(s@),
        None => None,
    }
}

pub open spec fn view_opt_i64(o: Option<i64>) -> Option<int> {
    match o {
        Some(n) => Some(n as int),
        None => None,
    }
}

impl View for RegistrationRequest {
    type V = ReqView;

    open spec fn view(&self) -> ReqView {
        ReqView {
            id: self.id as int,
            tg_user_id: self.tg_user_id as int,
            tg_username: view_opt_string(self.tg_username),
            tg_display_name: view_opt_string(self.tg_display_name),
            status: self.status,
            telemt_username: view_opt_string(self.telemt_username),
            secret: view_opt_string(self.secret),
            created_at: self.created_at as int,
            resolved_at: view_opt_i64(self.resolved_at),
        }
    }
}

impl View for InviteToken {
    type V = TokenView;

    open spec fn view(&self) -> TokenView {
        TokenView {
            id: self.id as int,
            token: self.token@,
            created_at: self.created_at as int,
            expires_at: self.expires_at as int,
            auto_approve: self.auto_approve,
            created_by: view_opt_i64(self.created_by),
            usage_count: self.usage_count as int,
            max_usage: view_opt_i64(self.max_usage),
            is_active: self.is_active,
            revoked_at: view_opt_i64(self.revoked_at),
        }
    }
}

impl View for ConsumedInviteToken {
    type V = ConsumedTokenView;

    open spec fn view(&self) -> ConsumedTokenView {
        ConsumedTokenView {
            id: self.id as int,
            token: self.token@,
            mode: self.mode,
            expires_at: self.expires_at as int,
            created_by: view_opt_i64(self.created_by),
            usage_count: self.usage_count as int,
            max_usage: view_opt_i64(self.max_usage),
        }
    }
}

impl View for RegisterResult {
    type V = RegisterResultView;

    open spec fn view(&self) -> RegisterResultView {
        match self {
            RegisterResult::Approved(s) => RegisterResultView::Approved(s@),
            RegisterResult::NewPending(r) => RegisterResultView::NewPending(r@),
            RegisterResult::AlreadyPending => RegisterResultView::AlreadyPending,
            RegisterResult::Rejected => RegisterResultView::Rejected,
        }
    }
}

pub open spec fn opt_req_view(o: Option<RegistrationRequest>) -> Option<ReqView> {
    match o {
        Some(r) => Some(r@),
        None => None,
    }
}

/// The whole store: both tables and their id counters.
pub ghost struct DbView {
    pub requests: Seq<ReqView>,
    pub tokens: Seq<TokenView>,
    pub next_request_id: int,
    pub next_token_id: int,
}

// ---------------------------------------------------------------------------
// lookups over the model
// ---------------------------------------------------------------------------

pub open spec fn has_user(reqs: Seq<ReqView>, uid: int) -> bool {
    exists|i: int| 0 <= i < reqs.len() && (#[trigger] reqs[i]).tg_user_id == uid
}

pub open spec fn idx_user(reqs: Seq<ReqView>, uid: int) -> int {
    choose|i: int| 0 <= i < reqs.len() && (#[trigger] reqs[i]).tg_user_id == uid
}

pub open spec fn has_id(reqs: Seq<ReqView>, id: int) -> bool {
    exists|i: int| 0 <= i < reqs.len() && (#[trigger] reqs[i]).id == id
}

pub open spec fn idx_id(reqs: Seq<ReqView>, id: int) -> int {
    choose|i: int| 0 <= i < reqs.len() && (#[trigger] reqs[i]).id == id
}

pub open spec fn has_tok(tokens: Seq<TokenView>, tok: Seq<char>) -> bool {
    exists|i: int| 0 <= i < tokens.len() && (#[trigger] tokens[i]).token == tok
}

pub open spec fn idx_tok(tokens: Seq<TokenView>, tok: Seq<char>) -> int {
    choose|i: int| 0 <= i < tokens.len() && (#[trigger] tokens[i]).token == tok
}

// ---------------------------------------------------------------------------
// well-formedness
// ---------------------------------------------------------------------------

pub open spec fn reqs_wf(reqs: Seq<ReqView>, next: int) -> bool {
    &&& forall|i: int| 0 <= i < reqs.len() ==> 1 <= (#[trigger] reqs[i]).id < next
    &&& forall|i: int, j: int|
        0 <= i < j < reqs.len() ==> (#[trigger] reqs[i]).id != (#[trigger] reqs[j]).id
            && reqs[i].tg_user_id != reqs[j].tg_user_id
}

pub open spec fn tokens_wf(tokens: Seq<TokenView>, next: int) -> bool {
    &&& forall|i: int|
        0 <= i < tokens.len() ==> 1 <= (#[trigger] tokens[i]).id < next && tokens[i].usage_count
            >= 0
    &&& forall|i: int, j: int|
        0 <= i < j < tokens.len() ==> (#[trigger] tokens[i]).id != (#[trigger] tokens[j]).id
            && tokens[i].token != tokens[j].token
}

pub open spec fn db_wf(v: DbView) -> bool {
    &&& reqs_wf(v.requests, v.next_request_id)
    &&& tokens_wf(v.tokens, v.next_token_id)
    &&& 1 <= v.next_request_id
    &&& 1 <= v.next_token_id
}

// ---------------------------------------------------------------------------
// transition models for the request table
// ---------------------------------------------------------------------------

/// Model of `register_or_get`: create a pending row for a new identity;
/// answer idempotently for a known one, refreshing metadata while the row
/// is not resolved.
pub open spec fn register_or_get_m(
    v: DbView,
    uid: int,
    uname: Option<Seq<char>>,
    dname: Option<Seq<char>>,
    now: int,
) -> (DbView, RegisterResultView) {
    if has_user(v.requests, uid) {
        let i = idx_user(v.requests, uid);
        let r = v.requests[i];
        if r.status is Approved {
            match r.secret {
                Some(s) => (v, RegisterResultView::Approved(s)),
                None => (v, RegisterResultView::AlreadyPending),
            }
        } else if r.status is Rejected {
            (v, RegisterResultView::Rejected)
        } else {
            let r2 = ReqView { tg_username: uname, tg_display_name: dname, created_at: now, ..r };
            (
                DbView { requests: v.requests.update(i, r2), ..v },
                RegisterResultView::AlreadyPending,
            )
        }
    } else {
        let nr = ReqView {
            id: v.next_request_id,
            tg_user_id: uid,
            tg_username: uname,
            tg_display_name: dname,
            status: RequestStatus::Pending,
            telemt_username: None,
            secret: None,
            created_at: now,
            resolved_at: None,
        };
        (
            DbView {
                requests: v.requests.push(nr),
                next_request_id: v.next_request_id + 1,
                ..v
            },
            RegisterResultView::NewPending(nr),
        )
    }
}

/// Model of `approve`: resolve a request that is currently pending,
/// stamping the credential and the resolution time; a no-op otherwise.
/// Returns the prior row on success.
pub open spec fn approve_m(v: DbView, id: int, tu: Seq<char>, sec: Seq<char>, now: int) -> (
    DbView,
    Option<ReqView>,
) {
    if has_id(v.requests, id) && v.requests[idx_id(v.requests, id)].status is Pending {
        let i = idx_id(v.requests, id);
        let r = v.requests[i];
        let r2 = ReqView {
            status: RequestStatus::Approved,
            telemt_username: Some(tu),
            secret: Some(sec),
            resolved_at: Some(now),
            ..r
        };
        (DbView { requests: v.requests.update(i, r2), ..v }, Some(r))
    } else {
        (v, None)
    }
}

/// Model of `reject`: resolve a currently pending request as rejected;
/// a no-op otherwise.  Returns the prior row on success.
pub open spec fn reject_m(v: DbView, id: int, now: int) -> (DbView, Option<ReqView>) {
    if has_id(v.requests, id) && v.requests[idx_id(v.requests, id)].status is Pending {
        let i = idx_id(v.requests, id);
        let r = v.requests[i];
        let r2 = ReqView { status: RequestStatus::Rejected, resolved_at: Some(now), ..r };
        (DbView { requests: v.requests.update(i, r2), ..v }, Some(r))
    } else {
        (v, None)
    }
}

/// Model of `deactivate_user`: Approved -> Deleted for the identity's row,
/// keeping the stored credential for audit; reports whether anything
/// changed.
pub open spec fn deactivate_m(v: DbView, uid: int) -> (DbView, bool) {
    if has_user(v.requests, uid) && v.requests[idx_user(v.requests, uid)].status is Approved {
        let i = idx_user(v.requests, uid);
        let r2 = ReqView { status: RequestStatus::Deleted, ..v.requests[i] };
        (DbView { requests: v.requests.update(i, r2), ..v }, true)
    } else {
        (v, false)
    }
}

/// Model of `set_approved`: administrative upsert straight to Approved,
/// overwriting any prior state for the identity.
pub open spec fn set_approved_m(
    v: DbView,
    uid: int,
    uname: Option<Seq<char>>,
    dname: Option<Seq<char>>,
    tu: Seq<char>,
    sec: Seq<char>,
    now: int,
) -> DbView {
    if has_user(v.requests, uid) {
        let i = idx_user(v.requests, uid);
        let r2 = ReqView {
            status: RequestStatus::Approved,
            tg_username: uname,
            tg_display_name: dname,
            telemt_username: Some(tu),
            secret: Some(sec),
            resolved_at: Some(now),
            ..v.requests[i]
        };
        DbView { requests: v.requests.update(i, r2), ..v }
    } else {
        let nr = ReqView {
            id: v.next_request_id,
            tg_user_id: uid,
            tg_username: uname,
            tg_display_name: dname,
            status: RequestStatus::Approved,
            telemt_username: Some(tu),
            secret: Some(sec),
            created_at: now,
            resolved_at: Some(now),
        };
        DbView {
            requests: v.requests.push(nr),
            next_request_id: v.next_request_id + 1,
            ..v
        }
    }
}

// ---------------------------------------------------------------------------
// the store
// ---------------------------------------------------------------------------

pub struct Db {
    requests: Vec<RegistrationRequest>,
    tokens: Vec<InviteToken>,
    next_request_id: i64,
    next_token_id: i64,
}

impl View for Db {
    type V = DbView;

    closed spec fn view(&self) -> DbView {
        DbView {
            requests: self.requests@.map_values(|r: RegistrationRequest| r@),
            tokens: self.tokens@.map_values(|t: InviteToken| t@),
            next_request_id: self.next_request_id as int,
            next_token_id: self.next_token_id as int,
        }
    }
}

// small cloning helpers proved exact, so that verified code never relies on
// a derived `Clone`

fn clone_opt_string(o: &Option<String>) -> (r: Option<String>)
    ensures
        r == *o,
{
    match o {
        Some(s) => Some(s.clone()),
        None => None,
    }
}

fn clone_req(r: &RegistrationRequest) -> (c: RegistrationRequest)
    ensures
        c == *r,
{
    RegistrationRequest {
        id: r.id,
        tg_user_id: r.tg_user_id,
        tg_username: clone_opt_string(&r.tg_username),
        tg_display_name: clone_opt_string(&r.tg_display_name),
        status: r.status,
        telemt_username: clone_opt_string(&r.telemt_username),
        secret: clone_opt_string(&r.secret),
        created_at: r.created_at,
        resolved_at: r.resolved_at,
    }
}

fn clone_token(t: &InviteToken) -> (c: InviteToken)
    ensures
        c == *t,
{
    InviteToken {
        id: t.id,
        token: t.token.clone(),
        created_at: t.created_at,
        expires_at: t.expires_at,
        auto_approve: t.auto_approve,
        created_by: t.created_by,
        usage_count: t.usage_count,
        max_usage: t.max_usage,
        is_active: t.is_active,
        revoked_at: t.revoked_at,
    }
}

fn opt_str_owned(o: Option<&str>) -> (r: Option<String>)
    ensures
        view_opt_string(r) == view_opt_str(o),
{
    match o {
        Some(s) => Some(s.to_owned()),
        None => None,
    }
}

impl Db {
    pub open spec fn wf(&self) -> bool {
        db_wf(self@)
    }

    /// An empty store.
    pub fn new() -> (db: Db)
        ensures
            db.wf(),
            db@.requests.len() == 0,
            db@.tokens.len() == 0,
            db@.next_request_id == 1,
            db@.next_token_id == 1,
    {
        Db { requests: Vec::new(), tokens: Vec::new(), next_request_id: 1, next_token_id: 1 }
    }

    /// Whether fresh surrogate ids remain on both tables; the inserting
    /// operations ask for this, and an unverified caller can test it.
    pub fn has_id_capacity(&self) -> (r: bool)
        ensures
            r == (self@.next_request_id < i64::MAX as int && self@.next_token_id
                < i64::MAX as int),
    {
        self.next_request_id < i64::MAX && self.next_token_id < i64::MAX
    }

    fn find_user(&self, tg_user_id: i64) -> (r: Option<usize>)
        requires
            self.wf(),
        ensures
            match r {
                Some(i) => i < self@.requests.len() && self@.requests[i as int].tg_user_id
                    == tg_user_id as int && i as int == idx_user(
                    self@.requests,
                    tg_user_id as int,
                ) && has_user(self@.requests, tg_user_id as int),
                None => !has_user(self@.requests, tg_user_id as int),
            },
    {
        let mut i: usize = 0;
        while i < self.requests.len()
            invariant
                i <= self@.requests.len(),
                self@.requests.len() == self.requests@.len(),
                self@.requests == self.requests@.map_values(|r: RegistrationRequest| r@),
                forall|j: int|
                    0 <= j < i ==> (#[trigger] self@.requests[j]).tg_user_id != tg_user_id as int,
                db_wf(self@),
            decreases self@.requests.len() - i,
        {
            if self.requests[i].tg_user_id == tg_user_id {
                proof {
                    assert(self@.requests[i as int].tg_user_id == tg_user_id as int);
                    let k = idx_user(self@.requests, tg_user_id as int);
                    assert(0 <= k < self@.requests.len() && self@.requests[k].tg_user_id
                        == tg_user_id as int);
                    if k != i as int {
                        assert(self@.requests[k].tg_user_id != self@.requests[i as int].tg_user_id);
                    }
                }
                return Some(i);
            }
            i += 1;
        }
        None
    }

    fn find_pending_id(&self, id: i64) -> (r: Option<usize>)
        requires
            self.wf(),
        ensures
            match r {
                Some(i) => i < self@.requests.len() && self@.requests[i as int].id == id as int
                    && self@.requests[i as int].status is Pending && i as int == idx_id(
                    self@.requests,
                    id as int,
                ) && has_id(self@.requests, id as int),
                None => !(has_id(self@.requests, id as int) && self@.requests[idx_id(
                    self@.requests,
                    id as int,
                )].status is Pending),
            },
    {
        let mut i: usize = 0;
        while i < self.requests.len()
            invariant
                i <= self@.requests.len(),
                self@.requests.len() == self.requests@.len(),
                self@.requests == self.requests@.map_values(|r: RegistrationRequest| r@),
                forall|j: int|
                    0 <= j < i ==> !((#[trigger] self@.requests[j]).id == id as int
                        && self@.requests[j].status is Pending),
                db_wf(self@),
            decreases self@.requests.len() - i,
        {
            let row = &self.requests[i];
            if row.id == id {
                proof {
                    let k = idx_id(self@.requests, id as int);
                    assert(self@.requests[i as int].id == id as int);
                    assert(has_id(self@.requests, id as int));
                    assert(0 <= k < self@.requests.len() && self@.requests[k].id == id as int);
                    if k != i as int {
                        assert(self@.requests[k].id != self@.requests[i as int].id);
                    }
                }
                let is_pending = match row.status {
                    RequestStatus::Pending => true,
                    _ => false,
                };
                if is_pending {
                    return Some(i);
                } else {
                    return None;
                }
            }
            i += 1;
        }
        proof {
            if has_id(self@.requests, id as int) {
                let k = idx_id(self@.requests, id as int);
                assert(0 <= k < self@.requests.len() && self@.requests[k].id == id as int);
            }
        }
        None
    }

    /// Create a pending row for an unknown identity; otherwise answer from
    /// the existing row, refreshing metadata in place while it is
    /// unresolved.  Safe to call any number of times.  A Deleted row is
    /// treated like a Pending one — metadata refreshed in place, "already
    /// pending" answered — rather than re-opened as a fresh request: the
    /// catch-all the original settled on for the one case the data model
    /// leaves open.
    pub fn register_or_get(
        &mut self,
        tg_user_id: i64,
        tg_username: Option<&str>,
        tg_display_name: Option<&str>,
        now: i64,
    ) -> (r: RegisterResult)
        requires
            old(self).wf(),
            old(self)@.next_request_id < i64::MAX as int,
        ensures
            final(self).wf(),
            ({
                let (v2, rr) = register_or_get_m(
                    old(self)@,
                    tg_user_id as int,
                    view_opt_str(tg_username),
                    view_opt_str(tg_display_name),
                    now as int,
                );
                final(self)@ == v2 && r@ == rr
            }),
    {
        let ghost v0 = self@;
        match self.find_user(tg_user_id) {
            Some(i) => {
                match self.requests[i].status {
                    RequestStatus::Approved => {
                        match &self.requests[i].secret {
                            Some(s) => RegisterResult::Approved(s.clone()),
                            None => RegisterResult::AlreadyPending,
                        }
                    },
                    RequestStatus::Rejected => RegisterResult::Rejected,
                    _ => {
                        self.requests[i].tg_username = opt_str_owned(tg_username);
                        self.requests[i].tg_display_name = opt_str_owned(tg_display_name);
                        self.requests[i].created_at = now;
                        proof {
                            let r2 = ReqView {
                                tg_username: view_opt_str(tg_username),
                                tg_display_name: view_opt_str(tg_display_name),
                                created_at: now as int,
                                ..v0.requests[i as int]
                            };
                            assert(self@.requests =~= v0.requests.update(i as int, r2));
                            assert(self@ == register_or_get_m(
                                v0,
                                tg_user_id as int,
                                view_opt_str(tg_username),
                                view_opt_str(tg_display_name),
                                now as int,
                            ).0);
                        }
                        RegisterResult::AlreadyPending
                    },
                }
            },
            None => {
                let row = RegistrationRequest {
                    id: self.next_request_id,
                    tg_user_id,
                    tg_username: opt_str_owned(tg_username),
                    tg_display_name: opt_str_owned(tg_display_name),
                    status: RequestStatus::Pending,
                    telemt_username: None,
                    secret: None,
                    created_at: now,
                    resolved_at: None,
                };
                let out = clone_req(&row);
                self.requests.push(row);
                self.next_request_id = self.next_request_id + 1;
                proof {
                    assert(self@.requests =~= v0.requests.push(out@));
                }
                RegisterResult::NewPending(out)
            },
        }
    }

    /// The pending request for an identity, if any.
    pub fn get_pending_by_tg_user(&self, tg_user_id: i64) -> (r: Option<RegistrationRequest>)
        requires
            self.wf(),
        ensures
            opt_req_view(r) == ({
                let reqs = self@.requests;
                if has_user(reqs, tg_user_id as int) && reqs[idx_user(
                    reqs,
                    tg_user_id as int,
                )].status is Pending {
                    Some(reqs[idx_user(reqs, tg_user_id as int)])
                } else {
                    None
                }
            }),
    {
        match self.find_user(tg_user_id) {
            Some(i) => {
                let row = &self.requests[i];
                match row.status {
                    RequestStatus::Pending => Some(clone_req(row)),
                    _ => None,
                }
            },
            None => None,
        }
    }

    /// The pending request with a given id, if any.
    pub fn get_pending_by_id(&self, id: i64) -> (r: Option<RegistrationRequest>)
        requires
            self.wf(),
        ensures
            opt_req_view(r) == ({
                let reqs = self@.requests;
                if has_id(reqs, id as int) && reqs[idx_id(reqs, id as int)].status is Pending {
                    Some(reqs[idx_id(reqs, id as int)])
                } else {
                    None
                }
            }),
    {
        match self.find_pending_id(id) {
            Some(i) => Some(clone_req(&self.requests[i])),
            None => None,
        }
    }

    /// Pending -> Approved, stamping the issued credential and the
    /// resolution time; `None` (and no change) unless the row is currently
    /// pending.  Returns the prior row, so two racing calls see exactly one
    /// success.
    pub fn approve(&mut self, id: i64, telemt_username: &str, secret: &str, now: i64) -> (r: Option<
        RegistrationRequest,
    >)
        requires
            old(self).wf(),
        ensures
            final(self).wf(),
            ({
                let (v2, rr) = approve_m(
                    old(self)@,
                    id as int,
                    telemt_username@,
                    secret@,
                    now as int,
                );
                final(self)@ == v2 && opt_req_view(r) == rr
            }),
    {
        let ghost v0 = self@;
        match self.find_pending_id(id) {
            Some(i) => {
                let prior = clone_req(&self.requests[i]);
                self.requests[i].status = RequestStatus::Approved;
                self.requests[i].telemt_username = Some(telemt_username.to_owned());
                self.requests[i].secret = Some(secret.to_owned());
                self.requests[i].resolved_at = Some(now);
                proof {
                    let r2 = ReqView {
                        status: RequestStatus::Approved,
                        telemt_username: Some(telemt_username@),
                        secret: Some(secret@),
                        resolved_at: Some(now as int),
                        ..v0.requests[i as int]
                    };
                    assert(self@.requests =~= v0.requests.update(i as int, r2));
                }
                Some(prior)
            },
            None => None,
        }
    }

    /// Pending -> Rejected; `None` (and no change) unless the row is
    /// currently pending.  Returns the prior row.
    pub fn reject(&mut self, id: i64, now: i64) -> (r: Option<RegistrationRequest>)
        requires
            old(self).wf(),
        ensures
            final(self).wf(),
            ({
                let (v2, rr) = reject_m(old(self)@, id as int, now as int);
                final(self)@ == v2 && opt_req_view(r) == rr
            }),
    {
        let ghost v0 = self@;
        match self.find_pending_id(id) {
            Some(i) => {
                let prior = clone_req(&self.requests[i]);
                self.requests[i].status = RequestStatus::Rejected;
                self.requests[i].resolved_at = Some(now);
                proof {
                    let r2 = ReqView {
                        status: RequestStatus::Rejected,
                        resolved_at: Some(now as int),
                        ..v0.requests[i as int]
                    };
                    assert(self@.requests =~= v0.requests.update(i as int, r2));
                }
                Some(prior)
            },
            None => None,
        }
    }

    /// Approved -> Deleted for the identity's row; reports whether a row
    /// actually changed.  The stored credential is kept for audit.
    pub fn deactivate_user(&mut self, tg_user_id: i64) -> (r: bool)
        requires
            old(self).wf(),
        ensures
            final(self).wf(),
            ({
                let (v2, changed) = deactivate_m(old(self)@, tg_user_id as int);
                final(self)@ == v2 && r == changed
            }),
    {
        let ghost v0 = self@;
        match self.find_user(tg_user_id) {
            Some(i) => {
                let is_approved = match self.requests[i].status {
                    RequestStatus::Approved => true,
                    _ => false,
                };
                if is_approved {
                    self.requests[i].status = RequestStatus::Deleted;
                    proof {
                        let r2 = ReqView {
                            status: RequestStatus::Deleted,
                            ..v0.requests[i as int]
                        };
                        assert(self@.requests =~= v0.requests.update(i as int, r2));
                    }
                    true
                } else {
                    false
                }
            },
            None => false,
        }
    }

    /// Administrative upsert straight to Approved, regardless of prior
    /// state: the one deliberately non-monotonic transition.
    pub fn set_approved(
        &mut self,
        tg_user_id: i64,
        tg_username: Option<&str>,
        tg_display_name: Option<&str>,
        telemt_username: &str,
        secret: &str,
        now: i64,
    )
        requires
            old(self).wf(),
            old(self)@.next_request_id < i64::MAX as int,
        ensures
            final(self).wf(),
            final(self)@ == set_approved_m(
                old(self)@,
                tg_user_id as int,
                view_opt_str(tg_username),
                view_opt_str(tg_display_name),
                telemt_username@,
                secret@,
                now as int,
            ),
    {
        let ghost v0 = self@;
        match self.find_user(tg_user_id) {
            Some(i) => {
                self.requests[i].status = RequestStatus::Approved;
                self.requests[i].tg_username = opt_str_owned(tg_username);
                self.requests[i].tg_display_name = opt_str_owned(tg_display_name);
                self.requests[i].telemt_username = Some(telemt_username.to_owned());
                self.requests[i].secret = Some(secret.to_owned());
                self.requests[i].resolved_at = Some(now);
                proof {
                    let r2 = ReqView {
                        status: RequestStatus::Approved,
                        tg_username: view_opt_str(tg_username),
                        tg_display_name: view_opt_str(tg_display_name),
                        telemt_username: Some(telemt_username@),
                        secret: Some(secret@),
                        resolved_at: Some(now as int),
                        ..v0.requests[i as int]
                    };
                    assert(self@.requests =~= v0.requests.update(i as int, r2));
                }
            },
            None => {
                let row = RegistrationRequest {
                    id: self.next_request_id,
                    tg_user_id,
                    tg_username: opt_str_owned(tg_username),
                    tg_display_name: opt_str_owned(tg_display_name),
                    status: RequestStatus::Approved,
                    telemt_username: Some(telemt_username.to_owned()),
                    secret: Some(secret.to_owned()),
                    created_at: now,
                    resolved_at: Some(now),
                };
                self.requests.push(row);
                self.next_request_id = self.next_request_id + 1;
                proof {
                    assert(self@.requests =~= set_approved_m(
                        v0,
                        tg_user_id as int,
                        view_opt_str(tg_username),
                        view_opt_str(tg_display_name),
                        telemt_username@,
                        secret@,
                        now as int,
                    ).requests);
                }
            },
        }
    }

    /// The issued credential of an approved identity: `(internal username,
    /// secret)`, present only if the row is Approved and carries both.
    pub fn get_approved(&self, tg_user_id: i64) -> (r: Option<(String, String)>)
        requires
            self.wf(),
        ensures
            ({
                let reqs = self@.requests;
                if has_user(reqs, tg_user_id as int) {
                    let row = reqs[idx_user(reqs, tg_user_id as int)];
                    match (row.status, row.telemt_username, row.secret) {
                        (RequestStatus::Approved, Some(tu), Some(sec)) => r matches Some(p)
                            && p.0@ == tu && p.1@ == sec,
                        _ => r is None,
                    }
                } else {
                    r is None
                }
            }),
    {
        match self.find_user(tg_user_id) {
            Some(i) => {
                let row = &self.requests[i];
                let is_approved = match row.status {
                    RequestStatus::Approved => true,
                    _ => false,
                };
                if is_approved {
                    match (&row.telemt_username, &row.secret) {
                        (Some(tu), Some(sec)) => Some((tu.clone(), sec.clone())),
                        _ => None,
                    }
                } else {
                    None
                }
            },
            None => None,
        }
    }

    /// The identity's row in any state, if one exists.
    pub fn get_request_by_tg_user(&self, tg_user_id: i64) -> (r: Option<RegistrationRequest>)
        requires
            self.wf(),
        ensures
            opt_req_view(r) == ({
                let reqs = self@.requests;
                if has_user(reqs, tg_user_id as int) {
                    Some(reqs[idx_user(reqs, tg_user_id as int)])
                } else {
                    None
                }
            }),
    {
        match self.find_user(tg_user_id) {
            Some(i) => Some(clone_req(&self.requests[i])),
            None => None,
        }
    }

    /// The identity's row if it is currently Approved.
    pub fn get_active_user_by_tg_user(&self, tg_user_id: i64) -> (r: Option<RegistrationRequest>)
        requires
            self.wf(),
        ensures
            opt_req_view(r) == ({
                let reqs = self@.requests;
                if has_user(reqs, tg_user_id as int) && reqs[idx_user(
                    reqs,
                    tg_user_id as int,
                )].status is Approved {
                    Some(reqs[idx_user(reqs, tg_user_id as int)])
                } else {
                    None
                }
            }),
    {
        match self.find_user(tg_user_id) {
            Some(i) => {
                let row = &self.requests[i];
                match row.status {
                    RequestStatus::Approved => Some(clone_req(row)),
                    _ => None,
                }
            },
            None => None,
        }
    }
}


// ---------------------------------------------------------------------------
// transition models for the token table
// ---------------------------------------------------------------------------

/// The token predicate of the data model: active, unexpired (strictly — a
/// token is unusable at the exact expiry instant), and under its cap.
pub open spec fn token_usable(t: TokenView, now: int) -> bool {
    t.is_active && now < t.expires_at && (t.max_usage is Some ==> t.usage_count
        < t.max_usage->0)
}

pub open spec fn consumed_of(t: TokenView) -> ConsumedTokenView {
    ConsumedTokenView {
        id: t.id,
        token: t.token,
        mode: if t.auto_approve {
            TokenMode::AutoApprove
        } else {
            TokenMode::Manual
        },
        expires_at: t.expires_at,
        created_by: t.created_by,
        usage_count: t.usage_count,
        max_usage: t.max_usage,
    }
}

/// Model of `consume_invite_token`: one conditional increment.  The
/// usage slot is taken if and only if the token is usable at `now`; a
/// failed attempt changes nothing and classifies the reason in a fixed
/// order: unknown string, revoked, expired, exhausted.  (A counter at the
/// machine maximum counts as exhausted: the store cannot count further.)
pub open spec fn consume_m(v: DbView, tok: Seq<char>, now: int) -> (
    DbView,
    Result<ConsumedTokenView, TokenConsumeError>,
) {
    if !has_tok(v.tokens, tok) {
        (v, Err(TokenConsumeError::NotFound))
    } else {
        let i = idx_tok(v.tokens, tok);
        let t = v.tokens[i];
        if !t.is_active {
            (v, Err(TokenConsumeError::Revoked))
        } else if t.expires_at <= now {
            (v, Err(TokenConsumeError::Expired))
        } else if (t.max_usage is Some && t.usage_count >= t.max_usage->0) || t.usage_count
            == i64::MAX as int {
            (v, Err(TokenConsumeError::UsageLimitReached))
        } else {
            let t2 = TokenView { usage_count: t.usage_count + 1, ..t };
            (DbView { tokens: v.tokens.update(i, t2), ..v }, Ok(consumed_of(t2)))
        }
    }
}

/// Model of `revoke_invite_token`: clear `is_active` and stamp the
/// revocation time if and only if the token is currently active; report
/// whether anything changed.
pub open spec fn revoke_m(v: DbView, tok: Seq<char>, now: int) -> (DbView, bool) {
    if has_tok(v.tokens, tok) && v.tokens[idx_tok(v.tokens, tok)].is_active {
        let i = idx_tok(v.tokens, tok);
        let t2 = TokenView { is_active: false, revoked_at: Some(now), ..v.tokens[i] };
        (DbView { tokens: v.tokens.update(i, t2), ..v }, true)
    } else {
        (v, false)
    }
}

pub open spec fn consumed_result_view(r: Result<ConsumedInviteToken, TokenConsumeError>) -> Result<
    ConsumedTokenView,
    TokenConsumeError,
> {
    match r {
        Ok(c) => Ok(c@),
        Err(e) => Err(e),
    }
}

// ---------------------------------------------------------------------------
// counting and ordering specs
// ---------------------------------------------------------------------------

pub open spec fn is_status(st: RequestStatus) -> spec_fn(ReqView) -> bool {
    |r: ReqView| r.status == st
}

pub open spec fn count_status(reqs: Seq<ReqView>, st: RequestStatus) -> int {
    reqs.filter(is_status(st)).len() as int
}

/// Every row has exactly one status, so the four counts partition the
/// table.
pub proof fn lemma_status_partition(reqs: Seq<ReqView>)
    ensures
        count_status(reqs, RequestStatus::Pending) + count_status(reqs, RequestStatus::Approved)
            + count_status(reqs, RequestStatus::Rejected) + count_status(
            reqs,
            RequestStatus::Deleted,
        ) == reqs.len(),
    decreases reqs.len(),
{
    reveal(Seq::filter);
    if reqs.len() > 0 {
        lemma_status_partition(reqs.drop_last());
    }
}

pub open spec fn sorted_by_created(s: Seq<ReqView>, asc: bool) -> bool {
    forall|i: int, j: int|
        0 <= i < j < s.len() ==> if asc {
            (#[trigger] s[i]).created_at <= (#[trigger] s[j]).created_at
        } else {
            s[i].created_at >= s[j].created_at
        }
}

pub open spec fn sorted_by_expiry(s: Seq<TokenView>) -> bool {
    forall|i: int, j: int|
        0 <= i < j < s.len() ==> (#[trigger] s[i]).expires_at <= (#[trigger] s[j]).expires_at
}

/// Distinct identifiers drawn from `[1, next)` bound the number of rows.
pub proof fn lemma_distinct_ids_bound(ids: Seq<int>, next: int)
    requires
        1 <= next,
        forall|i: int| 0 <= i < ids.len() ==> 1 <= #[trigger] ids[i] < next,
        forall|i: int, j: int| 0 <= i < j < ids.len() ==> ids[i] != ids[j],
    ensures
        ids.len() < next,
{
    assert(ids.no_duplicates());
    ids.unique_seq_to_set();
    let range = vstd::set_lib::set_int_range(1, next);
    vstd::set_lib::lemma_int_range(1, next);
    assert(ids.to_set().subset_of(range)) by {
        assert forall|x: int| ids.to_set().contains(x) implies range.contains(x) by {
            assert(ids.contains(x));
        }
    }
    vstd::set_lib::lemma_len_subset(ids.to_set(), range);
}

pub proof fn lemma_reqs_len_bound(reqs: Seq<ReqView>, next: int)
    requires
        reqs_wf(reqs, next),
        1 <= next,
    ensures
        reqs.len() < next,
{
    let ids = reqs.map_values(|r: ReqView| r.id);
    assert forall|i: int, j: int| 0 <= i < j < ids.len() implies ids[i] != ids[j] by {
        assert(reqs[i].id != reqs[j].id);
    }
    lemma_distinct_ids_bound(ids, next);
}

/// A prefix of a sequence is a sub-multiset of the whole.
pub proof fn lemma_take_to_multiset_le<A>(s: Seq<A>, k: int)
    requires
        0 <= k <= s.len(),
    ensures
        s.take(k).to_multiset().subset_of(s.to_multiset()),
{
    assert(s =~= s.take(k) + s.skip(k));
    vstd::seq_lib::lemma_multiset_commutative(s.take(k), s.skip(k));
    assert forall|x: A|
        s.take(k).to_multiset().count(x) <= s.to_multiset().count(x) by {
        assert(s.to_multiset().count(x) == s.take(k).to_multiset().count(x) + s.skip(
            k,
        ).to_multiset().count(x));
    }
}

// ---------------------------------------------------------------------------
// sorting helpers (selection sort, proved stable as multisets)
// ---------------------------------------------------------------------------

pub open spec fn req_views(v: Seq<RegistrationRequest>) -> Seq<ReqView> {
    v.map_values(|r: RegistrationRequest| r@)
}

pub open spec fn token_views(v: Seq<InviteToken>) -> Seq<TokenView> {
    v.map_values(|t: InviteToken| t@)
}

fn sort_reqs_by_created(input: Vec<RegistrationRequest>, asc: bool) -> (out: Vec<
    RegistrationRequest,
>)
    ensures
        req_views(out@).to_multiset() == req_views(input@).to_multiset(),
        out@.len() == input@.len(),
        asc ==> ordered_by(req_views(out@), oldest_leq()),
        !asc ==> ordered_by(req_views(out@), newest_leq()),
{
    broadcast use {vstd::seq_lib::group_to_multiset_ensures, vstd::multiset::group_multiset_axioms};

    let ghost full = req_views(input@);
    let mut work = input;
    let mut out: Vec<RegistrationRequest> = Vec::new();
    while work.len() > 0
        invariant
            req_views(out@).to_multiset().add(req_views(work@).to_multiset())
                == full.to_multiset(),
            out@.len() + work@.len() == full.len(),
            asc ==> ordered_by(req_views(out@), oldest_leq()),
            !asc ==> ordered_by(req_views(out@), newest_leq()),
            forall|i: int, j: int|
                0 <= i < out@.len() && 0 <= j < work@.len() ==> if asc {
                    req_oldest_first(
                        #[trigger] req_views(out@)[i],
                        #[trigger] req_views(work@)[j],
                    )
                } else {
                    req_newest_first(req_views(out@)[i], req_views(work@)[j])
                },
        decreases work.len(),
    {
        let mut m: usize = 0;
        let mut k: usize = 1;
        while k < work.len()
            invariant
                m < k <= work@.len(),
                work@.len() > 0,
                forall|j: int|
                    0 <= j < k ==> if asc {
                        req_oldest_first(
                            #[trigger] req_views(work@)[m as int],
                            req_views(work@)[j],
                        )
                    } else {
                        req_newest_first(req_views(work@)[m as int], req_views(work@)[j])
                    },
            decreases work@.len() - k,
        {
            let better = if asc {
                work[k].created_at < work[m].created_at || (work[k].created_at
                    == work[m].created_at && work[k].id < work[m].id)
            } else {
                work[k].created_at > work[m].created_at || (work[k].created_at
                    == work[m].created_at && work[k].id < work[m].id)
            };
            if better {
                m = k;
            }
            k += 1;
        }
        let ghost old_work = work@;
        let ghost old_out = out@;
        let x = work.remove(m);
        out.push(x);
        proof {
            broadcast use {vstd::seq_lib::group_to_multiset_ensures, vstd::multiset::group_multiset_axioms};

            assert(req_views(old_work.remove(m as int)) =~= req_views(old_work).remove(m as int));
            assert(req_views(old_out.push(x)) =~= req_views(old_out).push(x@));
            assert(req_views(old_work).to_multiset().count(x@) > 0) by {
                assert(req_views(old_work)[m as int] == x@);
                assert(req_views(old_work).contains(x@));
            }
            assert(req_views(out@).to_multiset().add(req_views(work@).to_multiset())
                =~= req_views(old_out).to_multiset().add(req_views(old_work).to_multiset()));
            if asc {
                assert(ordered_by(req_views(out@), oldest_leq())) by {
                    assert(forall|i: int|
                        0 <= i < old_out.len() ==> #[trigger] req_views(out@)[i] == req_views(
                            old_out,
                        )[i]);
                    assert(req_views(out@)[old_out.len() as int] == x@);
                }
            } else {
                assert(ordered_by(req_views(out@), newest_leq())) by {
                    assert(forall|i: int|
                        0 <= i < old_out.len() ==> #[trigger] req_views(out@)[i] == req_views(
                            old_out,
                        )[i]);
                    assert(req_views(out@)[old_out.len() as int] == x@);
                }
            }
        }
    }
    out
}

fn sort_tokens_by_expiry(input: Vec<InviteToken>) -> (out: Vec<InviteToken>)
    ensures
        token_views(out@).to_multiset() == token_views(input@).to_multiset(),
        out@.len() == input@.len(),
        ordered_by(token_views(out@), expiry_leq()),
{
    broadcast use {vstd::seq_lib::group_to_multiset_ensures, vstd::multiset::group_multiset_axioms};

    let ghost full = token_views(input@);
    let mut work = input;
    let mut out: Vec<InviteToken> = Vec::new();
    while work.len() > 0
        invariant
            token_views(out@).to_multiset().add(token_views(work@).to_multiset())
                == full.to_multiset(),
            out@.len() + work@.len() == full.len(),
            ordered_by(token_views(out@), expiry_leq()),
            forall|i: int, j: int|
                0 <= i < out@.len() && 0 <= j < work@.len() ==> token_soonest_expiry(
                    #[trigger] token_views(out@)[i],
                    #[trigger] token_views(work@)[j],
                ),
        decreases work.len(),
    {
        let mut m: usize = 0;
        let mut k: usize = 1;
        while k < work.len()
            invariant
                m < k <= work@.len(),
                work@.len() > 0,
                forall|j: int|
                    0 <= j < k ==> token_soonest_expiry(
                        #[trigger] token_views(work@)[m as int],
                        token_views(work@)[j],
                    ),
            decreases work@.len() - k,
        {
            if work[k].expires_at < work[m].expires_at || (work[k].expires_at
                == work[m].expires_at && work[k].id < work[m].id) {
                m = k;
            }
            k += 1;
        }
        let ghost old_work = work@;
        let ghost old_out = out@;
        let x = work.remove(m);
        out.push(x);
        proof {
            broadcast use {vstd::seq_lib::group_to_multiset_ensures, vstd::multiset::group_multiset_axioms};

            assert(token_views(old_work.remove(m as int)) =~= token_views(old_work).remove(
                m as int,
            ));
            assert(token_views(old_out.push(x)) =~= token_views(old_out).push(x@));
            assert(token_views(old_work).to_multiset().count(x@) > 0) by {
                assert(token_views(old_work)[m as int] == x@);
                assert(token_views(old_work).contains(x@));
            }
            assert(token_views(out@).to_multiset().add(token_views(work@).to_multiset())
                =~= token_views(old_out).to_multiset().add(token_views(old_work).to_multiset()));
            assert(ordered_by(token_views(out@), expiry_leq())) by {
                assert(forall|i: int|
                    0 <= i < old_out.len() ==> #[trigger] token_views(out@)[i] == token_views(
                        old_out,
                    )[i]);
                assert(token_views(out@)[old_out.len() as int] == x@);
            }
        }
    }
    out
}

// ---------------------------------------------------------------------------
// trusted randomness
// ---------------------------------------------------------------------------

/// Relies on rand's `Alphanumeric` distribution: `sample_string` returns a
/// string of exactly the requested number of characters, each drawn from
/// a-z, A-Z, 0-9.  Nothing is assumed about which characters come back.
#[verifier::external_body]
fn generate_invite_token() -> (r: String)
    ensures
        r@.len() == 10,
        forall|i: int| 0 <= i < r@.len() ==> crate::strutil::is_alnum_c(#[trigger] r@[i]),
{
    rand::distr::SampleString::sample_string(&rand::distr::Alphanumeric, &mut rand::rng(), 10)
}

// ---------------------------------------------------------------------------
// token operations
// ---------------------------------------------------------------------------

impl Db {
    fn find_tok(&self, token: &str) -> (r: Option<usize>)
        requires
            self.wf(),
        ensures
            match r {
                Some(i) => i < self@.tokens.len() && self@.tokens[i as int].token == token@
                    && i as int == idx_tok(self@.tokens, token@) && has_tok(self@.tokens, token@),
                None => !has_tok(self@.tokens, token@),
            },
    {
        let mut i: usize = 0;
        while i < self.tokens.len()
            invariant
                i <= self@.tokens.len(),
                self@.tokens.len() == self.tokens@.len(),
                self@.tokens == self.tokens@.map_values(|t: InviteToken| t@),
                forall|j: int| 0 <= j < i ==> (#[trigger] self@.tokens[j]).token != token@,
                db_wf(self@),
            decreases self@.tokens.len() - i,
        {
            if crate::strutil::str_eq(self.tokens[i].token.as_str(), token) {
                proof {
                    let k = idx_tok(self@.tokens, token@);
                    assert(self@.tokens[i as int].token == token@);
                    assert(has_tok(self@.tokens, token@));
                    assert(0 <= k < self@.tokens.len() && self@.tokens[k].token == token@);
                    if k != i as int {
                        assert(self@.tokens[k].token != self@.tokens[i as int].token);
                    }
                }
                return Some(i);
            }
            i += 1;
        }
        None
    }

    /// Mint a token: lifetime of `days` full days from `now` (rejected
    /// below one day or past the timestamp range), an optional usage cap,
    /// usage starting at zero, active.  The opaque string is random; its
    /// uniqueness is enforced against the store with a bounded number of
    /// retries, so a (vanishingly unlikely) run of collisions reports
    /// `TokenCollision` and changes nothing.
    pub fn create_invite_token(
        &mut self,
        days: i64,
        auto_approve: bool,
        max_usage: Option<i64>,
        created_by: Option<i64>,
        now: i64,
    ) -> (r: Result<InviteToken, TokenCreateError>)
        requires
            old(self).wf(),
            old(self)@.next_token_id < i64::MAX as int,
        ensures
            final(self).wf(),
            final(self)@.requests == old(self)@.requests,
            final(self)@.next_request_id == old(self)@.next_request_id,
            days < 1 ==> r == Err::<InviteToken, TokenCreateError>(TokenCreateError::InvalidDays)
                && final(self)@ == old(self)@,
            days >= 1 && days as int * 86400 > i64::MAX as int ==> r == Err::<
                InviteToken,
                TokenCreateError,
            >(TokenCreateError::ExpiryOverflow) && final(self)@ == old(self)@,
            days >= 1 && days as int * 86400 <= i64::MAX as int && now as int + days as int * 86400
                > i64::MAX as int ==> r == Err::<InviteToken, TokenCreateError>(
                TokenCreateError::ExpiryOverflow,
            ) && final(self)@ == old(self)@,
            r == Err::<InviteToken, TokenCreateError>(TokenCreateError::InvalidDays) ==> days < 1,
            r == Err::<InviteToken, TokenCreateError>(TokenCreateError::ExpiryOverflow) ==> days
                >= 1 && (days as int * 86400 > i64::MAX as int || now as int + days as int * 86400
                > i64::MAX as int),
            r == Err::<InviteToken, TokenCreateError>(TokenCreateError::TokenCollision)
                ==> final(self)@ == old(self)@ && old(self)@.tokens.len() > 0,
            days >= 1 && now as int + days as int * 86400 <= i64::MAX as int && days as int * 86400
                <= i64::MAX as int && old(self)@.tokens.len() == 0 ==> r is Ok,
            r matches Ok(t) ==> ({
                &&& days >= 1
                &&& now as int + days as int * 86400 <= i64::MAX as int
                &&& t@.id == old(self)@.next_token_id
                &&& t@.token.len() == 10
                &&& !has_tok(old(self)@.tokens, t@.token)
                &&& t@.created_at == now as int
                &&& t@.expires_at == now as int + days as int * 86400
                &&& t@.auto_approve == auto_approve
                &&& t@.created_by == view_opt_i64(created_by)
                &&& t@.usage_count == 0
                &&& t@.max_usage == view_opt_i64(max_usage)
                &&& t@.is_active
                &&& t@.revoked_at is None
                &&& final(self)@.tokens == old(self)@.tokens.push(t@)
                &&& final(self)@.next_token_id == old(self)@.next_token_id + 1
            }),
    {
        if days < 1 {
            return Err(TokenCreateError::InvalidDays);
        }
        let maxdays = i64::MAX / 86400;
        if days > maxdays {
            proof {
                assert(days as int * 86400 > i64::MAX as int) by (nonlinear_arith)
                    requires
                        days as int >= maxdays as int + 1,
                        maxdays == i64::MAX / 86400,
                ;
            }
            return Err(TokenCreateError::ExpiryOverflow);
        }
        proof {
            assert(days as int * 86400 <= i64::MAX as int) by (nonlinear_arith)
                requires
                    1 <= days as int <= maxdays as int,
                    maxdays == i64::MAX / 86400,
            ;
        }
        let ttl = days * 86400;
        if now > i64::MAX - ttl {
            return Err(TokenCreateError::ExpiryOverflow);
        }
        let expires_at = now + ttl;
        let ghost v0 = self@;
        let mut attempts: usize = 0;
        while attempts < 8
            invariant
                self@ == v0,
                v0 == old(self)@,
                db_wf(v0),
                v0.next_token_id < i64::MAX as int,
                expires_at as int == now as int + days as int * 86400,
                days as int * 86400 <= i64::MAX as int,
                days >= 1,
                attempts > 0 ==> v0.tokens.len() > 0,
            decreases 8 - attempts,
        {
            let tok = generate_invite_token();
            match self.find_tok(tok.as_str()) {
                Some(_) => {
                    attempts += 1;
                },
                None => {
                    let row = InviteToken {
                        id: self.next_token_id,
                        token: tok,
                        created_at: now,
                        expires_at,
                        auto_approve,
                        created_by,
                        usage_count: 0,
                        max_usage,
                        is_active: true,
                        revoked_at: None,
                    };
                    let out = clone_token(&row);
                    self.tokens.push(row);
                    self.next_token_id = self.next_token_id + 1;
                    proof {
                        assert(self@.tokens =~= v0.tokens.push(out@));
                    }
                    return Ok(out);
                },
            }
        }
        Err(TokenCreateError::TokenCollision)
    }

    /// The single conditional increment at the heart of token consumption:
    /// succeeds, with the post-increment row, if and only if the token is
    /// usable at `now`; otherwise changes nothing and names the reason.
    pub fn consume_invite_token(&mut self, token: &str, now: i64) -> (r: Result<
        ConsumedInviteToken,
        TokenConsumeError,
    >)
        requires
            old(self).wf(),
        ensures
            final(self).wf(),
            ({
                let (v2, rr) = consume_m(old(self)@, token@, now as int);
                final(self)@ == v2 && consumed_result_view(r) == rr
            }),
    {
        let ghost v0 = self@;
        match self.find_tok(token) {
            None => Err(TokenConsumeError::NotFound),
            Some(i) => {
                if !self.tokens[i].is_active {
                    return Err(TokenConsumeError::Revoked);
                }
                if self.tokens[i].expires_at <= now {
                    return Err(TokenConsumeError::Expired);
                }
                let exhausted = match self.tokens[i].max_usage {
                    Some(m) => self.tokens[i].usage_count >= m,
                    None => false,
                };
                if exhausted || self.tokens[i].usage_count == i64::MAX {
                    return Err(TokenConsumeError::UsageLimitReached);
                }
                self.tokens[i].usage_count = self.tokens[i].usage_count + 1;
                let row = &self.tokens[i];
                let consumed = ConsumedInviteToken {
                    id: row.id,
                    token: row.token.clone(),
                    mode: if row.auto_approve {
                        TokenMode::AutoApprove
                    } else {
                        TokenMode::Manual
                    },
                    expires_at: row.expires_at,
                    created_by: row.created_by,
                    usage_count: row.usage_count,
                    max_usage: row.max_usage,
                };
                proof {
                    let t2 = TokenView {
                        usage_count: v0.tokens[i as int].usage_count + 1,
                        ..v0.tokens[i as int]
                    };
                    assert(self@.tokens =~= v0.tokens.update(i as int, t2));
                }
                Ok(consumed)
            },
        }
    }

    /// Revocation: clears `is_active` and stamps `revoked_at` if and only
    /// if the token was active; reports whether a revocation actually
    /// occurred.
    pub fn revoke_invite_token(&mut self, token: &str, now: i64) -> (r: bool)
        requires
            old(self).wf(),
        ensures
            final(self).wf(),
            ({
                let (v2, changed) = revoke_m(old(self)@, token@, now as int);
                final(self)@ == v2 && r == changed
            }),
    {
        let ghost v0 = self@;
        match self.find_tok(token) {
            None => false,
            Some(i) => {
                if self.tokens[i].is_active {
                    self.tokens[i].is_active = false;
                    self.tokens[i].revoked_at = Some(now);
                    proof {
                        let t2 = TokenView {
                            is_active: false,
                            revoked_at: Some(now as int),
                            ..v0.tokens[i as int]
                        };
                        assert(self@.tokens =~= v0.tokens.update(i as int, t2));
                    }
                    true
                } else {
                    false
                }
            },
        }
    }

    /// The usable tokens at `now`, soonest expiry first, at most `limit`
    /// rows.
    pub fn list_active_invite_tokens(&self, limit: i64, now: i64) -> (r: Vec<InviteToken>)
        requires
            self.wf(),
            limit >= 0,
        ensures
            ({
                let usable = self@.tokens.filter(usable_at(now as int));
                let listing = token_listing(self@, now as int);
                let outv = token_views(r@);
                &&& outv.len() == if usable.len() <= limit as int {
                    usable.len() as int
                } else {
                    limit as int
                }
                &&& sorted_by_expiry(outv)
                &&& outv.to_multiset().subset_of(usable.to_multiset())
                &&& usable.len() <= limit as int ==> outv.to_multiset() == usable.to_multiset()
                &&& ordered_by(listing, expiry_leq())
                &&& listing.to_multiset() == usable.to_multiset()
                &&& listing.len() == usable.len()
                &&& outv == listing.take(outv.len() as int)
            }),
    {
        let ghost pred = usable_at(now as int);
        let mut picked: Vec<InviteToken> = Vec::new();
        let mut i: usize = 0;
        while i < self.tokens.len()
            invariant
                i <= self@.tokens.len(),
                self@.tokens.len() == self.tokens@.len(),
                self@.tokens == self.tokens@.map_values(|t: InviteToken| t@),
                pred == usable_at(now as int),
                token_views(picked@) == self@.tokens.take(i as int).filter(pred),
            decreases self@.tokens.len() - i,
        {
            let t = &self.tokens[i];
            let under_cap = match t.max_usage {
                Some(m) => t.usage_count < m,
                None => true,
            };
            let usable_now = t.is_active && now < t.expires_at && under_cap;
            proof {
                reveal(Seq::filter);
                assert(self@.tokens.take(i + 1).drop_last() =~= self@.tokens.take(i as int));
                assert(self@.tokens.take(i + 1).last() == self@.tokens[i as int]);
            }
            if usable_now {
                picked.push(clone_token(t));
                proof {
                    reveal(Seq::filter);
                    assert(token_views(picked@) =~= self@.tokens.take(i + 1).filter(pred));
                }
            } else {
                proof {
                    reveal(Seq::filter);
                    assert(token_views(picked@) =~= self@.tokens.take(i + 1).filter(pred));
                }
            }
            i += 1;
        }
        proof {
            assert(self@.tokens.take(self@.tokens.len() as int) =~= self@.tokens);
        }
        let sorted = sort_tokens_by_expiry(picked);
        let ghost usable = self@.tokens.filter(pred);
        // emit at most `limit` rows
        let mut out: Vec<InviteToken> = Vec::new();
        let mut emitted: i64 = 0;
        let mut k: usize = 0;
        while k < sorted.len() && emitted < limit
            invariant
                0 <= emitted,
                emitted as int == k as int,
                k <= sorted@.len(),
                emitted <= limit,
                token_views(out@) == token_views(sorted@).take(k as int),
            decreases sorted@.len() - k,
        {
            let c = clone_token(&sorted[k]);
            let ghost prev = out@;
            out.push(c);
            proof {
                assert(token_views(prev.push(c)) =~= token_views(prev).push(c@));
                assert(token_views(sorted@).take(k + 1) =~= token_views(prev).push(c@));
            }
            k += 1;
            emitted += 1;
        }
        proof {
            let sv = token_views(sorted@);
            assert(sv.to_multiset() == usable.to_multiset());
            assert(sv.len() == usable.len());
            lemma_take_to_multiset_le(sv, k as int);
            if usable.len() <= limit as int {
                assert(k as int == sv.len());
                assert(sv.take(k as int) =~= sv);
            }
            assert(sorted_by_expiry(token_views(out@))) by {
                assert(forall|a: int|
                    0 <= a < k as int ==> token_views(out@)[a] == sv[a]);
            }
            // `sv` is the one soonest-expiry listing of the usable tokens
            let key = |tv: TokenView| tv.id;
            assert forall|i: int, j: int| #![trigger self@.tokens[i], self@.tokens[j]]
                0 <= i < j < self@.tokens.len() implies key(self@.tokens[i]) != key(
                self@.tokens[j],
            ) by {}
            lemma_filter_multiset_le(self@.tokens, pred);
            lemma_submultiset_distinct_key(self@.tokens, usable, key);
            assert(sv.to_multiset().subset_of(usable.to_multiset()));
            lemma_submultiset_distinct_key(usable, sv, key);
            assert forall|i: int, j: int| #![trigger sv[i], sv[j]]
                0 <= i < j < sv.len() implies !(expiry_leq()(sv[i], sv[j]) && expiry_leq()(
                sv[j],
                sv[i],
            )) by {
                assert(key(sv[i]) != key(sv[j]));
            }
            let listing = token_listing(self@, now as int);
            assert(ordered_by(listing, expiry_leq()) && listing.to_multiset()
                == usable.to_multiset()) by {
                assert(ordered_by(sv, expiry_leq()) && sv.to_multiset() == usable.to_multiset());
            }
            lemma_ordered_unique(listing, sv, expiry_leq());
            vstd::seq_lib::to_multiset_len(listing);
            vstd::seq_lib::to_multiset_len(usable);
            assert(token_views(out@) == listing.take(token_views(out@).len() as int));
        }
        out
    }
}



// ---------------------------------------------------------------------------
// listing, counting, and name lookup
// ---------------------------------------------------------------------------

/// Any contiguous slice of a sequence is a sub-multiset of the whole.
pub proof fn lemma_subrange_to_multiset_le<A>(s: Seq<A>, a: int, b: int)
    requires
        0 <= a <= b <= s.len(),
    ensures
        s.subrange(a, b).to_multiset().subset_of(s.to_multiset()),
{
    assert(s =~= (s.subrange(0, a) + s.subrange(a, b)) + s.subrange(b, s.len() as int));
    vstd::seq_lib::lemma_multiset_commutative(
        s.subrange(0, a) + s.subrange(a, b),
        s.subrange(b, s.len() as int),
    );
    vstd::seq_lib::lemma_multiset_commutative(s.subrange(0, a), s.subrange(a, b));
    assert forall|x: A|
        s.subrange(a, b).to_multiset().count(x) <= s.to_multiset().count(x) by {
        assert(s.to_multiset().count(x) == s.subrange(0, a).to_multiset().count(x) + s.subrange(
            a,
            b,
        ).to_multiset().count(x) + s.subrange(b, s.len() as int).to_multiset().count(x));
    }
}


// ---------------------------------------------------------------------------
// canonical listings
// ---------------------------------------------------------------------------
//
// Each listing endpoint returns a slice of one fixed ordering of the rows
// it lists, so that successive pages are disjoint and together enumerate
// the rows exactly once.  The order is by the listing's key with the
// unique row id as tie-break, which makes the ordered sequence unique;
// `pending_listing`, `user_listing` and `token_listing` name it.

/// "a sits no later than b" in the oldest-first request listing.
pub open spec fn req_oldest_first(a: ReqView, b: ReqView) -> bool {
    a.created_at < b.created_at || (a.created_at == b.created_at && a.id <= b.id)
}

/// "a sits no later than b" in the newest-first request listing.
pub open spec fn req_newest_first(a: ReqView, b: ReqView) -> bool {
    a.created_at > b.created_at || (a.created_at == b.created_at && a.id <= b.id)
}

/// "a sits no later than b" in the soonest-expiry token listing.
pub open spec fn token_soonest_expiry(a: TokenView, b: TokenView) -> bool {
    a.expires_at < b.expires_at || (a.expires_at == b.expires_at && a.id <= b.id)
}

pub open spec fn oldest_leq() -> spec_fn(ReqView, ReqView) -> bool {
    |a: ReqView, b: ReqView| req_oldest_first(a, b)
}

pub open spec fn newest_leq() -> spec_fn(ReqView, ReqView) -> bool {
    |a: ReqView, b: ReqView| req_newest_first(a, b)
}

pub open spec fn expiry_leq() -> spec_fn(TokenView, TokenView) -> bool {
    |a: TokenView, b: TokenView| token_soonest_expiry(a, b)
}

/// The usability predicate at one instant, as a function value.
pub open spec fn usable_at(now: int) -> spec_fn(TokenView) -> bool {
    |t: TokenView| token_usable(t, now)
}

pub open spec fn ordered_by<A>(s: Seq<A>, leq: spec_fn(A, A) -> bool) -> bool {
    forall|i: int, j: int| #![trigger s[i], s[j]] 0 <= i < j < s.len() ==> leq(s[i], s[j])
}

/// Filtering a sequence never adds occurrences.
pub proof fn lemma_filter_multiset_le<A>(s: Seq<A>, pred: spec_fn(A) -> bool)
    ensures
        s.filter(pred).to_multiset().subset_of(s.to_multiset()),
    decreases s.len(),
{
    broadcast use {vstd::seq_lib::group_to_multiset_ensures, vstd::multiset::group_multiset_axioms};

    reveal(Seq::filter);
    if s.len() == 0 {
        assert(s.filter(pred) =~= Seq::<A>::empty());
        assert(s.filter(pred).to_multiset() =~= Multiset::<A>::empty());
    } else {
        lemma_filter_multiset_le(s.drop_last(), pred);
        assert(s.drop_last().push(s.last()) =~= s);
        assert(s.to_multiset() == s.drop_last().to_multiset().insert(s.last()));
        if pred(s.last()) {
            assert(s.filter(pred) == s.drop_last().filter(pred).push(s.last()));
        }
        assert forall|x: A|
            s.filter(pred).to_multiset().count(x) <= s.to_multiset().count(x) by {
            assert(s.drop_last().filter(pred).to_multiset().count(x)
                <= s.drop_last().to_multiset().count(x));
        }
    }
}

/// A sequence whose occurrences sit within those of a sequence with
/// pairwise-distinct keys has pairwise-distinct keys itself.
pub proof fn lemma_submultiset_distinct_key<A, K>(a: Seq<A>, b: Seq<A>, key: spec_fn(A) -> K)
    requires
        b.to_multiset().subset_of(a.to_multiset()),
        forall|i: int, j: int| #![trigger a[i], a[j]] 0 <= i < j < a.len() ==> key(a[i]) != key(a[j]),
    ensures
        forall|i: int, j: int| #![trigger b[i], b[j]] 0 <= i < j < b.len() ==> key(b[i]) != key(b[j]),
{
    broadcast use {vstd::seq_lib::group_to_multiset_ensures, vstd::multiset::group_multiset_axioms};

    assert forall|i: int, j: int| #![trigger b[i], b[j]]
        0 <= i < j < b.len() implies key(b[i]) != key(b[j]) by {
        if key(b[i]) == key(b[j]) {
            let x = b[i];
            if b[i] == b[j] {
                // the value occurs twice in b, hence twice in a, hence at
                // two indices of a with the same key
                assert(b.remove(i).to_multiset() == b.to_multiset().remove(x));
                assert(b.remove(i)[j - 1] == x);
                assert(b.remove(i).contains(x));
                assert(b.remove(i).to_multiset().count(x) > 0);
                assert(b.to_multiset().count(x) >= 2);
                assert(a.to_multiset().count(x) >= 2);
                assert(a.to_multiset().count(x) > 0);
                assert(a.contains(x));
                let p = choose|p: int| 0 <= p < a.len() && a[p] == x;
                assert(a.remove(p).to_multiset() == a.to_multiset().remove(x));
                assert(a.remove(p).to_multiset().count(x) > 0);
                assert(a.remove(p).contains(x));
                let q0 = choose|q0: int| 0 <= q0 < a.remove(p).len() && a.remove(p)[q0] == x;
                let q: int = if q0 < p {
                    q0
                } else {
                    q0 + 1
                };
                assert(a[q] == x);
                assert(q != p);
                if p < q {
                    assert(key(a[p]) != key(a[q]));
                } else {
                    assert(key(a[q]) != key(a[p]));
                }
            } else {
                // two different values with one key, both occurring in a
                assert(b.contains(b[i]) && b.contains(b[j]));
                assert(b.to_multiset().count(b[i]) > 0 && b.to_multiset().count(b[j]) > 0);
                assert(a.to_multiset().count(b[i]) > 0 && a.to_multiset().count(b[j]) > 0);
                assert(a.contains(b[i]) && a.contains(b[j]));
                let p = choose|p: int| 0 <= p < a.len() && a[p] == b[i];
                let q = choose|q: int| 0 <= q < a.len() && a[q] == b[j];
                assert(p != q);
                if p < q {
                    assert(key(a[p]) != key(a[q]));
                } else {
                    assert(key(a[q]) != key(a[p]));
                }
            }
            assert(false);
        }
    }
}

/// Two sequences ordered by one relation, with the same occurrences and no
/// tied pair in the second, are the same sequence: the listing order is
/// unique.
pub proof fn lemma_ordered_unique<A>(s1: Seq<A>, s2: Seq<A>, leq: spec_fn(A, A) -> bool)
    requires
        ordered_by(s1, leq),
        ordered_by(s2, leq),
        s1.to_multiset() == s2.to_multiset(),
        forall|i: int, j: int| #![trigger s2[i], s2[j]]
            0 <= i < j < s2.len() ==> !(leq(s2[i], s2[j]) && leq(s2[j], s2[i])),
    ensures
        s1 == s2,
    decreases s1.len(),
{
    broadcast use {vstd::seq_lib::group_to_multiset_ensures, vstd::multiset::group_multiset_axioms};

    vstd::seq_lib::to_multiset_len(s1);
    vstd::seq_lib::to_multiset_len(s2);
    assert(s1.len() == s2.len());
    if s1.len() == 0 {
        assert(s1 =~= s2);
    } else {
        let h1 = s1[0];
        let h2 = s2[0];
        if h1 != h2 {
            assert(s1.contains(h1));
            assert(s1.to_multiset().count(h1) > 0);
            assert(s2.to_multiset().count(h1) > 0);
            assert(s2.contains(h1));
            let k = choose|k: int| 0 <= k < s2.len() && s2[k] == h1;
            assert(k != 0);
            assert(leq(s2[0], s2[k]));
            assert(s2.contains(h2));
            assert(s2.to_multiset().count(h2) > 0);
            assert(s1.to_multiset().count(h2) > 0);
            assert(s1.contains(h2));
            let m = choose|m: int| 0 <= m < s1.len() && s1[m] == h2;
            assert(m != 0);
            assert(leq(s1[0], s1[m]));
            assert(!(leq(s2[0], s2[k]) && leq(s2[k], s2[0])));
            assert(false);
        }
        let t1 = s1.drop_first();
        let t2 = s2.drop_first();
        assert(s1.remove(0) =~= t1);
        assert(s2.remove(0) =~= t2);
        assert(s1.remove(0).to_multiset() == s1.to_multiset().remove(h1));
        assert(s2.remove(0).to_multiset() == s2.to_multiset().remove(h2));
        assert(t1.to_multiset() =~= t2.to_multiset());
        assert(ordered_by(t1, leq)) by {
            assert forall|i: int, j: int| #![trigger t1[i], t1[j]]
                0 <= i < j < t1.len() implies leq(t1[i], t1[j]) by {
                assert(t1[i] == s1[i + 1] && t1[j] == s1[j + 1]);
            }
        }
        assert(ordered_by(t2, leq)) by {
            assert forall|i: int, j: int| #![trigger t2[i], t2[j]]
                0 <= i < j < t2.len() implies leq(t2[i], t2[j]) by {
                assert(t2[i] == s2[i + 1] && t2[j] == s2[j + 1]);
            }
        }
        assert forall|i: int, j: int| #![trigger t2[i], t2[j]]
            0 <= i < j < t2.len() implies !(leq(t2[i], t2[j]) && leq(t2[j], t2[i])) by {
            assert(t2[i] == s2[i + 1] && t2[j] == s2[j + 1]);
        }
        lemma_ordered_unique(t1, t2, leq);
        assert(s1 =~= s2) by {
            assert(forall|i: int| 1 <= i < s1.len() ==> #[trigger] s1[i] == t1[i - 1]);
            assert(forall|i: int| 1 <= i < s2.len() ==> #[trigger] s2[i] == t2[i - 1]);
        }
    }
}

/// The pending requests in their one listing order: oldest first, ids
/// breaking ties.
pub open spec fn pending_listing(v: DbView) -> Seq<ReqView> {
    choose|s: Seq<ReqView>|
        ordered_by(s, oldest_leq()) && s.to_multiset() == v.requests.filter(
            is_status(RequestStatus::Pending),
        ).to_multiset()
}

/// The approved rows in their one listing order: newest first, ids
/// breaking ties.
pub open spec fn user_listing(v: DbView) -> Seq<ReqView> {
    choose|s: Seq<ReqView>|
        ordered_by(s, newest_leq()) && s.to_multiset() == v.requests.filter(
            is_status(RequestStatus::Approved),
        ).to_multiset()
}

/// The tokens usable at `now` in their one listing order: soonest expiry
/// first, ids breaking ties.
pub open spec fn token_listing(v: DbView, now: int) -> Seq<TokenView> {
    choose|s: Seq<TokenView>|
        ordered_by(s, expiry_leq()) && s.to_multiset() == v.tokens.filter(
            usable_at(now),
        ).to_multiset()
}

pub open spec fn is_pending(r: ReqView) -> bool {
    r.status is Pending
}

pub open spec fn is_approved(r: ReqView) -> bool {
    r.status is Approved
}

pub open spec fn username_matches(r: ReqView, q: Seq<char>) -> bool {
    r.tg_username is Some && crate::strutil::ieq(r.tg_username->0, q)
}

/// A user mention with its leading `@` markers removed.
pub open spec fn normalized_mention(s: Seq<char>) -> Seq<char> {
    s.subrange(crate::strutil::skip_idx(s, 0, |c: char| c == '@'), s.len() as int)
}

impl Db {
    fn filter_reqs(&self, want: RequestStatus) -> (out: Vec<RegistrationRequest>)
        ensures
            req_views(out@) == self@.requests.filter(is_status(want)),
    {
        let ghost pred = is_status(want);
        let mut out: Vec<RegistrationRequest> = Vec::new();
        let mut i: usize = 0;
        while i < self.requests.len()
            invariant
                i <= self@.requests.len(),
                self@.requests.len() == self.requests@.len(),
                self@.requests == self.requests@.map_values(|r: RegistrationRequest| r@),
                pred == is_status(want),
                req_views(out@) == self@.requests.take(i as int).filter(pred),
            decreases self@.requests.len() - i,
        {
            let row = &self.requests[i];
            let keep = match (row.status, want) {
                (RequestStatus::Pending, RequestStatus::Pending) => true,
                (RequestStatus::Approved, RequestStatus::Approved) => true,
                (RequestStatus::Rejected, RequestStatus::Rejected) => true,
                (RequestStatus::Deleted, RequestStatus::Deleted) => true,
                _ => false,
            };
            proof {
                reveal(Seq::filter);
                assert(self@.requests.take(i + 1).drop_last() =~= self@.requests.take(i as int));
                assert(self@.requests.take(i + 1).last() == self@.requests[i as int]);
            }
            if keep {
                out.push(clone_req(row));
                proof {
                    reveal(Seq::filter);
                    assert(req_views(out@) =~= self@.requests.take(i + 1).filter(pred));
                }
            } else {
                proof {
                    reveal(Seq::filter);
                    assert(req_views(out@) =~= self@.requests.take(i + 1).filter(pred));
                }
            }
            i += 1;
        }
        proof {
            assert(self@.requests.take(self@.requests.len() as int) =~= self@.requests);
        }
        out
    }

    /// The pending requests, oldest first, at most `limit` rows.
    pub fn list_pending_requests(&self, limit: i64) -> (r: Vec<RegistrationRequest>)
        requires
            self.wf(),
            limit >= 0,
        ensures
            ({
                let pend = self@.requests.filter(is_status(RequestStatus::Pending));
                let listing = pending_listing(self@);
                let outv = req_views(r@);
                &&& outv.len() == if pend.len() <= limit as int {
                    pend.len() as int
                } else {
                    limit as int
                }
                &&& sorted_by_created(outv, true)
                &&& outv.to_multiset().subset_of(pend.to_multiset())
                &&& pend.len() <= limit as int ==> outv.to_multiset() == pend.to_multiset()
                &&& ordered_by(listing, oldest_leq())
                &&& listing.to_multiset() == pend.to_multiset()
                &&& listing.len() == pend.len()
                &&& outv == listing.take(outv.len() as int)
            }),
    {
        let picked = self.filter_reqs(RequestStatus::Pending);
        let sorted = sort_reqs_by_created(picked, true);
        let ghost pend = self@.requests.filter(is_status(RequestStatus::Pending));
        let mut out: Vec<RegistrationRequest> = Vec::new();
        let mut emitted: i64 = 0;
        let mut k: usize = 0;
        while k < sorted.len() && emitted < limit
            invariant
                0 <= emitted,
                emitted as int == k as int,
                k <= sorted@.len(),
                emitted <= limit,
                req_views(out@) == req_views(sorted@).take(k as int),
            decreases sorted@.len() - k,
        {
            let c = clone_req(&sorted[k]);
            let ghost prev = out@;
            out.push(c);
            proof {
                assert(req_views(prev.push(c)) =~= req_views(prev).push(c@));
                assert(req_views(sorted@).take(k + 1) =~= req_views(prev).push(c@));
            }
            k += 1;
            emitted += 1;
        }
        proof {
            let sv = req_views(sorted@);
            assert(sv.to_multiset() == pend.to_multiset());
            vstd::seq_lib::to_multiset_len(sv);
            vstd::seq_lib::to_multiset_len(pend);
            lemma_take_to_multiset_le(sv, k as int);
            if pend.len() <= limit as int {
                assert(k as int == sv.len());
                assert(sv.take(k as int) =~= sv);
            }
            assert(sorted_by_created(req_views(out@), true)) by {
                assert(forall|a: int| 0 <= a < k as int ==> req_views(out@)[a] == sv[a]);
            }
            // `sv` is the one pending listing: its occurrences are the
            // pending rows', it is ordered, and ids make the order strict
            let key = |rv: ReqView| rv.id;
            assert forall|i: int, j: int| #![trigger self@.requests[i], self@.requests[j]]
                0 <= i < j < self@.requests.len() implies key(self@.requests[i]) != key(
                self@.requests[j],
            ) by {}
            lemma_filter_multiset_le(self@.requests, is_status(RequestStatus::Pending));
            lemma_submultiset_distinct_key(self@.requests, pend, key);
            assert(sv.to_multiset().subset_of(pend.to_multiset()));
            lemma_submultiset_distinct_key(pend, sv, key);
            assert forall|i: int, j: int| #![trigger sv[i], sv[j]]
                0 <= i < j < sv.len() implies !(oldest_leq()(sv[i], sv[j]) && oldest_leq()(
                sv[j],
                sv[i],
            )) by {
                assert(key(sv[i]) != key(sv[j]));
            }
            let listing = pending_listing(self@);
            assert(ordered_by(listing, oldest_leq()) && listing.to_multiset()
                == pend.to_multiset()) by {
                assert(ordered_by(sv, oldest_leq()) && sv.to_multiset() == pend.to_multiset());
            }
            lemma_ordered_unique(listing, sv, oldest_leq());
            assert(req_views(out@) == listing.take(req_views(out@).len() as int));
        }
        out
    }

    /// One page of the approved users, newest first: rows
    /// `offset .. offset + limit` of the full newest-first listing.
    pub fn list_active_users_page(&self, limit: i64, offset: i64) -> (r: Vec<RegistrationRequest>)
        requires
            self.wf(),
            limit >= 0,
            offset >= 0,
        ensures
            ({
                let appr = self@.requests.filter(is_status(RequestStatus::Approved));
                let outv = req_views(r@);
                let off = if offset as int <= appr.len() {
                    offset as int
                } else {
                    appr.len() as int
                };
                &&& outv.len() == if appr.len() - off <= limit as int {
                    appr.len() - off
                } else {
                    limit as int
                }
                &&& sorted_by_created(outv, false)
                &&& outv.to_multiset().subset_of(appr.to_multiset())
                &&& (offset == 0 && appr.len() <= limit as int) ==> outv.to_multiset()
                    == appr.to_multiset()
                &&& ordered_by(user_listing(self@), newest_leq())
                &&& user_listing(self@).to_multiset() == appr.to_multiset()
                &&& user_listing(self@).len() == appr.len()
                &&& outv == user_listing(self@).subrange(off, off + outv.len())
            }),
    {
        let picked = self.filter_reqs(RequestStatus::Approved);
        let sorted = sort_reqs_by_created(picked, false);
        let ghost appr = self@.requests.filter(is_status(RequestStatus::Approved));
        let mut k: usize = 0;
        let mut skipped: i64 = 0;
        while k < sorted.len() && skipped < offset
            invariant
                skipped as int == k as int,
                k <= sorted@.len(),
                skipped <= offset,
            decreases sorted@.len() - k,
        {
            k += 1;
            skipped += 1;
        }
        let ghost start = k as int;
        let mut out: Vec<RegistrationRequest> = Vec::new();
        let mut emitted: i64 = 0;
        while k < sorted.len() && emitted < limit
            invariant
                0 <= start <= k as int <= sorted@.len(),
                emitted as int == k as int - start,
                emitted <= limit,
                0 <= emitted,
                req_views(out@) == req_views(sorted@).subrange(start, k as int),
            decreases sorted@.len() - k,
        {
            let c = clone_req(&sorted[k]);
            let ghost prev = out@;
            out.push(c);
            proof {
                assert(req_views(prev.push(c)) =~= req_views(prev).push(c@));
                assert(req_views(sorted@).subrange(start, k + 1) =~= req_views(prev).push(c@));
            }
            k += 1;
            emitted += 1;
        }
        proof {
            let sv = req_views(sorted@);
            assert(sv.to_multiset() == appr.to_multiset());
            vstd::seq_lib::to_multiset_len(sv);
            vstd::seq_lib::to_multiset_len(appr);
            lemma_subrange_to_multiset_le(sv, start, k as int);
            if offset == 0 && appr.len() <= limit as int {
                assert(start == 0 && k as int == sv.len());
                assert(sv.subrange(0, sv.len() as int) =~= sv);
            }
            assert(sorted_by_created(req_views(out@), false)) by {
                assert(forall|a: int|
                    0 <= a < k as int - start ==> req_views(out@)[a] == sv[start + a]);
            }
            // `sv` is the one newest-first listing of the approved rows,
            // so the page is its [off, off+len) slice
            let key = |rv: ReqView| rv.id;
            assert forall|i: int, j: int| #![trigger self@.requests[i], self@.requests[j]]
                0 <= i < j < self@.requests.len() implies key(self@.requests[i]) != key(
                self@.requests[j],
            ) by {}
            lemma_filter_multiset_le(self@.requests, is_status(RequestStatus::Approved));
            lemma_submultiset_distinct_key(self@.requests, appr, key);
            assert(sv.to_multiset().subset_of(appr.to_multiset()));
            lemma_submultiset_distinct_key(appr, sv, key);
            assert forall|i: int, j: int| #![trigger sv[i], sv[j]]
                0 <= i < j < sv.len() implies !(newest_leq()(sv[i], sv[j]) && newest_leq()(
                sv[j],
                sv[i],
            )) by {
                assert(key(sv[i]) != key(sv[j]));
            }
            let listing = user_listing(self@);
            assert(ordered_by(listing, newest_leq()) && listing.to_multiset()
                == appr.to_multiset()) by {
                assert(ordered_by(sv, newest_leq()) && sv.to_multiset() == appr.to_multiset());
            }
            lemma_ordered_unique(listing, sv, newest_leq());
            assert(req_views(out@) == listing.subrange(start, start + req_views(out@).len()));
        }
        out
    }

    /// How many identities are currently approved.
    pub fn count_active_users(&self) -> (r: i64)
        requires
            self.wf(),
        ensures
            r as int == count_status(self@.requests, RequestStatus::Approved),
    {
        self.admin_stats().approved
    }

    /// Row counts by status.  The statuses partition the table, so the
    /// four counts always sum to the total.
    pub fn admin_stats(&self) -> (r: AdminStats)
        requires
            self.wf(),
        ensures
            r.total as int == self@.requests.len(),
            r.pending as int == count_status(self@.requests, RequestStatus::Pending),
            r.approved as int == count_status(self@.requests, RequestStatus::Approved),
            r.rejected as int == count_status(self@.requests, RequestStatus::Rejected),
            r.deleted as int == count_status(self@.requests, RequestStatus::Deleted),
            r.total == r.pending + r.approved + r.rejected + r.deleted,
    {
        proof {
            lemma_reqs_len_bound(self@.requests, self@.next_request_id);
        }
        let mut pending: i64 = 0;
        let mut approved: i64 = 0;
        let mut rejected: i64 = 0;
        let mut deleted: i64 = 0;
        let mut i: usize = 0;
        while i < self.requests.len()
            invariant
                i <= self@.requests.len(),
                self@.requests.len() == self.requests@.len(),
                self@.requests == self.requests@.map_values(|r: RegistrationRequest| r@),
                self@.requests.len() < i64::MAX as int,
                pending as int == count_status(self@.requests.take(i as int), RequestStatus::Pending),
                approved as int == count_status(
                    self@.requests.take(i as int),
                    RequestStatus::Approved,
                ),
                rejected as int == count_status(
                    self@.requests.take(i as int),
                    RequestStatus::Rejected,
                ),
                deleted as int == count_status(self@.requests.take(i as int), RequestStatus::Deleted),
                pending as int + approved as int + rejected as int + deleted as int == i as int,
            decreases self@.requests.len() - i,
        {
            proof {
                reveal(Seq::filter);
                lemma_status_partition(self@.requests.take(i as int));
                assert(self@.requests.take(i + 1).drop_last() =~= self@.requests.take(i as int));
                assert(self@.requests.take(i + 1).last() == self@.requests[i as int]);
                lemma_status_partition(self@.requests.take(i + 1));
            }
            match self.requests[i].status {
                RequestStatus::Pending => {
                    pending += 1;
                },
                RequestStatus::Approved => {
                    approved += 1;
                },
                RequestStatus::Rejected => {
                    rejected += 1;
                },
                RequestStatus::Deleted => {
                    deleted += 1;
                },
            }
            i += 1;
        }
        proof {
            assert(self@.requests.take(self@.requests.len() as int) =~= self@.requests);
            lemma_status_partition(self@.requests);
        }
        let total = pending + approved + rejected + deleted;
        AdminStats { total, pending, approved, rejected, deleted }
    }

    /// Look an identity up by its stored user name, ignoring ASCII case
    /// and leading `@` markers.  When several rows match (possible, since
    /// only the numeric identity is unique), one with the greatest
    /// `created_at` is returned; an empty name matches nothing.
    #[verifier::rlimit(60)]
    pub fn find_tg_user_id_by_username(&self, username: &str) -> (r: Option<i64>)
        requires
            self.wf(),
        ensures
            ({
                let q = normalized_mention(username@);
                let reqs = self@.requests;
                if q.len() == 0 {
                    r is None
                } else {
                    match r {
                        Some(uid) => exists|i: int|
                            0 <= i < reqs.len() && username_matches(#[trigger] reqs[i], q)
                                && reqs[i].tg_user_id == uid as int && (forall|j: int|
                                0 <= j < reqs.len() && username_matches(#[trigger] reqs[j], q)
                                    ==> reqs[j].created_at <= reqs[i].created_at),
                        None => forall|j: int|
                            0 <= j < reqs.len() ==> !username_matches(#[trigger] reqs[j], q),
                    }
                }
            }),
    {
        let norm = crate::strutil::strip_leading_ats(username);
        if norm.unicode_len() == 0 {
            return None;
        }
        let ghost q = normalized_mention(username@);
        let mut best: Option<usize> = None;
        let mut i: usize = 0;
        while i < self.requests.len()
            invariant
                i <= self@.requests.len(),
                self@.requests.len() == self.requests@.len(),
                self@.requests == self.requests@.map_values(|r: RegistrationRequest| r@),
                norm@ == q,
                match best {
                    Some(b) => b < i && username_matches(self@.requests[b as int], q) && (forall|
                        j: int,
                    |
                        0 <= j < i && username_matches(#[trigger] self@.requests[j], q)
                            ==> self@.requests[j].created_at <= self@.requests[b as int].created_at),
                    None => forall|j: int|
                        0 <= j < i ==> !username_matches(#[trigger] self@.requests[j], q),
                },
            decreases self@.requests.len() - i,
        {
            let row = &self.requests[i];
            let matches_q = match &row.tg_username {
                Some(u) => crate::strutil::str_ieq(u.as_str(), norm),
                None => false,
            };
            if matches_q {
                let replace = match best {
                    Some(b) => self.requests[i].created_at > self.requests[b].created_at,
                    None => true,
                };
                if replace {
                    best = Some(i);
                }
            }
            i += 1;
        }
        match best {
            Some(b) => Some(self.requests[b].tg_user_id),
            None => None,
        }
    }
}


} // verus!
