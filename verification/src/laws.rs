//! The library's laws: what holds of every sequence of operations, proved
//! over the store models that the executable methods are specified
//! against.

use vstd::prelude::*;
use crate::db::DbView;
use crate::db::TokenView;
use crate::db::ConsumedTokenView;
use crate::db::TokenConsumeError;
use crate::db::db_wf;
use crate::db::reqs_wf;
use crate::db::tokens_wf;
use crate::db::has_tok;
use crate::db::idx_tok;
use crate::db::has_id;
use crate::db::idx_id;
use crate::db::has_user;
use crate::db::idx_user;
use crate::db::consume_m;
use crate::db::approve_m;
use crate::db::register_or_get_m;

verus! {

// ---------------------------------------------------------------------------
// token capacity under repeated consumption
// ---------------------------------------------------------------------------

/// What a run of consume attempts produced: the final store, and how many
/// attempts succeeded or failed on the usage cap.
pub ghost struct ConsumeRun {
    pub store: DbView,
    pub successes: int,
    pub limit_failures: int,
}

/// The store after presenting one token string at each instant of `nows`,
/// in order, with the outcome counts.
pub open spec fn run_consumes(v: DbView, tok: Seq<char>, nows: Seq<int>) -> ConsumeRun
    decreases nows.len(),
{
    if nows.len() == 0 {
        ConsumeRun { store: v, successes: 0, limit_failures: 0 }
    } else {
        let (v1, r) = consume_m(v, tok, nows[0]);
        let rest = run_consumes(v1, tok, nows.drop_first());
        ConsumeRun {
            store: rest.store,
            successes: rest.successes + if r is Ok {
                1int
            } else {
                0int
            },
            limit_failures: rest.limit_failures + if r == Err::<
                ConsumedTokenView,
                TokenConsumeError,
            >(TokenConsumeError::UsageLimitReached) {
                1int
            } else {
                0int
            },
        }
    }
}

proof fn lemma_usage_cap_from(v: DbView, tok: Seq<char>, nows: Seq<int>, n: int, c: int)
    requires
        db_wf(v),
        has_tok(v.tokens, tok),
        ({
            let t = v.tokens[idx_tok(v.tokens, tok)];
            t.is_active && t.max_usage == Some(n) && t.usage_count == c
        }),
        0 <= c <= n,
        n < i64::MAX as int,
        forall|k: int|
            0 <= k < nows.len() ==> #[trigger] nows[k] < v.tokens[idx_tok(
                v.tokens,
                tok,
            )].expires_at,
    ensures
        ({
            let run = run_consumes(v, tok, nows);
            let t2 = run.store.tokens[idx_tok(run.store.tokens, tok)];
            &&& run.successes == if nows.len() as int <= n - c {
                nows.len() as int
            } else {
                n - c
            }
            &&& run.limit_failures == nows.len() - run.successes
            &&& db_wf(run.store)
            &&& has_tok(run.store.tokens, tok)
            &&& t2.usage_count == c + run.successes
            &&& t2.max_usage == Some(n)
            &&& t2.is_active
            &&& t2.expires_at == v.tokens[idx_tok(v.tokens, tok)].expires_at
            &&& run.store.requests == v.requests
        }),
    decreases nows.len(),
{
    if nows.len() > 0 {
        let i = idx_tok(v.tokens, tok);
        let t = v.tokens[i];
        let (v1, r) = consume_m(v, tok, nows[0]);
        if c < n {
            // a usage slot is free: the conditional increment fires
            let t2 = TokenView { usage_count: t.usage_count + 1, ..t };
            assert(v1.tokens == v.tokens.update(i, t2));
            assert(tokens_wf(v1.tokens, v1.next_token_id)) by {
                assert(forall|a: int|
                    0 <= a < v1.tokens.len() ==> #[trigger] v1.tokens[a].id == v.tokens[a].id
                        && v1.tokens[a].token == v.tokens[a].token && v1.tokens[a].usage_count
                        >= 0);
            }
            assert(has_tok(v1.tokens, tok)) by {
                assert(v1.tokens[i].token == tok);
            }
            let j = idx_tok(v1.tokens, tok);
            if j != i {
                assert(v1.tokens[j].token != v1.tokens[i].token);
            }
            assert(forall|k: int|
                0 <= k < nows.drop_first().len() ==> #[trigger] nows.drop_first()[k]
                    < v1.tokens[idx_tok(v1.tokens, tok)].expires_at);
            lemma_usage_cap_from(v1, tok, nows.drop_first(), n, c + 1);
        } else {
            // the cap is reached: the attempt fails as exhausted, untouched
            assert(r == Err::<ConsumedTokenView, TokenConsumeError>(
                TokenConsumeError::UsageLimitReached,
            ));
            assert(v1 == v);
            lemma_usage_cap_from(v1, tok, nows.drop_first(), n, c);
        }
    }
}

/// Capacity law: for a fresh token capped at `n` uses that is active and
/// unexpired at each attempt, any `m` consume attempts yield exactly
/// `min(m, n)` successes, and every further attempt fails on the usage
/// limit — never more than `n` slots are granted, whatever the order or
/// count of claimants.
pub proof fn lemma_token_capacity(v: DbView, tok: Seq<char>, nows: Seq<int>, n: int)
    requires
        db_wf(v),
        has_tok(v.tokens, tok),
        ({
            let t = v.tokens[idx_tok(v.tokens, tok)];
            t.is_active && t.max_usage == Some(n) && t.usage_count == 0
        }),
        0 <= n < i64::MAX as int,
        forall|k: int|
            0 <= k < nows.len() ==> #[trigger] nows[k] < v.tokens[idx_tok(
                v.tokens,
                tok,
            )].expires_at,
    ensures
        ({
            let run = run_consumes(v, tok, nows);
            &&& run.successes == if nows.len() as int <= n {
                nows.len() as int
            } else {
                n
            }
            &&& run.successes <= n
            &&& run.limit_failures == nows.len() - run.successes
            &&& run.store.tokens[idx_tok(run.store.tokens, tok)].usage_count == run.successes
        }),
{
    lemma_usage_cap_from(v, tok, nows, n, 0);
}

// ---------------------------------------------------------------------------
// expiry is checked strictly, and classified as such
// ---------------------------------------------------------------------------

/// Expiry law: consuming an active token at or after its expiry instant
/// always fails with `Expired` and changes nothing — including at the
/// boundary `now == expires_at`, where the token is already unusable.
pub proof fn lemma_expired_never_consumes(v: DbView, tok: Seq<char>, now: int)
    requires
        db_wf(v),
        has_tok(v.tokens, tok),
        v.tokens[idx_tok(v.tokens, tok)].is_active,
        now >= v.tokens[idx_tok(v.tokens, tok)].expires_at,
    ensures
        consume_m(v, tok, now) == (
            v,
            Err::<ConsumedTokenView, TokenConsumeError>(TokenConsumeError::Expired),
        ),
{
}

// ---------------------------------------------------------------------------
// approval happens exactly once
// ---------------------------------------------------------------------------

/// Double-processing law: of two approvals racing on the same pending
/// request, exactly one succeeds; the other observes the no-op answer and
/// changes nothing, and the ledger ends with exactly one row under that
/// id, approved.
pub proof fn lemma_approve_exactly_once(
    v: DbView,
    id: int,
    tu1: Seq<char>,
    sec1: Seq<char>,
    t1: int,
    tu2: Seq<char>,
    sec2: Seq<char>,
    t2: int,
)
    requires
        db_wf(v),
        has_id(v.requests, id),
        v.requests[idx_id(v.requests, id)].status is Pending,
    ensures
        ({
            let (v1, r1) = approve_m(v, id, tu1, sec1, t1);
            let (v2, r2) = approve_m(v1, id, tu2, sec2, t2);
            &&& r1 is Some
            &&& r2 is None
            &&& v2 == v1
            &&& has_id(v1.requests, id)
            &&& v1.requests[idx_id(v1.requests, id)].status is Approved
            &&& v1.requests[idx_id(v1.requests, id)].secret == Some(sec1)
            &&& (forall|j: int|
                0 <= j < v1.requests.len() ==> ((#[trigger] v1.requests[j]).id == id <==> j
                    == idx_id(v1.requests, id)))
        }),
{
    let i = idx_id(v.requests, id);
    let (v1, r1) = approve_m(v, id, tu1, sec1, t1);
    assert(v1.requests[i].id == id);
    assert(has_id(v1.requests, id));
    let j = idx_id(v1.requests, id);
    if j != i {
        assert(v1.requests[j].id == v.requests[j].id);
        assert(v.requests[j].id != v.requests[i].id);
    }
    assert(j == i);
    assert forall|k: int|
        0 <= k < v1.requests.len() implies ((#[trigger] v1.requests[k]).id == id <==> k == i) by {
        if k != i {
            assert(v1.requests[k].id == v.requests[k].id);
            assert(v.requests[k].id != v.requests[i].id);
        }
    }
}

// ---------------------------------------------------------------------------
// registration is idempotent
// ---------------------------------------------------------------------------

/// Metadata carried by one registration call: user name, display name,
/// and the call's timestamp.
pub ghost struct RegMeta {
    pub uname: Option<Seq<char>>,
    pub dname: Option<Seq<char>>,
    pub now: int,
}

/// The store after a sequence of registration calls for one identity.
pub open spec fn run_registers(v: DbView, uid: int, metas: Seq<RegMeta>) -> DbView
    decreases metas.len(),
{
    if metas.len() == 0 {
        v
    } else {
        let (v1, _) = register_or_get_m(v, uid, metas[0].uname, metas[0].dname, metas[0].now);
        run_registers(v1, uid, metas.drop_first())
    }
}

/// Every call in the sequence answers `AlreadyPending`.
pub open spec fn all_already_pending(v: DbView, uid: int, metas: Seq<RegMeta>) -> bool
    decreases metas.len(),
{
    if metas.len() == 0 {
        true
    } else {
        let (v1, r) = register_or_get_m(v, uid, metas[0].uname, metas[0].dname, metas[0].now);
        r is AlreadyPending && all_already_pending(v1, uid, metas.drop_first())
    }
}

proof fn lemma_register_keeps_pending(v: DbView, uid: int, metas: Seq<RegMeta>)
    requires
        db_wf(v),
        has_user(v.requests, uid),
        v.requests[idx_user(v.requests, uid)].status is Pending,
    ensures
        ({
            let vf = run_registers(v, uid, metas);
            &&& all_already_pending(v, uid, metas)
            &&& vf.requests.len() == v.requests.len()
            &&& vf.next_request_id == v.next_request_id
            &&& db_wf(vf)
            &&& has_user(vf.requests, uid)
            &&& vf.requests[idx_user(vf.requests, uid)].status is Pending
        }),
    decreases metas.len(),
{
    if metas.len() > 0 {
        let i = idx_user(v.requests, uid);
        let (v1, r) = register_or_get_m(v, uid, metas[0].uname, metas[0].dname, metas[0].now);
        assert(v1.requests[i].tg_user_id == uid);
        assert(has_user(v1.requests, uid));
        assert(reqs_wf(v1.requests, v1.next_request_id)) by {
            assert(forall|a: int|
                0 <= a < v1.requests.len() ==> #[trigger] v1.requests[a].id == v.requests[a].id
                    && v1.requests[a].tg_user_id == v.requests[a].tg_user_id);
        }
        let j = idx_user(v1.requests, uid);
        if j != i {
            assert(v1.requests[j].tg_user_id != v1.requests[i].tg_user_id);
        }
        lemma_register_keeps_pending(v1, uid, metas.drop_first());
    }
}

/// Idempotence law: for an identity with no row, the first registration
/// creates exactly one pending row and answers "new pending"; every later
/// registration (while nobody resolves the request) answers "already
/// pending", refreshes metadata in place, and never adds a second row.
pub proof fn lemma_register_idempotent(v: DbView, uid: int, first: RegMeta, rest: Seq<RegMeta>)
    requires
        db_wf(v),
        !has_user(v.requests, uid),
    ensures
        ({
            let (v1, r1) = register_or_get_m(v, uid, first.uname, first.dname, first.now);
            let vf = run_registers(v1, uid, rest);
            &&& r1 is NewPending
            &&& v1.requests.len() == v.requests.len() + 1
            &&& all_already_pending(v1, uid, rest)
            &&& vf.requests.len() == v.requests.len() + 1
            &&& has_user(vf.requests, uid)
            &&& vf.requests[idx_user(vf.requests, uid)].status is Pending
        }),
{
    let (v1, r1) = register_or_get_m(v, uid, first.uname, first.dname, first.now);
    let nlen = v.requests.len() as int;
    assert(v1.requests[nlen].tg_user_id == uid);
    assert(has_user(v1.requests, uid));
    assert(reqs_wf(v1.requests, v1.next_request_id)) by {
        assert(forall|a: int|
            0 <= a < nlen ==> #[trigger] v1.requests[a] == v.requests[a]);
    }
    let j = idx_user(v1.requests, uid);
    if j != nlen {
        assert(v1.requests[j] == v.requests[j]);
    }
    assert(v1.requests[idx_user(v1.requests, uid)].status is Pending);
    lemma_register_keeps_pending(v1, uid, rest);
}

// ---------------------------------------------------------------------------
// revoked tokens stay unusable
// ---------------------------------------------------------------------------

/// Revocation law: after a revocation, consuming the token always fails
/// with `Revoked`, whatever usage slots remained.
pub proof fn lemma_revoked_never_consumes(v: DbView, tok: Seq<char>, now: int)
    requires
        db_wf(v),
        has_tok(v.tokens, tok),
        !v.tokens[idx_tok(v.tokens, tok)].is_active,
    ensures
        consume_m(v, tok, now) == (
            v,
            Err::<ConsumedTokenView, TokenConsumeError>(TokenConsumeError::Revoked),
        ),
{
}

} // verus!
