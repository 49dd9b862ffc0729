//! Verified core of an access-provisioning service.
//!
//! The library models the durable state of the service — a ledger of
//! registration requests keyed by an external identity, and a store of
//! usage-bounded invite tokens — together with the provisioning workflow
//! that turns a grant decision into a credential-store entry and a ledger
//! commit.  Every contested transition (token consumption, approval of a
//! pending request) is a single guarded mutation whose contract says
//! exactly when it fires and what it changes, so "zero rows affected"
//! semantics under concurrent claimants are captured by the models here.

pub mod strutil;
pub mod clock;
pub mod db;
pub mod waiting;
pub mod credstore;
pub mod link;
pub mod parse;
pub mod render;
pub mod service;
pub mod qr;
pub mod workflow;
pub mod laws;
