//! The token gate: the authorization check the administrative surface runs
//! before any rule mutation.
//!
//! `authorize` answers with the principal a valid token was issued for, so
//! edits can be attributed; every invalid token — unknown or expired alike —
//! yields the same undifferentiated refusal. Telling a missing credential
//! apart from an invalid one is the caller's job and is captured by
//! `check_access`.

use vstd::prelude::*;

use crate::tokens::{lookup, token_valid, TokenStore};

verus! {

/// The undifferentiated refusal: the token was unknown, expired or otherwise
/// not acceptable; which one is deliberately not said.
#[derive(Clone, Copy, Debug, PartialEq, Eq, Structural)]
pub struct AuthorizationError;

/// What the administrative surface should answer a request.
#[derive(Clone, Copy, Debug, PartialEq, Eq, Structural)]
pub enum AccessDecision {
    /// No credential was presented at all.
    MissingCredential,
    /// A credential was presented and refused; no further detail is given.
    Denied,
    /// The credential is valid; the principal it was issued for.
    Granted(u64),
}

/// The principal bound to `token` if it is valid at `now`, and the
/// undifferentiated refusal otherwise.
pub fn authorize(tokens: &TokenStore, token: &str, now: u64) -> (r: Result<
    u64,
    AuthorizationError,
>)
    requires
        tokens.wf(),
    ensures
        r is Ok <==> token_valid(tokens@, token@, now),
        r matches Ok(p) ==> lookup(tokens@, token@) matches Some(tm) && p == tm.principal,
        r is Err ==> r == Result::<u64, AuthorizationError>::Err(AuthorizationError),
{
    match tokens.lookup_valid(token, now) {
        Some(principal) => Ok(principal),
        None => Err(AuthorizationError),
    }
}

/// The decision for an administrative request that may or may not carry a
/// token: a missing credential is answered directly, and a presented token
/// goes through `authorize`.
pub fn check_access(tokens: &TokenStore, token: Option<&str>, now: u64) -> (r: AccessDecision)
    requires
        tokens.wf(),
    ensures
        token is None <==> r == AccessDecision::MissingCredential,
        token matches Some(t) ==> (r == AccessDecision::Denied <==> !token_valid(
            tokens@,
            t@,
            now,
        )),
        r matches AccessDecision::Granted(p) ==> (token matches Some(t) && token_valid(
            tokens@,
            t@,
            now,
        ) && (lookup(tokens@, t@) matches Some(tm) && p == tm.principal)),
{
    match token {
        None => AccessDecision::MissingCredential,
        Some(t) => match authorize(tokens, t, now) {
            Ok(principal) => AccessDecision::Granted(principal),
            Err(_) => AccessDecision::Denied,
        },
    }
}

} // verus!
