//! Session authentication choice. Credentials come in a pair that must be
//! given both-or-neither; a one-sided pair is tolerated with a warning, and
//! the session then proceeds unauthenticated.

use vstd::prelude::*;

verus! {

/// The authentication mode chosen at session construction time.
pub enum AuthDecision {
    /// Both credentials given: authenticate with them.
    Authenticated { user: String, password: String },
    /// Neither credential given: no authentication.
    Unauthenticated,
    /// Exactly one credential given: the caller warns the operator and the
    /// session proceeds unauthenticated.
    OneSided,
}

/// Chooses the authentication mode from the optional credentials: both
/// present authenticate, neither present does not, and a single one is the
/// warned fall-back to no authentication.
pub fn classify_credentials(user: Option<String>, password: Option<String>) -> (r: AuthDecision)
    ensures
        user is Some && password is Some ==> (r matches AuthDecision::Authenticated {
            user: u,
            password: p,
        } && u@ == user.unwrap()@ && p@ == password.unwrap()@),
        user is None && password is None ==> r is Unauthenticated,
        (user is Some) != (password is Some) ==> r is OneSided,
{
    match (user, password) {
        (Some(u), Some(p)) => AuthDecision::Authenticated { user: u, password: p },
        (None, None) => AuthDecision::Unauthenticated,
        _ => AuthDecision::OneSided,
    }
}

} // verus!
