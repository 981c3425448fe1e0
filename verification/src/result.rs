//! The outcome of an authorization.

use crate::scope::Scope;
use crate::UnAuthorizedFields;
use vstd::prelude::*;

verus! {

/// What an authorization hands back: the redacted copy of the entity, the
/// scope of the requester, the verdict on the entity as a whole and the names
/// of the fields that were redacted.
///
/// The verdict is advice: the fields are redacted whatever it says.
#[derive(PartialEq, Debug)]
pub struct AuthorizedResult<T> {
    pub input_scope: Scope,
    pub inner: T,
    pub status: AuthorizationStatus,
    pub unauthorized_fields: UnAuthorizedFields,
}

/// The verdict on an entity as a whole.
#[derive(Debug, Clone, Copy, PartialEq, Eq, Structural)]
pub enum AuthorizationStatus {
    Authorized,
    UnAuthorized,
}

} // verus!
