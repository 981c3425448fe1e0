//! What can go wrong while authorizing.

use crate::scope::ParseScopeErr;
use vstd::prelude::*;
use vstd::std_specs::convert::FromSpecImpl;

verus! {

/// Why an authorization was given up.
#[derive(Debug)]
pub enum AuthorizedError {
    /// Several errors that one authorization pass met, in the order in which
    /// it met them.
    MultipleAuthorizedErrors(Vec<AuthorizedError>),
    /// The text of a scope, in a rule or from the requester, is not a scope.
    ParseScopeError(ParseScopeErr),
}

impl AuthorizedError {
    /// The error that reports the one rejected character `ch`.
    pub open spec fn rejecting(ch: char) -> AuthorizedError {
        AuthorizedError::ParseScopeError(ParseScopeErr::InvalidCharacter(ch))
    }

    /// `self` reports the characters `rejected`, each of which made one scope
    /// text fail to parse: a single character as its parse error, two or
    /// more as the list of their parse errors, in the same order. No error
    /// reports nothing.
    pub open spec fn reports(self, rejected: Seq<char>) -> bool {
        if rejected.len() == 1 {
            self == Self::rejecting(rejected[0])
        } else {
            &&& rejected.len() >= 2
            &&& self matches AuthorizedError::MultipleAuthorizedErrors(errors)
            &&& errors@.len() == rejected.len()
            &&& forall|i: int|
                0 <= i < rejected.len() ==> #[trigger] errors@[i] == Self::rejecting(rejected[i])
        }
    }
}

impl From<ParseScopeErr> for AuthorizedError {
    fn from(error: ParseScopeErr) -> (converted: Self) {
        Self::ParseScopeError(error)
    }
}

impl FromSpecImpl<ParseScopeErr> for AuthorizedError {
    open spec fn obeys_from_spec() -> bool {
        true
    }

    open spec fn from_spec(error: ParseScopeErr) -> Self {
        AuthorizedError::ParseScopeError(error)
    }
}

} // verus!
