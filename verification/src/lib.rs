//! Field-level access control for structured data.
//!
//! A [`scope::Scope`] is a small set of capability tokens. Comparing the scope
//! that a field requires with the scope that a requester holds decides whether
//! the field's value may be disclosed. Authorizing an entity gives a redacted
//! copy of it, the names of the fields that were redacted, and a verdict on
//! the entity as a whole.
//!
//! - [`scope`]: scopes, their text and their partial order.
//! - [`rules`]: the rules that an entity type declares, and the authorization
//!   procedure that evaluates them.
//! - [`Authorizable`], [`Authorizor`]: what an entity type implements, and the
//!   entry point that authorizes it, alone or in a sequence.
//! - [`result`], [`error`]: what an authorization gives.
//! - [`laws`]: what holds of all of these, proved.

pub mod error;
pub mod laws;
pub mod prelude;
pub mod result;
pub mod rules;
pub mod scope;

use crate::error::AuthorizedError;
use crate::result::{AuthorizationStatus, AuthorizedResult};
use crate::scope::{converts, IntoScope, ParseScopeErr, Scope};
use vstd::prelude::*;

verus! {

/// The names of the fields that an authorization redacted.
pub type UnAuthorizedFields = Vec<String>;

/// The characters of each of `names`, in the same order.
pub open spec fn names_of(names: Seq<String>) -> Seq<Seq<char>> {
    names.map_values(|name: String| name@)
}

/// What an entity type supplies to be authorized: how to build a redacted
/// copy of an entity, how to find the fields to redact, and how to put the
/// two together with a verdict on the entity as a whole.
///
/// [`rules::EntityRules`] offers the three steps for a type that declares its
/// rules as a table.
pub trait Authorizable {
    /// The type of the redacted copy.
    type Authorized;

    /// Builds the redacted copy of `input`: a field named in
    /// `unauthorized_fields` takes its default value, every other field is
    /// copied.
    fn builder_authorized_struct(input: &Self, unauthorized_fields: &[String]) -> Result<
        Self::Authorized,
        AuthorizedError,
    >;

    /// Names the fields of `input` whose declared scope does not allow access
    /// to `scope`.
    fn filter_unauthorized_fields(input: &Self, scope: &Scope) -> UnAuthorizedFields;

    /// Authorizes `input` for a requester who holds `authorizer`.
    fn authorize(input: &Self, authorizer: &Scope) -> Result<
        AuthorizedResult<Self::Authorized>,
        AuthorizedError,
    >;
}

/// `built` is what the type of `entity` may give when it builds the copy of
/// `entity` that hides the fields named `unauthorized_fields`.
pub open spec fn builds<A: Authorizable>(
    entity: A,
    unauthorized_fields: Seq<Seq<char>>,
    built: Result<A::Authorized, AuthorizedError>,
) -> bool {
    exists|names: &[String]|
        names_of(names@) == unauthorized_fields && #[trigger] call_ensures(
            A::builder_authorized_struct,
            (&entity, names),
            built,
        )
}

/// `unauthorized_fields` is what the type of `entity` may name as the fields
/// of `entity` to hide from a requester who holds `scope`.
pub open spec fn filters<A: Authorizable>(
    entity: A,
    scope: Scope,
    unauthorized_fields: UnAuthorizedFields,
) -> bool {
    call_ensures(A::filter_unauthorized_fields, (&entity, &scope), unauthorized_fields)
}

/// `outcome` is what the type of `entity` may give when it authorizes
/// `entity` for a requester who holds `scope`.
pub open spec fn authorizes<A: Authorizable>(
    entity: A,
    scope: Scope,
    outcome: Result<AuthorizedResult<A::Authorized>, AuthorizedError>,
) -> bool {
    call_ensures(A::authorize, (&entity, &scope), outcome)
}

/// Entry point for authorizing what implements [`Authorizable`].
pub struct Authorizor {}

impl Authorizor {
    /// Creates the authorized version of `inner` for a requester whose scope
    /// is `scope`, a scope or the text of one.
    ///
    /// Text that is no scope is reported, and `inner` is then not looked at.
    pub fn authorize<A: Authorizable, T: IntoScope>(inner: &A, scope: T) -> (outcome: Result<
        AuthorizedResult<A::Authorized>,
        AuthorizedError,
    >)
        ensures
            exists|converted: Result<Scope, ParseScopeErr>| #[trigger]
                converts(scope, converted) && match converted {
                    Ok(requester) => authorizes(*inner, requester, outcome),
                    Err(e) => outcome == Err::<AuthorizedResult<A::Authorized>, AuthorizedError>(
                        AuthorizedError::ParseScopeError(e),
                    ),
                },
    {
        let converted = scope.into_scope();
        assert(converts(scope, converted));
        match converted {
            Ok(requester) => {
                let outcome = A::authorize(inner, &requester);
                assert(authorizes(*inner, requester, outcome));
                outcome
            },
            Err(e) => Err(AuthorizedError::from(e)),
        }
    }
}

/// The results that a sequence adapter keeps: the successes among
/// `outcomes`, in their order. Failures leave no trace.
pub open spec fn accepted<R>(outcomes: Seq<Result<R, AuthorizedError>>) -> Seq<R> {
    outcomes.filter_map(
        |outcome: Result<R, AuthorizedError>|
            match outcome {
                Ok(result) => Some(result),
                Err(_) => None,
            },
    )
}

/// One more outcome adds its result to the accepted ones if it is a success,
/// and nothing if it is a failure.
proof fn lemma_accepted_push<R>(
    outcomes: Seq<Result<R, AuthorizedError>>,
    next: Result<R, AuthorizedError>,
)
    ensures
        accepted(outcomes.push(next)) == match next {
            Ok(result) => accepted(outcomes).push(result),
            Err(_) => accepted(outcomes),
        },
{
    assert(outcomes.push(next).drop_last() =~= outcomes);
    match next {
        Ok(result) => {
            assert(accepted(outcomes) + seq![result] =~= accepted(outcomes).push(result));
        },
        Err(_) => {},
    }
}

/// A sequence of entities is authorized item by item, in order, against the
/// one scope of the requester.
///
/// The items that cannot be authorized are left out of the result, which is
/// a success in any case: the verdict on a sequence is always `Authorized`,
/// and no field of the sequence itself is ever redacted.
impl<T> Authorizable for Vec<T> where T: Authorizable {
    type Authorized = Vec<AuthorizedResult<T::Authorized>>;

    /// A sequence has no fields of its own: the copy is empty.
    fn builder_authorized_struct(_input: &Self, _unauthorized_fields: &[String]) -> (built: Result<
        Self::Authorized,
        AuthorizedError,
    >)
        ensures
            built matches Ok(items) && items@.len() == 0,
    {
        Ok(Vec::new())
    }

    /// A sequence has no fields of its own: none is hidden.
    fn filter_unauthorized_fields(_input: &Self, _scope: &Scope) -> (unauthorized_fields:
        UnAuthorizedFields)
        ensures
            unauthorized_fields@.len() == 0,
    {
        Vec::new()
    }

    /// Authorizes each item of `input` for a requester who holds
    /// `authorizer`, and keeps the results of those that could be authorized.
    fn authorize(input: &Self, authorizer: &Scope) -> (outcome: Result<
        AuthorizedResult<Self::Authorized>,
        AuthorizedError,
    >)
        ensures
            outcome matches Ok(result) && {
                &&& result.input_scope@ == authorizer@
                &&& result.status == AuthorizationStatus::Authorized
                &&& result.unauthorized_fields@.len() == 0
                &&& exists|outcomes: Seq<Result<AuthorizedResult<T::Authorized>, AuthorizedError>>|
                    {
                        &&& outcomes.len() == input@.len()
                        &&& forall|i: int|
                            0 <= i < input@.len() ==> authorizes(
                                input@[i],
                                *authorizer,
                                #[trigger] outcomes[i],
                            )
                        &&& result.inner@ == #[trigger] accepted(outcomes)
                    }
            },
    {
        let mut inner: Vec<AuthorizedResult<T::Authorized>> = Vec::new();
        let ghost mut outcomes: Seq<Result<AuthorizedResult<T::Authorized>, AuthorizedError>> =
            Seq::empty();
        let mut i: usize = 0;
        while i < input.len()
            invariant
                i <= input.len(),
                outcomes.len() == i,
                forall|k: int|
                    0 <= k < i ==> authorizes(input@[k], *authorizer, #[trigger] outcomes[k]),
                inner@ == accepted(outcomes),
            decreases input.len() - i,
        {
            let item = T::authorize(&input[i], authorizer);
            proof {
                lemma_accepted_push(outcomes, item);
                outcomes = outcomes.push(item);
            }
            match item {
                Ok(result) => {
                    inner.push(result);
                },
                Err(_) => {},
            }
            i += 1;
        }
        Ok(
            AuthorizedResult {
                inner,
                input_scope: authorizer.clone(),
                status: AuthorizationStatus::Authorized,
                unauthorized_fields: Vec::new(),
            },
        )
    }
}

/// A reference is authorized as what it refers to.
impl<T> Authorizable for &T where T: Authorizable {
    type Authorized = T::Authorized;

    fn builder_authorized_struct(input: &Self, unauthorized_fields: &[String]) -> (built: Result<
        Self::Authorized,
        AuthorizedError,
    >)
        ensures
            call_ensures(T::builder_authorized_struct, (*input, unauthorized_fields), built),
    {
        T::builder_authorized_struct(*input, unauthorized_fields)
    }

    fn filter_unauthorized_fields(input: &Self, scope: &Scope) -> (unauthorized_fields:
        UnAuthorizedFields)
        ensures
            filters(**input, *scope, unauthorized_fields),
    {
        T::filter_unauthorized_fields(*input, scope)
    }

    fn authorize(input: &Self, authorizer: &Scope) -> (outcome: Result<
        AuthorizedResult<Self::Authorized>,
        AuthorizedError,
    >)
        ensures
            authorizes(**input, *authorizer, outcome),
    {
        T::authorize(*input, authorizer)
    }
}

/// Marks what may be handed out as the content of an authorized result.
pub trait Authorized {

}

impl<T> Authorized for AuthorizedResult<T> where T: Authorized {

}

impl<T> Authorized for Vec<T> where T: Authorized {

}

} // verus!
