//! The access rules that an entity type declares, and the authorization
//! procedure that evaluates them.
//!
//! An entity type declares, as text, zero or more scopes for the entity as a
//! whole and at most one scope for each field. [`EntityRules::compile`] parses
//! every text once. The compiled rules then decide, for the scope of a
//! requester, which fields are hidden and what the verdict on the entity is.

use crate::error::AuthorizedError;
use crate::result::{AuthorizationStatus, AuthorizedResult};
use crate::scope::{parse_scope, scope_of, ParseScopeErr, Scope, ScopeView};
use crate::{builds, names_of, Authorizable, UnAuthorizedFields};
use vstd::prelude::*;

verus! {

/// What one field of an entity declares.
#[derive(Debug)]
pub struct FieldRule {
    /// The name of the field.
    pub name: String,
    /// The text of the scope that a requester must satisfy to read the field,
    /// or `None` where everyone may read it.
    pub scope: Option<String>,
}

/// A [`FieldRule`] as plain text.
pub struct FieldRuleView {
    pub name: Seq<char>,
    pub scope: Option<Seq<char>>,
}

impl View for FieldRule {
    type V = FieldRuleView;

    open spec fn view(&self) -> FieldRuleView {
        FieldRuleView {
            name: self.name@,
            scope: match self.scope {
                Some(text) => Some(text@),
                None => None,
            },
        }
    }
}

/// The rules of an entity type as they are declared: the texts of the scopes
/// of which a requester must satisfy one to be authorized for the entity as
/// a whole, and the rules of the fields.
#[derive(Debug)]
pub struct EntityRules {
    pub scopes: Vec<String>,
    pub fields: Vec<FieldRule>,
}

/// [`EntityRules`] as plain text.
pub struct EntityRulesView {
    pub scopes: Seq<Seq<char>>,
    pub fields: Seq<FieldRuleView>,
}

impl View for EntityRules {
    type V = EntityRulesView;

    open spec fn view(&self) -> EntityRulesView {
        EntityRulesView {
            scopes: names_of(self.scopes@),
            fields: self.fields@.map_values(|field: FieldRule| field@),
        }
    }
}

/// The rule of one field, its scope parsed.
pub struct RuleView {
    pub name: Seq<char>,
    pub required: Option<ScopeView>,
}

/// The rules of an entity type, every scope parsed.
pub struct RulesView {
    pub scopes: Seq<ScopeView>,
    pub fields: Seq<RuleView>,
}

/// The character that keeps `text` from being a scope, if there is one.
pub open spec fn rejected_char(text: Seq<char>) -> Option<char> {
    match parse_scope(text) {
        Ok(_) => None,
        Err(ParseScopeErr::InvalidCharacter(ch)) => Some(ch),
    }
}

impl FieldRuleView {
    /// The character that keeps the text that the field declares from being
    /// a scope, if there is such a text and such a character.
    pub open spec fn rejected(self) -> Option<char> {
        match self.scope {
            Some(text) => rejected_char(text),
            None => None,
        }
    }

    /// The rule with its scope parsed.
    pub open spec fn parsed(self) -> RuleView {
        RuleView {
            name: self.name,
            required: match self.scope {
                Some(text) => Some(scope_of(text)),
                None => None,
            },
        }
    }
}

/// The rejected character of each of `texts` that is no scope, in the order
/// of the texts.
pub open spec fn rejected_in_texts(texts: Seq<Seq<char>>) -> Seq<char> {
    texts.filter_map(|text: Seq<char>| rejected_char(text))
}

/// The rejected character of each text that `fields` declare and that is no
/// scope, in the order of the fields.
pub open spec fn rejected_in_fields(fields: Seq<FieldRuleView>) -> Seq<char> {
    fields.filter_map(|field: FieldRuleView| field.rejected())
}

/// The scope of each of `texts`.
pub open spec fn scopes_of(texts: Seq<Seq<char>>) -> Seq<ScopeView> {
    texts.map_values(|text: Seq<char>| scope_of(text))
}

/// Each of `fields` with its scope parsed.
pub open spec fn parsed_fields(fields: Seq<FieldRuleView>) -> Seq<RuleView> {
    fields.map_values(|field: FieldRuleView| field.parsed())
}

impl EntityRulesView {
    /// The rejected characters of the declared texts that are no scopes, one
    /// for each such text: first those of the entity's scopes, then those of
    /// the fields' scopes, each in the order of declaration.
    pub open spec fn rejected(self) -> Seq<char> {
        rejected_in_texts(self.scopes) + rejected_in_fields(self.fields)
    }

    /// The rules with every scope parsed. They are the rules that were
    /// declared if no text was rejected.
    pub open spec fn parsed(self) -> RulesView {
        RulesView { scopes: scopes_of(self.scopes), fields: parsed_fields(self.fields) }
    }

    /// `outcome` is what authorizing `entity` under these rules, for a
    /// requester who holds `requester`, gives: the report of the rejected
    /// texts if there are any, and else what the parsed rules give.
    pub open spec fn authorizes<A: Authorizable>(
        self,
        entity: A,
        requester: ScopeView,
        outcome: Result<AuthorizedResult<A::Authorized>, AuthorizedError>,
    ) -> bool {
        if self.rejected().len() == 0 {
            self.parsed().authorizes(entity, requester, outcome)
        } else {
            outcome matches Err(e) && e.reports(self.rejected())
        }
    }
}

impl RuleView {
    /// The field is hidden from a requester who holds `requester`: it
    /// requires a scope, and that scope does not allow access to `requester`.
    pub open spec fn hides_from(self, requester: ScopeView) -> bool {
        self.required matches Some(required) && !required.allows(requester)
    }

    /// The name of the field if it is hidden from `requester`.
    pub open spec fn hidden_name(self, requester: ScopeView) -> Option<Seq<char>> {
        if self.hides_from(requester) {
            Some(self.name)
        } else {
            None
        }
    }
}

/// The names of those of `fields` that are hidden from a requester who holds
/// `requester`, in the order of the fields.
pub open spec fn hidden_names(fields: Seq<RuleView>, requester: ScopeView) -> Seq<Seq<char>> {
    fields.filter_map(|rule: RuleView| rule.hidden_name(requester))
}

impl RulesView {
    /// The names of the fields that are hidden from a requester who holds
    /// `requester`, in the order of declaration.
    pub open spec fn unauthorized_fields(self, requester: ScopeView) -> Seq<Seq<char>> {
        hidden_names(self.fields, requester)
    }

    /// The verdict on the entity as a whole: authorized if one of the
    /// entity's scopes allows access to `requester`. Rules without such a
    /// scope authorize nobody.
    pub open spec fn status(self, requester: ScopeView) -> AuthorizationStatus {
        if exists|i: int|
            0 <= i < self.scopes.len() && (#[trigger] self.scopes[i]).allows(requester) {
            AuthorizationStatus::Authorized
        } else {
            AuthorizationStatus::UnAuthorized
        }
    }

    /// `outcome` packages `built`, the redacted copy or the reason why there
    /// is none, with what the rules decide for `requester`.
    pub open spec fn outcome_with<T>(
        self,
        requester: ScopeView,
        built: Result<T, AuthorizedError>,
        outcome: Result<AuthorizedResult<T>, AuthorizedError>,
    ) -> bool {
        packages(
            requester,
            self.status(requester),
            self.unauthorized_fields(requester),
            built,
            outcome,
        )
    }

    /// `outcome` is what authorizing `entity` under these rules gives: the
    /// copy that `entity` builds without the fields hidden from `requester`,
    /// packaged with the verdict, whatever the verdict is.
    pub open spec fn authorizes<A: Authorizable>(
        self,
        entity: A,
        requester: ScopeView,
        outcome: Result<AuthorizedResult<A::Authorized>, AuthorizedError>,
    ) -> bool {
        exists|built: Result<A::Authorized, AuthorizedError>| #[trigger]
            builds(entity, self.unauthorized_fields(requester), built) && self.outcome_with(
                requester,
                built,
                outcome,
            )
    }
}

/// The rule of one field, ready to be evaluated.
#[derive(Debug)]
struct CompiledRule {
    name: String,
    required: Option<Scope>,
}

impl View for CompiledRule {
    type V = RuleView;

    closed spec fn view(&self) -> RuleView {
        RuleView {
            name: self.name@,
            required: match self.required {
                Some(scope) => Some(scope@),
                None => None,
            },
        }
    }
}

/// The rules of an entity type, ready to be evaluated: every scope has been
/// parsed.
#[derive(Debug)]
pub struct CompiledRules {
    scopes: Vec<Scope>,
    fields: Vec<CompiledRule>,
}

/// The view of each of `scopes`.
spec fn scope_views(scopes: Seq<Scope>) -> Seq<ScopeView> {
    scopes.map_values(|scope: Scope| scope@)
}

/// The view of each of `rules`.
spec fn rule_views(rules: Seq<CompiledRule>) -> Seq<RuleView> {
    rules.map_values(|rule: CompiledRule| rule@)
}

impl View for CompiledRules {
    type V = RulesView;

    closed spec fn view(&self) -> RulesView {
        RulesView { scopes: scope_views(self.scopes@), fields: rule_views(self.fields@) }
    }
}

/// `errors` holds one parse error for each of `rejected`, in the same order.
spec fn collected(errors: Seq<AuthorizedError>, rejected: Seq<char>) -> bool {
    &&& errors.len() == rejected.len()
    &&& forall|k: int|
        0 <= k < rejected.len() ==> #[trigger] errors[k] == AuthorizedError::rejecting(rejected[k])
}

proof fn lemma_rejected_in_texts_step(texts: Seq<Seq<char>>, i: int)
    requires
        0 <= i < texts.len(),
    ensures
        rejected_in_texts(texts.take(i + 1)) == match rejected_char(texts[i]) {
            Some(ch) => rejected_in_texts(texts.take(i)).push(ch),
            None => rejected_in_texts(texts.take(i)),
        },
{
    let next = texts.take(i + 1);
    assert(next.drop_last() =~= texts.take(i));
    assert(next.last() == texts[i]);
    match rejected_char(texts[i]) {
        Some(ch) => {
            assert(rejected_in_texts(texts.take(i)) + seq![ch] =~= rejected_in_texts(
                texts.take(i),
            ).push(ch));
        },
        None => {},
    }
}

proof fn lemma_rejected_in_fields_step(fields: Seq<FieldRuleView>, i: int)
    requires
        0 <= i < fields.len(),
    ensures
        rejected_in_fields(fields.take(i + 1)) == match fields[i].rejected() {
            Some(ch) => rejected_in_fields(fields.take(i)).push(ch),
            None => rejected_in_fields(fields.take(i)),
        },
{
    let next = fields.take(i + 1);
    assert(next.drop_last() =~= fields.take(i));
    assert(next.last() == fields[i]);
    match fields[i].rejected() {
        Some(ch) => {
            assert(rejected_in_fields(fields.take(i)) + seq![ch] =~= rejected_in_fields(
                fields.take(i),
            ).push(ch));
        },
        None => {},
    }
}

proof fn lemma_hidden_names_step(fields: Seq<RuleView>, requester: ScopeView, i: int)
    requires
        0 <= i < fields.len(),
    ensures
        hidden_names(fields.take(i + 1), requester) == match fields[i].hidden_name(requester) {
            Some(name) => hidden_names(fields.take(i), requester).push(name),
            None => hidden_names(fields.take(i), requester),
        },
{
    let next = fields.take(i + 1);
    assert(next.drop_last() =~= fields.take(i));
    assert(next.last() == fields[i]);
    match fields[i].hidden_name(requester) {
        Some(name) => {
            assert(hidden_names(fields.take(i), requester) + seq![name] =~= hidden_names(
                fields.take(i),
                requester,
            ).push(name));
        },
        None => {},
    }
}

impl EntityRules {
    /// Parses every scope that the rules declare.
    ///
    /// If a text is no scope, there are no compiled rules: the error reports
    /// the character that each such text was rejected for, by itself if there
    /// is one such text and as a list if there are several.
    pub fn compile(&self) -> (compiled: Result<CompiledRules, AuthorizedError>)
        ensures
            compiled is Ok <==> self@.rejected().len() == 0,
            compiled matches Ok(rules) ==> rules@ == self@.parsed(),
            compiled matches Err(e) ==> e.reports(self@.rejected()),
    {
        let mut errors: Vec<AuthorizedError> = Vec::new();
        let mut scopes: Vec<Scope> = Vec::new();
        let mut i: usize = 0;
        proof {
            assert(scope_views(scopes@) =~= scopes_of(self@.scopes.take(0)));
        }
        while i < self.scopes.len()
            invariant
                i <= self.scopes.len(),
                self@.scopes.len() == self.scopes.len(),
                collected(errors@, rejected_in_texts(self@.scopes.take(i as int))),
                errors.len() == 0 ==> scope_views(scopes@) == scopes_of(
                    self@.scopes.take(i as int),
                ),
            decreases self.scopes.len() - i,
        {
            proof {
                lemma_rejected_in_texts_step(self@.scopes, i as int);
            }
            let ghost parsed_before = scope_views(scopes@);
            match Scope::parse(self.scopes[i].as_str()) {
                Ok(scope) => {
                    assert(scope@ == scope_of(self@.scopes[i as int]));
                    scopes.push(scope);
                    proof {
                        if errors.len() == 0 {
                            let texts = self@.scopes.take(i + 1);
                            assert forall|k: int| 0 <= k <= i implies scope_views(scopes@)[k]
                                == scopes_of(texts)[k] by {
                                if k < i {
                                    assert(parsed_before[k] == scopes_of(
                                        self@.scopes.take(i as int),
                                    )[k]);
                                }
                            }
                            assert(scope_views(scopes@) =~= scopes_of(texts));
                        }
                    }
                },
                Err(e) => {
                    errors.push(AuthorizedError::from(e));
                },
            }
            i += 1;
        }
        let mut fields: Vec<CompiledRule> = Vec::new();
        let mut j: usize = 0;
        proof {
            assert(self@.scopes.take(i as int) =~= self@.scopes);
            assert(rule_views(fields@) =~= parsed_fields(self@.fields.take(0)));
            assert(rejected_in_fields(self@.fields.take(0)) =~= Seq::empty());
            assert(rejected_in_texts(self@.scopes) + Seq::<char>::empty() =~= rejected_in_texts(
                self@.scopes,
            ));
        }
        while j < self.fields.len()
            invariant
                j <= self.fields.len(),
                self@.fields.len() == self.fields.len(),
                collected(
                    errors@,
                    rejected_in_texts(self@.scopes) + rejected_in_fields(
                        self@.fields.take(j as int),
                    ),
                ),
                errors.len() == 0 ==> scope_views(scopes@) == scopes_of(self@.scopes),
                errors.len() == 0 ==> rule_views(fields@) == parsed_fields(
                    self@.fields.take(j as int),
                ),
            decreases self.fields.len() - j,
        {
            let ghost before = rejected_in_texts(self@.scopes) + rejected_in_fields(
                self@.fields.take(j as int),
            );
            proof {
                lemma_rejected_in_fields_step(self@.fields, j as int);
            }
            let ghost parsed_before = rule_views(fields@);
            let field = &self.fields[j];
            assert(self@.fields[j as int] == field@);
            let required = match &field.scope {
                Some(text) => match Scope::parse(text.as_str()) {
                    Ok(scope) => Some(scope),
                    Err(e) => {
                        errors.push(AuthorizedError::from(e));
                        None
                    },
                },
                None => None,
            };
            let rule = CompiledRule { name: field.name.clone(), required };
            assert(errors.len() == 0 ==> rule@ == field@.parsed());
            fields.push(rule);
            proof {
                if errors.len() == 0 {
                    let declared = self@.fields.take(j + 1);
                    assert forall|k: int| 0 <= k <= j implies rule_views(fields@)[k]
                        == parsed_fields(declared)[k] by {
                        if k < j {
                            assert(parsed_before[k] == parsed_fields(
                                self@.fields.take(j as int),
                            )[k]);
                        }
                    }
                }
                let after = rejected_in_texts(self@.scopes) + rejected_in_fields(
                    self@.fields.take(j + 1),
                );
                match self@.fields[j as int].rejected() {
                    Some(ch) => {
                        assert(after =~= before.push(ch));
                    },
                    None => {
                        assert(after =~= before);
                    },
                }
                if errors.len() == 0 {
                    assert(rule_views(fields@) =~= parsed_fields(self@.fields.take(j + 1)));
                }
            }
            j += 1;
        }
        proof {
            assert(self@.fields.take(j as int) =~= self@.fields);
        }
        if errors.len() == 0 {
            Ok(CompiledRules { scopes, fields })
        } else if errors.len() == 1 {
            Err(errors.pop().unwrap())
        } else {
            Err(AuthorizedError::MultipleAuthorizedErrors(errors))
        }
    }

    /// Authorizes `input` under these rules for a requester who holds
    /// `scope`.
    ///
    /// The rules are compiled first: a text that is no scope ends the
    /// authorization before any field is looked at.
    pub fn authorize<A: Authorizable>(&self, input: &A, scope: &Scope) -> (outcome: Result<
        AuthorizedResult<A::Authorized>,
        AuthorizedError,
    >)
        ensures
            self@.authorizes(*input, scope@, outcome),
    {
        match self.compile() {
            Ok(rules) => rules.authorize(input, scope),
            Err(e) => Err(e),
        }
    }
}

impl CompiledRules {
    /// Names the fields that are hidden from a requester who holds `scope`:
    /// those whose required scope does not allow access to it.
    pub fn filter_unauthorized_fields(&self, scope: &Scope) -> (unauthorized_fields:
        UnAuthorizedFields)
        ensures
            names_of(unauthorized_fields@) == self@.unauthorized_fields(scope@),
    {
        let mut unauthorized_fields: Vec<String> = Vec::new();
        let mut i: usize = 0;
        proof {
            assert(names_of(unauthorized_fields@) =~= hidden_names(
                rule_views(self.fields@).take(0),
                scope@,
            ));
        }
        while i < self.fields.len()
            invariant
                i <= self.fields.len(),
                names_of(unauthorized_fields@) == hidden_names(
                    rule_views(self.fields@).take(i as int),
                    scope@,
                ),
            decreases self.fields.len() - i,
        {
            let ghost before = names_of(unauthorized_fields@);
            proof {
                lemma_hidden_names_step(rule_views(self.fields@), scope@, i as int);
            }
            let field = &self.fields[i];
            let hidden = match &field.required {
                Some(required) => !required.allow_access(scope),
                None => false,
            };
            if hidden {
                unauthorized_fields.push(field.name.clone());
                proof {
                    assert(names_of(unauthorized_fields@) =~= before.push(field.name@));
                }
            }
            i += 1;
        }
        proof {
            assert(rule_views(self.fields@).take(i as int) =~= rule_views(self.fields@));
        }
        unauthorized_fields
    }

    /// Gives the verdict on the entity as a whole for a requester who holds
    /// `scope`.
    pub fn status(&self, scope: &Scope) -> (status: AuthorizationStatus)
        ensures
            status == self@.status(scope@),
    {
        let mut i: usize = 0;
        while i < self.scopes.len()
            invariant
                i <= self.scopes.len(),
                forall|k: int| 0 <= k < i ==> !(#[trigger] self@.scopes[k]).allows(scope@),
            decreases self.scopes.len() - i,
        {
            if self.scopes[i].allow_access(scope) {
                assert(self@.scopes[i as int].allows(scope@));
                return AuthorizationStatus::Authorized;
            }
            i += 1;
        }
        AuthorizationStatus::UnAuthorized
    }

    /// Authorizes `input` under these rules for a requester who holds
    /// `scope`: finds the fields to hide, has `input` build its redacted
    /// copy, and packages the copy with the verdict.
    ///
    /// The verdict does not gate the redaction: the copy is built, and the
    /// fields are hidden, whether or not the entity as a whole is authorized.
    pub fn authorize<A: Authorizable>(&self, input: &A, scope: &Scope) -> (outcome: Result<
        AuthorizedResult<A::Authorized>,
        AuthorizedError,
    >)
        ensures
            self@.authorizes(*input, scope@, outcome),
    {
        let unauthorized_fields = self.filter_unauthorized_fields(scope);
        let status = self.status(scope);
        let built = A::builder_authorized_struct(input, unauthorized_fields.as_slice());
        assert(builds(*input, self@.unauthorized_fields(scope@), built));
        package(scope, status, unauthorized_fields, built)
    }
}

/// `outcome` is the result of an authorization that found `status`, hid the
/// fields named `hidden`, and got `built` when it built the redacted copy:
/// the copy with the findings if there is one, the builder's error if not.
pub open spec fn packages<T>(
    requester: ScopeView,
    status: AuthorizationStatus,
    hidden: Seq<Seq<char>>,
    built: Result<T, AuthorizedError>,
    outcome: Result<AuthorizedResult<T>, AuthorizedError>,
) -> bool {
    match built {
        Ok(inner) => {
            &&& outcome matches Ok(result)
            &&& result.inner == inner
            &&& result.input_scope@ == requester
            &&& result.status == status
            &&& names_of(result.unauthorized_fields@) == hidden
        },
        Err(e) => outcome == Err::<AuthorizedResult<T>, AuthorizedError>(e),
    }
}

/// Puts the findings of an authorization together with the redacted copy.
/// Where no copy could be built, the builder's error is the outcome.
pub fn package<T>(
    input_scope: &Scope,
    status: AuthorizationStatus,
    unauthorized_fields: UnAuthorizedFields,
    built: Result<T, AuthorizedError>,
) -> (outcome: Result<AuthorizedResult<T>, AuthorizedError>)
    ensures
        packages(input_scope@, status, names_of(unauthorized_fields@), built, outcome),
{
    match built {
        Ok(inner) => Ok(
            AuthorizedResult {
                input_scope: input_scope.clone(),
                inner,
                status,
                unauthorized_fields,
            },
        ),
        Err(e) => Err(e),
    }
}

/// Whether `name` is one of `unauthorized_fields`.
pub fn is_unauthorized(unauthorized_fields: &[String], name: &str) -> (hidden: bool)
    ensures
        hidden == names_of(unauthorized_fields@).contains(name@),
{
    let owned = name.to_owned();
    let mut i: usize = 0;
    while i < unauthorized_fields.len()
        invariant
            i <= unauthorized_fields.len(),
            owned@ == name@,
            forall|k: int| 0 <= k < i ==> #[trigger] names_of(unauthorized_fields@)[k] != name@,
        decreases unauthorized_fields.len() - i,
    {
        if unauthorized_fields[i] == owned {
            assert(names_of(unauthorized_fields@)[i as int] == name@);
            return true;
        }
        i += 1;
    }
    false
}

/// The value that the redacted copy holds for the field `name`: the default
/// that `default` provides if the field is one of `unauthorized_fields`, and
/// a copy of `value` if not.
pub fn redact_field<V: Clone, F: FnOnce() -> V>(
    unauthorized_fields: &[String],
    name: &str,
    value: &V,
    default: F,
) -> (disclosed: V)
    requires
        default.requires(()),
    ensures
        if names_of(unauthorized_fields@).contains(name@) {
            default.ensures((), disclosed)
        } else {
            cloned(*value, disclosed)
        },
{
    if is_unauthorized(unauthorized_fields, name) {
        default()
    } else {
        value.clone()
    }
}

} // verus!
