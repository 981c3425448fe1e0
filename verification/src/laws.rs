//! What holds of scopes, of their text and of authorizations, whatever the
//! values: the laws that the rest of the library can be relied on to obey.

use crate::error::AuthorizedError;
use crate::result::AuthorizedResult;
use crate::rules::{rejected_char, EntityRulesView, FieldRuleView, RulesView};
use crate::scope::{
    allowed_tokens, denied_tokens, is_invalid_scope_char, is_token, is_token_at,
    is_valid_scope_text, lemma_allows_iff_subset, lemma_common_all_iff_subset,
    lemma_common_some_iff_meet, parse_scope, scope_of, ParseScopeErr, ScopeView, Token,
};
use crate::{builds, names_of, Authorizable};
use std::cmp::Ordering;
use vstd::prelude::*;

verus! {

/// A scope allows access to itself exactly when it forbids none of the tokens
/// that it requires.
pub proof fn lemma_allows_itself_iff_consistent(x: ScopeView)
    requires
        x.is_finite(),
    ensures
        x.allows(x) <==> x.denied.disjoint(x.allowed),
{
    lemma_allows_iff_subset(x, x);
}

/// Reflexivity: a scope that forbids nothing allows access to itself.
pub proof fn lemma_allow_access_reflexive(x: ScopeView)
    requires
        x.is_finite(),
        x.denied.is_empty(),
    ensures
        x.allows(x),
        x.compare(x) == Some(Ordering::Equal),
{
    lemma_allows_iff_subset(x, x);
    assert(x.denied.intersect(x.allowed) =~= Set::empty());
    assert(x.allowed.intersect(x.allowed) =~= x.allowed);
}

/// The empty text is a scope that requires nothing and forbids nothing.
pub proof fn lemma_empty_text_parses()
    ensures
        parse_scope(Seq::empty()) == Ok::<ScopeView, ParseScopeErr>(
            ScopeView { allowed: Set::empty(), denied: Set::empty() },
        ),
{
    let text = Seq::<char>::empty();
    assert(allowed_tokens(text) =~= Set::empty());
    assert(denied_tokens(text) =~= Set::empty());
}

/// Bottom element: the scope of the empty text allows access to every scope,
/// and so to every scope that forbids nothing.
pub proof fn lemma_empty_scope_allows_all(x: ScopeView)
    requires
        x.is_finite(),
    ensures
        parse_scope(Seq::empty()) matches Ok(bottom) && bottom.allows(x),
{
    lemma_empty_text_parses();
    lemma_allows_iff_subset(scope_of(Seq::empty()), x);
}

/// Two scopes of which one forbids a token that the other requires are not
/// ordered: neither allows access to the other.
pub proof fn lemma_conflict_is_incomparable(l: ScopeView, r: ScopeView)
    requires
        l.is_finite(),
        r.is_finite(),
        !l.denied.intersect(r.allowed).is_empty() || !r.denied.intersect(l.allowed).is_empty(),
    ensures
        l.compare(r) is None,
        r.compare(l) is None,
        !l.allows(r),
        !r.allows(l),
{
    lemma_common_some_iff_meet(l.denied, r.allowed);
    lemma_common_some_iff_meet(r.denied, l.allowed);
    if !l.denied.intersect(r.allowed).is_empty() {
        assert(!l.denied.disjoint(r.allowed)) by {
            if l.denied.disjoint(r.allowed) {
                assert(l.denied.intersect(r.allowed) =~= Set::empty());
            }
        }
    }
    if !r.denied.intersect(l.allowed).is_empty() {
        assert(!r.denied.disjoint(l.allowed)) by {
            if r.denied.disjoint(l.allowed) {
                assert(r.denied.intersect(l.allowed) =~= Set::empty());
            }
        }
    }
}

/// The order of two scopes that are not in conflict is the order of their
/// required tokens by inclusion; and two scopes are in conflict exactly when
/// one forbids a token that the other requires.
pub proof fn lemma_compare_is_inclusion(l: ScopeView, r: ScopeView)
    requires
        l.is_finite(),
        r.is_finite(),
    ensures
        l.conflicts_with(r) <==> !l.denied.disjoint(r.allowed) || !r.denied.disjoint(l.allowed),
        l.compare(r) == Some(Ordering::Equal) <==> !l.conflicts_with(r) && l.allowed == r.allowed,
        l.compare(r) == Some(Ordering::Less) <==> !l.conflicts_with(r) && l.allowed.subset_of(
            r.allowed,
        ) && l.allowed != r.allowed,
        l.compare(r) == Some(Ordering::Greater) <==> !l.conflicts_with(r) && r.allowed.subset_of(
            l.allowed,
        ) && l.allowed != r.allowed,
{
    lemma_common_some_iff_meet(l.denied, r.allowed);
    lemma_common_some_iff_meet(r.denied, l.allowed);
    lemma_common_all_iff_subset(l.allowed, r.allowed);
    lemma_common_all_iff_subset(r.allowed, l.allowed);
    assert(l.allowed.intersect(r.allowed) =~= r.allowed.intersect(l.allowed));
    if l.allowed.subset_of(r.allowed) && r.allowed.subset_of(l.allowed) {
        assert(l.allowed =~= r.allowed);
    }
}

/// Comparing two scopes the other way round gives the converse order.
pub proof fn lemma_compare_converse(l: ScopeView, r: ScopeView)
    ensures
        r.compare(l) == match l.compare(r) {
            Some(Ordering::Less) => Some(Ordering::Greater),
            Some(Ordering::Greater) => Some(Ordering::Less),
            Some(Ordering::Equal) => Some(Ordering::Equal),
            None => None,
        },
{
    assert(l.allowed.intersect(r.allowed) =~= r.allowed.intersect(l.allowed));
}

/// Access is transitive as far as denials let it be: what allows access to a
/// scope allows access to every scope that is privileged to that one, unless
/// the two are in conflict.
pub proof fn lemma_allows_transitive(a: ScopeView, b: ScopeView, c: ScopeView)
    requires
        a.is_finite(),
        b.is_finite(),
        c.is_finite(),
        a.allows(b),
        b.allows(c),
        !a.conflicts_with(c),
    ensures
        a.allows(c),
{
    lemma_allows_iff_subset(a, b);
    lemma_allows_iff_subset(b, c);
    lemma_allows_iff_subset(a, c);
    lemma_common_some_iff_meet(a.denied, c.allowed);
    lemma_common_some_iff_meet(c.denied, a.allowed);
}

/// A word, that is a non-empty text without a space, has one token: itself.
pub proof fn lemma_tokens_of_word(word: Seq<char>)
    requires
        word.len() > 0,
        forall|i: int| 0 <= i < word.len() ==> word[i] != ' ',
    ensures
        forall|t: Token| #[trigger] is_token(word, t) <==> t == word,
        word[0] != '!' ==> scope_of(word) == (ScopeView {
            allowed: set![word],
            denied: Set::empty(),
        }),
        word[0] == '!' ==> scope_of(word) == (ScopeView {
            allowed: Set::empty(),
            denied: set![word.skip(1)],
        }),
{
    assert forall|t: Token| #[trigger] is_token(word, t) <==> t == word by {
        if is_token(word, t) {
            let (from, to) = choose|from: int, to: int| #[trigger]
                is_token_at(word, from, to) && word.subrange(from, to) == t;
            if from > 0 {
                assert(word[from - 1] != ' ');
            }
            if to < word.len() {
                assert(word[to] != ' ');
            }
            assert(word.subrange(0, word.len() as int) =~= word);
        }
        if t == word {
            assert(is_token_at(word, 0, word.len() as int));
            assert(word.subrange(0, word.len() as int) =~= word);
        }
    }
    assert(word.first() == word[0]);
    if word[0] == '!' {
        assert(seq!['!'] + word.skip(1) =~= word);
        assert forall|t: Token| #[trigger] denied_tokens(word).contains(t) <==> t == word.skip(
            1,
        ) by {
            if is_token(word, seq!['!'] + t) {
                assert((seq!['!'] + t).skip(1) =~= t);
            }
        }
        assert(denied_tokens(word) =~= set![word.skip(1)]);
        assert(allowed_tokens(word) =~= Set::empty());
    } else {
        assert forall|t: Token| !denied_tokens(word).contains(t) by {
            assert((seq!['!'] + t)[0] == '!');
        }
        assert(denied_tokens(word) =~= Set::empty());
        assert(allowed_tokens(word) =~= set![word]);
    }
}

/// The tokens of two texts joined by a space are the tokens of the one and
/// the tokens of the other: the scope of the joined text requires what either
/// requires and forbids what either forbids.
pub proof fn lemma_tokens_of_joined(a: Seq<char>, b: Seq<char>)
    ensures
        forall|t: Token| #[trigger]
            is_token(a + seq![' '] + b, t) <==> is_token(a, t) || is_token(b, t),
        scope_of(a + seq![' '] + b) == (ScopeView {
            allowed: scope_of(a).allowed.union(scope_of(b).allowed),
            denied: scope_of(a).denied.union(scope_of(b).denied),
        }),
{
    let joined = a + seq![' '] + b;
    let shift = a.len() + 1;
    assert(joined[a.len() as int] == ' ');
    assert forall|t: Token| #[trigger] is_token(joined, t) <==> is_token(a, t) || is_token(
        b,
        t,
    ) by {
        if is_token(joined, t) {
            let (from, to) = choose|from: int, to: int| #[trigger]
                is_token_at(joined, from, to) && joined.subrange(from, to) == t;
            if from <= a.len() < to {
                assert(joined[a.len() as int] != ' ');
            }
            if to <= a.len() {
                assert forall|k: int| from <= k < to implies #[trigger] a[k] != ' ' by {
                    assert(joined[k] != ' ');
                }
                if from > 0 {
                    assert(a[from - 1] == joined[from - 1]);
                }
                if to < a.len() {
                    assert(a[to] == joined[to]);
                }
                assert(is_token_at(a, from, to));
                assert(a.subrange(from, to) =~= t);
            } else {
                assert forall|k: int| from - shift <= k < to - shift implies #[trigger] b[k]
                    != ' ' by {
                    assert(joined[k + shift] != ' ');
                }
                if from - shift > 0 {
                    assert(b[from - shift - 1] == joined[from - 1]);
                }
                if to - shift < b.len() {
                    assert(b[to - shift] == joined[to]);
                }
                assert(is_token_at(b, from - shift, to - shift));
                assert(b.subrange(from - shift, to - shift) =~= t);
            }
        }
        if is_token(a, t) {
            let (from, to) = choose|from: int, to: int| #[trigger]
                is_token_at(a, from, to) && a.subrange(from, to) == t;
            assert forall|k: int| from <= k < to implies #[trigger] joined[k] != ' ' by {
                assert(a[k] != ' ');
            }
            if from > 0 {
                assert(a[from - 1] == joined[from - 1]);
            }
            if to < a.len() {
                assert(a[to] == joined[to]);
            }
            assert(is_token_at(joined, from, to));
            assert(joined.subrange(from, to) =~= t);
        }
        if is_token(b, t) {
            let (from, to) = choose|from: int, to: int| #[trigger]
                is_token_at(b, from, to) && b.subrange(from, to) == t;
            assert forall|k: int| from + shift <= k < to + shift implies #[trigger] joined[k]
                != ' ' by {
                assert(b[k - shift] != ' ');
            }
            if from > 0 {
                assert(b[from - 1] == joined[from + shift - 1]);
            }
            if to < b.len() {
                assert(b[to] == joined[to + shift]);
            }
            assert(joined[from + shift - 1] == ' ');
            assert(is_token_at(joined, from + shift, to + shift));
            assert(joined.subrange(from + shift, to + shift) =~= t);
        }
    }
    assert(allowed_tokens(joined) =~= allowed_tokens(a).union(allowed_tokens(b)));
    assert(denied_tokens(joined) =~= denied_tokens(a).union(denied_tokens(b)));
}

/// The scope of a text holds finitely many tokens.
pub proof fn lemma_scope_of_is_finite(text: Seq<char>)
    ensures
        scope_of(text).is_finite(),
    decreases text.len(),
{
    if exists|i: int| 0 <= i < text.len() && text[i] == ' ' {
        let i = choose|i: int| 0 <= i < text.len() && text[i] == ' ';
        let before = text.take(i);
        let after = text.skip(i + 1);
        assert(text =~= before + seq![' '] + after);
        lemma_tokens_of_joined(before, after);
        lemma_scope_of_is_finite(before);
        lemma_scope_of_is_finite(after);
    } else if text.len() == 0 {
        lemma_empty_text_parses();
        assert(text =~= Seq::empty());
    } else {
        lemma_tokens_of_word(text);
    }
}

/// The tokens of a scope are made of the characters of the grammar other than
/// the space. A required token is not empty and does not start with `!`.
pub proof fn lemma_tokens_are_well_formed(text: Seq<char>, t: Token)
    requires
        is_valid_scope_text(text),
        scope_of(text).allowed.contains(t) || scope_of(text).denied.contains(t),
    ensures
        forall|i: int| 0 <= i < t.len() ==> !is_invalid_scope_char(#[trigger] t[i]) && t[i] != ' ',
        scope_of(text).allowed.contains(t) ==> t.len() > 0 && t[0] != '!',
{
    let whole = if scope_of(text).allowed.contains(t) {
        t
    } else {
        seq!['!'] + t
    };
    let offset = whole.len() - t.len();
    assert(is_token(text, whole));
    let (from, to) = choose|from: int, to: int| #[trigger]
        is_token_at(text, from, to) && text.subrange(from, to) == whole;
    assert forall|i: int| 0 <= i < t.len() implies !is_invalid_scope_char(#[trigger] t[i])
        && t[i] != ' ' by {
        assert(t[i] == whole[i + offset]);
        assert(whole[i + offset] == text[from + i + offset]);
    }
}

/// Nothing is kept of a sequence exactly when every element maps to none.
proof fn lemma_filter_map_empty<A, B>(s: Seq<A>, f: spec_fn(A) -> Option<B>)
    ensures
        s.filter_map(f).len() == 0 <==> forall|i: int|
            0 <= i < s.len() ==> f(#[trigger] s[i]) is None,
    decreases s.len(),
{
    if s.len() > 0 {
        lemma_filter_map_empty(s.drop_last(), f);
        if s.filter_map(f).len() == 0 {
            assert forall|i: int| 0 <= i < s.len() implies f(#[trigger] s[i]) is None by {
                if i < s.len() - 1 {
                    assert(s.drop_last()[i] == s[i]);
                }
            }
        } else {
            if forall|i: int| 0 <= i < s.len() ==> f(#[trigger] s[i]) is None {
                assert forall|i: int| 0 <= i < s.drop_last().len() implies f(
                    #[trigger] s.drop_last()[i],
                ) is None by {
                    assert(s.drop_last()[i] == s[i]);
                }
                assert(f(s[s.len() - 1]) is None);
            }
        }
    }
}

/// Rules compile exactly when every text that they declare is a scope: no
/// character is rejected exactly when every scope of the entity, and every
/// scope that a field declares, is made of characters of the grammar.
pub proof fn lemma_rules_compile_iff_texts_are_scopes(rules: EntityRulesView)
    ensures
        rules.rejected().len() == 0 <==> {
            &&& forall|i: int|
                0 <= i < rules.scopes.len() ==> is_valid_scope_text(#[trigger] rules.scopes[i])
            &&& forall|j: int|
                0 <= j < rules.fields.len() ==> ((#[trigger] rules.fields[j]).scope matches Some(
                    text,
                ) ==> is_valid_scope_text(text))
        },
{
    lemma_filter_map_empty(rules.scopes, |text: Seq<char>| rejected_char(text));
    lemma_filter_map_empty(rules.fields, |field: FieldRuleView| field.rejected());
    if rules.rejected().len() == 0 {
        assert forall|i: int| 0 <= i < rules.scopes.len() implies is_valid_scope_text(
            #[trigger] rules.scopes[i],
        ) by {
            assert(rejected_char(rules.scopes[i]) is None);
        }
        assert forall|j: int| 0 <= j < rules.fields.len() implies ((
            #[trigger] rules.fields[j]).scope matches Some(text) ==> is_valid_scope_text(text)) by {
            assert(rules.fields[j].rejected() is None);
        }
    }
}

/// The verdict does not gate the redaction. Which fields are hidden depends
/// on the rules of the fields and on the requester, not on the scopes of the
/// entity; and where the entity builds its copy, the outcome holds the copy,
/// whatever the verdict is.
pub proof fn lemma_redaction_ignores_verdict<T>(
    rules: RulesView,
    scopes: Seq<ScopeView>,
    requester: ScopeView,
    inner: T,
    outcome: Result<AuthorizedResult<T>, AuthorizedError>,
)
    requires
        rules.outcome_with(requester, Ok(inner), outcome),
    ensures
        (RulesView { scopes, fields: rules.fields }).unauthorized_fields(requester)
            == rules.unauthorized_fields(requester),
        outcome matches Ok(result) && result.inner == inner && result.status == rules.status(
            requester,
        ) && names_of(result.unauthorized_fields@) == rules.unauthorized_fields(requester),
{
}

/// Two outcomes of an authorization say the same: the same verdict, the same
/// hidden fields, the same scope of the requester and the same redacted copy;
/// or the same error, or errors that report the same rejected characters.
pub open spec fn same_outcome<T>(
    first: Result<AuthorizedResult<T>, AuthorizedError>,
    second: Result<AuthorizedResult<T>, AuthorizedError>,
) -> bool {
    match (first, second) {
        (Ok(a), Ok(b)) => {
            &&& a.input_scope@ == b.input_scope@
            &&& a.inner == b.inner
            &&& a.status == b.status
            &&& names_of(a.unauthorized_fields@) == names_of(b.unauthorized_fields@)
        },
        (Err(a), Err(b)) => a == b || exists|rejected: Seq<char>| #[trigger]
            a.reports(rejected) && b.reports(rejected),
        _ => false,
    }
}

/// Idempotence: authorizing the same entity twice under the same rules, for
/// the same scope, gives the same outcome, provided that the entity's type
/// builds its redacted copies as a function of the entity and of the names of
/// the fields to hide.
pub proof fn lemma_authorize_idempotent<A: Authorizable>(
    rules: EntityRulesView,
    entity: A,
    requester: ScopeView,
    first: Result<AuthorizedResult<A::Authorized>, AuthorizedError>,
    second: Result<AuthorizedResult<A::Authorized>, AuthorizedError>,
)
    requires
        rules.authorizes(entity, requester, first),
        rules.authorizes(entity, requester, second),
        forall|
            hidden: Seq<Seq<char>>,
            one: Result<A::Authorized, AuthorizedError>,
            other: Result<A::Authorized, AuthorizedError>,
        |
            builds(entity, hidden, one) && builds(entity, hidden, other) ==> one == other,
    ensures
        same_outcome(first, second),
{
    if rules.rejected().len() == 0 {
        let hidden = rules.parsed().unauthorized_fields(requester);
        let one = choose|built: Result<A::Authorized, AuthorizedError>| #[trigger]
            builds(entity, hidden, built) && rules.parsed().outcome_with(requester, built, first);
        let other = choose|built: Result<A::Authorized, AuthorizedError>| #[trigger]
            builds(entity, hidden, built) && rules.parsed().outcome_with(requester, built, second);
        assert(one == other);
    } else {
        assert(first->Err_0.reports(rules.rejected()));
    }
}

} // verus!
