//! Scopes: sets of required and forbidden capability tokens.

use std::cmp::Ordering;
use vstd::prelude::*;
use vstd::set_lib::lemma_subset_equality;
use vstd::std_specs::cmp::{PartialEqSpecImpl, PartialOrdSpecImpl};
use vstd::std_specs::iter::IteratorSpec;

verus! {

/// A capability token, as the sequence of its characters.
pub type Token = Seq<char>;

/// The mathematical content of a [`Scope`]: the tokens it requires and the
/// tokens it forbids.
pub struct ScopeView {
    pub allowed: Set<Token>,
    pub denied: Set<Token>,
}

/// Why a text is not a scope.
#[derive(Debug, Clone, Copy, PartialEq, Eq, Structural)]
pub enum ParseScopeErr {
    /// A character was encountered which is not allowed to appear in scope
    /// text. Only the character is reported, not where it stands.
    InvalidCharacter(char),
}

impl ScopeView {
    /// The scope holds finitely many tokens, as every scope that is made from
    /// text does.
    pub open spec fn is_finite(self) -> bool {
        self.allowed.finite() && self.denied.finite()
    }

    /// One of the two scopes forbids a token that the other requires.
    pub open spec fn conflicts_with(self, other: ScopeView) -> bool {
        self.denied.intersect(other.allowed).len() > 0 || other.denied.intersect(
            self.allowed,
        ).len() > 0
    }

    /// How `self` stands to `other` in the partial order of scopes.
    ///
    /// Two scopes in conflict are not ordered. Otherwise the scopes are
    /// ordered as their required tokens are by inclusion, through the number
    /// of tokens that both require.
    pub open spec fn compare(self, other: ScopeView) -> Option<Ordering> {
        let common = self.allowed.intersect(other.allowed).len();
        if self.conflicts_with(other) {
            None
        } else if common == self.allowed.len() && common == other.allowed.len() {
            Some(Ordering::Equal)
        } else if common == self.allowed.len() {
            Some(Ordering::Less)
        } else if common == other.allowed.len() {
            Some(Ordering::Greater)
        } else {
            None
        }
    }

    /// `self`, read as what a resource requires, is satisfied by `grant`:
    /// `self` is less than or equal to `grant`.
    pub open spec fn allows(self, grant: ScopeView) -> bool {
        self.compare(grant) matches Some(Ordering::Less | Ordering::Equal)
    }
}

/// Whether `ch` may not appear in scope text.
///
/// Scope text is made of `!`, of the printable ASCII characters other than
/// `"` and `\`, and of the space that separates tokens.
pub open spec fn is_invalid_scope_char(ch: char) -> bool {
    !(ch == ' ' || ch == '!' || ('\x23' <= ch && ch <= '\x5b') || ('\x5d' <= ch && ch <= '\x7e'))
}

/// Every character of `text` belongs to the scope grammar.
pub open spec fn is_valid_scope_text(text: Seq<char>) -> bool {
    forall|i: int| 0 <= i < text.len() ==> !is_invalid_scope_char(#[trigger] text[i])
}

/// `i` is the position of the first character of `text` that the scope
/// grammar rejects.
pub open spec fn is_first_invalid(text: Seq<char>, i: int) -> bool {
    &&& 0 <= i < text.len()
    &&& is_invalid_scope_char(text[i])
    &&& forall|k: int| 0 <= k < i ==> !is_invalid_scope_char(#[trigger] text[k])
}

/// `text[from..to]` is a token of `text`: a non-empty run of characters other
/// than the space, which neither neighbour extends.
pub open spec fn is_token_at(text: Seq<char>, from: int, to: int) -> bool {
    &&& 0 <= from < to <= text.len()
    &&& forall|k: int| from <= k < to ==> #[trigger] text[k] != ' '
    &&& (from == 0 || text[from - 1] == ' ')
    &&& (to == text.len() || text[to] == ' ')
}

/// `token` is one of the space-separated, non-empty tokens of `text`.
pub open spec fn is_token(text: Seq<char>, token: Token) -> bool {
    exists|from: int, to: int| #[trigger]
        is_token_at(text, from, to) && text.subrange(from, to) == token
}

/// The tokens of `text` without a leading `!`, each taken once.
pub open spec fn allowed_tokens(text: Seq<char>) -> Set<Token> {
    Set::new(|t: Token| is_token(text, t) && t.first() != '!')
}

/// What follows the `!` in the tokens of `text` that start with one, each
/// taken once. The lone token `!` contributes the empty token.
pub open spec fn denied_tokens(text: Seq<char>) -> Set<Token> {
    Set::new(|t: Token| is_token(text, seq!['!'] + t))
}

/// The scope that the tokens of `text` make.
pub open spec fn scope_of(text: Seq<char>) -> ScopeView {
    ScopeView { allowed: allowed_tokens(text), denied: denied_tokens(text) }
}

/// The first character of `text` that the scope grammar rejects, where there
/// is one.
pub open spec fn first_invalid_char(text: Seq<char>) -> char {
    text[choose|i: int| is_first_invalid(text, i)]
}

/// What parsing `text` gives: the scope that its tokens make, or the first
/// character that the grammar rejects.
pub open spec fn parse_scope(text: Seq<char>) -> Result<ScopeView, ParseScopeErr> {
    if is_valid_scope_text(text) {
        Ok(scope_of(text))
    } else {
        Err(ParseScopeErr::InvalidCharacter(first_invalid_char(text)))
    }
}

/// No token of `text` starts before `at` and ends after it.
spec fn no_token_across(text: Seq<char>, at: int) -> bool {
    forall|from: int, to: int| #[trigger] is_token_at(text, from, to) ==> to <= at || at <= from
}

/// The required tokens of `text` that end at `end` or before.
spec fn allowed_before(text: Seq<char>, end: int) -> Set<Token> {
    Set::new(
        |t: Token|
            exists|from: int, to: int| #[trigger]
                is_token_at(text, from, to) && to <= end && text.subrange(from, to) == t
                    && t.first() != '!',
    )
}

/// The forbidden tokens of `text` whose `!`-token ends at `end` or before.
spec fn denied_before(text: Seq<char>, end: int) -> Set<Token> {
    Set::new(
        |t: Token|
            exists|from: int, to: int| #[trigger]
                is_token_at(text, from, to) && to <= end && text.subrange(from, to) == seq!['!']
                    + t,
    )
}

proof fn lemma_first_invalid_unique(text: Seq<char>)
    ensures
        forall|i: int, j: int| is_first_invalid(text, i) && is_first_invalid(text, j) ==> i == j,
{
}

proof fn lemma_valid_text_is_ascii(text: Seq<char>)
    requires
        is_valid_scope_text(text),
    ensures
        vstd::utf8::is_ascii_chars(text),
{
    assert forall|i: int| 0 <= i < text.len() implies '\0' <= #[trigger] text[i] <= '\u{7f}' by {
        assert(!is_invalid_scope_char(text[i]));
    }
}

/// Passing over a space neither completes nor splits a token.
proof fn lemma_skip_space(text: Seq<char>, at: int)
    requires
        0 <= at < text.len(),
        text[at] == ' ',
        no_token_across(text, at),
    ensures
        no_token_across(text, at + 1),
        allowed_before(text, at + 1) == allowed_before(text, at),
        denied_before(text, at + 1) == denied_before(text, at),
{
    assert forall|from: int, to: int| #[trigger] is_token_at(text, from, to) implies (to <= at
        || at + 1 <= from) && (to <= at + 1 ==> to <= at) by {
        if from <= at < to {
            assert(text[at] != ' ');
        }
    }
    assert(allowed_before(text, at + 1) =~= allowed_before(text, at));
    assert(denied_before(text, at + 1) =~= denied_before(text, at));
}

/// A run of characters without a space, between two token boundaries, is the
/// one token that ends in it.
proof fn lemma_take_token(text: Seq<char>, start: int, end: int)
    requires
        0 <= start < end <= text.len(),
        start == 0 || text[start - 1] == ' ',
        end == text.len() || text[end] == ' ',
        forall|k: int| start <= k < end ==> #[trigger] text[k] != ' ',
        no_token_across(text, start),
    ensures
        is_token_at(text, start, end),
        no_token_across(text, end),
        text[start] != '!' ==> allowed_before(text, end) == allowed_before(text, start).insert(
            text.subrange(start, end),
        ) && denied_before(text, end) == denied_before(text, start),
        text[start] == '!' ==> denied_before(text, end) == denied_before(text, start).insert(
            text.subrange(start + 1, end),
        ) && allowed_before(text, end) == allowed_before(text, start),
{
    let token = text.subrange(start, end);
    assert(is_token_at(text, start, end));
    // A token that reaches into the run is the run itself.
    assert forall|from: int, to: int| #[trigger]
        is_token_at(text, from, to) && start < to && from < end implies (from == start && to
        == end) by {
        assert(start <= from);
        if from > start {
            assert(text[from - 1] != ' ');
        }
        if to < end {
            assert(text[to] != ' ');
        }
        if to > end {
            assert(text[end] != ' ');
        }
    }
    assert(token.first() == text[start]);
    if text[start] == '!' {
        assert(token =~= seq!['!'] + text.subrange(start + 1, end));
    }
    assert forall|t: Token| #[trigger]
        allowed_before(text, end).contains(t) == (allowed_before(text, start).contains(t) || (t
            == token && text[start] != '!')) by {
        if allowed_before(text, end).contains(t) {
            let (from, to) = choose|from: int, to: int| #[trigger]
                is_token_at(text, from, to) && to <= end && text.subrange(from, to) == t
                    && t.first() != '!';
            if start < to {
                assert(from == start && to == end);
            }
        }
    }
    assert forall|t: Token| #[trigger]
        denied_before(text, end).contains(t) == (denied_before(text, start).contains(t) || (
        seq!['!'] + t == token)) by {
        if denied_before(text, end).contains(t) {
            let (from, to) = choose|from: int, to: int| #[trigger]
                is_token_at(text, from, to) && to <= end && text.subrange(from, to) == seq!['!']
                    + t;
            if start < to {
                assert(from == start && to == end);
            }
        }
        if seq!['!'] + t == token {
            assert(is_token_at(text, start, end));
        }
    }
    if text[start] == '!' {
        let rest = text.subrange(start + 1, end);
        assert forall|t: Token| seq!['!'] + t == token implies t == rest by {
            assert((seq!['!'] + t).subrange(1, token.len() as int) =~= t);
            assert(token.subrange(1, token.len() as int) =~= rest);
        }
        assert(denied_before(text, end) =~= denied_before(text, start).insert(rest));
        assert(allowed_before(text, end) =~= allowed_before(text, start));
    } else {
        assert forall|t: Token| seq!['!'] + t == token implies false by {
            assert((seq!['!'] + t)[0] == '!');
        }
        assert(allowed_before(text, end) =~= allowed_before(text, start).insert(token));
        assert(denied_before(text, end) =~= denied_before(text, start));
    }
}

/// Counting one more string of `left` adds one to the number of common
/// tokens exactly when `right` holds it.
proof fn lemma_count_step(left: Seq<Token>, right: Set<Token>, i: int)
    requires
        left.no_duplicates(),
        0 <= i < left.len(),
    ensures
        left.take(i + 1).to_set().intersect(right).len() == left.take(i).to_set().intersect(
            right,
        ).len() + (if right.contains(left[i]) {
            1int
        } else {
            0int
        }),
{
    let counted = left.take(i);
    let extended = left.take(i + 1);
    let before = counted.to_set();
    let after = extended.to_set();
    vstd::seq_lib::seq_to_set_is_finite(counted);
    assert forall|t: Token| after.contains(t) == before.insert(left[i]).contains(t) by {
        if before.contains(t) {
            let k = choose|k: int| 0 <= k < counted.len() && counted[k] == t;
            assert(extended[k] == t);
        }
        if t == left[i] {
            assert(extended[i] == t);
        }
        if after.contains(t) {
            let k = choose|k: int| 0 <= k < extended.len() && extended[k] == t;
            if k < i {
                assert(counted[k] == t);
            }
        }
    }
    assert(after =~= before.insert(left[i]));
    if before.contains(left[i]) {
        let k = choose|k: int| 0 <= k < counted.len() && counted[k] == left[i];
        assert(left[k] == left[i]);
    }
    if right.contains(left[i]) {
        assert(after.intersect(right) =~= before.intersect(right).insert(left[i]));
    } else {
        assert(after.intersect(right) =~= before.intersect(right));
    }
}

/// A finite set has as many elements in common with another as it has
/// elements exactly when the other includes it.
pub proof fn lemma_common_all_iff_subset(a: Set<Token>, b: Set<Token>)
    requires
        a.finite(),
    ensures
        a.intersect(b).len() == a.len() <==> a.subset_of(b),
{
    if a.subset_of(b) {
        assert(a.intersect(b) =~= a);
    }
    if a.intersect(b).len() == a.len() {
        lemma_subset_equality(a.intersect(b), a);
    }
}

/// Two finite sets share an element exactly when their intersection counts
/// at least one.
pub proof fn lemma_common_some_iff_meet(a: Set<Token>, b: Set<Token>)
    requires
        a.finite(),
    ensures
        a.intersect(b).len() > 0 <==> !a.disjoint(b),
{
    if a.intersect(b).len() > 0 {
        let t = a.intersect(b).choose();
        assert(a.intersect(b).finite());
        assert(a.intersect(b).contains(t));
    }
    if !a.disjoint(b) {
        let t = choose|t: Token| a.contains(t) && b.contains(t);
        assert(a.intersect(b).contains(t));
        if a.intersect(b).len() == 0 {
            assert(a.intersect(b) =~= Set::empty());
        }
    }
}

/// The outcome of a conversion into a scope, with the scope taken by its
/// view.
pub open spec fn scope_result_view(outcome: Result<Scope, ParseScopeErr>) -> Result<
    ScopeView,
    ParseScopeErr,
> {
    match outcome {
        Ok(scope) => Ok(scope@),
        Err(e) => Err(e),
    }
}

/// The characters of each string of `tokens`, in the same order.
spec fn token_seq(tokens: Seq<String>) -> Seq<Token> {
    tokens.map_values(|s: String| s@)
}

/// A set of capability tokens that a resource requires, with a set of tokens
/// that it refuses.
///
/// A scope is made from text by [`Scope::parse`] and never changes. Two
/// scopes are compared by [`ScopeView::compare`]; the order is partial.
#[derive(Debug)]
pub struct Scope {
    denied_tokens: Vec<String>,
    allowed_tokens: Vec<String>,
}

impl View for Scope {
    type V = ScopeView;

    closed spec fn view(&self) -> ScopeView {
        ScopeView {
            allowed: token_seq(self.allowed_tokens@).to_set(),
            denied: token_seq(self.denied_tokens@).to_set(),
        }
    }
}

impl Scope {
    /// No token is stored twice.
    #[verifier::type_invariant]
    spec fn no_token_twice(&self) -> bool {
        &&& token_seq(self.allowed_tokens@).no_duplicates()
        &&& token_seq(self.denied_tokens@).no_duplicates()
    }

    /// A scope holds finitely many tokens.
    pub proof fn lemma_finite(self)
        ensures
            self@.is_finite(),
    {
        vstd::seq_lib::seq_to_set_is_finite(token_seq(self.allowed_tokens@));
        vstd::seq_lib::seq_to_set_is_finite(token_seq(self.denied_tokens@));
    }

    /// Decides whether `ch` is rejected by the scope grammar.
    pub fn invalid_scope_char(ch: char) -> (invalid: bool)
        ensures
            invalid == is_invalid_scope_char(ch),
    {
        match ch {
            '\x21' => false,
            ch if ch >= '\x23' && ch <= '\x5b' => false,
            ch if ch >= '\x5d' && ch <= '\x7e' => false,
            ' ' => false,
            _ => true,
        }
    }

    /// Builds the scope that `text` describes.
    ///
    /// Tokens are separated by spaces. A token that starts with `!` forbids
    /// what follows the `!`; any other token is required. Text with a
    /// character outside the grammar is rejected with the first such
    /// character.
    pub fn parse(text: &str) -> (parsed: Result<Scope, ParseScopeErr>)
        ensures
            scope_result_view(parsed) == parse_scope(text@),
    {
        if let Some(ch) = Self::find_invalid_char(text) {
            proof {
                lemma_first_invalid_unique(text@);
            }
            return Err(ParseScopeErr::InvalidCharacter(ch));
        }
        proof {
            lemma_valid_text_is_ascii(text@);
        }
        let n = text.unicode_len();
        let mut allowed: Vec<String> = Vec::new();
        let mut denied: Vec<String> = Vec::new();
        let mut i: usize = 0;
        proof {
            assert(token_seq(allowed@).to_set() =~= allowed_before(text@, 0));
            assert(token_seq(denied@).to_set() =~= denied_before(text@, 0));
        }
        while i < n
            invariant
                n == text@.len(),
                i <= n,
                text.is_ascii(),
                i == 0 || i == n || text@[i - 1] == ' ' || text@[i as int] == ' ',
                no_token_across(text@, i as int),
                token_seq(allowed@).no_duplicates(),
                token_seq(denied@).no_duplicates(),
                token_seq(allowed@).to_set() == allowed_before(text@, i as int),
                token_seq(denied@).to_set() == denied_before(text@, i as int),
            decreases n - i,
        {
            if text.get_ascii(i) == 0x20u8 {
                proof {
                    lemma_skip_space(text@, i as int);
                }
                i += 1;
            } else {
                let start = i;
                while i < n && text.get_ascii(i) != 0x20u8
                    invariant
                        n == text@.len(),
                        start <= i <= n,
                        text.is_ascii(),
                        forall|k: int| start <= k < i ==> #[trigger] text@[k] != ' ',
                    decreases n - i,
                {
                    i += 1;
                }
                proof {
                    lemma_take_token(text@, start as int, i as int);
                }
                if text.get_ascii(start) == 0x21u8 {
                    Self::insert_token(&mut denied, text.substring_ascii(start + 1, i));
                } else {
                    Self::insert_token(&mut allowed, text.substring_ascii(start, i));
                }
            }
        }
        proof {
            assert(allowed_before(text@, n as int) =~= allowed_tokens(text@));
            assert(denied_before(text@, n as int) =~= denied_tokens(text@));
        }
        Ok(Scope { denied_tokens: denied, allowed_tokens: allowed })
    }

    /// Determines if this scope has enough privileges to access a resource
    /// that requires `rhs`: whether `rhs` is less than or equal to `self`.
    #[must_use]
    pub fn priviledged_to(&self, rhs: &Self) -> (privileged: bool)
        ensures
            privileged == rhs@.allows(self@),
            privileged == (rhs@.allowed.subset_of(self@.allowed) && rhs@.denied.disjoint(
                self@.allowed,
            ) && self@.denied.disjoint(rhs@.allowed)),
    {
        proof {
            self.lemma_finite();
            rhs.lemma_finite();
            lemma_allows_iff_subset(rhs@, self@);
        }
        rhs <= self
    }

    /// Determines if a resource protected by this scope should allow access
    /// to a requester who holds `rhs`: whether `self` is less than or equal
    /// to `rhs`.
    #[must_use]
    pub fn allow_access(&self, rhs: &Self) -> (allowed: bool)
        ensures
            allowed == self@.allows(rhs@),
            allowed == (self@.allowed.subset_of(rhs@.allowed) && self@.denied.disjoint(
                rhs@.allowed,
            ) && rhs@.denied.disjoint(self@.allowed)),
    {
        proof {
            self.lemma_finite();
            rhs.lemma_finite();
            lemma_allows_iff_subset(self@, rhs@);
        }
        self <= rhs
    }

    /// Whether `token` is one of `tokens`.
    fn holds_token(tokens: &Vec<String>, token: &String) -> (found: bool)
        ensures
            found == token_seq(tokens@).to_set().contains(token@),
    {
        let mut j: usize = 0;
        while j < tokens.len()
            invariant
                j <= tokens.len(),
                forall|k: int| 0 <= k < j ==> #[trigger] token_seq(tokens@)[k] != token@,
            decreases tokens.len() - j,
        {
            if tokens[j] == *token {
                assert(token_seq(tokens@)[j as int] == token@);
                return true;
            }
            j += 1;
        }
        false
    }

    /// Counts the tokens of `left` that `right` holds too.
    fn count_common(left: &Vec<String>, right: &Vec<String>) -> (count: usize)
        requires
            token_seq(left@).no_duplicates(),
        ensures
            count == token_seq(left@).to_set().intersect(token_seq(right@).to_set()).len(),
    {
        let mut count: usize = 0;
        let mut i: usize = 0;
        proof {
            assert(token_seq(left@).take(0).to_set().intersect(token_seq(right@).to_set())
                =~= Set::empty());
        }
        while i < left.len()
            invariant
                i <= left.len(),
                count <= i,
                token_seq(left@).no_duplicates(),
                count == token_seq(left@).take(i as int).to_set().intersect(
                    token_seq(right@).to_set(),
                ).len(),
            decreases left.len() - i,
        {
            proof {
                lemma_count_step(token_seq(left@), token_seq(right@).to_set(), i as int);
            }
            if Self::holds_token(right, &left[i]) {
                count += 1;
            }
            i += 1;
        }
        proof {
            assert(token_seq(left@).take(left.len() as int) =~= token_seq(left@));
        }
        count
    }

    /// Adds `token` to `tokens` unless it is there already.
    fn insert_token(tokens: &mut Vec<String>, token: &str)
        requires
            token_seq(old(tokens)@).no_duplicates(),
        ensures
            token_seq(final(tokens)@).no_duplicates(),
            token_seq(final(tokens)@).to_set() == token_seq(old(tokens)@).to_set().insert(token@),
    {
        let owned = token.to_owned();
        let mut j: usize = 0;
        while j < tokens.len()
            invariant
                j <= tokens.len(),
                *tokens == *old(tokens),
                token_seq(tokens@).no_duplicates(),
                owned@ == token@,
                forall|k: int| 0 <= k < j ==> #[trigger] token_seq(tokens@)[k] != token@,
            decreases tokens.len() - j,
        {
            if tokens[j] == owned {
                proof {
                    assert(token_seq(tokens@)[j as int] == token@);
                    assert(token_seq(tokens@).to_set().insert(token@) =~= token_seq(
                        tokens@,
                    ).to_set());
                }
                return ;
            }
            j += 1;
        }
        tokens.push(owned);
        proof {
            let before = token_seq(old(tokens)@);
            let after = token_seq(tokens@);
            assert(after =~= before.push(token@));
            assert forall|t: Token| after.to_set().contains(t) == before.to_set().insert(
                token@,
            ).contains(t) by {
                if before.contains(t) {
                    let k = choose|k: int| 0 <= k < before.len() && before[k] == t;
                    assert(after[k] == t);
                }
                if t == token@ {
                    assert(after[before.len() as int] == t);
                }
            }
            assert(after.to_set() =~= before.to_set().insert(token@));
        }
    }

    /// Copies a list of tokens.
    fn clone_tokens(tokens: &Vec<String>) -> (copy: Vec<String>)
        ensures
            copy@ == tokens@,
    {
        let mut copy: Vec<String> = Vec::new();
        let mut i: usize = 0;
        while i < tokens.len()
            invariant
                i <= tokens.len(),
                copy@ == tokens@.take(i as int),
            decreases tokens.len() - i,
        {
            copy.push(tokens[i].clone());
            proof {
                assert(copy@ =~= tokens@.take(i + 1));
            }
            i += 1;
        }
        proof {
            assert(tokens@.take(tokens.len() as int) =~= tokens@);
        }
        copy
    }

    /// Looks for the first character of `text` that the grammar rejects.
    fn find_invalid_char(text: &str) -> (found: Option<char>)
        ensures
            match found {
                Some(ch) => exists|i: int| is_first_invalid(text@, i) && text@[i] == ch,
                None => is_valid_scope_text(text@),
            },
    {
        let mut chars = text.chars();
        let ghost mut seen: int = 0;
        loop
            invariant
                0 <= seen <= text@.len(),
                chars.remaining() == text@.skip(seen),
                forall|k: int| 0 <= k < seen ==> !is_invalid_scope_char(#[trigger] text@[k]),
            decreases text@.len() - seen,
        {
            match chars.next() {
                None => {
                    return None;
                },
                Some(ch) => {
                    if Self::invalid_scope_char(ch) {
                        assert(is_first_invalid(text@, seen));
                        return Some(ch);
                    }
                    proof {
                        seen = seen + 1;
                    }
                },
            }
        }
    }
}

/// A requirement is satisfied by a grant exactly when the grant holds every
/// required token and neither scope forbids a token that the other requires.
pub proof fn lemma_allows_iff_subset(required: ScopeView, grant: ScopeView)
    requires
        required.is_finite(),
        grant.is_finite(),
    ensures
        required.allows(grant) <==> (required.allowed.subset_of(grant.allowed)
            && required.denied.disjoint(grant.allowed) && grant.denied.disjoint(required.allowed)),
{
    lemma_common_all_iff_subset(required.allowed, grant.allowed);
    lemma_common_some_iff_meet(required.denied, grant.allowed);
    lemma_common_some_iff_meet(grant.denied, required.allowed);
}

impl Clone for Scope {
    fn clone(&self) -> (copy: Self)
        ensures
            copy@ == self@,
    {
        proof {
            use_type_invariant(self);
        }
        Scope {
            denied_tokens: Self::clone_tokens(&self.denied_tokens),
            allowed_tokens: Self::clone_tokens(&self.allowed_tokens),
        }
    }
}

impl std::str::FromStr for Scope {
    type Err = ParseScopeErr;

    /// Parses `string` as [`Scope::parse`] does.
    fn from_str(string: &str) -> (parsed: Result<Self, ParseScopeErr>)
        ensures
            scope_result_view(parsed) == parse_scope(string@),
    {
        Scope::parse(string)
    }
}

impl Eq for Scope {

}

/// What can be turned into a scope: text that is parsed, or a scope that is
/// copied.
pub trait IntoScope {
    /// Converts `self` into a scope.
    fn into_scope(&self) -> Result<Scope, ParseScopeErr>;
}

/// `converted` is what the type of `source` may give when it converts
/// `source` into a scope.
pub open spec fn converts<T: IntoScope>(
    source: T,
    converted: Result<Scope, ParseScopeErr>,
) -> bool {
    call_ensures(T::into_scope, (&source,), converted)
}

impl IntoScope for &str {
    /// Parses the text.
    fn into_scope(&self) -> (converted: Result<Scope, ParseScopeErr>)
        ensures
            scope_result_view(converted) == parse_scope(self@),
    {
        Scope::parse(self)
    }
}

impl IntoScope for String {
    /// Parses the text.
    fn into_scope(&self) -> (converted: Result<Scope, ParseScopeErr>)
        ensures
            scope_result_view(converted) == parse_scope(self@),
    {
        Scope::parse(self.as_str())
    }
}

impl IntoScope for Scope {
    /// Copies the scope.
    fn into_scope(&self) -> (converted: Result<Scope, ParseScopeErr>)
        ensures
            scope_result_view(converted) == Ok::<ScopeView, ParseScopeErr>(self@),
    {
        Ok(self.clone())
    }
}

/// `String::push` of std: the text grows by the one character `ch`, at its
/// end.
#[verifier::external_body]
fn push_char(text: &mut String, ch: char)
    ensures
        final(text)@ == old(text)@.push(ch),
{
    text.push(ch)
}

impl ParseScopeErr {
    /// The text that every message of this error starts with.
    pub open spec fn message_prefix() -> Seq<char> {
        "Encountered invalid character in scope: "@
    }

    /// Describes the error for a reader: the prefix, then the character that
    /// was rejected.
    pub fn to_string(&self) -> (message: String)
        ensures
            match *self {
                ParseScopeErr::InvalidCharacter(ch) => message@ == Self::message_prefix().push(ch),
            },
    {
        match self {
            ParseScopeErr::InvalidCharacter(chr) => {
                let mut message = "Encountered invalid character in scope: ".to_owned();
                push_char(&mut message, *chr);
                message
            },
        }
    }
}

impl PartialEq for Scope {
    /// Two scopes are equal when they require the same tokens and forbid the
    /// same tokens.
    fn eq(&self, other: &Self) -> (equal: bool) {
        proof {
            use_type_invariant(self);
            use_type_invariant(other);
            lemma_same_tokens(self.allowed_tokens@, other.allowed_tokens@);
            lemma_same_tokens(self.denied_tokens@, other.denied_tokens@);
        }
        self.allowed_tokens.len() == other.allowed_tokens.len() && Self::count_common(
            &self.allowed_tokens,
            &other.allowed_tokens,
        ) == self.allowed_tokens.len() && self.denied_tokens.len() == other.denied_tokens.len()
            && Self::count_common(&self.denied_tokens, &other.denied_tokens)
            == self.denied_tokens.len()
    }
}

impl PartialEqSpecImpl for Scope {
    open spec fn obeys_eq_spec() -> bool {
        true
    }

    open spec fn eq_spec(&self, other: &Scope) -> bool {
        self@ == other@
    }
}

impl PartialOrd for Scope {
    /// Compares the two scopes as [`ScopeView::compare`] describes.
    fn partial_cmp(&self, rhs: &Self) -> (order: Option<Ordering>) {
        proof {
            use_type_invariant(self);
            use_type_invariant(rhs);
            token_seq(self.allowed_tokens@).unique_seq_to_set();
            token_seq(rhs.allowed_tokens@).unique_seq_to_set();
        }
        if !self.denied_tokens.is_empty() || !rhs.denied_tokens.is_empty() {
            let lhs_denied_intersect_count = Self::count_common(
                &self.denied_tokens,
                &rhs.allowed_tokens,
            );
            let rhs_denied_intersect_count = Self::count_common(
                &rhs.denied_tokens,
                &self.allowed_tokens,
            );

            if lhs_denied_intersect_count > 0 || rhs_denied_intersect_count > 0 {
                return None;
            }
        } else {
            proof {
                assert(self@.denied =~= Set::empty());
                assert(rhs@.denied =~= Set::empty());
                assert(self@.denied.intersect(rhs@.allowed) =~= Set::empty());
                assert(rhs@.denied.intersect(self@.allowed) =~= Set::empty());
            }
        }

        let intersect_count = Self::count_common(&self.allowed_tokens, &rhs.allowed_tokens);

        if intersect_count == self.allowed_tokens.len() && intersect_count
            == rhs.allowed_tokens.len() {
            Some(Ordering::Equal)
        } else if intersect_count == self.allowed_tokens.len() {
            Some(Ordering::Less)
        } else if intersect_count == rhs.allowed_tokens.len() {
            Some(Ordering::Greater)
        } else {
            None
        }
    }
}

impl PartialOrdSpecImpl for Scope {
    open spec fn obeys_partial_cmp_spec() -> bool {
        true
    }

    open spec fn partial_cmp_spec(&self, other: &Scope) -> Option<Ordering> {
        self@.compare(other@)
    }
}

/// Two lists without repetition hold the same tokens exactly when they are
/// equally long and every token of the first is in the second.
proof fn lemma_same_tokens(left: Seq<String>, right: Seq<String>)
    requires
        token_seq(left).no_duplicates(),
        token_seq(right).no_duplicates(),
    ensures
        token_seq(left).to_set() == token_seq(right).to_set() <==> (left.len() == right.len()
            && token_seq(left).to_set().intersect(token_seq(right).to_set()).len()
            == left.len()),
{
    let a = token_seq(left).to_set();
    let b = token_seq(right).to_set();
    vstd::seq_lib::seq_to_set_is_finite(token_seq(left));
    vstd::seq_lib::seq_to_set_is_finite(token_seq(right));
    token_seq(left).unique_seq_to_set();
    token_seq(right).unique_seq_to_set();
    lemma_common_all_iff_subset(a, b);
    if left.len() == right.len() && a.subset_of(b) {
        lemma_subset_equality(a, b);
    }
}

} // verus!
