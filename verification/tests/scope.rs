use authorized::scope::{IntoScope, ParseScopeErr, Scope};
use std::cmp::Ordering;

fn scope(text: &str) -> Scope {
    text.parse::<Scope>().unwrap()
}

#[test]
fn scope_can_be_parsed() {
    let scope_base = "cap1 cap2".parse::<Scope>().unwrap();
    let scope_less = "cap1".parse::<Scope>().unwrap();
    let scope_uncmp = "cap1 cap3".parse::<Scope>().unwrap();
    let user_scope = "user read:user".parse::<Scope>().unwrap();
    let user_only = "user".parse::<Scope>().unwrap();
    #[allow(unused_variables)]
    let guest_only = "guest".parse::<Scope>().unwrap();
    let read_user = "read:user".parse::<Scope>().unwrap();
    let not_admin = "!admin".parse::<Scope>().unwrap();

    let admin = "admin".parse::<Scope>().unwrap();
    let admin_read = "admin read:user".parse::<Scope>().unwrap();

    assert_eq!(scope_base.partial_cmp(&scope_less), Some(Ordering::Greater));
    assert_eq!(scope_less.partial_cmp(&scope_base), Some(Ordering::Less));

    assert_eq!(scope_base.partial_cmp(&scope_uncmp), None);
    assert_eq!(scope_uncmp.partial_cmp(&scope_base), None);

    assert_eq!(scope_base.partial_cmp(&scope_base), Some(Ordering::Equal));

    assert!(scope_base.priviledged_to(&scope_less));
    assert!(scope_base.priviledged_to(&scope_base));
    assert!(scope_less.allow_access(&scope_base));
    assert!(scope_base.allow_access(&scope_base));

    assert!(!scope_less.priviledged_to(&scope_base));
    assert!(!scope_base.allow_access(&scope_less));

    assert!(!scope_less.priviledged_to(&scope_uncmp));
    assert!(!scope_base.priviledged_to(&scope_uncmp));
    assert!(!scope_uncmp.allow_access(&scope_less));
    assert!(!scope_uncmp.allow_access(&scope_base));

    assert!(user_only.allow_access(&user_scope));
    assert!(read_user.allow_access(&user_scope));
    assert!(admin.allow_access(&admin));
    assert!(not_admin.allow_access(&user_scope));
    assert!(user_scope.priviledged_to(&not_admin));

    assert!(!not_admin.allow_access(&admin));
    assert!(not_admin.allow_access(&user_only));

    assert!(!not_admin.allow_access(&admin_read));
    assert!(!admin_read.priviledged_to(&not_admin));
}

#[test]
fn a_guest_is_no_user() {
    let guest_only = scope("guest");
    let user_scope = scope("user read:user");
    assert!(!guest_only.allow_access(&user_scope));
    assert!(!user_scope.allow_access(&guest_only));
    assert_eq!(guest_only.partial_cmp(&user_scope), None);
}

#[test]
fn privilege_follows_inclusion_of_required_tokens() {
    assert!(scope("cap1 cap2").priviledged_to(&scope("cap1")));
    assert!(!scope("cap1").priviledged_to(&scope("cap1 cap2")));
    assert_eq!(scope("cap1 cap2").partial_cmp(&scope("cap1 cap3")), None);
    assert_eq!(scope("cap1 cap3").partial_cmp(&scope("cap1 cap2")), None);
    assert!(!scope("cap1 cap2").allow_access(&scope("cap1 cap3")));
    assert!(!scope("cap1 cap3").allow_access(&scope("cap1 cap2")));
}

#[test]
fn user_resource_rules() {
    let admin_scope = scope("admin");
    let regular_scope = scope("regular");
    let guest_scope = scope("guest");

    let username_scope = scope("");
    let email_scope = scope("!guest");
    let password_scope = scope("admin");

    assert!(username_scope.allow_access(&guest_scope));
    assert!(!email_scope.allow_access(&guest_scope));
    assert!(!password_scope.allow_access(&guest_scope));

    assert!(username_scope.allow_access(&regular_scope));
    assert!(email_scope.allow_access(&regular_scope));
    assert!(!password_scope.allow_access(&regular_scope));

    assert!(username_scope.allow_access(&admin_scope));
    assert!(email_scope.allow_access(&admin_scope));
    assert!(password_scope.allow_access(&admin_scope));
}

#[test]
fn grammar_boundaries() {
    for ch in ['!', ' ', '#', '[', ']', '~', 'a', 'Z', '0', ':', '/', '_', '-'] {
        assert!(!Scope::invalid_scope_char(ch), "{:?} should be accepted", ch);
    }
    for ch in ['"', '\\', '\x7f', '\x1f', '\0', '\t', '\n', '\u{80}', 'é', '\u{10ffff}'] {
        assert!(Scope::invalid_scope_char(ch), "{:?} should be rejected", ch);
    }
    for code in 0u32..0x80 {
        let ch = char::from_u32(code).unwrap();
        let valid = code == 0x20
            || code == 0x21
            || (0x23..=0x5b).contains(&code)
            || (0x5d..=0x7e).contains(&code);
        assert_eq!(Scope::invalid_scope_char(ch), !valid, "code {:#x}", code);
    }
}

#[test]
fn every_valid_character_parses() {
    for code in 0x21u32..0x7f {
        let ch = char::from_u32(code).unwrap();
        let text = format!("a{}b", ch);
        match Scope::parse(&text) {
            Ok(_) => assert!(ch != '"' && ch != '\\'),
            Err(ParseScopeErr::InvalidCharacter(found)) => {
                assert!(ch == '"' || ch == '\\');
                assert_eq!(found, ch);
            }
        }
    }
}

#[test]
fn the_first_rejected_character_is_reported() {
    assert_eq!(Scope::parse("a\"b\\").unwrap_err(), ParseScopeErr::InvalidCharacter('"'));
    assert_eq!(Scope::parse("a\\b\"").unwrap_err(), ParseScopeErr::InvalidCharacter('\\'));
    assert_eq!(
        Scope::parse("caf\u{e9} \"").unwrap_err(),
        ParseScopeErr::InvalidCharacter('\u{e9}')
    );
    assert_eq!(Scope::parse("\t").unwrap_err(), ParseScopeErr::InvalidCharacter('\t'));
    assert_eq!(Scope::parse("ok ok\nno").unwrap_err(), ParseScopeErr::InvalidCharacter('\n'));
    assert_eq!(Scope::parse("a b \x7f").unwrap_err(), ParseScopeErr::InvalidCharacter('\x7f'));
    assert_eq!(
        "\u{1F600}!".parse::<Scope>().unwrap_err(),
        ParseScopeErr::InvalidCharacter('\u{1F600}')
    );
}

#[test]
fn error_message_names_the_character() {
    assert_eq!(
        ParseScopeErr::InvalidCharacter('"').to_string(),
        "Encountered invalid character in scope: \""
    );
    assert_eq!(
        ParseScopeErr::InvalidCharacter('\u{e9}').to_string(),
        "Encountered invalid character in scope: \u{e9}"
    );
    assert_eq!(
        Scope::parse("x\\y").unwrap_err().to_string(),
        "Encountered invalid character in scope: \\"
    );
}

#[test]
fn empty_tokens_are_discarded() {
    assert_eq!(scope(""), scope("   "));
    assert_eq!(scope("a b"), scope("  a   b  "));
    assert_eq!(scope("a b"), scope(" b a"));
    assert_eq!(scope(" !x"), scope("!x "));
    assert_ne!(scope("a"), scope(""));
}

#[test]
fn tokens_are_deduplicated() {
    assert_eq!(scope("a a a"), scope("a"));
    assert_eq!(scope("a b a b"), scope("b a"));
    assert_eq!(scope("!x !x a"), scope("a !x"));
    assert_eq!(scope("a a").partial_cmp(&scope("a")), Some(Ordering::Equal));
    assert_eq!(scope("a a").partial_cmp(&scope("a b")), Some(Ordering::Less));
    assert_eq!(scope("a b").partial_cmp(&scope("a a")), Some(Ordering::Greater));
}

#[test]
fn tokens_are_classified_by_their_first_character() {
    assert_ne!(scope("!x"), scope("x"));
    assert_ne!(scope("!x y"), scope("x !y"));
    // Only a leading `!` denies: `a!b` is a required token.
    assert!(scope("a!b").allow_access(&scope("a!b")));
    assert!(!scope("a!b").allow_access(&scope("a")));
    assert!(!scope("a!b").allow_access(&scope("b")));
    // `!!x` denies the token `!x`, which no text can require.
    assert_ne!(scope("!!x"), scope("!x"));
    assert!(scope("!!x").allow_access(&scope("x")));
    // The denied token is what follows the `!`.
    assert!(!scope("!x").allow_access(&scope("x")));
    assert!(scope("!x").allow_access(&scope("xx")));
    assert!(scope("!x").allow_access(&scope("!x")));
}

#[test]
fn a_lone_bang_denies_the_empty_token() {
    assert_ne!(scope("!"), scope(""));
    assert_eq!(scope("!"), scope(" !  ! "));
    assert_eq!(scope("! a"), scope("a !"));
    assert_ne!(scope("! a"), scope("a"));
    assert!(scope("!").allow_access(&scope("a")));
    assert_eq!(scope("!").partial_cmp(&scope("")), Some(Ordering::Equal));
}

#[test]
fn a_token_may_be_required_and_denied() {
    let both = scope("x !x");
    assert_eq!(both.partial_cmp(&both), None);
    assert!(!both.allow_access(&both));
    assert!(!both.priviledged_to(&both));
    assert!(!both.allow_access(&scope("x")));
    assert!(!scope("x").allow_access(&both));
    assert_eq!(both, both.clone());
    assert_eq!(both, scope("!x x"));
}

#[test]
fn comparison_counts_common_tokens() {
    assert_eq!(scope("").partial_cmp(&scope("")), Some(Ordering::Equal));
    assert_eq!(scope("").partial_cmp(&scope("a")), Some(Ordering::Less));
    assert_eq!(scope("a").partial_cmp(&scope("")), Some(Ordering::Greater));
    assert_eq!(scope("a b c").partial_cmp(&scope("c b a")), Some(Ordering::Equal));
    assert_eq!(scope("a b").partial_cmp(&scope("a b c")), Some(Ordering::Less));
    assert_eq!(scope("a b c").partial_cmp(&scope("b")), Some(Ordering::Greater));
    assert_eq!(scope("a b").partial_cmp(&scope("c d")), None);
    assert_eq!(scope("a b").partial_cmp(&scope("b c")), None);
    // Denied tokens that meet no required token do not matter to the order.
    assert_eq!(scope("a !z").partial_cmp(&scope("a !y")), Some(Ordering::Equal));
    assert_eq!(scope("!z").partial_cmp(&scope("a")), Some(Ordering::Less));
    assert_eq!(scope("a").partial_cmp(&scope("!z")), Some(Ordering::Greater));
    // A denied token that meets a required one wins over inclusion.
    assert_eq!(scope("a !b").partial_cmp(&scope("a b")), None);
    assert_eq!(scope("a b").partial_cmp(&scope("a !b")), None);
    assert_eq!(scope("!a").partial_cmp(&scope("a")), None);
}

#[test]
fn operators_follow_the_comparison() {
    assert!(scope("a") < scope("a b"));
    assert!(scope("a") <= scope("a b"));
    assert!(scope("a b") > scope("a"));
    assert!(scope("a b") >= scope("b a"));
    assert!(!(scope("a") < scope("b")));
    assert!(!(scope("a") >= scope("b")));
    assert!(!(scope("!a") <= scope("a")));
}

#[test]
fn equality_compares_both_sets() {
    assert_eq!(scope("a !b"), scope("!b a"));
    assert_ne!(scope("a !b"), scope("a"));
    assert_ne!(scope("a !b"), scope("a !c"));
    assert_ne!(scope("a !b"), scope("a !b !c"));
    assert_ne!(scope("a b"), scope("a"));
    assert_ne!(scope("a"), scope("b"));
    // Equal in the order, yet not equal: the denied tokens differ.
    assert_eq!(scope("a !b").partial_cmp(&scope("a")), Some(Ordering::Equal));
}

#[test]
fn a_copy_is_equal_to_its_source() {
    let source = scope("read:user !guest admin");
    let copy = source.clone();
    assert_eq!(copy, source);
    assert_eq!(copy.partial_cmp(&source), Some(Ordering::Equal));
    assert!(copy.allow_access(&scope("read:user admin")));
    assert!(!copy.allow_access(&scope("read:user admin guest")));
}

#[test]
fn a_scope_without_denials_allows_itself() {
    for text in ["", "a", "a b", "read:user admin x/y"] {
        let x = scope(text);
        assert!(x.allow_access(&x), "{:?}", text);
        assert!(x.priviledged_to(&x), "{:?}", text);
        assert_eq!(x.partial_cmp(&x), Some(Ordering::Equal));
    }
    // With denials it still does, unless it denies what it requires.
    assert!(scope("a !b").allow_access(&scope("a !b")));
    assert!(!scope("a !a").allow_access(&scope("a !a")));
}

#[test]
fn the_empty_scope_is_a_bottom_element() {
    let bottom = scope("");
    for text in ["", "a", "a b", "!a", "a !b", "x !x"] {
        assert!(bottom.allow_access(&scope(text)), "{:?}", text);
        assert!(scope(text).priviledged_to(&bottom), "{:?}", text);
    }
    assert!(bottom.priviledged_to(&bottom));
    assert!(!bottom.priviledged_to(&scope("a")));
    assert!(bottom.priviledged_to(&scope("!a")));
}

#[test]
fn a_denied_token_that_is_required_makes_scopes_incomparable() {
    let pairs = [("!a", "a"), ("b !a", "a b"), ("a", "!a"), ("a b !c", "a b c d"), ("!a !b", "b")];
    for (l, r) in pairs {
        let (l, r) = (scope(l), scope(r));
        assert_eq!(l.partial_cmp(&r), None);
        assert_eq!(r.partial_cmp(&l), None);
        assert!(!l.allow_access(&r));
        assert!(!r.allow_access(&l));
        assert!(!l.priviledged_to(&r));
        assert!(!r.priviledged_to(&l));
    }
}

#[test]
fn text_and_scopes_convert_into_scopes() {
    let from_str = "a !b".into_scope().unwrap();
    let from_string = String::from("!b a").into_scope().unwrap();
    let from_scope = from_str.into_scope().unwrap();
    assert_eq!(from_str, scope("a !b"));
    assert_eq!(from_string, from_str);
    assert_eq!(from_scope, from_str);
    assert_eq!("a\"".into_scope().unwrap_err(), ParseScopeErr::InvalidCharacter('"'));
    assert_eq!(String::from("\\").into_scope().unwrap_err(), ParseScopeErr::InvalidCharacter('\\'));
}

#[test]
fn long_text_is_parsed() {
    let mut text = String::new();
    for i in 0..200 {
        text.push_str(&format!(" tok{} !no{}", i, i));
    }
    let big = scope(&text);
    assert!(scope("tok0 tok199").allow_access(&big));
    assert!(!scope("tok200").allow_access(&big));
    assert!(!big.allow_access(&scope("no7 tok7")));
    assert_eq!(big.partial_cmp(&big.clone()), Some(Ordering::Equal));
}
