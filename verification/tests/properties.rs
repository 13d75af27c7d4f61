use wildflower::Pattern;

fn pat(source: &str) -> Pattern {
    Pattern::new(source)
}

fn canonical(source: &str) -> String {
    pat(source).render()
}

#[test]
fn test_literal_pattern_matches_only_its_text() {
    assert!(pat("wild").matches("wild"));
    assert!(!pat("wild").matches("wilde"));
    assert!(!pat("wild").matches("wil"));
    assert!(!pat("wild").matches(""));

    // escape characters are consumed: the literal text of `a\bc` is `abc`
    assert!(pat(r"a\bc").matches("abc"));
    assert!(!pat(r"a\bc").matches(r"a\bc"));
}

#[test]
fn test_star_matches_everything() {
    assert!(pat("*").matches(""));
    assert!(pat("*").matches("x"));
    assert!(pat("*").matches("a longer subject, with punctuation!"));
    assert!(pat("*").matches("🐈🐜"));
}

#[test]
fn test_doubled_star_equals_single_star() {
    assert!(pat("**").equals(&pat("*")));
    for subject in ["", "a", "abcdef", "🐈"] {
        assert_eq!(pat("**").matches(subject), pat("*").matches(subject));
    }
}

#[test]
fn test_render_compile_fixed_point() {
    for source in [
        "",
        "abc",
        "*",
        "**",
        "?*?",
        "??*",
        "a*b?c",
        r"\*lit\?\\",
        r"tail\",
        r"\",
        "🐈?*🐜",
        "mixed *?* runs ??",
    ] {
        let once = canonical(source);
        let twice = canonical(&once);
        assert_eq!(twice, once);
    }
}

#[test]
fn test_two_singles_match_exactly_two_scalars() {
    assert!(pat("??").matches("ab"));
    assert!(pat("??").matches("αß"));
    assert!(pat("??").matches("🐈🐜"));
    assert!(!pat("??").matches(""));
    assert!(!pat("??").matches("a"));
    assert!(!pat("??").matches("abc"));
}

#[test]
fn test_escaped_star_round_trip() {
    assert!(pat(r"\*").matches("*"));
    assert!(!pat(r"\*").matches("x"));
}

#[test]
fn test_scenarios() {
    assert!(pat("a*b").matches("aXYZb"));
    assert!(!pat("a*b").matches("aX"));

    assert!(pat("*a*b").matches("XaYb"));
    assert!(!pat("*a*b").matches("a"));

    assert!(pat("h?ll*!").matches("hello world!"));
    assert!(!pat("h?ll*!").matches("hell"));

    assert_eq!(pat("?*").render(), "*".to_string());
    assert_eq!(pat("??*").render(), "*".to_string());

    assert!(pat(r"\\").matches(r"\"));

    assert!(pat("").matches(""));
    assert!(!pat("a").matches(""));
}

#[test]
fn test_equality_is_structural() {
    // the single-wildcard count in a merged group is order-independent
    assert!(pat("??*").equals(&pat("?*?")));
    assert!(pat("?*").equals(&pat("*?")));
    // merged many-wildcards collapse to one group
    assert!(pat("**").equals(&pat("*")));
    // same canonical text, different groups: not the same pattern
    assert!(!pat("??*").equals(&pat("*")));
    // different literal texts stay different
    assert!(!pat("a").equals(&pat("b")));
    assert!(!pat("a?").equals(&pat("a")));
    // an escape splits the literal runs, so the elements differ even
    // though the two patterns match the very same subjects
    assert!(!pat(r"a\bc").equals(&pat("abc")));
}

#[test]
fn test_trailing_escape_vanishes() {
    assert!(pat("a\\").matches("a"));
    assert!(!pat("a\\").matches("a\\"));
    assert_eq!(pat("a\\").render(), "a".to_string());
    assert!(pat("\\").matches(""));
    assert_eq!(pat("\\").render(), "".to_string());
}

#[test]
fn test_leftmost_occurrence_policy() {
    // after an unbounded wildcard the matcher commits to the *first*
    // occurrence of the following literal: in `aaa` the leftmost `aa`
    // starts at the front, one character then remains unmatched, and the
    // matcher does not go back to the later occurrence
    assert!(!pat("*aa").matches("aaa"));
    assert!(pat("*aa").matches("baa"));
}

#[test]
fn test_wildcard_group_order_irrelevant() {
    for subject in ["", "a", "ab", "abc", "abcd"] {
        assert_eq!(pat("?*").matches(subject), pat("*?").matches(subject));
        assert_eq!(pat("??*").matches(subject), pat("*??").matches(subject));
    }
}
