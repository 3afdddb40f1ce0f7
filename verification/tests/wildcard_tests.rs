use wildcard::Wildcard;
use wildcard::WildcardParseError;

fn parsed(pattern: &str) -> Wildcard {
    Wildcard::parse(pattern).unwrap()
}

#[test]
fn empty_wildcard_matches_only_empty() {
    let w = Wildcard::new();
    assert!(w.matches(""));
    assert!(!w.matches("a"));
    assert_eq!(w.render(), "");
}

#[test]
fn empty_pattern_matches_only_empty() {
    let w = parsed("");
    assert!(w.matches(""));
    assert!(!w.matches("x"));
    assert_eq!(w.render(), "");
}

#[test]
fn literal_matches_itself_only() {
    let w = parsed("hello");
    assert!(w.matches("hello"));
    assert!(!w.matches("hellx"));
    assert!(!w.matches("hell"));
    assert!(!w.matches("helloo"));
    assert!(!w.matches(""));
}

#[test]
fn star_matches_everything() {
    let w = parsed("*");
    assert!(w.matches(""));
    assert!(w.matches("a"));
    assert!(w.matches("anything at all"));
}

#[test]
fn question_matches_exactly_one_character() {
    let w = parsed("?");
    assert!(!w.matches(""));
    assert!(w.matches("a"));
    assert!(w.matches("Z"));
    assert!(!w.matches("ab"));
}

#[test]
fn class_members_match() {
    let w = parsed("[abc]");
    assert!(w.matches("a"));
    assert!(w.matches("b"));
    assert!(w.matches("c"));
    assert!(!w.matches("d"));
    assert!(!w.matches(""));
    assert!(!w.matches("ab"));
}

#[test]
fn negated_class_inverts_membership() {
    let w = parsed("[!abc]");
    assert!(w.matches("d"));
    assert!(!w.matches("a"));
    assert!(!w.matches(""));
}

#[test]
fn range_class_is_inclusive() {
    let w = parsed("[a-z]");
    assert!(w.matches("m"));
    assert!(w.matches("a"));
    assert!(w.matches("z"));
    assert!(!w.matches("M"));
    assert!(!w.matches("0"));
}

#[test]
fn inverted_range_is_rejected() {
    assert_eq!(
        Wildcard::parse("[z-a]"),
        Err(WildcardParseError::InvalidCharRange('z', 'a')),
    );
}

#[test]
fn unterminated_class_is_incomplete() {
    assert_eq!(Wildcard::parse("[abc"), Err(WildcardParseError::Incomplete));
}

#[test]
fn lone_open_bracket_is_incomplete() {
    assert_eq!(Wildcard::parse("["), Err(WildcardParseError::Incomplete));
}

#[test]
fn negation_mark_alone_is_incomplete() {
    assert_eq!(Wildcard::parse("[!"), Err(WildcardParseError::Incomplete));
    assert_eq!(Wildcard::parse("[!]"), Err(WildcardParseError::Incomplete));
}

#[test]
fn range_missing_high_end_is_incomplete() {
    assert_eq!(Wildcard::parse("[a-"), Err(WildcardParseError::Incomplete));
}

#[test]
fn mixed_pattern_backtracks() {
    let w = parsed("a*b?c");
    assert!(w.matches("abXc"));
    assert!(w.matches("aXXXbYc"));
    assert!(!w.matches("abc"));
}

#[test]
fn star_backtracks_to_later_occurrence() {
    let w = parsed("a*bc");
    assert!(w.matches("abXbc"));
    assert!(w.matches("abc"));
    assert!(!w.matches("abXb"));
}

#[test]
fn class_right_after_open_bracket_takes_bracket_literally() {
    let w = parsed("[]]");
    assert!(w.matches("]"));
    assert!(!w.matches("x"));
}

#[test]
fn leading_dash_is_a_member() {
    let w = parsed("[-a]");
    assert!(w.matches("-"));
    assert!(w.matches("a"));
    assert!(!w.matches("b"));
}

#[test]
fn class_mixing_members_and_ranges() {
    let w = parsed("[xy0-9]");
    assert!(w.matches("x"));
    assert!(w.matches("y"));
    assert!(w.matches("5"));
    assert!(!w.matches("z"));
}

#[test]
fn render_round_trips_canonical_patterns() {
    for p in [
        "",
        "blarg",
        "*",
        "?",
        "a*b?c",
        "[abc]",
        "[!abc]",
        "[a-z]",
        "[ab-z]",
        "[!0-9x]",
        "x[0-9]y*",
        "[-a]",
        "[]]",
    ] {
        let w = Wildcard::parse(p).unwrap();
        assert_eq!(w.render(), p, "pattern {p:?} did not round-trip");
    }
}

#[test]
fn render_of_demo_pattern_round_trips() {
    let p = "blarg[!!xy0-9a-z.[]/*.JP?";
    let w = parsed(p);
    assert_eq!(w.render(), p);
    assert!(w.matches("blargQ/photo.JPG"));
    assert!(!w.matches("blargq/photo.JPG"));
}

#[test]
fn adjacent_literals_coalesce_across_brackets_only() {
    let w = parsed("ab[cd]ef");
    assert!(w.matches("abcef"));
    assert!(w.matches("abdef"));
    assert!(!w.matches("abef"));
    assert!(!w.matches("abxef"));
    assert_eq!(w.render(), "ab[cd]ef");
}

#[test]
fn dash_in_literal_context_is_ordinary() {
    let w = parsed("a-b");
    assert!(w.matches("a-b"));
    assert!(!w.matches("ab"));
    assert_eq!(w.render(), "a-b");
}

#[test]
fn close_bracket_in_literal_context_is_ordinary() {
    let w = parsed("a]b");
    assert!(w.matches("a]b"));
    assert_eq!(w.render(), "a]b");
}

#[test]
fn pattern_is_reusable_across_subjects() {
    let w = parsed("*.txt");
    assert!(w.matches("a.txt"));
    assert!(w.matches(".txt"));
    assert!(!w.matches("a.txz"));
    assert!(w.matches("nested.name.txt"));
}

#[test]
fn unicode_subjects_and_patterns() {
    let w = parsed("gr?n");
    assert!(w.matches("gr\u{00fc}n"));
    assert!(!w.matches("grn"));
    let lit = parsed("\u{00e9}t\u{00e9}");
    assert!(lit.matches("\u{00e9}t\u{00e9}"));
    assert!(!lit.matches("ete"));
}

#[test]
fn dash_before_close_consumes_bracket_as_high_end() {
    assert_eq!(
        Wildcard::parse("[a-]"),
        Err(WildcardParseError::InvalidCharRange('a', ']')),
    );
}

#[test]
fn trailing_star_matches_any_suffix() {
    let w = parsed("a*");
    assert!(w.matches("a"));
    assert!(w.matches("abc"));
    assert!(!w.matches("ba"));
    assert!(!w.matches(""));
}

#[test]
fn parse_errors_compare_structurally() {
    assert_eq!(
        Wildcard::parse("[b-a]"),
        Err(WildcardParseError::InvalidCharRange('b', 'a')),
    );
    assert_ne!(
        Wildcard::parse("[b-a]"),
        Err(WildcardParseError::Incomplete),
    );
}
