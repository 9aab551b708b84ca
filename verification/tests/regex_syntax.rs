use lib::regex::AnchoredRegex;
use lib::regex::Regex;
use lib::regex::RegexErrorKind;

fn error_kind(pattern: &str) -> RegexErrorKind {
    Regex::from_pattern(pattern).unwrap_err().kind
}

#[test]
fn unicode_escape_names_a_scalar() {
    assert_eq!(Regex::from_pattern(r"\u{41}").unwrap(), Regex::Literal('A'));
    assert_eq!(Regex::from_pattern(r"\u{1F600}").unwrap(), Regex::Literal('\u{1F600}'));
}

#[test]
fn unicode_escape_rejects_bad_forms() {
    assert_eq!(error_kind(r"\u{110000}"), RegexErrorKind::InvalidEscape('u'));
    assert_eq!(error_kind(r"\u{D800}"), RegexErrorKind::InvalidEscape('u'));
    assert_eq!(error_kind(r"\u{}"), RegexErrorKind::InvalidEscape('u'));
    assert_eq!(error_kind(r"\u{1234567}"), RegexErrorKind::InvalidEscape('u'));
    assert_eq!(error_kind(r"\u41"), RegexErrorKind::InvalidEscape('u'));
}

#[test]
fn simple_escapes_and_punctuation() {
    assert_eq!(Regex::from_pattern(r"\t").unwrap(), Regex::Literal('\t'));
    assert_eq!(Regex::from_pattern(r"\.").unwrap(), Regex::Literal('.'));
    assert_eq!(error_kind(r"\q"), RegexErrorKind::InvalidEscape('q'));
}

#[test]
fn counted_repetition_bounds() {
    assert_eq!(
        Regex::from_pattern("a{2,3}").unwrap(),
        Regex::BoundedRepetition { min: 2, max: 3, item: Box::new(Regex::Literal('a')) }
    );
    assert_eq!(
        Regex::from_pattern("a{4}").unwrap(),
        Regex::BoundedRepetition { min: 4, max: 4, item: Box::new(Regex::Literal('a')) }
    );
    assert_eq!(error_kind("a{3,2}"), RegexErrorKind::InvalidRepetition);
    assert_eq!(error_kind("a{0}"), RegexErrorKind::InvalidRepetition);
    assert_eq!(error_kind("a{1234567}"), RegexErrorKind::InvalidRepetition);
    assert_eq!(error_kind("a{,2}"), RegexErrorKind::InvalidRepetition);
}

#[test]
fn class_ranges_must_be_ordered() {
    assert_eq!(
        Regex::from_pattern("[^a-c\\d]").unwrap(),
        Regex::BracketedRanges { negated: true, items: vec![('a', 'c'), ('0', '9')] }
    );
    assert_eq!(error_kind("[c-a]"), RegexErrorKind::InvalidRange);
    assert_eq!(error_kind("[\\D]"), RegexErrorKind::InvalidEscape('D'));
    assert_eq!(error_kind("[ab"), RegexErrorKind::UnexpectedEnd);
}

#[test]
fn misplaced_operators_are_rejected() {
    assert_eq!(error_kind("*a"), RegexErrorKind::UnexpectedChar('*'));
    assert_eq!(error_kind("a)"), RegexErrorKind::UnexpectedChar(')'));
    assert_eq!(error_kind("(a"), RegexErrorKind::UnexpectedEnd);
    assert_eq!(error_kind("(?<>a)"), RegexErrorKind::InvalidName);
    assert_eq!(error_kind("(?<a b>c)"), RegexErrorKind::InvalidName);
}

#[test]
fn well_formed_patterns_parse() {
    for pattern in ["", "a|", "|a", "(?:ab)+c?", "(?<x>a(?<y>b)*)", "[]]", "a{1,2}*", "."] {
        assert!(Regex::from_pattern(pattern).is_ok(), "{}", pattern);
    }
}

#[test]
fn anchors_are_read_off_the_ends() {
    let both = AnchoredRegex::from_pattern("^ab$").unwrap();
    assert!(both.anchor_before && both.anchor_after);
    let escaped = AnchoredRegex::from_pattern(r"ab\$").unwrap();
    assert!(!escaped.anchor_before && !escaped.anchor_after);
    let doubled = AnchoredRegex::from_pattern(r"ab\\$").unwrap();
    assert!(doubled.anchor_after);
    let bare = AnchoredRegex::from_pattern("^").unwrap();
    assert!(bare.anchor_before && !bare.anchor_after);
}
