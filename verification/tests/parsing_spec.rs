use lib::nfa::regex_construction::construction_cost;
use lib::parsing_spec::EncodingIdx;
use lib::parsing_spec::ParsingSpec;
use lib::parsing_spec::ParsingSpecBuilder;
use lib::regex::Regex;

#[test]
fn number_encoding() {
    let mut builder: ParsingSpecBuilder = ParsingSpecBuilder::new();
    builder.add_rule("has_number", r"\w*\d\w*").unwrap();
    builder.add_rule("ip_address", r"(?<first>\d+)(\.\d+){3}").unwrap();
    builder.add_encoding("int", Regex::from_pattern(r"\d+").unwrap()).unwrap();

    let spec: ParsingSpec = builder.build();
    assert_eq!(spec.rules.len(), 3);
    let indices: Vec<u16> = spec.rules.iter().map(|rule| rule.idx.0).collect();
    assert_eq!(indices, vec![1, 2, 3]);
    let names: Vec<&str> = spec.rules.iter().map(|rule| rule.name.as_str()).collect();
    assert_eq!(names, vec!["has_number", "has_number", "ip_address"]);
    assert_eq!(spec.rules[0].maybe_encoding, Some(EncodingIdx(1)));
    assert_eq!(spec.rules[1].maybe_encoding, None);
    assert_eq!(spec.rules[2].maybe_encoding, None);
}

#[test]
fn encodings_without_common_words_make_no_variant() {
    let mut builder: ParsingSpecBuilder = ParsingSpecBuilder::new();
    builder.add_rule("word", "[a-z]+").unwrap();
    builder.add_encoding("int", Regex::from_pattern(r"\d+").unwrap()).unwrap();
    let spec: ParsingSpec = builder.build();
    assert_eq!(spec.rules.len(), 1);
    assert_eq!(spec.rules[0].maybe_encoding, None);
}

#[test]
fn construction_cost_of_small_patterns() {
    assert_eq!(construction_cost(&Regex::from_pattern("a").unwrap()), Some((0, 0)));
    assert_eq!(construction_cost(&Regex::from_pattern("ab").unwrap()), Some((2, 0)));
    assert_eq!(construction_cost(&Regex::from_pattern("a*").unwrap()), Some((3, 0)));
    assert_eq!(construction_cost(&Regex::from_pattern("(?<x>a)").unwrap()), Some((4, 2)));
    assert_eq!(construction_cost(&Regex::from_pattern("a{3}").unwrap()), Some((9, 0)));
}

#[test]
fn too_many_named_groups_are_refused() {
    let pattern: String = "(?<x>a)".repeat(0xffff);
    let err = Regex::from_pattern(&pattern).unwrap_err();
    assert_eq!(err.kind, lib::regex::RegexErrorKind::TooManyCaptures);
    let fewer: String = "(?<x>a)".repeat(0xfffe);
    assert!(Regex::from_pattern(&fewer).is_ok());
}
