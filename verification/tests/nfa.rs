use lib::nfa::Tnfa;
use lib::regex::Regex;

fn for_pattern(pattern: &str) -> Tnfa {
    let regex: Regex = Regex::from_pattern(pattern).unwrap();
    Tnfa::for_regex(&regex)
}

/// Whether `input` is matched in full.
fn matches(nfa: &Tnfa, input: &str) -> bool {
    nfa.accepts(input)
}

#[test]
fn nfa_intersect_match() {
    let nfa1: Tnfa = Tnfa::for_regex(&Regex::from_pattern_with_placeholders(r"\w*\d\w*", &mut ()).unwrap());
    let nfa2: Tnfa = Tnfa::for_regex(&Regex::from_pattern_with_placeholders(r"\d+", &mut ()).unwrap());
    let nfa3: Tnfa = Tnfa::for_regex(&Regex::from_pattern_with_placeholders(r"\w+", &mut ()).unwrap());

    let intersection12: Tnfa = nfa1.intersect(&nfa2);
    assert!(!matches(&intersection12, "a1b"));

    let intersection13: Tnfa = nfa1.intersect(&nfa3);
    assert!(matches(&intersection13, "a1b"));
}

#[test]
fn test_intersect_match() {
    let nfa1: Tnfa = for_pattern(r"\w*\d\w*");
    let nfa2: Tnfa = for_pattern(r"\d+");
    let nfa3: Tnfa = for_pattern(r"\w+");

    let intersection12: Tnfa = nfa1.intersect(&nfa2);
    let intersection13: Tnfa = nfa1.intersect(&nfa3);

    assert!(!matches(&intersection12, "a1b"));
    assert!(matches(&intersection13, "a1b"));
}

#[test]
fn literal_sequence() {
    let nfa: Tnfa = for_pattern("abc");

    assert!(matches(&nfa, "abc"));

    assert!(!matches(&nfa, ""));
    assert!(!matches(&nfa, "ab"));
    assert!(!matches(&nfa, "abcd"));
    assert!(!matches(&nfa, "xyz"));
}

#[test]
fn alternation() {
    let alternation: Tnfa = for_pattern("abc|de");
    assert!(matches(&alternation, "abc"));
    assert!(matches(&alternation, "de"));
    assert!(!matches(&alternation, "abcde"));
    assert!(!matches(&alternation, "d"));
}

#[test]
fn repetition() {
    let repetition: Tnfa = for_pattern("a(bc)+d");
    assert!(matches(&repetition, "abcd"));
    assert!(matches(&repetition, "abcbcbcd"));
    assert!(!matches(&repetition, "ad"));
    assert!(!matches(&repetition, "abcb"));
}

#[test]
fn character_classes() {
    let nfa: Tnfa = for_pattern(r"\w+[ ]\d+");
    assert!(matches(&nfa, "abc 123"));
    assert!(matches(&nfa, "A0 9"));
    assert!(!matches(&nfa, "abc 12a"));
    assert!(!matches(&nfa, "abc  123"));

    let negated: Tnfa = for_pattern("[^0-9]+");
    assert!(matches(&negated, "abc"));
    assert!(!matches(&negated, "ab3"));
}

#[test]
fn captures_do_not_affect_matching() {
    let with_captures: Tnfa = for_pattern("(?<a>ab)(?<b>cd)");
    let without_captures: Tnfa = for_pattern("abcd");

    let inputs: [&str; 4] = ["abcd", "ab", "abcde", ""];

    for &input in inputs.iter() {
        assert_eq!(matches(&with_captures, input), matches(&without_captures, input), "{input:?}");
    }

    // Each capture contributes an open tag and a close tag.
    assert_eq!(without_captures.tags().len(), 0);
    assert_eq!(with_captures.tags().len(), 4);
}

#[test]
fn concat() {
    let concatenated: Tnfa = for_pattern("abc").concat(&for_pattern("de"));

    assert!(matches(&concatenated, "abcde"));

    assert!(!matches(&concatenated, "abc"));
    assert!(!matches(&concatenated, "de"));
    assert!(!matches(&concatenated, "abcd"));
    assert!(!matches(&concatenated, "abcdef"));
}

#[test]
fn sequence_of_single_characters_accepts_its_spellings() {
    let spelled: Tnfa = for_pattern("a.[0-9]");

    assert!(matches(&spelled, "ab7"));
    assert!(matches(&spelled, "a\u{10FFFF}0"));

    assert!(!matches(&spelled, "ab"));
    assert!(!matches(&spelled, "ab77"));
    assert!(!matches(&spelled, "bb7"));
    assert!(!matches(&spelled, "abx"));
}

#[test]
fn repeated_single_character_accepts_runs_of_it() {
    let digits: Tnfa = for_pattern("[0-9]+");

    assert!(matches(&digits, "7"));
    assert!(matches(&digits, "2024"));

    assert!(!matches(&digits, ""));
    assert!(!matches(&digits, "12a"));
    assert!(!matches(&digits, "a1"));
}

#[test]
fn starred_single_character_accepts_runs_and_nothing() {
    let letters: Tnfa = for_pattern("[a-z]*");

    assert!(matches(&letters, ""));
    assert!(matches(&letters, "abc"));

    assert!(!matches(&letters, "ab1"));
    assert!(!matches(&letters, "A"));
}

#[test]
fn concat_accepts_every_split() {
    // The split may fall at the very start, in the middle or at the end.
    let concatenated: Tnfa = for_pattern("a*").concat(&for_pattern("b*"));

    assert!(matches(&concatenated, ""));
    assert!(matches(&concatenated, "aa"));
    assert!(matches(&concatenated, "bbb"));
    assert!(matches(&concatenated, "aabb"));

    assert!(!matches(&concatenated, "ba"));
    assert!(!matches(&concatenated, "abab"));
}

#[test]
fn or() {
    let alternated: Tnfa = for_pattern("abc").or(&for_pattern("de"));

    assert!(matches(&alternated, "abc"));
    assert!(matches(&alternated, "de"));

    assert!(!matches(&alternated, "abcde"));
    assert!(!matches(&alternated, "ab"));
    assert!(!matches(&alternated, ""));
}

#[test]
fn intersect_is_conjunction() {
    // Digits, but exactly three of them.
    let intersection: Tnfa = for_pattern(r"\d+").intersect(&for_pattern("..."));

    assert!(matches(&intersection, "123"));

    assert!(!matches(&intersection, "12"));
    assert!(!matches(&intersection, "1234"));
    assert!(!matches(&intersection, "12a"));
}

#[test]
fn intersect_with_no_common_language() {
    let digits: Tnfa = for_pattern(r"\d+");
    let letters: Tnfa = for_pattern("[a-z]+");

    let intersection: Tnfa = digits.intersect(&letters);

    assert!(!intersection.can_accept());
    assert!(!matches(&intersection, "1"));
    assert!(!matches(&intersection, "a"));
}

#[test]
fn live_states_of_a_chain() {
    let nfa: Tnfa = for_pattern("ab");
    let live: Vec<bool> = nfa.compute_live_states();
    assert_eq!(live.len(), nfa.states.len());
    // The start state and the accepting state (1) can reach acceptance.
    assert!(live[0]);
    assert!(live[1]);
    assert!(nfa.can_accept());
}

#[test]
fn an_empty_intersection_keeps_no_moves_to_dead_states() {
    let intersection: Tnfa = for_pattern("ab").intersect(&for_pattern("ac"));
    assert!(!intersection.can_accept());
    // Every move out of the start state was removed, since none can lead to acceptance.
    assert_eq!(intersection.states[0].transitions.len(), 0);
}

#[test]
fn bounded_repetition_counts() {
    let nfa: Tnfa = for_pattern("a{2,3}");
    assert!(!matches(&nfa, "a"));
    assert!(matches(&nfa, "aa"));
    assert!(matches(&nfa, "aaa"));
    assert!(!matches(&nfa, "aaaa"));

    let optional: Tnfa = for_pattern("(?<x>a){0,2}b");
    assert!(matches(&optional, "b"));
    assert!(matches(&optional, "ab"));
    assert!(matches(&optional, "aab"));
    assert!(!matches(&optional, "aaab"));
    assert_eq!(optional.tags().len(), 2);
}

#[test]
fn single_rule_accepts_for_its_rule() {
    let regex: Regex = Regex::from_pattern("x").unwrap();
    let nfa: Tnfa = Tnfa::for_single_rule(lib::parsing_spec::RuleIdx(3), &regex, &Vec::new());
    assert_eq!(nfa.states[1].maybe_accepts_for_rule, Some(lib::parsing_spec::RuleIdx(3)));
    assert!(nfa.accepts("x"));
    assert!(!nfa.accepts("xx"));
}

#[test]
fn intersection_accepts_for_the_left_rule() {
    let left: Tnfa = Tnfa::for_single_rule(lib::parsing_spec::RuleIdx(2), &Regex::from_pattern("[a-z]+").unwrap(), &Vec::new());
    let right: Tnfa = for_pattern("ab");
    let intersection: Tnfa = left.intersect(&right);
    assert!(intersection.accepts("ab"));
    assert!(!intersection.accepts("abc"));
    let accepting: Vec<_> = intersection.states.iter().filter_map(|state| state.maybe_accepts_for_rule).collect();
    assert!(!accepting.is_empty());
    assert!(accepting.iter().all(|rule| *rule == lib::parsing_spec::RuleIdx(2)));
}

fn int_encoding() -> lib::parsing_spec::Encoding {
    let regex: Regex = Regex::from_pattern(r"\d+").unwrap();
    let nfa: Tnfa = Tnfa::for_regex(&regex);
    lib::parsing_spec::Encoding { idx: lib::parsing_spec::EncodingIdx(1), name: "int".to_string(), regex, nfa }
}

#[test]
fn leaf_capture_gets_a_variant_for_a_matching_encoding() {
    let regex: Regex = Regex::from_pattern(r"id=(?<num>[0-9]+)").unwrap();
    let nfa: Tnfa = Tnfa::for_single_rule(lib::parsing_spec::RuleIdx(1), &regex, &vec![int_encoding()]);
    assert_eq!(nfa.tags().len(), 4);
    let encoded: Vec<_> = nfa.tags().iter().filter(|tag| tag.maybe_encoding.is_some()).collect();
    assert_eq!(encoded.len(), 2);
    assert!(encoded.iter().all(|tag| tag.maybe_encoding == Some(lib::parsing_spec::EncodingIdx(1))));
    assert!(nfa.accepts("id=42"));
    assert!(!nfa.accepts("id="));
    assert!(!nfa.accepts("id=4x"));
}

#[test]
fn leaf_capture_gets_no_variant_for_a_disjoint_encoding() {
    let regex: Regex = Regex::from_pattern(r"(?<word>[a-z]+)").unwrap();
    let nfa: Tnfa = Tnfa::for_single_rule(lib::parsing_spec::RuleIdx(1), &regex, &vec![int_encoding()]);
    assert_eq!(nfa.tags().len(), 2);
    assert!(nfa.tags().iter().all(|tag| tag.maybe_encoding.is_none()));
    assert!(nfa.accepts("abc"));
    assert!(!nfa.accepts("12"));
}
