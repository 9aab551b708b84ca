use lib::parsing_spec::spec_file::ParsingSpecFileErrorKind;
use lib::parsing_spec::ParsingSpec;
use lib::parsing_spec::ParsingSpecBuilder;
use lib::regex::Regex;

#[test]
fn simple_roundtrip() {
    let mut builder: ParsingSpecBuilder = ParsingSpecBuilder::new();

    builder.set_delimiters(" .\t");

    builder.add_rule("foo", r"hello world|goodbye").unwrap();
    builder.add_rule_with_priority(10, "bar", r"[^a-b-]*z").unwrap();
    builder.add_rule_with_priority(-10, "baz", r"(?<quux>\.{6,7}){9}").unwrap();
    builder.add_rule_with_priority(-10, "foobar", r"^\^\$$").unwrap();

    let spec1: ParsingSpec = builder.build();

    let serialized1: String = spec1.to_parsing_spec_definition();

    let spec2: ParsingSpec = ParsingSpecBuilder::from_parsing_spec_definition(&serialized1).unwrap().build();
    let serialized2: String = spec2.to_parsing_spec_definition();

    assert_eq!(spec1, spec2);
    assert_eq!(serialized1, serialized2);
}

#[test]
fn pattern_begins_or_ends_with_whitespace() {
    let mut builder: ParsingSpecBuilder = ParsingSpecBuilder::new();

    builder.add_rule("foo", r"hello ").unwrap();
    builder.add_rule("foo", r" world").unwrap();

    let spec1: ParsingSpec = builder.build();

    let serialized1: String = spec1.to_parsing_spec_definition();

    let spec2: ParsingSpec = ParsingSpecBuilder::from_parsing_spec_definition(&serialized1).unwrap().build();
    let serialized2: String = spec2.to_parsing_spec_definition();

    assert_eq!(serialized1, serialized2);
}

fn error_of(contents: &str) -> (usize, ParsingSpecFileErrorKind) {
    match ParsingSpecBuilder::from_parsing_spec_definition(contents) {
        Ok(_) => panic!("expected an error for {contents:?}"),
        Err(e) => (e.line_offset, e.kind),
    }
}

#[test]
fn definition_text_layout() {
    let mut builder: ParsingSpecBuilder = ParsingSpecBuilder::new();
    builder.set_delimiters(" ");
    builder.add_placeholder("p", Regex::from_pattern("a+").unwrap()).unwrap();
    builder.add_rule_with_priority(-3, "num", r"\d{2,3}").unwrap();
    let text: String = builder.build().to_parsing_spec_definition();
    assert_eq!(text, "delimiters: \" \\n\"\n\n!p: \"a+\"\n\nnum (-3): \"[0-9]{2,3}\"\n\n");
}

#[test]
fn comments_blank_lines_and_end_marker_are_skipped() {
    let contents: &str = "# a comment\n\n  rule: \"abc\"  \n===\nthis is not read";
    let spec: ParsingSpec = ParsingSpecBuilder::from_parsing_spec_definition(contents).unwrap().build();
    assert_eq!(spec.rules.len(), 1);
    assert_eq!(spec.rules[0].name, "rule");
    assert_eq!(spec.rules[0].priority, 0);
}

#[test]
fn bad_line_is_reported_with_its_number() {
    let (line, kind) = error_of("a: \"x\"\n\nnot a definition\n");
    assert_eq!(line, 2);
    assert!(matches!(kind, ParsingSpecFileErrorKind::BadLine));
}

#[test]
fn unterminated_pattern_is_a_bad_line() {
    let (line, kind) = error_of("a: \"abc");
    assert_eq!(line, 0);
    assert!(matches!(kind, ParsingSpecFileErrorKind::BadLine));
}

#[test]
fn malformed_priority_is_a_bad_line() {
    let (_, kind) = error_of("a (x): \"abc\"");
    assert!(matches!(kind, ParsingSpecFileErrorKind::BadLine));
    let (_, kind) = error_of("a (99999999999): \"abc\"");
    assert!(matches!(kind, ParsingSpecFileErrorKind::BadLine));
}

#[test]
fn empty_delimiters_are_refused() {
    let (_, kind) = error_of("delimiters: \"\"");
    assert!(matches!(kind, ParsingSpecFileErrorKind::EmptyDelimiters));
}

#[test]
fn invalid_delimiter_escape_is_refused() {
    let (_, kind) = error_of("delimiters: \" \\q\"");
    assert!(matches!(kind, ParsingSpecFileErrorKind::InvalidEscape(_)));
}

#[test]
fn delimiters_with_escapes_are_read() {
    let spec: ParsingSpec =
        ParsingSpecBuilder::from_parsing_spec_definition("delimiters: \" ,\\t\\u{41}\"").unwrap().build();
    assert_eq!(spec.delimiters, " ,\tA\n");
}

#[test]
fn reserved_and_empty_names_are_refused() {
    let (_, kind) = error_of("delimiters (1): \"abc\"");
    assert!(matches!(kind, ParsingSpecFileErrorKind::InvalidName(name) if name == "delimiters"));
    let (_, kind) = error_of(": \"abc\"");
    assert!(matches!(kind, ParsingSpecFileErrorKind::InvalidName(name) if name.is_empty()));
    let (_, kind) = error_of("!: \"abc\"");
    assert!(matches!(kind, ParsingSpecFileErrorKind::InvalidName(name) if name.is_empty()));
}

#[test]
fn invalid_pattern_is_refused() {
    let (line, kind) = error_of("ok: \"a\"\nbroken: \"(a\"");
    assert_eq!(line, 1);
    assert!(matches!(kind, ParsingSpecFileErrorKind::InvalidPattern(_)));
}

#[test]
fn duplicate_placeholder_is_refused() {
    let (line, kind) = error_of("!p: \"a\"\n!p: \"b\"");
    assert_eq!(line, 1);
    assert!(matches!(kind, ParsingSpecFileErrorKind::DuplicatePlaceholder(name) if name == "p"));
}

#[test]
fn placeholders_resolve_in_later_rules() {
    let contents: &str = "!p1: \"hello\"\n!p2: \"(?<p1>) world\"\n\nr1: \"(?<p2>)+\"\n";
    let spec: ParsingSpec = ParsingSpecBuilder::from_parsing_spec_definition(contents).unwrap().build();
    assert_eq!(spec.placeholders.len(), 2);
    assert_eq!(spec.rules.len(), 1);
    let text: String = spec.to_parsing_spec_definition();
    let again: ParsingSpec = ParsingSpecBuilder::from_parsing_spec_definition(&text).unwrap().build();
    assert_eq!(spec, again);
}

#[test]
fn regex_to_pattern_escapes_specials() {
    let regex: Regex = Regex::from_pattern(r#"a\.b\*\"[\]x-z]"#).unwrap();
    assert_eq!(regex.to_pattern(), r#"a\.b\*\"[\]x-z]"#);
    let regex: Regex = Regex::from_pattern("(ab|c)*").unwrap();
    assert_eq!(regex.to_pattern(), "(?:ab|c)*");
}

#[test]
fn specs_with_different_rules_differ() {
    let mut one: ParsingSpecBuilder = ParsingSpecBuilder::new();
    one.add_rule("a", "x").unwrap();
    let mut two: ParsingSpecBuilder = ParsingSpecBuilder::new();
    two.add_rule("a", "y").unwrap();
    assert_ne!(one.build(), two.build());
}

fn spec_of(contents: &str) -> ParsingSpec {
    ParsingSpecBuilder::from_parsing_spec_definition(contents).unwrap().build()
}

#[test]
fn normalizing_parentheses() {
    let spec1: ParsingSpec = spec_of(
        r#"
			foo: "abcd"
			"#,
    );
    let spec2: ParsingSpec = spec_of(
        r#"
			foo: "(ab)(cd)"
			"#,
    );
    assert_eq!(spec1, spec2);
}

#[test]
fn placeholder_inside_placeholder() {
    let _spec: ParsingSpec = spec_of(
        r#"
			!p1: "hello"
			!p2: "(?<p1>) world"

			r1: "(?<p2>)+"
			"#,
    );
}

#[test]
fn reading_keeps_rules_by_priority() {
    let builder: ParsingSpecBuilder =
        ParsingSpecBuilder::from_parsing_spec_definition("a: \"x\"\nb (5): \"y\"\n!p: \"z\"\nc (5): \"w\"\n").unwrap();
    let spec: ParsingSpec = builder.build();
    let names: Vec<&str> = spec.rules.iter().map(|rule| rule.name.as_str()).collect();
    assert_eq!(names, vec!["b", "c", "a"]);
    assert_eq!(spec.placeholders.len(), 1);
    assert_eq!(spec.placeholders[0].0, "p");
}
