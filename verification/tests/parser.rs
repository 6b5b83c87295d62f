use rowl::error::{DiagnosticBuilder, ErrorCode, Location, ParseResult, Severity, Span};
use rowl::parser::{identify_parsing_context, ParsingContext};

#[test]
fn test_parsing_context_detection() {
    let source = "ontology Foo:\n  concept Bar:\n    has name: string\n";
    let loc = Location::new(3, 5, 30);
    let ctx = identify_parsing_context(source, &loc);
    assert_eq!(ctx, ParsingContext::ConceptBody);
}

#[test]
fn test_parsing_context_top_level() {
    let source = "namespace com.example\n";
    let loc = Location::new(1, 1, 0);
    let ctx = identify_parsing_context(source, &loc);
    assert_eq!(ctx, ParsingContext::TopLevel);
}

#[test]
fn test_parsing_context_enum_body() {
    let source = "ontology Foo:\n  enum Status:\n    active\n";
    let loc = Location::new(3, 5, 30);
    let ctx = identify_parsing_context(source, &loc);
    assert_eq!(ctx, ParsingContext::EnumBody);
}

#[test]
fn test_parsing_context_match_block() {
    let source = "ontology Foo:\n  rule R:\n    match:\n      ?x is Person\n";
    let loc = Location::new(4, 7, 45);
    let ctx = identify_parsing_context(source, &loc);
    assert_eq!(ctx, ParsingContext::MatchBlock);
}

#[test]
fn test_diagnostic_builder_fluent() {
    let span = Span::new(Location::new(1, 5, 4), Location::new(1, 10, 9));
    let diag = DiagnosticBuilder::error(ErrorCode::UnexpectedToken, "Expected ':'")
        .span(span)
        .help("Add a colon after the name")
        .label(span, "here")
        .build();

    assert_eq!(diag.severity, Severity::HardError);
    assert_eq!(diag.code, ErrorCode::UnexpectedToken);
    assert!(diag.help.is_some());
    assert_eq!(diag.labels.len(), 1);
}

#[test]
fn parser_test_span_merge() {
    let s1 = Span::new(Location::new(1, 1, 0), Location::new(1, 5, 4));
    let s2 = Span::new(Location::new(1, 10, 9), Location::new(1, 15, 14));
    let merged = s1.merge(&s2);
    assert_eq!(merged.start.offset, 0);
    assert_eq!(merged.end.offset, 14);
}

#[test]
fn test_parse_result_unwrap_failure() {
    let result = ParseResult::failure(vec![
        DiagnosticBuilder::error(ErrorCode::UnexpectedToken, "bad token").build(),
    ]);
    // Failure result: no ontology, errors present.
    assert!(result.ontology.is_none());
    assert!(result.has_errors());
    assert!(!result.is_ok());
}
