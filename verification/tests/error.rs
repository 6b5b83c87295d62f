use rowl::ast::OntologyFile;
use rowl::error::{
    format_diagnostic, format_source_context, humanize_expected, DiagnosticBuilder, ErrorCode,
    LexerError, Location, ParseError, ParseResult, Severity, Span,
};

#[test]
fn test_location_display() {
    let loc = Location::new(5, 10, 42);
    assert_eq!(loc.text(), "5:10");
}

#[test]
fn test_span_display_single_line() {
    let span = Span::new(Location::new(5, 3, 20), Location::new(5, 10, 27));
    assert_eq!(span.text(), "5:3-10");
}

#[test]
fn test_span_display_multi_line() {
    let span = Span::new(Location::new(5, 3, 20), Location::new(7, 1, 50));
    assert_eq!(span.text(), "5:3-7:1");
}

#[test]
fn error_test_span_merge() {
    let a = Span::new(Location::new(1, 5, 4), Location::new(1, 10, 9));
    let b = Span::new(Location::new(1, 1, 0), Location::new(1, 7, 6));
    let merged = a.merge(&b);
    assert_eq!(merged.start.offset, 0);
    assert_eq!(merged.end.offset, 9);
}

#[test]
fn test_diagnostic_builder() {
    let diag = DiagnosticBuilder::error(ErrorCode::UnexpectedToken, "Expected ':'")
        .span(Span::new(Location::new(3, 15, 30), Location::new(3, 20, 35)))
        .help("Add a colon after the concept name")
        .build();

    assert_eq!(diag.severity, Severity::HardError);
    assert_eq!(diag.code, ErrorCode::UnexpectedToken);
    assert!(diag.span.is_some());
    assert!(diag.help.is_some());
}

#[test]
fn test_humanize_expected() {
    assert_eq!(humanize_expected(&[]), "nothing");
    assert_eq!(humanize_expected(&["Colon".into()]), "':'");
    assert_eq!(
        humanize_expected(&["Colon".into(), "Name".into()]),
        "':' or identifier"
    );
    assert_eq!(
        humanize_expected(&["Colon".into(), "Name".into(), "Newline".into()]),
        "':', identifier, or newline"
    );
}

#[test]
fn test_format_source_context() {
    let source = "namespace com.example\nontology Foo:\n  concept Bar\n";
    let span = Span::new(Location::new(3, 11, 36), Location::new(3, 14, 39));
    let ctx = format_source_context(source, &span).unwrap();
    assert!(ctx.contains("concept Bar"));
    assert!(ctx.contains("^^^"));
}

#[test]
fn test_parse_error_to_diagnostic() {
    let err = ParseError::new("Unexpected token 'foo'", ErrorCode::UnexpectedToken)
        .with_location(Location::new(5, 3, 40))
        .with_expected(vec!["Colon".into(), "Name".into()]);

    let diag = err.into_diagnostic();
    assert_eq!(diag.severity, Severity::HardError);
    assert_eq!(diag.code, ErrorCode::UnexpectedToken);
    assert!(diag.help.is_some());
    assert!(diag.help.unwrap().contains("':'"));
}

#[test]
fn test_lexer_error_to_diagnostic() {
    let err = LexerError::new(
        "Unrecognized character: @".to_string(),
        Location::new(1, 5, 4),
        ErrorCode::InvalidCharacter,
    );
    let diag = err.into_diagnostic();
    assert_eq!(diag.code, ErrorCode::InvalidCharacter);
    assert!(diag.span.is_some());
}

#[test]
fn test_full_diagnostic_formatting() {
    let source = "namespace com.example\nontology Foo:\n  concept Bar\n";
    let diag = DiagnosticBuilder::error(
        ErrorCode::MissingBlock,
        "Expected indented block after 'concept Bar'",
    )
    .span(Span::new(Location::new(3, 11, 36), Location::new(3, 14, 39)))
    .help("Add declarations like 'has' or 'sub' indented under the concept")
    .build();

    let formatted = format_diagnostic(&diag, Some(source), Some("test.dlf"));
    assert!(formatted.contains("error[E203]"));
    assert!(formatted.contains("test.dlf:3:11"));
    assert!(formatted.contains("concept Bar"));
    assert!(formatted.contains("^^^"));
    assert!(formatted.contains("help:"));
}

#[test]
fn test_parse_result_success() {
    let ontology = OntologyFile {
        iri_name: None,
        prefixes: vec![],
        declarations: vec![],
        locale: None,
        timezone: None,
        span: None,
    };
    let result = ParseResult::success(ontology, vec![]);
    assert!(result.is_ok());
    assert!(!result.has_errors());
    assert_eq!(result.error_count(), 0);
}

#[test]
fn test_parse_result_failure() {
    let diag = DiagnosticBuilder::error(ErrorCode::UnexpectedToken, "bad token").build();
    let result = ParseResult::failure(vec![diag]);
    assert!(!result.is_ok());
    assert!(result.has_errors());
    assert_eq!(result.error_count(), 1);
}

#[test]
fn test_error_code_values() {
    assert_eq!(ErrorCode::InvalidCharacter.value(), 100);
    assert_eq!(ErrorCode::UnexpectedToken.value(), 200);
    assert_eq!(ErrorCode::DuplicateDefinition.value(), 300);
}

#[test]
fn test_error_code_string() {
    assert_eq!(ErrorCode::UnexpectedToken.code(), "E200");
    assert_eq!(ErrorCode::InvalidCharacter.code(), "E100");
    assert_eq!(ErrorCode::DuplicateDefinition.code(), "E300");
}
