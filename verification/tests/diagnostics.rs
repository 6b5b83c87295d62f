use rowl::ast::OntologyFile;
use rowl::error::{
    format_diagnostic, format_source_context, DiagnosticBuilder, ErrorCode, LexerError, Location,
    ParseError, ParseResult, Severity, Span,
};

fn empty_ontology() -> OntologyFile {
    OntologyFile {
        iri_name: None,
        prefixes: vec![],
        declarations: vec![],
        locale: None,
        timezone: None,
        span: None,
    }
}

const SOURCE: &str = "namespace com.example\nontology Foo:\n  concept Bar\n";

#[test]
fn full_diagnostic_text() {
    let diag = DiagnosticBuilder::error(ErrorCode::MissingBlock, "Expected indented block after 'concept Bar'")
        .span(Span::new(Location::new(3, 11, 36), Location::new(3, 14, 39)))
        .help("Add declarations like 'has' or 'sub' indented under the concept")
        .build();
    let expected = "error[E203]: Expected indented block after 'concept Bar'\n  --> test.dlf:3:11\n  |\n3 |   concept Bar\n  |           ^^^\n  = help: Add declarations like 'has' or 'sub' indented under the concept";
    assert_eq!(format_diagnostic(&diag, Some(SOURCE), Some("test.dlf")), expected);
    assert_eq!(diag.display(Some(SOURCE), Some("test.dlf")), expected);
}

#[test]
fn diagnostic_without_source_or_file() {
    let diag = DiagnosticBuilder::warning(ErrorCode::UnexpectedToken, "odd")
        .at(Location::new(2, 4, 10))
        .build();
    assert_eq!(format_diagnostic(&diag, None, None), "warning[E200]: odd\n  --> <input>:2:4");
    assert_eq!(diag.text(), "warning[E200]: odd\n  --> <input>:2:4");
    assert!(!diag.is_error());
}

#[test]
fn diagnostic_with_label() {
    let span = Span::new(Location::new(2, 1, 22), Location::new(2, 9, 30));
    let diag = DiagnosticBuilder::hint(ErrorCode::UnknownError, "see here")
        .label(span, "this block")
        .build();
    let out = format_diagnostic(&diag, Some(SOURCE), None);
    assert_eq!(out, "hint[E999]: see here\n  --> 2:1\n  |\n2 | ontology Foo:\n  | ^^^^^^^^\n  = this block");
}

#[test]
fn source_context_out_of_range() {
    let span = Span::new(Location::new(9, 1, 0), Location::new(9, 2, 1));
    assert_eq!(format_source_context(SOURCE, &span), None);
    let span0 = Span::new(Location::new(0, 1, 0), Location::new(0, 2, 1));
    assert_eq!(format_source_context(SOURCE, &span0), None);
}

#[test]
fn source_context_multi_line_span() {
    let span = Span::new(Location::new(2, 3, 24), Location::new(3, 2, 37));
    assert_eq!(
        format_source_context(SOURCE, &span),
        Some("  |\n2 | ontology Foo:\n  |   ^^^^^^^^^^^".to_string())
    );
}

#[test]
fn error_texts() {
    let le = LexerError::new("Unrecognized character: '@'".to_string(), Location::new(1, 5, 4), ErrorCode::InvalidCharacter);
    assert_eq!(le.text(), "[E100] at 1:5: Unrecognized character: '@'");
    let pe = ParseError::new("Unexpected token 'foo'", ErrorCode::UnexpectedToken)
        .with_location(Location::new(5, 3, 40))
        .with_expected(vec!["Colon".into(), "Name".into()]);
    assert_eq!(pe.text(), "[E200] at 5:3: Unexpected token 'foo' (expected ':' or identifier)");
    let bare = ParseError::new("oops", ErrorCode::UnknownError);
    assert_eq!(bare.text(), "[E999]: oops");
    assert_eq!(Severity::Hint.text(), "hint");
    assert_eq!(Severity::Warning.text(), "warning");
    assert_eq!(Severity::HardError.text(), "error");
    assert_eq!(ErrorCode::InvalidTypeRef.label(), "invalid type reference");
}

#[test]
fn parse_error_help_with_expected() {
    let d = ParseError::new("x", ErrorCode::UnexpectedToken)
        .with_help("Try this")
        .with_expected(vec!["Newline".into()])
        .into_diagnostic();
    assert_eq!(d.help, Some("Try this. Expected newline".to_string()));
    assert_eq!(d.span, None);
}

#[test]
fn parse_result_counts_and_formatting() {
    let w = DiagnosticBuilder::warning(ErrorCode::UnexpectedToken, "w").build();
    let e = DiagnosticBuilder::error(ErrorCode::UnexpectedEof, "e").build();
    let r = ParseResult::success(empty_ontology(), vec![w, e]);
    assert!(r.has_warnings());
    assert!(r.has_errors());
    assert_eq!(r.warning_count(), 1);
    assert_eq!(r.error_count(), 1);
    assert!(!r.is_ok());
    assert_eq!(r.warnings()[0].message, "w");
    assert_eq!(r.format_diagnostics(None, None), "warning[E200]: w\n\nerror[E201]: e");
    let mapped = r.map_err(|pe| pe.message);
    assert_eq!(mapped.err(), Some("e".to_string()));
}
