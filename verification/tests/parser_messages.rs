use rowl::ast::OntologyFile;
use rowl::error::{DiagnosticBuilder, ErrorCode, LexerError, Location, ParseResult, Span};
use rowl::lexer::token::Token;
use rowl::parser::{
    classify_unexpected_token, convert_lalrpop_error, format_unexpected_token_message,
    identify_parsing_context, parse_result_strict, suggest_for_eof, suggest_for_unexpected_token,
    GrammarError, ParsingContext,
};

fn empty_ontology() -> OntologyFile {
    OntologyFile {
        iri_name: None,
        prefixes: vec![],
        declarations: vec![],
        locale: None,
        timezone: None,
        span: None,
    }
}

#[test]
fn context_property_definition() {
    let source = "property worksFor: A -> B\n";
    assert_eq!(
        identify_parsing_context(source, &Location::new(1, 20, 19)),
        ParsingContext::PropertyDef
    );
}

#[test]
fn context_unknown_when_indented_without_block() {
    let source = "  x\n";
    assert_eq!(
        identify_parsing_context(source, &Location::new(1, 3, 2)),
        ParsingContext::Unknown
    );
}

#[test]
fn context_past_last_line_is_top_level() {
    let source = "rule R:\n  then:\n    ?x a Y";
    assert_eq!(
        identify_parsing_context(source, &Location::new(9, 1, 30)),
        ParsingContext::TopLevel
    );
}

#[test]
fn context_then_block() {
    let source = "rule R:\n  then:\n    ?x a Y";
    assert_eq!(
        identify_parsing_context(source, &Location::new(3, 5, 21)),
        ParsingContext::ThenBlock
    );
}

#[test]
fn classify_tokens() {
    assert_eq!(classify_unexpected_token(&Token::Arrow), ErrorCode::MissingArrow);
    assert_eq!(classify_unexpected_token(&Token::Indent), ErrorCode::InvalidIndentation);
    assert_eq!(classify_unexpected_token(&Token::Dedent), ErrorCode::InvalidIndentation);
    assert_eq!(
        classify_unexpected_token(&Token::Name("x".to_string())),
        ErrorCode::UnexpectedToken
    );
}

#[test]
fn eof_suggestions() {
    let loc = Location::new(1, 1, 0);
    assert_eq!(
        suggest_for_eof("concept Foo:\n", &loc),
        Some("The block starting with 'concept Foo:' needs an indented body".to_string())
    );
    assert_eq!(
        suggest_for_eof("concept Foo:\n  has x: string\n   \n", &loc),
        Some("The file ends inside an indented block. Ensure all blocks are properly closed".to_string())
    );
    assert_eq!(suggest_for_eof("namespace a\n", &loc), None);
    assert_eq!(suggest_for_eof("", &loc), None);
}

#[test]
fn unexpected_token_suggestions() {
    let loc = Location::new(1, 1, 0);
    assert_eq!(
        suggest_for_unexpected_token(&Token::Name("Foo".to_string()), &["Colon".to_string()], "concept Foo", &loc),
        Some("Did you forget a ':' ? Blocks require a colon, e.g., 'concept Foo:'".to_string())
    );
    assert_eq!(
        suggest_for_unexpected_token(&Token::Name("Foo".to_string()), &["Name".to_string()], "concept Foo", &loc),
        None
    );
    assert_eq!(
        suggest_for_unexpected_token(&Token::Newline, &["INDENT".to_string()], "concept Foo:\n", &loc),
        Some("Expected an indented block on the next line".to_string())
    );
    assert_eq!(
        suggest_for_unexpected_token(&Token::Dedent, &[], "x", &loc),
        Some("Unexpected decrease in indentation. Check that your block is properly indented".to_string())
    );
    assert_eq!(
        suggest_for_unexpected_token(&Token::Arrow, &[], "concept A:\n  x -> y\n", &Location::new(2, 5, 15)),
        Some("'->' is used in property definitions, not in concept bodies. Use 'has' for concept attributes".to_string())
    );
    assert_eq!(
        suggest_for_unexpected_token(&Token::Arrow, &[], "x -> y\n", &loc),
        None
    );
    assert_eq!(suggest_for_unexpected_token(&Token::Comma, &[], "x", &loc), None);
}

#[test]
fn unexpected_token_messages() {
    assert_eq!(
        format_unexpected_token_message(&Token::Arrow, "concept A:\n  x -> y\n", &Location::new(2, 5, 15)),
        "Unexpected '->' in concept body"
    );
    assert_eq!(
        format_unexpected_token_message(&Token::Indent, "concept A\n  has x: string\n", &Location::new(1, 1, 0)),
        "Unexpected indentation at top level, did you forgot the ':' ?"
    );
    assert_eq!(
        format_unexpected_token_message(&Token::Comma, "a ,\n", &Location::new(1, 3, 2)),
        "Unexpected ',' at top level"
    );
    assert_eq!(
        format_unexpected_token_message(&Token::Comma, "  a ,\n", &Location::new(1, 5, 4)),
        "Unexpected token ','"
    );
    assert_eq!(
        format_unexpected_token_message(&Token::Colon, "ontology O:\n  :\n", &Location::new(2, 3, 14)),
        "Unexpected ':' in ontology body"
    );
}

#[test]
fn convert_invalid_token() {
    let e = convert_lalrpop_error(GrammarError::InvalidToken { location: Location::new(1, 2, 1) }, "x");
    assert_eq!(e.message, "Invalid token");
    assert_eq!(e.code, ErrorCode::UnexpectedToken);
    assert_eq!(e.location, Some(Location::new(1, 2, 1)));
    assert_eq!(e.end_location, None);
    assert!(e.help.is_none());
}

#[test]
fn convert_unrecognized_eof() {
    let e = convert_lalrpop_error(
        GrammarError::UnrecognizedEof {
            location: Location::new(2, 1, 13),
            expected: vec!["Indent".to_string()],
        },
        "concept Foo:\n",
    );
    assert_eq!(e.message, "Unexpected end of file");
    assert_eq!(e.code, ErrorCode::UnexpectedEof);
    assert_eq!(e.expected, vec!["Indent".to_string()]);
    assert_eq!(
        e.help,
        Some("The block starting with 'concept Foo:' needs an indented body".to_string())
    );
}

#[test]
fn convert_unrecognized_token() {
    let source = "concept Foo\n  has x: string\n";
    let start = Location::new(2, 1, 12);
    let end = Location::new(2, 3, 14);
    let e = convert_lalrpop_error(
        GrammarError::UnrecognizedToken {
            token: (start, Token::Indent, end),
            expected: vec!["Colon".to_string()],
        },
        source,
    );
    assert_eq!(e.message, "Unexpected indentation at top level, did you forgot the ':' ?");
    assert_eq!(e.code, ErrorCode::InvalidIndentation);
    assert_eq!(e.location, Some(start));
    assert_eq!(e.end_location, Some(end));
    assert_eq!(e.expected, vec!["Colon".to_string()]);
    assert!(e.help.is_none());
}

#[test]
fn convert_extra_token() {
    let start = Location::new(1, 5, 4);
    let end = Location::new(1, 6, 5);
    let e = convert_lalrpop_error(GrammarError::ExtraToken { token: (start, Token::Comma, end) }, "abc ,");
    assert_eq!(e.message, "Extra token ',' after valid input");
    assert_eq!(e.code, ErrorCode::ExtraToken);
    assert_eq!(e.help, Some("Remove this token or check for a missing newline".to_string()));
}

#[test]
fn convert_user_error() {
    let le = LexerError::new("Unrecognized character: '$'".to_string(), Location::new(1, 3, 2), ErrorCode::InvalidCharacter);
    let e = convert_lalrpop_error(GrammarError::User { error: le }, "a $");
    assert_eq!(e.message, "Unrecognized character: '$'");
    assert_eq!(e.code, ErrorCode::InvalidCharacter);
    assert_eq!(e.location, Some(Location::new(1, 3, 2)));
}

#[test]
fn strict_result_ok() {
    let r = ParseResult::success(empty_ontology(), vec![]);
    assert!(parse_result_strict(r).is_ok());
}

#[test]
fn strict_result_first_error() {
    let span = Span::new(Location::new(1, 1, 0), Location::new(1, 4, 3));
    let d1 = DiagnosticBuilder::warning(ErrorCode::UnexpectedToken, "just a warning").build();
    let d2 = DiagnosticBuilder::error(ErrorCode::MissingBlock, "first").span(span).help("add one").build();
    let d3 = DiagnosticBuilder::error(ErrorCode::UnexpectedToken, "second").build();
    let r = ParseResult::success(empty_ontology(), vec![d1, d2, d3]);
    let e = parse_result_strict(r).unwrap_err();
    assert_eq!(e.message, "first");
    assert_eq!(e.code, ErrorCode::MissingBlock);
    assert_eq!(e.location, Some(span.start));
    assert_eq!(e.end_location, Some(span.end));
    assert_eq!(e.help, Some("add one".to_string()));
    assert!(e.expected.is_empty());
}
