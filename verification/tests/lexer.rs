use rowl::comment::CommentSink;
use rowl::error::ErrorCode;
use rowl::lexer::token::Token;
use rowl::lexer::{token_texts, tokenize, Lexer};

fn texts(source: &str) -> Vec<String> {
    token_texts(source).unwrap()
}

#[test]
fn tokenize_namespace_line() {
    assert_eq!(
        texts("namespace com.example\n"),
        vec!["namespace", "com", ".", "example", "NEWLINE"]
    );
}

#[test]
fn tokenize_indented_block() {
    assert_eq!(
        texts("concept Bar:\n  has name: string\n"),
        vec![
            "concept", "Bar", ":", "NEWLINE", "INDENT", "has", "name", ":", "string", "NEWLINE",
            "DEDENT"
        ]
    );
}

#[test]
fn tokenize_closes_blocks_at_end_without_newline() {
    assert_eq!(
        texts("concept Bar:\n  has name: string"),
        vec![
            "concept", "Bar", ":", "NEWLINE", "INDENT", "has", "name", ":", "string", "NEWLINE",
            "DEDENT"
        ]
    );
}

#[test]
fn tokenize_empty_source() {
    assert_eq!(texts(""), Vec::<String>::new());
}

#[test]
fn tokenize_literals() {
    assert_eq!(
        texts("x 42 \"hi\\n\" true <http://a/> ?v ex:Thing\n"),
        vec!["x", "42", "\"hi\n\"", "true", "<http://a/>", "?v", "ex:Thing", "NEWLINE"]
    );
}

#[test]
fn tokenize_reports_unrecognized_character() {
    let r = token_texts("a $");
    assert_eq!(r, Err("Unrecognized character: '$'".to_string()));
}

#[test]
fn tokenize_spans_of_tokens() {
    let ts = tokenize("ab cd\n").unwrap();
    assert_eq!(ts[0].1, Token::Name("ab".to_string()));
    assert_eq!(ts[0].0.offset, 0);
    assert_eq!(ts[0].2.offset, 2);
    assert_eq!(ts[1].1, Token::Name("cd".to_string()));
    assert_eq!(ts[1].0.offset, 3);
    assert_eq!(ts[1].0.column, 4);
    assert_eq!(ts[1].2.offset, 5);
}

#[test]
fn lexer_collects_comments() {
    let sink = CommentSink::new();
    let mut lexer = Lexer::with_comment_sink("# hello\nconcept A:\n", sink);
    while let Some(t) = lexer.next_token() {
        assert!(t.is_ok());
    }
    let comments = lexer.into_comments().take();
    assert_eq!(comments.len(), 1);
    assert_eq!(comments[0].text, "hello");
    assert_eq!(comments[0].raw, "# hello\n");
    assert_eq!(comments[0].line, 1);
    assert_eq!(comments[0].column, 1);
}

#[test]
fn lexer_error_code_is_invalid_character() {
    let e = tokenize("a $").unwrap_err();
    assert_eq!(e.code, ErrorCode::InvalidCharacter);
    assert_eq!(e.location.line, 1);
    assert_eq!(e.location.column, 3);
}

fn balance(source: &str) -> (i64, bool) {
    let ts = tokenize(source).unwrap();
    let mut depth: i64 = 0;
    let mut never_negative = true;
    for t in &ts {
        match t.1 {
            Token::Indent => depth += 1,
            Token::Dedent => {
                depth -= 1;
                if depth < 0 {
                    never_negative = false;
                }
            }
            _ => {}
        }
    }
    (depth, never_negative)
}

#[test]
fn indents_and_dedents_balance() {
    for source in [
        "a:\n  b:\n    c\n  d\ne\n",
        "a:\n  b:\n    c",
        "a:\n  \n",
        "a:\n    # deep comment\n  b\n",
        "rule R:\n  match:\n    ?x a Y\n  then:\n    ?x a Z\n\n\nconcept C:\n  has x: string\n",
        "a\n  ",
        "a:\n  b\n    ",
        "a:\n  b \x0c c\x0c\n    d\n",
    ] {
        assert_eq!(balance(source), (0, true), "{:?}", source);
    }
}

#[test]
fn consecutive_comment_lines_merge() {
    let mut lexer = Lexer::with_comment_sink("# a\n# b\nconcept A:\n\n# c\n", CommentSink::new());
    while let Some(t) = lexer.next_token() {
        assert!(t.is_ok());
    }
    let comments = lexer.into_comments().take();
    assert_eq!(comments.len(), 2);
    assert_eq!(comments[0].text, "a\nb");
    assert_eq!(comments[0].raw, "# a\n# b\n");
    assert_eq!(comments[0].span.start.line, 1);
    assert_eq!(comments[0].span.end.line, 2);
    assert_eq!(comments[1].text, "c");
    assert_eq!(comments[1].line, 5);
}

#[test]
fn line_breaks_inside_strings_do_not_count() {
    let ts = tokenize("x \"a\nb\" y\nz\n").unwrap();
    let y = ts.iter().find(|t| t.1 == Token::Name("y".to_string())).unwrap();
    assert_eq!(y.0.line, 1);
    assert_eq!(y.0.column, 9);
    let z = ts.iter().find(|t| t.1 == Token::Name("z".to_string())).unwrap();
    assert_eq!(z.0.line, 2);
    assert_eq!(z.0.column, 1);
}

#[test]
fn readme_tokenize_example() {
    assert_eq!(
        texts("concept Person:\n  has name: string\n"),
        vec!["concept", "Person", ":", "NEWLINE", "INDENT", "has", "name", ":", "string", "NEWLINE", "DEDENT"]
    );
}

#[test]
fn deeper_blank_last_line_folds_into_newline() {
    assert_eq!(texts("a\n  "), vec!["a", "NEWLINE", "NEWLINE"]);
    let ts = tokenize("a\n  ").unwrap();
    assert_eq!(ts.last().unwrap().1, Token::Eof);
}

#[test]
fn lexer_hands_out_every_token_then_nothing() {
    let mut lexer = Lexer::new("concept Person:\n  has name: string");
    let mut toks = Vec::new();
    while let Some(t) = lexer.next_token() {
        toks.push(t.unwrap());
    }
    let kinds: Vec<Token> = toks.iter().map(|t| t.1.clone()).collect();
    assert_eq!(
        kinds,
        vec![
            Token::Concept,
            Token::Name("Person".to_string()),
            Token::Colon,
            Token::Newline,
            Token::Indent,
            Token::Has,
            Token::Name("name".to_string()),
            Token::Colon,
            Token::TString,
            Token::Newline,
            Token::Dedent,
            Token::Eof,
        ]
    );
    let end = toks.last().unwrap();
    assert_eq!(end.0.offset, 34);
    assert_eq!(end.2.offset, 34);
    assert!(lexer.next_token().is_none());
    assert!(lexer.next_token().is_none());
}

#[test]
fn layout_tokens_are_located() {
    let ts = tokenize("a:\n  b\n").unwrap();
    assert_eq!(ts[2].1, Token::Newline);
    assert_eq!(ts[2].0.offset, 2);
    assert_eq!(ts[2].0.line, 1);
    assert_eq!(ts[2].2.offset, 5);
    assert_eq!(ts[2].2.line, 2);
    assert_eq!(ts[2].2.column, 3);
    assert_eq!(ts[3].1, Token::Indent);
    assert_eq!(ts[3].0.offset, 5);
    assert_eq!(ts[3].2.offset, 5);
}

#[test]
fn lexing_goes_on_after_an_error() {
    let mut lexer = Lexer::new("a $ b");
    assert!(lexer.next_token().unwrap().is_ok());
    assert!(lexer.next_token().unwrap().is_err());
    let next = lexer.next_token().unwrap().unwrap();
    assert_eq!(next.1, Token::Name("b".to_string()));
}

#[test]
fn form_feeds_that_start_lines_can_unbalance_blocks() {
    let (depth, never_negative) = balance("a\n  b\n    c\n  \x0c\n    \x0c\n      \x0c\n");
    assert!(depth != 0 || !never_negative);
}

#[test]
fn locations_count_every_line_feed() {
    let ts = tokenize("a\n  b\n\n c\n").unwrap();
    let c = ts.iter().find(|t| t.1 == Token::Name("c".to_string())).unwrap();
    assert_eq!(c.0.offset, 8);
    assert_eq!(c.0.line, 4);
    assert_eq!(c.0.column, 2);
    let eof = ts.last().unwrap();
    assert_eq!(eof.1, Token::Eof);
    assert_eq!(eof.0.offset, 10);
    assert_eq!(ts.iter().filter(|t| t.1 == Token::Eof).count(), 1);
}
