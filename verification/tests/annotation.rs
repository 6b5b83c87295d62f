use rowl::annotation::parse_annotation;
use rowl::comment::Comment;
use rowl::error::{Location, Span};

fn make_comment(text: &str) -> Comment {
    Comment {
        text: text.to_string(),
        raw: format!("#{}", text),
        span: Span {
            start: Location::new(0, 0, 0),
            end: Location::new(0, 0, 0),
        },
        line: 1,
        column: 1,
    }
}

#[test]
fn test_bare_annotation() {
    let c = make_comment("@ sparnatural");
    let ann = parse_annotation(&c).unwrap();
    assert_eq!(ann.name, "sparnatural");
    assert!(ann.args.is_empty());
}

#[test]
fn test_annotation_with_args() {
    let c = make_comment("@ sparnatural:\n@   widget=list\n");
    let ann = parse_annotation(&c).unwrap();
    assert_eq!(ann.name, "sparnatural");
    assert_eq!(ann.arg("widget"), Some("list"));
}

#[test]
fn test_annotation_with_quoted_value() {
    let c = make_comment("@ sparnatural:\n@   widget = date_range\n@   label = \"Birth date\"");
    let ann = parse_annotation(&c).unwrap();
    assert_eq!(ann.name, "sparnatural");
    assert_eq!(ann.arg("widget"), Some("date_range"));
    assert_eq!(ann.arg("label"), Some("Birth date"));
}

#[test]
fn test_not_an_annotation() {
    let c = make_comment(" regular comment");
    assert!(parse_annotation(&c).is_none());
}

#[test]
fn test_bare_flag_arg() {
    let c = make_comment("@ sparnatural:\n@   searchable\n");
    let ann = parse_annotation(&c).unwrap();
    assert_eq!(ann.arg("searchable"), Some("true"));
}

#[test]
fn test_space_separated_arg() {
    let c = make_comment("@ sparnatural:\n@   widget list\n");
    let ann = parse_annotation(&c).unwrap();
    assert_eq!(ann.arg("widget"), Some("list"));
}

#[test]
fn test_space_separated_quoted_arg() {
    let c = make_comment("@ sparnatural:\n@   label \"Birth date\"\n");
    let ann = parse_annotation(&c).unwrap();
    assert_eq!(ann.arg("label"), Some("Birth date"));
}

#[test]
fn test_multiline_value_continuation() {
    let c = make_comment(
        "@glossary\n@ definition Any individual\n@   of the species\n@   Homo sapiens\n@ label Human being\n@ altLabel Someone",
    );
    let ann = parse_annotation(&c).unwrap();
    assert_eq!(ann.name, "glossary");
    assert_eq!(
        ann.arg("definition"),
        Some("Any individual of the species Homo sapiens")
    );
    assert_eq!(ann.arg("label"), Some("Human being"));
    assert_eq!(ann.arg("altLabel"), Some("Someone"));
}

#[test]
fn test_multiline_value_continuation_optional_backslash() {
    let c = make_comment(
        "@glossary\n@ definition Any individual\\\n@   of the species\\\n@   Homo sapiens\n@ label Human being\n@ altLabel Someone",
    );
    let ann = parse_annotation(&c).unwrap();
    assert_eq!(ann.name, "glossary");
    assert_eq!(
        ann.arg("definition"),
        Some("Any individual of the species Homo sapiens")
    );
}

use rowl::annotation::{parse_annotation_text, parse_args};

#[test]
fn single_line_colon_form() {
    let a = parse_annotation_text("glossary: label = \"Dog\"");
    assert_eq!(a.name, "glossary");
    assert_eq!(a.arg("label"), Some("Dog"));
    assert!(!a.is_bare());
}

#[test]
fn bare_form_and_alternatives() {
    let a = parse_annotation_text("  plugin  ");
    assert_eq!(a.name, "plugin");
    assert!(a.is_bare());
    let b = parse_annotation_text("x:\n@ alt_label Other\n@ label Main");
    assert_eq!(b.arg_with_alt(&["prefLabel", "label", "alt_label"]), Some("Main"));
    assert_eq!(b.arg_with_alt(&["nothing"]), None);
}

#[test]
fn args_continuation_and_flags() {
    let args = parse_args("@ a = 1\n@   more\n@ flag\n\n@ b \"two words\"");
    assert_eq!(
        args,
        vec![
            ("a".to_string(), "1 more".to_string()),
            ("flag".to_string(), "true".to_string()),
            ("b".to_string(), "two words".to_string()),
        ]
    );
    assert!(parse_args("").is_empty());
}

#[test]
fn at_sign_alone_is_no_annotation() {
    let c = make_comment("  @   ");
    assert!(parse_annotation(&c).is_none());
}
