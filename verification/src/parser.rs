//! Shaping of parser failures into diagnostics.
//!
//! The grammar itself reports a failure as a [`GrammarError`]; the functions
//! here turn it into a [`ParseError`] with a message that names the block the
//! failure sits in, a more specific error code and a suggestion where a common
//! mistake can be recognised.

use vstd::prelude::*;

use crate::ast::OntologyFile;
use crate::comment::Comment;
use crate::error::{
    of_severity, parse_error_of, ErrorCode, LexerError, Location, ParseError, ParseResult, Severity,
};
use crate::lexer::Spanned;
use crate::lexer::token::Token;
use crate::text::{
    byte_len, byte_len_exec, chars_of, contains_seq, contains_str, is_whitespace, is_ws,
    lemma_byte_len_subrange, lemma_run_end, lines, lines_from, push_str, run_end, run_end_exec,
    slice_chars, split_lines, string_from_chars, trim, trim_bounds, trim_end, trim_end_bounds,
    CharClass,
};
use crate::lexer::scan::{starts_with_at, starts_with_at_exec};

verus! {

// ============================================================================
// PARSING CONTEXT DETECTION
// ============================================================================

/// Rough classification of where in the grammar a failure happened.
#[derive(Debug, Clone, Copy, PartialEq, Eq, Structural)]
pub enum ParsingContext {
    TopLevel,
    OntologyBody,
    ConceptBody,
    EnumBody,
    MatchBlock,
    ThenBlock,
    PropertyDef,
    Unknown,
}

/// The indentation of a line: the number of bytes of its leading whitespace.
pub open spec fn indent_of(line: Seq<char>) -> nat {
    byte_len(line.subrange(0, run_end(line, 0, line.len() as int, CharClass::Whitespace)))
}

/// `s` starts with `lit`.
pub open spec fn starts_with(s: Seq<char>, lit: Seq<char>) -> bool {
    starts_with_at(s, 0, lit)
}

/// `s` ends with a colon.
pub open spec fn ends_with_colon(s: Seq<char>) -> bool {
    s.len() > 0 && s.last() == ':'
}

/// The block that a trimmed line opens, if it is one of those that give a
/// context: `concept `, `ontology `, `enum `, `match` or `then` followed by
/// anything and a final colon, or any line that starts with `property `.
pub open spec fn block_context(t: Seq<char>) -> Option<ParsingContext> {
    if starts_with(t, "concept "@) && ends_with_colon(t) {
        Some(ParsingContext::ConceptBody)
    } else if starts_with(t, "ontology "@) && ends_with_colon(t) {
        Some(ParsingContext::OntologyBody)
    } else if starts_with(t, "enum "@) && ends_with_colon(t) {
        Some(ParsingContext::EnumBody)
    } else if starts_with(t, "match"@) && ends_with_colon(t) {
        Some(ParsingContext::MatchBlock)
    } else if starts_with(t, "then"@) && ends_with_colon(t) {
        Some(ParsingContext::ThenBlock)
    } else if starts_with(t, "property "@) {
        Some(ParsingContext::PropertyDef)
    } else {
        None
    }
}

/// The walk from line `i` back to the first line: a line counts when it is
/// less indented than `cur` (the indentation of the last line that counted)
/// or is the target line itself; the first counting line that opens a block
/// gives the context. Without one, the context is the top level when the
/// last counting indentation is zero and unknown otherwise.
pub open spec fn context_walk(ls: Seq<Seq<char>>, target: int, i: int, cur: nat) -> ParsingContext
    decreases i + 1,
{
    if i < 0 || i >= ls.len() {
        if cur == 0 {
            ParsingContext::TopLevel
        } else {
            ParsingContext::Unknown
        }
    } else {
        let ind = indent_of(ls[i]);
        if ind < cur || i == target {
            match block_context(trim(ls[i])) {
                Some(c) => c,
                None => context_walk(ls, target, i - 1, ind),
            }
        } else {
            context_walk(ls, target, i - 1, cur)
        }
    }
}

/// The context of a failure on the 1-based line `line` of `source`: the walk
/// starts at that line (the last line when it lies past the end), with the
/// indentation of that line as the first bound (zero past the end).
pub open spec fn parsing_context(source: Seq<char>, line: nat) -> ParsingContext {
    let ls = lines(source);
    let target: int = if line >= 1 { line - 1 } else { 0 };
    let cur: nat = if target < ls.len() { indent_of(ls[target]) } else { 0 };
    let top: int = if target < ls.len() - 1 { target } else { ls.len() - 1 };
    context_walk(ls, target, top, cur)
}

/// A non-empty text has at least one line.
pub proof fn lemma_lines_nonempty(s: Seq<char>)
    requires
        s.len() > 0,
    ensures
        lines(s).len() > 0,
{
    lemma_run_end(s, 0, s.len() as int, CharClass::Not('\n'));
    assert(lines(s) == lines_from(s, 0));
}

/// The indentation of a line, in bytes.
fn line_indent(line: &[char]) -> (r: usize)
    requires
        byte_len(line@) <= usize::MAX,
    ensures
        r == indent_of(line@),
{
    let a = run_end_exec(line, 0, line.len(), CharClass::Whitespace);
    proof {
        lemma_run_end(line@, 0, line@.len() as int, CharClass::Whitespace);
        lemma_byte_len_subrange(line@, 0, a as int);
    }
    match byte_len_exec(line, 0, a) {
        Some(n) => n,
        None => {
            proof {
                assert(false);
            }
            0
        },
    }
}

/// Exec form of [`block_context`].
fn block_context_exec(t: &[char]) -> (r: Option<ParsingContext>)
    ensures
        r == block_context(t@),
{
    let colon = t.len() > 0 && t[t.len() - 1] == ':';
    if starts_with_at_exec(t, 0, "concept ") && colon {
        Some(ParsingContext::ConceptBody)
    } else if starts_with_at_exec(t, 0, "ontology ") && colon {
        Some(ParsingContext::OntologyBody)
    } else if starts_with_at_exec(t, 0, "enum ") && colon {
        Some(ParsingContext::EnumBody)
    } else if starts_with_at_exec(t, 0, "match") && colon {
        Some(ParsingContext::MatchBlock)
    } else if starts_with_at_exec(t, 0, "then") && colon {
        Some(ParsingContext::ThenBlock)
    } else if starts_with_at_exec(t, 0, "property ") {
        Some(ParsingContext::PropertyDef)
    } else {
        None
    }
}

/// Heuristic: look at the preceding lines to determine the parsing context
/// of a failure at `loc`.
pub fn identify_parsing_context(source: &str, loc: &Location) -> (r: ParsingContext)
    requires
        source@.len() > 0,
        byte_len(source@) <= usize::MAX,
    ensures
        r == parsing_context(source@, loc.line as nat),
{
    let chars = chars_of(source);
    let ls = split_lines(chars.as_slice());
    let ghost gl = lines(source@);
    proof {
        lemma_lines_nonempty(source@);
    }
    let n = ls.len();
    let target: usize = if loc.line >= 1 {
        loc.line - 1
    } else {
        0
    };
    let mut current: usize = if target < n {
        line_indent(ls[target].as_slice())
    } else {
        0
    };
    let top: usize = if target < n - 1 {
        target
    } else {
        n - 1
    };
    let ghost cur0 = current as nat;
    proof {
        assert(parsing_context(source@, loc.line as nat) == context_walk(gl, target as int, top as int, cur0));
    }
    let mut i: usize = top + 1;
    while i > 0
        invariant
            n == ls@.len() == gl.len(),
            gl == lines(source@),
            byte_len(source@) <= usize::MAX,
            forall|k: int| 0 <= k < ls@.len() ==> (#[trigger] ls@[k])@ == gl[k],
            forall|k: int| 0 <= k < ls@.len() ==> byte_len((#[trigger] ls@[k])@) <= byte_len(source@),
            top < n,
            0 <= i <= top + 1,
            parsing_context(source@, loc.line as nat) == context_walk(gl, target as int, top as int, cur0),
            context_walk(gl, target as int, top as int, cur0) == context_walk(gl, target as int, i - 1, current as nat),
        decreases i,
    {
        i = i - 1;
        let line = ls[i].as_slice();
        let ind = line_indent(line);
        if ind < current || i == target {
            let (a, b) = trim_bounds(line, 0, line.len());
            let t = slice_chars(line, a, b);
            proof {
                assert(line@.subrange(0, line@.len() as int) =~= line@);
            }
            match block_context_exec(t.as_slice()) {
                Some(c) => {
                    return c;
                },
                None => {},
            }
            current = ind;
        }
    }
    if current == 0 {
        ParsingContext::TopLevel
    } else {
        ParsingContext::Unknown
    }
}

// ============================================================================
// SUGGESTIONS
// ============================================================================

/// The text of a suggestion for an input that ends too early: a last line
/// that opens a block (its trimmed text ends with a colon) asks for the
/// block's body; else a last line (of the text without trailing whitespace)
/// that is indented says that a block is left open.
pub open spec fn eof_suggestion(source: Seq<char>) -> Option<Seq<char>> {
    let ls = lines(source);
    if ls.len() > 0 && ends_with_colon(trim(ls.last())) {
        Some("The block starting with '"@ + trim(ls.last()) + "' needs an indented body"@)
    } else {
        let t = trim_end(source);
        if t.len() > 0 && lines(t).len() > 0 && lines(t).last().len() > 0 && is_ws(lines(t).last()[0]) {
            Some("The file ends inside an indented block. Ensure all blocks are properly closed"@)
        } else {
            None
        }
    }
}

/// Suggest a fix for an unexpected end of input.
pub fn suggest_for_eof(source: &str, _loc: &Location) -> (r: Option<String>)
    ensures
        r matches Some(h) ==> eof_suggestion(source@) == Some(h@),
        r is None ==> eof_suggestion(source@) is None,
{
    let chars = chars_of(source);
    let ls = split_lines(chars.as_slice());
    if ls.len() > 0 {
        let last = ls[ls.len() - 1].as_slice();
        let (a, b) = trim_bounds(last, 0, last.len());
        proof {
            assert(last@.subrange(0, last@.len() as int) =~= last@);
        }
        if b > a && last[b - 1] == ':' {
            let mut out: Vec<char> = Vec::new();
            push_str(&mut out, "The block starting with '");
            let mut t = slice_chars(last, a, b);
            out.append(&mut t);
            push_str(&mut out, "' needs an indented body");
            return Some(string_from_chars(out.as_slice()));
        }
    }
    let e = trim_end_bounds(chars.as_slice(), 0, chars.len());
    proof {
        assert(chars@.subrange(0, chars@.len() as int) =~= chars@);
    }
    if e > 0 {
        let t = slice_chars(chars.as_slice(), 0, e);
        let tl = split_lines(t.as_slice());
        if tl.len() > 0 {
            let ll = tl[tl.len() - 1].as_slice();
            if ll.len() > 0 && is_whitespace(ll[0]) {
                return Some(
                    String::from_str(
                        "The file ends inside an indented block. Ensure all blocks are properly closed",
                    ),
                );
            }
        }
    }
    None
}

/// The error code for an unexpected token: a misplaced arrow, a change of
/// indentation, or any other token.
pub open spec fn unexpected_code(tok: Token) -> ErrorCode {
    match tok {
        Token::Arrow => ErrorCode::MissingArrow,
        Token::Indent | Token::Dedent => ErrorCode::InvalidIndentation,
        _ => ErrorCode::UnexpectedToken,
    }
}

/// Classify an unexpected token into a more specific error code when possible.
pub fn classify_unexpected_token(tok: &Token) -> (r: ErrorCode)
    ensures
        r == unexpected_code(*tok),
{
    match tok {
        Token::Arrow => ErrorCode::MissingArrow,
        Token::Indent | Token::Dedent => ErrorCode::InvalidIndentation,
        _ => ErrorCode::UnexpectedToken,
    }
}

/// Some expected-token name contains `a` or `b`.
pub open spec fn any_mentions(expected: Seq<String>, a: Seq<char>, b: Seq<char>) -> bool {
    exists|i: int| 0 <= i < expected.len() && (contains_seq(#[trigger] expected[i]@, a) || contains_seq(expected[i]@, b))
}

fn any_mentions_exec(expected: &[String], a: &str, b: &str) -> (r: bool)
    ensures
        r == any_mentions(expected@, a@, b@),
{
    let mut i: usize = 0;
    while i < expected.len()
        invariant
            0 <= i <= expected@.len(),
            forall|k: int| 0 <= k < i ==> !(contains_seq(#[trigger] expected@[k]@, a@) || contains_seq(expected@[k]@, b@)),
        decreases expected@.len() - i,
    {
        if contains_str(expected[i].as_str(), a) || contains_str(expected[i].as_str(), b) {
            return true;
        }
        i = i + 1;
    }
    false
}

/// The suggestion for an unexpected token: a name where a colon was
/// expected, a line break where an indented block was expected, a dedent,
/// or an arrow in a concept body.
pub open spec fn unexpected_suggestion(tok: Token, expected: Seq<String>, source: Seq<char>, line: nat) -> Option<Seq<char>> {
    match tok {
        Token::Name(_) => if any_mentions(expected, "Colon"@, ":"@) {
            Some("Did you forget a ':' ? Blocks require a colon, e.g., 'concept Foo:'"@)
        } else {
            None
        },
        Token::Newline => if any_mentions(expected, "Indent"@, "INDENT"@) {
            Some("Expected an indented block on the next line"@)
        } else {
            None
        },
        Token::Dedent => Some(
            "Unexpected decrease in indentation. Check that your block is properly indented"@,
        ),
        Token::Arrow => if parsing_context(source, line) == ParsingContext::ConceptBody {
            Some(
                "'->' is used in property definitions, not in concept bodies. Use 'has' for concept attributes"@,
            )
        } else {
            None
        },
        _ => None,
    }
}

/// Suggest a fix for an unexpected token, given what the grammar expected there.
pub fn suggest_for_unexpected_token(tok: &Token, expected: &[String], source: &str, loc: &Location) -> (r: Option<String>)
    requires
        *tok is Arrow ==> source@.len() > 0 && byte_len(source@) <= usize::MAX,
    ensures
        r matches Some(h) ==> unexpected_suggestion(*tok, expected@, source@, loc.line as nat) == Some(h@),
        r is None ==> unexpected_suggestion(*tok, expected@, source@, loc.line as nat) is None,
{
    match tok {
        Token::Name(_) => {
            if any_mentions_exec(expected, "Colon", ":") {
                return Some(
                    String::from_str("Did you forget a ':' ? Blocks require a colon, e.g., 'concept Foo:'"),
                );
            }
        },
        Token::Newline => {
            if any_mentions_exec(expected, "Indent", "INDENT") {
                return Some(String::from_str("Expected an indented block on the next line"));
            }
        },
        Token::Dedent => {
            return Some(
                String::from_str(
                    "Unexpected decrease in indentation. Check that your block is properly indented",
                ),
            );
        },
        Token::Arrow => {
            let ctx = identify_parsing_context(source, loc);
            if ctx == ParsingContext::ConceptBody {
                return Some(
                    String::from_str(
                        "'->' is used in property definitions, not in concept bodies. Use 'has' for concept attributes",
                    ),
                );
            }
        },
        _ => {},
    }
    None
}

// ============================================================================
// MESSAGES
// ============================================================================

/// `Unexpected '<token>'` followed by `rest`.
pub open spec fn unexpected_quoted(tok: Token, rest: Seq<char>) -> Seq<char> {
    "Unexpected '"@ + tok.spec_text() + "'"@ + rest
}

/// The message for an unexpected token, naming the block it stands in.
pub open spec fn unexpected_message(tok: Token, source: Seq<char>, line: nat) -> Seq<char> {
    match parsing_context(source, line) {
        ParsingContext::ConceptBody => unexpected_quoted(tok, " in concept body"@),
        ParsingContext::OntologyBody => unexpected_quoted(tok, " in ontology body"@),
        ParsingContext::EnumBody => unexpected_quoted(tok, " in enum definition"@),
        ParsingContext::MatchBlock => unexpected_quoted(tok, " in match block"@),
        ParsingContext::ThenBlock => unexpected_quoted(tok, " in then block"@),
        ParsingContext::PropertyDef => unexpected_quoted(tok, " in property definition"@),
        ParsingContext::TopLevel => match tok {
            Token::Indent => "Unexpected indentation at top level, did you forgot the ':' ?"@,
            _ => unexpected_quoted(tok, " at top level"@),
        },
        ParsingContext::Unknown => "Unexpected token '"@ + tok.spec_text() + "'"@,
    }
}

/// `Unexpected '<token>'` followed by `rest`, as a string.
fn unexpected_quoted_exec(tok: &Token, rest: &str) -> (r: String)
    ensures
        r@ == unexpected_quoted(*tok, rest@),
{
    let mut out: Vec<char> = Vec::new();
    push_str(&mut out, "Unexpected '");
    let t = tok.text();
    push_str(&mut out, t.as_str());
    push_str(&mut out, "'");
    push_str(&mut out, rest);
    string_from_chars(out.as_slice())
}

/// Produce a context-aware message for an unexpected token.
pub fn format_unexpected_token_message(tok: &Token, source: &str, loc: &Location) -> (r: String)
    requires
        source@.len() > 0,
        byte_len(source@) <= usize::MAX,
    ensures
        r@ == unexpected_message(*tok, source@, loc.line as nat),
{
    let context = identify_parsing_context(source, loc);
    match context {
        ParsingContext::ConceptBody => unexpected_quoted_exec(tok, " in concept body"),
        ParsingContext::OntologyBody => unexpected_quoted_exec(tok, " in ontology body"),
        ParsingContext::EnumBody => unexpected_quoted_exec(tok, " in enum definition"),
        ParsingContext::MatchBlock => unexpected_quoted_exec(tok, " in match block"),
        ParsingContext::ThenBlock => unexpected_quoted_exec(tok, " in then block"),
        ParsingContext::PropertyDef => unexpected_quoted_exec(tok, " in property definition"),
        ParsingContext::TopLevel => match tok {
            Token::Indent => String::from_str("Unexpected indentation at top level, did you forgot the ':' ?"),
            _ => unexpected_quoted_exec(tok, " at top level"),
        },
        ParsingContext::Unknown => {
            let mut out: Vec<char> = Vec::new();
            push_str(&mut out, "Unexpected token '");
            let t = tok.text();
            push_str(&mut out, t.as_str());
            push_str(&mut out, "'");
            string_from_chars(out.as_slice())
        },
    }
}

// ============================================================================
// CONVERSION OF GRAMMAR FAILURES
// ============================================================================

/// A failure reported by the generated grammar, in the shape its parser
/// reports it: where it stopped, what it found and what it expected.
#[derive(Debug)]
pub enum GrammarError {
    /// A token the lexer could not make sense of.
    InvalidToken { location: Location },
    /// The input ended where more was expected.
    UnrecognizedEof { location: Location, expected: Vec<String> },
    /// A token that cannot stand where it was found.
    UnrecognizedToken { token: Spanned<Token>, expected: Vec<String> },
    /// A token after a complete input.
    ExtraToken { token: Spanned<Token> },
    /// An error of the lexer.
    User { error: LexerError },
}

/// `h` holds the help text `s`, or no help when `s` is none.
pub open spec fn help_is(h: Option<String>, s: Option<Seq<char>>) -> bool {
    match s {
        Some(t) => h matches Some(x) && x@ == t,
        None => h is None,
    }
}

/// `e` is the parse error that `error` converts into for `source`.
pub open spec fn converted_error(error: GrammarError, source: Seq<char>, e: ParseError) -> bool {
    match error {
        GrammarError::InvalidToken { location } => {
            &&& e.message@ == "Invalid token"@
            &&& e.code == ErrorCode::UnexpectedToken
            &&& e.location == Some(location)
            &&& e.end_location is None
            &&& e.expected@ == Seq::<String>::empty()
            &&& e.help is None
        },
        GrammarError::UnrecognizedEof { location, expected } => {
            &&& e.message@ == "Unexpected end of file"@
            &&& e.code == ErrorCode::UnexpectedEof
            &&& e.location == Some(location)
            &&& e.end_location is None
            &&& e.expected == expected
            &&& help_is(e.help, eof_suggestion(source))
        },
        GrammarError::UnrecognizedToken { token: (start, tok, end), expected } => {
            &&& e.message@ == unexpected_message(tok, source, start.line as nat)
            &&& e.code == unexpected_code(tok)
            &&& e.location == Some(start)
            &&& e.end_location == Some(end)
            &&& e.expected == expected
            &&& help_is(e.help, unexpected_suggestion(tok, expected@, source, start.line as nat))
        },
        GrammarError::ExtraToken { token: (start, tok, end) } => {
            &&& e.message@ == "Extra token '"@ + tok.spec_text() + "' after valid input"@
            &&& e.code == ErrorCode::ExtraToken
            &&& e.location == Some(start)
            &&& e.end_location == Some(end)
            &&& e.expected@ == Seq::<String>::empty()
            &&& help_is(e.help, Some("Remove this token or check for a missing newline"@))
        },
        GrammarError::User { error } => {
            &&& e.message@ == error.message@
            &&& e.code == error.code
            &&& e.location == Some(error.location)
            &&& e.end_location is None
            &&& e.expected@ == Seq::<String>::empty()
            &&& e.help is None
        },
    }
}

/// Convert a grammar failure into our `ParseError` with rich context.
pub fn convert_lalrpop_error(error: GrammarError, source: &str) -> (r: Box<ParseError>)
    requires
        error is UnrecognizedToken ==> source@.len() > 0 && byte_len(source@) <= usize::MAX,
    ensures
        converted_error(error, source@, *r),
{
    match error {
        GrammarError::InvalidToken { location } => Box::new(
            ParseError::new("Invalid token", ErrorCode::UnexpectedToken).with_location(location),
        ),
        GrammarError::UnrecognizedEof { location, expected } => {
            let help = suggest_for_eof(source, &location);
            let mut err = ParseError::new("Unexpected end of file", ErrorCode::UnexpectedEof)
                .with_location(location)
                .with_expected(expected);
            match help {
                Some(h) => {
                    err = err.with_help(h.as_str());
                },
                None => {},
            }
            Box::new(err)
        },
        GrammarError::UnrecognizedToken { token: (start, tok, end), expected } => {
            let message = format_unexpected_token_message(&tok, source, &start);
            let help = suggest_for_unexpected_token(&tok, expected.as_slice(), source, &start);
            let code = classify_unexpected_token(&tok);
            let mut err = ParseError::new(message.as_str(), code).with_span(start, end).with_expected(
                expected,
            );
            match help {
                Some(h) => {
                    err = err.with_help(h.as_str());
                },
                None => {},
            }
            Box::new(err)
        },
        GrammarError::ExtraToken { token: (start, tok, end) } => {
            let mut m: Vec<char> = Vec::new();
            push_str(&mut m, "Extra token '");
            let t = tok.text();
            push_str(&mut m, t.as_str());
            push_str(&mut m, "' after valid input");
            let message = string_from_chars(m.as_slice());
            Box::new(
                ParseError::new(message.as_str(), ErrorCode::ExtraToken).with_span(start, end).with_help(
                    "Remove this token or check for a missing newline",
                ),
            )
        },
        GrammarError::User { error } => Box::new(
            ParseError::new(error.message.as_str(), error.code).with_location(error.location),
        ),
    }
}

// ============================================================================
// RESULTS
// ============================================================================

/// Result of parsing with comment preservation.
pub struct ParseWithComments {
    pub result: ParseResult,
    pub comments: Vec<Comment>,
}

/// The ontology of a parse result when it has one and no error; else the
/// first error, as a `ParseError`.
pub fn parse_result_strict(result: ParseResult) -> (r: Result<OntologyFile, Box<ParseError>>)
    requires
        result.ontology is Some || of_severity(result.diagnostics@, Severity::HardError).len() > 0,
    ensures
        (result.ontology is Some && of_severity(result.diagnostics@, Severity::HardError).len() == 0)
            ==> r == Ok::<OntologyFile, Box<ParseError>>(result.ontology->0),
        !(result.ontology is Some && of_severity(result.diagnostics@, Severity::HardError).len() == 0)
            ==> (r matches Err(e) && parse_error_of(of_severity(result.diagnostics@, Severity::HardError)[0], *e)),
{
    let failed = result.has_errors();
    let mut errs = result.errors();
    let ParseResult { ontology, diagnostics: _ } = result;
    match ontology {
        Some(o) => {
            if !failed {
                return Ok(o);
            }
        },
        None => {},
    }
    let first = errs.remove(0);
    Err(Box::new(first.into_parse_error()))
}

} // verus!
