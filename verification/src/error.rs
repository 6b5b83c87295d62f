//! Source positions, diagnostics and error values of the Dolfin parser.
//!
//! - Source spans (not just points) for precise error highlighting
//! - Error codes for programmatic handling
//! - Severity levels (error, warning, hint)
//! - Contextual information (source lines, suggestions)
//! - Multiple error accumulation

use vstd::prelude::*;

use crate::ast::OntologyFile;
use crate::lexer::token::concat3;
use crate::text::{
    byte_len, byte_len_exec, chars_of, lines, nat_text, nat_to_chars, nth_line, push_repeat, push_str,
    string_from_chars, trim_end_matches_bounds, trim_matches, trim_start_matches_bounds,
    usize_to_string,
};

verus! {

// ============================================================================
// SOURCE LOCATION & SPAN
// ============================================================================

/// A single point in source code.
#[derive(Debug, Clone, Copy, PartialEq, Eq, Hash, Default, Structural)]
pub struct Location {
    /// 1-based line number
    pub line: usize,
    /// 1-based column number
    pub column: usize,
    /// 0-based byte offset from start of source
    pub offset: usize,
}

impl Location {
    /// Create a new source location
    pub fn new(line: usize, column: usize, offset: usize) -> (r: Self)
        ensures
            r == (Location { line, column, offset }),
    {
        Self { line, column, offset }
    }

    /// Locations are ordered by their byte offset alone.
    pub open spec fn spec_le(self, other: Self) -> bool {
        self.offset <= other.offset
    }

    /// `self <= other` in the offset order.
    pub fn le(&self, other: &Self) -> (r: bool)
        ensures
            r == self.spec_le(*other),
    {
        self.offset <= other.offset
    }
}

/// A span covering a range in source code.
#[derive(Debug, Clone, Copy, PartialEq, Eq, Hash, Default, Structural)]
pub struct Span {
    /// Start location of the span
    pub start: Location,
    /// End location of the span
    pub end: Location,
}

/// The earlier of two locations by offset; the first one when they tie.
pub open spec fn min_loc(a: Location, b: Location) -> Location {
    if a.offset <= b.offset {
        a
    } else {
        b
    }
}

/// The later of two locations by offset; the second one when they tie.
pub open spec fn max_loc(a: Location, b: Location) -> Location {
    if b.offset >= a.offset {
        b
    } else {
        a
    }
}

impl Span {
    /// Create a new span
    pub fn new(start: Location, end: Location) -> (r: Self)
        ensures
            r == (Span { start, end }),
    {
        Self { start, end }
    }

    /// Create a zero-width span at a single location (for insertion points).
    pub fn at(location: Location) -> (r: Self)
        ensures
            r == (Span { start: location, end: location }),
    {
        Self { start: location, end: location }
    }

    pub open spec fn spec_merge(self, other: Span) -> Span {
        Span { start: min_loc(self.start, other.start), end: max_loc(self.end, other.end) }
    }

    /// Merge two spans into one that covers both.
    pub fn merge(&self, other: &Span) -> (r: Span)
        ensures
            r == self.spec_merge(*other),
    {
        let start = if self.start.offset <= other.start.offset {
            self.start
        } else {
            other.start
        };
        let end = if other.end.offset >= self.end.offset {
            other.end
        } else {
            self.end
        };
        Span { start, end }
    }

    /// Spans are ordered by start offset, then by end offset.
    pub open spec fn spec_lt(self, other: Span) -> bool {
        self.start.offset < other.start.offset || (self.start.offset == other.start.offset
            && self.end.offset < other.end.offset)
    }

    /// `self < other` in the span order.
    pub fn lt(&self, other: &Span) -> (r: bool)
        ensures
            r == self.spec_lt(*other),
    {
        self.start.offset < other.start.offset || (self.start.offset == other.start.offset
            && self.end.offset < other.end.offset)
    }

    /// `self <= other` in the span order (equal offsets count as equal).
    pub open spec fn spec_le(self, other: Span) -> bool {
        !other.spec_lt(self)
    }
}

/// Merging two spans gives a span that starts at the earlier start and ends at the
/// later end: it covers both.
pub proof fn lemma_merge_covers(a: Span, b: Span)
    ensures
        a.spec_merge(b).start.offset <= a.start.offset,
        a.spec_merge(b).start.offset <= b.start.offset,
        a.spec_merge(b).end.offset >= a.end.offset,
        a.spec_merge(b).end.offset >= b.end.offset,
        a.spec_merge(b).start.offset == a.start.offset || a.spec_merge(b).start.offset
            == b.start.offset,
        a.spec_merge(b).end.offset == a.end.offset || a.spec_merge(b).end.offset
            == b.end.offset,
{
}

/// Merging is commutative on offsets, and merging a span with itself gives it back.
pub proof fn lemma_merge_commutes_idempotent(a: Span, b: Span)
    ensures
        a.spec_merge(b).start.offset == b.spec_merge(a).start.offset,
        a.spec_merge(b).end.offset == b.spec_merge(a).end.offset,
        a.spec_merge(a) == a,
{
}

/// Merging is associative.
pub proof fn lemma_merge_associative(a: Span, b: Span, c: Span)
    ensures
        a.spec_merge(b).spec_merge(c) == a.spec_merge(b.spec_merge(c)),
{
}

/// A string with the span it was read from.
#[derive(Debug, Clone, PartialEq)]
pub struct SpannedString {
    inner: String,
    pub span: Option<Span>,
}

impl SpannedString {
    /// The string's text.
    pub closed spec fn text(&self) -> Seq<char> {
        self.inner@
    }

    /// The span it was read from.
    pub closed spec fn span_view(&self) -> Option<Span> {
        self.span
    }

    pub fn new(inner: String, span: Option<Span>) -> (r: Self)
        ensures
            r.text() == inner@,
            r.span_view() == span,
    {
        Self { inner, span }
    }

    /// The string.
    pub fn get(&self) -> (r: &String)
        ensures
            r@ == self.text(),
    {
        &self.inner
    }
}

// ============================================================================
// ERROR CODES
// ============================================================================

/// Categorized error codes for programmatic handling.
///
/// Error codes follow the pattern:
/// - E1xx: Lexer errors
/// - E2xx: Parser (syntax) errors
/// - E3xx: Semantic errors (structure validation)
#[derive(Debug, Clone, Copy, PartialEq, Eq, Hash, Structural)]
pub enum ErrorCode {
    /// Unrecognized character in input.
    InvalidCharacter,
    /// Unterminated string literal.
    UnterminatedString,
    /// Invalid numeric literal.
    InvalidNumber,
    /// Invalid escape sequence in string.
    InvalidEscape,
    /// Inconsistent indentation (mixed tabs/spaces or unexpected level).
    InvalidIndentation,
    /// An expected token was not found.
    UnexpectedToken,
    /// Unexpected end of file.
    UnexpectedEof,
    /// Extra token after valid input.
    ExtraToken,
    /// Missing required block (e.g., ontology body).
    MissingBlock,
    /// Missing required field or declaration.
    MissingDeclaration,
    /// Invalid cardinality specification.
    InvalidCardinality,
    /// Invalid type reference.
    InvalidTypeRef,
    /// Malformed qualified name.
    InvalidQualifiedName,
    /// Missing arrow in property definition.
    MissingArrow,
    /// Invalid pattern in match block.
    InvalidPattern,
    /// Invalid assertion in then block.
    InvalidAssertion,
    /// Duplicate definition name.
    DuplicateDefinition,
    /// Reference to an undefined name.
    UndefinedReference,
    /// Circular inheritance detected.
    CircularInheritance,
    /// Type mismatch in property or has declaration.
    TypeMismatch,
    /// Invalid enum variant (e.g., starts with uppercase).
    InvalidEnumVariant,
    /// Unknown error.
    UnknownError,
}

impl ErrorCode {
    /// The numeric value of the code.
    pub open spec fn spec_value(self) -> u16 {
        match self {
            ErrorCode::InvalidCharacter => 100,
            ErrorCode::UnterminatedString => 101,
            ErrorCode::InvalidNumber => 102,
            ErrorCode::InvalidEscape => 103,
            ErrorCode::InvalidIndentation => 104,
            ErrorCode::UnexpectedToken => 200,
            ErrorCode::UnexpectedEof => 201,
            ErrorCode::ExtraToken => 202,
            ErrorCode::MissingBlock => 203,
            ErrorCode::MissingDeclaration => 204,
            ErrorCode::InvalidCardinality => 205,
            ErrorCode::InvalidTypeRef => 206,
            ErrorCode::InvalidQualifiedName => 207,
            ErrorCode::MissingArrow => 208,
            ErrorCode::InvalidPattern => 209,
            ErrorCode::InvalidAssertion => 210,
            ErrorCode::DuplicateDefinition => 300,
            ErrorCode::UndefinedReference => 301,
            ErrorCode::CircularInheritance => 302,
            ErrorCode::TypeMismatch => 303,
            ErrorCode::InvalidEnumVariant => 304,
            ErrorCode::UnknownError => 999,
        }
    }

    /// The numeric value of the code (`100` for `E100`).
    pub fn value(&self) -> (r: u16)
        ensures
            r == self.spec_value(),
    {
        match self {
            ErrorCode::InvalidCharacter => 100,
            ErrorCode::UnterminatedString => 101,
            ErrorCode::InvalidNumber => 102,
            ErrorCode::InvalidEscape => 103,
            ErrorCode::InvalidIndentation => 104,
            ErrorCode::UnexpectedToken => 200,
            ErrorCode::UnexpectedEof => 201,
            ErrorCode::ExtraToken => 202,
            ErrorCode::MissingBlock => 203,
            ErrorCode::MissingDeclaration => 204,
            ErrorCode::InvalidCardinality => 205,
            ErrorCode::InvalidTypeRef => 206,
            ErrorCode::InvalidQualifiedName => 207,
            ErrorCode::MissingArrow => 208,
            ErrorCode::InvalidPattern => 209,
            ErrorCode::InvalidAssertion => 210,
            ErrorCode::DuplicateDefinition => 300,
            ErrorCode::UndefinedReference => 301,
            ErrorCode::CircularInheritance => 302,
            ErrorCode::TypeMismatch => 303,
            ErrorCode::InvalidEnumVariant => 304,
            ErrorCode::UnknownError => 999,
        }
    }

    pub open spec fn spec_code(self) -> Seq<char> {
        seq!['E'] + nat_text(self.spec_value() as nat)
    }

    /// Get the string code like "E100".
    pub fn code(&self) -> (r: String)
        ensures
            r@ == self.spec_code(),
    {
        let mut v: Vec<char> = Vec::new();
        v.push('E');
        let mut d = nat_to_chars(self.value() as u64);
        v.append(&mut d);
        proof {
            assert(v@ =~= self.spec_code());
        }
        string_from_chars(v.as_slice())
    }

    pub open spec fn spec_label(self) -> Seq<char> {
        match self {
            ErrorCode::InvalidCharacter => "invalid character"@,
            ErrorCode::UnterminatedString => "unterminated string"@,
            ErrorCode::InvalidNumber => "invalid number"@,
            ErrorCode::InvalidEscape => "invalid escape sequence"@,
            ErrorCode::InvalidIndentation => "invalid indentation"@,
            ErrorCode::UnexpectedToken => "unexpected token"@,
            ErrorCode::UnexpectedEof => "unexpected end of file"@,
            ErrorCode::ExtraToken => "extra token"@,
            ErrorCode::MissingBlock => "missing block"@,
            ErrorCode::MissingDeclaration => "missing declaration"@,
            ErrorCode::InvalidCardinality => "invalid cardinality"@,
            ErrorCode::InvalidTypeRef => "invalid type reference"@,
            ErrorCode::InvalidQualifiedName => "invalid qualified name"@,
            ErrorCode::MissingArrow => "missing arrow"@,
            ErrorCode::InvalidPattern => "invalid pattern"@,
            ErrorCode::InvalidAssertion => "invalid assertion"@,
            ErrorCode::DuplicateDefinition => "duplicate definition"@,
            ErrorCode::UndefinedReference => "undefined reference"@,
            ErrorCode::CircularInheritance => "circular inheritance"@,
            ErrorCode::TypeMismatch => "type mismatch"@,
            ErrorCode::InvalidEnumVariant => "invalid enum variant"@,
            ErrorCode::UnknownError => "unknown error"@,
        }
    }

    /// Get a short human-readable label.
    pub fn label(&self) -> (r: &'static str)
        ensures
            r@ == self.spec_label(),
    {
        match self {
            ErrorCode::InvalidCharacter => "invalid character",
            ErrorCode::UnterminatedString => "unterminated string",
            ErrorCode::InvalidNumber => "invalid number",
            ErrorCode::InvalidEscape => "invalid escape sequence",
            ErrorCode::InvalidIndentation => "invalid indentation",
            ErrorCode::UnexpectedToken => "unexpected token",
            ErrorCode::UnexpectedEof => "unexpected end of file",
            ErrorCode::ExtraToken => "extra token",
            ErrorCode::MissingBlock => "missing block",
            ErrorCode::MissingDeclaration => "missing declaration",
            ErrorCode::InvalidCardinality => "invalid cardinality",
            ErrorCode::InvalidTypeRef => "invalid type reference",
            ErrorCode::InvalidQualifiedName => "invalid qualified name",
            ErrorCode::MissingArrow => "missing arrow",
            ErrorCode::InvalidPattern => "invalid pattern",
            ErrorCode::InvalidAssertion => "invalid assertion",
            ErrorCode::DuplicateDefinition => "duplicate definition",
            ErrorCode::UndefinedReference => "undefined reference",
            ErrorCode::CircularInheritance => "circular inheritance",
            ErrorCode::TypeMismatch => "type mismatch",
            ErrorCode::InvalidEnumVariant => "invalid enum variant",
            ErrorCode::UnknownError => "unknown error",
        }
    }
}

// ============================================================================
// SEVERITY
// ============================================================================

/// Severity level of a diagnostic.
#[derive(Debug, Clone, Copy, PartialEq, Eq, Hash, Structural)]
pub enum Severity {
    /// Informational hint.
    Hint,
    /// Warning: code is valid but may be problematic.
    Warning,
    /// Error: code is invalid.
    HardError,
}

impl Severity {
    pub open spec fn spec_text(self) -> Seq<char> {
        match self {
            Severity::Hint => "hint"@,
            Severity::Warning => "warning"@,
            Severity::HardError => "error"@,
        }
    }

    /// How the severity is displayed.
    pub fn text(&self) -> (r: &'static str)
        ensures
            r@ == self.spec_text(),
    {
        match self {
            Severity::Hint => "hint",
            Severity::Warning => "warning",
            Severity::HardError => "error",
        }
    }

    /// The rank of the severity: hints below warnings below errors.
    pub open spec fn spec_rank(self) -> u8 {
        match self {
            Severity::Hint => 0,
            Severity::Warning => 1,
            Severity::HardError => 2,
        }
    }

    /// The rank of the severity (`0` hint, `1` warning, `2` error).
    pub fn rank(&self) -> (r: u8)
        ensures
            r == self.spec_rank(),
    {
        match self {
            Severity::Hint => 0,
            Severity::Warning => 1,
            Severity::HardError => 2,
        }
    }
}

// ============================================================================
// LEXER ERRORS
// ============================================================================

/// Error produced by the lexer. Carries enough information to convert
/// into a `Diagnostic`.
#[derive(Debug, Clone, PartialEq)]
pub struct LexerError {
    /// Error message
    pub message: String,
    /// Location where the error occurred
    pub location: Location,
    /// Error code
    pub code: ErrorCode,
}

impl LexerError {
    /// Create a new lexer error
    pub fn new(message: String, location: Location, code: ErrorCode) -> (r: Self)
        ensures
            r == (LexerError { message, location, code }),
    {
        Self { message, location, code }
    }
}

// ============================================================================
// DISPLAY OF LOCATIONS AND SPANS
// ============================================================================

/// `line:column`
pub open spec fn loc_text(l: Location) -> Seq<char> {
    nat_text(l.line as nat) + ":"@ + nat_text(l.column as nat)
}

/// `line:column-column` on one line, `line:column-line:column` across lines.
pub open spec fn span_text(s: Span) -> Seq<char> {
    if s.start.line == s.end.line {
        loc_text(s.start) + "-"@ + nat_text(s.end.column as nat)
    } else {
        loc_text(s.start) + "-"@ + loc_text(s.end)
    }
}

/// Appends the text of a number.
fn push_num(out: &mut Vec<char>, n: usize)
    ensures
        final(out)@ == old(out)@ + nat_text(n as nat),
{
    let mut v = nat_to_chars(n as u64);
    out.append(&mut v);
}

/// Appends `line:column`.
fn push_loc(out: &mut Vec<char>, l: &Location)
    ensures
        final(out)@ == old(out)@ + loc_text(*l),
{
    let ghost o = out@;
    push_num(out, l.line);
    push_str(out, ":");
    push_num(out, l.column);
    proof {
        assert(out@ =~= o + loc_text(*l));
    }
}

impl Location {
    /// How the location is displayed: `line:column`.
    pub fn text(&self) -> (r: String)
        ensures
            r@ == loc_text(*self),
    {
        let mut out: Vec<char> = Vec::new();
        push_loc(&mut out, self);
        proof {
            assert(out@ =~= loc_text(*self));
        }
        string_from_chars(out.as_slice())
    }
}

impl Span {
    /// How the span is displayed.
    pub fn text(&self) -> (r: String)
        ensures
            r@ == span_text(*self),
    {
        let mut out: Vec<char> = Vec::new();
        push_loc(&mut out, &self.start);
        push_str(&mut out, "-");
        if self.start.line == self.end.line {
            push_num(&mut out, self.end.column);
        } else {
            push_loc(&mut out, &self.end);
        }
        proof {
            assert(out@ =~= span_text(*self));
        }
        string_from_chars(out.as_slice())
    }
}

// ============================================================================
// DIAGNOSTICS
// ============================================================================

/// A labeled secondary span within a diagnostic.
#[derive(Debug, Clone)]
pub struct DiagnosticLabel {
    /// The span being labeled
    pub span: Span,
    /// The label message
    pub message: String,
}

impl DiagnosticLabel {
    /// Create a new diagnostic label
    pub fn new(span: Span, message: String) -> (r: Self)
        ensures
            r == (DiagnosticLabel { span, message }),
    {
        Self { span, message }
    }

    /// A copy of the label.
    pub fn copy(&self) -> (r: Self)
        ensures
            r == *self,
    {
        DiagnosticLabel { span: self.span, message: self.message.clone() }
    }
}

/// A single diagnostic message with full context.
#[derive(Debug, Clone)]
pub struct Diagnostic {
    /// Severity level.
    pub severity: Severity,
    /// Machine-readable error code.
    pub code: ErrorCode,
    /// Human-readable primary message.
    pub message: String,
    /// Source span where the error occurred.
    pub span: Option<Span>,
    /// Optional help text suggesting how to fix the issue.
    pub help: Option<String>,
    /// Additional labeled spans providing context.
    pub labels: Vec<DiagnosticLabel>,
}

/// Two diagnostics hold the same values.
pub open spec fn same_diagnostic(a: Diagnostic, b: Diagnostic) -> bool {
    &&& a.severity == b.severity
    &&& a.code == b.code
    &&& a.message == b.message
    &&& a.span == b.span
    &&& a.help == b.help
    &&& a.labels@ == b.labels@
}

/// A copy of a list of labels.
fn copy_labels(v: &Vec<DiagnosticLabel>) -> (r: Vec<DiagnosticLabel>)
    ensures
        r@ == v@,
{
    let mut out: Vec<DiagnosticLabel> = Vec::new();
    let mut k: usize = 0;
    while k < v.len()
        invariant
            0 <= k <= v@.len(),
            out@ == v@.subrange(0, k as int),
        decreases v@.len() - k,
    {
        out.push(v[k].copy());
        k = k + 1;
        proof {
            assert(out@ =~= v@.subrange(0, k as int));
        }
    }
    proof {
        assert(v@.subrange(0, v@.len() as int) =~= v@);
    }
    out
}

impl Diagnostic {
    /// Create a new diagnostic; no labels when `labels` is `None`.
    pub fn new(
        severity: Severity,
        code: ErrorCode,
        message: String,
        span: Option<Span>,
        help: Option<String>,
        labels: Option<Vec<DiagnosticLabel>>,
    ) -> (r: Self)
        ensures
            r.severity == severity,
            r.code == code,
            r.message == message,
            r.span == span,
            r.help == help,
            labels matches Some(l) ==> r.labels == l,
            labels is None ==> r.labels@ == Seq::<DiagnosticLabel>::empty(),
    {
        let labels = match labels {
            Some(l) => l,
            None => Vec::new(),
        };
        Self { severity, code, message, span, help, labels }
    }

    /// Is this an error (as opposed to a warning or hint)?
    pub fn is_error(&self) -> (r: bool)
        ensures
            r == (self.severity == Severity::HardError),
    {
        self.severity == Severity::HardError
    }

    /// A copy of the diagnostic.
    pub fn copy(&self) -> (r: Self)
        ensures
            same_diagnostic(r, *self),
    {
        Diagnostic {
            severity: self.severity,
            code: self.code,
            message: self.message.clone(),
            span: self.span,
            help: match &self.help {
                Some(h) => Some(h.clone()),
                None => None,
            },
            labels: copy_labels(&self.labels),
        }
    }

    /// Format the diagnostic for display, optionally with source context.
    pub fn display(&self, source: Option<&str>, filename: Option<&str>) -> (r: String)
        ensures
            r@ == diagnostic_text(
                *self,
                match source {
                    Some(s) => Some(s@),
                    None => None,
                },
                match filename {
                    Some(f) => Some(f@),
                    None => None,
                },
            ),
    {
        format_diagnostic(self, source, filename)
    }

    /// How the diagnostic is displayed without source text.
    pub fn text(&self) -> (r: String)
        ensures
            r@ == diagnostic_text(*self, None, None),
    {
        format_diagnostic(self, None, None)
    }

    /// Convert from a diagnostic back into a ParseError.
    pub fn into_parse_error(self) -> (r: ParseError)
        ensures
            parse_error_of(self, r),
    {
        let (location, end_location) = match self.span {
            Some(span) => (Some(span.start), Some(span.end)),
            None => (None, None),
        };
        ParseError {
            message: self.message,
            location,
            end_location,
            code: self.code,
            expected: Vec::new(),
            help: self.help,
        }
    }
}

/// `e` is the parse error that the diagnostic `d` converts back into.
pub open spec fn parse_error_of(d: Diagnostic, e: ParseError) -> bool {
    &&& e.message == d.message
    &&& e.location == (match d.span {
        Some(s) => Some(s.start),
        None => None,
    })
    &&& e.end_location == (match d.span {
        Some(s) => Some(s.end),
        None => None,
    })
    &&& e.code == d.code
    &&& e.expected@ == Seq::<String>::empty()
    &&& e.help == d.help
}

// ============================================================================
// DIAGNOSTIC BUILDER (fluent API)
// ============================================================================

/// Builder for constructing diagnostics with a fluent API.
pub struct DiagnosticBuilder {
    severity: Severity,
    code: ErrorCode,
    message: String,
    span: Option<Span>,
    help: Option<String>,
    labels: Vec<DiagnosticLabel>,
}

impl DiagnosticBuilder {
    /// The diagnostic that `build` gives.
    pub closed spec fn view(&self) -> Diagnostic {
        Diagnostic {
            severity: self.severity,
            code: self.code,
            message: self.message,
            span: self.span,
            help: self.help,
            labels: self.labels,
        }
    }

    /// Create a new diagnostic builder: no span, no help, no labels.
    pub fn new(severity: Severity, code: ErrorCode, message: &str) -> (r: Self)
        ensures
            r@.severity == severity,
            r@.code == code,
            r@.message@ == message@,
            r@.span is None,
            r@.help is None,
            r@.labels@ == Seq::<DiagnosticLabel>::empty(),
    {
        Self {
            severity,
            code,
            message: String::from_str(message),
            span: None,
            help: None,
            labels: Vec::new(),
        }
    }

    /// Create an error diagnostic
    pub fn error(code: ErrorCode, message: &str) -> (r: Self)
        ensures
            r@.severity == Severity::HardError,
            r@.code == code,
            r@.message@ == message@,
            r@.span is None,
            r@.help is None,
            r@.labels@ == Seq::<DiagnosticLabel>::empty(),
    {
        Self::new(Severity::HardError, code, message)
    }

    /// Create a warning diagnostic
    pub fn warning(code: ErrorCode, message: &str) -> (r: Self)
        ensures
            r@.severity == Severity::Warning,
            r@.code == code,
            r@.message@ == message@,
            r@.span is None,
            r@.help is None,
            r@.labels@ == Seq::<DiagnosticLabel>::empty(),
    {
        Self::new(Severity::Warning, code, message)
    }

    /// Create a hint diagnostic
    pub fn hint(code: ErrorCode, message: &str) -> (r: Self)
        ensures
            r@.severity == Severity::Hint,
            r@.code == code,
            r@.message@ == message@,
            r@.span is None,
            r@.help is None,
            r@.labels@ == Seq::<DiagnosticLabel>::empty(),
    {
        Self::new(Severity::Hint, code, message)
    }

    /// Set the span for this diagnostic
    pub fn span(self, span: Span) -> (r: Self)
        ensures
            r@ == (Diagnostic { span: Some(span), ..self@ }),
    {
        let mut b = self;
        b.span = Some(span);
        b
    }

    /// Set the span (optional) for this diagnostic
    pub fn span_opt(self, span: Option<Span>) -> (r: Self)
        ensures
            r@ == (Diagnostic { span, ..self@ }),
    {
        let mut b = self;
        b.span = span;
        b
    }

    /// Set a single-point location for this diagnostic
    pub fn at(self, location: Location) -> (r: Self)
        ensures
            r@ == (Diagnostic { span: Some(Span { start: location, end: location }), ..self@ }),
    {
        let mut b = self;
        b.span = Some(Span::at(location));
        b
    }

    /// Add help text to this diagnostic
    pub fn help(self, help: &str) -> (r: Self)
        ensures
            r@.help matches Some(h) && h@ == help@,
            r@.severity == self@.severity,
            r@.code == self@.code,
            r@.message == self@.message,
            r@.span == self@.span,
            r@.labels == self@.labels,
    {
        let mut b = self;
        b.help = Some(String::from_str(help));
        b
    }

    /// Add a labeled secondary span to this diagnostic
    pub fn label(self, span: Span, message: &str) -> (r: Self)
        ensures
            r@.labels@.len() == self@.labels@.len() + 1,
            r@.labels@.drop_last() == self@.labels@,
            r@.labels@.last().span == span,
            r@.labels@.last().message@ == message@,
            r@.severity == self@.severity,
            r@.code == self@.code,
            r@.message == self@.message,
            r@.span == self@.span,
            r@.help == self@.help,
    {
        let mut b = self;
        b.labels.push(DiagnosticLabel { span, message: String::from_str(message) });
        proof {
            assert(b.labels@.drop_last() =~= self@.labels@);
        }
        b
    }

    /// Build the final diagnostic
    pub fn build(self) -> (r: Diagnostic)
        ensures
            r == self@,
    {
        Diagnostic {
            severity: self.severity,
            code: self.code,
            message: self.message,
            span: self.span,
            help: self.help,
            labels: self.labels,
        }
    }
}

// ============================================================================
// PARSE RESULT (accumulates multiple diagnostics)
// ============================================================================

/// Result of a parse operation, holding both the (possibly partial) AST
/// and all accumulated diagnostics.
#[derive(Debug)]
pub struct ParseResult {
    /// The parsed ontology, if parsing succeeded (possibly with warnings).
    pub ontology: Option<OntologyFile>,
    /// All diagnostics collected during parsing.
    pub diagnostics: Vec<Diagnostic>,
}

/// The diagnostics of the given severity, in order.
pub open spec fn of_severity(ds: Seq<Diagnostic>, sev: Severity) -> Seq<Diagnostic>
    decreases ds.len(),
{
    if ds.len() == 0 {
        seq![]
    } else if ds.last().severity == sev {
        of_severity(ds.drop_last(), sev).push(ds.last())
    } else {
        of_severity(ds.drop_last(), sev)
    }
}

/// Copies of the diagnostics of the given severity, in order.
fn diagnostics_of_severity(ds: &Vec<Diagnostic>, sev: Severity) -> (r: Vec<Diagnostic>)
    ensures
        r@.len() == of_severity(ds@, sev).len(),
        forall|k: int| 0 <= k < r@.len() ==> same_diagnostic(#[trigger] r@[k], of_severity(ds@, sev)[k]),
{
    let mut out: Vec<Diagnostic> = Vec::new();
    let mut i: usize = 0;
    while i < ds.len()
        invariant
            0 <= i <= ds@.len(),
            out@.len() == of_severity(ds@.subrange(0, i as int), sev).len(),
            forall|k: int| 0 <= k < out@.len() ==> same_diagnostic(#[trigger] out@[k], of_severity(ds@.subrange(0, i as int), sev)[k]),
        decreases ds@.len() - i,
    {
        proof {
            assert(ds@.subrange(0, i + 1).drop_last() =~= ds@.subrange(0, i as int));
        }
        if ds[i].severity == sev {
            out.push(ds[i].copy());
        }
        i = i + 1;
    }
    proof {
        assert(ds@.subrange(0, ds@.len() as int) =~= ds@);
    }
    out
}

/// How many diagnostics have the given severity.
fn count_of_severity(ds: &Vec<Diagnostic>, sev: Severity) -> (r: usize)
    ensures
        r == of_severity(ds@, sev).len(),
{
    let mut n: usize = 0;
    let mut i: usize = 0;
    while i < ds.len()
        invariant
            0 <= i <= ds@.len(),
            n == of_severity(ds@.subrange(0, i as int), sev).len(),
            n <= i,
        decreases ds@.len() - i,
    {
        proof {
            assert(ds@.subrange(0, i + 1).drop_last() =~= ds@.subrange(0, i as int));
        }
        if ds[i].severity == sev {
            n = n + 1;
        }
        i = i + 1;
    }
    proof {
        assert(ds@.subrange(0, ds@.len() as int) =~= ds@);
    }
    n
}

impl ParseResult {
    /// Were there any errors (not just warnings)?
    pub fn has_errors(&self) -> (r: bool)
        ensures
            r == (of_severity(self.diagnostics@, Severity::HardError).len() > 0),
    {
        count_of_severity(&self.diagnostics, Severity::HardError) > 0
    }

    /// Were there any warnings?
    pub fn has_warnings(&self) -> (r: bool)
        ensures
            r == (of_severity(self.diagnostics@, Severity::Warning).len() > 0),
    {
        count_of_severity(&self.diagnostics, Severity::Warning) > 0
    }

    /// Get only error-level diagnostics.
    pub fn errors(&self) -> (r: Vec<Diagnostic>)
        ensures
            r@.len() == of_severity(self.diagnostics@, Severity::HardError).len(),
            forall|k: int|
                0 <= k < r@.len() ==> same_diagnostic(
                    #[trigger] r@[k],
                    of_severity(self.diagnostics@, Severity::HardError)[k],
                ),
    {
        diagnostics_of_severity(&self.diagnostics, Severity::HardError)
    }

    /// Get only warning-level diagnostics.
    pub fn warnings(&self) -> (r: Vec<Diagnostic>)
        ensures
            r@.len() == of_severity(self.diagnostics@, Severity::Warning).len(),
            forall|k: int|
                0 <= k < r@.len() ==> same_diagnostic(
                    #[trigger] r@[k],
                    of_severity(self.diagnostics@, Severity::Warning)[k],
                ),
    {
        diagnostics_of_severity(&self.diagnostics, Severity::Warning)
    }

    /// Number of errors.
    pub fn error_count(&self) -> (r: usize)
        ensures
            r == of_severity(self.diagnostics@, Severity::HardError).len(),
    {
        count_of_severity(&self.diagnostics, Severity::HardError)
    }

    /// Number of warnings.
    pub fn warning_count(&self) -> (r: usize)
        ensures
            r == of_severity(self.diagnostics@, Severity::Warning).len(),
    {
        count_of_severity(&self.diagnostics, Severity::Warning)
    }

    /// The result is a success: an ontology and no errors.
    pub open spec fn spec_is_ok(&self) -> bool {
        self.ontology is Some && of_severity(self.diagnostics@, Severity::HardError).len() == 0
    }

    /// Is the parse result successful (has an ontology and no errors)?
    pub fn is_ok(&self) -> (r: bool)
        ensures
            r == self.spec_is_ok(),
    {
        self.ontology.is_some() && !self.has_errors()
    }

    /// Format all diagnostics for display, separated by blank lines.
    pub fn format_diagnostics(&self, source: Option<&str>, filename: Option<&str>) -> (r: String)
        ensures
            r@ == join_blocks(
                self.diagnostics@.map_values(
                    |d: Diagnostic|
                        diagnostic_text(
                            d,
                            match source {
                                Some(s) => Some(s@),
                                None => None,
                            },
                            match filename {
                                Some(f) => Some(f@),
                                None => None,
                            },
                        ),
                ),
            ),
    {
        let ghost src = match source {
            Some(s) => Some(s@),
            None => None,
        };
        let ghost file = match filename {
            Some(f) => Some(f@),
            None => None,
        };
        let ghost texts = self.diagnostics@.map_values(|d: Diagnostic| diagnostic_text(d, src, file));
        let mut out: Vec<char> = Vec::new();
        let mut i: usize = 0;
        while i < self.diagnostics.len()
            invariant
                0 <= i <= self.diagnostics@.len(),
                texts == self.diagnostics@.map_values(|d: Diagnostic| diagnostic_text(d, src, file)),
                src == (match source {
                    Some(s) => Some(s@),
                    None => None,
                }),
                file == (match filename {
                    Some(f) => Some(f@),
                    None => None,
                }),
                out@ == join_blocks(texts.subrange(0, i as int)),
            decreases self.diagnostics@.len() - i,
        {
            proof {
                assert(texts.subrange(0, i + 1).drop_last() =~= texts.subrange(0, i as int));
            }
            if i > 0 {
                push_str(&mut out, "\n\n");
            }
            let t = format_diagnostic(&self.diagnostics[i], source, filename);
            push_str(&mut out, t.as_str());
            proof {
                if i == 0 {
                    assert(out@ =~= texts.subrange(0, 1)[0]);
                }
            }
            i = i + 1;
        }
        proof {
            assert(texts.subrange(0, self.diagnostics@.len() as int) =~= texts);
            assert(texts =~= self.diagnostics@.map_values(
                |d: Diagnostic|
                    diagnostic_text(
                        d,
                        match source {
                            Some(s) => Some(s@),
                            None => None,
                        },
                        match filename {
                            Some(f) => Some(f@),
                            None => None,
                        },
                    ),
            ));
        }
        string_from_chars(out.as_slice())
    }

    /// Create a successful result.
    pub fn success(ontology: OntologyFile, diagnostics: Vec<Diagnostic>) -> (r: Self)
        ensures
            r.ontology == Some(ontology),
            r.diagnostics == diagnostics,
    {
        Self { ontology: Some(ontology), diagnostics }
    }

    /// Create a failed result.
    pub fn failure(diagnostics: Vec<Diagnostic>) -> (r: Self)
        ensures
            r.ontology is None,
            r.diagnostics == diagnostics,
    {
        Self { ontology: None, diagnostics }
    }

    /// The ontology when the result is a success; otherwise `op` applied to the
    /// first error converted back into a parse error.
    pub fn map_err<F, O: FnOnce(ParseError) -> F>(self, op: O) -> (r: Result<OntologyFile, F>)
        requires
            self.spec_is_ok() || of_severity(self.diagnostics@, Severity::HardError).len() > 0,
            forall|e: ParseError| op.requires((e,)),
        ensures
            self.spec_is_ok() ==> r == Ok::<OntologyFile, F>(self.ontology.unwrap()),
            !self.spec_is_ok() ==> (r matches Err(f) && exists|e: ParseError|
                #[trigger] parse_error_of(of_severity(self.diagnostics@, Severity::HardError)[0], e)
                    && op.ensures((e,), f)),
    {
        let ok = self.is_ok();
        if ok {
            match self.ontology {
                Some(ontology) => Ok(ontology),
                None => {
                    proof {
                        assert(false);
                    }
                    Err(op(ParseError::new("", ErrorCode::UnknownError)))
                },
            }
        } else {
            let mut errors = self.errors();
            let first = errors.remove(0);
            let e = first.into_parse_error();
            proof {
                let d0 = of_severity(self.diagnostics@, Severity::HardError)[0];
                assert(same_diagnostic(first, d0));
                assert(parse_error_of(d0, e));
            }
            Err(op(e))
        }
    }
}

/// Texts separated by blank lines.
pub open spec fn join_blocks(ts: Seq<Seq<char>>) -> Seq<char>
    decreases ts.len(),
{
    if ts.len() == 0 {
        seq![]
    } else if ts.len() == 1 {
        ts[0]
    } else {
        join_blocks(ts.drop_last()) + "\n\n"@ + ts.last()
    }
}

// ============================================================================
// LEXER AND PARSE ERRORS
// ============================================================================

impl LexerError {
    /// Convert to a rich diagnostic: an error at the error's location.
    pub fn into_diagnostic(self) -> (r: Diagnostic)
        ensures
            r.severity == Severity::HardError,
            r.code == self.code,
            r.message@ == self.message@,
            r.span == Some(Span { start: self.location, end: self.location }),
            r.help is None,
            r.labels@ == Seq::<DiagnosticLabel>::empty(),
    {
        DiagnosticBuilder::error(self.code, self.message.as_str()).at(self.location).build()
    }

    /// How the error is displayed: `[code] at line:column: message`.
    pub fn text(&self) -> (r: String)
        ensures
            r@ == "["@ + self.code.spec_code() + "] at "@ + loc_text(self.location) + ": "@ + self.message@,
    {
        let mut out: Vec<char> = Vec::new();
        push_str(&mut out, "[");
        let c = self.code.code();
        push_str(&mut out, c.as_str());
        push_str(&mut out, "] at ");
        push_loc(&mut out, &self.location);
        push_str(&mut out, ": ");
        push_str(&mut out, self.message.as_str());
        string_from_chars(out.as_slice())
    }
}

/// `d` is the diagnostic that the parse error `e` converts into: an error
/// spanning from the location to the end location (or the location again),
/// with the expected tokens in its help and no labels.
pub open spec fn diagnostic_of(e: ParseError, d: Diagnostic) -> bool {
    &&& d.severity == Severity::HardError
    &&& d.code == e.code
    &&& d.message@ == e.message@
    &&& d.span == (match e.location {
        Some(start) => Some(
            Span {
                start,
                end: match e.end_location {
                    Some(x) => x,
                    None => start,
                },
            },
        ),
        None => None,
    })
    &&& (d.help matches Some(h) ==> e.spec_diagnostic_help() == Some(h@))
    &&& (d.help is None ==> e.spec_diagnostic_help() is None)
    &&& d.labels@ == Seq::<DiagnosticLabel>::empty()
}

/// The help texts of two optional strings are the same.
pub open spec fn same_help(a: Option<String>, b: Option<String>) -> bool {
    match (a, b) {
        (Some(x), Some(y)) => x@ == y@,
        (None, None) => true,
        _ => false,
    }
}

/// An error diagnostic without labels comes back unchanged (up to the text
/// of its strings) from a conversion into a parse error and back.
pub proof fn lemma_diagnostic_round_trip(d: Diagnostic, e: ParseError, d2: Diagnostic)
    requires
        d.severity == Severity::HardError,
        d.labels@.len() == 0,
        parse_error_of(d, e),
        diagnostic_of(e, d2),
    ensures
        d2.severity == d.severity,
        d2.code == d.code,
        d2.message@ == d.message@,
        d2.span == d.span,
        same_help(d2.help, d.help),
        d2.labels@ == d.labels@,
{
    assert(d2.labels@ =~= d.labels@);
}

/// A parse error with a span (or no location at all) and no expected tokens
/// comes back unchanged (up to the text of its strings) from a conversion
/// into a diagnostic and back.
pub proof fn lemma_parse_error_round_trip(e: ParseError, d: Diagnostic, e2: ParseError)
    requires
        e.expected@.len() == 0,
        e.location is Some <==> e.end_location is Some,
        diagnostic_of(e, d),
        parse_error_of(d, e2),
    ensures
        e2.message@ == e.message@,
        e2.location == e.location,
        e2.end_location == e.end_location,
        e2.code == e.code,
        e2.expected@ == e.expected@,
        same_help(e2.help, e.help),
{
    assert(e2.expected@ =~= e.expected@);
}

/// Error produced during parsing. Can be converted into a `Diagnostic`.
#[derive(Debug, Clone)]
pub struct ParseError {
    /// Error message
    pub message: String,
    /// Start location of the error
    pub location: Option<Location>,
    /// End location of the error
    pub end_location: Option<Location>,
    /// Error code
    pub code: ErrorCode,
    /// Expected tokens (for syntax errors)
    pub expected: Vec<String>,
    /// Help text
    pub help: Option<String>,
}

impl ParseError {
    /// Create a new parse error: no location, nothing expected, no help.
    pub fn new(message: &str, code: ErrorCode) -> (r: Self)
        ensures
            r.message@ == message@,
            r.location is None,
            r.end_location is None,
            r.code == code,
            r.expected@ == Seq::<String>::empty(),
            r.help is None,
    {
        Self {
            message: String::from_str(message),
            location: None,
            end_location: None,
            code,
            expected: Vec::new(),
            help: None,
        }
    }

    /// Add a location to this error
    pub fn with_location(self, loc: Location) -> (r: Self)
        ensures
            r == (ParseError { location: Some(loc), ..self }),
    {
        let mut e = self;
        e.location = Some(loc);
        e
    }

    /// Add a span to this error
    pub fn with_span(self, start: Location, end: Location) -> (r: Self)
        ensures
            r == (ParseError { location: Some(start), end_location: Some(end), ..self }),
    {
        let mut e = self;
        e.location = Some(start);
        e.end_location = Some(end);
        e
    }

    /// Add expected tokens to this error
    pub fn with_expected(self, expected: Vec<String>) -> (r: Self)
        ensures
            r == (ParseError { expected, ..self }),
    {
        let mut e = self;
        e.expected = expected;
        e
    }

    /// Add help text to this error
    pub fn with_help(self, help: &str) -> (r: Self)
        ensures
            r.help matches Some(h) && h@ == help@,
            r.message == self.message,
            r.location == self.location,
            r.end_location == self.end_location,
            r.code == self.code,
            r.expected == self.expected,
    {
        let mut e = self;
        e.help = Some(String::from_str(help));
        e
    }

    /// The help text of the diagnostic: the expected tokens, after the help
    /// text when there is one.
    pub open spec fn spec_diagnostic_help(self) -> Option<Seq<char>> {
        if self.expected@.len() > 0 {
            let x = humanize_expected_text(texts_of(self.expected@));
            match self.help {
                Some(h) => Some(h@ + ". Expected "@ + x),
                None => Some("Expected "@ + x),
            }
        } else {
            match self.help {
                Some(h) => Some(h@),
                None => None,
            }
        }
    }

    /// Convert to a rich diagnostic: an error spanning from the location to the
    /// end location (or the location again), with the expected tokens in its help.
    pub fn into_diagnostic(self) -> (r: Diagnostic)
        ensures
            diagnostic_of(self, r),
    {
        let mut builder = DiagnosticBuilder::error(self.code, self.message.as_str());
        match self.location {
            Some(start) => {
                let end = match self.end_location {
                    Some(e) => e,
                    None => start,
                };
                builder = builder.span(Span { start, end });
            },
            None => {},
        }
        if self.expected.len() > 0 {
            let expected_str = humanize_expected(self.expected.as_slice());
            let mut m: Vec<char> = Vec::new();
            match &self.help {
                Some(h) => {
                    push_str(&mut m, h.as_str());
                    push_str(&mut m, ". Expected ");
                },
                None => {
                    push_str(&mut m, "Expected ");
                },
            }
            push_str(&mut m, expected_str.as_str());
            let help_msg = string_from_chars(m.as_slice());
            builder = builder.help(help_msg.as_str());
        } else {
            match &self.help {
                Some(h) => {
                    builder = builder.help(h.as_str());
                },
                None => {},
            }
        }
        builder.build()
    }

    /// How the error is displayed: `[code] at line:column: message` (or
    /// `[code]: message` without a location), then ` (expected ...)` when
    /// tokens are expected.
    pub fn text(&self) -> (r: String)
        ensures
            r@ == (match self.location {
                Some(loc) => "["@ + self.code.spec_code() + "] at "@ + loc_text(loc) + ": "@ + self.message@,
                None => "["@ + self.code.spec_code() + "]: "@ + self.message@,
            }) + (if self.expected@.len() > 0 {
                " (expected "@ + humanize_expected_text(texts_of(self.expected@)) + ")"@
            } else {
                Seq::<char>::empty()
            }),
    {
        let mut out: Vec<char> = Vec::new();
        push_str(&mut out, "[");
        let c = self.code.code();
        push_str(&mut out, c.as_str());
        match &self.location {
            Some(loc) => {
                push_str(&mut out, "] at ");
                push_loc(&mut out, loc);
                push_str(&mut out, ": ");
            },
            None => {
                push_str(&mut out, "]: ");
            },
        }
        push_str(&mut out, self.message.as_str());
        if self.expected.len() > 0 {
            push_str(&mut out, " (expected ");
            let x = humanize_expected(self.expected.as_slice());
            push_str(&mut out, x.as_str());
            push_str(&mut out, ")");
        }
        string_from_chars(out.as_slice())
    }
}

// ============================================================================
// FORMATTING
// ============================================================================

/// The texts of a list of strings.
pub open spec fn texts_of(v: Seq<String>) -> Seq<Seq<char>> {
    v.map_values(|s: String| s@)
}

/// The readable name of a token name as the grammar writes it: surrounding
/// double quotes dropped, known names spelled out, anything else quoted.
pub open spec fn humanize_name(name: Seq<char>) -> Seq<char> {
    let n = trim_matches(name, '"');
    if n == "NEWLINE"@ || n == "Newline"@ {
        "newline"@
    } else if n == "INDENT"@ || n == "Indent"@ {
        "indented block"@
    } else if n == "DEDENT"@ || n == "Dedent"@ {
        "end of block"@
    } else if n == "EOF"@ || n == "Eof"@ {
        "end of file"@
    } else if n == "NAME"@ || n == "Name"@ {
        "identifier"@
    } else if n == "INT"@ || n == "Int"@ {
        "integer"@
    } else if n == "FLOAT"@ || n == "Float"@ {
        "number"@
    } else if n == "STRING"@ || n == "String"@ {
        "string literal"@
    } else if n == "VARIABLE"@ || n == "Variable"@ {
        "variable (e.g., ?x)"@
    } else if n == "COLON"@ || n == "Colon"@ || n == ":"@ {
        "':'"@
    } else if n == "COMMA"@ || n == "Comma"@ || n == ","@ {
        "','"@
    } else if n == "DOT"@ || n == "Dot"@ || n == "."@ {
        "'.'"@
    } else if n == "ARROW"@ || n == "Arrow"@ || n == "->"@ {
        "'->'"@
    } else if n == "PIPE"@ || n == "Pipe"@ || n == "|"@ {
        "'|'"@
    } else if n == "LBRACKET"@ || n == "LBracket"@ || n == "["@ {
        "'['"@
    } else if n == "RBRACKET"@ || n == "RBracket"@ || n == "]"@ {
        "']'"@
    } else if n == "STAR"@ || n == "Star"@ || n == "*"@ {
        "'*'"@
    } else if n == "namespace"@ || n == "Namespace"@ {
        "'namespace'"@
    } else if n == "import"@ || n == "Import"@ {
        "'import'"@
    } else if n == "ontology"@ || n == "Ontology"@ {
        "'ontology'"@
    } else if n == "concept"@ || n == "Concept"@ {
        "'concept'"@
    } else if n == "property"@ || n == "Property"@ {
        "'property'"@
    } else if n == "enum"@ || n == "Enum"@ {
        "'enum'"@
    } else if n == "rule"@ || n == "Rule"@ {
        "'rule'"@
    } else if n == "match"@ || n == "Match"@ {
        "'match'"@
    } else if n == "then"@ || n == "Then"@ {
        "'then'"@
    } else if n == "sub"@ || n == "Sub"@ {
        "'sub'"@
    } else if n == "has"@ || n == "Has"@ {
        "'has'"@
    } else if n == "is"@ || n == "Is"@ {
        "'is'"@
    } else if n == "as"@ || n == "As"@ {
        "'as'"@
    } else {
        "'"@ + n + "'"@
    }
}

/// `t == lit`
fn is_lit(t: &[char], lit: &str) -> (r: bool)
    ensures
        r == (t@ == lit@),
{
    let l = chars_of(lit);
    crate::text::chars_eq(t, l.as_slice())
}

/// Clean up a token name from the grammar's internal representation.
pub fn humanize_token_name(name: &str) -> (r: String)
    ensures
        r@ == humanize_name(name@),
{
    let c = chars_of(name);
    let a = trim_start_matches_bounds(c.as_slice(), 0, c.len(), '"');
    let b = trim_end_matches_bounds(c.as_slice(), a, c.len(), '"');
    let t = crate::text::slice_chars(c.as_slice(), a, b);
    proof {
        assert(c@.subrange(0, c@.len() as int) =~= c@);
        assert(t@ =~= trim_matches(name@, '"'));
    }
    let n = t.as_slice();
    if is_lit(n, "NEWLINE") || is_lit(n, "Newline") {
        String::from_str("newline")
    } else if is_lit(n, "INDENT") || is_lit(n, "Indent") {
        String::from_str("indented block")
    } else if is_lit(n, "DEDENT") || is_lit(n, "Dedent") {
        String::from_str("end of block")
    } else if is_lit(n, "EOF") || is_lit(n, "Eof") {
        String::from_str("end of file")
    } else if is_lit(n, "NAME") || is_lit(n, "Name") {
        String::from_str("identifier")
    } else if is_lit(n, "INT") || is_lit(n, "Int") {
        String::from_str("integer")
    } else if is_lit(n, "FLOAT") || is_lit(n, "Float") {
        String::from_str("number")
    } else if is_lit(n, "STRING") || is_lit(n, "String") {
        String::from_str("string literal")
    } else if is_lit(n, "VARIABLE") || is_lit(n, "Variable") {
        String::from_str("variable (e.g., ?x)")
    } else if is_lit(n, "COLON") || is_lit(n, "Colon") || is_lit(n, ":") {
        String::from_str("':'")
    } else if is_lit(n, "COMMA") || is_lit(n, "Comma") || is_lit(n, ",") {
        String::from_str("','")
    } else if is_lit(n, "DOT") || is_lit(n, "Dot") || is_lit(n, ".") {
        String::from_str("'.'")
    } else if is_lit(n, "ARROW") || is_lit(n, "Arrow") || is_lit(n, "->") {
        String::from_str("'->'")
    } else if is_lit(n, "PIPE") || is_lit(n, "Pipe") || is_lit(n, "|") {
        String::from_str("'|'")
    } else if is_lit(n, "LBRACKET") || is_lit(n, "LBracket") || is_lit(n, "[") {
        String::from_str("'['")
    } else if is_lit(n, "RBRACKET") || is_lit(n, "RBracket") || is_lit(n, "]") {
        String::from_str("']'")
    } else if is_lit(n, "STAR") || is_lit(n, "Star") || is_lit(n, "*") {
        String::from_str("'*'")
    } else if is_lit(n, "namespace") || is_lit(n, "Namespace") {
        String::from_str("'namespace'")
    } else if is_lit(n, "import") || is_lit(n, "Import") {
        String::from_str("'import'")
    } else if is_lit(n, "ontology") || is_lit(n, "Ontology") {
        String::from_str("'ontology'")
    } else if is_lit(n, "concept") || is_lit(n, "Concept") {
        String::from_str("'concept'")
    } else if is_lit(n, "property") || is_lit(n, "Property") {
        String::from_str("'property'")
    } else if is_lit(n, "enum") || is_lit(n, "Enum") {
        String::from_str("'enum'")
    } else if is_lit(n, "rule") || is_lit(n, "Rule") {
        String::from_str("'rule'")
    } else if is_lit(n, "match") || is_lit(n, "Match") {
        String::from_str("'match'")
    } else if is_lit(n, "then") || is_lit(n, "Then") {
        String::from_str("'then'")
    } else if is_lit(n, "sub") || is_lit(n, "Sub") {
        String::from_str("'sub'")
    } else if is_lit(n, "has") || is_lit(n, "Has") {
        String::from_str("'has'")
    } else if is_lit(n, "is") || is_lit(n, "Is") {
        String::from_str("'is'")
    } else if is_lit(n, "as") || is_lit(n, "As") {
        String::from_str("'as'")
    } else {
        let mut out: Vec<char> = Vec::new();
        push_str(&mut out, "'");
        out.extend_from_slice(n);
        push_str(&mut out, "'");
        string_from_chars(out.as_slice())
    }
}

/// The readable list of expected token names: `nothing`, `a`, `a or b`, or
/// `a, b, or c` for three or more.
pub open spec fn humanize_expected_text(names: Seq<Seq<char>>) -> Seq<char> {
    let c = names.map_values(|n: Seq<char>| humanize_name(n));
    if c.len() == 0 {
        "nothing"@
    } else if c.len() == 1 {
        c[0]
    } else if c.len() == 2 {
        c[0] + " or "@ + c[1]
    } else {
        comma_list(c.drop_last()) + ", or "@ + c.last()
    }
}

/// Texts joined by `, `.
pub open spec fn comma_list(ts: Seq<Seq<char>>) -> Seq<char>
    decreases ts.len(),
{
    if ts.len() == 0 {
        seq![]
    } else if ts.len() == 1 {
        ts[0]
    } else {
        comma_list(ts.drop_last()) + ", "@ + ts.last()
    }
}

/// Format a list of expected tokens into a human-readable string.
pub fn humanize_expected(expected: &[String]) -> (r: String)
    ensures
        r@ == humanize_expected_text(texts_of(expected@)),
{
    let ghost c = texts_of(expected@).map_values(|n: Seq<char>| humanize_name(n));
    let mut cleaned: Vec<String> = Vec::new();
    let mut i: usize = 0;
    while i < expected.len()
        invariant
            0 <= i <= expected@.len(),
            c == texts_of(expected@).map_values(|n: Seq<char>| humanize_name(n)),
            cleaned@.len() == i,
            forall|k: int| 0 <= k < i ==> (#[trigger] cleaned@[k])@ == c[k],
        decreases expected@.len() - i,
    {
        cleaned.push(humanize_token_name(expected[i].as_str()));
        i = i + 1;
    }
    let n = cleaned.len();
    if n == 0 {
        String::from_str("nothing")
    } else if n == 1 {
        cleaned[0].clone()
    } else if n == 2 {
        concat3(cleaned[0].as_str(), " or ", cleaned[1].as_str())
    } else {
        let mut out: Vec<char> = Vec::new();
        let mut k: usize = 0;
        while k < n - 1
            invariant
                n == cleaned@.len() >= 3,
                c.len() == n,
                0 <= k <= n - 1,
                forall|j: int| 0 <= j < n ==> (#[trigger] cleaned@[j])@ == c[j],
                out@ == comma_list(c.subrange(0, k as int)),
            decreases n - 1 - k,
        {
            proof {
                assert(c.subrange(0, k + 1).drop_last() =~= c.subrange(0, k as int));
            }
            if k > 0 {
                push_str(&mut out, ", ");
            }
            push_str(&mut out, cleaned[k].as_str());
            proof {
                if k == 0 {
                    assert(out@ =~= c.subrange(0, 1)[0]);
                }
            }
            k = k + 1;
        }
        push_str(&mut out, ", or ");
        push_str(&mut out, cleaned[n - 1].as_str());
        proof {
            assert(c.subrange(0, n - 1) =~= c.drop_last());
        }
        string_from_chars(out.as_slice())
    }
}

/// `n` spaces.
pub open spec fn spaces(n: nat) -> Seq<char> {
    Seq::new(n, |_i: int| ' ')
}

/// `n` carets.
pub open spec fn carets(n: nat) -> Seq<char> {
    Seq::new(n, |_i: int| '^')
}

/// The larger of two numbers.
pub open spec fn max_nat(a: int, b: int) -> int {
    if a >= b {
        a
    } else {
        b
    }
}

/// `a - b`, or zero when `b > a`.
pub open spec fn sat_sub(a: int, b: int) -> int {
    if a >= b {
        a - b
    } else {
        0
    }
}

/// The source context of a span: a blank gutter line, the span's first line
/// with its number, and carets under the span (to the end of the line when
/// the span goes on to another line, at least one caret). `None` when the
/// line does not exist.
pub open spec fn source_context_text(source: Seq<char>, span: Span) -> Option<Seq<char>> {
    let ls = lines(source);
    if span.start.line == 0 || span.start.line - 1 >= ls.len() {
        None
    } else {
        let line = ls[span.start.line - 1];
        let num = nat_text(span.start.line as nat);
        let w = num.len();
        let col_start = sat_sub(span.start.column as int, 1);
        let col_end = if span.start.line == span.end.line {
            max_nat(sat_sub(span.end.column as int, 1), col_start + 1)
        } else {
            if byte_len(line) <= usize::MAX {
                byte_len(line) as int
            } else {
                usize::MAX as int
            }
        };
        let len = max_nat(sat_sub(col_end, col_start), 1);
        Some(
            spaces(w) + " |\n"@ + num + " | "@ + line + "\n"@ + spaces(w) + " | "@ + spaces(
                col_start as nat,
            ) + carets(len as nat),
        )
    }
}

/// Render source context with underline markers for a given span.
pub fn format_source_context(source: &str, span: &Span) -> (r: Option<String>)
    ensures
        r matches Some(t) ==> source_context_text(source@, *span) == Some(t@),
        r is None ==> source_context_text(source@, *span) is None,
{
    if span.start.line == 0 {
        return None;
    }
    let line_idx = span.start.line - 1;
    let src = chars_of(source);
    let line = match nth_line(src.as_slice(), line_idx) {
        Some(l) => l,
        None => {
            return None;
        },
    };
    let num = nat_to_chars(span.start.line as u64);
    let w = num.len();
    let col_start = if span.start.column >= 1 {
        span.start.column - 1
    } else {
        0
    };
    let col_end = if span.start.line == span.end.line {
        let e = if span.end.column >= 1 {
            span.end.column - 1
        } else {
            0
        };
        if e >= col_start + 1 {
            e
        } else {
            col_start + 1
        }
    } else {
        match byte_len_exec(line.as_slice(), 0, line.len()) {
            Some(b) => b,
            None => usize::MAX,
        }
    };
    let d = if col_end >= col_start {
        col_end - col_start
    } else {
        0
    };
    let len = if d >= 1 {
        d
    } else {
        1
    };
    let ghost o0: Seq<char> = seq![];
    let mut out: Vec<char> = Vec::new();
    push_repeat(&mut out, ' ', w);
    push_str(&mut out, " |\n");
    let mut n2 = num;
    out.append(&mut n2);
    push_str(&mut out, " | ");
    let mut l2 = line;
    out.append(&mut l2);
    push_str(&mut out, "\n");
    push_repeat(&mut out, ' ', w);
    push_str(&mut out, " | ");
    push_repeat(&mut out, ' ', col_start);
    push_repeat(&mut out, '^', len);
    proof {
        assert(line@.subrange(0, line@.len() as int) =~= line@);
        let sp = spaces(w as nat);
        assert(Seq::new(w as nat, |_i: int| ' ') =~= sp);
        assert(Seq::new(col_start as nat, |_i: int| ' ') =~= spaces(col_start as nat));
        assert(Seq::new(len as nat, |_i: int| '^') =~= carets(len as nat));
        assert(source_context_text(source@, *span) == Some(out@));
    }
    Some(string_from_chars(out.as_slice()))
}

/// The texts of the secondary labels of a diagnostic, against a source text.
pub open spec fn labels_text(labels: Seq<DiagnosticLabel>, source: Seq<char>) -> Seq<char>
    decreases labels.len(),
{
    if labels.len() == 0 {
        seq![]
    } else {
        let l = labels.last();
        labels_text(labels.drop_last(), source) + "\n  --> "@ + loc_text(l.span.start) + (
        match source_context_text(source, l.span) {
            Some(c) => "\n"@ + c,
            None => Seq::<char>::empty(),
        }) + "\n  = "@ + l.message@
    }
}

/// How a diagnostic is displayed: `severity[code]: message`; the file and
/// location of its span (the file `<input>` when none is given); the source
/// context of its span and its labels when the source is given; its help.
pub open spec fn diagnostic_text(d: Diagnostic, source: Option<Seq<char>>, filename: Option<Seq<char>>) -> Seq<char> {
    let head = d.severity.spec_text() + "["@ + d.code.spec_code() + "]: "@ + d.message@;
    let file = match filename {
        Some(f) => f,
        None => "<input>"@,
    };
    let loc = match d.span {
        Some(s) => "\n  --> "@ + file + ":"@ + loc_text(s.start),
        None => Seq::<char>::empty(),
    };
    let ctx = match (source, d.span) {
        (Some(src), Some(s)) => match source_context_text(src, s) {
            Some(c) => "\n"@ + c,
            None => Seq::<char>::empty(),
        },
        _ => Seq::<char>::empty(),
    };
    let labels = match source {
        Some(src) => labels_text(d.labels@, src),
        None => Seq::<char>::empty(),
    };
    let help = match d.help {
        Some(h) => "\n  = help: "@ + h@,
        None => Seq::<char>::empty(),
    };
    head + loc + ctx + labels + help
}

/// Format a diagnostic for display with optional source context.
#[verifier::rlimit(40)]
pub fn format_diagnostic(diag: &Diagnostic, source: Option<&str>, filename: Option<&str>) -> (r: String)
    ensures
        r@ == diagnostic_text(
            *diag,
            match source {
                Some(s) => Some(s@),
                None => None,
            },
            match filename {
                Some(f) => Some(f@),
                None => None,
            },
        ),
{
    let ghost src = match source {
        Some(s) => Some(s@),
        None => None,
    };
    let ghost file = match filename {
        Some(f) => Some(f@),
        None => None,
    };
    let mut out: Vec<char> = Vec::new();
    push_str(&mut out, diag.severity.text());
    push_str(&mut out, "[");
    let c = diag.code.code();
    push_str(&mut out, c.as_str());
    push_str(&mut out, "]: ");
    push_str(&mut out, diag.message.as_str());
    let ghost head = out@;
    match &diag.span {
        Some(span) => {
            push_str(&mut out, "\n  --> ");
            match filename {
                Some(f) => push_str(&mut out, f),
                None => push_str(&mut out, "<input>"),
            }
            push_str(&mut out, ":");
            push_loc(&mut out, &span.start);
        },
        None => {},
    }
    let ghost with_loc = out@;
    match (source, &diag.span) {
        (Some(s), Some(span)) => match format_source_context(s, span) {
            Some(context) => {
                push_str(&mut out, "\n");
                push_str(&mut out, context.as_str());
            },
            None => {},
        },
        _ => {},
    }
    let ghost with_ctx = out@;
    match source {
        Some(s) => {
            let mut i: usize = 0;
            while i < diag.labels.len()
                invariant
                    0 <= i <= diag.labels@.len(),
                    out@ == with_ctx + labels_text(diag.labels@.subrange(0, i as int), s@),
                decreases diag.labels@.len() - i,
            {
                proof {
                    assert(diag.labels@.subrange(0, i + 1).drop_last() =~= diag.labels@.subrange(0, i as int));
                }
                let label = &diag.labels[i];
                let ghost before = out@;
                push_str(&mut out, "\n  --> ");
                push_loc(&mut out, &label.span.start);
                match format_source_context(s, &label.span) {
                    Some(context) => {
                        push_str(&mut out, "\n");
                        push_str(&mut out, context.as_str());
                    },
                    None => {},
                }
                push_str(&mut out, "\n  = ");
                push_str(&mut out, label.message.as_str());
                proof {
                    assert(out@ =~= with_ctx + labels_text(diag.labels@.subrange(0, i + 1), s@));
                }
                i = i + 1;
            }
            proof {
                assert(diag.labels@.subrange(0, diag.labels@.len() as int) =~= diag.labels@);
            }
        },
        None => {},
    }
    let ghost with_labels = out@;
    match &diag.help {
        Some(h) => {
            push_str(&mut out, "\n  = help: ");
            push_str(&mut out, h.as_str());
        },
        None => {},
    }
    proof {
        assert(out@ =~= diagnostic_text(*diag, src, file));
    }
    string_from_chars(out.as_slice())
}

} // verus!
