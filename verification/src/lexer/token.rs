//! Token types of the Dolfin lexer.

use vstd::prelude::*;

use crate::ast::TemporalKind;
use crate::text::{chars_of, i64_text, i64_to_chars, string_from_chars};

verus! {

/// The kind of a raw token, without its payload.
#[derive(Debug, Clone, Copy, PartialEq, Eq, Structural)]
pub enum RawKind {
    Package,
    OneOf,
    Prefix,
    As,
    IriName,
    Concept,
    Property,
    Rule,
    Match,
    Then,
    Sub,
    Has,
    Key,
    Is,
    Fact,
    Query,
    Return,
    Either,
    Or,
    GroupBy,
    IsInverse,
    InverseOf,
    EquivalentTo,
    Transitive,
    Symmetric,
    Reflexive,
    Unit,
    Family,
    Nominal,
    Scale,
    All,
    NoneKw,
    AtLeast,
    AtMost,
    Exactly,
    Of,
    One,
    Any,
    SomeKw,
    Optional,
    TString,
    TInt,
    TFloat,
    TBoolean,
    TDate,
    TDateTime,
    TTime,
    TDuration,
    True,
    False,
    Float,
    Int,
    TemporalLit,
    QuantityLit,
    LocaleDirective,
    TimezoneDirective,
    String,
    Iri,
    Variable,
    PrefixedName,
    Name,
    Arrow,
    DoubleDot,
    NotEqual,
    LessEqual,
    GreaterEqual,
    Colon,
    Comma,
    Dot,
    Star,
    Pipe,
    LBracket,
    RBracket,
    Equal,
    LessThan,
    GreaterThan,
    DoubleCaret,
    Hat,
    Plus,
    Minus,
    Slash,
    LParen,
    RParen,
    Newline,
    Comment,
}

/// Raw token, as matched by the token rules (before indentation handling).
#[derive(Debug, Clone, PartialEq)]
pub enum RawToken {
    Package,
    OneOf,
    Prefix,
    As,
    IriName,
    Concept,
    Property,
    Rule,
    Match,
    Then,
    Sub,
    Has,
    Key,
    Is,
    Fact,
    Query,
    Return,
    Either,
    Or,
    GroupBy,
    IsInverse,
    InverseOf,
    EquivalentTo,
    Transitive,
    Symmetric,
    Reflexive,
    Unit,
    Family,
    Nominal,
    Scale,
    All,
    NoneKw,
    AtLeast,
    AtMost,
    Exactly,
    Of,
    One,
    Any,
    SomeKw,
    Optional,
    TString,
    TInt,
    TFloat,
    TBoolean,
    TDate,
    TDateTime,
    TTime,
    TDuration,
    True,
    False,
    Float(String),
    Int(i64),
    TemporalLit(TemporalKind, String),
    QuantityLit(String),
    LocaleDirective(String),
    TimezoneDirective(String),
    String(String),
    Iri(String),
    Variable(String),
    PrefixedName(String, String),
    Name(String),
    Arrow,
    DoubleDot,
    NotEqual,
    LessEqual,
    GreaterEqual,
    Colon,
    Comma,
    Dot,
    Star,
    Pipe,
    LBracket,
    RBracket,
    Equal,
    LessThan,
    GreaterThan,
    DoubleCaret,
    Hat,
    Plus,
    Minus,
    Slash,
    LParen,
    RParen,
    Newline(String),
    Comment,
}

impl RawToken {
    /// The kind of this raw token.
    pub open spec fn kind(self) -> RawKind {
        match self {
            RawToken::Package => RawKind::Package,
            RawToken::OneOf => RawKind::OneOf,
            RawToken::Prefix => RawKind::Prefix,
            RawToken::As => RawKind::As,
            RawToken::IriName => RawKind::IriName,
            RawToken::Concept => RawKind::Concept,
            RawToken::Property => RawKind::Property,
            RawToken::Rule => RawKind::Rule,
            RawToken::Match => RawKind::Match,
            RawToken::Then => RawKind::Then,
            RawToken::Sub => RawKind::Sub,
            RawToken::Has => RawKind::Has,
            RawToken::Key => RawKind::Key,
            RawToken::Is => RawKind::Is,
            RawToken::Fact => RawKind::Fact,
            RawToken::Query => RawKind::Query,
            RawToken::Return => RawKind::Return,
            RawToken::Either => RawKind::Either,
            RawToken::Or => RawKind::Or,
            RawToken::GroupBy => RawKind::GroupBy,
            RawToken::IsInverse => RawKind::IsInverse,
            RawToken::InverseOf => RawKind::InverseOf,
            RawToken::EquivalentTo => RawKind::EquivalentTo,
            RawToken::Transitive => RawKind::Transitive,
            RawToken::Symmetric => RawKind::Symmetric,
            RawToken::Reflexive => RawKind::Reflexive,
            RawToken::Unit => RawKind::Unit,
            RawToken::Family => RawKind::Family,
            RawToken::Nominal => RawKind::Nominal,
            RawToken::Scale => RawKind::Scale,
            RawToken::All => RawKind::All,
            RawToken::NoneKw => RawKind::NoneKw,
            RawToken::AtLeast => RawKind::AtLeast,
            RawToken::AtMost => RawKind::AtMost,
            RawToken::Exactly => RawKind::Exactly,
            RawToken::Of => RawKind::Of,
            RawToken::One => RawKind::One,
            RawToken::Any => RawKind::Any,
            RawToken::SomeKw => RawKind::SomeKw,
            RawToken::Optional => RawKind::Optional,
            RawToken::TString => RawKind::TString,
            RawToken::TInt => RawKind::TInt,
            RawToken::TFloat => RawKind::TFloat,
            RawToken::TBoolean => RawKind::TBoolean,
            RawToken::TDate => RawKind::TDate,
            RawToken::TDateTime => RawKind::TDateTime,
            RawToken::TTime => RawKind::TTime,
            RawToken::TDuration => RawKind::TDuration,
            RawToken::True => RawKind::True,
            RawToken::False => RawKind::False,
            RawToken::Float(..) => RawKind::Float,
            RawToken::Int(..) => RawKind::Int,
            RawToken::TemporalLit(..) => RawKind::TemporalLit,
            RawToken::QuantityLit(..) => RawKind::QuantityLit,
            RawToken::LocaleDirective(..) => RawKind::LocaleDirective,
            RawToken::TimezoneDirective(..) => RawKind::TimezoneDirective,
            RawToken::String(..) => RawKind::String,
            RawToken::Iri(..) => RawKind::Iri,
            RawToken::Variable(..) => RawKind::Variable,
            RawToken::PrefixedName(..) => RawKind::PrefixedName,
            RawToken::Name(..) => RawKind::Name,
            RawToken::Arrow => RawKind::Arrow,
            RawToken::DoubleDot => RawKind::DoubleDot,
            RawToken::NotEqual => RawKind::NotEqual,
            RawToken::LessEqual => RawKind::LessEqual,
            RawToken::GreaterEqual => RawKind::GreaterEqual,
            RawToken::Colon => RawKind::Colon,
            RawToken::Comma => RawKind::Comma,
            RawToken::Dot => RawKind::Dot,
            RawToken::Star => RawKind::Star,
            RawToken::Pipe => RawKind::Pipe,
            RawToken::LBracket => RawKind::LBracket,
            RawToken::RBracket => RawKind::RBracket,
            RawToken::Equal => RawKind::Equal,
            RawToken::LessThan => RawKind::LessThan,
            RawToken::GreaterThan => RawKind::GreaterThan,
            RawToken::DoubleCaret => RawKind::DoubleCaret,
            RawToken::Hat => RawKind::Hat,
            RawToken::Plus => RawKind::Plus,
            RawToken::Minus => RawKind::Minus,
            RawToken::Slash => RawKind::Slash,
            RawToken::LParen => RawKind::LParen,
            RawToken::RParen => RawKind::RParen,
            RawToken::Newline(..) => RawKind::Newline,
            RawToken::Comment => RawKind::Comment,
        }
    }
}

/// Token types for the Dolfin language.
///
/// A floating-point literal is carried as the decimal text it was written with
/// (digit separators `_` removed); converting it to a binary float is left to the caller.
#[derive(Debug, Clone, PartialEq)]
pub enum Token {
    Package,
    Prefix,
    IriName,
    As,
    Concept,
    Property,
    OneOf,
    Rule,
    Match,
    Then,
    Sub,
    Has,
    Key,
    Is,
    Fact,
    Query,
    Return,
    Either,
    Or,
    GroupBy,
    IsInverse,
    InverseOf,
    EquivalentTo,
    Transitive,
    Symmetric,
    Reflexive,
    Unit,
    Family,
    Nominal,
    Scale,
    All,
    NoneKw,
    AtLeast,
    AtMost,
    Exactly,
    Between,
    Of,
    One,
    Any,
    SomeKw,
    Optional,
    TString,
    TInt,
    TFloat,
    TBoolean,
    TDate,
    TDateTime,
    TTime,
    TDuration,
    Int(i64),
    Float(String),
    String(String),
    Boolean(bool),
    Iri(String),
    TemporalLit(TemporalKind, String),
    QuantityLit(String),
    LocaleDirective(String),
    TimezoneDirective(String),
    PrefixedName(String, String),
    Name(String),
    Variable(String),
    Colon,
    Comma,
    Dot,
    Arrow,
    DoubleDot,
    Star,
    Pipe,
    DoubleCaret,
    Hat,
    LBracket,
    RBracket,
    Plus,
    Minus,
    Slash,
    LParen,
    RParen,
    Equal,
    NotEqual,
    LessThan,
    LessEqual,
    GreaterThan,
    GreaterEqual,
    Indent,
    Dedent,
    Newline,
    Eof,
}

/// The token that a raw token stands for.
pub open spec fn raw_to_token(raw: RawToken) -> Token {
    match raw {
        RawToken::Package => Token::Package,
        RawToken::OneOf => Token::OneOf,
        RawToken::Prefix => Token::Prefix,
        RawToken::As => Token::As,
        RawToken::IriName => Token::IriName,
        RawToken::Concept => Token::Concept,
        RawToken::Property => Token::Property,
        RawToken::Rule => Token::Rule,
        RawToken::Match => Token::Match,
        RawToken::Then => Token::Then,
        RawToken::Sub => Token::Sub,
        RawToken::Has => Token::Has,
        RawToken::Key => Token::Key,
        RawToken::Is => Token::Is,
        RawToken::Fact => Token::Fact,
        RawToken::Query => Token::Query,
        RawToken::Return => Token::Return,
        RawToken::Either => Token::Either,
        RawToken::Or => Token::Or,
        RawToken::GroupBy => Token::GroupBy,
        RawToken::IsInverse => Token::IsInverse,
        RawToken::InverseOf => Token::InverseOf,
        RawToken::EquivalentTo => Token::EquivalentTo,
        RawToken::Transitive => Token::Transitive,
        RawToken::Symmetric => Token::Symmetric,
        RawToken::Reflexive => Token::Reflexive,
        RawToken::Unit => Token::Unit,
        RawToken::Family => Token::Family,
        RawToken::Nominal => Token::Nominal,
        RawToken::Scale => Token::Scale,
        RawToken::All => Token::All,
        RawToken::NoneKw => Token::NoneKw,
        RawToken::AtLeast => Token::AtLeast,
        RawToken::AtMost => Token::AtMost,
        RawToken::Exactly => Token::Exactly,
        RawToken::Of => Token::Of,
        RawToken::One => Token::One,
        RawToken::Any => Token::Any,
        RawToken::SomeKw => Token::SomeKw,
        RawToken::Optional => Token::Optional,
        RawToken::TString => Token::TString,
        RawToken::TInt => Token::TInt,
        RawToken::TFloat => Token::TFloat,
        RawToken::TBoolean => Token::TBoolean,
        RawToken::TDate => Token::TDate,
        RawToken::TDateTime => Token::TDateTime,
        RawToken::TTime => Token::TTime,
        RawToken::TDuration => Token::TDuration,
        RawToken::True => Token::Boolean(true),
        RawToken::False => Token::Boolean(false),
        RawToken::Float(x) => Token::Float(x),
        RawToken::Int(x) => Token::Int(x),
        RawToken::TemporalLit(k, c) => Token::TemporalLit(k, c),
        RawToken::QuantityLit(x) => Token::QuantityLit(x),
        RawToken::LocaleDirective(x) => Token::LocaleDirective(x),
        RawToken::TimezoneDirective(x) => Token::TimezoneDirective(x),
        RawToken::String(x) => Token::String(x),
        RawToken::Iri(x) => Token::Iri(x),
        RawToken::Variable(x) => Token::Variable(x),
        RawToken::PrefixedName(p, l) => Token::PrefixedName(p, l),
        RawToken::Name(x) => Token::Name(x),
        RawToken::Arrow => Token::Arrow,
        RawToken::DoubleDot => Token::DoubleDot,
        RawToken::NotEqual => Token::NotEqual,
        RawToken::LessEqual => Token::LessEqual,
        RawToken::GreaterEqual => Token::GreaterEqual,
        RawToken::Colon => Token::Colon,
        RawToken::Comma => Token::Comma,
        RawToken::Dot => Token::Dot,
        RawToken::Star => Token::Star,
        RawToken::Pipe => Token::Pipe,
        RawToken::LBracket => Token::LBracket,
        RawToken::RBracket => Token::RBracket,
        RawToken::Equal => Token::Equal,
        RawToken::LessThan => Token::LessThan,
        RawToken::GreaterThan => Token::GreaterThan,
        RawToken::DoubleCaret => Token::DoubleCaret,
        RawToken::Hat => Token::Hat,
        RawToken::Plus => Token::Plus,
        RawToken::Minus => Token::Minus,
        RawToken::Slash => Token::Slash,
        RawToken::LParen => Token::LParen,
        RawToken::RParen => Token::RParen,
        RawToken::Newline(_) => Token::Newline,
        RawToken::Comment => Token::Eof,
    }
}

/// Convert a raw token (other than a comment) into a token.
pub fn convert_raw_token(raw: RawToken) -> (r: Token)
    requires
        !(raw is Comment),
    ensures
        r == raw_to_token(raw),
{
    match raw {
        RawToken::Package => Token::Package,
        RawToken::OneOf => Token::OneOf,
        RawToken::Prefix => Token::Prefix,
        RawToken::As => Token::As,
        RawToken::IriName => Token::IriName,
        RawToken::Concept => Token::Concept,
        RawToken::Property => Token::Property,
        RawToken::Rule => Token::Rule,
        RawToken::Match => Token::Match,
        RawToken::Then => Token::Then,
        RawToken::Sub => Token::Sub,
        RawToken::Has => Token::Has,
        RawToken::Key => Token::Key,
        RawToken::Is => Token::Is,
        RawToken::Fact => Token::Fact,
        RawToken::Query => Token::Query,
        RawToken::Return => Token::Return,
        RawToken::Either => Token::Either,
        RawToken::Or => Token::Or,
        RawToken::GroupBy => Token::GroupBy,
        RawToken::IsInverse => Token::IsInverse,
        RawToken::InverseOf => Token::InverseOf,
        RawToken::EquivalentTo => Token::EquivalentTo,
        RawToken::Transitive => Token::Transitive,
        RawToken::Symmetric => Token::Symmetric,
        RawToken::Reflexive => Token::Reflexive,
        RawToken::Unit => Token::Unit,
        RawToken::Family => Token::Family,
        RawToken::Nominal => Token::Nominal,
        RawToken::Scale => Token::Scale,
        RawToken::All => Token::All,
        RawToken::NoneKw => Token::NoneKw,
        RawToken::AtLeast => Token::AtLeast,
        RawToken::AtMost => Token::AtMost,
        RawToken::Exactly => Token::Exactly,
        RawToken::Of => Token::Of,
        RawToken::One => Token::One,
        RawToken::Any => Token::Any,
        RawToken::SomeKw => Token::SomeKw,
        RawToken::Optional => Token::Optional,
        RawToken::TString => Token::TString,
        RawToken::TInt => Token::TInt,
        RawToken::TFloat => Token::TFloat,
        RawToken::TBoolean => Token::TBoolean,
        RawToken::TDate => Token::TDate,
        RawToken::TDateTime => Token::TDateTime,
        RawToken::TTime => Token::TTime,
        RawToken::TDuration => Token::TDuration,
        RawToken::True => Token::Boolean(true),
        RawToken::False => Token::Boolean(false),
        RawToken::Float(x) => Token::Float(x),
        RawToken::Int(x) => Token::Int(x),
        RawToken::TemporalLit(k, c) => Token::TemporalLit(k, c),
        RawToken::QuantityLit(x) => Token::QuantityLit(x),
        RawToken::LocaleDirective(x) => Token::LocaleDirective(x),
        RawToken::TimezoneDirective(x) => Token::TimezoneDirective(x),
        RawToken::String(x) => Token::String(x),
        RawToken::Iri(x) => Token::Iri(x),
        RawToken::Variable(x) => Token::Variable(x),
        RawToken::PrefixedName(p, l) => Token::PrefixedName(p, l),
        RawToken::Name(x) => Token::Name(x),
        RawToken::Arrow => Token::Arrow,
        RawToken::DoubleDot => Token::DoubleDot,
        RawToken::NotEqual => Token::NotEqual,
        RawToken::LessEqual => Token::LessEqual,
        RawToken::GreaterEqual => Token::GreaterEqual,
        RawToken::Colon => Token::Colon,
        RawToken::Comma => Token::Comma,
        RawToken::Dot => Token::Dot,
        RawToken::Star => Token::Star,
        RawToken::Pipe => Token::Pipe,
        RawToken::LBracket => Token::LBracket,
        RawToken::RBracket => Token::RBracket,
        RawToken::Equal => Token::Equal,
        RawToken::LessThan => Token::LessThan,
        RawToken::GreaterThan => Token::GreaterThan,
        RawToken::DoubleCaret => Token::DoubleCaret,
        RawToken::Hat => Token::Hat,
        RawToken::Plus => Token::Plus,
        RawToken::Minus => Token::Minus,
        RawToken::Slash => Token::Slash,
        RawToken::LParen => Token::LParen,
        RawToken::RParen => Token::RParen,
        RawToken::Newline(_) => Token::Newline,
        RawToken::Comment => Token::Eof,
    }
}

impl Token {
    /// Indentation and line-structure tokens.
    pub open spec fn is_layout(self) -> bool {
        self is Newline || self is Indent || self is Dedent
    }

    /// Exec test for [`Token::is_layout`].
    pub fn layout(&self) -> (r: bool)
        ensures
            r == self.is_layout(),
    {
        match self {
            Token::Newline | Token::Indent | Token::Dedent => true,
            _ => false,
        }
    }

    /// The text of a token whose text does not depend on a payload.
    pub open spec fn fixed_text(self) -> Option<Seq<char>> {
        match self {
            Token::Package => Some("package"@),
            Token::Prefix => Some("prefix"@),
            Token::IriName => Some("@iri_name"@),
            Token::As => Some("as"@),
            Token::Concept => Some("concept"@),
            Token::Property => Some("property"@),
            Token::OneOf => Some("one of"@),
            Token::Rule => Some("rule"@),
            Token::Match => Some("match"@),
            Token::Then => Some("then"@),
            Token::Sub => Some("sub"@),
            Token::Has => Some("has"@),
            Token::Key => Some("key"@),
            Token::Is => Some("a"@),
            Token::Fact => Some("fact"@),
            Token::Query => Some("query"@),
            Token::Return => Some("return"@),
            Token::Either => Some("either"@),
            Token::Or => Some("or"@),
            Token::GroupBy => Some("group by"@),
            Token::IsInverse => Some("is"@),
            Token::InverseOf => Some("inverse of"@),
            Token::EquivalentTo => Some("equivalent to"@),
            Token::Transitive => Some("transitive"@),
            Token::Symmetric => Some("symmetric"@),
            Token::Reflexive => Some("reflexive"@),
            Token::Unit => Some("unitdef"@),
            Token::Family => Some("family"@),
            Token::Nominal => Some("nominal"@),
            Token::Scale => Some("scale"@),
            Token::All => Some("all"@),
            Token::NoneKw => Some("none"@),
            Token::AtLeast => Some("at least"@),
            Token::AtMost => Some("at most"@),
            Token::Exactly => Some("exactly"@),
            Token::Between => Some("between"@),
            Token::Of => Some("of"@),
            Token::One => Some("one"@),
            Token::Any => Some("any"@),
            Token::SomeKw => Some("some"@),
            Token::Optional => Some("optional"@),
            Token::TString => Some("string"@),
            Token::TInt => Some("int"@),
            Token::TFloat => Some("float"@),
            Token::TBoolean => Some("boolean"@),
            Token::TDate => Some("date"@),
            Token::TDateTime => Some("date_time"@),
            Token::TTime => Some("time"@),
            Token::TDuration => Some("duration"@),
            Token::Colon => Some(":"@),
            Token::Comma => Some(","@),
            Token::Dot => Some("."@),
            Token::Arrow => Some("->"@),
            Token::DoubleDot => Some(".."@),
            Token::Star => Some("*"@),
            Token::Pipe => Some("|"@),
            Token::DoubleCaret => Some("^^"@),
            Token::Hat => Some("^"@),
            Token::LBracket => Some("["@),
            Token::RBracket => Some("]"@),
            Token::Plus => Some("+"@),
            Token::Minus => Some("-"@),
            Token::Slash => Some("/"@),
            Token::LParen => Some("("@),
            Token::RParen => Some(")"@),
            Token::Equal => Some("="@),
            Token::NotEqual => Some("!="@),
            Token::LessThan => Some("<"@),
            Token::LessEqual => Some("<="@),
            Token::GreaterThan => Some(">"@),
            Token::GreaterEqual => Some(">="@),
            Token::Indent => Some("INDENT"@),
            Token::Dedent => Some("DEDENT"@),
            Token::Newline => Some("NEWLINE"@),
            Token::Eof => Some("EOF"@),
            _ => None,
        }
    }

    /// Exec version of [`Token::fixed_text`].
    pub fn fixed_text_str(&self) -> (r: Option<&'static str>)
        ensures
            r matches Some(t) ==> self.fixed_text() == Some(t@),
            r is None ==> self.fixed_text() is None,
    {
        match self {
            Token::Package => Some("package"),
            Token::Prefix => Some("prefix"),
            Token::IriName => Some("@iri_name"),
            Token::As => Some("as"),
            Token::Concept => Some("concept"),
            Token::Property => Some("property"),
            Token::OneOf => Some("one of"),
            Token::Rule => Some("rule"),
            Token::Match => Some("match"),
            Token::Then => Some("then"),
            Token::Sub => Some("sub"),
            Token::Has => Some("has"),
            Token::Key => Some("key"),
            Token::Is => Some("a"),
            Token::Fact => Some("fact"),
            Token::Query => Some("query"),
            Token::Return => Some("return"),
            Token::Either => Some("either"),
            Token::Or => Some("or"),
            Token::GroupBy => Some("group by"),
            Token::IsInverse => Some("is"),
            Token::InverseOf => Some("inverse of"),
            Token::EquivalentTo => Some("equivalent to"),
            Token::Transitive => Some("transitive"),
            Token::Symmetric => Some("symmetric"),
            Token::Reflexive => Some("reflexive"),
            Token::Unit => Some("unitdef"),
            Token::Family => Some("family"),
            Token::Nominal => Some("nominal"),
            Token::Scale => Some("scale"),
            Token::All => Some("all"),
            Token::NoneKw => Some("none"),
            Token::AtLeast => Some("at least"),
            Token::AtMost => Some("at most"),
            Token::Exactly => Some("exactly"),
            Token::Between => Some("between"),
            Token::Of => Some("of"),
            Token::One => Some("one"),
            Token::Any => Some("any"),
            Token::SomeKw => Some("some"),
            Token::Optional => Some("optional"),
            Token::TString => Some("string"),
            Token::TInt => Some("int"),
            Token::TFloat => Some("float"),
            Token::TBoolean => Some("boolean"),
            Token::TDate => Some("date"),
            Token::TDateTime => Some("date_time"),
            Token::TTime => Some("time"),
            Token::TDuration => Some("duration"),
            Token::Colon => Some(":"),
            Token::Comma => Some(","),
            Token::Dot => Some("."),
            Token::Arrow => Some("->"),
            Token::DoubleDot => Some(".."),
            Token::Star => Some("*"),
            Token::Pipe => Some("|"),
            Token::DoubleCaret => Some("^^"),
            Token::Hat => Some("^"),
            Token::LBracket => Some("["),
            Token::RBracket => Some("]"),
            Token::Plus => Some("+"),
            Token::Minus => Some("-"),
            Token::Slash => Some("/"),
            Token::LParen => Some("("),
            Token::RParen => Some(")"),
            Token::Equal => Some("="),
            Token::NotEqual => Some("!="),
            Token::LessThan => Some("<"),
            Token::LessEqual => Some("<="),
            Token::GreaterThan => Some(">"),
            Token::GreaterEqual => Some(">="),
            Token::Indent => Some("INDENT"),
            Token::Dedent => Some("DEDENT"),
            Token::Newline => Some("NEWLINE"),
            Token::Eof => Some("EOF"),
            _ => None,
        }
    }

    /// How the token is displayed (the keyword or punctuation it stands for,
    /// or its literal value); a float shows the decimal text it was written with.
    pub open spec fn spec_text(self) -> Seq<char> {
        match self {
            Token::Int(n) => i64_text(n),
            Token::Float(s) => s@,
            Token::String(s) => "\""@ + s@ + "\""@,
            Token::Boolean(b) => if b { "true"@ } else { "false"@ },
            Token::Iri(s) => "<"@ + s@ + ">"@,
            Token::TemporalLit(k, c) => k.spec_keyword() + "("@ + c@ + ")"@,
            Token::QuantityLit(c) => "quantity("@ + c@ + ")"@,
            Token::LocaleDirective(a) => "@locale "@ + a@,
            Token::TimezoneDirective(a) => "@timezone "@ + a@,
            Token::PrefixedName(p, l) => p@ + ":"@ + l@,
            Token::Name(s) => s@,
            Token::Variable(s) => s@,
            _ => self.fixed_text().unwrap(),
        }
    }

    /// The displayed text of the token.
    pub fn text(&self) -> (r: String)
        ensures
            r@ == self.spec_text(),
    {
        match self {
            Token::Int(n) => string_from_chars(i64_to_chars(*n).as_slice()),
            Token::Float(s) => s.clone(),
            Token::String(s) => concat3("\"", s.as_str(), "\""),
            Token::Boolean(b) => if *b {
                String::from_str("true")
            } else {
                String::from_str("false")
            },
            Token::Iri(s) => concat3("<", s.as_str(), ">"),
            Token::TemporalLit(k, c) => {
                let a = concat3(k.keyword(), "(", c.as_str());
                concat2(a.as_str(), ")")
            },
            Token::QuantityLit(c) => concat3("quantity(", c.as_str(), ")"),
            Token::LocaleDirective(a) => concat2("@locale ", a.as_str()),
            Token::TimezoneDirective(a) => concat2("@timezone ", a.as_str()),
            Token::PrefixedName(p, l) => concat3(p.as_str(), ":", l.as_str()),
            Token::Name(s) => s.clone(),
            Token::Variable(s) => s.clone(),
            _ => {
                let t = self.fixed_text_str();
                String::from_str(t.unwrap())
            },
        }
    }
}

/// The concatenation of two strings.
pub fn concat2(a: &str, b: &str) -> (r: String)
    ensures
        r@ == a@ + b@,
{
    let mut x = chars_of(a);
    let mut y = chars_of(b);
    x.append(&mut y);
    string_from_chars(x.as_slice())
}

/// The concatenation of three strings.
pub fn concat3(a: &str, b: &str, c: &str) -> (r: String)
    ensures
        r@ == a@ + b@ + c@,
{
    let mut x = chars_of(a);
    let mut y = chars_of(b);
    let mut z = chars_of(c);
    x.append(&mut y);
    x.append(&mut z);
    string_from_chars(x.as_slice())
}

} // verus!
