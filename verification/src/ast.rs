//! Abstract Syntax Tree definitions for the Dolfin language.

use vstd::prelude::*;

use crate::error::{Span, SpannedString};
use crate::lexer::token::{concat2, concat3};
use crate::text::{chars_of, i64_text, i64_to_chars, nat_text, str_eq, string_from_chars, usize_to_string};

verus! {

/// A qualified (dot-separated) name in Dolfin.
#[derive(Debug, Clone, PartialEq, Eq, Hash, Default)]
pub struct QualifiedName {
    /// The individual components of the qualified name (e.g., ["com", "example", "Person"])
    pub parts: Vec<String>,
    /// True when parsed from `alias:Local` syntax (PREFIXED_NAME token), false for dot-separated.
    /// This distinguishes `ex:Animal` (prefix alias expansion) from `ex.Animal` (namespace path).
    pub is_prefixed: bool,
    /// Source code span for this declaration
    pub span: Option<Span>,
}

/// Value of an `@iri_name` annotation — distinguishes how to resolve the name.
#[derive(Debug, Clone, PartialEq)]
pub enum IriNameValue {
    /// Absolute IRI from `<...>` syntax — used verbatim, not appended to base IRI
    AbsoluteUri(String),
    /// Local segment from `"..."` syntax — appended to the namespace base path
    LocalSegment(String),
}

/// An ontology file (new top-level structure)
#[derive(Debug, PartialEq)]
pub struct OntologyFile {
    /// Optional IRI name override from @iri_name annotation
    pub iri_name: Option<IriNameValue>,
    /// Prefix declarations
    pub prefixes: Vec<PrefixDecl>,
    /// Declarations (concepts, properties, enums, rules)
    pub declarations: Vec<Declaration>,
    /// Raw `@locale <arg>` directive argument (e.g. `"d/m/y"`), if present.
    pub locale: Option<String>,
    /// Raw `@timezone <arg>` directive argument (e.g. `"Europe/Brussels"`).
    pub timezone: Option<String>,
    pub span: Option<Span>,
}

/// Package manifest file
#[derive(Debug, Clone, PartialEq)]
pub struct PackageFile {
    /// Package name (qualified)
    pub name: QualifiedName,
    /// Dolfin language version
    pub dolfin_version: String,
    /// Package version
    pub version: String,
    /// Optional author
    pub author: Option<String>,
    /// Optional description
    pub description: Option<String>,
    pub span: Option<Span>,
}

/// Internal enum for parsing package fields
#[derive(Debug, Clone, PartialEq)]
pub enum PackageField {
    /// Dolfin language version specification
    DolfinVersion(String),
    /// Package version
    Version(String),
    /// Package author
    Author(String),
    /// Package description
    Description(String),
}

/// Prefix declaration
#[derive(Debug, Clone, PartialEq)]
pub struct PrefixDecl {
    /// The path being aliased
    pub path: QualifiedName,
    /// The alias (short name)
    pub alias: String,
    /// Source code span for this declaration
    pub span: Option<Span>,
}

/// Members of an ontology
#[derive(Debug, PartialEq)]
pub enum Declaration {
    /// A concept definition
    Concept(ConceptDef),
    /// A property definition
    Property(PropertyDef),
    /// A rule definition
    Rule(RuleDef),
    /// A fact (instance) definition
    Fact(FactDef),
    /// A query definition
    Query(QueryDef),
    /// A unit declaration (`unitdef EUR: scale 1.0`, `unitdef family vegetables`, ...)
    Unit(UnitDef),
}

/// A unit declaration (`unitdef EUR: scale 1.0`, `unitdef family vegetables`, ...).
///
/// A scale factor is carried as the decimal text it was written with.
#[derive(Debug, Clone, PartialEq)]
pub struct UnitDef {
    /// The unit (or family) name.
    pub name: SpannedString,
    /// What kind of unit declaration this is.
    pub kind: UnitKind,
    /// Source code span for this definition.
    pub span: Option<Span>,
}

/// The right-hand side of a `unit` declaration.
#[derive(Debug, Clone, PartialEq)]
pub enum UnitKind {
    /// `unitdef family <name>` — declares an abstract, dimensionless family that
    /// nominal units can belong to (e.g. `vegetables`). Not itself a usable
    /// unit in a `quantity(...)` literal.
    Family(),
    /// `unit <name>: nominal of <family> scale <factor>` — an incommensurable
    /// unit belonging to `family`, convertible into the family's base scale
    /// only via an explicit `as <family>` widening cast (never via plain `+`
    /// with a different unit of the same family, and never via `*`/`/`).
    Nominal { family: QualifiedName, scale: String },
    /// `unit <name>: scale <factor> <reference>` — an ordinary derived unit,
    /// same mechanism as declaring `km` from `m`: dimensions and further
    /// scale are inherited from `reference` (which must already resolve,
    /// builtin or previously declared). This is how a project adds a
    /// currency (e.g. `unit USD: scale 0.92 EUR`) or any other derived unit.
    Derived { scale: String, reference: String },
}

/// Concept definition
#[derive(Debug, PartialEq)]
pub struct ConceptDef {
    /// The concept name (with optional name-token span)
    pub name: SpannedString,
    /// Parent types this concept inherits from
    pub parents: Vec<TypeRef>,
    /// Property declarations (has statements)
    pub has_declarations: Vec<HasDeclaration>,
    /// Named individuals declared with 'one of:' (closed-world enumeration)
    pub one_of: Option<Vec<OneOfVariant>>,
    /// Optional IRI override from @iri_name annotation inside the concept body
    pub iri_name: Option<IriNameValue>,
    /// Source code span for this definition
    pub span: Option<Span>,
}

/// Declarations within a concept
#[derive(Debug, PartialEq)]
pub enum ConceptMember {
    /// Subclass declarations (parent types)
    Sub(Vec<TypeRef>),
    /// Property declarations
    Has(HasDeclaration),
    /// Closed-world named individuals ('one of:' block)
    OneOf(Vec<OneOfVariant>),
    /// IRI override for this specific concept
    IriName(IriNameValue),
}

/// OWL property path expression (used in `equivalent to` axioms)
#[derive(Debug, PartialEq)]
pub enum PropertyPath {
    /// Bare property name
    Name { name: QualifiedName, span: Option<Span> },
    /// Inverse: ^p
    Inverse { inner: Box<PropertyPath>, span: Option<Span> },
    /// Sequence: p / q  (property chain)
    Sequence { steps: Vec<PropertyPath>, span: Option<Span> },
    /// Alternative: p | q
    Alt { left: Box<PropertyPath>, right: Box<PropertyPath>, span: Option<Span> },
    /// One-or-more: p+
    OneOrMore { inner: Box<PropertyPath>, span: Option<Span> },
    /// Zero-or-more: p*
    ZeroOrMore { inner: Box<PropertyPath>, span: Option<Span> },
}

/// Characteristic of a property (used in property definitions and has-declarations)
#[derive(Debug, PartialEq)]
pub enum PropertyAxiom {
    Sub { property: QualifiedName, span: Option<Span> },
    InverseOf { property: QualifiedName, span: Option<Span> },
    Transitive { span: Option<Span> },
    Symmetric { span: Option<Span> },
    Reflexive { span: Option<Span> },
    EquivalentTo { path: PropertyPath, span: Option<Span> },
}

/// Has declaration (property on a concept)
#[derive(Debug, PartialEq)]
pub struct HasDeclaration {
    /// The property name
    pub name: String,
    /// Whether this property is part of the primary key set
    pub is_key: bool,
    /// Optional cardinality constraint
    pub cardinality: Option<Cardinality>,
    /// The type reference for this property
    pub type_ref: TypeRef,
    /// Property axioms (inverse of, sub, etc.)
    pub axioms: Vec<PropertyAxiom>,
    /// Source code span for this declaration
    pub span: Option<Span>,
}

/// Property definition
#[derive(Debug, PartialEq)]
pub struct PropertyDef {
    /// The property name
    pub name: SpannedString,
    /// Optional cardinality constraint for the domain
    pub domain_cardinality: Option<Cardinality>,
    /// The domain type (subject type)
    pub domain: TypeRef,
    /// Optional cardinality constraint for the range
    pub range_cardinality: Option<Cardinality>,
    /// The range type (object type)
    pub range: TypeRef,
    /// Property axioms (sub, inverse of, symmetric, etc.)
    pub axioms: Vec<PropertyAxiom>,
    pub span: Option<Span>,
}

/// A named individual declared inside a concept's 'one of:' block.
#[derive(Debug, PartialEq)]
pub struct OneOfVariant {
    /// The individual name (e.g. WHITE, RED)
    pub name: String,
    /// Optional constraint block fixing key property values
    pub constraints: Option<ConstraintBlock>,
    pub span: Option<Span>,
}

/// Query definition
#[derive(Debug, PartialEq)]
pub struct QueryDef {
    /// The query name
    pub name: String,
    /// The query body (clauses, optional group-by, optional return block)
    pub body: QueryBody,
    pub span: Option<Span>,
    /// Span of just the name token (for rename support)
    pub name_span: Option<Span>,
}

/// Body of a query definition
#[derive(Debug, PartialEq)]
pub struct QueryBody {
    pub clauses: Vec<QueryClause>,
    pub group_by: Option<GroupByBlock>,
    pub return_block: Option<ReturnBlock>,
    pub span: Option<Span>,
}

/// A top-level clause inside a query body
#[derive(Debug, PartialEq)]
pub enum QueryClause {
    SubjectPattern(SubjectPattern),
    Composition(QueryComposition),
    ExistenceBlock(ExistenceBlock),
    InverseTriple(InverseTriple),
    BooleanFilter(BoolExpr),
    AggregationQuery(AggregationQuery),
}

/// A top-level inverse triple inside a query body: `is prop of ?var`
#[derive(Debug, PartialEq)]
pub struct InverseTriple {
    pub property: QualifiedName,
    pub object: Object,
    pub span: Option<Span>,
}

/// A subject-scoped pattern: `?var a Type { ... }`, `a Type { ... }` (anonymous), or `?var { ... }` (untyped)
#[derive(Debug, PartialEq)]
pub struct SubjectPattern {
    pub subject: Option<String>,
    pub type_ref: Option<TypeRef>,
    pub properties: Vec<PropertyPattern>,
    pub span: Option<Span>,
}

/// A property-level pattern inside a subject block
#[derive(Debug, PartialEq)]
pub enum PropertyPattern {
    Value        { property: QualifiedName, object: Object, span: Option<Span> },
    Constrained  { property: QualifiedName, block: ConstraintBlock, span: Option<Span> },
    Optional     { property: QualifiedName, object: Object, span: Option<Span> },
    Inverse        { property: QualifiedName, outer_var: String, span: Option<Span> },
    InverseNested  { property: QualifiedName, block: ConstraintBlock, span: Option<Span> },
    Nested         { property: QualifiedName, block: SubjectBlock, span: Option<Span> },
    Disjunction  { either_branch: DisjBranch, or_branches: Vec<DisjBranch>, span: Option<Span> },
}

/// An anonymous nested block: `[ property1 val\n  property2 val ]`
#[derive(Debug, PartialEq)]
pub struct SubjectBlock {
    pub properties: Vec<PropertyPattern>,
    pub span: Option<Span>,
}

/// One branch in an `either … or …` disjunction
#[derive(Debug, PartialEq)]
pub struct DisjBranch {
    pub property: QualifiedName,
    pub block: ConstraintBlock,
    pub span: Option<Span>,
}

/// `some:` / `none:` existence filter block
#[derive(Debug, PartialEq)]
pub struct ExistenceBlock {
    /// `true` = `none:` (NOT EXISTS), `false` = `some:` (EXISTS)
    pub negated: bool,
    pub clauses: Vec<QueryClause>,
    pub span: Option<Span>,
}

/// Body-level aggregation sub-query: `average ?x as ?y` with indented sub-patterns.
/// Generates an inner sub-SELECT with implicit GROUP BY.
#[derive(Debug, PartialEq)]
pub struct AggregationQuery {
    pub kind: AggKind,
    pub input_var: String,
    pub result_var: String,
    pub sub_clauses: Vec<QueryClause>,
    pub span: Option<Span>,
}

/// Inline named-query composition: `queryName as [field ?var …]` or `queryName as ?var`
#[derive(Debug, Clone, PartialEq)]
pub struct QueryComposition {
    pub query_name: QualifiedName,
    pub binding: CompositionBinding,
    pub span: Option<Span>,
}

/// How query results are bound at the call site
#[derive(Debug, Clone, PartialEq)]
pub enum CompositionBinding {
    /// `[ fieldName ?localVar … ]` — rename projected columns
    Named(Vec<(String, String)>),
    /// `as ?var` — scalar single-result binding
    Scalar(String),
}

/// `group by ?var` block with aggregation specs and optional HAVING
#[derive(Debug, Clone, PartialEq)]
pub struct GroupByBlock {
    pub var: String,
    pub specs: Vec<AggregationSpec>,
    pub having: Vec<BoolExpr>,
    pub span: Option<Span>,
}

/// One aggregation line inside a `group by` block
#[derive(Debug, Clone, PartialEq)]
pub struct AggregationSpec {
    pub kind: AggKind,
    pub input_var: String,
    pub result_var: String,
    pub span: Option<Span>,
}

/// Aggregation function kind
#[derive(Debug, Clone, Copy, PartialEq, Eq, Structural)]
pub enum AggKind {
    Count,
    Average,
    Sum,
    Min,
    Max,
}

/// `return` block listing projected columns
#[derive(Debug, Clone, PartialEq)]
pub struct ReturnBlock {
    pub columns: Vec<ColumnSpec>,
    pub limit: Option<u64>,
    pub span: Option<Span>,
}

/// One column in a `return` block
#[derive(Debug, Clone, PartialEq)]
pub struct ColumnSpec {
    pub alias: Option<String>,
    pub var: String,
    pub order: Option<OrderDir>,
    pub distinct: bool,
    pub span: Option<Span>,
}

/// Sort direction for a return column
#[derive(Debug, Clone, Copy, PartialEq, Eq, Structural)]
pub enum OrderDir {
    Asc,
    Desc,
}

/// A boolean comparison expression (used in bare filters and HAVING)
#[derive(Debug, Clone, PartialEq)]
pub struct BoolExpr {
    pub left: BoolOperand,
    pub op: ComparisonOp,
    pub right: BoolOperand,
    pub span: Option<Span>,
}

/// One side of a boolean comparison
#[derive(Debug, Clone, PartialEq)]
pub enum BoolOperand {
    Variable(String),
    Literal(Literal),
}

/// Rule definition with match/then blocks
#[derive(Debug, PartialEq)]
pub struct RuleDef {
    /// The rule name
    pub name: String,
    /// The match block containing patterns
    pub match_block: MatchBlock,
    /// The then block containing assertions
    pub then_block: ThenBlock,
    pub span: Option<Span>,
}

/// Match block containing patterns
#[derive(Debug, PartialEq)]
pub struct MatchBlock {
    /// The patterns to match
    pub patterns: Vec<Pattern>,
    pub span: Option<Span>,
}

/// Then block containing assertions and nested rules
#[derive(Debug, PartialEq)]
pub struct ThenBlock {
    /// The items to execute when patterns match
    pub items: Vec<ThenItem>,
    pub span: Option<Span>,
}

/// Items in a then block
#[derive(Debug, PartialEq)]
pub enum ThenItem {
    /// An assertion triple (subject-property-object)
    AssertionTriple {
        /// The assertion to make
        assertion: Assertion,
        span: Option<Span>,
    },
    /// A type assertion (subject is of type)
    AssertionTyping {
        /// The subject being typed
        subject: Subject,
        /// The type to assert
        typing: QualifiedName,
        span: Option<Span>,
    },
    /// A nested rule definition
    NestedRule {
        /// The nested rule
        rule: RuleDef,
    },
}

/// Assertion in a then block
#[derive(Debug, PartialEq)]
pub struct Assertion {
    /// The subject of the assertion
    pub subject: Subject,
    /// The property being asserted
    pub property: QualifiedName,
    /// The object/value of the assertion
    pub object: Object,
    pub span: Option<Span>,
}

/// Pattern in a match block
#[derive(Debug, PartialEq)]
pub enum Pattern {
    /// A triple pattern (subject-property-object)
    Triple {
        /// The subject to match
        subject: Subject,
        /// The property to match
        property: QualifiedName,
        /// The object to match
        object: Object,
        span: Option<Span>,
    },
    /// A type pattern (subject is of type)
    Type {
        /// The subject to check
        subject: Subject,
        /// The type to match
        type_ref: TypeRef,
        span: Option<Span>,
    },
    /// A quantified pattern (all/any/some/none with nested patterns)
    Quantified {
        /// The quantifier (all, any, some, etc.)
        quantifier: Quantifier,
        /// The variable being quantified
        variable: String,
        /// Optional constraints on the variable
        constraint: Option<ConstraintBlock>,
        /// Nested patterns to match
        patterns: Vec<Pattern>,
        span: Option<Span>,
    },
    /// A query call pattern (invoke a named query with argument bindings)
    QueryCall {
        /// The name of the query being called
        name: QualifiedName,
        /// Argument bindings passed to the query
        args: Vec<QueryArg>,
        span: Option<Span>,
    },
    /// An inverse triple pattern (`subject is property of object`).
    /// Desugars to `object property subject`; `object` may be
    /// `Object::Constraint { block }` for the nested form.
    Inverse {
        /// The subject (the object of the underlying triple)
        subject: Subject,
        /// The property to match
        property: QualifiedName,
        /// The object (the subject of the underlying triple)
        object: Object,
        span: Option<Span>,
    },
}

/// Argument in a query call
#[derive(Debug, PartialEq)]
pub enum QueryArg {
    /// Shorthand variable binding: ?var maps to same-named query param
    Var {
        name: String,
        span: Option<Span>,
    },
    /// Explicit binding: ?param = <value>
    Binding {
        param: String,
        value: Object,
        span: Option<Span>,
    },
}

/// Subject of a pattern
#[derive(Debug, PartialEq)]
pub enum Subject {
    /// A variable (e.g., ?x)
    Variable { name: String, span: Option<Span> },
    /// A constant qualified name
    Constant {
        name: QualifiedName,
        span: Option<Span>,
    },
    /// A constrained subject
    Constraint {
        block: ConstraintBlock,
        span: Option<Span>,
    },
}

/// Binary arithmetic operator
#[derive(Debug, Clone, Copy, PartialEq, Eq, Structural)]
pub enum BinaryOp {
    Add,
    Sub,
    Mul,
    Div,
}

/// Unary arithmetic operator
#[derive(Debug, Clone, Copy, PartialEq, Eq, Structural)]
pub enum UnaryOp {
    Neg,
}

/// Mathematical expression (used wherever a value is expected)
#[derive(Debug, PartialEq)]
pub enum Expr {
    Literal {
        value: Literal,
        span: Option<Span>,
    },
    Variable {
        name: String,
        span: Option<Span>,
    },
    BinaryOp {
        op: BinaryOp,
        left: Box<Expr>,
        right: Box<Expr>,
        span: Option<Span>,
    },
    UnaryOp {
        op: UnaryOp,
        operand: Box<Expr>,
        span: Option<Span>,
    },
}

/// Object of a pattern
#[derive(Debug, PartialEq)]
pub enum Object {
    Variable {
        name: String,
        span: Option<Span>,
    },
    Literal {
        value: Expr,
        span: Option<Span>,
    },
    Constraint {
        block: ConstraintBlock,
    },
    Constant {
        value: QualifiedName,
        span: Option<Span>,
    },
}

/// Constraint block with conditions
#[derive(Debug, PartialEq)]
pub struct ConstraintBlock {
    pub constraints: Vec<Constraint>,
    pub span: Option<Span>,
}

/// Individual constraint
#[derive(Debug, PartialEq)]
pub enum Constraint {
    TypeIs {
        type_ref: TypeRef,
        span: Option<Span>,
    },
    Comparison {
        binding: Option<String>,
        operator: ComparisonOp,
        value: Expr,
        span: Option<Span>,
    },
    PropertyValue {
        property: QualifiedName,
        value: Object,
        span: Option<Span>,
    },
    PropertyConstraint {
        property: QualifiedName,
        block: ConstraintBlock,
        span: Option<Span>,
    },
    /// Inverse property usage: `is property of value`
    /// (`value` is the subject of the underlying triple, the constrained node the object).
    Inverse {
        property: QualifiedName,
        value: Object,
        span: Option<Span>,
    },
    /// Inverse property usage with a nested block: `is property of [ ... ]`
    InverseNested {
        property: QualifiedName,
        block: ConstraintBlock,
        span: Option<Span>,
    },
}

/// A file-header item: either a prefix statement or a temporal directive.
/// Used only transiently by the parser so prefixes and `@locale`/`@timezone`
/// directives may appear in any order at the top of a file.
#[derive(Debug, Clone, PartialEq)]
pub enum HeaderItem {
    Prefixes(Vec<PrefixDecl>),
    Locale(String),
    Timezone(String),
}

/// Literal values. A floating-point value is carried as the decimal text it
/// was written with.
#[derive(Debug, Clone, PartialEq)]
pub enum Literal {
    Int { value: i64, span: Option<Span> },
    Float { value: String, span: Option<Span> },
    String { value: String, span: Option<Span> },
    Boolean { value: bool, span: Option<Span> },
    Iri { value: String, span: Option<Span> },
    /// A temporal smart literal such as `date(June 1st 2026)`. `content` is the
    /// raw text between the parentheses, handed verbatim to `dolfin-datetime`.
    Temporal {
        kind: TemporalKind,
        content: String,
        span: Option<Span>,
    },
    /// A physical-quantity smart literal such as `quantity(42 km/h)`. `content`
    /// is the raw text between the parentheses, handed verbatim to
    /// `dolfin-units`. A trailing `as <unit>` inside `content` is a conversion
    /// directive resolved at parse time (see [`Literal::resolve_quantity`]).
    Quantity {
        content: String,
        span: Option<Span>,
    },
}

/// Type reference (qualified name or primitive)
#[derive(Debug, Clone, PartialEq)]
pub enum TypeRef {
    Named {
        name: QualifiedName,
        span: Option<Span>,
    },
    Primitive {
        kind: PrimitiveKind,
        span: Option<Span>,
    },
}

/// Cardinality constraint
#[derive(Debug, Clone, PartialEq)]
pub enum Cardinality {
    One {
        span: Option<Span>,
    },
    Any {
        span: Option<Span>,
    },
    SomeOf {
        span: Option<Span>,
    },
    Optional {
        span: Option<Span>,
    },
    Exact {
        value: usize,
        span: Option<Span>,
    },
    Range {
        min: usize,
        max: Option<usize>,
        span: Option<Span>,
    },
}

/// Cardinality value (for quantifiers)
#[derive(Debug, Clone, PartialEq)]
pub enum CardinalityValue {
    Int { value: usize, span: Option<Span> },
    Variable { name: String, span: Option<Span> },
}

/// Integer or variable reference (for cardinalities)
#[derive(Debug, Clone, PartialEq)]
pub enum IntOrVar {
    Int { value: usize },
    Variable { name: String },
}

/// Quantifier types
#[derive(Debug, Clone, PartialEq)]
pub enum Quantifier {
    All {
        span: Option<Span>,
    },
    NoneOf {
        span: Option<Span>,
    },
    Any {
        span: Option<Span>,
    },
    AtLeast {
        value: CardinalityValue,
        span: Option<Span>,
    },
    AtMost {
        value: CardinalityValue,
        span: Option<Span>,
    },
    Exactly {
        value: CardinalityValue,
        span: Option<Span>,
    },
    Between {
        min: CardinalityValue,
        max: CardinalityValue,
        span: Option<Span>,
    },
}

/// Comparison operators
#[derive(Debug, Clone, Copy, PartialEq, Eq, Structural)]
pub enum ComparisonOp {
    Equal,
    NotEqual,
    LessThan,
    LessEqual,
    GreaterThan,
    GreaterEqual,
}

/// Primitive type kinds
#[derive(Debug, Clone, Copy, PartialEq, Eq, Structural)]
pub enum PrimitiveKind {
    String,
    Int,
    Float,
    Boolean,
    Date,
    DateTime,
    Time,
    Duration,
}

/// A value in a fact assertion
#[derive(Debug, PartialEq)]
pub enum FactValue {
    /// Scalar literal (string, int, float, boolean, IRI)
    Literal { value: Literal, span: Option<Span> },
    /// Instance reference: `:name` or `prefix:name`
    Reference { qualifier: Option<String>, name: String, span: Option<Span> },
    /// Enum member or named concept value (dot-separated name)
    Named { name: QualifiedName, span: Option<Span> },
    /// Inline anonymous block `[ ... ]` (blank node)
    Block { type_hint: Option<QualifiedName>, assertions: Vec<FactAssertion>, span: Option<Span> },
}

/// A single assertion in a fact body
#[derive(Debug, PartialEq)]
pub enum FactAssertion {
    /// `property_name value, ...`
    Property { property: QualifiedName, values: Vec<FactValue>, span: Option<Span> },
    /// `is property of value`  (inverse property form)
    Inverse { property: QualifiedName, value: FactValue, span: Option<Span> },
    /// `a ConceptName`  (type hint inside anonymous block)
    TypeHint { type_ref: QualifiedName, span: Option<Span> },
}

/// A fact (instance) definition
#[derive(Debug, PartialEq)]
pub struct FactDef {
    /// The instance identifier
    pub id: String,
    /// The concept(s) this instance is a member of
    pub types: Vec<QualifiedName>,
    /// Property assertions and inverse assertions
    pub assertions: Vec<FactAssertion>,
    pub span: Option<Span>,
    /// Span of just the id token (for rename support)
    pub id_span: Option<Span>,
}

/// The declared type of a temporal smart literal, i.e. which constructor
/// keyword introduced it (`date(...)`, `time(...)`, `date_time(...)`,
/// `duration(...)`).
#[derive(Debug, Clone, Copy, PartialEq, Eq, Structural)]
pub enum TemporalKind {
    Date,
    Time,
    DateTime,
    Duration,
}

impl TemporalKind {
    pub open spec fn spec_keyword(self) -> Seq<char> {
        match self {
            TemporalKind::Date => "date"@,
            TemporalKind::Time => "time"@,
            TemporalKind::DateTime => "date_time"@,
            TemporalKind::Duration => "duration"@,
        }
    }

    /// The Dolfin constructor keyword.
    pub fn keyword(self) -> (r: &'static str)
        ensures
            r@ == self.spec_keyword(),
    {
        match self {
            TemporalKind::Date => "date",
            TemporalKind::Time => "time",
            TemporalKind::DateTime => "date_time",
            TemporalKind::Duration => "duration",
        }
    }

    pub open spec fn spec_xsd_type(self) -> Seq<char> {
        match self {
            TemporalKind::Date => "xsd:date"@,
            TemporalKind::Time => "xsd:time"@,
            TemporalKind::DateTime => "xsd:dateTime"@,
            TemporalKind::Duration => "xsd:duration"@,
        }
    }

    /// The XSD datatype IRI (compact form) this kind serialises to.
    pub fn xsd_type(self) -> (r: &'static str)
        ensures
            r@ == self.spec_xsd_type(),
    {
        match self {
            TemporalKind::Date => "xsd:date",
            TemporalKind::Time => "xsd:time",
            TemporalKind::DateTime => "xsd:dateTime",
            TemporalKind::Duration => "xsd:duration",
        }
    }
}

// ============================================================================
// QUALIFIED NAMES
// ============================================================================

/// The texts of a list of strings.
pub open spec fn texts(v: Seq<String>) -> Seq<Seq<char>> {
    v.map_values(|s: String| s@)
}

/// The pieces joined by `sep`.
pub open spec fn join_seq(parts: Seq<Seq<char>>, sep: Seq<char>) -> Seq<char>
    decreases parts.len(),
{
    if parts.len() == 0 {
        seq![]
    } else if parts.len() == 1 {
        parts[0]
    } else {
        join_seq(parts.drop_last(), sep) + sep + parts.last()
    }
}

/// The strings joined by `sep`.
pub fn join_strings(v: &[String], sep: &str) -> (r: String)
    ensures
        r@ == join_seq(texts(v@), sep@),
{
    let mut out: Vec<char> = Vec::new();
    let mut k: usize = 0;
    while k < v.len()
        invariant
            0 <= k <= v@.len(),
            out@ == join_seq(texts(v@.subrange(0, k as int)), sep@),
        decreases v@.len() - k,
    {
        proof {
            assert(texts(v@.subrange(0, k + 1)).drop_last() =~= texts(v@.subrange(0, k as int)));
            assert(texts(v@.subrange(0, k + 1)).last() == v@[k as int]@);
        }
        if k > 0 {
            let mut sp = chars_of(sep);
            out.append(&mut sp);
        }
        let mut w = chars_of(v[k].as_str());
        out.append(&mut w);
        proof {
            if k == 0 {
                assert(out@ =~= texts(v@.subrange(0, 1))[0]);
            }
        }
        k = k + 1;
    }
    proof {
        assert(v@.subrange(0, v@.len() as int) =~= v@);
    }
    string_from_chars(out.as_slice())
}

/// A copy of the strings `v[a..b]`.
pub fn copy_strings_range(v: &[String], a: usize, b: usize) -> (r: Vec<String>)
    requires
        a <= b <= v@.len(),
    ensures
        r@ == v@.subrange(a as int, b as int),
{
    let mut out: Vec<String> = Vec::new();
    let mut k: usize = a;
    while k < b
        invariant
            a <= k <= b <= v@.len(),
            out@ == v@.subrange(a as int, k as int),
        decreases b - k,
    {
        out.push(v[k].clone());
        k = k + 1;
        proof {
            assert(out@ =~= v@.subrange(a as int, k as int));
        }
    }
    out
}

/// A copy of a list of strings.
pub fn copy_strings(v: &[String]) -> (r: Vec<String>)
    ensures
        r@ == v@,
{
    let r = copy_strings_range(v, 0, v.len());
    proof {
        assert(v@.subrange(0, v@.len() as int) =~= v@);
    }
    r
}

/// `a` starts with the strings of `b`.
pub open spec fn texts_start_with(a: Seq<String>, b: Seq<String>) -> bool {
    b.len() <= a.len() && texts(a.subrange(0, b.len() as int)) == texts(b)
}

impl QualifiedName {
    pub fn new(parts: Vec<String>, span: Option<Span>) -> (r: Self)
        ensures
            r == (QualifiedName { parts, is_prefixed: false, span }),
    {
        Self { parts, is_prefixed: false, span }
    }

    /// Create a prefixed-name reference (from `alias:Local` syntax).
    pub fn new_prefixed(alias: String, local: String, span: Option<Span>) -> (r: Self)
        ensures
            r.parts@ == seq![alias, local],
            r.is_prefixed,
            r.span == span,
    {
        let mut parts: Vec<String> = Vec::new();
        parts.push(alias);
        parts.push(local);
        proof {
            assert(parts@ =~= seq![alias, local]);
        }
        Self { parts, is_prefixed: true, span }
    }

    pub fn from_single(name: String) -> (r: Self)
        ensures
            r.parts@ == seq![name],
            !r.is_prefixed,
            r.span is None,
    {
        let mut parts: Vec<String> = Vec::new();
        parts.push(name);
        proof {
            assert(parts@ =~= seq![name]);
        }
        Self { parts, is_prefixed: false, span: None }
    }

    /// The name's parts joined by dots.
    pub open spec fn full_text(&self) -> Seq<char> {
        join_seq(texts(self.parts@), "."@)
    }

    /// Get the prefix (all parts except the last)
    pub fn prefix(&self) -> (r: Option<String>)
        ensures
            self.parts@.len() > 1 ==> (r matches Some(p) && p@ == join_seq(
                texts(self.parts@.drop_last()),
                "."@,
            )),
            self.parts@.len() <= 1 ==> r is None,
    {
        if self.parts.len() > 1 {
            let init = copy_strings_range(self.parts.as_slice(), 0, self.parts.len() - 1);
            proof {
                assert(init@ =~= self.parts@.drop_last());
            }
            Some(join_strings(init.as_slice(), "."))
        } else {
            None
        }
    }

    /// Get the last component of the name (empty for a name with no parts)
    pub fn last(&self) -> (r: String)
        ensures
            self.parts@.len() > 0 ==> r == self.parts@.last(),
            self.parts@.len() == 0 ==> r@ == Seq::<char>::empty(),
    {
        if self.parts.len() > 0 {
            self.parts[self.parts.len() - 1].clone()
        } else {
            String::new()
        }
    }

    /// Get the full qualified name as a string
    pub fn full(&self) -> (r: String)
        ensures
            r@ == self.full_text(),
    {
        join_strings(self.parts.as_slice(), ".")
    }

    /// Get the full qualified name as a path, parts joined by slashes
    pub fn full_slashed(&self) -> (r: String)
        ensures
            r@ == join_seq(texts(self.parts@), "/"@),
    {
        join_strings(self.parts.as_slice(), "/")
    }

    /// Combine two qualified names: the parts of both, not prefixed; the spans
    /// merged when both have one.
    pub fn join(&self, other: &QualifiedName) -> (r: QualifiedName)
        ensures
            r.parts@ == self.parts@ + other.parts@,
            !r.is_prefixed,
            r.span == (match (self.span, other.span) {
                (Some(a), Some(b)) => Some(a.spec_merge(b)),
                _ => None,
            }),
    {
        let mut parts = copy_strings(self.parts.as_slice());
        let mut more = copy_strings(other.parts.as_slice());
        parts.append(&mut more);
        let span = match (&self.span, &other.span) {
            (Some(ss), Some(os)) => Some(ss.merge(os)),
            _ => None,
        };
        QualifiedName { parts, is_prefixed: false, span }
    }

    /// Remove last part and give a QualifiedName
    pub fn prefix_as_qn(&self) -> (r: Option<QualifiedName>)
        ensures
            self.parts@.len() > 1 ==> (r matches Some(q) && q.parts@ == self.parts@.drop_last()
                && !q.is_prefixed && q.span is None),
            self.parts@.len() <= 1 ==> r is None,
    {
        if self.parts.len() > 1 {
            let parts = copy_strings_range(self.parts.as_slice(), 0, self.parts.len() - 1);
            proof {
                assert(parts@ =~= self.parts@.drop_last());
            }
            Some(QualifiedName { parts, is_prefixed: false, span: None })
        } else {
            None
        }
    }

    /// The name without the leading parts of `other`, when it starts with them;
    /// the whole name otherwise. Not prefixed, no span.
    pub fn strip_prefix(&self, other: &QualifiedName) -> (r: QualifiedName)
        ensures
            texts_start_with(self.parts@, other.parts@) ==> r.parts@ == self.parts@.subrange(
                other.parts@.len() as int,
                self.parts@.len() as int,
            ),
            !texts_start_with(self.parts@, other.parts@) ==> r.parts@ == self.parts@,
            !r.is_prefixed,
            r.span is None,
    {
        let n = other.parts.len();
        let mut starts = n <= self.parts.len();
        let mut k: usize = 0;
        while starts && k < n
            invariant
                n == other.parts@.len(),
                starts ==> n <= self.parts@.len(),
                0 <= k <= n,
                starts ==> forall|j: int| 0 <= j < k ==> self.parts@[j]@ == other.parts@[j]@,
                !starts ==> !texts_start_with(self.parts@, other.parts@),
            decreases n - k,
        {
            if !str_eq(self.parts[k].as_str(), other.parts[k].as_str()) {
                starts = false;
                proof {
                    if texts_start_with(self.parts@, other.parts@) {
                        assert(texts(self.parts@.subrange(0, n as int))[k as int] == texts(other.parts@)[k as int]);
                    }
                }
            }
            k = k + 1;
        }
        if starts {
            proof {
                assert(texts(self.parts@.subrange(0, n as int)) =~= texts(other.parts@));
            }
            let parts = copy_strings_range(self.parts.as_slice(), n, self.parts.len());
            QualifiedName { parts, is_prefixed: false, span: None }
        } else {
            QualifiedName { parts: copy_strings(self.parts.as_slice()), is_prefixed: false, span: None }
        }
    }
}

impl IriNameValue {
    /// The IRI or segment text.
    pub fn as_str(&self) -> (r: &str)
        ensures
            r@ == (match self {
                IriNameValue::AbsoluteUri(s) => s@,
                IriNameValue::LocalSegment(s) => s@,
            }),
    {
        match self {
            IriNameValue::AbsoluteUri(s) => s.as_str(),
            IriNameValue::LocalSegment(s) => s.as_str(),
        }
    }
}

// ============================================================================
// ONTOLOGY FILES AND DECLARATIONS
// ============================================================================

/// The concept definitions among the declarations, in order.
pub open spec fn concept_defs(ds: Seq<Declaration>) -> Seq<ConceptDef>
    decreases ds.len(),
{
    if ds.len() == 0 {
        seq![]
    } else {
        match ds.last() {
            Declaration::Concept(d) => concept_defs(ds.drop_last()).push(d),
            _ => concept_defs(ds.drop_last()),
        }
    }
}

/// The property definitions among the declarations, in order.
pub open spec fn property_defs(ds: Seq<Declaration>) -> Seq<PropertyDef>
    decreases ds.len(),
{
    if ds.len() == 0 {
        seq![]
    } else {
        match ds.last() {
            Declaration::Property(d) => property_defs(ds.drop_last()).push(d),
            _ => property_defs(ds.drop_last()),
        }
    }
}

/// The rule definitions among the declarations, in order.
pub open spec fn rule_defs(ds: Seq<Declaration>) -> Seq<RuleDef>
    decreases ds.len(),
{
    if ds.len() == 0 {
        seq![]
    } else {
        match ds.last() {
            Declaration::Rule(d) => rule_defs(ds.drop_last()).push(d),
            _ => rule_defs(ds.drop_last()),
        }
    }
}

/// The fact definitions among the declarations, in order.
pub open spec fn fact_defs(ds: Seq<Declaration>) -> Seq<FactDef>
    decreases ds.len(),
{
    if ds.len() == 0 {
        seq![]
    } else {
        match ds.last() {
            Declaration::Fact(d) => fact_defs(ds.drop_last()).push(d),
            _ => fact_defs(ds.drop_last()),
        }
    }
}

/// The query definitions among the declarations, in order.
pub open spec fn query_defs(ds: Seq<Declaration>) -> Seq<QueryDef>
    decreases ds.len(),
{
    if ds.len() == 0 {
        seq![]
    } else {
        match ds.last() {
            Declaration::Query(d) => query_defs(ds.drop_last()).push(d),
            _ => query_defs(ds.drop_last()),
        }
    }
}

impl OntologyFile {
    /// The concept definitions of the file, in order.
    pub fn concepts_as_ref(&self) -> (r: Vec<&ConceptDef>)
        ensures
            r@.len() == concept_defs(self.declarations@).len(),
            forall|k: int| 0 <= k < r@.len() ==> *r@[k] == concept_defs(self.declarations@)[k],
    {
        let mut out: Vec<&ConceptDef> = Vec::new();
        let mut i: usize = 0;
        while i < self.declarations.len()
            invariant
                0 <= i <= self.declarations@.len(),
                out@.len() == concept_defs(self.declarations@.subrange(0, i as int)).len(),
                forall|k: int| 0 <= k < out@.len() ==> *out@[k] == concept_defs(self.declarations@.subrange(0, i as int))[k],
            decreases self.declarations@.len() - i,
        {
            proof {
                assert(self.declarations@.subrange(0, i + 1).drop_last() =~= self.declarations@.subrange(0, i as int));
            }
            match &self.declarations[i] {
                Declaration::Concept(d) => {
                    out.push(d);
                },
                _ => {},
            }
            i = i + 1;
        }
        proof {
            assert(self.declarations@.subrange(0, self.declarations@.len() as int) =~= self.declarations@);
        }
        out
    }

    /// The property definitions of the file, in order.
    pub fn properties_as_ref(&self) -> (r: Vec<&PropertyDef>)
        ensures
            r@.len() == property_defs(self.declarations@).len(),
            forall|k: int| 0 <= k < r@.len() ==> *r@[k] == property_defs(self.declarations@)[k],
    {
        let mut out: Vec<&PropertyDef> = Vec::new();
        let mut i: usize = 0;
        while i < self.declarations.len()
            invariant
                0 <= i <= self.declarations@.len(),
                out@.len() == property_defs(self.declarations@.subrange(0, i as int)).len(),
                forall|k: int| 0 <= k < out@.len() ==> *out@[k] == property_defs(self.declarations@.subrange(0, i as int))[k],
            decreases self.declarations@.len() - i,
        {
            proof {
                assert(self.declarations@.subrange(0, i + 1).drop_last() =~= self.declarations@.subrange(0, i as int));
            }
            match &self.declarations[i] {
                Declaration::Property(d) => {
                    out.push(d);
                },
                _ => {},
            }
            i = i + 1;
        }
        proof {
            assert(self.declarations@.subrange(0, self.declarations@.len() as int) =~= self.declarations@);
        }
        out
    }

    /// The rule definitions of the file, in order.
    pub fn rules_as_ref(&self) -> (r: Vec<&RuleDef>)
        ensures
            r@.len() == rule_defs(self.declarations@).len(),
            forall|k: int| 0 <= k < r@.len() ==> *r@[k] == rule_defs(self.declarations@)[k],
    {
        let mut out: Vec<&RuleDef> = Vec::new();
        let mut i: usize = 0;
        while i < self.declarations.len()
            invariant
                0 <= i <= self.declarations@.len(),
                out@.len() == rule_defs(self.declarations@.subrange(0, i as int)).len(),
                forall|k: int| 0 <= k < out@.len() ==> *out@[k] == rule_defs(self.declarations@.subrange(0, i as int))[k],
            decreases self.declarations@.len() - i,
        {
            proof {
                assert(self.declarations@.subrange(0, i + 1).drop_last() =~= self.declarations@.subrange(0, i as int));
            }
            match &self.declarations[i] {
                Declaration::Rule(d) => {
                    out.push(d);
                },
                _ => {},
            }
            i = i + 1;
        }
        proof {
            assert(self.declarations@.subrange(0, self.declarations@.len() as int) =~= self.declarations@);
        }
        out
    }

    /// The fact definitions of the file, in order.
    pub fn facts_as_ref(&self) -> (r: Vec<&FactDef>)
        ensures
            r@.len() == fact_defs(self.declarations@).len(),
            forall|k: int| 0 <= k < r@.len() ==> *r@[k] == fact_defs(self.declarations@)[k],
    {
        let mut out: Vec<&FactDef> = Vec::new();
        let mut i: usize = 0;
        while i < self.declarations.len()
            invariant
                0 <= i <= self.declarations@.len(),
                out@.len() == fact_defs(self.declarations@.subrange(0, i as int)).len(),
                forall|k: int| 0 <= k < out@.len() ==> *out@[k] == fact_defs(self.declarations@.subrange(0, i as int))[k],
            decreases self.declarations@.len() - i,
        {
            proof {
                assert(self.declarations@.subrange(0, i + 1).drop_last() =~= self.declarations@.subrange(0, i as int));
            }
            match &self.declarations[i] {
                Declaration::Fact(d) => {
                    out.push(d);
                },
                _ => {},
            }
            i = i + 1;
        }
        proof {
            assert(self.declarations@.subrange(0, self.declarations@.len() as int) =~= self.declarations@);
        }
        out
    }

    /// The query definitions of the file, in order.
    pub fn queries_as_ref(&self) -> (r: Vec<&QueryDef>)
        ensures
            r@.len() == query_defs(self.declarations@).len(),
            forall|k: int| 0 <= k < r@.len() ==> *r@[k] == query_defs(self.declarations@)[k],
    {
        let mut out: Vec<&QueryDef> = Vec::new();
        let mut i: usize = 0;
        while i < self.declarations.len()
            invariant
                0 <= i <= self.declarations@.len(),
                out@.len() == query_defs(self.declarations@.subrange(0, i as int)).len(),
                forall|k: int| 0 <= k < out@.len() ==> *out@[k] == query_defs(self.declarations@.subrange(0, i as int))[k],
            decreases self.declarations@.len() - i,
        {
            proof {
                assert(self.declarations@.subrange(0, i + 1).drop_last() =~= self.declarations@.subrange(0, i as int));
            }
            match &self.declarations[i] {
                Declaration::Query(d) => {
                    out.push(d);
                },
                _ => {},
            }
            i = i + 1;
        }
        proof {
            assert(self.declarations@.subrange(0, self.declarations@.len() as int) =~= self.declarations@);
        }
        out
    }

}

/// The name a declaration declares.
pub open spec fn declaration_name(d: Declaration) -> Seq<char> {
    match d {
        Declaration::Concept(c) => c.name.text(),
        Declaration::Property(p) => p.name.text(),
        Declaration::Rule(r) => r.name@,
        Declaration::Fact(f) => f.id@,
        Declaration::Query(q) => q.name@,
        Declaration::Unit(u) => u.name.text(),
    }
}

impl Declaration {
    /// The name the declaration declares.
    pub fn name(&self) -> (r: String)
        ensures
            r@ == declaration_name(*self),
    {
        match self {
            Declaration::Concept(c) => c.name.get().clone(),
            Declaration::Property(p) => p.name.get().clone(),
            Declaration::Rule(r) => r.name.clone(),
            Declaration::Fact(f) => f.id.clone(),
            Declaration::Query(q) => q.name.clone(),
            Declaration::Unit(u) => u.name.get().clone(),
        }
    }
}

impl PrefixDecl {
    pub fn new(path: QualifiedName, alias: String, span: Option<Span>) -> (r: Self)
        ensures
            r == (PrefixDecl { path, alias, span }),
    {
        Self { path, alias, span }
    }

    /// The declaration with its span set.
    pub fn with_span(self, span: Span) -> (r: Self)
        ensures
            r == (PrefixDecl { span: Some(span), ..self }),
    {
        let mut d = self;
        d.span = Some(span);
        d
    }
}

impl ConceptDef {
    /// Constructor without span - for tests and programmatic creation.
    pub fn without_span(name: String, parents: Vec<TypeRef>, has_declarations: Vec<HasDeclaration>) -> (r: Self)
        ensures
            r.name.text() == name@,
            r.name.span_view() is None,
            r.parents == parents,
            r.has_declarations == has_declarations,
            r.one_of is None,
            r.iri_name is None,
            r.span is None,
    {
        Self {
            name: SpannedString::new(name, None),
            parents,
            has_declarations,
            one_of: None,
            iri_name: None,
            span: None,
        }
    }

    /// Attach a span to this node (builder pattern).
    pub fn with_span(self, span: Span) -> (r: Self)
        ensures
            r == (ConceptDef { span: Some(span), ..self }),
    {
        let mut d = self;
        d.span = Some(span);
        d
    }
}

// ============================================================================
// DISPLAY TEXTS
// ============================================================================

/// The text `format!("{:?}", s)` gives for a string: `s` in double quotes,
/// its characters escaped as `str::escape_debug` does.
pub uninterp spec fn debug_quoted(s: Seq<char>) -> Seq<char>;

/// `s` in double quotes, escaped as Rust's `Debug` formatting of strings does.
#[verifier::external_body]
fn debug_quote(s: &str) -> (r: String)
    ensures
        r@ == debug_quoted(s@),
{
    format!("{:?}", s)
}

impl PrimitiveKind {
    /// The keyword of the primitive type.
    pub open spec fn spec_keyword(self) -> Seq<char> {
        match self {
            PrimitiveKind::String => "string"@,
            PrimitiveKind::Int => "int"@,
            PrimitiveKind::Float => "float"@,
            PrimitiveKind::Boolean => "boolean"@,
            PrimitiveKind::Date => "date"@,
            PrimitiveKind::DateTime => "date_time"@,
            PrimitiveKind::Time => "time"@,
            PrimitiveKind::Duration => "duration"@,
        }
    }

    /// The keyword of the primitive type (its displayed text).
    pub fn keyword(&self) -> (r: &'static str)
        ensures
            r@ == self.spec_keyword(),
    {
        match self {
            PrimitiveKind::String => "string",
            PrimitiveKind::Int => "int",
            PrimitiveKind::Float => "float",
            PrimitiveKind::Boolean => "boolean",
            PrimitiveKind::Date => "date",
            PrimitiveKind::DateTime => "date_time",
            PrimitiveKind::Time => "time",
            PrimitiveKind::Duration => "duration",
        }
    }

    /// The name of the variant.
    pub open spec fn spec_variant_name(self) -> Seq<char> {
        match self {
            PrimitiveKind::String => "String"@,
            PrimitiveKind::Int => "Int"@,
            PrimitiveKind::Float => "Float"@,
            PrimitiveKind::Boolean => "Boolean"@,
            PrimitiveKind::Date => "Date"@,
            PrimitiveKind::DateTime => "DateTime"@,
            PrimitiveKind::Time => "Time"@,
            PrimitiveKind::Duration => "Duration"@,
        }
    }

    /// The name of the variant.
    pub fn variant_name(&self) -> (r: &'static str)
        ensures
            r@ == self.spec_variant_name(),
    {
        match self {
            PrimitiveKind::String => "String",
            PrimitiveKind::Int => "Int",
            PrimitiveKind::Float => "Float",
            PrimitiveKind::Boolean => "Boolean",
            PrimitiveKind::Date => "Date",
            PrimitiveKind::DateTime => "DateTime",
            PrimitiveKind::Time => "Time",
            PrimitiveKind::Duration => "Duration",
        }
    }
}

impl ComparisonOp {
    pub open spec fn spec_symbol(self) -> Seq<char> {
        match self {
            ComparisonOp::Equal => "="@,
            ComparisonOp::NotEqual => "!="@,
            ComparisonOp::LessThan => "<"@,
            ComparisonOp::LessEqual => "<="@,
            ComparisonOp::GreaterThan => ">"@,
            ComparisonOp::GreaterEqual => ">="@,
        }
    }

    /// The operator's symbol.
    pub fn symbol(&self) -> (r: &'static str)
        ensures
            r@ == self.spec_symbol(),
    {
        match self {
            ComparisonOp::Equal => "=",
            ComparisonOp::NotEqual => "!=",
            ComparisonOp::LessThan => "<",
            ComparisonOp::LessEqual => "<=",
            ComparisonOp::GreaterThan => ">",
            ComparisonOp::GreaterEqual => ">=",
        }
    }
}

impl TypeRef {
    /// How the type reference is displayed: a named type by its full name, a
    /// primitive type by its variant name.
    pub open spec fn spec_text(self) -> Seq<char> {
        match self {
            TypeRef::Named { name, .. } => name.full_text(),
            TypeRef::Primitive { kind, .. } => kind.spec_variant_name(),
        }
    }

    /// The displayed text.
    pub fn text(&self) -> (r: String)
        ensures
            r@ == self.spec_text(),
    {
        match self {
            TypeRef::Named { name, .. } => name.full(),
            TypeRef::Primitive { kind, .. } => String::from_str(kind.variant_name()),
        }
    }
}

impl Cardinality {
    /// How the cardinality is displayed.
    pub open spec fn spec_text(self) -> Seq<char> {
        match self {
            Cardinality::One { .. } => "one"@,
            Cardinality::Any { .. } => "any"@,
            Cardinality::SomeOf { .. } => "some"@,
            Cardinality::Optional { .. } => "optional"@,
            Cardinality::Exact { value, .. } => nat_text(value as nat),
            Cardinality::Range { min, max, .. } => match max {
                Option::Some(m) => nat_text(min as nat) + ".."@ + nat_text(m as nat),
                Option::None => nat_text(min as nat) + "..*"@,
            },
        }
    }

    /// The displayed text.
    pub fn text(&self) -> (r: String)
        ensures
            r@ == self.spec_text(),
    {
        match self {
            Cardinality::One { .. } => String::from_str("one"),
            Cardinality::Any { .. } => String::from_str("any"),
            Cardinality::SomeOf { .. } => String::from_str("some"),
            Cardinality::Optional { .. } => String::from_str("optional"),
            Cardinality::Exact { value, .. } => usize_to_string(*value),
            Cardinality::Range { min, max, .. } => match max {
                Option::Some(m) => {
                    let a = usize_to_string(*min);
                    let b = usize_to_string(*m);
                    concat3(a.as_str(), "..", b.as_str())
                },
                Option::None => {
                    let a = usize_to_string(*min);
                    concat2(a.as_str(), "..*")
                },
            },
        }
    }
}

impl Literal {
    /// How the literal is displayed; a float shows the decimal text it was
    /// written with, a string is shown quoted and escaped.
    pub open spec fn spec_text(self) -> Seq<char> {
        match self {
            Literal::Int { value, .. } => i64_text(value),
            Literal::Float { value, .. } => value@,
            Literal::String { value, .. } => debug_quoted(value@),
            Literal::Boolean { value, .. } => if value {
                "true"@
            } else {
                "false"@
            },
            Literal::Iri { value, .. } => "<"@ + value@ + ">"@,
            Literal::Temporal { kind, content, .. } => kind.spec_keyword() + "("@ + content@ + ")"@,
            Literal::Quantity { content, .. } => "quantity("@ + content@ + ")"@,
        }
    }

    /// The displayed text.
    pub fn text(&self) -> (r: String)
        ensures
            r@ == self.spec_text(),
    {
        match self {
            Literal::Int { value, .. } => string_from_chars(i64_to_chars(*value).as_slice()),
            Literal::Float { value, .. } => value.clone(),
            Literal::String { value, .. } => debug_quote(value.as_str()),
            Literal::Boolean { value, .. } => if *value {
                String::from_str("true")
            } else {
                String::from_str("false")
            },
            Literal::Iri { value, .. } => concat3("<", value.as_str(), ">"),
            Literal::Temporal { kind, content, .. } => {
                let a = concat3(kind.keyword(), "(", content.as_str());
                concat2(a.as_str(), ")")
            },
            Literal::Quantity { content, .. } => concat3("quantity(", content.as_str(), ")"),
        }
    }
}

impl BinaryOp {
    pub open spec fn spec_symbol(self) -> Seq<char> {
        match self {
            BinaryOp::Add => "+"@,
            BinaryOp::Sub => "-"@,
            BinaryOp::Mul => "*"@,
            BinaryOp::Div => "/"@,
        }
    }

    /// The operator's symbol.
    pub fn symbol(&self) -> (r: &'static str)
        ensures
            r@ == self.spec_symbol(),
    {
        match self {
            BinaryOp::Add => "+",
            BinaryOp::Sub => "-",
            BinaryOp::Mul => "*",
            BinaryOp::Div => "/",
        }
    }
}

impl Expr {
    /// How the expression is displayed: operations fully parenthesised.
    pub open spec fn spec_text(self) -> Seq<char>
        decreases self,
    {
        match self {
            Expr::Literal { value, .. } => value.spec_text(),
            Expr::Variable { name, .. } => name@,
            Expr::BinaryOp { op, left, right, .. } => "("@ + left.spec_text() + " "@ + op.spec_symbol()
                + " "@ + right.spec_text() + ")"@,
            Expr::UnaryOp { operand, .. } => "(-"@ + operand.spec_text() + ")"@,
        }
    }

    /// The displayed text.
    pub fn text(&self) -> (r: String)
        ensures
            r@ == self.spec_text(),
        decreases self,
    {
        match self {
            Expr::Literal { value, .. } => value.text(),
            Expr::Variable { name, .. } => name.clone(),
            Expr::BinaryOp { op, left, right, .. } => {
                let l = left.text();
                let r = right.text();
                let a = concat3("(", l.as_str(), " ");
                let b = concat3(a.as_str(), op.symbol(), " ");
                concat3(b.as_str(), r.as_str(), ")")
            },
            Expr::UnaryOp { operand, .. } => {
                let o = operand.text();
                concat3("(-", o.as_str(), ")")
            },
        }
    }
}

/// The identity of a qualified name as equality sees it: the texts of its
/// parts, whether it is prefixed, and its span.
pub open spec fn qn_key(q: QualifiedName) -> (Seq<Seq<char>>, bool, Option<Span>) {
    (texts(q.parts@), q.is_prefixed, q.span)
}

impl QualifiedName {
    /// A copy of the name.
    pub fn copy(&self) -> (r: QualifiedName)
        ensures
            r.parts@ == self.parts@,
            r.is_prefixed == self.is_prefixed,
            r.span == self.span,
    {
        QualifiedName { parts: copy_strings(self.parts.as_slice()), is_prefixed: self.is_prefixed, span: self.span }
    }

    /// Equality of qualified names: same parts, same prefixing, same span.
    pub fn same(&self, other: &QualifiedName) -> (r: bool)
        ensures
            r == (qn_key(*self) == qn_key(*other)),
    {
        if self.is_prefixed != other.is_prefixed || self.parts.len() != other.parts.len() {
            proof {
                assert(texts(self.parts@).len() == self.parts@.len());
                assert(texts(other.parts@).len() == other.parts@.len());
            }
            return false;
        }
        let same_span = match (&self.span, &other.span) {
            (Some(a), Some(b)) => a.start == b.start && a.end == b.end,
            (None, None) => true,
            _ => false,
        };
        if !same_span {
            return false;
        }
        let mut k: usize = 0;
        while k < self.parts.len()
            invariant
                self.parts@.len() == other.parts@.len(),
                0 <= k <= self.parts@.len(),
                forall|j: int| 0 <= j < k ==> self.parts@[j]@ == other.parts@[j]@,
            decreases self.parts@.len() - k,
        {
            if !str_eq(self.parts[k].as_str(), other.parts[k].as_str()) {
                proof {
                    assert(texts(self.parts@)[k as int] != texts(other.parts@)[k as int]);
                }
                return false;
            }
            k = k + 1;
        }
        proof {
            assert(texts(self.parts@) =~= texts(other.parts@));
        }
        true
    }
}

impl IriNameValue {
    /// A copy of the value.
    pub fn copy(&self) -> (r: IriNameValue)
        ensures
            r == *self,
    {
        match self {
            IriNameValue::AbsoluteUri(s) => IriNameValue::AbsoluteUri(s.clone()),
            IriNameValue::LocalSegment(s) => IriNameValue::LocalSegment(s.clone()),
        }
    }
}

} // verus!
