use rowl::ast::{
    BinaryOp, Cardinality, ComparisonOp, Expr, Literal, PrimitiveKind, QualifiedName, TemporalKind,
    TypeRef, UnaryOp,
};
use rowl::ast::QualifiedName as Qn;

fn qn(parts: &[&str]) -> QualifiedName {
    Qn::new(parts.iter().map(|p| p.to_string()).collect(), None)
}

fn lit(v: Literal) -> Box<Expr> {
    Box::new(Expr::Literal { value: v, span: None })
}

#[test]
fn literal_texts() {
    assert_eq!(Literal::Int { value: -42, span: None }.text(), "-42");
    assert_eq!(Literal::Float { value: "45.0".to_string(), span: None }.text(), "45.0");
    assert_eq!(Literal::String { value: "a\"b\n".to_string(), span: None }.text(), "\"a\\\"b\\n\"");
    assert_eq!(Literal::Boolean { value: true, span: None }.text(), "true");
    assert_eq!(Literal::Iri { value: "http://x/".to_string(), span: None }.text(), "<http://x/>");
    assert_eq!(
        Literal::Temporal { kind: TemporalKind::DateTime, content: "June 1st".to_string(), span: None }.text(),
        "date_time(June 1st)"
    );
    assert_eq!(Literal::Quantity { content: "42 km".to_string(), span: None }.text(), "quantity(42 km)");
}

#[test]
fn expression_text() {
    let e = Expr::BinaryOp {
        op: BinaryOp::Mul,
        left: Box::new(Expr::Variable { name: "?x".to_string(), span: None }),
        right: Box::new(Expr::UnaryOp {
            op: UnaryOp::Neg,
            operand: lit(Literal::Int { value: 2, span: None }),
            span: None,
        }),
        span: None,
    };
    assert_eq!(e.text(), "(?x * (-2))");
}

#[test]
fn type_and_cardinality_texts() {
    assert_eq!(TypeRef::Named { name: qn(&["ex", "Person"]), span: None }.text(), "ex.Person");
    assert_eq!(TypeRef::Primitive { kind: PrimitiveKind::DateTime, span: None }.text(), "DateTime");
    assert_eq!(Cardinality::Optional { span: None }.text(), "optional");
    assert_eq!(Cardinality::Exact { value: 3, span: None }.text(), "3");
    assert_eq!(Cardinality::Range { min: 1, max: Some(4), span: None }.text(), "1..4");
    assert_eq!(Cardinality::Range { min: 2, max: None, span: None }.text(), "2..*");
    assert_eq!(ComparisonOp::LessEqual.symbol(), "<=");
    assert_eq!(PrimitiveKind::Boolean.keyword(), "boolean");
}

#[test]
fn qualified_name_parts() {
    let q = qn(&["com", "example", "Animal"]);
    assert_eq!(q.full(), "com.example.Animal");
    assert_eq!(q.full_slashed(), "com/example/Animal");
    assert_eq!(q.last(), "Animal");
    assert_eq!(q.prefix(), Some("com.example".to_string()));
    assert_eq!(q.prefix_as_qn().unwrap().full(), "com.example");
    assert_eq!(qn(&["Animal"]).prefix(), None);
    let joined = qn(&["com"]).join(&qn(&["example", "x"]));
    assert_eq!(joined.full(), "com.example.x");
    assert_eq!(q.strip_prefix(&qn(&["com", "example"])).full(), "Animal");
    let p = Qn::new_prefixed("ex".to_string(), "Thing".to_string(), None);
    assert!(p.is_prefixed);
    assert_eq!(p.parts, vec!["ex".to_string(), "Thing".to_string()]);
}
