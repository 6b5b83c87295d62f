use rowl::ast::QualifiedName;
use rowl::package::resolver::{resolve_concept_file, resolve_single_prefix};
use rowl::package::PrefixMap;

fn qn(parts: &[&str]) -> QualifiedName {
    QualifiedName::new(parts.iter().map(|p| p.to_string()).collect(), None)
}

#[test]
fn test_resolve_single_prefix() {
    let base = qn(&["com", "example"]);

    let index: Vec<(QualifiedName, String)> = vec![
        (qn(&["com", "example", "common"]), "common.dlf".to_string()),
        (qn(&["com", "example", "hr", "employee"]), "hr/employee.dlf".to_string()),
    ];

    let mut local_alias = PrefixMap::new();
    for (ns, _) in &index {
        local_alias.insert(ns.last(), ns.clone());
    }

    // Single name resolution
    let result = resolve_single_prefix(&qn(&["common"]), &base, &index, &local_alias);
    assert_eq!(result.unwrap().full(), "com.example.common");

    // Relative path resolution
    let result = resolve_single_prefix(&qn(&["hr", "employee"]), &base, &index, &local_alias);
    assert_eq!(result.unwrap().full(), "com.example.hr.employee");
}

fn empty_prefixes() -> PrefixMap {
    PrefixMap::new()
}

#[test]
fn concept_file_bare_name_is_current_file() {
    let base = qn(&["com", "example"]);
    let r = qn(&["Animal"]);
    let t = resolve_concept_file(&r, &base, &empty_prefixes(), |_| None);
    assert_eq!(t.relative_path, None);
    assert_eq!(t.concept_name, "Animal");
    assert!(!t.exists);
}

#[test]
fn concept_file_single_prefix_new_file() {
    let base = qn(&["com", "example"]);
    let r = qn(&["biology", "Animal"]);
    let t = resolve_concept_file(&r, &base, &empty_prefixes(), |_| None);
    assert_eq!(t.relative_path, Some("biology.dlf".to_string()));
    assert_eq!(t.concept_name, "Animal");
    assert_eq!(t.namespace.unwrap().full(), "com.example.biology");
    assert!(!t.exists);
}

#[test]
fn concept_file_nested_prefix_new_file() {
    let base = qn(&["com", "example"]);
    let r = qn(&["science", "biology", "Animal"]);
    let t = resolve_concept_file(&r, &base, &empty_prefixes(), |_| None);
    assert_eq!(t.relative_path, Some("science/biology.dlf".to_string()));
    assert_eq!(t.concept_name, "Animal");
    assert!(!t.exists);
}

#[test]
fn concept_file_existing_uses_real_casing() {
    let base = qn(&["com", "example"]);
    let r = qn(&["biology", "Animal"]);
    // File exists on disk with capitalised name.
    let t = resolve_concept_file(&r, &base, &empty_prefixes(), |ns| {
        if ns.full() == "com.example.biology" {
            Some("Biology.dlf".to_string())
        } else {
            None
        }
    });
    assert_eq!(t.relative_path, Some("Biology.dlf".to_string()));
    assert!(t.exists);
}

#[test]
fn concept_file_alias_expands_not_literal() {
    let base = qn(&["com", "example"]);
    let mut prefixes = PrefixMap::new();
    // `bio` aliases the science.biology namespace.
    prefixes.insert("bio".to_string(), qn(&["com", "example", "science", "biology"]));
    // Dotted form `bio.Animal`.
    let r = qn(&["bio", "Animal"]);
    let t = resolve_concept_file(&r, &base, &prefixes, |_| None);
    assert_eq!(t.relative_path, Some("science/biology.dlf".to_string()));
    assert_eq!(t.concept_name, "Animal");

    // Prefixed form `bio:Animal`.
    let r = QualifiedName::new_prefixed("bio".into(), "Animal".into(), None);
    let t = resolve_concept_file(&r, &base, &prefixes, |_| None);
    assert_eq!(t.relative_path, Some("science/biology.dlf".to_string()));
}

#[test]
fn concept_file_new_file_is_lowercased() {
    let base = qn(&["com", "example"]);
    let r = qn(&["Science", "Biology", "Animal"]);
    let t = resolve_concept_file(&r, &base, &empty_prefixes(), |_| None);
    assert_eq!(t.relative_path, Some("science/biology.dlf".to_string()));
    assert_eq!(t.namespace.unwrap().full(), "com.example.science.biology");
    assert_eq!(t.concept_name, "Animal");
}
