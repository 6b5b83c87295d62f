use rowl::ast::{OntologyFile, PackageFile, PrefixDecl, QualifiedName};
use rowl::comment::Comment;
use rowl::error::{Location, Span};
use rowl::package::{check_package, load_package_from_parsed, PackageError, ParsedSource};

fn qn(parts: &[&str]) -> QualifiedName {
    QualifiedName::new(parts.iter().map(|p| p.to_string()).collect(), None)
}

fn manifest() -> PackageFile {
    PackageFile {
        name: qn(&["com", "example"]),
        dolfin_version: "0.1".to_string(),
        version: "1.0.0".to_string(),
        author: None,
        description: None,
        span: None,
    }
}

fn ontology(prefixes: Vec<PrefixDecl>) -> OntologyFile {
    OntologyFile {
        iri_name: None,
        prefixes,
        declarations: vec![],
        locale: None,
        timezone: None,
        span: None,
    }
}

fn source(path: &str, o: OntologyFile) -> ParsedSource {
    (path.to_string(), o, Vec::<Comment>::new())
}

#[test]
fn load_from_parsed_skips_manifest_and_other_files() {
    let sources = vec![
        source("package.dlf", ontology(vec![])),
        source("README.md", ontology(vec![])),
        source("./animals//Dog.dlf", ontology(vec![])),
    ];
    let p = load_package_from_parsed(manifest(), sources).unwrap();
    assert_eq!(p.root, ".");
    assert_eq!(p.ontologies.len(), 1);
    let (ns, o) = &p.ontologies[0];
    assert_eq!(ns.full(), "com.example.animals.dog");
    assert_eq!(o.namespace.full(), "com.example.animals.dog");
    assert_eq!(o.relative_path, "animals/Dog.dlf");
    assert_eq!(o.absolute_path, "animals/Dog.dlf");
    assert_eq!(p.namespace().full(), "com.example");
    assert_eq!(p.version(), "1.0.0");
}

#[test]
fn load_from_parsed_skips_nested_manifests() {
    let sources = vec![
        source("package.dlf", ontology(vec![])),
        source("main.dlf", ontology(vec![])),
        source("sub/package.dlf", ontology(vec![])),
    ];
    let p = load_package_from_parsed(manifest(), sources).unwrap();
    assert_eq!(p.ontologies.len(), 1);
    assert_eq!(p.ontologies[0].0.full(), "com.example.main");
}

#[test]
fn load_from_parsed_rejects_invalid_path() {
    let sources = vec![source("ok.dlf", ontology(vec![])), source("9lives.dlf", ontology(vec![]))];
    match load_package_from_parsed(manifest(), sources) {
        Err(PackageError::InvalidStructure(m)) => assert!(m.contains("9lives")),
        other => panic!("expected an invalid structure, got {:?}", other.map(|p| p.ontologies.len())),
    }
}

#[test]
fn load_from_parsed_rejects_duplicate_namespace() {
    let sources = vec![source("a.dlf", ontology(vec![])), source("./A.dlf", ontology(vec![]))];
    match load_package_from_parsed(manifest(), sources) {
        Err(PackageError::DuplicateDefinition { name, path1, path2 }) => {
            assert_eq!(name, "com.example.a");
            assert_eq!(path1, "a.dlf");
            assert_eq!(path2, "A.dlf");
        }
        other => panic!("expected a duplicate, got {:?}", other.map(|p| p.ontologies.len())),
    }
}

#[test]
fn load_from_parsed_resolves_prefixes() {
    let common = ontology(vec![]);
    let user = ontology(vec![PrefixDecl::new(qn(&["common"]), "c".to_string(), None)]);
    let sources = vec![source("common.dlf", common), source("hr/employee.dlf", user)];
    let p = load_package_from_parsed(manifest(), sources).unwrap();
    let (_, o) = &p.ontologies[1];
    assert_eq!(o.resolved_prefixes.get("c").unwrap().full(), "com.example.common");
}

#[test]
fn load_from_parsed_reports_unresolved_prefix() {
    let user = ontology(vec![PrefixDecl::new(qn(&["nowhere"]), "n".to_string(), None)]);
    match load_package_from_parsed(manifest(), vec![source("user.dlf", user)]) {
        Err(PackageError::UnresolvedPrefix { prefix, path }) => {
            assert_eq!(prefix, "nowhere");
            assert_eq!(path, "user.dlf");
        }
        other => panic!("expected an unresolved prefix, got {:?}", other.map(|p| p.ontologies.len())),
    }
}

#[test]
fn check_package_warns_about_empty_ontologies() {
    let p = load_package_from_parsed(manifest(), vec![source("animals/Dog.dlf", ontology(vec![]))]).unwrap();
    let warnings = check_package(&p);
    assert_eq!(
        warnings,
        vec!["Ontology 'com.example.animals.dog' (animals/Dog.dlf) has no declarations".to_string()]
    );
}

#[test]
fn comments_without_nodes_are_dangling() {
    let c = Comment {
        text: "hello".to_string(),
        raw: "# hello\n".to_string(),
        span: Span::new(Location::new(1, 1, 0), Location::new(1, 8, 7)),
        line: 1,
        column: 1,
    };
    let o = ontology(vec![]);
    let m = rowl::comment::CommentMap::build(&o, vec![c]);
    let all = Span::new(Location::new(1, 1, 0), Location::new(9, 1, 100));
    let d = m.dangling_comments(&all);
    assert_eq!(d.len(), 1);
    assert_eq!(d[0].text, "hello");
    assert!(m.leading_comments(&all).is_empty());
}

use rowl::ast::{ConceptDef, Declaration, OneOfVariant};
use rowl::error::SpannedString;

fn concept(name: &str, enumerated: bool) -> Declaration {
    Declaration::Concept(ConceptDef {
        name: SpannedString::new(name.to_string(), None),
        parents: vec![],
        has_declarations: vec![],
        one_of: if enumerated {
            Some(vec![OneOfVariant { name: "Red".to_string(), constraints: None, span: None }])
        } else {
            None
        },
        iri_name: None,
        span: None,
    })
}

#[test]
fn package_queries() {
    let mut animals = ontology(vec![]);
    animals.declarations = vec![concept("Dog", false), concept("Color", true)];
    let sources = vec![source("animals.dlf", animals), source("empty.dlf", ontology(vec![]))];
    let p = load_package_from_parsed(manifest(), sources).unwrap();
    assert_eq!(p.dolfin_version(), "0.1");
    assert_eq!(p.iter_ontologies().len(), 2);
    let concepts = p.all_concepts();
    assert_eq!(concepts.len(), 2);
    assert_eq!(concepts[0].0.full(), "com.example.animals");
    assert_eq!(concepts[0].1.name.get(), "Dog");
    let enums = p.all_enums();
    assert_eq!(enums.len(), 1);
    assert_eq!(enums[0].1.name.get(), "Color");
    assert!(p.all_properties().is_empty());
    assert!(p.all_rules().is_empty());
    let o = p.get_ontology(&qn(&["com", "example", "animals"])).unwrap();
    assert_eq!(o.relative_path, "animals.dlf");
    assert_eq!(o.iri_segment(), "animals");
    assert!(p.get_ontology(&qn(&["com", "example", "plants"])).is_none());
    let t = p.concept_file_target(&qn(&["com", "example", "animals"]), &qn(&["empty", "Thing"]));
    assert_eq!(t.relative_path, Some("empty.dlf".to_string()));
    assert!(t.exists);
    assert_eq!(check_package(&p), vec!["Ontology 'com.example.empty' (empty.dlf) has no declarations".to_string()]);
}
