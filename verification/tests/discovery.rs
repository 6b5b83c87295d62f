use rowl::package::discovery::{is_valid_namespace_part, path_to_namespace};

#[test]
fn test_path_to_namespace() {
    let ns = path_to_namespace("animal.dlf").unwrap();
    assert_eq!(ns.full(), "animal");

    let ns = path_to_namespace("science/biology/Animal.dlf").unwrap();
    assert_eq!(ns.full(), "science.biology.animal");

    let ns = path_to_namespace("hr/Employee.dlf").unwrap();
    assert_eq!(ns.full(), "hr.employee");
}

#[test]
fn test_invalid_namespace() {
    // Non-ASCII should fail
    assert!(path_to_namespace("animé.dlf").is_err());

    // Starting with number should fail
    assert!(path_to_namespace("123abc.dlf").is_err());
}

#[test]
fn test_valid_namespace_part() {
    assert!(is_valid_namespace_part("animal"));
    assert!(is_valid_namespace_part("Animal"));
    assert!(is_valid_namespace_part("my_concept"));
    assert!(is_valid_namespace_part("Thing2"));

    assert!(!is_valid_namespace_part(""));
    assert!(!is_valid_namespace_part("123"));
    assert!(!is_valid_namespace_part("my-concept"));
    assert!(!is_valid_namespace_part("animé"));
}

use rowl::package::discovery::{discovered_file, sort_discovered, DiscoveredFile};
use rowl::package::PackageError;

fn found(relative: &str) -> DiscoveredFile {
    discovered_file(relative, &format!("/pkg/{}", relative)).unwrap().unwrap()
}

#[test]
fn discovered_ontology_file() {
    let f = found("animals/Dog.dlf");
    assert_eq!(f.relative_path, "animals/Dog.dlf");
    assert_eq!(f.absolute_path, "/pkg/animals/Dog.dlf");
    assert_eq!(f.derived_namespace.full(), "animals.dog");
}

#[test]
fn discovered_skips_other_files() {
    assert!(discovered_file("package.dlf", "/pkg/package.dlf").unwrap().is_none());
    assert!(discovered_file("sub/package.dlf", "/pkg/sub/package.dlf").unwrap().is_none());
    assert!(discovered_file("README.md", "/pkg/README.md").unwrap().is_none());
    assert!(discovered_file(".dlf", "/pkg/.dlf").unwrap().is_none());
    assert!(discovered_file("notes.dlfx", "/pkg/notes.dlfx").unwrap().is_none());
}

#[test]
fn discovered_rejects_invalid_namespace() {
    match discovered_file("bad-name/x.dlf", "/pkg/bad-name/x.dlf") {
        Err(PackageError::InvalidStructure(m)) => assert!(m.contains("bad-name")),
        _ => panic!("expected an invalid structure"),
    }
}

#[test]
fn sorted_by_components() {
    let files = vec![found("b.dlf"), found("a.dlf"), found("a/b.dlf"), found("A.dlf")];
    let sorted = sort_discovered(files);
    let paths: Vec<&str> = sorted.iter().map(|f| f.relative_path.as_str()).collect();
    assert_eq!(paths, vec!["A.dlf", "a/b.dlf", "a.dlf", "b.dlf"]);
}
