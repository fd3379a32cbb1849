use deps_order::graph::DeclaredDependency;
use deps_order::order::collect_dev_dependency_names;

fn decl(name: &str, development: bool) -> DeclaredDependency {
    DeclaredDependency {
        name: name.to_string(),
        development,
    }
}

#[test]
fn collects_development_names_once() {
    let declared = vec![
        decl("serde", true),
        decl("clap", false),
        decl("serde", true),
        decl("proptest", true),
    ];
    let names = collect_dev_dependency_names(&declared);
    assert_eq!(names, vec!["serde".to_string(), "proptest".to_string()]);
}

#[test]
fn no_declarations_no_names() {
    let names = collect_dev_dependency_names(&Vec::new());
    assert!(names.is_empty());
}

#[test]
fn only_development_kind_is_collected() {
    let declared = vec![decl("anyhow", false), decl("clap", false)];
    let names = collect_dev_dependency_names(&declared);
    assert!(names.is_empty());
}
