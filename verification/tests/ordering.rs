use deps_order::graph::DependencyGraph;
use deps_order::graph::GraphNode;
use deps_order::graph::PackageRecord;
use deps_order::order::list_dependencies;
use deps_order::order::order;
use deps_order::order::resolve;

fn s(x: &str) -> String {
    x.to_string()
}

fn node(id: &str, deps: &[&str]) -> GraphNode {
    GraphNode {
        id: s(id),
        deps: deps.iter().map(|d| s(d)).collect(),
    }
}

fn pkg(id: &str, name: &str, version: &str, path: &str) -> PackageRecord {
    PackageRecord {
        id: s(id),
        name: s(name),
        version: s(version),
        path: s(path),
    }
}

fn no_dev() -> Vec<String> {
    Vec::new()
}

#[test]
fn chain_is_leaf_first() {
    let g = DependencyGraph {
        nodes: vec![node("A", &["B"]), node("B", &["C"]), node("C", &[])],
        packages: vec![
            pkg("A", "a", "1.0.0", "/a"),
            pkg("B", "b", "1.0.0", "/b"),
            pkg("C", "c", "1.0.0", "/c"),
        ],
        workspace_member_ids: Vec::new(),
    };
    let out = order(&g, &no_dev(), false);
    assert_eq!(out, vec![s("C"), s("B"), s("A")]);
}

#[test]
fn independent_leaves_in_edge_order() {
    let g = DependencyGraph {
        nodes: vec![node("A", &["B", "C"]), node("B", &[]), node("C", &[])],
        packages: vec![
            pkg("A", "a", "1.0.0", "/a"),
            pkg("B", "b", "1.0.0", "/b"),
            pkg("C", "c", "1.0.0", "/c"),
        ],
        workspace_member_ids: Vec::new(),
    };
    let out = order(&g, &no_dev(), false);
    assert_eq!(out, vec![s("B"), s("C"), s("A")]);
}

#[test]
fn workspace_only_excludes_externals() {
    let g = DependencyGraph {
        nodes: vec![node("B", &[]), node("A", &["C"]), node("C", &[])],
        packages: vec![
            pkg("B", "b", "1.0.0", "/b"),
            pkg("A", "a", "1.0.0", "/a"),
            pkg("C", "c", "1.0.0", "/c"),
        ],
        workspace_member_ids: vec![s("A"), s("B")],
    };
    let out = order(&g, &no_dev(), true);
    assert_eq!(out, vec![s("B"), s("A")]);
    assert!(!out.contains(&s("C")));
}

#[test]
fn dev_dependency_excluded_as_root_but_reachable() {
    let g = DependencyGraph {
        nodes: vec![node("A", &["D"]), node("D", &[])],
        packages: vec![pkg("A", "a", "1.0.0", "/a"), pkg("D", "d", "2.0.0", "/d")],
        workspace_member_ids: Vec::new(),
    };
    let dev = vec![s("d")];
    let out = order(&g, &dev, false);
    assert_eq!(out, vec![s("D"), s("A")]);
}

#[test]
fn dev_dependency_unreachable_is_absent() {
    let g = DependencyGraph {
        nodes: vec![node("A", &[]), node("D", &[])],
        packages: vec![pkg("A", "a", "1.0.0", "/a"), pkg("D", "d", "2.0.0", "/d")],
        workspace_member_ids: Vec::new(),
    };
    let dev = vec![s("d")];
    let out = order(&g, &dev, false);
    assert_eq!(out, vec![s("A")]);
}

#[test]
fn ordering_is_idempotent() {
    let g = DependencyGraph {
        nodes: vec![
            node("A", &["B", "C"]),
            node("B", &["D"]),
            node("C", &["D"]),
            node("D", &[]),
        ],
        packages: vec![
            pkg("A", "a", "1.0.0", "/a"),
            pkg("B", "b", "1.0.0", "/b"),
            pkg("C", "c", "1.0.0", "/c"),
            pkg("D", "d", "1.0.0", "/d"),
        ],
        workspace_member_ids: Vec::new(),
    };
    let first = order(&g, &no_dev(), false);
    let second = order(&g, &no_dev(), false);
    assert_eq!(first, second);
}

#[test]
fn diamond_emits_each_identifier_once() {
    let g = DependencyGraph {
        nodes: vec![
            node("A", &["B", "C"]),
            node("B", &["D"]),
            node("C", &["D"]),
            node("D", &[]),
        ],
        packages: vec![
            pkg("A", "a", "1.0.0", "/a"),
            pkg("B", "b", "1.0.0", "/b"),
            pkg("C", "c", "1.0.0", "/c"),
            pkg("D", "d", "1.0.0", "/d"),
        ],
        workspace_member_ids: Vec::new(),
    };
    let out = order(&g, &no_dev(), false);
    assert_eq!(out, vec![s("D"), s("B"), s("C"), s("A")]);
}

#[test]
fn missing_edge_target_is_skipped() {
    let g = DependencyGraph {
        nodes: vec![node("A", &["X"])],
        packages: vec![pkg("A", "a", "1.0.0", "/a")],
        workspace_member_ids: Vec::new(),
    };
    let out = order(&g, &no_dev(), false);
    assert_eq!(out, vec![s("A")]);
}

#[test]
fn unresolvable_identifier_dropped_from_records() {
    // M is a workspace member with a node but no package record: it is
    // emitted by the traversal and dropped during resolution.
    let g = DependencyGraph {
        nodes: vec![node("A", &["M"]), node("M", &[])],
        packages: vec![pkg("A", "a", "1.0.0", "/a")],
        workspace_member_ids: vec![s("A"), s("M")],
    };
    let out = order(&g, &no_dev(), true);
    assert_eq!(out, vec![s("M"), s("A")]);
    let deps = list_dependencies(&g, &no_dev(), true);
    let names: Vec<String> = deps.iter().map(|d| d.name.clone()).collect();
    assert_eq!(names, vec![s("a")]);
}

#[test]
fn resolve_applies_workspace_filter() {
    let g = DependencyGraph {
        nodes: vec![node("C", &[])],
        packages: vec![pkg("C", "c", "1.0.0", "/c")],
        workspace_member_ids: Vec::new(),
    };
    let deps = resolve(&g, &vec![s("C")], true);
    assert!(deps.is_empty());
    let deps_all = resolve(&g, &vec![s("C")], false);
    assert_eq!(deps_all.len(), 1);
    assert_eq!(deps_all[0].name, s("c"));
}

#[test]
fn shared_dependency_of_two_roots_emitted_once() {
    let g = DependencyGraph {
        nodes: vec![node("A", &["C"]), node("B", &["C"]), node("C", &[])],
        packages: vec![
            pkg("A", "a", "1.0.0", "/a"),
            pkg("B", "b", "1.0.0", "/b"),
            pkg("C", "c", "1.0.0", "/c"),
        ],
        workspace_member_ids: Vec::new(),
    };
    let out = order(&g, &no_dev(), false);
    assert_eq!(out, vec![s("C"), s("A"), s("B")]);
}

#[test]
fn package_without_node_is_not_a_root() {
    let g = DependencyGraph {
        nodes: vec![node("A", &[])],
        packages: vec![pkg("A", "a", "1.0.0", "/a"), pkg("X", "x", "1.0.0", "/x")],
        workspace_member_ids: Vec::new(),
    };
    let out = order(&g, &no_dev(), false);
    assert_eq!(out, vec![s("A")]);
}

#[test]
fn records_carry_name_version_and_path() {
    let g = DependencyGraph {
        nodes: vec![node("A", &["B"]), node("B", &["C"]), node("C", &[])],
        packages: vec![
            pkg("A", "alpha", "1.0.0", "/w/alpha"),
            pkg("B", "beta", "2.1.0", "/w/beta"),
            pkg("C", "gamma", "0.3.7", "/w/gamma"),
        ],
        workspace_member_ids: Vec::new(),
    };
    let deps = list_dependencies(&g, &no_dev(), false);
    let names: Vec<String> = deps.iter().map(|d| d.name.clone()).collect();
    assert_eq!(names, vec![s("gamma"), s("beta"), s("alpha")]);
    assert_eq!(deps[0].version, s("0.3.7"));
    assert_eq!(deps[0].path, s("/w/gamma"));
    assert_eq!(deps[2].version, s("1.0.0"));
    assert_eq!(deps[2].path, s("/w/alpha"));
}
