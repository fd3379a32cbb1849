use deps_order::graph::OrderedDependency;
use deps_order::render::render_command;

fn rec(name: &str, version: &str, path: &str) -> OrderedDependency {
    OrderedDependency {
        name: name.to_string(),
        version: version.to_string(),
        path: path.to_string(),
    }
}

#[test]
fn renders_all_three_placeholders() {
    let d = rec("foo", "1.2.3", "/p");
    let r = render_command("echo {} {version} {path}", &d);
    assert_eq!(r, "echo foo 1.2.3 /p".to_string());
}

#[test]
fn template_without_placeholders_is_unchanged() {
    let d = rec("foo", "1.2.3", "/p");
    let r = render_command("cargo publish --dry-run", &d);
    assert_eq!(r, "cargo publish --dry-run".to_string());
}

#[test]
fn empty_template_renders_empty() {
    let d = rec("foo", "1.2.3", "/p");
    let r = render_command("", &d);
    assert_eq!(r, "".to_string());
}

#[test]
fn repeated_placeholder_is_replaced_everywhere() {
    let d = rec("x", "0.1.0", "/q");
    let r = render_command("{} and {} at {path}", &d);
    assert_eq!(r, "x and x at /q".to_string());
}

#[test]
fn literal_braces_around_placeholder() {
    let d = rec("N", "0.1.0", "/q");
    let r = render_command("x{{}}y", &d);
    assert_eq!(r, "x{N}y".to_string());
}

#[test]
fn substitution_is_sequential() {
    // the name is substituted first, so a name that spells a later
    // placeholder is itself substituted afterwards
    let d = rec("{version}", "9", "/q");
    let r = render_command("{}", &d);
    assert_eq!(r, "9".to_string());
}
