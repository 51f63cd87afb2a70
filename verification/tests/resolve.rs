use vex::resolve::{resolve_all, resolve_deps, resolve_step, BuildIndex, ResolveStep};

fn strs(v: &[&str]) -> Vec<String> {
    v.iter().map(|s| s.to_string()).collect()
}

fn build(deps: &[&str]) -> Result<String, String> {
    let mut t = String::from("name {\n\"x\"\n}\ndependencies {\n");
    for d in deps {
        t.push_str(&format!("  \"{}\"\n", d));
    }
    t.push_str("}\n");
    Ok(t)
}

#[test]
fn dependencies_come_first() {
    let mut b = BuildIndex::new();
    b.record("app", build(&["lib", "tool"]));
    b.record("lib", build(&["base"]));
    b.record("tool", build(&["base"]));
    b.record("base", build(&[]));
    let needed = resolve_all(&strs(&["app"]), &b).unwrap();
    assert_eq!(needed, strs(&["base", "lib", "tool", "app"]));
}

#[test]
fn shared_roots_listed_once() {
    let mut b = BuildIndex::new();
    b.record("a", build(&["c"]));
    b.record("b", build(&["c"]));
    b.record("c", build(&[]));
    let needed = resolve_all(&strs(&["a", "b"]), &b).unwrap();
    assert_eq!(needed, strs(&["c", "a", "b"]));
}

#[test]
fn cycle_terminates() {
    let mut b = BuildIndex::new();
    b.record("a", build(&["b"]));
    b.record("b", build(&["a"]));
    let needed = resolve_all(&strs(&["a"]), &b).unwrap();
    assert_eq!(needed, strs(&["b", "a"]));
}

#[test]
fn empty_dependency_names_ignored() {
    let mut b = BuildIndex::new();
    b.record("a", build(&[""]));
    let needed = resolve_all(&strs(&["a"]), &b).unwrap();
    assert_eq!(needed, strs(&["a"]));
}

#[test]
fn failed_fetch_is_the_error() {
    let mut b = BuildIndex::new();
    b.record("a", build(&["b"]));
    b.record("b", Err("tar failed for package 'b'".to_string()));
    assert_eq!(resolve_all(&strs(&["a"]), &b), Err("tar failed for package 'b'".to_string()));
}

#[test]
fn unfetched_package_is_not_found() {
    let mut b = BuildIndex::new();
    b.record("a", build(&["ghost"]));
    assert_eq!(
        resolve_all(&strs(&["a"]), &b),
        Err("package 'ghost' not found in any repo".to_string())
    );
}

#[test]
fn resolve_deps_skips_visited() {
    let mut b = BuildIndex::new();
    b.record("a", build(&[]));
    let mut visited = strs(&["a"]);
    let mut needed = Vec::new();
    assert_eq!(resolve_deps("a", &b, &mut visited, &mut needed), Ok(()));
    assert!(needed.is_empty());
}

#[test]
fn resolve_step_fetches_depth_first_and_stops_at_a_failure() {
    let roots = strs(&["a", "z"]);
    let mut b = BuildIndex::new();
    assert!(matches!(resolve_step(&roots, &b), ResolveStep::Fetch(p) if p == "a"));
    b.record("a", build(&["b", "c"]));
    assert!(matches!(resolve_step(&roots, &b), ResolveStep::Fetch(p) if p == "b"));
    b.record("b", Err("x".to_string()));
    // the walk stops at `b`: neither `c` nor `z` is asked for
    assert!(matches!(resolve_step(&roots, &b), ResolveStep::Failed(e) if e == "x"));
}

#[test]
fn resolve_step_done_gives_build_order() {
    let roots = strs(&["a"]);
    let mut b = BuildIndex::new();
    b.record("a", build(&["b"]));
    assert!(matches!(resolve_step(&roots, &b), ResolveStep::Fetch(p) if p == "b"));
    b.record("b", build(&[]));
    assert!(matches!(resolve_step(&roots, &b), ResolveStep::Done(n) if n == strs(&["b", "a"])));
}

#[test]
fn cycle_appends_the_last_reached_first() {
    let mut b = BuildIndex::new();
    b.record("a", build(&["b"]));
    b.record("b", build(&["a"]));
    let mut visited = Vec::new();
    let mut needed = Vec::new();
    assert_eq!(resolve_deps("a", &b, &mut visited, &mut needed), Ok(()));
    assert_eq!(needed, strs(&["b", "a"]));
    assert_eq!(visited, strs(&["a", "b"]));
}

#[test]
fn failure_keeps_what_was_resolved_before_it() {
    let mut b = BuildIndex::new();
    b.record("a", build(&["b", "c"]));
    b.record("b", build(&[]));
    let mut visited = Vec::new();
    let mut needed = Vec::new();
    assert_eq!(
        resolve_deps("a", &b, &mut visited, &mut needed),
        Err("package 'c' not found in any repo".to_string())
    );
    assert_eq!(needed, strs(&["b"]));
    assert_eq!(visited, strs(&["a", "b", "c"]));
}
