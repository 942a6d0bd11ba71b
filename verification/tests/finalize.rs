use smake::FinalizeError;
use smake::MixedDeps;
use smake::Target;
use smake::TargetExtra;

fn s(x: &str) -> String {
    x.to_string()
}

fn strings(xs: &[&str]) -> Vec<String> {
    xs.iter().map(|x| x.to_string()).collect()
}

fn mixed(name: &str, outputs: &[&str], deps: &[&str], commands: &[&str]) -> Target {
    Target::new(
        s(name),
        strings(outputs),
        MixedDeps::Mixed(strings(deps)),
        strings(commands),
        TargetExtra::Plain,
    )
}

fn unmixed(name: &str, outputs: &[&str], inputs: &[&str], deps: &[&str]) -> Target {
    Target::new(
        s(name),
        strings(outputs),
        MixedDeps::UnMixed { inputs: strings(inputs), dependencies: strings(deps) },
        vec![],
        TargetExtra::Plain,
    )
}

#[test]
fn finalize_simple_chain() {
    let t1 = mixed("t1", &["a.out"], &["a.txt"], &["cc a.txt"]);
    let t2 = mixed("t2", &["b.out"], &["t1", "b.txt"], &["cc b.txt"]);
    let map = Target::finalize_list(vec![t1, t2]).unwrap();
    assert_eq!(map.len(), 2);
    let f2 = map.get(&s("t2")).unwrap();
    assert_eq!(f2.dependencies().clone(), strings(&["t1"]));
    assert_eq!(f2.inputs().clone(), strings(&["b.txt"]));
    let f1 = map.get(&s("t1")).unwrap();
    assert_eq!(f1.dependencies().len(), 0);
    assert_eq!(f1.inputs().clone(), strings(&["a.txt"]));
    assert!(map.get(&s("t3")).is_none());
}

#[test]
fn finalize_alias_resolves_to_canonical_name() {
    let lib = Target::new(
        s("libfoo"),
        strings(&["foo.a"]),
        MixedDeps::Mixed(strings(&["foo.c"])),
        strings(&["cc foo.c"]),
        TargetExtra::Aliases(strings(&["foo.a"])),
    );
    let app = mixed("app", &["app.bin"], &["foo.a", "main.c"], &["ld"]);
    let map = Target::finalize_list(vec![lib, app]).unwrap();
    let fa = map.get(&s("app")).unwrap();
    // The alias "foo.a" refers to libfoo, so it becomes a dependency under
    // the canonical name; "main.c" matches no target and is an input.
    assert_eq!(fa.dependencies().clone(), strings(&["libfoo"]));
    assert_eq!(fa.inputs().clone(), strings(&["main.c"]));
}

#[test]
fn finalize_duplicate_name_fails() {
    let a = mixed("x", &["one"], &[], &[]);
    let b = mixed("x", &["two"], &[], &[]);
    match Target::finalize_list(vec![a, b]) {
        Err(FinalizeError::DuplicateName { name }) => assert_eq!(name, s("x")),
        _ => panic!("expected a duplicate-name error"),
    }
}

#[test]
fn finalize_self_cycle_fails() {
    let x = mixed("x", &[], &["x"], &[]);
    match Target::finalize_list(vec![x]) {
        Err(FinalizeError::Cycle { name }) => assert_eq!(name, s("x")),
        _ => panic!("expected a cycle error"),
    }
}

#[test]
fn finalize_two_cycle_fails() {
    let a = mixed("a", &[], &["b"], &[]);
    let b = mixed("b", &[], &["a"], &[]);
    match Target::finalize_list(vec![a, b]) {
        Err(FinalizeError::Cycle { name }) => assert!(name == s("a") || name == s("b")),
        _ => panic!("expected a cycle error"),
    }
}

#[test]
fn finalize_unresolved_dependency_fails() {
    let t = unmixed("t", &["t.out"], &["t.c"], &["absent_dep"]);
    match Target::finalize_list(vec![t]) {
        Err(FinalizeError::UnresolvedDependency { name }) => assert_eq!(name, s("absent_dep")),
        _ => panic!("expected an unresolved-dependency error"),
    }
}

#[test]
fn finalize_empty_list() {
    let map = Target::finalize_list(vec![]).unwrap();
    assert_eq!(map.len(), 0);
}

#[test]
fn split_partitions_mixed_entries_in_order() {
    let known = mixed("known", &[], &[], &[]);
    let nodes = vec![known];
    let list = MixedDeps::Mixed(strings(&["in1", "known", "in2"]));
    let (inputs, deps) = list.split(&nodes).unwrap();
    assert_eq!(inputs, strings(&["in1", "in2"]));
    assert_eq!(deps, strings(&["known"]));
}

#[test]
fn split_unmixed_keeps_inputs_and_reports_missing_deps() {
    let known = mixed("known", &[], &[], &[]);
    let nodes = vec![known];
    let ok = MixedDeps::UnMixed {
        inputs: strings(&["a", "b"]),
        dependencies: strings(&["known"]),
    };
    let (inputs, deps) = ok.split(&nodes).unwrap();
    assert_eq!(inputs, strings(&["a", "b"]));
    assert_eq!(deps, strings(&["known"]));

    let bad = MixedDeps::UnMixed { inputs: vec![], dependencies: strings(&["nowhere"]) };
    match bad.split(&nodes) {
        Err(FinalizeError::UnresolvedDependency { name }) => assert_eq!(name, s("nowhere")),
        _ => panic!("expected an unresolved-dependency error"),
    }
}

#[test]
fn has_name_matches_primary_and_aliases() {
    let plain = mixed("only", &[], &[], &[]);
    assert!(plain.has_name(&s("only")));
    assert!(!plain.has_name(&s("other")));
    let aliased = Target::new(
        s("primary"),
        vec![],
        MixedDeps::Mixed(vec![]),
        vec![],
        TargetExtra::Aliases(strings(&["alt1", "alt2"])),
    );
    assert!(aliased.has_name(&s("primary")));
    assert!(aliased.has_name(&s("alt2")));
    assert!(!aliased.has_name(&s("alt3")));
}
