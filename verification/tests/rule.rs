use smake::ErrStr;
use smake::File;
use smake::Rule;

fn s(x: &str) -> String {
    x.to_string()
}

fn strings(xs: &[&str]) -> Vec<String> {
    xs.iter().map(|x| x.to_string()).collect()
}

#[test]
fn rule_new_keeps_its_parts() {
    let r = Rule::new(
        strings(&["cc -c hello.c"]),
        vec![(s("hello.c"), 100)],
        vec![(s("hello.o"), None)],
    );
    assert_eq!(r.cmds, strings(&["cc -c hello.c"]));
    assert_eq!(r.inps, vec![(s("hello.c"), 100)]);
    assert_eq!(r.outs, vec![(s("hello.o"), None)]);
}

#[test]
fn rule_without_inputs_needs_update() {
    let r = Rule::new(vec![], vec![], vec![(s("out"), Some(100))]);
    assert!(r.needs_update());
}

#[test]
fn rule_with_missing_output_needs_update() {
    let r = Rule::new(vec![], vec![(s("in"), 100)], vec![(s("out"), None)]);
    assert!(r.needs_update());
}

#[test]
fn rule_with_stale_output_needs_update() {
    let r = Rule::new(
        vec![],
        vec![(s("old"), 50), (s("new"), 200)],
        vec![(s("out"), Some(100))],
    );
    assert!(r.needs_update());
}

#[test]
fn fresh_rule_needs_no_update() {
    // Outputs at or after the newest input: ties do not count as stale.
    let r = Rule::new(
        vec![],
        vec![(s("a"), 100), (s("b"), 80)],
        vec![(s("out1"), Some(100)), (s("out2"), Some(150))],
    );
    assert!(!r.needs_update());
}

#[test]
fn update_reqs_reports_each_output() {
    let r = Rule::new(
        vec![],
        vec![(s("old"), 50), (s("new"), 200)],
        vec![(s("missing"), None), (s("stale"), Some(100)), (s("fresh"), Some(300))],
    );
    let reqs = r.update_reqs();
    assert_eq!(reqs.len(), 3);

    assert_eq!(reqs[0].path, s("missing"));
    assert_eq!(reqs[0].time, None);
    assert_eq!(reqs[0].inps, None);
    assert!(reqs[0].needs_update());

    assert_eq!(reqs[1].path, s("stale"));
    assert_eq!(reqs[1].time, Some(100));
    assert_eq!(reqs[1].inps, Some(strings(&["new"])));
    assert!(reqs[1].needs_update());

    assert_eq!(reqs[2].path, s("fresh"));
    assert_eq!(reqs[2].time, Some(300));
    assert_eq!(reqs[2].inps, Some(Vec::new()));
    // The record was taken, so by its own reading this output reports an
    // update requirement even though no input is newer.
    assert!(reqs[2].needs_update());
}

#[test]
fn file_get_finds_rules_by_name() {
    let compile = Rule::new(strings(&["cc"]), vec![(s("main.c"), 10)], vec![(s("main.o"), None)]);
    let link = Rule::new(strings(&["ld"]), vec![(s("main.o"), 20)], vec![(s("app"), None)]);
    let file = File { rules: vec![(s("compile"), compile), (s("link"), link)] };
    assert_eq!(file.get(&s("compile")).unwrap().cmds, strings(&["cc"]));
    assert_eq!(file.get(&s("link")).unwrap().cmds, strings(&["ld"]));
    assert!(file.get(&s("clean")).is_none());
}

#[test]
fn errstr_wraps_its_payload() {
    let e: ErrStr<String> = ErrStr::new(s("boom"));
    match e {
        ErrStr::Data { data } => assert_eq!(data, s("boom")),
    }
    let r: Result<u32, ErrStr<String>> = ErrStr::result(s("bad"));
    match r {
        Err(ErrStr::Data { data }) => assert_eq!(data, s("bad")),
        Ok(_) => panic!("expected an error"),
    }
}
