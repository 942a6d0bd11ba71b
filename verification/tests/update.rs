use std::cell::RefCell;
use std::collections::HashMap;

use smake::ExitOutcome;
use smake::MixedDeps;
use smake::StatResult;
use smake::Target;
use smake::TargetExtra;
use smake::TargetMap;
use smake::UpdateError;

fn s(x: &str) -> String {
    x.to_string()
}

fn strings(xs: &[&str]) -> Vec<String> {
    xs.iter().map(|x| x.to_string()).collect()
}

fn target(name: &str, outputs: &[&str], entries: &[&str], commands: &[&str]) -> Target {
    Target::new(
        s(name),
        strings(outputs),
        MixedDeps::Mixed(strings(entries)),
        strings(commands),
        TargetExtra::Plain,
    )
}

/// A little world: file modification times, command effects and a log.
struct World {
    files: RefCell<HashMap<String, u64>>,
    /// command -> (outcome, files it writes), applied at its run time
    effects: HashMap<String, (ExitOutcome, Vec<String>)>,
    log: RefCell<Vec<String>>,
    clock: RefCell<u64>,
}

impl World {
    fn new(files: &[(&str, u64)], effects: &[(&str, ExitOutcome, &[&str])]) -> World {
        World {
            files: RefCell::new(files.iter().map(|(p, t)| (p.to_string(), *t)).collect()),
            effects: effects
                .iter()
                .map(|(c, o, w)| (c.to_string(), (*o, w.iter().map(|p| p.to_string()).collect())))
                .collect(),
            log: RefCell::new(Vec::new()),
            clock: RefCell::new(1000),
        }
    }

    fn stat(&self, p: String) -> StatResult {
        match self.files.borrow().get(&p) {
            Some(t) => StatResult::Present(*t),
            None => StatResult::Absent,
        }
    }

    fn run(&self, c: String) -> ExitOutcome {
        self.log.borrow_mut().push(c.clone());
        let now = {
            let mut clock = self.clock.borrow_mut();
            *clock += 1;
            *clock
        };
        match self.effects.get(&c) {
            Some((outcome, writes)) => {
                for w in writes {
                    self.files.borrow_mut().insert(w.clone(), now);
                }
                *outcome
            },
            None => ExitOutcome::Success,
        }
    }

    fn update(&self, map: &TargetMap, name: &str) -> Result<bool, UpdateError> {
        map.update(&s(name), &|p: String| self.stat(p), &|c: String| self.run(c))
    }

    fn log_snapshot(&self) -> Vec<String> {
        self.log.borrow().clone()
    }

    fn runs_of(&self, c: &str) -> usize {
        self.log.borrow().iter().filter(|x| *x == c).count()
    }
}

#[test]
fn update_builds_missing_output_then_rests() {
    // The target's input exists, its output does not: the first update runs
    // the command; once the output is newer than the input, a second update
    // does nothing.
    let t1 = target("t1", &["a.out"], &["a.txt"], &["build_a"]);
    let map = Target::finalize_list(vec![t1]).unwrap();
    let world = World::new(&[("a.txt", 100)], &[("build_a", ExitOutcome::Success, &["a.out"])]);
    assert_eq!(world.update(&map, "t1"), Ok(true));
    assert_eq!(world.log_snapshot(), strings(&["build_a"]));
    assert_eq!(world.update(&map, "t1"), Ok(false));
    assert_eq!(world.log_snapshot(), strings(&["build_a"]));
}

#[test]
fn update_is_forced_by_updated_dependency() {
    // t2's own output is newer than its input, but its dependency t1 runs, so
    // t2 must run as well.
    let t1 = target("t1", &["a.out"], &["a.txt"], &["build_a"]);
    let t2 = target("t2", &["b.out"], &["t1", "b.txt"], &["build_b"]);
    let map = Target::finalize_list(vec![t1, t2]).unwrap();
    let world = World::new(
        &[("a.txt", 100), ("b.txt", 100), ("b.out", 500)],
        &[
            ("build_a", ExitOutcome::Success, &["a.out"]),
            ("build_b", ExitOutcome::Success, &["b.out"]),
        ],
    );
    assert_eq!(world.update(&map, "t2"), Ok(true));
    assert_eq!(world.log_snapshot(), strings(&["build_a", "build_b"]));
}

#[test]
fn diamond_dependency_runs_base_once() {
    // D depends on B and C, both depending on A. A is visited twice, but its
    // commands run only on the first visit: afterwards its outputs are fresh.
    let a = target("a", &["a.out"], &["a.txt"], &["build_a"]);
    let b = target("b", &["b.out"], &["a", "a.out"], &["build_b"]);
    let c = target("c", &["c.out"], &["a", "a.out"], &["build_c"]);
    let d = target("d", &["d.out"], &["b", "c", "b.out", "c.out"], &["build_d"]);
    let map = Target::finalize_list(vec![a, b, c, d]).unwrap();
    let world = World::new(
        &[("a.txt", 100)],
        &[
            ("build_a", ExitOutcome::Success, &["a.out"]),
            ("build_b", ExitOutcome::Success, &["b.out"]),
            ("build_c", ExitOutcome::Success, &["c.out"]),
            ("build_d", ExitOutcome::Success, &["d.out"]),
        ],
    );
    assert_eq!(world.update(&map, "d"), Ok(true));
    assert_eq!(world.runs_of("build_a"), 1);
    assert_eq!(world.runs_of("build_b"), 1);
    assert_eq!(world.runs_of("build_c"), 1);
    assert_eq!(world.runs_of("build_d"), 1);
    // And the whole build is idempotent on the unchanged filesystem.
    assert_eq!(world.update(&map, "d"), Ok(false));
    assert_eq!(world.runs_of("build_a"), 1);
    assert_eq!(world.runs_of("build_d"), 1);
}

#[test]
fn failing_command_stops_the_update() {
    // Under a forced update, an always-failing command surfaces its status
    // and no later command of the target runs.
    let t = target("t", &["out"], &["in"], &["false", "later"]);
    let map = Target::finalize_list(vec![t]).unwrap();
    let world = World::new(&[("in", 100)], &[("false", ExitOutcome::NonZero(1), &[])]);
    assert_eq!(world.update(&map, "t"), Err(UpdateError::NonZeroExit { status: 1 }));
    assert_eq!(world.log_snapshot(), strings(&["false"]));
}

#[test]
fn signaled_command_stops_the_update() {
    let t = target("t", &["out"], &["in"], &["crash", "later"]);
    let map = Target::finalize_list(vec![t]).unwrap();
    let world = World::new(&[("in", 100)], &[("crash", ExitOutcome::Signaled, &[])]);
    assert_eq!(world.update(&map, "t"), Err(UpdateError::Signaled));
    assert_eq!(world.log_snapshot(), strings(&["crash"]));
}

#[test]
fn target_without_inputs_always_runs() {
    let t = target("t", &["out"], &[], &["gen"]);
    let map = Target::finalize_list(vec![t]).unwrap();
    let world = World::new(&[("out", 100)], &[("gen", ExitOutcome::Success, &["out"])]);
    assert_eq!(world.update(&map, "t"), Ok(true));
    assert_eq!(world.update(&map, "t"), Ok(true));
    assert_eq!(world.runs_of("gen"), 2);
}

#[test]
fn target_without_outputs_rests_unless_forced() {
    // With inputs present and nothing to compare them against, the target is
    // not stale; but a rebuilt dependency still forces its commands.
    let base = target("base", &["base.out"], &["base.txt"], &["build_base"]);
    let top = target("top", &[], &["base", "top.txt"], &["run_top"]);
    let map = Target::finalize_list(vec![base, top]).unwrap();
    let fresh = World::new(&[("base.txt", 100), ("base.out", 200), ("top.txt", 100)], &[]);
    assert_eq!(fresh.update(&map, "top"), Ok(false));
    assert_eq!(fresh.log_snapshot(), Vec::<String>::new());
    let stale = World::new(
        &[("base.txt", 100), ("top.txt", 100)],
        &[("build_base", ExitOutcome::Success, &["base.out"])],
    );
    assert_eq!(stale.update(&map, "top"), Ok(true));
    assert_eq!(stale.log_snapshot(), strings(&["build_base", "run_top"]));
}

#[test]
fn equal_times_need_no_update() {
    // An output modified at exactly the newest input time is not stale.
    let t = target("t", &["out"], &["in"], &["build"]);
    let map = Target::finalize_list(vec![t]).unwrap();
    let world = World::new(&[("in", 100), ("out", 100)], &[]);
    assert_eq!(world.update(&map, "t"), Ok(false));
    assert_eq!(world.log_snapshot(), Vec::<String>::new());
}

#[test]
fn missing_input_is_an_io_error() {
    let t = target("t", &["out"], &["gone"], &["build"]);
    let map = Target::finalize_list(vec![t]).unwrap();
    let world = World::new(&[], &[]);
    assert_eq!(world.update(&map, "t"), Err(UpdateError::Io { path: s("gone") }));
    assert_eq!(world.log_snapshot(), Vec::<String>::new());
}

#[test]
fn missing_target_is_reported() {
    let t = target("t", &[], &[], &[]);
    let map = Target::finalize_list(vec![t]).unwrap();
    let world = World::new(&[], &[]);
    assert_eq!(world.update(&map, "absent"), Err(UpdateError::MissingTarget { name: s("absent") }));
}
