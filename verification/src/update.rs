//! Updating: deciding staleness and driving command execution.
//!
//! The updater walks a finalized map recursively: dependencies first, then
//! the target itself. A target runs its commands when a dependency was just
//! rebuilt, when it has no inputs, or when some output is missing or older
//! than the newest input. The filesystem and the command runner are
//! capabilities handed in by the caller: one closure answers
//! modification-time probes, another runs one command line and reports how it
//! finished.

use vstd::prelude::*;

use crate::finalize::TargetMap;
use crate::finalize::deps_listed_before;
use crate::finalize::lemma_view_is_targets;
use crate::finalize::map_wf;
use crate::finalize::name_at_earlier;
use crate::target::Target;
use crate::target::find_by_name;
use crate::target::is_first_by_name;
use crate::target::is_some_primary_name;
use crate::target::spec_deps;
use crate::target::spec_inputs;

verus! {

/// The answer of one modification-time probe.
#[derive(Clone, Copy, Debug, PartialEq, Eq)]
pub enum StatResult {
    /// The path exists and was last modified at this time.
    Present(u64),
    /// The path does not exist.
    Absent,
    /// The probe itself failed.
    Failed,
}

/// How one command finished.
#[derive(Clone, Copy, Debug, PartialEq, Eq)]
pub enum ExitOutcome {
    /// Exit status zero.
    Success,
    /// A non-zero exit status.
    NonZero(i32),
    /// The process was terminated by a signal and reported no status.
    Signaled,
}

/// Why an update failed. Execution errors abort the enclosing update and
/// propagate; work already done for other targets stands.
#[derive(Debug, PartialEq, Eq)]
pub enum UpdateError {
    /// The requested name is not a key of the map. With a name drawn from the
    /// map this cannot happen.
    MissingTarget { name: String },
    /// Probing this path failed, or an input file does not exist.
    Io { path: String },
    /// A command exited with this non-zero status; later commands of the
    /// target did not run.
    NonZeroExit { status: i32 },
    /// A command was terminated by a signal; later commands did not run.
    Signaled,
}

/// The modification time under a probe answer that is known to be `Present`.
pub open spec fn present_time(s: StatResult) -> u64 {
    match s {
        StatResult::Present(t) => t,
        _ => 0,
    }
}

/// The probe capability agrees with the filesystem model `fs`: whatever a
/// call on a path may return is exactly what `fs` holds for it. This is how
/// laws speak about an unchanging filesystem.
pub open spec fn stat_follows<FS: Fn(String) -> StatResult>(
    stat: FS,
    fs: Map<Seq<char>, StatResult>,
) -> bool {
    forall|p: String, res: StatResult| #[trigger] call_ensures(stat, (p,), res) ==> fs.dom().contains(
        p@,
    ) && res == fs[p@]
}

/// The target is fresh under the filesystem model `fs`: it has at least one
/// input (a target without inputs is always stale), all of its inputs and
/// outputs exist, and no output is older than any input.
pub open spec fn target_fresh(t: Target, fs: Map<Seq<char>, StatResult>) -> bool {
    &&& spec_inputs(t).len() > 0
    &&& forall|b: int| 0 <= b < spec_inputs(t).len() ==> fs.dom().contains(
        #[trigger] spec_inputs(t)[b]@,
    ) && fs[spec_inputs(t)[b]@] is Present
    &&& forall|a: int| 0 <= a < t.outputs@.len() ==> fs.dom().contains(#[trigger] t.outputs@[a]@)
        && fs[t.outputs@[a]@] is Present
    &&& forall|a: int, b: int|
        0 <= a < t.outputs@.len() && 0 <= b < spec_inputs(t).len() ==> present_time(
            fs[#[trigger] t.outputs@[a]@],
        ) >= present_time(fs[#[trigger] spec_inputs(t)[b]@])
}

/// Every target at position `i` or earlier is fresh under `fs`. Since every
/// dependency stands earlier in the map than its dependent, this covers the
/// whole dependency closure of position `i`.
pub open spec fn fresh_upto(ts: Seq<Target>, fs: Map<Seq<char>, StatResult>, i: int) -> bool {
    forall|j: int| 0 <= j <= i ==> target_fresh(#[trigger] ts[j], fs)
}

/// The command capability agrees with the outcome model `g`: whatever a call
/// on a command line may return is exactly what `g` holds for it.
pub open spec fn run_follows<FR: Fn(String) -> ExitOutcome>(
    run: FR,
    g: Map<Seq<char>, ExitOutcome>,
) -> bool {
    forall|c: String, res: ExitOutcome| #[trigger] call_ensures(run, (c,), res) ==> g.dom().contains(
        c@,
    ) && res == g[c@]
}

/// Every command line of `cmds` has an outcome under the model `g`.
pub open spec fn cmds_in_model(cmds: Seq<String>, g: Map<Seq<char>, ExitOutcome>) -> bool {
    forall|k: int| 0 <= k < cmds.len() ==> g.dom().contains(#[trigger] cmds[k]@)
}

/// What running the commands strictly in order yields under the model `g`:
/// the first command that does not succeed decides the error, and the ones
/// after it never run.
pub open spec fn cmd_outcome(cmds: Seq<String>, g: Map<Seq<char>, ExitOutcome>) -> Result<
    (),
    UpdateError,
>
    decreases cmds.len(),
{
    if cmds.len() == 0 {
        Ok(())
    } else {
        match g[cmds.first()@] {
            ExitOutcome::Success => cmd_outcome(cmds.drop_first(), g),
            ExitOutcome::NonZero(code) => Err(UpdateError::NonZeroExit { status: code }),
            ExitOutcome::Signaled => Err(UpdateError::Signaled),
        }
    }
}

/// Runs the command lines strictly in order through `run`, stopping at the
/// first one that exits non-zero or dies on a signal and surfacing it; the
/// remaining commands do not run. Under any outcome model the capability
/// follows, the result is exactly [`cmd_outcome`].
#[verifier::loop_isolation(false)]
fn run_commands<FR: Fn(String) -> ExitOutcome>(cmds: &Vec<String>, run: &FR) -> (r: Result<
    (),
    UpdateError,
>)
    requires
        forall|c: String| #[trigger] call_requires(*run, (c,)),
    ensures
        !(r matches Err(UpdateError::MissingTarget { .. })),
        !(r matches Err(UpdateError::Io { .. })),
        forall|g: Map<Seq<char>, ExitOutcome>|
            #[trigger] run_follows(*run, g) && cmds_in_model(cmds@, g) ==> r == cmd_outcome(
                cmds@,
                g,
            ),
{
    let mut c: usize = 0;
    proof {
        assert(cmds@.skip(0) =~= cmds@);
    }
    while c < cmds.len()
        invariant
            c <= cmds@.len(),
            forall|g: Map<Seq<char>, ExitOutcome>|
                #[trigger] run_follows(*run, g) && cmds_in_model(cmds@, g) ==> cmd_outcome(
                    cmds@,
                    g,
                ) == cmd_outcome(cmds@.skip(c as int), g),
        decreases cmds@.len() - c,
    {
        let outcome = (*run)(cmds[c].clone());
        match outcome {
            ExitOutcome::Success => {},
            ExitOutcome::NonZero(code) => {
                proof {
                    assert forall|g: Map<Seq<char>, ExitOutcome>|
                        #[trigger] run_follows(*run, g) && cmds_in_model(cmds@, g) implies Err::<
                        (),
                        UpdateError,
                    >(UpdateError::NonZeroExit { status: code }) == cmd_outcome(cmds@, g) by {
                        assert(outcome == g[cmds@[c as int]@]);
                        assert(cmds@.skip(c as int).first() == cmds@[c as int]);
                    }
                }
                return Err(UpdateError::NonZeroExit { status: code });
            },
            ExitOutcome::Signaled => {
                proof {
                    assert forall|g: Map<Seq<char>, ExitOutcome>|
                        #[trigger] run_follows(*run, g) && cmds_in_model(cmds@, g) implies Err::<
                        (),
                        UpdateError,
                    >(UpdateError::Signaled) == cmd_outcome(cmds@, g) by {
                        assert(outcome == g[cmds@[c as int]@]);
                        assert(cmds@.skip(c as int).first() == cmds@[c as int]);
                    }
                }
                return Err(UpdateError::Signaled);
            },
        }
        proof {
            assert forall|g: Map<Seq<char>, ExitOutcome>|
                #[trigger] run_follows(*run, g) && cmds_in_model(cmds@, g) implies cmd_outcome(
                cmds@,
                g,
            ) == cmd_outcome(cmds@.skip(c as int + 1), g) by {
                assert(outcome == g[cmds@[c as int]@]);
                assert(cmds@.skip(c as int).first() == cmds@[c as int]);
                assert(cmds@.skip(c as int).drop_first() =~= cmds@.skip(c as int + 1));
            }
        }
        c += 1;
    }
    proof {
        assert(cmds@.skip(cmds@.len() as int) =~= Seq::<String>::empty());
    }
    Ok(())
}

/// The newest modification time among the given paths under the filesystem
/// model `fs`; zero when there are none.
pub open spec fn newest_time(paths: Seq<String>, fs: Map<Seq<char>, StatResult>) -> u64
    decreases paths.len(),
{
    if paths.len() == 0 {
        0
    } else {
        let rest = newest_time(paths.drop_last(), fs);
        let last = present_time(fs[paths.last()@]);
        if last > rest {
            last
        } else {
            rest
        }
    }
}

/// Whether one output's probe answer makes the target stale against the
/// newest input time: the output is missing, or strictly older.
pub open spec fn output_stale(s: StatResult, latest: u64) -> bool {
    match s {
        StatResult::Absent => true,
        StatResult::Present(t) => t < latest,
        StatResult::Failed => false,
    }
}

/// The target is stale under `fs`, with every probe well-answered: its
/// inputs all exist, no output probe fails, and either it has no inputs at
/// all or some output is missing or older than the newest input.
pub open spec fn target_stale(t: Target, fs: Map<Seq<char>, StatResult>) -> bool {
    &&& forall|b: int| 0 <= b < spec_inputs(t).len() ==> fs.dom().contains(
        #[trigger] spec_inputs(t)[b]@,
    ) && fs[spec_inputs(t)[b]@] is Present
    &&& forall|a: int| 0 <= a < t.outputs@.len() ==> fs.dom().contains(#[trigger] t.outputs@[a]@)
        && !(fs[t.outputs@[a]@] is Failed)
    &&& (spec_inputs(t).len() == 0 || exists|a: int|
        0 <= a < t.outputs@.len() && output_stale(
            fs[#[trigger] t.outputs@[a]@],
            newest_time(spec_inputs(t), fs),
        ))
}

/// The premise under which position `i` must run its commands: the
/// capabilities follow the models `fs` and `g`, every earlier target - so in
/// particular every dependency, direct or not - is fresh, and the target
/// itself is stale.
pub open spec fn update_forced<FS: Fn(String) -> StatResult, FR: Fn(String) -> ExitOutcome>(
    stat: FS,
    run: FR,
    ts: Seq<Target>,
    i: int,
    fs: Map<Seq<char>, StatResult>,
    g: Map<Seq<char>, ExitOutcome>,
) -> bool {
    &&& stat_follows(stat, fs)
    &&& run_follows(run, g)
    &&& cmds_in_model(ts[i].commands@, g)
    &&& forall|j: int| 0 <= j < i ==> target_fresh(#[trigger] ts[j], fs)
    &&& target_stale(ts[i], fs)
}

/// The result an update owes when it is forced: its command outcome, with
/// success reported as "this target ran".
pub open spec fn forced_result(cmds: Seq<String>, g: Map<Seq<char>, ExitOutcome>) -> Result<
    bool,
    UpdateError,
> {
    match cmd_outcome(cmds, g) {
        Ok(()) => Ok(true),
        Err(e) => Err(e),
    }
}

/// The input at position `b` of the target is the first one that cannot be
/// probed to a modification time under `fs`: every earlier input is present,
/// this one is absent or its probe fails.
pub open spec fn first_bad_input(t: Target, fs: Map<Seq<char>, StatResult>, b: int) -> bool {
    &&& 0 <= b < spec_inputs(t).len()
    &&& fs.dom().contains(spec_inputs(t)[b]@)
    &&& !(fs[spec_inputs(t)[b]@] is Present)
    &&& forall|q: int| 0 <= q < b ==> fs[#[trigger] spec_inputs(t)[q]@] is Present
}

/// The premise under which position `i` must report an I/O error for input
/// `b`: the probes follow the model `fs`, every earlier target is fresh, and
/// `b` is the first input of the target that cannot be probed to a time.
pub open spec fn update_io_blocked<FS: Fn(String) -> StatResult>(
    stat: FS,
    ts: Seq<Target>,
    i: int,
    fs: Map<Seq<char>, StatResult>,
    b: int,
) -> bool {
    &&& stat_follows(stat, fs)
    &&& forall|j: int| 0 <= j < i ==> target_fresh(#[trigger] ts[j], fs)
    &&& first_bad_input(ts[i], fs, b)
}

/// Updates the target at position `i`, dependencies first.
///
/// The freshness law in the contract is the idempotence of updating: on a
/// filesystem under which the target and everything below it is fresh - as
/// it is right after a successful update that is not raced by outside
/// writes - nothing runs and the call reports that no update was needed. The
/// forced law is its counterpart: a stale target over fresh dependencies
/// yields exactly the outcome of its command list.
#[verifier::loop_isolation(false)]
fn update_at<FS: Fn(String) -> StatResult, FR: Fn(String) -> ExitOutcome>(
    targets: &Vec<Target>,
    i: usize,
    stat: &FS,
    run: &FR,
) -> (r: Result<bool, UpdateError>)
    requires
        map_wf(targets@),
        i < targets@.len(),
        forall|p: String| #[trigger] call_requires(*stat, (p,)),
        forall|c: String| #[trigger] call_requires(*run, (c,)),
    ensures
        !(r matches Err(UpdateError::MissingTarget { .. })),
        forall|fs: Map<Seq<char>, StatResult>|
            #[trigger] stat_follows(*stat, fs) && fresh_upto(targets@, fs, i as int) ==> r == Ok::<
                bool,
                UpdateError,
            >(false),
        forall|fs: Map<Seq<char>, StatResult>, g: Map<Seq<char>, ExitOutcome>|
            #[trigger] update_forced(*stat, *run, targets@, i as int, fs, g) ==> r == forced_result(
                targets@[i as int].commands@,
                g,
            ),
        forall|fs: Map<Seq<char>, StatResult>, b: int|
            #[trigger] update_io_blocked(*stat, targets@, i as int, fs, b) ==> (r matches Err(
                UpdateError::Io { path },
            ) && path@ == spec_inputs(targets@[i as int])[b]@),
    decreases i,
{
    let t = &targets[i];
    proof {
        assert(targets@[i as int].dependencies is UnMixed);
        assert(deps_listed_before(targets@, i as int));
    }

    // First bring every dependency up to date, in order, stopping at the
    // first failure. Record whether any of them ran.
    let deps = t.dependencies();
    let mut dep_updated = false;
    let mut d: usize = 0;
    while d < deps.len()
        invariant
            d <= deps@.len(),
            deps@ == spec_deps(targets@[i as int]),
            forall|fs: Map<Seq<char>, StatResult>|
                #[trigger] stat_follows(*stat, fs) && fresh_upto(targets@, fs, i as int)
                    ==> dep_updated == false,
            forall|fs: Map<Seq<char>, StatResult>, g: Map<Seq<char>, ExitOutcome>|
                #[trigger] update_forced(*stat, *run, targets@, i as int, fs, g) ==> dep_updated == false,
            forall|fs: Map<Seq<char>, StatResult>, b: int|
                #[trigger] update_io_blocked(*stat, targets@, i as int, fs, b) ==> dep_updated == false,
        decreases deps@.len() - d,
    {
        proof {
            assert(spec_deps(targets@[i as int])[d as int]@ == deps@[d as int]@);
            assert(name_at_earlier(targets@, i as int, deps@[d as int]@));
        }
        let dep_idx = match find_by_name(targets, &deps[d]) {
            Some(j) => j,
            None => {
                proof {
                    let jj = choose|j: int|
                        0 <= j < i as int && (#[trigger] targets@[j]).name@ == deps@[d as int]@;
                    assert(false);
                }
                unreached()
            },
        };
        proof {
            let jj = choose|j: int|
                0 <= j < i as int && (#[trigger] targets@[j]).name@ == deps@[d as int]@;
            if (dep_idx as int) > jj {
                assert(targets@[jj].name@ != deps@[d as int]@);
            }
            assert(dep_idx < i);
        }
        let sub = update_at(targets, dep_idx, stat, run);
        match sub {
            Ok(ran) => {
                if ran {
                    dep_updated = true;
                }
                proof {
                    assert forall|fs: Map<Seq<char>, StatResult>|
                        #[trigger] stat_follows(*stat, fs) && fresh_upto(
                            targets@,
                            fs,
                            i as int,
                        ) implies dep_updated == false by {
                        assert(fresh_upto(targets@, fs, dep_idx as int));
                        assert(sub == Ok::<bool, UpdateError>(false));
                    }
                    assert forall|fs: Map<Seq<char>, StatResult>, g: Map<Seq<char>, ExitOutcome>|
                        #[trigger] update_forced(*stat, *run, targets@, i as int, fs, g) implies dep_updated == false by {
                        assert(fresh_upto(targets@, fs, dep_idx as int));
                        assert(sub == Ok::<bool, UpdateError>(false));
                    }
                    assert forall|fs: Map<Seq<char>, StatResult>, b: int|
                        #[trigger] update_io_blocked(*stat, targets@, i as int, fs, b) implies dep_updated == false by {
                        assert(fresh_upto(targets@, fs, dep_idx as int));
                        assert(sub == Ok::<bool, UpdateError>(false));
                    }
                }
            },
            Err(e) => {
                proof {
                    assert forall|fs: Map<Seq<char>, StatResult>|
                        #[trigger] stat_follows(*stat, fs) && fresh_upto(
                            targets@,
                            fs,
                            i as int,
                        ) implies false by {
                        assert(fresh_upto(targets@, fs, dep_idx as int));
                        assert(sub == Ok::<bool, UpdateError>(false));
                    }
                    assert forall|fs: Map<Seq<char>, StatResult>, g: Map<Seq<char>, ExitOutcome>|
                        #[trigger] update_forced(*stat, *run, targets@, i as int, fs, g) implies false by {
                        assert(fresh_upto(targets@, fs, dep_idx as int));
                        assert(sub == Ok::<bool, UpdateError>(false));
                    }
                    assert forall|fs: Map<Seq<char>, StatResult>, b: int|
                        #[trigger] update_io_blocked(*stat, targets@, i as int, fs, b) implies false by {
                        assert(fresh_upto(targets@, fs, dep_idx as int));
                        assert(sub == Ok::<bool, UpdateError>(false));
                    }
                }
                return Err(e);
            },
        }
        d += 1;
    }

    // Decide staleness: a rebuilt dependency forces the update; otherwise the
    // newest input time is compared against every output.
    let mut forced = dep_updated;
    if !forced {
        let inputs = t.inputs();
        if inputs.len() == 0 {
            // No inputs: freshness cannot be established, always rebuild.
            forced = true;
        } else {
            let mut latest: u64 = 0;
            let mut b: usize = 0;
            while b < inputs.len()
                invariant
                    b <= inputs@.len(),
                    inputs@ == spec_inputs(targets@[i as int]),
                    forall|fs: Map<Seq<char>, StatResult>|
                        #[trigger] stat_follows(*stat, fs) && fresh_upto(targets@, fs, i as int)
                            ==> (latest == 0 || exists|bb: int|
                            0 <= bb < inputs@.len() && latest == present_time(
                                fs[#[trigger] inputs@[bb]@],
                            )),
                    forall|fs: Map<Seq<char>, StatResult>, g: Map<Seq<char>, ExitOutcome>|
                        #[trigger] update_forced(*stat, *run, targets@, i as int, fs, g) ==> latest == newest_time(
                            inputs@.take(b as int),
                            fs,
                        ),
                    forall|fs: Map<Seq<char>, StatResult>, bb: int|
                        #[trigger] update_io_blocked(*stat, targets@, i as int, fs, bb)
                            ==> b <= bb,
                decreases inputs@.len() - b,
            {
                let probed = (*stat)(inputs[b].clone());
                match probed {
                    StatResult::Present(tm) => {
                        if tm > latest {
                            latest = tm;
                        }
                        proof {
                            assert forall|fs: Map<Seq<char>, StatResult>|
                                #[trigger] stat_follows(*stat, fs) && fresh_upto(
                                    targets@,
                                    fs,
                                    i as int,
                                ) implies (latest == 0 || exists|bb: int|
                                0 <= bb < inputs@.len() && latest == present_time(
                                    fs[#[trigger] inputs@[bb]@],
                                )) by {
                                if latest == tm {
                                    assert(probed == fs[inputs@[b as int]@]);
                                    assert(latest == present_time(fs[inputs@[b as int]@]));
                                }
                            }
                            assert forall|fs: Map<Seq<char>, StatResult>, g: Map<
                                Seq<char>,
                                ExitOutcome,
                            >|
                                #[trigger] update_forced(*stat, *run, targets@, i as int, fs, g) implies latest == newest_time(
                                inputs@.take(b as int + 1),
                                fs,
                            ) by {
                                assert(inputs@.take(b as int + 1).drop_last() =~= inputs@.take(
                                    b as int,
                                ));
                                assert(inputs@.take(b as int + 1).last() == inputs@[b as int]);
                                assert(probed == fs[inputs@[b as int]@]);
                            }
                            assert forall|fs: Map<Seq<char>, StatResult>, bb: int|
                                #[trigger] update_io_blocked(*stat, targets@, i as int, fs, bb) implies b + 1 <= bb by {
                                assert(probed == fs[inputs@[b as int]@]);
                                assert(!(fs[spec_inputs(targets@[i as int])[bb]@] is Present));
                            }
                        }
                    },
                    StatResult::Absent => {
                        // An input that does not exist cannot be probed for a
                        // time; that is an I/O failure, not a reason to build.
                        proof {
                            assert forall|fs: Map<Seq<char>, StatResult>|
                                #[trigger] stat_follows(*stat, fs) && fresh_upto(
                                    targets@,
                                    fs,
                                    i as int,
                                ) implies false by {
                                assert(target_fresh(targets@[i as int], fs));
                                assert(fs[inputs@[b as int]@] is Present);
                            }
                            assert forall|fs: Map<Seq<char>, StatResult>, g: Map<
                                Seq<char>,
                                ExitOutcome,
                            >|
                                #[trigger] update_forced(*stat, *run, targets@, i as int, fs, g) implies false by {
                                assert(target_stale(targets@[i as int], fs));
                                assert(fs[inputs@[b as int]@] is Present);
                                assert(probed == fs[inputs@[b as int]@]);
                            }
                            assert forall|fs: Map<Seq<char>, StatResult>, bb: int|
                                #[trigger] update_io_blocked(*stat, targets@, i as int, fs, bb) implies b == bb && !(fs[inputs@[b as int]@]
                                is Present) by {
                                assert(probed == fs[inputs@[b as int]@]);
                                if b < bb {
                                    assert(fs[#[trigger] spec_inputs(targets@[i as int])[b as int]@]
                                        is Present);
                                }
                            }
                        }
                        return Err(UpdateError::Io { path: inputs[b].clone() });
                    },
                    StatResult::Failed => {
                        proof {
                            assert forall|fs: Map<Seq<char>, StatResult>|
                                #[trigger] stat_follows(*stat, fs) && fresh_upto(
                                    targets@,
                                    fs,
                                    i as int,
                                ) implies false by {
                                assert(target_fresh(targets@[i as int], fs));
                                assert(fs[inputs@[b as int]@] is Present);
                            }
                            assert forall|fs: Map<Seq<char>, StatResult>, g: Map<
                                Seq<char>,
                                ExitOutcome,
                            >|
                                #[trigger] update_forced(*stat, *run, targets@, i as int, fs, g) implies false by {
                                assert(target_stale(targets@[i as int], fs));
                                assert(fs[inputs@[b as int]@] is Present);
                                assert(probed == fs[inputs@[b as int]@]);
                            }
                            assert forall|fs: Map<Seq<char>, StatResult>, bb: int|
                                #[trigger] update_io_blocked(*stat, targets@, i as int, fs, bb) implies b == bb && !(fs[inputs@[b as int]@]
                                is Present) by {
                                assert(probed == fs[inputs@[b as int]@]);
                                if b < bb {
                                    assert(fs[#[trigger] spec_inputs(targets@[i as int])[b as int]@]
                                        is Present);
                                }
                            }
                        }
                        return Err(UpdateError::Io { path: inputs[b].clone() });
                    },
                }
                b += 1;
            }

            proof {
                assert(inputs@.take(inputs@.len() as int) =~= inputs@);
                assert forall|fs: Map<Seq<char>, StatResult>, bb: int|
                    #[trigger] update_io_blocked(*stat, targets@, i as int, fs, bb) implies false by {
                    assert(0 <= bb < spec_inputs(targets@[i as int]).len());
                }
            }

            // An output that is missing or strictly older than the newest
            // input makes the target stale; ties need no update.
            let outputs = &t.outputs;
            let mut stale = false;
            let mut a: usize = 0;
            while a < outputs.len() && !stale
                invariant
                    a <= outputs@.len(),
                    outputs@ == targets@[i as int].outputs@,
                    inputs@ == spec_inputs(targets@[i as int]),
                    forall|fs: Map<Seq<char>, StatResult>|
                        #[trigger] stat_follows(*stat, fs) && fresh_upto(targets@, fs, i as int)
                            ==> (!stale && (latest == 0 || exists|bb: int|
                            0 <= bb < inputs@.len() && latest == present_time(
                                fs[#[trigger] inputs@[bb]@],
                            ))),
                    forall|fs: Map<Seq<char>, StatResult>, g: Map<Seq<char>, ExitOutcome>|
                        #[trigger] update_forced(*stat, *run, targets@, i as int, fs, g) ==> (latest == newest_time(inputs@, fs) && (stale
                            <==> exists|q: int|
                        0 <= q < a && output_stale(fs[#[trigger] outputs@[q]@], latest))),
                    forall|fs: Map<Seq<char>, StatResult>, bb: int|
                        #[trigger] update_io_blocked(*stat, targets@, i as int, fs, bb) ==> false,
                decreases outputs@.len() - a,
            {
                let probed = (*stat)(outputs[a].clone());
                match probed {
                    StatResult::Present(tm) => {
                        if tm < latest {
                            stale = true;
                        }
                        proof {
                            assert forall|fs: Map<Seq<char>, StatResult>|
                                #[trigger] stat_follows(*stat, fs) && fresh_upto(
                                    targets@,
                                    fs,
                                    i as int,
                                ) implies !stale by {
                                if stale {
                                    assert(target_fresh(targets@[i as int], fs));
                                    assert(probed == fs[outputs@[a as int]@]);
                                    let bb = choose|bb: int|
                                        0 <= bb < inputs@.len() && latest == present_time(
                                            fs[#[trigger] inputs@[bb]@],
                                        );
                                    assert(present_time(fs[outputs@[a as int]@]) >= present_time(
                                        fs[inputs@[bb]@],
                                    ));
                                }
                            }
                            assert forall|fs: Map<Seq<char>, StatResult>, g: Map<
                                Seq<char>,
                                ExitOutcome,
                            >|
                                #[trigger] update_forced(*stat, *run, targets@, i as int, fs, g) implies (stale <==> exists|q: int|
                                0 <= q < a as int + 1 && output_stale(
                                    fs[#[trigger] outputs@[q]@],
                                    latest,
                                )) by {
                                assert(probed == fs[outputs@[a as int]@]);
                                if stale {
                                    assert(output_stale(fs[outputs@[a as int]@], latest));
                                } else {
                                    assert forall|q: int| 0 <= q < a as int + 1 implies
                                        !output_stale(fs[#[trigger] outputs@[q]@], latest) by {
                                        if q < a as int {
                                            assert(!(exists|qq: int|
                                                0 <= qq < a as int && output_stale(
                                                    fs[#[trigger] outputs@[qq]@],
                                                    latest,
                                                )));
                                        }
                                    }
                                }
                            }
                        }
                    },
                    StatResult::Absent => {
                        stale = true;
                        proof {
                            assert forall|fs: Map<Seq<char>, StatResult>|
                                #[trigger] stat_follows(*stat, fs) && fresh_upto(
                                    targets@,
                                    fs,
                                    i as int,
                                ) implies false by {
                                assert(target_fresh(targets@[i as int], fs));
                                assert(fs[outputs@[a as int]@] is Present);
                            }
                            assert forall|fs: Map<Seq<char>, StatResult>, g: Map<
                                Seq<char>,
                                ExitOutcome,
                            >|
                                #[trigger] update_forced(*stat, *run, targets@, i as int, fs, g) implies (stale <==> exists|q: int|
                                0 <= q < a as int + 1 && output_stale(
                                    fs[#[trigger] outputs@[q]@],
                                    latest,
                                )) by {
                                assert(probed == fs[outputs@[a as int]@]);
                                assert(output_stale(fs[outputs@[a as int]@], latest));
                            }
                        }
                    },
                    StatResult::Failed => {
                        proof {
                            assert forall|fs: Map<Seq<char>, StatResult>|
                                #[trigger] stat_follows(*stat, fs) && fresh_upto(
                                    targets@,
                                    fs,
                                    i as int,
                                ) implies false by {
                                assert(target_fresh(targets@[i as int], fs));
                                assert(fs[outputs@[a as int]@] is Present);
                            }
                            assert forall|fs: Map<Seq<char>, StatResult>, g: Map<
                                Seq<char>,
                                ExitOutcome,
                            >|
                                #[trigger] update_forced(*stat, *run, targets@, i as int, fs, g) implies false by {
                                assert(target_stale(targets@[i as int], fs));
                                assert(!(fs[outputs@[a as int]@] is Failed));
                                assert(probed == fs[outputs@[a as int]@]);
                            }
                        }
                        return Err(UpdateError::Io { path: outputs[a].clone() });
                    },
                }
                a += 1;
            }
            proof {
                assert forall|fs: Map<Seq<char>, StatResult>, g: Map<Seq<char>, ExitOutcome>|
                    #[trigger] update_forced(*stat, *run, targets@, i as int, fs, g) implies stale by {
                    assert(target_stale(targets@[i as int], fs));
                    if !stale {
                        let a0 = choose|a0: int|
                            0 <= a0 < targets@[i as int].outputs@.len() && output_stale(
                                fs[#[trigger] targets@[i as int].outputs@[a0]@],
                                newest_time(spec_inputs(targets@[i as int]), fs),
                            );
                        assert(latest == newest_time(inputs@, fs));
                        assert(output_stale(fs[outputs@[a0]@], latest));
                        assert(false);
                    }
                }
            }
            forced = stale;
        }
    }

    if !forced {
        return Ok(false);
    }

    // Forced: run the commands strictly in order, stopping at the first one
    // that does not succeed.
    let ran = run_commands(&t.commands, run);
    proof {
        assert forall|fs: Map<Seq<char>, StatResult>, g: Map<Seq<char>, ExitOutcome>|
            #[trigger] update_forced(*stat, *run, targets@, i as int, fs, g) implies ran == cmd_outcome(
            targets@[i as int].commands@,
            g,
        ) by {
            assert(cmds_in_model(targets@[i as int].commands@, g));
        }
    }
    match ran {
        Ok(()) => Ok(true),
        Err(e) => Err(e),
    }
}

impl TargetMap {
    /// Brings the named target up to date and reports whether its own
    /// commands ran; commands run by dependencies do not count.
    ///
    /// Dependencies are updated first, in order, failing fast. The target is
    /// then rebuilt if a dependency was rebuilt, if it has no inputs, or if
    /// some output is missing or strictly older than the newest input; equal
    /// times need no rebuild. Commands run strictly in order through `run`,
    /// and the first non-zero exit or signal aborts the update. `stat`
    /// answers modification-time probes; a probe failure, and an input that
    /// does not exist, surface as an I/O error.
    ///
    /// A name that is no key of the map is reported as missing, and that is
    /// the only input on which it is. The freshness clause of the contract is
    /// the idempotence law: under a filesystem model on which the target and
    /// every target below it are fresh, the call returns `Ok(false)` and
    /// nothing runs. The forced clause is its counterpart: when everything
    /// below the target is fresh but the target itself is stale, the result
    /// is exactly the outcome of running its command list. And when the
    /// first flaw below a fresh prefix is an input that cannot be probed,
    /// the result is exactly the I/O error naming that input.
    pub fn update<FS: Fn(String) -> StatResult, FR: Fn(String) -> ExitOutcome>(
        &self,
        name: &String,
        stat: &FS,
        run: &FR,
    ) -> (r: Result<bool, UpdateError>)
        requires
            forall|p: String| #[trigger] call_requires(*stat, (p,)),
            forall|c: String| #[trigger] call_requires(*run, (c,)),
        ensures
            !is_some_primary_name(self@, name@) <==> (r matches Err(
                UpdateError::MissingTarget { .. },
            )),
            (r matches Err(UpdateError::MissingTarget { name: missing }) ==> missing@ == name@),
            forall|fs: Map<Seq<char>, StatResult>, j: int|
                #[trigger] stat_follows(*stat, fs) && #[trigger] is_first_by_name(self@, name@, j)
                    && fresh_upto(self@, fs, j) ==> r == Ok::<bool, UpdateError>(false),
            forall|fs: Map<Seq<char>, StatResult>, g: Map<Seq<char>, ExitOutcome>, j: int|
                #[trigger] is_first_by_name(self@, name@, j) && #[trigger] update_forced(
                    *stat,
                    *run,
                    self@,
                    j,
                    fs,
                    g,
                ) ==> r == forced_result(self@[j].commands@, g),
            forall|fs: Map<Seq<char>, StatResult>, j: int, b: int|
                #[trigger] is_first_by_name(self@, name@, j) && #[trigger] update_io_blocked(
                    *stat,
                    self@,
                    j,
                    fs,
                    b,
                ) ==> (r matches Err(UpdateError::Io { path }) && path@ == spec_inputs(
                    self@[j],
                )[b]@),
    {
        proof {
            use_type_invariant(&*self);
            lemma_view_is_targets(self);
        }
        match find_by_name(&self.targets, name) {
            None => Err(UpdateError::MissingTarget { name: name.clone() }),
            Some(i) => {
                let res = update_at(&self.targets, i, stat, run);
                proof {
                    assert forall|fs: Map<Seq<char>, StatResult>, j: int|
                        #[trigger] stat_follows(*stat, fs) && #[trigger] is_first_by_name(
                            self@,
                            name@,
                            j,
                        ) && fresh_upto(self@, fs, j) implies res == Ok::<bool, UpdateError>(
                        false,
                    ) by {
                        if j < i as int {
                            assert(self@[j].name@ != name@);
                        }
                        if (i as int) < j {
                            assert(self@[i as int].name@ != name@);
                        }
                        assert(j == i as int);
                        assert(fresh_upto(self@, fs, i as int));
                    }
                    assert forall|fs: Map<Seq<char>, StatResult>, g: Map<Seq<char>, ExitOutcome>, j: int|
                        #[trigger] is_first_by_name(self@, name@, j) && #[trigger] update_forced(
                            *stat,
                            *run,
                            self@,
                            j,
                            fs,
                            g,
                        ) implies res == forced_result(self@[j].commands@, g) by {
                        if j < i as int {
                            assert(self@[j].name@ != name@);
                        }
                        if (i as int) < j {
                            assert(self@[i as int].name@ != name@);
                        }
                        assert(j == i as int);
                        assert(update_forced(*stat, *run, self.targets@, i as int, fs, g));
                    }
                    assert forall|fs: Map<Seq<char>, StatResult>, j: int, b: int|
                        #[trigger] is_first_by_name(self@, name@, j) && #[trigger] update_io_blocked(
                            *stat,
                            self@,
                            j,
                            fs,
                            b,
                        ) implies (res matches Err(UpdateError::Io { path }) && path@
                        == spec_inputs(self@[j])[b]@) by {
                        if j < i as int {
                            assert(self@[j].name@ != name@);
                        }
                        if (i as int) < j {
                            assert(self@[i as int].name@ != name@);
                        }
                        assert(j == i as int);
                        assert(update_io_blocked(*stat, self.targets@, i as int, fs, b));
                    }
                    assert(is_some_primary_name(self@, name@)) by {
                        assert(self@[i as int].name@ == name@);
                    }
                }
                res
            },
        }
    }
}

} // verus!
