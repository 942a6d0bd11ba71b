//! Finalization: turning raw targets into a validated, acyclic target map.
//!
//! Raw targets refer to each other by name. Finalization walks them depth
//! first over an arena of nodes, each carrying an explicit processing state,
//! resolves every dependency list, and moves the targets into a map keyed by
//! canonical name. A target is inserted only after all of its dependencies,
//! so the finished map carries its own topological witness of acyclicity.
//! Re-entering a node that is still in progress is a cycle; inserting a name
//! twice is a duplicate; a split dependency name owned by no target is
//! unresolved. Any of the three fails the whole batch.

use vstd::prelude::*;

use crate::target::MixedDeps;
use crate::target::Target;
use crate::target::all_match;
use crate::target::extra_equiv;
use crate::target::find_by_name;
use crate::target::is_first_by_name;
use crate::target::is_some_primary_name;
use crate::target::matches_any;
use crate::target::raw_entries;
use crate::target::resolved_dep_names;
use crate::target::resolved_inputs;
use crate::target::spec_deps;
use crate::target::clone_strings;

verus! {

/// Why a batch of raw targets could not be finalized. Each is fatal to the
/// whole batch: no partial map is ever returned.
#[derive(Debug, PartialEq, Eq)]
pub enum FinalizeError {
    /// A target transitively depends on itself; `name` belongs to a target on
    /// the cycle.
    Cycle { name: String },
    /// Two raw targets canonicalize to the same name.
    DuplicateName { name: String },
    /// A dependency name of an already-split list names no known target.
    UnresolvedDependency { name: String },
}

/// Processing state of one arena node during finalization.
pub enum NodeState {
    /// Not reached yet.
    Unvisited,
    /// Being finalized somewhere on the current recursion path.
    InProgress,
    /// Finalized and moved into the output map.
    Done,
}

/// A finalized map of targets, keyed by canonical (primary) name.
///
/// Produced only by [`Target::finalize_list`]; immutable afterwards. Its
/// targets all carry split dependency lists, their names are unique, and
/// every dependency name belongs to a target at an earlier position, which
/// makes the dependency graph acyclic.
pub struct TargetMap {
    pub(crate) targets: Vec<Target>,
}

/// How many nodes are still unvisited: the termination measure of the
/// depth-first walk.
pub open spec fn count_unvisited(s: Seq<NodeState>) -> nat
    decreases s.len(),
{
    if s.len() == 0 {
        0
    } else {
        count_unvisited(s.drop_last()) + if s.last() is Unvisited {
            1nat
        } else {
            0nat
        }
    }
}

/// How many nodes are finalized.
pub open spec fn count_done(s: Seq<NodeState>) -> nat
    decreases s.len(),
{
    if s.len() == 0 {
        0
    } else {
        count_done(s.drop_last()) + if s.last() is Done {
            1nat
        } else {
            0nat
        }
    }
}

proof fn lemma_count_update(s: Seq<NodeState>, k: int, v: NodeState)
    requires
        0 <= k < s.len(),
    ensures
        count_unvisited(s.update(k, v)) == count_unvisited(s) + (if v is Unvisited { 1int } else { 0int })
            - (if s[k] is Unvisited { 1int } else { 0int }),
        count_done(s.update(k, v)) == count_done(s) + (if v is Done { 1int } else { 0int })
            - (if s[k] is Done { 1int } else { 0int }),
    decreases s.len(),
{
    let s2 = s.update(k, v);
    if k == s.len() - 1 {
        assert(s2.drop_last() =~= s.drop_last());
    } else {
        lemma_count_update(s.drop_last(), k, v);
        assert(s2.drop_last() =~= s.drop_last().update(k, v));
    }
}

proof fn lemma_count_uniform(s: Seq<NodeState>)
    ensures
        (forall|j: int| 0 <= j < s.len() ==> (#[trigger] s[j]) is Unvisited) ==> count_unvisited(s)
            == s.len() && count_done(s) == 0,
        (forall|j: int| 0 <= j < s.len() ==> (#[trigger] s[j]) is Done) ==> count_done(s) == s.len(),
    decreases s.len(),
{
    if s.len() > 0 {
        lemma_count_uniform(s.drop_last());
    }
}

/// `b` is a resolved dependency of `a`: some dependency entry of `a` resolves
/// to a canonical name whose first owner, by primary name, is `b`.
pub open spec fn dep_edge(nodes: Seq<Target>, a: int, b: int) -> bool {
    &&& 0 <= a < nodes.len()
    &&& exists|k: int|
        0 <= k < resolved_dep_names(nodes, raw_entries(nodes[a])).len() && is_first_by_name(
            nodes,
            #[trigger] resolved_dep_names(nodes, raw_entries(nodes[a]))[k]@,
            b,
        )
}

/// `c` is a dependency cycle: consecutive positions are dependency edges and
/// the chain returns to its start.
pub open spec fn is_dep_cycle(nodes: Seq<Target>, c: Seq<int>) -> bool {
    &&& c.len() >= 2
    &&& c[0] == c[c.len() - 1]
    &&& forall|t: int| 0 <= t < c.len() - 1 ==> dep_edge(nodes, #[trigger] c[t], c[t + 1])
}

/// Whether some target of `nodes` transitively depends on itself.
pub open spec fn has_dep_cycle(nodes: Seq<Target>) -> bool {
    exists|c: Seq<int>| is_dep_cycle(nodes, c)
}

/// All primary names pairwise distinct.
pub open spec fn unique_names(nodes: Seq<Target>) -> bool {
    forall|i: int, j: int| 0 <= i < j < nodes.len() ==> nodes[i].name@ != nodes[j].name@
}

/// Every dependency name of the already-split target at `i` names some target.
pub open spec fn resolvable_at(nodes: Seq<Target>, i: int) -> bool {
    match nodes[i].dependencies {
        MixedDeps::Mixed(_) => true,
        MixedDeps::UnMixed { dependencies, .. } => all_match(nodes, dependencies@),
    }
}

/// Every dependency name of every already-split target names some target.
/// Mixed lists cannot fail to resolve: their unmatched entries are inputs.
pub open spec fn all_resolvable(nodes: Seq<Target>) -> bool {
    forall|i: int| 0 <= i < nodes.len() ==> #[trigger] resolvable_at(nodes, i)
}

/// `fin` is the finalized form of the raw target `t`, resolved against
/// `nodes`: same name, outputs, commands and auxiliary data, and a split
/// dependency list holding the resolved inputs and canonical dependency
/// names.
pub open spec fn finalized_form(nodes: Seq<Target>, t: Target, fin: Target) -> bool {
    &&& fin.name@ == t.name@
    &&& fin.outputs@ == t.outputs@
    &&& fin.commands@ == t.commands@
    &&& extra_equiv(fin.extra, t.extra)
    &&& fin.dependencies matches MixedDeps::UnMixed { inputs, dependencies } && {
        &&& inputs@ == match t.dependencies {
            MixedDeps::Mixed(entries) => resolved_inputs(nodes, entries@),
            MixedDeps::UnMixed { inputs: raw_inputs, .. } => raw_inputs@,
        }
        &&& dependencies@ == resolved_dep_names(nodes, raw_entries(t))
    }
}

/// `nm` is the name of a target at a position earlier than `i`.
pub open spec fn name_at_earlier(ts: Seq<Target>, i: int, nm: Seq<char>) -> bool {
    exists|j: int| 0 <= j < i && (#[trigger] ts[j]).name@ == nm
}

/// Every dependency name of position `i` is the name of an earlier position.
pub open spec fn deps_listed_before(ts: Seq<Target>, i: int) -> bool {
    forall|d: int| 0 <= d < spec_deps(ts[i]).len() ==> name_at_earlier(
        ts,
        i,
        #[trigger] spec_deps(ts[i])[d]@,
    )
}

/// The first target whose primary name is `nm` exists and is already done.
pub open spec fn done_first_owner(nodes: Seq<Target>, state: Seq<NodeState>, nm: Seq<char>) -> bool {
    exists|j: int| #[trigger] is_first_by_name(nodes, nm, j) && state[j] is Done
}

/// Well-formedness of a finalized map: unique names, split dependency lists,
/// and every dependency name owned by an earlier position. The last clause is
/// a topological witness: no target can transitively depend on itself.
pub open spec fn map_wf(ts: Seq<Target>) -> bool {
    &&& unique_names(ts)
    &&& forall|i: int| 0 <= i < ts.len() ==> (#[trigger] ts[i]).dependencies is UnMixed
    &&& forall|i: int| 0 <= i < ts.len() ==> #[trigger] deps_listed_before(ts, i)
}

/// Some position of `ord` records the raw index `i`.
pub open spec fn ord_covers(ord: Seq<int>, i: int) -> bool {
    exists|k: int| 0 <= k < ord.len() && #[trigger] ord[k] == i
}

/// `ord` matches every map position `k` to the distinct raw position
/// `ord[k]` it was finalized from, covering all raw targets.
pub open spec fn matches_order(raw: Seq<Target>, fin: Seq<Target>, ord: Seq<int>) -> bool {
    &&& ord.len() == fin.len()
    &&& forall|k: int| 0 <= k < ord.len() ==> 0 <= #[trigger] ord[k] < raw.len()
        && finalized_form(raw, raw[ord[k]], fin[k])
    &&& forall|k1: int, k2: int| 0 <= k1 < k2 < ord.len() ==> ord[k1] != ord[k2]
    &&& forall|i: int| 0 <= i < raw.len() ==> #[trigger] ord_covers(ord, i)
}

/// The position of `ord` that records the raw index `j`.
pub open spec fn ord_pos(ord: Seq<int>, j: int) -> int {
    choose|k: int| 0 <= k < ord.len() && #[trigger] ord[k] == j
}

/// The raw target at `i` has a split dependency list with `nm` among its
/// dependency names.
pub open spec fn unmatched_split_entry(nodes: Seq<Target>, i: int, nm: Seq<char>) -> bool {
    match nodes[i].dependencies {
        MixedDeps::Mixed(_) => false,
        MixedDeps::UnMixed { dependencies, .. } => exists|k: int|
            0 <= k < dependencies@.len() && #[trigger] dependencies@[k]@ == nm,
    }
}

/// What each finalization error proves about the raw targets.
pub open spec fn err_witness(nodes: Seq<Target>, e: FinalizeError) -> bool {
    match e {
        FinalizeError::Cycle { name } => exists|c: Seq<int>|
            #[trigger] is_dep_cycle(nodes, c) && 0 <= c[0] < nodes.len() && nodes[c[0]].name@
                == name@,
        FinalizeError::DuplicateName { name } => exists|i: int, j: int|
            #![trigger nodes[i].name@, nodes[j].name@]
            0 <= i < j < nodes.len() && nodes[i].name@ == nodes[j].name@ && nodes[i].name@
                == name@,
        FinalizeError::UnresolvedDependency { name } => !matches_any(nodes, name@) && exists|i: int|
            0 <= i < nodes.len() && #[trigger] unmatched_split_entry(nodes, i, name@),
    }
}

/// States only ever advance from unvisited through in-progress to done, and
/// one run of the walk neither creates nor removes in-progress marks.
pub open spec fn state_advance(s1: Seq<NodeState>, s2: Seq<NodeState>) -> bool {
    &&& s1.len() == s2.len()
    &&& forall|j: int| 0 <= j < s1.len() ==> (((#[trigger] s1[j]) is Done ==> s2[j] is Done) && (
    s1[j] is InProgress <==> s2[j] is InProgress) && (s2[j] is Unvisited ==> s1[j] is Unvisited))
}

/// The working invariant of the depth-first walk, tying the arena states, the
/// output map, the recursion path and the ghost origin record together.
pub open spec fn fin_inv(
    nodes: Seq<Target>,
    state: Seq<NodeState>,
    post: Seq<Target>,
    path: Seq<usize>,
    ord: Seq<int>,
) -> bool {
    &&& state.len() == nodes.len()
    &&& ord.len() == post.len()
    &&& forall|k: int| 0 <= k < ord.len() ==> 0 <= #[trigger] ord[k] < nodes.len()
        && state[ord[k]] is Done && finalized_form(nodes, nodes[ord[k]], post[k])
    &&& forall|k1: int, k2: int| 0 <= k1 < k2 < ord.len() ==> ord[k1] != ord[k2]
    &&& forall|j: int| 0 <= j < nodes.len() && (#[trigger] state[j]) is Done ==> exists|k: int|
        0 <= k < ord.len() && ord[k] == j
    &&& unique_names(post)
    &&& forall|k: int| 0 <= k < post.len() ==> #[trigger] deps_listed_before(post, k)
    &&& post.len() == count_done(state)
    &&& forall|t: int| 0 <= t < path.len() ==> (#[trigger] path[t] as int) < nodes.len()
        && state[path[t] as int] is InProgress
    &&& forall|j: int| 0 <= j < nodes.len() && (#[trigger] state[j]) is InProgress ==> exists|t: int|
        0 <= t < path.len() && path[t] as int == j
    &&& forall|t: int| 0 <= t < path.len() - 1 ==> dep_edge(
        nodes,
        #[trigger] path[t] as int,
        path[t + 1] as int,
    )
}

impl Target {
    /// Finalizes the node at position `i` of the arena, depth first.
    ///
    /// Resolves the node's dependency list, recursively finalizes every
    /// dependency that is still unvisited, and then moves the node into
    /// `post`. A dependency that is already in progress closes a cycle; a
    /// node whose name is already in `post` is a duplicate. Either fails the
    /// walk, as does an unresolved dependency name.
    pub fn finalize(
        nodes: &Vec<Target>,
        i: usize,
        state: &mut Vec<NodeState>,
        post: &mut Vec<Target>,
        path: &mut Vec<usize>,
        order: Ghost<Seq<int>>,
    ) -> (res: (Result<(), FinalizeError>, Ghost<Seq<int>>))
        requires
            fin_inv(nodes@, old(state)@, old(post)@, old(path)@, order@),
            i < nodes@.len(),
            old(state)@[i as int] is Unvisited,
            old(path)@.len() > 0 ==> dep_edge(nodes@, old(path)@.last() as int, i as int),
        ensures
            match res.0 {
                Ok(()) => {
                    &&& fin_inv(nodes@, final(state)@, final(post)@, final(path)@, res.1@)
                    &&& final(path)@ == old(path)@
                    &&& final(state)@[i as int] is Done
                    &&& state_advance(old(state)@, final(state)@)
                    &&& count_unvisited(final(state)@) < count_unvisited(old(state)@)
                },
                Err(e) => err_witness(nodes@, e),
            },
        decreases count_unvisited(old(state)@),
    {
        let ghost mut ord: Seq<int> = order@;

        // Resolve the dependency list against the whole arena.
        let sp = match nodes[i].dependencies.split(nodes) {
            Ok(sp) => sp,
            Err(e) => {
                proof {
                    match &e {
                        FinalizeError::UnresolvedDependency { name } => {
                            assert(unmatched_split_entry(nodes@, i as int, name@));
                        },
                        _ => {},
                    }
                }
                return (Err(e), Ghost(ord));
            },
        };
        let (inputs, deps) = sp;

        // Mark the node in progress and step onto the path.
        proof {
            lemma_count_update(state@, i as int, NodeState::InProgress);
        }
        state[i] = NodeState::InProgress;
        path.push(i);
        proof {
            let st1 = state@;
            assert(st1 =~= old(state)@.update(i as int, NodeState::InProgress));
            assert forall|k: int| 0 <= k < ord.len() implies 0 <= #[trigger] ord[k] < nodes@.len()
                && st1[ord[k]] is Done && finalized_form(nodes@, nodes@[ord[k]], post@[k]) by {
                assert(old(state)@[ord[k]] is Done);
            }
            assert forall|j: int| 0 <= j < nodes@.len() && (#[trigger] st1[j]) is Done implies
                exists|k: int| 0 <= k < ord.len() && ord[k] == j by {
                assert(old(state)@[j] is Done);
            }
            assert forall|j: int| 0 <= j < nodes@.len() && (#[trigger] st1[j]) is InProgress
                implies exists|t: int| 0 <= t < path@.len() && path@[t] as int == j by {
                if j == i as int {
                    assert(path@[path@.len() - 1] as int == j);
                } else {
                    assert(old(state)@[j] is InProgress);
                    let t = choose|t: int|
                        0 <= t < old(path)@.len() && old(path)@[t] as int == j;
                    assert(path@[t] as int == j);
                }
            }
            assert forall|t: int| 0 <= t < path@.len() implies (#[trigger] path@[t] as int)
                < nodes@.len() && st1[path@[t] as int] is InProgress by {
                if t < path@.len() - 1 {
                    assert(old(state)@[old(path)@[t] as int] is InProgress);
                }
            }
            assert forall|t: int| 0 <= t < path@.len() - 1 implies dep_edge(
                nodes@,
                #[trigger] path@[t] as int,
                path@[t + 1] as int,
            ) by {
                if t < path@.len() - 2 {
                    assert(dep_edge(nodes@, old(path)@[t] as int, old(path)@[t + 1] as int));
                } else {
                    assert(path@[t] == old(path)@[old(path)@.len() - 1]);
                    assert(path@[t + 1] == i);
                }
            }
            assert(fin_inv(nodes@, state@, post@, path@, ord));
        }

        let ghost deps_resolved = resolved_dep_names(nodes@, raw_entries(nodes@[i as int]));

        // Bring every dependency to the done state, in order.
        let mut d: usize = 0;
        while d < deps.len()
            invariant
                fin_inv(nodes@, state@, post@, path@, ord),
                i < nodes@.len(),
                deps@ == deps_resolved,
                deps_resolved == resolved_dep_names(nodes@, raw_entries(nodes@[i as int])),
                forall|q: int| 0 <= q < deps@.len() ==> is_some_primary_name(
                    nodes@,
                    #[trigger] deps@[q]@,
                ),
                path@ == old(path)@.push(i),
                state@[i as int] is InProgress,
                state@.len() == nodes@.len(),
                forall|j: int| 0 <= j < nodes@.len() && j != i ==> (((#[trigger] old(state)@[j])
                    is Done ==> state@[j] is Done) && (old(state)@[j] is InProgress <==> state@[j]
                    is InProgress) && (state@[j] is Unvisited ==> old(state)@[j] is Unvisited)),
                count_unvisited(state@) <= count_unvisited(old(state)@) - 1,
                forall|q: int| 0 <= q < d ==> done_first_owner(nodes@, state@, #[trigger] deps@[q]@),
            decreases deps@.len() - d,
        {
            let ghost s_prev = state@;
            let dep_idx = match find_by_name(nodes, &deps[d]) {
                Some(j) => j,
                None => {
                    proof {
                        assert(is_some_primary_name(nodes@, deps@[d as int]@));
                        assert(false);
                    }
                    unreached()
                },
            };
            proof {
                assert(dep_edge(nodes@, i as int, dep_idx as int)) by {
                    assert(0 <= d < deps_resolved.len() && is_first_by_name(
                        nodes@,
                        deps_resolved[d as int]@,
                        dep_idx as int,
                    ));
                }
            }
            let dep_state_done = match state[dep_idx] {
                NodeState::InProgress => {
                    // The dependency is an ancestor on the current path: the
                    // chain from its path position back to here is a cycle.
                    proof {
                        let t = choose|t: int|
                            0 <= t < path@.len() && path@[t] as int == dep_idx as int;
                        let c = Seq::new(
                            (path@.len() - t + 1) as nat,
                            |q: int|
                                if q < path@.len() - t {
                                    path@[t + q] as int
                                } else {
                                    dep_idx as int
                                },
                        );
                        assert(c[0] == dep_idx as int);
                        assert(c[c.len() - 1] == dep_idx as int);
                        assert(c[c.len() - 2] == path@[path@.len() - 1] as int);
                        assert(path@[path@.len() - 1] == i);
                        assert forall|q: int| 0 <= q < c.len() - 1 implies dep_edge(
                            nodes@,
                            #[trigger] c[q],
                            c[q + 1],
                        ) by {
                            if q < c.len() - 2 {
                                assert(dep_edge(nodes@, path@[t + q] as int, path@[t + q + 1] as int));
                            }
                        }
                        assert(is_dep_cycle(nodes@, c));
                    }
                    return (
                        Err(FinalizeError::Cycle { name: nodes[dep_idx].name.clone() }),
                        Ghost(ord),
                    );
                },
                NodeState::Done => true,
                NodeState::Unvisited => false,
            };
            if !dep_state_done {
                let (sub, o2) = Target::finalize(nodes, dep_idx, state, post, path, Ghost(ord));
                proof {
                    ord = o2@;
                }
                match sub {
                    Ok(()) => {},
                    Err(e) => {
                        return (Err(e), Ghost(ord));
                    },
                }
            }
            proof {
                assert(state@[dep_idx as int] is Done);
                assert forall|q: int| 0 <= q < d + 1 implies done_first_owner(
                    nodes@,
                    state@,
                    #[trigger] deps@[q]@,
                ) by {
                    if q < d {
                        let j = choose|j: int|
                            #[trigger] is_first_by_name(nodes@, deps@[q]@, j) && s_prev[j] is Done;
                        assert(state@[j] is Done);
                        assert(is_first_by_name(nodes@, deps@[q]@, j));
                    } else {
                        assert(is_first_by_name(nodes@, deps@[q]@, dep_idx as int));
                    }
                }
            }
            d += 1;
        }

        // Step off the path; the node is finalized and gets inserted.
        let _popped = path.pop();
        proof {
            assert(path@ =~= old(path)@);
        }

        match find_by_name(post, &nodes[i].name) {
            Some(k) => {
                // Another target already canonicalized to this name.
                proof {
                    let j0 = ord[k as int];
                    assert(nodes@[j0].name@ == nodes@[i as int].name@);
                    assert(state@[j0] is Done);
                    assert(j0 != i as int);
                    let lo = if j0 < i as int { j0 } else { i as int };
                    let hi = if j0 < i as int { i as int } else { j0 };
                    assert(0 <= lo < hi < nodes@.len() && nodes@[lo].name@ == nodes@[hi].name@
                        && nodes@[lo].name@ == nodes@[i as int].name@);
                }
                return (
                    Err(FinalizeError::DuplicateName { name: nodes[i].name.clone() }),
                    Ghost(ord),
                );
            },
            None => {},
        }

        let ghost state_mid = state@;
        let ghost post_mid = post@;
        let ghost ord_mid = ord;
        let fin = Target {
            name: nodes[i].name.clone(),
            outputs: clone_strings(&nodes[i].outputs),
            dependencies: MixedDeps::UnMixed { inputs, dependencies: deps },
            commands: clone_strings(&nodes[i].commands),
            extra: nodes[i].extra.duplicate(),
        };
        proof {
            lemma_count_update(state_mid, i as int, NodeState::Done);
            // The node cannot be among the recorded origins yet: those are all
            // done, while it is still in progress.
            assert forall|k: int| 0 <= k < ord_mid.len() implies ord_mid[k] != i as int by {
                assert(state_mid[ord_mid[k]] is Done);
            }
        }
        state[i] = NodeState::Done;
        post.push(fin);
        proof {
            ord = ord_mid.push(i as int);
            assert(spec_deps(fin) == deps@);
            assert(finalized_form(nodes@, nodes@[i as int], fin));
            let nst = state@;
            let npost = post@;
            assert(nst =~= state_mid.update(i as int, NodeState::Done));
            // Origins still point at done nodes in their finalized form.
            assert forall|k: int| 0 <= k < ord.len() implies 0 <= #[trigger] ord[k] < nodes@.len()
                && nst[ord[k]] is Done && finalized_form(nodes@, nodes@[ord[k]], npost[k]) by {
                if k < ord.len() - 1 {
                    assert(npost[k] == post_mid[k]);
                    assert(state_mid[ord_mid[k]] is Done);
                } else {
                    assert(npost[k] == fin);
                }
            }
            // Every done node has a recorded origin.
            assert forall|j: int| 0 <= j < nodes@.len() && (#[trigger] nst[j]) is Done implies
                exists|k: int| 0 <= k < ord.len() && ord[k] == j by {
                if j != i as int {
                    assert(state_mid[j] is Done);
                    let k = choose|k: int| 0 <= k < ord_mid.len() && ord_mid[k] == j;
                    assert(ord[k] == j);
                } else {
                    assert(ord[ord.len() - 1] == j);
                }
            }
            // Names stay unique: the duplicate scan came back empty.
            assert forall|k1: int, k2: int| 0 <= k1 < k2 < npost.len() implies npost[k1].name@
                != npost[k2].name@ by {
                if k2 < npost.len() - 1 {
                    assert(npost[k1] == post_mid[k1] && npost[k2] == post_mid[k2]);
                } else {
                    assert(npost[k1] == post_mid[k1]);
                    assert(post_mid[k1].name@ != nodes@[i as int].name@);
                }
            }
            // Every dependency name of every entry is owned by an earlier one.
            assert forall|k: int| 0 <= k < npost.len() implies #[trigger] deps_listed_before(
                npost,
                k,
            ) by {
                if k < npost.len() - 1 {
                    assert(deps_listed_before(post_mid, k));
                    assert forall|dd: int| 0 <= dd < spec_deps(npost[k]).len() implies
                        name_at_earlier(npost, k, #[trigger] spec_deps(npost[k])[dd]@) by {
                        assert(npost[k] == post_mid[k]);
                        assert(0 <= dd < spec_deps(post_mid[k]).len());
                        assert(name_at_earlier(post_mid, k, spec_deps(post_mid[k])[dd]@));
                        let j = choose|j: int|
                            0 <= j < k && (#[trigger] post_mid[j]).name@ == spec_deps(
                                post_mid[k],
                            )[dd]@;
                        assert(npost[j] == post_mid[j]);
                        assert(npost[j].name@ == spec_deps(npost[k])[dd]@);
                    }
                } else {
                    // The new entry: each dependency was brought to done, and
                    // done nodes already stand in the map under their names.
                    assert forall|dd: int| 0 <= dd < spec_deps(npost[k]).len() implies
                        name_at_earlier(npost, k, #[trigger] spec_deps(npost[k])[dd]@) by {
                        assert(npost[k] == fin);
                        assert(done_first_owner(nodes@, state_mid, deps@[dd]@));
                        let jn = choose|jn: int|
                            #[trigger] is_first_by_name(nodes@, deps@[dd]@, jn) && state_mid[jn]
                                is Done;
                        assert(state_mid[jn] is Done);
                        let k0 = choose|k0: int| 0 <= k0 < ord_mid.len() && ord_mid[k0] == jn;
                        assert(finalized_form(nodes@, nodes@[jn], post_mid[k0]));
                        assert(k0 < k);
                        assert(npost[k0] == post_mid[k0]);
                        assert(npost[k0].name@ == spec_deps(npost[k])[dd]@);
                    }
                }
            }
            // The path is as it was handed in, and no in-progress mark is new.
            assert forall|j: int| 0 <= j < nodes@.len() && (#[trigger] nst[j]) is InProgress
                implies exists|t: int| 0 <= t < path@.len() && path@[t] as int == j by {
                assert(state_mid[j] is InProgress);
                let t = choose|t: int|
                    0 <= t < old(path)@.push(i).len() && old(path)@.push(i)[t] as int == j;
                assert(old(path)@.push(i)[old(path)@.len() as int] == i);
                assert(t < old(path)@.len());
                assert(path@[t] as int == j);
            }
            assert(fin_inv(nodes@, state@, post@, path@, ord));
            assert(state_advance(old(state)@, state@));
        }
                (Ok(()), Ghost(ord))
    }
}

proof fn lemma_pos_valid(ord: Seq<int>, j: int)
    requires
        ord_covers(ord, j),
    ensures
        0 <= ord_pos(ord, j) < ord.len(),
        ord[ord_pos(ord, j)] == j,
{
}

/// A map with unique names built from distinct raw targets forces the raw
/// names to be unique as well.
proof fn lemma_order_unique_names(raw: Seq<Target>, fin: Seq<Target>, ord: Seq<int>)
    requires
        matches_order(raw, fin, ord),
        unique_names(fin),
    ensures
        unique_names(raw),
{
    assert forall|i: int, j: int| 0 <= i < j < raw.len() implies raw[i].name@ != raw[j].name@ by {
        assert(ord_covers(ord, i));
        assert(ord_covers(ord, j));
        let ki = choose|k: int| 0 <= k < ord.len() && #[trigger] ord[k] == i;
        let kj = choose|k: int| 0 <= k < ord.len() && #[trigger] ord[k] == j;
        assert(finalized_form(raw, raw[i], fin[ki]));
        assert(finalized_form(raw, raw[j], fin[kj]));
        assert(ki != kj);
        if ki < kj {
            assert(fin[ki].name@ != fin[kj].name@);
        } else {
            assert(fin[kj].name@ != fin[ki].name@);
        }
    }
}

/// Along a dependency edge the map position strictly decreases: targets are
/// inserted only after their dependencies.
proof fn lemma_edge_pos_decreases(
    raw: Seq<Target>,
    fin: Seq<Target>,
    ord: Seq<int>,
    a: int,
    b: int,
)
    requires
        matches_order(raw, fin, ord),
        map_wf(fin),
        unique_names(raw),
        dep_edge(raw, a, b),
    ensures
        0 <= b < raw.len(),
        0 <= ord_pos(ord, b) < ord_pos(ord, a) < ord.len(),
{
    let entries = resolved_dep_names(raw, raw_entries(raw[a]));
    let kd = choose|k: int|
        0 <= k < entries.len() && is_first_by_name(raw, #[trigger] entries[k]@, b);
    assert(ord_covers(ord, a));
    lemma_pos_valid(ord, a);
    let pa = ord_pos(ord, a);
    assert(finalized_form(raw, raw[a], fin[pa]));
    assert(spec_deps(fin[pa]) == entries);
    assert(deps_listed_before(fin, pa));
    assert(name_at_earlier(fin, pa, spec_deps(fin[pa])[kd]@));
    let jq = choose|j: int| 0 <= j < pa && (#[trigger] fin[j]).name@ == spec_deps(fin[pa])[kd]@;
    assert(finalized_form(raw, raw[ord[jq]], fin[jq]));
    assert(raw[ord[jq]].name@ == raw[b].name@);
    if ord[jq] != b {
        if ord[jq] < b {
            assert(raw[ord[jq]].name@ != raw[b].name@);
        } else {
            assert(raw[b].name@ != raw[ord[jq]].name@);
        }
    }
    assert(ord[jq] == b);
    lemma_pos_valid(ord, b);
    let pb = ord_pos(ord, b);
    if pb != jq {
        if pb < jq {
            assert(ord[pb] != ord[jq]);
        } else {
            assert(ord[jq] != ord[pb]);
        }
    }
}

/// Positions strictly decrease along a dependency chain.
proof fn lemma_chain_pos(
    raw: Seq<Target>,
    fin: Seq<Target>,
    ord: Seq<int>,
    c: Seq<int>,
    t: int,
)
    requires
        matches_order(raw, fin, ord),
        map_wf(fin),
        unique_names(raw),
        forall|q: int| 0 <= q < c.len() - 1 ==> dep_edge(raw, #[trigger] c[q], c[q + 1]),
        0 <= t < c.len(),
        c.len() >= 2,
    ensures
        0 <= c[t] < raw.len(),
        ord_pos(ord, c[t]) <= ord_pos(ord, c[0]) - t,
    decreases t,
{
    if t == 0 {
        assert(dep_edge(raw, c[0], c[1]));
    } else {
        lemma_chain_pos(raw, fin, ord, c, t - 1);
        lemma_edge_pos_decreases(raw, fin, ord, c[t - 1], c[t]);
    }
}

/// A map whose every dependency stands earlier than its dependent admits no
/// dependency cycle among the raw targets it was built from.
proof fn lemma_no_cycle(raw: Seq<Target>, fin: Seq<Target>, ord: Seq<int>)
    requires
        matches_order(raw, fin, ord),
        map_wf(fin),
        unique_names(raw),
    ensures
        !has_dep_cycle(raw),
{
    if has_dep_cycle(raw) {
        let c = choose|c: Seq<int>| is_dep_cycle(raw, c);
        lemma_chain_pos(raw, fin, ord, c, c.len() - 1);
        assert(c[c.len() - 1] == c[0]);
        assert(false);
    }
}

impl View for TargetMap {
    type V = Seq<Target>;

    closed spec fn view(&self) -> Seq<Target> {
        self.targets@
    }
}

/// The view of a map is the sequence its targets are kept in.
pub(crate) proof fn lemma_view_is_targets(m: &TargetMap)
    ensures
        m@ == m.targets@,
{
}

impl TargetMap {
    /// Every finalized map is well formed: unique names, split dependency
    /// lists, dependencies before dependents.
    #[verifier::type_invariant]
    pub open spec fn wf(self) -> bool {
        map_wf(self@)
    }


    /// Number of targets in the map.
    pub fn len(&self) -> (n: usize)
        ensures
            n == self@.len(),
    {
        self.targets.len()
    }

    /// The target at position `i`, in insertion (dependency) order.
    pub fn target_at(&self, i: usize) -> (t: &Target)
        requires
            i < self@.len(),
        ensures
            *t == self@[i as int],
    {
        &self.targets[i]
    }

    /// Looks a target up by its canonical name.
    pub fn get(&self, name: &String) -> (r: Option<&Target>)
        ensures
            match r {
                Some(t) => exists|j: int|
                    #[trigger] is_first_by_name(self@, name@, j) && *t == self@[j],
                None => !is_some_primary_name(self@, name@),
            },
    {
        match find_by_name(&self.targets, name) {
            Some(i) => {
                proof {
                    assert(is_first_by_name(self@, name@, i as int));
                }
                Some(&self.targets[i])
            },
            None => None,
        }
    }
}

impl Target {
    /// Finalizes a whole batch of raw targets into a validated map.
    ///
    /// On success the map holds exactly the given targets, each in finalized
    /// form under its canonical name, arranged so that every target follows
    /// its dependencies. The batch fails as a whole on a dependency cycle, on
    /// two targets sharing one canonical name, or on a split dependency name
    /// that no target owns, and the error carries the offending name.
    pub fn finalize_list(list: Vec<Target>) -> (r: Result<TargetMap, FinalizeError>)
        ensures
            (match r {
                Ok(m) => {
                    &&& map_wf(m@)
                    &&& m@.len() == list@.len()
                    &&& exists|ord: Seq<int>| #[trigger] matches_order(list@, m@, ord)
                    &&& forall|k: int| 0 <= k < m@.len() ==> is_some_primary_name(
                        list@,
                        #[trigger] m@[k].name@,
                    )
                    &&& forall|i: int| 0 <= i < list@.len() ==> is_some_primary_name(
                        m@,
                        #[trigger] list@[i].name@,
                    )
                },
                Err(e) => err_witness(list@, e),
            }),
            unique_names(list@) && all_resolvable(list@) && !has_dep_cycle(list@) ==> r is Ok,
            unique_names(list@) && all_resolvable(list@) && has_dep_cycle(list@) ==> (r matches Err(
                FinalizeError::Cycle { .. },
            )),
            !unique_names(list@) && all_resolvable(list@) && !has_dep_cycle(list@) ==> (r matches Err(
                FinalizeError::DuplicateName { .. },
            )),
    {
        let n = list.len();
        let mut state: Vec<NodeState> = Vec::new();
        while state.len() < n
            invariant
                state@.len() <= n,
                forall|j: int| 0 <= j < state@.len() ==> (#[trigger] state@[j]) is Unvisited,
            decreases n - state@.len(),
        {
            state.push(NodeState::Unvisited);
        }
        let mut post: Vec<Target> = Vec::new();
        let mut path: Vec<usize> = Vec::new();
        let ghost mut ord: Seq<int> = Seq::empty();
        proof {
            lemma_count_uniform(state@);
            assert(fin_inv(list@, state@, post@, path@, ord));
        }

        let mut idx: usize = 0;
        while idx < n
            invariant
                n == list@.len(),
                fin_inv(list@, state@, post@, path@, ord),
                path@.len() == 0,
                state@.len() == n,
                forall|j: int| 0 <= j < idx ==> (#[trigger] state@[j]) is Done,
                forall|j: int| 0 <= j < n ==> !((#[trigger] state@[j]) is InProgress),
            decreases n - idx,
        {
            let ghost s_top = state@;
            let unvisited = match state[idx] {
                NodeState::Unvisited => true,
                NodeState::InProgress => false,
                NodeState::Done => false,
            };
            if unvisited {
                let (sub, o2) = Target::finalize(&list, idx, &mut state, &mut post, &mut path, Ghost(ord));
                proof {
                    ord = o2@;
                }
                match sub {
                    Ok(()) => {},
                    Err(e) => {
                        proof {
                            match &e {
                                FinalizeError::Cycle { name } => {
                                    assert(has_dep_cycle(list@));
                                },
                                FinalizeError::DuplicateName { name } => {
                                    let (di, dj) = choose|di: int, dj: int|
                                        #![trigger list@[di].name@, list@[dj].name@]
                                        0 <= di < dj < list@.len() && list@[di].name@
                                            == list@[dj].name@ && list@[di].name@ == name@;
                                    assert(!unique_names(list@));
                                },
                                FinalizeError::UnresolvedDependency { name } => {
                                    let wi = choose|wi: int|
                                        0 <= wi < list@.len() && #[trigger] unmatched_split_entry(
                                            list@,
                                            wi,
                                            name@,
                                        );
                                    if all_resolvable(list@) {
                                        assert(resolvable_at(list@, wi));
                                        assert(false);
                                    }
                                },
                            }
                        }
                        return Err(e);
                    },
                }
            }
            proof {
                assert(state@[idx as int] is Done);
                assert forall|j: int| 0 <= j < idx + 1 implies (#[trigger] state@[j]) is Done by {
                    if j < idx {
                        assert(s_top[j] is Done);
                    }
                }
            }
            idx += 1;
        }

        proof {
            lemma_count_uniform(state@);
            assert(post@.len() == n);
            assert forall|i: int| 0 <= i < list@.len() implies #[trigger] ord_covers(ord, i) by {
                assert(state@[i] is Done);
                let k = choose|k: int| 0 <= k < ord.len() && ord[k] == i;
                assert(ord[k] == i);
            }
            assert(matches_order(list@, post@, ord));
            assert forall|k: int| 0 <= k < post@.len() implies (#[trigger] post@[k]).dependencies
                is UnMixed by {
                assert(finalized_form(list@, list@[ord[k]], post@[k]));
            }
            assert(map_wf(post@));
            assert forall|k: int| 0 <= k < post@.len() implies is_some_primary_name(
                list@,
                #[trigger] post@[k].name@,
            ) by {
                assert(finalized_form(list@, list@[ord[k]], post@[k]));
                assert(list@[ord[k]].name@ == post@[k].name@);
            }
            assert forall|i: int| 0 <= i < list@.len() implies is_some_primary_name(
                post@,
                #[trigger] list@[i].name@,
            ) by {
                assert(ord_covers(ord, i));
                let k = choose|k: int| 0 <= k < ord.len() && #[trigger] ord[k] == i;
                assert(finalized_form(list@, list@[i], post@[k]));
                assert(post@[k].name@ == list@[i].name@);
            }
            if unique_names(list@) && all_resolvable(list@) && has_dep_cycle(list@) {
                lemma_no_cycle(list@, post@, ord);
                assert(false);
            }
            if !unique_names(list@) && all_resolvable(list@) && !has_dep_cycle(list@) {
                lemma_order_unique_names(list@, post@, ord);
                assert(false);
            }
        }
        Ok(TargetMap { targets: post })
    }
}

} // verus!
