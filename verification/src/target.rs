//! Targets: format-independent build units.
//!
//! A target turns input files into output files by running commands, and may
//! depend on other targets that produce its inputs. Dependency lists arrive
//! from format front ends either already split into inputs and dependency
//! names, or mixed: a single list of names, each of which is an input file
//! path unless some target answers to it.

use vstd::prelude::*;

use crate::finalize::FinalizeError;

verus! {

/// Format-specific auxiliary data carried by a target.
///
/// Its one capability is deciding which names may refer to the target, beyond
/// the target's own primary name.
pub enum TargetExtra {
    /// The target answers only to its primary name.
    Plain,
    /// The target also answers to any of these alternate names. Formats in
    /// which one target is addressable through each of its output files use
    /// this variant.
    Aliases(Vec<String>),
}

/// A dependency list, either still mixed or already split.
///
/// A mixed list holds names whose kind (input file or dependency target) is
/// decided only during finalization; a split list keeps input file paths and
/// canonical dependency target names apart.
pub enum MixedDeps {
    Mixed(Vec<String>),
    UnMixed { inputs: Vec<String>, dependencies: Vec<String> },
}

/// A named build unit: outputs produced from inputs by running commands, after
/// the targets it depends on are up to date.
pub struct Target {
    /// Name of the target; unique within a finalized map.
    pub name: String,
    /// Files produced by the target.
    pub outputs: Vec<String>,
    /// Inputs and dependencies, mixed or split.
    pub dependencies: MixedDeps,
    /// Shell command lines to run, in order.
    pub commands: Vec<String>,
    /// Format-specific auxiliary data.
    pub extra: TargetExtra,
}

/// Whether the target `t` may be referred to by `name`.
pub open spec fn has_name_spec(t: Target, name: Seq<char>) -> bool {
    match t.extra {
        TargetExtra::Plain => t.name@ == name,
        TargetExtra::Aliases(aliases) => t.name@ == name || exists|k: int|
            0 <= k < aliases@.len() && aliases@[k]@ == name,
    }
}

/// Whether some target of `nodes` answers to `name`.
pub open spec fn matches_any(nodes: Seq<Target>, name: Seq<char>) -> bool {
    exists|i: int| 0 <= i < nodes.len() && has_name_spec(nodes[i], name)
}

/// `i` is the position of the first target of `nodes` that answers to `name`.
pub open spec fn is_first_match(nodes: Seq<Target>, name: Seq<char>, i: int) -> bool {
    &&& 0 <= i < nodes.len()
    &&& has_name_spec(nodes[i], name)
    &&& forall|j: int| 0 <= j < i ==> !has_name_spec(nodes[j], name)
}

/// Whether `name` is the primary name of some target of `nodes`.
pub open spec fn is_some_primary_name(nodes: Seq<Target>, name: Seq<char>) -> bool {
    exists|j: int| 0 <= j < nodes.len() && nodes[j].name@ == name
}

/// `i` is the position of the first target of `nodes` whose primary name is
/// `name`.
pub open spec fn is_first_by_name(nodes: Seq<Target>, name: Seq<char>, i: int) -> bool {
    &&& 0 <= i < nodes.len()
    &&& nodes[i].name@ == name
    &&& forall|j: int| 0 <= j < i ==> nodes[j].name@ != name
}

/// The canonical form of a dependency name: the primary name of the first
/// target that answers to it. Meaningful only when such a target exists.
pub open spec fn canon_of(nodes: Seq<Target>, name: Seq<char>) -> String {
    let i = choose|i: int| is_first_match(nodes, name, i);
    nodes[i].name
}

/// The input-file half of resolving a mixed list: the entries to which no
/// target answers, in order.
pub open spec fn resolved_inputs(nodes: Seq<Target>, entries: Seq<String>) -> Seq<String>
    decreases entries.len(),
{
    if entries.len() == 0 {
        Seq::empty()
    } else {
        let rest = resolved_inputs(nodes, entries.drop_last());
        if matches_any(nodes, entries.last()@) {
            rest
        } else {
            rest.push(entries.last())
        }
    }
}

/// The dependency half of resolving a list of entries: the canonical names of
/// the entries to which some target answers, in order.
pub open spec fn resolved_dep_names(nodes: Seq<Target>, entries: Seq<String>) -> Seq<String>
    decreases entries.len(),
{
    if entries.len() == 0 {
        Seq::empty()
    } else {
        let rest = resolved_dep_names(nodes, entries.drop_last());
        if matches_any(nodes, entries.last()@) {
            rest.push(canon_of(nodes, entries.last()@))
        } else {
            rest
        }
    }
}

/// Whether every entry names some target. Splitting an already-split list
/// succeeds exactly when this holds of its dependency names.
pub open spec fn all_match(nodes: Seq<Target>, entries: Seq<String>) -> bool {
    forall|k: int| 0 <= k < entries.len() ==> matches_any(nodes, entries[k]@)
}

/// The dependency entries of a target as the front end wrote them, before
/// canonicalization.
pub open spec fn raw_entries(t: Target) -> Seq<String> {
    match t.dependencies {
        MixedDeps::Mixed(entries) => entries@,
        MixedDeps::UnMixed { dependencies, .. } => dependencies@,
    }
}

/// The input files of a split target; empty on a still-mixed one.
pub open spec fn spec_inputs(t: Target) -> Seq<String> {
    match t.dependencies {
        MixedDeps::Mixed(_) => Seq::empty(),
        MixedDeps::UnMixed { inputs, .. } => inputs@,
    }
}

/// The dependency names of a split target; empty on a still-mixed one.
pub open spec fn spec_deps(t: Target) -> Seq<String> {
    match t.dependencies {
        MixedDeps::Mixed(_) => Seq::empty(),
        MixedDeps::UnMixed { dependencies, .. } => dependencies@,
    }
}

/// Two first matches for one name are the same position.
pub proof fn lemma_first_match_unique(nodes: Seq<Target>, name: Seq<char>, i1: int, i2: int)
    requires
        is_first_match(nodes, name, i1),
        is_first_match(nodes, name, i2),
    ensures
        i1 == i2,
{
    if i1 < i2 {
        assert(!has_name_spec(nodes[i1], name));
    }
    if i2 < i1 {
        assert(!has_name_spec(nodes[i2], name));
    }
}

/// Position of the first target of `nodes` that answers to `name`, if any.
pub fn find_matching(nodes: &Vec<Target>, name: &String) -> (r: Option<usize>)
    ensures
        match r {
            Some(i) => is_first_match(nodes@, name@, i as int),
            None => !matches_any(nodes@, name@),
        },
{
    let mut i: usize = 0;
    while i < nodes.len()
        invariant
            i <= nodes@.len(),
            forall|j: int| 0 <= j < i ==> !has_name_spec(nodes@[j], name@),
        decreases nodes@.len() - i,
    {
        if nodes[i].has_name(name) {
            return Some(i);
        }
        i += 1;
    }
    None
}

/// Position of the first target of `nodes` whose primary name is `name`, if
/// any.
pub fn find_by_name(nodes: &Vec<Target>, name: &String) -> (r: Option<usize>)
    ensures
        match r {
            Some(i) => is_first_by_name(nodes@, name@, i as int),
            None => forall|j: int| 0 <= j < nodes@.len() ==> nodes@[j].name@ != name@,
        },
{
    let mut i: usize = 0;
    while i < nodes.len()
        invariant
            i <= nodes@.len(),
            forall|j: int| 0 <= j < i ==> nodes@[j].name@ != name@,
        decreases nodes@.len() - i,
    {
        if nodes[i].name == *name {
            return Some(i);
        }
        i += 1;
    }
    None
}

/// A copy of a string vector, element for element.
pub fn clone_strings(v: &Vec<String>) -> (r: Vec<String>)
    ensures
        r@ == v@,
{
    let mut r: Vec<String> = Vec::new();
    let mut i: usize = 0;
    while i < v.len()
        invariant
            i <= v@.len(),
            r@ == v@.take(i as int),
        decreases v@.len() - i,
    {
        r.push(v[i].clone());
        proof {
            assert(r@ =~= v@.take(i as int + 1));
        }
        i += 1;
    }
    proof {
        assert(v@.take(v@.len() as int) =~= v@);
    }
    r
}

/// Whether two pieces of auxiliary data carry the same content.
pub open spec fn extra_equiv(a: TargetExtra, b: TargetExtra) -> bool {
    match (a, b) {
        (TargetExtra::Plain, TargetExtra::Plain) => true,
        (TargetExtra::Aliases(x), TargetExtra::Aliases(y)) => x@ == y@,
        _ => false,
    }
}

impl TargetExtra {
    /// A copy of the auxiliary data.
    pub fn duplicate(&self) -> (r: TargetExtra)
        ensures
            extra_equiv(r, *self),
    {
        match self {
            TargetExtra::Plain => TargetExtra::Plain,
            TargetExtra::Aliases(aliases) => {
                let copy = clone_strings(aliases);
                TargetExtra::Aliases(copy)
            },
        }
    }
}

impl MixedDeps {
    /// Resolves this dependency list against `nodes`: entries to which some
    /// target answers become dependencies under that target's canonical
    /// (primary) name; on a mixed list the remaining entries become input
    /// files, in order.
    ///
    /// Splitting an already-split list re-canonicalizes its dependency names
    /// and fails with an unresolved-dependency error if any of them names no
    /// target; its inputs pass through unchanged. Splitting a mixed list
    /// cannot fail.
    #[verifier::loop_isolation(false)]
    pub fn split(&self, nodes: &Vec<Target>) -> (r: Result<(Vec<String>, Vec<String>), FinalizeError>)
        ensures
            match r {
                Ok(sp) => {
                    &&& match *self {
                        MixedDeps::Mixed(entries) => {
                            &&& sp.0@ == resolved_inputs(nodes@, entries@)
                            &&& sp.1@ == resolved_dep_names(nodes@, entries@)
                        },
                        MixedDeps::UnMixed { inputs, dependencies } => {
                            &&& sp.0@ == inputs@
                            &&& sp.1@ == resolved_dep_names(nodes@, dependencies@)
                            &&& all_match(nodes@, dependencies@)
                        },
                    }
                    &&& forall|k: int| 0 <= k < sp.1@.len()
                        ==> is_some_primary_name(nodes@, #[trigger] sp.1@[k]@)
                },
                Err(e) => match *self {
                    MixedDeps::Mixed(_) => false,
                    MixedDeps::UnMixed { dependencies, .. } => {
                        &&& e matches FinalizeError::UnresolvedDependency { name }
                            && !matches_any(nodes@, name@)
                            && exists|k: int| 0 <= k < dependencies@.len()
                                && #[trigger] dependencies@[k]@ == name@
                    },
                },
            },
            r is Err <==> match *self {
                MixedDeps::Mixed(_) => false,
                MixedDeps::UnMixed { dependencies, .. } => !all_match(nodes@, dependencies@),
            },
    {
        match self {
            MixedDeps::Mixed(entries) => {
                let mut inputs: Vec<String> = Vec::new();
                let mut deps: Vec<String> = Vec::new();
                let mut k: usize = 0;
                while k < entries.len()
                    invariant
                        k <= entries@.len(),
                        inputs@ == resolved_inputs(nodes@, entries@.take(k as int)),
                        deps@ == resolved_dep_names(nodes@, entries@.take(k as int)),
                        forall|q: int| 0 <= q < deps@.len()
                            ==> is_some_primary_name(nodes@, #[trigger] deps@[q]@),
                    decreases entries@.len() - k,
                {
                    proof {
                        assert(entries@.take(k as int + 1).drop_last() =~= entries@.take(k as int));
                        assert(entries@.take(k as int + 1).last() == entries@[k as int]);
                    }
                    match find_matching(nodes, &entries[k]) {
                        Some(j) => {
                            proof {
                                let c = choose|c: int| is_first_match(nodes@, entries@[k as int]@, c);
                                lemma_first_match_unique(nodes@, entries@[k as int]@, c, j as int);
                            }
                            deps.push(nodes[j].name.clone());
                        },
                        None => {
                            inputs.push(entries[k].clone());
                        },
                    }
                    k += 1;
                }
                proof {
                    assert(entries@.take(entries@.len() as int) =~= entries@);
                }
                Ok((inputs, deps))
            },
            MixedDeps::UnMixed { inputs, dependencies } => {
                let mut deps: Vec<String> = Vec::new();
                let mut k: usize = 0;
                while k < dependencies.len()
                    invariant
                        k <= dependencies@.len(),
                        deps@ == resolved_dep_names(nodes@, dependencies@.take(k as int)),
                        forall|q: int| 0 <= q < k ==> matches_any(nodes@, dependencies@[q]@),
                        forall|q: int| 0 <= q < deps@.len()
                            ==> is_some_primary_name(nodes@, #[trigger] deps@[q]@),
                    decreases dependencies@.len() - k,
                {
                    proof {
                        assert(dependencies@.take(k as int + 1).drop_last() =~= dependencies@.take(
                            k as int,
                        ));
                        assert(dependencies@.take(k as int + 1).last() == dependencies@[k as int]);
                    }
                    match find_matching(nodes, &dependencies[k]) {
                        Some(j) => {
                            proof {
                                let c = choose|c: int|
                                    is_first_match(nodes@, dependencies@[k as int]@, c);
                                lemma_first_match_unique(nodes@, dependencies@[k as int]@, c, j as int);
                            }
                            deps.push(nodes[j].name.clone());
                        },
                        None => {
                            let offender = dependencies[k].clone();
                            proof {
                                assert(dependencies@[k as int]@ == offender@);
                                assert(!all_match(nodes@, dependencies@));
                            }
                            return Err(FinalizeError::UnresolvedDependency { name: offender });
                        },
                    }
                    k += 1;
                }
                proof {
                    assert(dependencies@.take(dependencies@.len() as int) =~= dependencies@);
                }
                let copy = clone_strings(inputs);
                proof {
                    assert(all_match(nodes@, dependencies@));
                }
                Ok((copy, deps))
            },
        }
    }
}

impl Target {
    /// Creates a new target from its parts.
    pub fn new(
        name: String,
        outputs: Vec<String>,
        dependencies: MixedDeps,
        commands: Vec<String>,
        extra: TargetExtra,
    ) -> (t: Target)
        ensures
            t == (Target { name, outputs, dependencies, commands, extra }),
    {
        Target { name, outputs, dependencies, commands, extra }
    }

    /// Whether this target may be referred to by `name`: either it is the
    /// primary name, or the format-specific data reports it as an alternate
    /// one.
    #[verifier::loop_isolation(false)]
    pub fn has_name(&self, name: &String) -> (r: bool)
        ensures
            r == has_name_spec(*self, name@),
    {
        if self.name == *name {
            return true;
        }
        match &self.extra {
            TargetExtra::Plain => false,
            TargetExtra::Aliases(aliases) => {
                let mut k: usize = 0;
                while k < aliases.len()
                    invariant
                        k <= aliases@.len(),
                        forall|j: int| 0 <= j < k ==> aliases@[j]@ != name@,
                    decreases aliases@.len() - k,
                {
                    if aliases[k] == *name {
                        proof {
                            assert(aliases@[k as int]@ == name@);
                        }
                        return true;
                    }
                    k += 1;
                }
                false
            },
        }
    }

    /// The input files of the target.
    ///
    /// Meaningful only after finalization: a still-mixed dependency list has
    /// no known inputs, and such a call is a programming error, kept out by
    /// the precondition.
    pub fn inputs(&self) -> (r: &Vec<String>)
        requires
            self.dependencies is UnMixed,
        ensures
            r@ == spec_inputs(*self),
    {
        match &self.dependencies {
            MixedDeps::UnMixed { inputs, .. } => inputs,
            MixedDeps::Mixed(_) => unreached(),
        }
    }

    /// The dependency target names of the target.
    ///
    /// Meaningful only after finalization, as with [`Target::inputs`].
    pub fn dependencies(&self) -> (r: &Vec<String>)
        requires
            self.dependencies is UnMixed,
        ensures
            r@ == spec_deps(*self),
    {
        match &self.dependencies {
            MixedDeps::UnMixed { dependencies, .. } => dependencies,
            MixedDeps::Mixed(_) => unreached(),
        }
    }
}

} // verus!
