//! Rules: a simpler, non-graph build abstraction.
//!
//! A rule is one flat list of inputs, outputs and commands, with no
//! dependencies between rules. Every input is assumed to feed every output,
//! so the rule is stale as soon as some output is missing or older than the
//! newest input. The target graph subsumes rules; they remain as the small
//! front for build files that need no dependency structure.

use vstd::prelude::*;

verus! {

/// A basic rule to execute: commands, inputs and outputs, carrying the
/// modification times that were probed when the rule was built. Inputs must
/// exist at that point, so each carries a time; an output may not exist yet.
pub struct Rule {
    /// Commands to run to execute the rule.
    pub cmds: Vec<String>,
    /// Input files: path and last modification time.
    pub inps: Vec<(String, u64)>,
    /// Output files: path and modification time, absent when the file does
    /// not exist.
    pub outs: Vec<(String, Option<u64>)>,
}

/// Information about one output's update requirements.
pub struct UpdateReq {
    /// The path to the output.
    pub path: String,
    /// The modification time of the output, if it existed.
    pub time: Option<u64>,
    /// The paths of the inputs modified after the output, recorded only when
    /// the output existed.
    pub inps: Option<Vec<String>>,
}

/// The latest modification time among the inputs; zero when there are none.
pub open spec fn latest_input_time(inps: Seq<(String, u64)>) -> u64
    decreases inps.len(),
{
    if inps.len() == 0 {
        0
    } else {
        let rest = latest_input_time(inps.drop_last());
        if inps.last().1 > rest {
            inps.last().1
        } else {
            rest
        }
    }
}

/// Whether one output, by its recorded time, needs an update against the
/// given latest input time: it is missing, or strictly older.
pub open spec fn output_needs(time: Option<u64>, latest: u64) -> bool {
    match time {
        Option::None => true,
        Option::Some(t) => t < latest,
    }
}

/// A rule needs an update when it has no inputs at all, or when some output
/// is missing or older than the newest input.
pub open spec fn rule_needs_update(r: Rule) -> bool {
    ||| r.inps@.len() == 0
    ||| exists|k: int|
        0 <= k < r.outs@.len() && output_needs(
            (#[trigger] r.outs@[k]).1,
            latest_input_time(r.inps@),
        )
}

/// The input paths whose recorded time is strictly newer than `mt`, in order.
pub open spec fn newer_inputs(inps: Seq<(String, u64)>, mt: u64) -> Seq<String>
    decreases inps.len(),
{
    if inps.len() == 0 {
        Seq::empty()
    } else {
        let rest = newer_inputs(inps.drop_last(), mt);
        if inps.last().1 > mt {
            rest.push(inps.last().0)
        } else {
            rest
        }
    }
}

impl Rule {
    /// Creates a rule from its commands and its already-probed inputs and
    /// outputs.
    pub fn new(
        cmds: Vec<String>,
        inps: Vec<(String, u64)>,
        outs: Vec<(String, Option<u64>)>,
    ) -> (r: Rule)
        ensures
            r == (Rule { cmds, inps, outs }),
    {
        Rule { cmds, inps, outs }
    }

    /// Whether an update is necessary: the rule has no inputs, or some output
    /// is missing or was modified before the newest input modification.
    #[verifier::loop_isolation(false)]
    pub fn needs_update(&self) -> (r: bool)
        ensures
            r == rule_needs_update(*self),
    {
        if self.inps.len() == 0 {
            return true;
        }
        let mut latest: u64 = 0;
        let mut k: usize = 0;
        while k < self.inps.len()
            invariant
                k <= self.inps@.len(),
                latest == latest_input_time(self.inps@.take(k as int)),
            decreases self.inps@.len() - k,
        {
            proof {
                assert(self.inps@.take(k as int + 1).drop_last() =~= self.inps@.take(k as int));
                assert(self.inps@.take(k as int + 1).last() == self.inps@[k as int]);
            }
            if self.inps[k].1 > latest {
                latest = self.inps[k].1;
            }
            k += 1;
        }
        proof {
            assert(self.inps@.take(self.inps@.len() as int) =~= self.inps@);
        }
        let mut a: usize = 0;
        while a < self.outs.len()
            invariant
                a <= self.outs@.len(),
                latest == latest_input_time(self.inps@),
                forall|q: int| 0 <= q < a ==> !output_needs((#[trigger] self.outs@[q]).1, latest),
            decreases self.outs@.len() - a,
        {
            let needs = match self.outs[a].1 {
                Option::None => true,
                Option::Some(t) => t < latest,
            };
            if needs {
                proof {
                    assert(output_needs(self.outs@[a as int].1, latest));
                }
                return true;
            }
            a += 1;
        }
        false
    }

    /// Detailed per-output update requirements, one entry per output in
    /// order: its path, its recorded time, and, when it existed, the inputs
    /// newer than it.
    #[verifier::loop_isolation(false)]
    pub fn update_reqs(&self) -> (r: Vec<UpdateReq>)
        ensures
            r@.len() == self.outs@.len(),
            forall|k: int| 0 <= k < r@.len() ==> req_describes(*self, #[trigger] r@[k], k),
    {
        let mut res: Vec<UpdateReq> = Vec::new();
        let mut a: usize = 0;
        while a < self.outs.len()
            invariant
                a <= self.outs@.len(),
                res@.len() == a,
                forall|k: int| 0 <= k < a ==> req_describes(*self, #[trigger] res@[k], k),
            decreases self.outs@.len() - a,
        {
            let time = self.outs[a].1;
            let newer = match time {
                Option::None => Option::None,
                Option::Some(mt) => {
                    let mut v: Vec<String> = Vec::new();
                    let mut b: usize = 0;
                    while b < self.inps.len()
                        invariant
                            b <= self.inps@.len(),
                            v@ == newer_inputs(self.inps@.take(b as int), mt),
                        decreases self.inps@.len() - b,
                    {
                        proof {
                            assert(self.inps@.take(b as int + 1).drop_last() =~= self.inps@.take(
                                b as int,
                            ));
                            assert(self.inps@.take(b as int + 1).last() == self.inps@[b as int]);
                        }
                        if self.inps[b].1 > mt {
                            v.push(self.inps[b].0.clone());
                        }
                        b += 1;
                    }
                    proof {
                        assert(self.inps@.take(self.inps@.len() as int) =~= self.inps@);
                    }
                    Option::Some(v)
                },
            };
            res.push(UpdateReq { path: self.outs[a].0.clone(), time, inps: newer });
            a += 1;
        }
        res
    }
}

/// `req` is the update requirement of the output at position `k`: same path
/// and time, and the newer-input list exactly when the output existed.
pub open spec fn req_describes(r: Rule, req: UpdateReq, k: int) -> bool {
    &&& req.path@ == r.outs@[k].0@
    &&& req.time == r.outs@[k].1
    &&& match r.outs@[k].1 {
        Option::None => req.inps is None,
        Option::Some(mt) => req.inps matches Some(v) && v@ == newer_inputs(r.inps@, mt),
    }
}

impl UpdateReq {
    /// Whether the output file requires an update: it does not exist, or a
    /// newer-input record was taken for it.
    pub fn needs_update(&self) -> (r: bool)
        ensures
            r == (self.time is None || self.inps is Some),
    {
        self.time.is_none() || self.inps.is_some()
    }
}

} // verus!
