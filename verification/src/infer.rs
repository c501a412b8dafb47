//! The inference runner: tries the registered plugins in priority
//! order over each package, validates that exactly one matched, and
//! builds the dependency graph with partial-failure recovery.

pub mod icargo;
pub mod protocol;
pub mod py_requirements;

use vstd::prelude::*;

use crate::graph::{insert_edge, insert_node, target_views, GraphModel, TargetGraph};
use crate::infer::icargo::CargoInfer;
use crate::infer::protocol::{Infer, InferError, InferResult, InferredTarget, Next, Single};
use crate::infer::py_requirements::PyRequirementsInfer;
use crate::types::{RawTarget, Repository, Target, TargetView};

verus! {

/// A non-fatal failure met while building a parent's subtree: the
/// package named there stays out of the graph, along with every edge
/// through it, and the rest of the construction goes on.
#[derive(Debug)]
pub struct BuildWarning {
    pub package: String,
    pub reason: InferError,
}

/// One of the built-in plugins, in a form the runner can hold in one
/// list.
pub enum BuiltinInfer<R: Repository> {
    Cargo(CargoInfer<R>),
    PyRequirements(PyRequirementsInfer<R>),
}

impl<R: Repository> Infer for BuiltinInfer<R> {
    fn from_raw_target(&self, t: &RawTarget) -> Result<InferResult, InferError> {
        match self {
            BuiltinInfer::Cargo(inf) => inf.from_raw_target(t),
            BuiltinInfer::PyRequirements(inf) => inf.from_raw_target(t),
        }
    }
}

/// Runs the inference plugins, in a fixed priority order, over raw
/// targets.
pub struct InferRunner<I: Infer> {
    infers: Vec<I>,
}

impl<R: Repository + Clone> InferRunner<BuiltinInfer<R>> {
    /// The default pipeline: the Cargo manifest plugin, then the
    /// requirements-list plugin.
    pub fn default(repo: &R) -> Self {
        InferRunner::new(
            vec![
                BuiltinInfer::Cargo(CargoInfer::new(repo.clone())),
                BuiltinInfer::PyRequirements(
                    PyRequirementsInfer::new(repo.clone(), String::from_str("requirements.txt")),
                ),
            ],
        )
    }
}

impl<I: Infer> InferRunner<I> {
    pub fn new(infers: Vec<I>) -> Self {
        InferRunner { infers }
    }

    /// Holds the collected plugin answers to the inference contract:
    /// more than one matching plugin is an ambiguity, none is an
    /// absence, and each is fatal; exactly one is the success case.
    pub fn validate_inferred_targets(
        &self,
        raw: &RawTarget,
        inferred_targets: &Vec<InferredTarget>,
    ) -> (r: Result<(), InferError>)
        ensures
            match r {
                Ok(()) => inferred_targets@.len() == 1,
                Err(e) => (e matches InferError::Ambiguous(p) && p@ == raw.name@
                    && inferred_targets@.len() > 1) || (e matches InferError::NoMatch(p) && p@
                    == raw.name@ && inferred_targets@.len() == 0),
            },
    {
        if inferred_targets.len() > 1 {
            return Err(InferError::Ambiguous(raw.name.to_string_ref().clone()));
        }
        if inferred_targets.len() == 0 {
            return Err(InferError::NoMatch(raw.name.to_string_ref().clone()));
        }
        Ok(())
    }

    /// Tries each plugin in order, keeping every answer that produced
    /// something; a `Break` signal stops the loop whatever the plugin
    /// produced, and a plugin's error is fatal.
    fn raw_run_inferrers(&self, raw: &RawTarget) -> (r: Result<Vec<InferredTarget>, InferError>)
        ensures
            r matches Ok(v) ==> forall|x: int|
                0 <= x < v@.len() ==> !((#[trigger] v@[x]) is Nothing),
            r matches Err(e) ==> e matches InferError::ManifestParse(_) || e
                == InferError::ManifestShape,
    {
        let mut inferred_targets: Vec<InferredTarget> = Vec::new();
        let mut k: usize = 0;
        while k < self.infers.len()
            invariant
                forall|x: int|
                    0 <= x < inferred_targets@.len() ==> !((#[trigger] inferred_targets@[x])
                        is Nothing),
            decreases self.infers@.len() - k,
        {
            let inf_res = self.infers[k].from_raw_target(raw)?;
            match inf_res.inferred_target {
                InferredTarget::Nothing => {},
                other => {
                    inferred_targets.push(other);
                },
            }
            match inf_res.what_next {
                Next::Break => {
                    return Ok(inferred_targets);
                },
                Next::Continue => {},
            }
            k += 1;
        }
        Ok(inferred_targets)
    }

    /// The decision on the collected plugin answers: exactly one
    /// non-`Nothing` answer is owed, and its targets are handed back —
    /// one for `One`, each of them for `Many`.
    pub fn select_inferred(&self, raw: &RawTarget, inferred_targets: Vec<InferredTarget>) -> (r:
        Result<Vec<Single>, InferError>)
        requires
            forall|x: int|
                0 <= x < inferred_targets@.len() ==> !((#[trigger] inferred_targets@[x])
                    is Nothing),
        ensures
            match r {
                Ok(singles) => inferred_targets@.len() == 1 && match inferred_targets@[0] {
                    InferredTarget::One(s) => singles@ == seq![s],
                    InferredTarget::Many(m) => singles@ == m@,
                    InferredTarget::Nothing => false,
                },
                Err(e) => (e matches InferError::Ambiguous(p) && p@ == raw.name@
                    && inferred_targets@.len() > 1) || (e matches InferError::NoMatch(p) && p@
                    == raw.name@ && inferred_targets@.len() == 0),
            },
    {
        let mut inferred_targets = inferred_targets;
        self.validate_inferred_targets(raw, &inferred_targets)?;
        match inferred_targets.pop() {
            Some(InferredTarget::One(s)) => Ok(vec![s]),
            Some(InferredTarget::Many(m)) => Ok(m),
            Some(InferredTarget::Nothing) => unreached(),
            None => unreached(),
        }
    }

    /// Runs the whole inference pipeline on one raw target: collects
    /// the plugins' answers, validates that exactly one matched, and
    /// hands back its targets. Failure is either a plugin's manifest
    /// error, or the runner's own verdict naming this very package.
    pub fn run_inf(&self, raw: &RawTarget) -> (r: Result<Vec<Single>, InferError>)
        ensures
            r matches Err(e) ==> match e {
                InferError::Ambiguous(p) => p@ == raw.name@,
                InferError::NoMatch(p) => p@ == raw.name@,
                InferError::ManifestParse(_) => true,
                InferError::ManifestShape => true,
                InferError::BudgetExhausted => false,
            },
    {
        let inferred_targets = self.raw_run_inferrers(raw)?;
        self.select_inferred(raw, inferred_targets)
    }

    /// Builds the dependency graph reachable from the seed raw targets:
    /// each seed is inferred (fatally on failure), its targets become
    /// nodes, and every declared parent is walked in turn, linking an
    /// edge from each parent target to its dependent. A parent whose
    /// own inference fails is skipped with a warning, leaving a
    /// knowingly partial graph. Returns the graph, the targets the
    /// seeds produced (all of them nodes), and the warnings; a fatal
    /// error is a seed's own verdict or a manifest error, never the
    /// traversal budget.
    pub fn build_graph(&self, start: Vec<RawTarget>) -> (r: Result<
        (TargetGraph, Vec<Target>, Vec<BuildWarning>),
        InferError,
    >)
        ensures
            r matches Ok(out) ==> out.0.wf() && forall|x: int|
                0 <= x < out.1@.len() ==> out.0.has_node(#[trigger] out.1@[x]@),
            r matches Err(e) ==> match e {
                InferError::Ambiguous(p) => exists|k: int|
                    0 <= k < start@.len() && p@ == (#[trigger] start@[k]).name@,
                InferError::NoMatch(p) => exists|k: int|
                    0 <= k < start@.len() && p@ == (#[trigger] start@[k]).name@,
                InferError::ManifestParse(_) => true,
                InferError::ManifestShape => true,
                InferError::BudgetExhausted => false,
            },
    {
        let mut g = TargetGraph::new();
        let mut our_targets: Vec<Target> = Vec::new();
        let mut warnings: Vec<BuildWarning> = Vec::new();
        let mut si: usize = 0;
        while si < start.len()
            invariant
                si <= start@.len(),
                g.wf(),
                forall|x: int| 0 <= x < our_targets@.len() ==> g.has_node(
                    #[trigger] our_targets@[x]@,
                ),
            decreases start@.len() - si,
        {
            let mut ts = self.process_target(&mut g, &mut warnings, &start[si])?;
            let ghost pre = our_targets@;
            our_targets.append(&mut ts);
            proof {
                assert forall|x: int| 0 <= x < our_targets@.len() implies g.has_node(
                    #[trigger] our_targets@[x]@,
                ) by {
                    if x < pre.len() {
                        assert(our_targets@[x] == pre[x]);
                    }
                }
            }
            si += 1;
        }
        Ok((g, our_targets, warnings))
    }

    /// Infers one raw target and drains its parent work: an error from
    /// the target's own inference is fatal and leaves the graph
    /// untouched; parent failures only warn. Returns the targets this
    /// raw target produced.
    /// Infers one raw target and drains its parent work: an error from
    /// the target's own inference is fatal and leaves the graph
    /// untouched; parent failures only warn. Returns the targets this
    /// raw target produced, already-present ones included, all of them
    /// nodes; the scheduling itself is pinned by `insert_answer` and
    /// `link_answer`.
    fn process_target(
        &self,
        g: &mut TargetGraph,
        warnings: &mut Vec<BuildWarning>,
        raw: &RawTarget,
    ) -> (r: Result<Vec<Target>, InferError>)
        requires
            old(g).wf(),
        ensures
            final(g).wf(),
            forall|t: TargetView| old(g).has_node(t) ==> final(g).has_node(t),
            r matches Ok(ts) ==> forall|x: int|
                0 <= x < ts@.len() ==> final(g).has_node(#[trigger] ts@[x]@),
            r matches Err(e) ==> *final(g) == *old(g) && match e {
                InferError::Ambiguous(p) => p@ == raw.name@,
                InferError::NoMatch(p) => p@ == raw.name@,
                InferError::ManifestParse(_) => true,
                InferError::ManifestShape => true,
                InferError::BudgetExhausted => false,
            },
    {
        let singles = match self.run_inf(raw) {
            Ok(singles) => singles,
            Err(e) => {
                return Err(e);
            },
        };
        let ts = answer_targets(&singles);
        let mut work: Vec<(RawTarget, Target)> = Vec::new();
        insert_answer(g, &mut work, &singles);
        proof {
            assert(ts@.len() == target_views(ts@).len());
            assert(answer_target_views(singles@).len() == singles@.len());
            assert forall|x: int| 0 <= x < ts@.len() implies g.has_node(#[trigger] ts@[x]@) by {
                assert(target_views(ts@)[x] == ts@[x]@);
                assert(answer_target_views(singles@)[x] == singles@[x].target@);
                assert(g.has_node(singles@[x].target@));
            }
        }
        self.drain_parent_work(g, warnings, work);
        proof {
            assert forall|x: int| 0 <= x < ts@.len() implies g.has_node(#[trigger] ts@[x]@) by {
            }
        }
        Ok(ts)
    }

    /// Walks the parent worklist: each entry's raw target is inferred,
    /// its answer is scheduled by `insert_answer` and linked to the
    /// dependent that queued the entry by `link_answer`; both endpoints
    /// are nodes by then, so edge insertion cannot fail. Inference
    /// failures are recorded and skipped.
    fn drain_parent_work(
        &self,
        g: &mut TargetGraph,
        warnings: &mut Vec<BuildWarning>,
        work: Vec<(RawTarget, Target)>,
    )
        requires
            old(g).wf(),
            forall|x: int| 0 <= x < work@.len() ==> old(g).has_node((#[trigger] work@[x]).1@),
        ensures
            final(g).wf(),
            forall|t: TargetView| old(g).has_node(t) ==> final(g).has_node(t),
    {
        let mut work = work;
        let mut fuel: u64 = u64::MAX;
        while work.len() > 0 && fuel > 0
            invariant
                g.wf(),
                forall|t: TargetView| old(g).has_node(t) ==> #[trigger] g.has_node(t),
                forall|x: int| 0 <= x < work@.len() ==> g.has_node((#[trigger] work@[x]).1@),
            decreases fuel,
        {
            fuel -= 1;
            let ghost work0 = work@;
            let (p, child) = match work.pop() {
                Some(entry) => entry,
                None => unreached(),
            };
            proof {
                assert forall|x: int| 0 <= x < work@.len() implies g.has_node(
                    (#[trigger] work@[x]).1@,
                ) by {
                    assert(work@[x] == work0[x]);
                }
            }
            match self.run_inf(&p) {
                Err(e) => {
                    warnings.push(
                        BuildWarning { package: p.name.to_string_ref().clone(), reason: e },
                    );
                },
                Ok(psingles) => {
                    insert_answer(g, &mut work, &psingles);
                    link_answer(g, &child, &psingles);
                },
            }
        }
        if work.len() > 0 {
            // the budget above outlasts any feasible input; reaching
            // this leaves the graph partial, like any parent failure,
            // and names the entry the walk stopped before
            let stopped = &work[work.len() - 1].0;
            warnings.push(
                BuildWarning {
                    package: stopped.name.to_string_ref().clone(),
                    reason: InferError::BudgetExhausted,
                },
            );
        }
    }
}

/// The identities of the targets an answer produced, in order.
pub open spec fn answer_target_views(singles: Seq<Single>) -> Seq<TargetView> {
    singles.map_values(|s: Single| s.target@)
}

/// What scheduling one produced target does to the graph and the
/// worklist: a fresh identity becomes a node and its declared parents
/// join the worklist, each paired with this target as the dependent;
/// an already-present identity changes nothing, and in either case the
/// target is returned to the caller for edge linking.
pub open spec fn answer_step(m: GraphModel, w: Seq<(RawTarget, Target)>, s: Single) -> (
    GraphModel,
    Seq<(RawTarget, Target)>,
) {
    if m.nodes.contains(s.target@) {
        (m, w)
    } else {
        (insert_node(m, s.target@), w + s.parents@.map_values(|p: RawTarget| (p, s.target)))
    }
}

/// The effect of scheduling a whole answer, target by target.
pub open spec fn apply_answer(
    m: GraphModel,
    w: Seq<(RawTarget, Target)>,
    singles: Seq<Single>,
) -> (GraphModel, Seq<(RawTarget, Target)>)
    decreases singles.len(),
{
    if singles.len() == 0 {
        (m, w)
    } else {
        let prev = apply_answer(m, w, singles.drop_last());
        answer_step(prev.0, prev.1, singles.last())
    }
}

/// The graph after linking an edge from each listed identity to
/// `child`.
pub open spec fn link_all(m: GraphModel, ts: Seq<TargetView>, child: TargetView) -> GraphModel
    decreases ts.len(),
{
    if ts.len() == 0 {
        m
    } else {
        insert_edge(link_all(m, ts.drop_last(), child), ts.last(), child)
    }
}

/// The targets an answer produced, already-present ones included, in
/// order, so the caller can link edges from every one of them.
pub fn answer_targets(singles: &Vec<Single>) -> (ts: Vec<Target>)
    ensures
        target_views(ts@) == answer_target_views(singles@),
{
    let mut ts: Vec<Target> = Vec::new();
    let mut k: usize = 0;
    proof {
        assert(target_views(ts@) =~= answer_target_views(singles@).take(0));
    }
    while k < singles.len()
        invariant
            k <= singles@.len(),
            ts@.len() == k,
            target_views(ts@) == answer_target_views(singles@).take(k as int),
        decreases singles@.len() - k,
    {
        let ghost pre = ts@;
        ts.push(singles[k].target.clone());
        proof {
            assert forall|x: int| 0 <= x < k + 1 implies target_views(ts@)[x]
                == answer_target_views(singles@).take(k + 1)[x] by {
                if x < k {
                    assert(ts@[x] == pre[x]);
                    assert(target_views(pre)[x] == answer_target_views(singles@).take(k as int)[x]);
                } else {
                    assert(ts@[x] == singles@[k as int].target);
                    assert(answer_target_views(singles@)[x] == singles@[x].target@);
                }
            }
            assert(target_views(ts@) =~= answer_target_views(singles@).take(k + 1));
        }
        k += 1;
    }
    proof {
        assert(answer_target_views(singles@).take(singles@.len() as int) =~= answer_target_views(
            singles@,
        ));
    }
    ts
}

/// Schedules one answer into the graph and the worklist: its effect is
/// exactly `apply_answer` over the answer's targets, and every one of
/// those targets is a node afterwards.
pub fn insert_answer(
    g: &mut TargetGraph,
    work: &mut Vec<(RawTarget, Target)>,
    singles: &Vec<Single>,
)
    requires
        old(g).wf(),
        forall|x: int| 0 <= x < old(work)@.len() ==> old(g).has_node((#[trigger] old(work)@[x]).1@),
    ensures
        final(g).wf(),
        forall|t: TargetView| old(g).has_node(t) ==> final(g).has_node(t),
        (final(g).model(), final(work)@) == apply_answer(old(g).model(), old(work)@, singles@),
        forall|x: int| 0 <= x < singles@.len() ==> final(g).has_node(
            (#[trigger] singles@[x]).target@,
        ),
        forall|x: int| 0 <= x < final(work)@.len() ==> final(g).has_node(
            (#[trigger] final(work)@[x]).1@,
        ),
{
    let mut k: usize = 0;
    proof {
        assert(singles@.take(0) =~= Seq::<Single>::empty());
    }
    while k < singles.len()
        invariant
            k <= singles@.len(),
            g.wf(),
            forall|t: TargetView| old(g).has_node(t) ==> #[trigger] g.has_node(t),
            (g.model(), work@) == apply_answer(old(g).model(), old(work)@, singles@.take(k as int)),
            forall|x: int| 0 <= x < k ==> g.has_node((#[trigger] singles@[x]).target@),
            forall|x: int| 0 <= x < work@.len() ==> g.has_node((#[trigger] work@[x]).1@),
        decreases singles@.len() - k,
    {
        let single = &singles[k];
        let ghost s = singles@[k as int];
        let ghost pre_m = g.model();
        let ghost pre_w = work@;
        proof {
            assert(singles@.take(k + 1).drop_last() =~= singles@.take(k as int));
            assert(singles@.take(k + 1).last() == s);
        }
        if !g.contains_node(&single.target) {
            g.add_node(single.target.clone());
            let ghost gsnap = *g;
            let mut p: usize = 0;
            proof {
                assert(work@ =~= pre_w + s.parents@.take(0).map_values(
                    |pp: RawTarget| (pp, s.target),
                ));
            }
            while p < single.parents.len()
                invariant
                    p <= single.parents@.len(),
                    *g == gsnap,
                    single == &singles@[k as int],
                    s == singles@[k as int],
                    work@ == pre_w + s.parents@.take(p as int).map_values(
                        |pp: RawTarget| (pp, s.target),
                    ),
                decreases single.parents@.len() - p,
            {
                work.push((single.parents[p].clone(), single.target.clone()));
                proof {
                    assert(work@ =~= pre_w + s.parents@.take(p + 1).map_values(
                        |pp: RawTarget| (pp, s.target),
                    ));
                }
                p += 1;
            }
            proof {
                assert(s.parents@.take(s.parents@.len() as int) =~= s.parents@);
                assert(!pre_m.nodes.contains(s.target@));
                assert((g.model(), work@) == answer_step(pre_m, pre_w, s));
                assert forall|x: int| 0 <= x < work@.len() implies g.has_node(
                    (#[trigger] work@[x]).1@,
                ) by {
                    if x < pre_w.len() {
                        assert(work@[x] == pre_w[x]);
                    } else {
                        assert(work@[x].1 == s.target);
                    }
                }
            }
        } else {
            proof {
                assert(pre_m.nodes.contains(s.target@));
                assert((g.model(), work@) == answer_step(pre_m, pre_w, s));
            }
        }
        proof {
            assert forall|x: int| 0 <= x < k + 1 implies g.has_node(
                (#[trigger] singles@[x]).target@,
            ) by {
            }
        }
        k += 1;
    }
    proof {
        assert(singles@.take(singles@.len() as int) =~= singles@);
    }
}

/// Links an edge from every produced target to the dependent that
/// scheduled it: the effect is exactly `link_all`, and with both
/// endpoints already nodes, no insertion can fail.
pub fn link_answer(g: &mut TargetGraph, child: &Target, singles: &Vec<Single>)
    requires
        old(g).wf(),
        old(g).has_node(child@),
        forall|x: int| 0 <= x < singles@.len() ==> old(g).has_node(
            (#[trigger] singles@[x]).target@,
        ),
    ensures
        final(g).wf(),
        final(g).nodes@ == old(g).nodes@,
        final(g).model() == link_all(old(g).model(), answer_target_views(singles@), child@),
        forall|t: TargetView| old(g).has_node(t) ==> final(g).has_node(t),
{
    let ghost tvs = answer_target_views(singles@);
    let mut x: usize = 0;
    proof {
        assert(tvs.take(0) =~= Seq::<TargetView>::empty());
    }
    while x < singles.len()
        invariant
            x <= singles@.len(),
            tvs == answer_target_views(singles@),
            g.wf(),
            g.nodes@ == old(g).nodes@,
            g.has_node(child@),
            forall|y: int| 0 <= y < singles@.len() ==> g.has_node((#[trigger] singles@[y]).target@),
            g.model() == link_all(old(g).model(), tvs.take(x as int), child@),
        decreases singles@.len() - x,
    {
        proof {
            assert(tvs.take(x + 1).drop_last() =~= tvs.take(x as int));
            assert(tvs.take(x + 1).last() == singles@[x as int].target@);
        }
        let ghost pre = *g;
        match g.add_edge(&singles[x].target, child) {
            Ok(()) => {},
            Err(_) => unreached(),
        }
        proof {
            assert(g.model() == insert_edge(pre.model(), singles@[x as int].target@, child@));
            assert forall|y: int| 0 <= y < singles@.len() implies g.has_node(
                (#[trigger] singles@[y]).target@,
            ) by {
                assert(pre.has_node(singles@[y].target@));
            }
        }
        x += 1;
    }
    proof {
        assert(tvs.take(singles@.len() as int) =~= tvs);
        assert forall|t: TargetView| old(g).has_node(t) implies g.has_node(t) by {
        }
    }
}

} // verus!
