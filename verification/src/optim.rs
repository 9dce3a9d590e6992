//! The optimizer: passes that propose patches, run to a fixed point.

use crate::core_op::{CoreOp, TypedModel};
use crate::error::{TractError, TractResult};
use crate::graph::{Graph, GraphView, Node, OperatorKind};
use crate::op::{fact_sound, patch_result, Op, TypedOp};
use crate::patch::{ModelPatch, PatchView};
use crate::sound::{lemma_applied_sound, lemma_compacted_sound};
use vstd::prelude::*;

verus! {

/// The capability of an operator that a pass asks for.
#[derive(Clone, Copy, Debug, PartialEq, Eq, Structural)]
pub enum Capability {
    Declutter,
    Codegen,
}

/// A pass over the operators of a graph: its name, the capability it asks
/// each operator for, and the place in the evaluation order from which it
/// goes on.
#[derive(Clone, Copy)]
pub struct OpOptim(pub &'static str, pub Capability, pub usize);

/// What the operator of node `node` proposes when asked for `cap`. Sources
/// and placeholders propose nothing.
pub open spec fn proposal<U: TypedOp>(cap: Capability, model: GraphView<U::V>, node: int) -> Result<
    Option<PatchView<U::V>>,
    TractError,
> {
    match model.nodes[node].op {
        OperatorKind::UserDefined(op) => match cap {
            Capability::Declutter => U::spec_declutter(op, model, node),
            Capability::Codegen => U::spec_codegen(op, model, node),
        },
        _ => Ok(None),
    }
}

/// The first place at or behind `from` in `order` whose node proposes a
/// patch or fails, or the length of `order` where there is none.
pub open spec fn first_proposal<U: TypedOp>(
    cap: Capability,
    model: GraphView<U::V>,
    order: Seq<usize>,
    from: int,
) -> int
    decreases order.len() - from,
{
    if from < 0 || from >= order.len() {
        order.len() as int
    } else if proposal::<U>(cap, model, order[from] as int) != Ok::<
        Option<PatchView<U::V>>,
        TractError,
    >(None) {
        from
    } else {
        first_proposal::<U>(cap, model, order, from + 1)
    }
}

/// What one step of a pass gives: a patch, nothing, or a failure; and the
/// place from which the pass goes on.
pub struct StepView<V> {
    pub result: Result<Option<PatchView<V>>, TractError>,
    pub cursor: usize,
}

/// One step of a pass that stands at `cursor`: the first proposal at or
/// behind `cursor` in the evaluation order. After a patch the pass goes on
/// from the place of the patched node, or behind it where the patch is not
/// to be offered twice.
pub open spec fn pass_step<U: TypedOp>(cap: Capability, model: GraphView<U::V>, cursor: usize)
    -> StepView<U::V> {
    match model.scheduled() {
        None => StepView { result: Err(TractError::CyclicGraphError), cursor },
        Some(order) => {
            let at = first_proposal::<U>(cap, model, order, cursor as int);
            if at >= order.len() {
                StepView { result: Ok(None), cursor }
            } else {
                match proposal::<U>(cap, model, order[at] as int) {
                    Ok(Some(p)) => StepView {
                        result: Ok(Some(p)),
                        cursor: if p.dont_apply_twice is Some {
                            (at + 1) as usize
                        } else {
                            at as usize
                        },
                    },
                    other => StepView { result: other, cursor },
                }
            }
        },
    }
}

/// Where a run of the optimizer stands: how it ended, the graph, and the
/// number of patches applied so far.
pub struct RunView<V> {
    pub outcome: Result<(), TractError>,
    pub model: GraphView<V>,
    pub counter: usize,
}

/// A pass run from `cursor` until it proposes nothing more: each patch it
/// proposes is applied and counted. The run fails with the failure of the
/// pass, with the refusal of a patch that is not applied, and with
/// `PatchCountOverflow` where the count leaves the machine word.
pub open spec fn inner_run<U: TypedOp>(
    cap: Capability,
    model: GraphView<U::V>,
    cursor: usize,
    counter: usize,
) -> (RunView<U::V>, usize)
    decreases usize::MAX - counter,
{
    let step = pass_step::<U>(cap, model, cursor);
    match step.result {
        Err(e) => (RunView { outcome: Err(e), model, counter }, step.cursor),
        Ok(None) => (RunView { outcome: Ok(()), model, counter }, step.cursor),
        Ok(Some(p)) => if p.refusal(model) is Some {
            (RunView { outcome: Err(p.refusal(model)->0), model, counter }, step.cursor)
        } else if counter >= usize::MAX {
            (
                RunView {
                    outcome: Err(TractError::PatchCountOverflow),
                    model: p.applied(model),
                    counter,
                },
                step.cursor,
            )
        } else {
            inner_run::<U>(cap, p.applied(model), step.cursor, (counter + 1) as usize)
        },
    }
}

/// A pass run to exhaustion: it is run from the start, and again on the
/// compacted graph, until a run applies no patch.
pub open spec fn outer_run<U: TypedOp>(cap: Capability, model: GraphView<U::V>, counter: usize)
    -> RunView<U::V>
    decreases usize::MAX - counter,
{
    let run = inner_run::<U>(cap, model, 0, counter).0;
    if run.outcome is Err || run.counter <= counter {
        run
    } else {
        match run.model.compaction() {
            Err(e) => RunView { outcome: Err(e), ..run },
            Ok(g) => outer_run::<U>(cap, g, run.counter),
        }
    }
}

/// The first `upto` passes, each run to exhaustion and followed by a
/// compaction.
pub open spec fn all_passes_run<U: TypedOp>(
    passes: Seq<OpOptim>,
    model: GraphView<U::V>,
    counter: usize,
    upto: int,
) -> RunView<U::V>
    decreases upto,
{
    if upto <= 0 {
        RunView { outcome: Ok(()), model, counter }
    } else {
        let before = all_passes_run::<U>(passes, model, counter, upto - 1);
        if before.outcome is Err {
            before
        } else {
            let run = outer_run::<U>(passes[upto - 1].1, before.model, before.counter);
            if run.outcome is Err {
                run
            } else {
                match run.model.compaction() {
                    Err(e) => RunView { outcome: Err(e), ..run },
                    Ok(g) => RunView { model: g, ..run },
                }
            }
        }
    }
}

/// All passes, run again on the compacted graph until a round applies no
/// patch.
pub open spec fn rounds_run<U: TypedOp>(
    passes: Seq<OpOptim>,
    model: GraphView<U::V>,
    counter: usize,
) -> RunView<U::V>
    decreases usize::MAX - counter,
{
    let run = all_passes_run::<U>(passes, model, counter, passes.len() as int);
    if run.outcome is Err || run.counter <= counter {
        run
    } else {
        match run.model.compaction() {
            Err(e) => RunView { outcome: Err(e), ..run },
            Ok(g) => rounds_run::<U>(passes, g, run.counter),
        }
    }
}

/// A session: the graph is compacted, then the passes run in rounds.
pub open spec fn session_run<U: TypedOp>(
    passes: Seq<OpOptim>,
    model: GraphView<U::V>,
    counter: usize,
) -> RunView<U::V> {
    match model.compaction() {
        Err(e) => RunView { outcome: Err(e), model, counter },
        Ok(g) => rounds_run::<U>(passes, g, counter),
    }
}

/// The graph keeps its interface and, where it was sound, its soundness.
pub open spec fn carries_on<U: Op>(before: GraphView<U::V>, after: GraphView<U::V>) -> bool {
    &&& after.same_interface(before)
    &&& fact_sound::<U>(before) ==> fact_sound::<U>(after)
}

proof fn lemma_carries_on_trans<U: Op>(a: GraphView<U::V>, b: GraphView<U::V>, c: GraphView<U::V>)
    requires
        carries_on::<U>(a, b),
        carries_on::<U>(b, c),
    ensures
        carries_on::<U>(a, c),
{
    assert forall|k: int| 0 <= k < c.inputs.len() implies c.outlet(#[trigger] c.inputs[k]).fact
        == a.outlet(a.inputs[k]).fact by {
        assert(b.outlet(b.inputs[k]).fact == a.outlet(a.inputs[k]).fact);
    }
    assert forall|k: int| 0 <= k < c.outputs.len() implies c.outlet(#[trigger] c.outputs[k]).fact
        == a.outlet(a.outputs[k]).fact by {
        assert(b.outlet(b.outputs[k]).fact == a.outlet(a.outputs[k]).fact);
    }
}

proof fn lemma_applied_carries_on<U: Op>(patch: PatchView<U::V>, target: GraphView<U::V>)
    requires
        target.wf(),
        patch.wf(),
        patch.applicable(target),
        fact_sound::<U>(patch.model),
    ensures
        carries_on::<U>(target, patch.applied(target)),
{
    patch.lemma_applied(target);
    if fact_sound::<U>(target) {
        lemma_applied_sound::<U>(patch, target);
    }
}

proof fn lemma_compaction_carries_on<U: Op>(g: GraphView<U::V>)
    requires
        g.wf(),
        g.nodes.len() <= usize::MAX,
        g.compaction() is Ok,
    ensures
        carries_on::<U>(g, g.compaction()->Ok_0),
{
    g.lemma_kept_nodes();
    let kept = g.kept_nodes()->0;
    assert(g.keeps(kept));
    g.lemma_compacted(kept);
    if fact_sound::<U>(g) {
        lemma_compacted_sound::<U>(g, kept);
    }
}

impl OpOptim {
    /// The next patch that the pass proposes for `model`, from where the
    /// pass stands.
    fn full_pass<U: TypedOp>(&mut self, model: &Graph<U>) -> (r: TractResult<Option<ModelPatch<U>>>)
        requires
            model.wf(),
        ensures
            (StepView { result: patch_result(r), cursor: final(self).2 }) == pass_step::<U>(
                old(self).1,
                model@,
                old(self).2,
            ),
            final(self).0 == old(self).0,
            final(self).1 == old(self).1,
            r matches Ok(Some(p)) ==> p.wf() && fact_sound::<U>(p@.model),
    {
        let order = match model.eval_order() {
            Ok(order) => order,
            Err(e) => {
                return Err(e);
            },
        };
        let cap = self.1;
        let mut ix: usize = self.2;
        while ix < order.len()
            invariant
                model.wf(),
                model@.scheduled() == Some(order@),
                model@.is_eval_order(order@),
                cap == self.1,
                *self == *old(self),
                first_proposal::<U>(cap, model@, order@, old(self).2 as int) == first_proposal::<U>(
                    cap,
                    model@,
                    order@,
                    ix as int,
                ),
            decreases order.len() - ix,
        {
            let id = order[ix];
            assert(id < model.nodes@.len());
            let node = &model.nodes[id];
            assert(model@.nodes[id as int].id == id);
            let patch = match &node.op {
                OperatorKind::UserDefined(op) => match cap {
                    Capability::Declutter => op.declutter(model, node),
                    Capability::Codegen => op.codegen(model, node),
                },
                _ => Ok(None),
            };
            assert(patch_result(patch) == proposal::<U>(cap, model@, id as int));
            match patch {
                Ok(Some(p)) => {
                    self.2 = if p.dont_apply_twice.is_some() {
                        ix + 1
                    } else {
                        ix
                    };
                    return Ok(Some(p));
                },
                Ok(None) => {},
                Err(e) => {
                    return Err(e);
                },
            }
            ix += 1;
        }
        Ok(None)
    }

    /// Sets the pass back to the start of the evaluation order.
    pub fn reset(&mut self) -> (r: TractResult<()>)
        ensures
            r is Ok,
            *final(self) == OpOptim(old(self).0, old(self).1, 0),
    {
        self.2 = 0;
        Ok(())
    }

    /// The next patch that the pass proposes for `model`, or nothing where
    /// no node behind the place of the pass proposes one.
    pub fn next<U: TypedOp>(&mut self, model: &Graph<U>) -> (r: TractResult<Option<ModelPatch<U>>>)
        requires
            model.wf(),
        ensures
            (StepView { result: patch_result(r), cursor: final(self).2 }) == pass_step::<U>(
                old(self).1,
                model@,
                old(self).2,
            ),
            final(self).0 == old(self).0,
            final(self).1 == old(self).1,
            r matches Ok(Some(p)) ==> p.wf() && fact_sound::<U>(p@.model),
    {
        self.full_pass(model)
    }
}

/// The passes to run, in order.
pub struct Optimizer {
    passes: Vec<OpOptim>,
}

impl View for Optimizer {
    type V = Seq<OpOptim>;

    closed spec fn view(&self) -> Seq<OpOptim> {
        self.passes@
    }
}

/// The passes of simplification: each operator is asked to declutter.
pub open spec fn declutter_passes() -> Seq<OpOptim> {
    seq![OpOptim("declutter", Capability::Declutter, 0)]
}

/// The passes of lowering: each operator is asked for its lowered form,
/// then to declutter what the lowering left.
pub open spec fn codegen_passes() -> Seq<OpOptim> {
    seq![
        OpOptim("codegen", Capability::Codegen, 0),
        OpOptim("declutter", Capability::Declutter, 0),
    ]
}

impl Optimizer {
    fn passes(passes: Vec<OpOptim>) -> (r: Optimizer)
        ensures
            r@ == passes@,
    {
        Optimizer { passes }
    }

    /// The optimizer that simplifies.
    pub fn declutter() -> (r: Optimizer)
        ensures
            r@ == declutter_passes(),
    {
        let mut passes: Vec<OpOptim> = Vec::new();
        passes.push(OpOptim("declutter", Capability::Declutter, 0));
        assert(passes@ =~= declutter_passes());
        Optimizer::passes(passes)
    }

    /// The optimizer that lowers.
    pub fn codegen() -> (r: Optimizer)
        ensures
            r@ == codegen_passes(),
    {
        let mut passes: Vec<OpOptim> = Vec::new();
        passes.push(OpOptim("codegen", Capability::Codegen, 0));
        passes.push(OpOptim("declutter", Capability::Declutter, 0));
        assert(passes@ =~= codegen_passes());
        Optimizer::passes(passes)
    }

    /// A session of this optimizer that has applied no patch yet.
    pub fn session(&self) -> (r: OptimizerSession<'_>)
        ensures
            r.passes() == self@,
            r.counter() == 0,
    {
        OptimizerSession { optimizer: self, counter: 0 }
    }

    /// A session of this optimizer that counts on from `counter` patches.
    pub fn session_from(&self, counter: usize) -> (r: OptimizerSession<'_>)
        ensures
            r.passes() == self@,
            r.counter() == counter,
    {
        OptimizerSession { optimizer: self, counter }
    }

    /// Runs a fresh session on `model`.
    pub fn optimize<U: TypedOp>(&self, model: &mut Graph<U>) -> (r: TractResult<()>)
        requires
            old(model).wf(),
        ensures
            r == session_run::<U>(self@, old(model)@, 0).outcome,
            final(model)@ == session_run::<U>(self@, old(model)@, 0).model,
            final(model).wf(),
            carries_on::<U>(old(model)@, final(model)@),
    {
        let mut session = self.session();
        session.optimize(model)
    }
}

/// A run of an optimizer: its passes and the number of patches applied so
/// far.
pub struct OptimizerSession<'o> {
    optimizer: &'o Optimizer,
    counter: usize,
}

impl<'o> OptimizerSession<'o> {
    pub closed spec fn passes(&self) -> Seq<OpOptim> {
        self.optimizer@
    }

    pub closed spec fn counter(&self) -> usize {
        self.counter
    }

    /// The number of patches applied so far.
    pub fn applied_patches(&self) -> (r: usize)
        ensures
            r == self.counter(),
    {
        self.counter
    }

    /// Runs `p` from its start until it proposes nothing more, applying
    /// each patch it proposes.
    pub fn run_one_pass_inner<U: TypedOp>(&mut self, p: &mut OpOptim, model: &mut Graph<U>) -> (r:
        TractResult<()>)
        requires
            old(model).wf(),
        ensures
            (
                RunView { outcome: r, model: final(model)@, counter: final(self).counter() },
                final(p).2,
            ) == inner_run::<U>(old(p).1, old(model)@, 0, old(self).counter()),
            final(p).0 == old(p).0,
            final(p).1 == old(p).1,
            final(self).passes() == old(self).passes(),
            final(self).counter() >= old(self).counter(),
            final(model).wf(),
            carries_on::<U>(old(model)@, final(model)@),
            r is Ok && final(self).counter() == old(self).counter() ==> final(model)@ == old(
                model,
            )@,
    {
        let _ = p.reset();
        let ghost cap = p.1;
        loop
            invariant
                model.wf(),
                p.0 == old(p).0,
                p.1 == old(p).1,
                cap == p.1,
                self.passes() == old(self).passes(),
                self.counter >= old(self).counter,
                carries_on::<U>(old(model)@, model@),
                self.counter == old(self).counter ==> model@ == old(model)@,
                inner_run::<U>(cap, model@, p.2, self.counter) == inner_run::<U>(
                    cap,
                    old(model)@,
                    0,
                    old(self).counter,
                ),
            decreases usize::MAX - self.counter,
        {
            let ghost before = model@;
            let patch = match p.next(model) {
                Ok(Some(patch)) => patch,
                Ok(None) => {
                    return Ok(());
                },
                Err(e) => {
                    return Err(e);
                },
            };
            let ghost proposed = patch@;
            match patch.apply(model) {
                Ok(_) => {},
                Err(e) => {
                    return Err(e);
                },
            }
            proof {
                lemma_applied_carries_on::<U>(proposed, before);
                lemma_carries_on_trans::<U>(old(model)@, before, model@);
            }
            if self.counter == usize::MAX {
                return Err(TractError::PatchCountOverflow);
            }
            self.counter += 1;
        }
    }

    /// Runs `p` to exhaustion: from its start, and again on the compacted
    /// graph, until a run applies no patch.
    pub fn run_one_pass_outer<U: TypedOp>(&mut self, p: &mut OpOptim, model: &mut Graph<U>) -> (r:
        TractResult<()>)
        requires
            old(model).wf(),
        ensures
            (RunView { outcome: r, model: final(model)@, counter: final(self).counter() })
                == outer_run::<U>(old(p).1, old(model)@, old(self).counter()),
            final(p).0 == old(p).0,
            final(p).1 == old(p).1,
            final(self).passes() == old(self).passes(),
            final(self).counter() >= old(self).counter(),
            final(model).wf(),
            carries_on::<U>(old(model)@, final(model)@),
    {
        let ghost cap = p.1;
        loop
            invariant
                model.wf(),
                p.0 == old(p).0,
                p.1 == old(p).1,
                cap == p.1,
                self.passes() == old(self).passes(),
                self.counter >= old(self).counter,
                carries_on::<U>(old(model)@, model@),
                outer_run::<U>(cap, model@, self.counter) == outer_run::<U>(
                    cap,
                    old(model)@,
                    old(self).counter,
                ),
            decreases usize::MAX - self.counter,
        {
            let old_counter = self.counter;
            let ghost before = model@;
            let inner = self.run_one_pass_inner(p, model);
            proof {
                lemma_carries_on_trans::<U>(old(model)@, before, model@);
                let run = inner_run::<U>(cap, before, 0, old_counter).0;
                assert(run == (RunView { outcome: inner, model: model@, counter: self.counter }));
            }
            if inner.is_err() {
                return inner;
            }
            if self.counter == old_counter {
                return inner;
            }
            let ghost ran = model@;
            proof {
                assert(ran.nodes.len() == model.nodes.len());
            }
            match model.compact() {
                Ok(_) => {},
                Err(e) => {
                    return Err(e);
                },
            }
            proof {
                lemma_compaction_carries_on::<U>(ran);
                lemma_carries_on_trans::<U>(old(model)@, ran, model@);
            }
        }
    }

    /// Runs every pass of the optimizer to exhaustion, in order, and
    /// compacts the graph behind each.
    pub fn run_all_passes<U: TypedOp>(&mut self, model: &mut Graph<U>) -> (r: TractResult<()>)
        requires
            old(model).wf(),
        ensures
            (RunView { outcome: r, model: final(model)@, counter: final(self).counter() })
                == all_passes_run::<U>(
                old(self).passes(),
                old(model)@,
                old(self).counter(),
                old(self).passes().len() as int,
            ),
            final(self).passes() == old(self).passes(),
            final(self).counter() >= old(self).counter(),
            final(model).wf(),
            carries_on::<U>(old(model)@, final(model)@),
    {
        let n = self.optimizer.passes.len();
        let ghost passes = self.optimizer.passes@;
        let mut i: usize = 0;
        let mut done: TractResult<()> = Ok(());
        proof {
            lemma_carries_on_refl::<U>(model@);
        }
        while i < n
            invariant
                i <= n,
                n == passes.len(),
                passes == self.optimizer.passes@,
                model.wf(),
                self.passes() == old(self).passes(),
                self.counter >= old(self).counter,
                carries_on::<U>(old(model)@, model@),
                (RunView { outcome: done, model: model@, counter: self.counter })
                    == all_passes_run::<U>(passes, old(model)@, old(self).counter, i as int),
                done is Ok,
            decreases n - i,
        {
            let mut p = self.optimizer.passes[i];
            let ghost before = model@;
            let ghost before_counter = self.counter;
            done = self.run_one_pass_outer(&mut p, model);
            proof {
                lemma_carries_on_trans::<U>(old(model)@, before, model@);
                let run = outer_run::<U>(passes[i as int].1, before, before_counter);
                assert(run == (RunView { outcome: done, model: model@, counter: self.counter }));
            }
            if done.is_err() {
                proof {
                    lemma_all_passes_fail_on::<U>(
                        passes,
                        old(model)@,
                        old(self).counter,
                        i as int + 1,
                        n as int,
                    );
                }
                return done;
            }
            let ghost ran = model@;
            proof {
                assert(ran.nodes.len() == model.nodes.len());
            }
            match model.compact() {
                Ok(_) => {},
                Err(e) => {
                    proof {
                        lemma_all_passes_fail_on::<U>(
                            passes,
                            old(model)@,
                            old(self).counter,
                            i as int + 1,
                            n as int,
                        );
                    }
                    return Err(e);
                },
            }
            proof {
                lemma_compaction_carries_on::<U>(ran);
                lemma_carries_on_trans::<U>(old(model)@, ran, model@);
            }
            i += 1;
        }
        done
    }

    /// Optimizes `model`: compacts it, then runs all passes in rounds, each
    /// on the compacted result of the one before, until a round applies no
    /// patch.
    pub fn optimize<U: TypedOp>(&mut self, model: &mut Graph<U>) -> (r: TractResult<()>)
        requires
            old(model).wf(),
        ensures
            (RunView { outcome: r, model: final(model)@, counter: final(self).counter() })
                == session_run::<U>(old(self).passes(), old(model)@, old(self).counter()),
            final(self).passes() == old(self).passes(),
            final(self).counter() >= old(self).counter(),
            final(model).wf(),
            carries_on::<U>(old(model)@, final(model)@),
    {
        let ghost passes = self.optimizer.passes@;
        proof {
            assert(model@.nodes.len() == model.nodes.len());
            lemma_carries_on_refl::<U>(model@);
        }
        match model.compact() {
            Ok(_) => {},
            Err(e) => {
                return Err(e);
            },
        }
        proof {
            lemma_compaction_carries_on::<U>(old(model)@);
        }
        loop
            invariant
                model.wf(),
                passes == self.optimizer.passes@,
                self.passes() == old(self).passes(),
                self.counter >= old(self).counter,
                carries_on::<U>(old(model)@, model@),
                rounds_run::<U>(passes, model@, self.counter) == session_run::<U>(
                    passes,
                    old(model)@,
                    old(self).counter,
                ),
            decreases usize::MAX - self.counter,
        {
            let old_counter = self.counter;
            let ghost before = model@;
            let round = self.run_all_passes(model);
            proof {
                lemma_carries_on_trans::<U>(old(model)@, before, model@);
            }
            if round.is_err() {
                return round;
            }
            if old_counter == self.counter {
                return round;
            }
            let ghost ran = model@;
            proof {
                assert(ran.nodes.len() == model.nodes.len());
            }
            match model.compact() {
                Ok(_) => {},
                Err(e) => {
                    return Err(e);
                },
            }
            proof {
                lemma_compaction_carries_on::<U>(ran);
                lemma_carries_on_trans::<U>(old(model)@, ran, model@);
            }
        }
    }
}

proof fn lemma_carries_on_refl<U: Op>(g: GraphView<U::V>)
    ensures
        carries_on::<U>(g, g),
{
}

/// Once a pass has failed, the passes behind it do not run.
proof fn lemma_all_passes_fail_on<U: TypedOp>(
    passes: Seq<OpOptim>,
    model: GraphView<U::V>,
    counter: usize,
    at: int,
    upto: int,
)
    requires
        0 <= at <= upto,
        all_passes_run::<U>(passes, model, counter, at).outcome is Err,
    ensures
        all_passes_run::<U>(passes, model, counter, upto) == all_passes_run::<U>(
            passes,
            model,
            counter,
            at,
        ),
    decreases upto,
{
    if at < upto {
        lemma_all_passes_fail_on::<U>(passes, model, counter, at, upto - 1);
    }
}

impl Graph<CoreOp> {
    /// Simplifies the model until no operator has a simplification to
    /// propose.
    pub fn declutter(&mut self) -> (r: TractResult<()>)
        requires
            old(self).wf(),
        ensures
            r == session_run::<CoreOp>(declutter_passes(), old(self)@, 0).outcome,
            final(self)@ == session_run::<CoreOp>(declutter_passes(), old(self)@, 0).model,
            final(self).wf(),
            carries_on::<CoreOp>(old(self)@, final(self)@),
    {
        let optimizer = Optimizer::declutter();
        let mut session = optimizer.session();
        session.optimize(self)
    }

    /// Lowers the model until no operator has a lowering or a
    /// simplification to propose.
    pub fn optimize(&mut self) -> (r: TractResult<()>)
        requires
            old(self).wf(),
        ensures
            r == session_run::<CoreOp>(codegen_passes(), old(self)@, 0).outcome,
            final(self)@ == session_run::<CoreOp>(codegen_passes(), old(self)@, 0).model,
            final(self).wf(),
            carries_on::<CoreOp>(old(self)@, final(self)@),
    {
        let optimizer = Optimizer::codegen();
        optimizer.optimize(self)
    }

    /// The model, simplified.
    pub fn into_decluttered(self) -> (r: TractResult<TypedModel>)
        requires
            self.wf(),
        ensures
            match r {
                Ok(m) => {
                    &&& m.wf()
                    &&& session_run::<CoreOp>(declutter_passes(), self@, 0).outcome is Ok
                    &&& m@ == session_run::<CoreOp>(declutter_passes(), self@, 0).model
                    &&& carries_on::<CoreOp>(self@, m@)
                },
                Err(e) => session_run::<CoreOp>(declutter_passes(), self@, 0).outcome == Err::<
                    (),
                    TractError,
                >(e),
            },
    {
        let mut model = self;
        match model.declutter() {
            Ok(_) => Ok(model),
            Err(e) => Err(e),
        }
    }

    /// The model, simplified and then lowered.
    pub fn into_optimized(self) -> (r: TractResult<TypedModel>)
        requires
            self.wf(),
        ensures
            match r {
                Ok(m) => {
                    let simplified = session_run::<CoreOp>(declutter_passes(), self@, 0);
                    &&& m.wf()
                    &&& simplified.outcome is Ok
                    &&& session_run::<CoreOp>(codegen_passes(), simplified.model, 0).outcome is Ok
                    &&& m@ == session_run::<CoreOp>(codegen_passes(), simplified.model, 0).model
                    &&& carries_on::<CoreOp>(self@, m@)
                },
                Err(e) => {
                    let simplified = session_run::<CoreOp>(declutter_passes(), self@, 0);
                    if simplified.outcome is Err {
                        simplified.outcome == Err::<(), TractError>(e)
                    } else {
                        session_run::<CoreOp>(codegen_passes(), simplified.model, 0).outcome
                            == Err::<(), TractError>(e)
                    }
                },
            },
    {
        let mut model = self;
        match model.declutter() {
            Ok(_) => {},
            Err(e) => {
                return Err(e);
            },
        }
        let ghost simplified = model@;
        match model.optimize() {
            Ok(_) => {},
            Err(e) => {
                return Err(e);
            },
        }
        proof {
            lemma_carries_on_trans::<CoreOp>(self@, simplified, model@);
        }
        Ok(model)
    }
}

} // verus!
