//! The fixed point of the optimizer on typed models: a model that the
//! optimizer has brought to rest stays at rest.

use crate::core_op::{matmul_declutter, unary_codegen, CoreOp, CoreOpView};
use crate::error::TractError;
use crate::graph::{GraphView, OperatorKind, OutletId};
use crate::op::{lemma_wire_spec, wire_spec};
use crate::ops::LirMatMulUnaryView;
use crate::optim::{
    all_passes_run, codegen_passes, declutter_passes, first_proposal, inner_run, outer_run,
    pass_step, proposal, rounds_run, session_run, Capability, OpOptim,
};
use crate::order::place;
use crate::outlet_map::lemma_inserted;
use crate::patch::{replace_spec, replacement_outputs, PatchView};
use crate::recompact::{is_compact, lemma_compacted_is_compact, lemma_scheduled_renumbered};
use crate::replace::lemma_replace_patch;
use crate::stable::{
    countable, lemma_compacted_acyclic, lemma_compacted_sane, lemma_compacted_tight,
    lemma_input_node_is_source, sane, tight,
};
use crate::translate::declared;
use vstd::prelude::*;

verus! {

/// The operator of node `i` has nothing to propose when asked for `cap`.
pub open spec fn quiet(cap: Capability, g: GraphView<CoreOpView>, i: int) -> bool {
    proposal::<CoreOp>(cap, g, i) == Ok::<Option<PatchView<CoreOpView>>, TractError>(None)
}

/// The graph has an evaluation order, and no operator of a node on it has
/// anything to propose when asked for `cap`.
pub open spec fn quiet_all(cap: Capability, g: GraphView<CoreOpView>) -> bool {
    quiet_behind(cap, g, 0)
}

/// No operator of a node on the evaluation order has a simplification or
/// a lowering to propose.
pub open spec fn settled(g: GraphView<CoreOpView>) -> bool {
    quiet_all(Capability::Declutter, g) && quiet_all(Capability::Codegen, g)
}

/// A patch that an operator of a sane model proposes is well formed and
/// removes the node of that operator, which is no source, and nothing
/// else.
pub proof fn lemma_proposed_patch(cap: Capability, g: GraphView<CoreOpView>, i: int)
    requires
        sane(g),
        0 <= i < g.nodes.len(),
        proposal::<CoreOp>(cap, g, i) matches Ok(Some(p)),
    ensures
        proposal::<CoreOp>(cap, g, i)->Ok_0->0.wf(),
        proposal::<CoreOp>(cap, g, i)->Ok_0->0.obliterate == seq![i as usize],
        g.nodes[i].op is UserDefined,
{
    let n = g.nodes[i];
    assert(n.id == i);
    let op = n.op->UserDefined_0;
    match cap {
        Capability::Declutter => {
            assert(op is MatMul);
            let konst = g.outlet(n.inputs[0]).fact.konst->0;
            let new_op = CoreOpView::MatMulUnary(konst);
            let inputs = seq![n.inputs[1]];
            assert(replace_spec::<CoreOp>(g, n.id, n.name, inputs, new_op) is Ok);
            assert(replacement_outputs::<CoreOp>(g, inputs, new_op) <= 1);
            lemma_replace_patch::<CoreOp>(g, n.id, n.name, inputs, new_op);
        },
        Capability::Codegen => {
            assert(op is MatMulUnary);
            let start = PatchView::<CoreOpView>::empty();
            let tapped = start.tap(g, n.inputs[0]);
            let tap = OutletId { node: 0, slot: 0 };
            let packed = OutletId { node: 1, slot: 0 };
            let pack_name = n.name + ".pack"@;
            let product_name = n.name + ".matmatmul"@;
            let lowered_op = CoreOpView::LirMatMulUnary(
                LirMatMulUnaryView::single(n.outputs[0].fact),
            );
            start.model.lemma_add_source_wf(
                crate::label::tap_name(n.inputs[0]),
                g.outlet(n.inputs[0]).fact,
            );
            lemma_inserted(start.incoming, tap, n.inputs[0]);
            lemma_inserted(
                start.shunt_outlet_by,
                OutletId { node: n.id, slot: 0 },
                OutletId { node: 2, slot: 0 },
            );
            lemma_wire_spec::<CoreOp>(tapped.model, pack_name, CoreOpView::MatMatMulPack, seq![tap]);
            let with_pack = wire_spec::<CoreOp>(
                tapped.model,
                pack_name,
                CoreOpView::MatMatMulPack,
                seq![tap],
            )->Ok_0;
            assert(with_pack.nodes.len() == 2);
            lemma_wire_spec::<CoreOp>(with_pack, product_name, lowered_op, seq![packed]);
            let patch = proposal::<CoreOp>(cap, g, i)->Ok_0->0;
            assert(patch.obliterate =~= seq![i as usize]);
        },
    }
}

/// Applying a patch that an operator proposes keeps a sane model sane.
pub proof fn lemma_patched_sane(cap: Capability, g: GraphView<CoreOpView>, i: int)
    requires
        sane(g),
        0 <= i < g.nodes.len(),
        proposal::<CoreOp>(cap, g, i) matches Ok(Some(p)) && p.applicable(g),
    ensures
        sane(proposal::<CoreOp>(cap, g, i)->Ok_0->0.applied(g)),
{
    let p = proposal::<CoreOp>(cap, g, i)->Ok_0->0;
    let after = p.applied(g);
    lemma_proposed_patch(cap, g, i);
    p.lemma_applied(g);
    p.lemma_copies_before(0, p.model.nodes.len() as int);
    assert forall|x: int|
        0 <= x < after.nodes.len() && after.is_input_node(
            (#[trigger] after.nodes[x]).id,
        ) implies after.nodes[x].op is Source && after.nodes[x].inputs.len() == 0 by {
        assert(after.nodes[x].id == x);
        assert(declared(after.inputs, x as usize, 0));
        let o = OutletId { node: x as usize, slot: 0 };
        let k = choose|k: int| 0 <= k < g.inputs.len() && g.inputs[k] == o;
        assert(g.has_outlet(g.inputs[k]));
        assert(after.nodes[x].outputs.len() == g.nodes[x].outputs.len());
        assert forall|s: int| 0 <= s < g.nodes[x].outputs.len() implies #[trigger] declared(
            g.inputs,
            x as usize,
            s,
        ) by {
            assert(declared(after.inputs, x as usize, s));
        }
        assert(g.is_input_node(g.nodes[x].id));
        if p.obliterate.contains(x as usize) {
            let w = choose|w: int| 0 <= w < p.obliterate.len() && p.obliterate[w] == x as usize;
            assert(x == i);
        }
    }
}

/// A node of the compacted model whose operator has something to propose
/// copies a node whose operator had something to propose.
pub proof fn lemma_quiet_transfers(
    cap: Capability,
    g: GraphView<CoreOpView>,
    kept: Seq<usize>,
    k: int,
)
    requires
        sane(g),
        g.keeps(kept),
        0 <= k < kept.len(),
        quiet(cap, g, kept[k] as int),
    ensures
        quiet(cap, g.compacted(kept), k),
{
    let after = g.compacted(kept);
    g.lemma_compacted(kept);
    assert(g.copy_matches(kept, after, k));
    let old = g.nodes[kept[k] as int];
    let new = after.nodes[k];
    if g.is_input_node(kept[k]) {
    } else if new.op is UserDefined {
        let op = new.op->UserDefined_0;
        assert(old.op == new.op);
        if (cap is Declutter && op is MatMul && new.inputs.len() >= 2) || (cap is Codegen
            && op is MatMulUnary && new.inputs.len() >= 1) {
            lemma_live_maps_back(g, kept, k, 0);
            if cap is Declutter {
                lemma_live_maps_back(g, kept, k, 1);
            }
        }
    }
}

/// An input of a kept node that is live in the compacted model was live
/// before, with the same fact.
proof fn lemma_live_maps_back(g: GraphView<CoreOpView>, kept: Seq<usize>, k: int, j: int)
    requires
        sane(g),
        g.keeps(kept),
        0 <= k < kept.len(),
        !g.is_input_node(kept[k]),
        0 <= j < g.nodes[kept[k] as int].inputs.len(),
    ensures
        g.compacted(kept).nodes[k].inputs[j] == crate::translate::remap(
            kept,
            g.nodes[kept[k] as int].inputs[j],
        ),
        g.compacted(kept).is_live(g.compacted(kept).nodes[k].inputs[j]) ==> g.is_live(
            g.nodes[kept[k] as int].inputs[j],
        ),
        g.compacted(kept).outlet(g.compacted(kept).nodes[k].inputs[j]).fact == g.outlet(
            g.nodes[kept[k] as int].inputs[j],
        ).fact,
{
    let after = g.compacted(kept);
    g.lemma_compacted(kept);
    assert(g.copy_matches(kept, after, k));
    g.lemma_kept_inputs_precede(kept, k, j);
    let o = g.nodes[kept[k] as int].inputs[j];
    let p = kept.index_of(o.node);
    assert(kept[p] == o.node);
    assert(g.copy_matches(kept, after, p));
    assert(crate::op::outlet_facts(after.nodes[p].outputs)[o.slot as int]
        == crate::op::outlet_facts(g.nodes[o.node as int].outputs)[o.slot as int]);
    if g.is_input_node(kept[p]) {
        lemma_input_node_is_source(g, kept[p]);
    }
}

/// No node of the evaluation order at or behind `cursor` has anything to
/// propose when asked for `cap`.
pub open spec fn quiet_behind(cap: Capability, g: GraphView<CoreOpView>, cursor: usize) -> bool {
    g.scheduled() matches Some(order) && forall|j: int|
        cursor <= j < order.len() ==> quiet(cap, g, #[trigger] order[j] as int)
}

proof fn lemma_first_proposal(
    cap: Capability,
    g: GraphView<CoreOpView>,
    order: Seq<usize>,
    from: int,
)
    requires
        0 <= from <= order.len(),
    ensures
        from <= first_proposal::<CoreOp>(cap, g, order, from) <= order.len(),
        forall|j: int|
            from <= j < first_proposal::<CoreOp>(cap, g, order, from) ==> quiet(
                cap,
                g,
                #[trigger] order[j] as int,
            ),
        first_proposal::<CoreOp>(cap, g, order, from) < order.len() ==> !quiet(
            cap,
            g,
            order[first_proposal::<CoreOp>(cap, g, order, from)] as int,
        ),
    decreases order.len() - from,
{
    if from < order.len() && quiet(cap, g, order[from] as int) {
        lemma_first_proposal(cap, g, order, from + 1);
    }
}

/// A run of a pass never lowers the count of patches and keeps a sane model
/// sane; and where it applies no patch, it leaves the model as it is, and
/// no node behind the pass has anything to propose.
proof fn lemma_inner_run(cap: Capability, g: GraphView<CoreOpView>, cursor: usize, c: usize)
    requires
        sane(g),
    ensures
        inner_run::<CoreOp>(cap, g, cursor, c).0.counter >= c,
        sane(inner_run::<CoreOp>(cap, g, cursor, c).0.model),
        inner_run::<CoreOp>(cap, g, cursor, c).0.outcome is Ok && inner_run::<CoreOp>(
            cap,
            g,
            cursor,
            c,
        ).0.counter == c ==> inner_run::<CoreOp>(cap, g, cursor, c).0.model == g && quiet_behind(
            cap,
            g,
            cursor,
        ),
    decreases usize::MAX - c,
{
    g.lemma_scheduled();
    let step = pass_step::<CoreOp>(cap, g, cursor);
    match g.scheduled() {
        None => {},
        Some(order) => {
            if cursor <= order.len() {
                lemma_first_proposal(cap, g, order, cursor as int);
            }
            let at = first_proposal::<CoreOp>(cap, g, order, cursor as int);
            if at < order.len() {
                let node = order[at];
                assert(node < g.nodes.len());
                match proposal::<CoreOp>(cap, g, node as int) {
                    Ok(Some(p)) => {
                        lemma_proposed_patch(cap, g, node as int);
                        p.lemma_refusal(g);
                        if p.applicable(g) {
                            lemma_patched_sane(cap, g, node as int);
                            if c < usize::MAX {
                                lemma_inner_run(cap, p.applied(g), step.cursor, (c + 1) as usize);
                            }
                        }
                    },
                    _ => {},
                }
            }
        },
    }
}

proof fn lemma_compaction_sane(g: GraphView<CoreOpView>)
    requires
        countable(g),
        g.compaction() is Ok,
    ensures
        sane(g.compaction()->Ok_0),
        !g.compaction()->Ok_0.is_cyclic(),
        tight(g.compaction()->Ok_0),
        g.keeps(g.kept_nodes()->0),
{
    g.lemma_kept_nodes();
    lemma_compacted_sane(g, g.kept_nodes()->0);
    lemma_compacted_acyclic(g, g.kept_nodes()->0);
    lemma_compacted_tight(g, g.kept_nodes()->0);
}

proof fn lemma_outer_run(cap: Capability, g: GraphView<CoreOpView>, c: usize)
    requires
        sane(g),
    ensures
        outer_run::<CoreOp>(cap, g, c).counter >= c,
        sane(outer_run::<CoreOp>(cap, g, c).model),
        outer_run::<CoreOp>(cap, g, c).outcome is Ok && outer_run::<CoreOp>(cap, g, c).counter
            == c ==> outer_run::<CoreOp>(cap, g, c).model == g && quiet_behind(cap, g, 0),
    decreases usize::MAX - c,
{
    lemma_inner_run(cap, g, 0, c);
    let run = inner_run::<CoreOp>(cap, g, 0, c).0;
    if !(run.outcome is Err || run.counter <= c) {
        if run.model.compaction() is Ok {
            lemma_compaction_sane(run.model);
            lemma_outer_run(cap, run.model.compaction()->Ok_0, run.counter);
        }
    }
}

/// No node on the evaluation order of the compacted model has anything
/// to propose where none on the evaluation order of the model had.
proof fn lemma_quiet_after_compaction(cap: Capability, g: GraphView<CoreOpView>)
    requires
        sane(g),
        g.compaction() is Ok,
        quiet_all(cap, g),
    ensures
        quiet_all(cap, g.compaction()->Ok_0),
{
    lemma_compaction_sane(g);
    let kept = g.kept_nodes()->0;
    let order = g.scheduled()->0;
    let after = g.compacted(kept);
    g.lemma_compacted(kept);
    lemma_scheduled_renumbered(g, kept);
    let placed = order.map_values(place(kept));
    assert forall|j: int| 0 <= j < placed.len() implies quiet(
        cap,
        after,
        #[trigger] placed[j] as int,
    ) by {
        let x = order[j];
        assert(kept.contains(x));
        let k = kept.index_of(x);
        assert(0 <= k < kept.len() && kept[k] == x);
        assert(quiet(cap, g, order[j] as int));
        lemma_quiet_transfers(cap, g, kept, k);
    }
}

#[verifier::rlimit(40)]
proof fn lemma_all_passes_run(
    passes: Seq<OpOptim>,
    g: GraphView<CoreOpView>,
    c: usize,
    upto: int,
)
    requires
        sane(g),
        0 <= upto <= passes.len(),
    ensures
        all_passes_run::<CoreOp>(passes, g, c, upto).counter >= c,
        sane(all_passes_run::<CoreOp>(passes, g, c, upto).model),
        all_passes_run::<CoreOp>(passes, g, c, upto).outcome is Ok && all_passes_run::<CoreOp>(
            passes,
            g,
            c,
            upto,
        ).counter == c ==> {
            &&& forall|j: int|
                0 <= j < upto ==> quiet_all(
                    (#[trigger] passes[j]).1,
                    all_passes_run::<CoreOp>(passes, g, c, upto).model,
                )
            &&& upto >= 1 ==> !all_passes_run::<CoreOp>(passes, g, c, upto).model.is_cyclic()
        },
        all_passes_run::<CoreOp>(passes, g, c, upto).outcome is Ok && upto >= 1 ==> tight(
            all_passes_run::<CoreOp>(passes, g, c, upto).model,
        ) && is_compact(all_passes_run::<CoreOp>(passes, g, c, upto).model),
    decreases upto,
{
    if upto > 0 {
        lemma_all_passes_run(passes, g, c, upto - 1);
        let before = all_passes_run::<CoreOp>(passes, g, c, upto - 1);
        if before.outcome is Ok {
            let cap = passes[upto - 1].1;
            lemma_outer_run(cap, before.model, before.counter);
            let run = outer_run::<CoreOp>(cap, before.model, before.counter);
            if run.outcome is Ok && run.model.compaction() is Ok {
                lemma_compaction_sane(run.model);
                lemma_compacted_is_compact(run.model);
                if run.counter == c {
                    lemma_quiet_after_compaction(cap, run.model);
                    assert forall|j: int| 0 <= j < upto implies quiet_all(
                        (#[trigger] passes[j]).1,
                        run.model.compaction()->Ok_0,
                    ) by {
                        if j < upto - 1 {
                            lemma_quiet_after_compaction(passes[j].1, run.model);
                        }
                    }
                }
            }
        }
    }
}

proof fn lemma_rounds_run(passes: Seq<OpOptim>, g: GraphView<CoreOpView>, c: usize)
    requires
        sane(g),
        passes.len() >= 1,
    ensures
        rounds_run::<CoreOp>(passes, g, c).counter >= c,
        sane(rounds_run::<CoreOp>(passes, g, c).model),
        rounds_run::<CoreOp>(passes, g, c).outcome is Ok ==> {
            &&& forall|j: int|
                0 <= j < passes.len() ==> quiet_all(
                    (#[trigger] passes[j]).1,
                    rounds_run::<CoreOp>(passes, g, c).model,
                )
            &&& !rounds_run::<CoreOp>(passes, g, c).model.is_cyclic()
            &&& tight(rounds_run::<CoreOp>(passes, g, c).model)
            &&& is_compact(rounds_run::<CoreOp>(passes, g, c).model)
        },
    decreases usize::MAX - c,
{
    lemma_all_passes_run(passes, g, c, passes.len() as int);
    let run = all_passes_run::<CoreOp>(passes, g, c, passes.len() as int);
    if !(run.outcome is Err || run.counter <= c) {
        if run.model.compaction() is Ok {
            lemma_compaction_sane(run.model);
            lemma_rounds_run(passes, run.model.compaction()->Ok_0, run.counter);
        }
    }
}

/// A session that ends well leaves a sane model without cycles in which no
/// operator has anything to propose to any of the passes, of which every
/// node is on the evaluation order or holds a declared input, and which
/// compaction leaves as it is.
pub proof fn lemma_session_run(passes: Seq<OpOptim>, g: GraphView<CoreOpView>, c: usize)
    requires
        countable(g),
        passes.len() >= 1,
    ensures
        session_run::<CoreOp>(passes, g, c).counter >= c,
        session_run::<CoreOp>(passes, g, c).outcome is Ok ==> {
            &&& sane(session_run::<CoreOp>(passes, g, c).model)
            &&& forall|j: int|
                0 <= j < passes.len() ==> quiet_all(
                    (#[trigger] passes[j]).1,
                    session_run::<CoreOp>(passes, g, c).model,
                )
            &&& !session_run::<CoreOp>(passes, g, c).model.is_cyclic()
            &&& tight(session_run::<CoreOp>(passes, g, c).model)
            &&& is_compact(session_run::<CoreOp>(passes, g, c).model)
        },
{
    if g.compaction() is Ok {
        lemma_compaction_sane(g);
        lemma_rounds_run(passes, g.compaction()->Ok_0, c);
    }
}

proof fn lemma_settled_outer(cap: Capability, g: GraphView<CoreOpView>, c: usize)
    requires
        sane(g),
        quiet_all(cap, g),
    ensures
        outer_run::<CoreOp>(cap, g, c).outcome is Ok,
        outer_run::<CoreOp>(cap, g, c).counter == c,
        outer_run::<CoreOp>(cap, g, c).model == g,
{
    let order = g.scheduled()->0;
    lemma_first_proposal(cap, g, order, 0);
    let at = first_proposal::<CoreOp>(cap, g, order, 0);
    if at < order.len() {
        assert(quiet(cap, g, order[at] as int));
    }
}

proof fn lemma_settled_all_passes(
    passes: Seq<OpOptim>,
    g: GraphView<CoreOpView>,
    c: usize,
    upto: int,
)
    requires
        sane(g),
        settled(g),
        is_compact(g),
        0 <= upto <= passes.len(),
    ensures
        all_passes_run::<CoreOp>(passes, g, c, upto).outcome is Ok,
        all_passes_run::<CoreOp>(passes, g, c, upto).counter == c,
        all_passes_run::<CoreOp>(passes, g, c, upto).model == g,
    decreases upto,
{
    if upto > 0 {
        lemma_settled_all_passes(passes, g, c, upto - 1);
        let before = all_passes_run::<CoreOp>(passes, g, c, upto - 1);
        let cap = passes[upto - 1].1;
        assert(quiet_all(cap, before.model)) by {
            match cap {
                Capability::Declutter => {},
                Capability::Codegen => {},
            }
        }
        lemma_settled_outer(cap, before.model, before.counter);
    }
}

/// A session on a settled, sane model that compaction leaves as it is
/// applies no patch, and leaves the model as it is.
pub proof fn lemma_settled_session(passes: Seq<OpOptim>, g: GraphView<CoreOpView>, c: usize)
    requires
        sane(g),
        settled(g),
        is_compact(g),
    ensures
        session_run::<CoreOp>(passes, g, c).outcome is Ok,
        session_run::<CoreOp>(passes, g, c).counter == c,
        session_run::<CoreOp>(passes, g, c).model == g,
{
    lemma_settled_all_passes(passes, g, c, passes.len() as int);
}

/// Optimizing twice: where a model has been simplified and then lowered,
/// simplifying and lowering the result once more applies no patch and
/// gives the same model, node by node.
pub proof fn lemma_optimizing_twice(g: GraphView<CoreOpView>)
    requires
        countable(g),
        session_run::<CoreOp>(declutter_passes(), g, 0).outcome is Ok,
        session_run::<CoreOp>(
            codegen_passes(),
            session_run::<CoreOp>(declutter_passes(), g, 0).model,
            0,
        ).outcome is Ok,
    ensures
        ({
            let simplified = session_run::<CoreOp>(declutter_passes(), g, 0).model;
            let optimized = session_run::<CoreOp>(codegen_passes(), simplified, 0).model;
            let again = session_run::<CoreOp>(declutter_passes(), optimized, 0);
            let last = session_run::<CoreOp>(codegen_passes(), again.model, 0);
            &&& again.outcome is Ok
            &&& again.counter == 0
            &&& again.model == optimized
            &&& last.outcome is Ok
            &&& last.counter == 0
            &&& last.model == optimized
        }),
{
    let simplified = session_run::<CoreOp>(declutter_passes(), g, 0).model;
    lemma_session_run(declutter_passes(), g, 0);
    lemma_session_run(codegen_passes(), simplified, 0);
    let optimized = session_run::<CoreOp>(codegen_passes(), simplified, 0).model;
    assert(quiet_all(codegen_passes()[0].1, optimized));
    assert(quiet_all(codegen_passes()[1].1, optimized));
    assert(settled(optimized));
    lemma_settled_session(declutter_passes(), optimized, 0);
    lemma_settled_session(codegen_passes(), optimized, 0);
}

} // verus!
