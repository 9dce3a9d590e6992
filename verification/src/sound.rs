//! Fact soundness: the facts recorded on a node are the facts that its
//! operator infers. Building, patching and compacting a graph keep it.

use crate::error::TractError;
use crate::fact::FactView;
use crate::graph::{GraphView, OperatorKind, OutletId};
use crate::op::{fact_sound, input_facts, node_is_sound, outlet_facts, Op};
use crate::patch::PatchView;
use crate::translate::{remap, remap_all};
use vstd::prelude::*;

verus! {

/// A source added to a sound graph leaves it sound.
pub proof fn lemma_add_source_sound<U: Op>(g: GraphView<U::V>, name: Seq<char>, fact: FactView)
    requires
        g.wf(),
        fact_sound::<U>(g),
    ensures
        fact_sound::<U>(g.add_source(name, fact)),
{
    let after = g.add_source(name, fact);
    assert forall|i: int| 0 <= i < after.nodes.len() implies #[trigger] node_is_sound::<U>(
        after,
        i,
    ) by {
        if i < g.nodes.len() {
            assert(node_is_sound::<U>(g, i));
            assert(after.nodes[i] == g.nodes[i]);
            let ins = g.nodes[i].inputs;
            assert(input_facts(after, ins) =~= input_facts(g, ins)) by {
                assert forall|k: int| 0 <= k < ins.len() implies after.outlet(ins[k]).fact
                    == g.outlet(ins[k]).fact by {
                    assert(g.input_ok(i, k));
                }
            }
        }
    }
}

/// A tap added to a sound patch leaves the patch's graph sound.
pub proof fn lemma_tap_sound<U: Op>(
    patch: PatchView<U::V>,
    model: GraphView<U::V>,
    outlet: OutletId,
)
    requires
        patch.model.wf(),
        fact_sound::<U>(patch.model),
    ensures
        fact_sound::<U>(patch.tap(model, outlet).model),
{
    lemma_add_source_sound::<U>(
        patch.model,
        crate::label::tap_name(outlet),
        model.outlet(outlet).fact,
    );
}

/// Every node that a patch adds to its target copies a node of the patch.
pub proof fn lemma_copy_source<V>(patch: PatchView<V>, c: int, upto: int) -> (p: int)
    requires
        0 <= c < patch.copies_before(upto),
    ensures
        0 <= p < upto,
        !patch.is_tap(p),
        patch.copies_before(p) == c,
    decreases upto,
{
    if upto <= 0 {
        0
    } else if !patch.is_tap(upto - 1) && patch.copies_before(upto - 1) == c {
        upto - 1
    } else {
        patch.lemma_copies_before(0, upto - 1);
        lemma_copy_source(patch, c, upto - 1)
    }
}

/// Applying a sound patch to a sound graph leaves the graph sound.
pub proof fn lemma_applied_sound<U: Op>(patch: PatchView<U::V>, target: GraphView<U::V>)
    requires
        target.wf(),
        patch.wf(),
        patch.applicable(target),
        fact_sound::<U>(target),
        fact_sound::<U>(patch.model),
    ensures
        fact_sound::<U>(patch.applied(target)),
{
    let after = patch.applied(target);
    let base = target.nodes.len();
    let n = patch.model.nodes.len() as int;
    patch.lemma_applied(target);
    patch.lemma_copies_before(0, n);
    assert forall|i: int| 0 <= i < after.nodes.len() implies #[trigger] node_is_sound::<U>(
        after,
        i,
    ) by {
        if after.nodes[i].op is UserDefined {
            if i < base {
                assert(node_is_sound::<U>(target, i));
                let ins = target.nodes[i].inputs;
                assert(input_facts(after, ins) =~= input_facts(target, ins)) by {
                    assert forall|k: int| 0 <= k < ins.len() implies after.outlet(ins[k]).fact
                        == target.outlet(ins[k]).fact by {
                        assert(target.input_ok(i, k));
                        let o = ins[k];
                        assert(outlet_facts(after.nodes[o.node as int].outputs)[o.slot as int]
                            == outlet_facts(target.nodes[o.node as int].outputs)[o.slot as int]);
                    }
                }
            } else {
                let p = lemma_copy_source(patch, i - base, n);
                assert(after.nodes[base + patch.copies_before(p)].inputs == patch.resolved_inputs(
                    base,
                    p,
                ));
                assert(node_is_sound::<U>(patch.model, p));
                let ins = patch.model.nodes[p].inputs;
                let resolved = patch.resolved_inputs(base, p);
                assert(input_facts(after, resolved) =~= input_facts(patch.model, ins)) by {
                    assert forall|k: int| 0 <= k < ins.len() implies after.outlet(
                        resolved[k],
                    ).fact == patch.model.outlet(ins[k]).fact by {
                        assert(patch.input_resolves(base, p, k));
                        assert(patch.resolve(base, ins[k]) is Some);
                    }
                }
            }
        }
    }
}

/// Compacting a sound graph leaves it sound.
pub proof fn lemma_compacted_sound<U: Op>(g: GraphView<U::V>, kept: Seq<usize>)
    requires
        g.wf(),
        g.nodes.len() <= usize::MAX,
        g.keeps(kept),
        fact_sound::<U>(g),
    ensures
        fact_sound::<U>(g.compacted(kept)),
{
    let after = g.compacted(kept);
    g.lemma_compacted(kept);
    assert forall|k: int| 0 <= k < after.nodes.len() implies #[trigger] node_is_sound::<U>(
        after,
        k,
    ) by {
        assert(g.copy_matches(kept, after, k));
        if after.nodes[k].op is UserDefined {
            let old = g.nodes[kept[k] as int];
            assert(node_is_sound::<U>(g, kept[k] as int));
            let ins = old.inputs;
            let new_ins = remap_all(kept, ins);
            assert(input_facts(after, new_ins) =~= input_facts(g, ins)) by {
                assert forall|j: int| 0 <= j < ins.len() implies after.outlet(new_ins[j]).fact
                    == g.outlet(ins[j]).fact by {
                    g.lemma_kept_inputs_precede(kept, k, j);
                    let o = ins[j];
                    let q = kept.index_of(o.node);
                    assert(kept[q] == o.node);
                    assert(g.copy_matches(kept, after, q));
                    assert(outlet_facts(after.nodes[q].outputs)[o.slot as int] == outlet_facts(
                        g.nodes[o.node as int].outputs,
                    )[o.slot as int]);
                }
            }
        }
    }
}

} // verus!
