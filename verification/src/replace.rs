//! What a patch leaves behind where it redirects and removes, and what
//! replacing a single operator does to a graph.

use crate::error::TractError;
use crate::graph::{GraphView, OperatorKind, OutletId};
use crate::op::{lemma_wire_spec, outlets_of, wire_spec, wired_outputs, Op};
use crate::outlet_map::{distinct_keys, lemma_inserted, lemma_lookup_some, lookup};
use crate::patch::{replace_spec, replacement_outputs, taps_of, PatchView};
use vstd::prelude::*;

verus! {

/// After a patch is applied, what each shunted outlet was redirected to
/// carries the fact of the shunted outlet, and no outlet of a removed node
/// is live.
pub proof fn lemma_applied_shunts<V>(patch: PatchView<V>, target: GraphView<V>)
    requires
        target.wf(),
        patch.wf(),
        patch.applicable(target),
    ensures
        forall|j: int|
            0 <= j < patch.shunt_outlet_by.len() ==> {
                let (outlet, by) = #[trigger] patch.shunt_outlet_by[j];
                let to = patch.resolve(target.nodes.len(), by)->0;
                &&& patch.applied(target).has_outlet(to)
                &&& patch.applied(target).outlet(to).fact == target.outlet(outlet).fact
            },
        forall|j: int, s: usize|
            0 <= j < patch.obliterate.len() ==> !(#[trigger] patch.applied(target).is_live(
                OutletId { node: patch.obliterate[j], slot: s },
            )),
{
    patch.lemma_applied(target);
    assert forall|j: int| 0 <= j < patch.shunt_outlet_by.len() implies {
        let (outlet, by) = #[trigger] patch.shunt_outlet_by[j];
        let to = patch.resolve(target.nodes.len(), by)->0;
        &&& patch.applied(target).has_outlet(to)
        &&& patch.applied(target).outlet(to).fact == target.outlet(outlet).fact
    } by {
        assert(patch.shunt_ok(target, j));
    }
}

/// The taps of a patch that holds nothing else are its first nodes, each a
/// source that stands for the outlet it was made for.
proof fn lemma_taps<V>(model: GraphView<V>, inputs: Seq<OutletId>, upto: int)
    requires
        0 <= upto <= inputs.len() <= usize::MAX,
    ensures
        ({
            let tapped = PatchView::<V>::empty().tap_all(model, inputs, upto);
            &&& tapped.model.wf()
            &&& tapped.model.nodes.len() == upto
            &&& tapped.shunt_outlet_by.len() == 0
            &&& tapped.obliterate.len() == 0
            &&& distinct_keys(tapped.incoming)
            &&& forall|k: int|
                0 <= k < upto ==> {
                    &&& (#[trigger] tapped.model.nodes[k]).op is Source
                    &&& tapped.model.nodes[k].outputs.len() == 1
                    &&& lookup(tapped.incoming, OutletId { node: k as usize, slot: 0 }) == Some(
                        inputs[k],
                    )
                }
        }),
    decreases upto,
{
    if upto > 0 {
        lemma_taps(model, inputs, upto - 1);
        let before = PatchView::<V>::empty().tap_all(model, inputs, upto - 1);
        let after = before.tap(model, inputs[upto - 1]);
        let key = OutletId { node: (upto - 1) as usize, slot: 0 };
        lemma_inserted(before.incoming, key, inputs[upto - 1]);
        before.model.lemma_add_source_wf(
            crate::label::tap_name(inputs[upto - 1]),
            model.outlet(inputs[upto - 1]).fact,
        );
        assert forall|k: int| 0 <= k < upto implies {
            &&& (#[trigger] after.model.nodes[k]).op is Source
            &&& after.model.nodes[k].outputs.len() == 1
            &&& lookup(after.incoming, OutletId { node: k as usize, slot: 0 }) == Some(inputs[k])
        } by {
            if k < upto - 1 {
                assert(after.model.nodes[k] == before.model.nodes[k]);
                assert((OutletId { node: k as usize, slot: 0 }) != key);
            }
        }
    }
}

/// The shunts that redirect the first `upto` outputs of a node, one each.
proof fn lemma_shunts<V>(patch: PatchView<V>, node: usize, wires: Seq<OutletId>, upto: int)
    requires
        patch.shunt_outlet_by.len() == 0,
        0 <= upto <= wires.len(),
        upto <= usize::MAX,
    ensures
        ({
            let shunted = patch.shunt_all(node, wires, upto);
            &&& shunted.model == patch.model
            &&& shunted.incoming == patch.incoming
            &&& shunted.obliterate == patch.obliterate
            &&& shunted.dont_apply_twice == patch.dont_apply_twice
            &&& distinct_keys(shunted.shunt_outlet_by)
            &&& forall|s: int|
                0 <= s < upto ==> lookup(
                    shunted.shunt_outlet_by,
                    OutletId { node, slot: s as usize },
                ) == Some(#[trigger] wires[s])
        }),
    decreases upto,
{
    if upto > 0 {
        lemma_shunts(patch, node, wires, upto - 1);
        let before = patch.shunt_all(node, wires, upto - 1);
        let key = OutletId { node, slot: (upto - 1) as usize };
        lemma_inserted(before.shunt_outlet_by, key, wires[upto - 1]);
        let after = patch.shunt_all(node, wires, upto);
        assert forall|s: int| 0 <= s < upto implies lookup(
            after.shunt_outlet_by,
            OutletId { node, slot: s as usize },
        ) == Some(#[trigger] wires[s]) by {
            if s < upto - 1 {
                assert((OutletId { node, slot: s as usize }) != key);
            }
        }
    }
}

/// A patch whose first nodes are all taps copies none of them.
proof fn lemma_taps_copy_nothing<V>(patch: PatchView<V>, upto: int)
    requires
        forall|k: int| 0 <= k < upto ==> #[trigger] patch.is_tap(k),
    ensures
        patch.copies_before(upto) == 0,
    decreases upto,
{
    if upto > 0 {
        lemma_taps_copy_nothing(patch, upto - 1);
        assert(patch.is_tap(upto - 1));
    }
}

/// The patch of `replace_single_op` is well formed, removes the replaced
/// node and nothing else, and may be offered again.
pub proof fn lemma_replace_patch<U: Op>(
    model: GraphView<U::V>,
    node: usize,
    name: Seq<char>,
    inputs: Seq<OutletId>,
    new_op: U::V,
)
    requires
        inputs.len() < usize::MAX,
        replace_spec::<U>(model, node, name, inputs, new_op) is Ok,
        replacement_outputs::<U>(model, inputs, new_op) <= usize::MAX,
    ensures
        replace_spec::<U>(model, node, name, inputs, new_op)->Ok_0.wf(),
        replace_spec::<U>(model, node, name, inputs, new_op)->Ok_0.obliterate == seq![node],
        replace_spec::<U>(model, node, name, inputs, new_op)->Ok_0.dont_apply_twice is None,
{
    let n = inputs.len() as int;
    let tapped = PatchView::<U::V>::empty().tap_all(model, inputs, n);
    let taps = taps_of(inputs.len());
    lemma_taps(model, inputs, n);
    PatchView::<U::V>::empty().lemma_tap_all(model, inputs, n);
    let wired = wire_spec::<U>(tapped.model, name, new_op, taps)->Ok_0;
    let count = wired_outputs::<U>(tapped.model, new_op, taps);
    let wires = outlets_of(inputs.len() as usize, count);
    lemma_wire_spec::<U>(tapped.model, name, new_op, taps);
    let start = PatchView { model: wired, ..tapped };
    lemma_shunts(start, node, wires, count as int);
    let patch = replace_spec::<U>(model, node, name, inputs, new_op)->Ok_0;
    assert(patch.obliterate =~= seq![node]);
}

/// Replacing a single operator: after the patch of `replace_single_op` for
/// node `node` is applied, the graph has one node more. The new node has
/// the new operator, the name of the old node and the given inputs. No
/// output of the old node is live any more, and each output of the new
/// node carries the fact that the old node's output in the same slot had.
pub proof fn lemma_replaced<U: Op>(
    model: GraphView<U::V>,
    node: usize,
    name: Seq<char>,
    inputs: Seq<OutletId>,
    new_op: U::V,
)
    requires
        model.wf(),
        node < model.nodes.len(),
        inputs.len() < usize::MAX,
        replace_spec::<U>(model, node, name, inputs, new_op) is Ok,
        replacement_outputs::<U>(model, inputs, new_op) <= usize::MAX,
        replace_spec::<U>(model, node, name, inputs, new_op)->Ok_0.applicable(model),
    ensures
        ({
            let patch = replace_spec::<U>(model, node, name, inputs, new_op)->Ok_0;
            let after = patch.applied(model);
            let base = model.nodes.len() as int;
            &&& after.wf()
            &&& after.nodes.len() == base + 1
            &&& after.nodes[base].op == OperatorKind::UserDefined(new_op)
            &&& after.nodes[base].name == name
            &&& after.nodes[base].inputs == inputs
            &&& forall|s: usize| !after.is_live(OutletId { node, slot: s })
            &&& forall|s: usize|
                s < after.nodes[base].outputs.len() ==> {
                    &&& model.has_outlet(OutletId { node, slot: s })
                    &&& (#[trigger] after.outlet(OutletId { node: base as usize, slot: s })).fact
                        == model.outlet(OutletId { node, slot: s }).fact
                }
        }),
{
    let n = inputs.len() as int;
    let base = model.nodes.len() as int;
    let tapped = PatchView::<U::V>::empty().tap_all(model, inputs, n);
    let taps = taps_of(inputs.len());
    lemma_taps(model, inputs, n);
    let wired = wire_spec::<U>(tapped.model, name, new_op, taps)->Ok_0;
    let count = wired_outputs::<U>(tapped.model, new_op, taps);
    let wires = outlets_of(inputs.len() as usize, count);
    lemma_wire_spec::<U>(tapped.model, name, new_op, taps);
    let start = PatchView { model: wired, ..tapped };
    let patch = replace_spec::<U>(model, node, name, inputs, new_op)->Ok_0;
    assert(wired.nodes[n].outputs.len() == count);
    lemma_shunts(start, node, wires, count as int);
    assert(patch.model == wired);
    assert(patch.incoming == tapped.incoming);
    assert(patch.obliterate =~= seq![node]);
    assert forall|k: int| 0 <= k < n implies #[trigger] patch.is_tap(k) by {
        assert(tapped.model.nodes[k].op is Source);
        assert(wired.nodes[k].op == tapped.model.nodes[k].op);
    }
    lemma_taps_copy_nothing(patch, n);
    assert(!patch.is_tap(n));
    assert(patch.copies_before(n + 1) == 1);
    patch.lemma_applied(model);
    let after = patch.applied(model);
    assert(patch.obliterate[0] == node);
    assert(patch.obliterate.contains(node));
    assert(!patch.obliterate.contains(base as usize)) by {
        if patch.obliterate.contains(base as usize) {
            let w = choose|w: int| 0 <= w < patch.obliterate.len() && patch.obliterate[w]
                == base as usize;
        }
    }
    assert(after.nodes[base + patch.copies_before(n)].inputs == patch.resolved_inputs(
        base as nat,
        n,
    ));
    assert(patch.resolved_inputs(base as nat, n) =~= inputs) by {
        assert forall|k: int| 0 <= k < n implies patch.resolved_inputs(base as nat, n)[k]
            == inputs[k] by {
            assert(wired.nodes[n].inputs[k] == taps[k]);
            assert(patch.is_tap(k));
        }
    }
    assert forall|s: usize| s < after.nodes[base].outputs.len() implies {
        &&& model.has_outlet(OutletId { node, slot: s })
        &&& (#[trigger] after.outlet(OutletId { node: base as usize, slot: s })).fact
            == model.outlet(OutletId { node, slot: s }).fact
    } by {
        let by = OutletId { node: n as usize, slot: s };
        let old = OutletId { node, slot: s };
        assert(wires[s as int] == by);
        assert(lookup(patch.shunt_outlet_by, old) == Some(by));
        lemma_lookup_some(patch.shunt_outlet_by, old);
        let j = choose|j: int|
            0 <= j < patch.shunt_outlet_by.len() && #[trigger] patch.shunt_outlet_by[j] == (
                old,
                by,
            );
        assert(patch.shunt_ok(model, j));
        assert(patch.resolve(base as nat, by) == Some(OutletId { node: base as usize, slot: s }));
    }
}

} // verus!
