//! Patches: detached sub-graphs that stand for a proposed edit of a graph.

use crate::error::{TractError, TractResult};
use crate::fact::{fact_views, FactView, TypedFact};
use crate::graph::{Graph, GraphView, InletId, Node, NodeView, OperatorKind, Outlet, OutletId};
use crate::label::{tap_label, tap_name};
use crate::op::{
    fact_sound, input_facts, lemma_wire_spec, outlet_facts, outlets_of, wire_spec, wired_outputs,
    Op,
};
use crate::outlet_map::{distinct_keys, inserted, lemma_inserted, lemma_lookup_some, lookup, OutletMap};
use vstd::prelude::*;

verus! {

/// A proposed edit: a graph of its own, the outlets of the target that its
/// source nodes stand for, the outlets of the target that it redirects, and
/// the nodes of the target that it removes.
pub struct ModelPatch<U> {
    /// Set where the pass that made the patch must not offer it again.
    pub dont_apply_twice: Option<String>,
    /// The nodes of the patch.
    pub model: Graph<U>,
    /// For each tap of the patch, the outlet of the target it stands for.
    pub incoming: OutletMap,
    /// For each redirected outlet of the target, the outlet of the patch
    /// that takes its place.
    pub shunt_outlet_by: OutletMap,
    /// The nodes of the target to replace by placeholders.
    pub obliterate: Vec<usize>,
}

pub struct PatchView<V> {
    pub dont_apply_twice: Option<Seq<char>>,
    pub model: GraphView<V>,
    pub incoming: Seq<(OutletId, OutletId)>,
    pub shunt_outlet_by: Seq<(OutletId, OutletId)>,
    pub obliterate: Seq<usize>,
}

impl<U: View> View for ModelPatch<U> {
    type V = PatchView<U::V>;

    open spec fn view(&self) -> PatchView<U::V> {
        PatchView {
            dont_apply_twice: match self.dont_apply_twice {
                Some(s) => Some(s@),
                None => None,
            },
            model: self.model@,
            incoming: self.incoming@,
            shunt_outlet_by: self.shunt_outlet_by@,
            obliterate: self.obliterate@,
        }
    }
}

impl<V> PatchView<V> {
    pub open spec fn empty() -> PatchView<V> {
        PatchView {
            dont_apply_twice: None,
            model: GraphView::empty(),
            incoming: Seq::empty(),
            shunt_outlet_by: Seq::empty(),
            obliterate: Seq::empty(),
        }
    }

    /// The patch's own graph is well formed.
    pub open spec fn wf(self) -> bool {
        &&& self.model.wf()
        &&& distinct_keys(self.incoming)
        &&& distinct_keys(self.shunt_outlet_by)
    }

    /// The patch with one more source node, which stands for `outlet` of
    /// `model`.
    pub open spec fn tap(self, model: GraphView<V>, outlet: OutletId) -> PatchView<V> {
        PatchView {
            model: self.model.add_source(tap_name(outlet), model.outlet(outlet).fact),
            incoming: inserted(
                self.incoming,
                OutletId { node: self.model.nodes.len() as usize, slot: 0 },
                outlet,
            ),
            ..self
        }
    }

    /// The patch with a tap for each of the first `upto` outlets of
    /// `outlets`.
    pub open spec fn tap_all(self, model: GraphView<V>, outlets: Seq<OutletId>, upto: int)
        -> PatchView<V>
        decreases upto,
    {
        if upto <= 0 {
            self
        } else {
            self.tap_all(model, outlets, upto - 1).tap(model, outlets[upto - 1])
        }
    }

    /// The patch that also redirects `outlet` of the target to its own
    /// outlet `by`.
    pub open spec fn shunt(self, outlet: OutletId, by: OutletId) -> PatchView<V> {
        PatchView { shunt_outlet_by: inserted(self.shunt_outlet_by, outlet, by), ..self }
    }

    /// The patch that also redirects the first `upto` outputs of node
    /// `node` of the target to the outlets `wires`.
    pub open spec fn shunt_all(self, node: usize, wires: Seq<OutletId>, upto: int) -> PatchView<V>
        decreases upto,
    {
        if upto <= 0 {
            self
        } else {
            self.shunt_all(node, wires, upto - 1).shunt(
                OutletId { node, slot: (upto - 1) as usize },
                wires[upto - 1],
            )
        }
    }

    /// The patch that also removes node `node` of the target.
    pub open spec fn mark_obliterated(self, node: usize) -> PatchView<V> {
        PatchView { obliterate: self.obliterate.push(node), ..self }
    }
}

/// The taps that `replace_single_op` makes for `inputs`: one source node
/// each, numbered from zero.
pub open spec fn taps_of(count: nat) -> Seq<OutletId> {
    Seq::new(count, |k: int| OutletId { node: k as usize, slot: 0 })
}

/// How many outputs the node gets that `replace_single_op` wires for the
/// operator `new_op` over `inputs`.
pub open spec fn replacement_outputs<U: Op>(
    model: GraphView<U::V>,
    inputs: Seq<OutletId>,
    new_op: U::V,
) -> nat {
    wired_outputs::<U>(
        PatchView::<U::V>::empty().tap_all(model, inputs, inputs.len() as int).model,
        new_op,
        taps_of(inputs.len()),
    )
}

/// The patch that replaces node `node` of `model`, named `name`, by one
/// node with the operator `new_op` over `inputs`, or why there is none.
pub open spec fn replace_spec<U: Op>(
    model: GraphView<U::V>,
    node: usize,
    name: Seq<char>,
    inputs: Seq<OutletId>,
    new_op: U::V,
) -> Result<PatchView<U::V>, TractError> {
    if !(forall|k: int| 0 <= k < inputs.len() ==> model.is_live(#[trigger] inputs[k])) {
        Err(TractError::OutletNotFound)
    } else {
        let tapped = PatchView::<U::V>::empty().tap_all(model, inputs, inputs.len() as int);
        let taps = taps_of(inputs.len());
        match wire_spec::<U>(tapped.model, name, new_op, taps) {
            Err(e) => Err(e),
            Ok(wired) => {
                let count = wired_outputs::<U>(tapped.model, new_op, taps);
                let wires = outlets_of(inputs.len() as usize, count);
                Ok(
                    PatchView { model: wired, ..tapped }.shunt_all(
                        node,
                        wires,
                        count as int,
                    ).mark_obliterated(node),
                )
            },
        }
    }
}

impl<U: View> Default for ModelPatch<U> {
    /// The patch that changes nothing.
    fn default() -> (r: ModelPatch<U>)
        ensures
            r@ == PatchView::<U::V>::empty(),
            r.wf(),
    {
        ModelPatch::new()
    }
}

impl<U: View> ModelPatch<U> {
    pub open spec fn wf(&self) -> bool {
        self@.wf()
    }

    /// The patch that changes nothing.
    pub fn new() -> (r: ModelPatch<U>)
        ensures
            r@ == PatchView::<U::V>::empty(),
            r.wf(),
    {
        let model = Graph::new();
        let incoming = OutletMap::new();
        let shunt_outlet_by = OutletMap::new();
        ModelPatch {
            dont_apply_twice: None,
            model,
            incoming,
            shunt_outlet_by,
            obliterate: Vec::new(),
        }
    }

    /// Adds a source node that stands for `outlet` of `model`, with the
    /// fact that `model` records for it, and returns its outlet.
    pub fn tap_model(&mut self, model: &Graph<U>, outlet: OutletId) -> (r: TractResult<OutletId>)
        requires
            old(self).wf(),
        ensures
            match r {
                Ok(id) => {
                    &&& model@.is_live(outlet)
                    &&& id == (OutletId { node: old(self).model.nodes.len(), slot: 0 })
                    &&& final(self)@ == old(self)@.tap(model@, outlet)
                },
                Err(e) => {
                    &&& !model@.is_live(outlet)
                    &&& e == TractError::OutletNotFound
                    &&& final(self)@ == old(self)@
                },
            },
            final(self).wf(),
    {
        let fact = match model.outlet_fact(outlet) {
            Ok(f) => f.clone(),
            Err(e) => {
                return Err(e);
            },
        };
        let name = tap_label(outlet);
        let id = match self.model.add_source(name.as_str(), fact) {
            Ok(id) => id,
            Err(e) => {
                return Err(e);
            },
        };
        self.incoming.insert(id, outlet);
        Ok(id)
    }

    /// Redirects `outlet` of the target to the outlet `by` of the patch.
    pub fn shunt_outside(&mut self, outlet: OutletId, by: OutletId) -> (r: TractResult<()>)
        requires
            old(self).wf(),
        ensures
            r is Ok,
            final(self)@ == old(self)@.shunt(outlet, by),
            final(self).wf(),
    {
        self.shunt_outlet_by.insert(outlet, by);
        Ok(())
    }

    /// Marks node `node` of the target for removal.
    pub fn obliterate(&mut self, node: usize) -> (r: TractResult<()>)
        requires
            old(self).wf(),
        ensures
            r is Ok,
            final(self)@ == old(self)@.mark_obliterated(node),
            final(self).wf(),
    {
        self.obliterate.push(node);
        Ok(())
    }
}

/// What a patch builder returned, over views.
pub open spec fn built_patch<U: View>(r: TractResult<ModelPatch<U>>) -> Result<
    PatchView<U::V>,
    TractError,
> {
    match r {
        Ok(p) => Ok(p@),
        Err(e) => Err(e),
    }
}

impl<V> PatchView<V> {
    /// Tapping an outlet adds one node to the patch and keeps it well
    /// formed.
    pub proof fn lemma_tap_all(self, model: GraphView<V>, outlets: Seq<OutletId>, upto: int)
        requires
            0 <= upto <= outlets.len(),
        ensures
            self.tap_all(model, outlets, upto).model.nodes.len() == self.model.nodes.len() + upto,
            self.tap_all(model, outlets, upto).shunt_outlet_by == self.shunt_outlet_by,
            self.tap_all(model, outlets, upto).obliterate == self.obliterate,
            self.tap_all(model, outlets, upto).dont_apply_twice == self.dont_apply_twice,
        decreases upto,
    {
        if upto > 0 {
            self.lemma_tap_all(model, outlets, upto - 1);
        }
    }
}

impl<U: Op> ModelPatch<U> {
    /// The patch that replaces `node` of `patched_model` by one node with
    /// the operator `new_op` over `inputs`: it taps each of `inputs`, wires
    /// `new_op` over the taps under the name of `node`, redirects each
    /// output of `node` to the output of the new node in the same slot, and
    /// removes `node`.
    pub fn replace_single_op(
        patched_model: &Graph<U>,
        node: &Node<U>,
        inputs: &[OutletId],
        new_op: U,
    ) -> (r: TractResult<ModelPatch<U>>)
        requires
            patched_model.wf(),
        ensures
            built_patch(r) == replace_spec::<U>(
                patched_model@,
                node.id,
                node.name@,
                inputs@,
                new_op@,
            ),
            r matches Ok(p) ==> p.wf() && fact_sound::<U>(p@.model),
    {
        let mut patch: ModelPatch<U> = ModelPatch::new();
        let ghost start = patch@;
        let mut taps: Vec<OutletId> = Vec::new();
        let mut k: usize = 0;
        while k < inputs.len()
            invariant
                k <= inputs.len(),
                start == PatchView::<U::V>::empty(),
                patch.wf(),
                fact_sound::<U>(patch@.model),
                patch@ == start.tap_all(patched_model@, inputs@, k as int),
                patch@.model.nodes.len() == k,
                taps@ == taps_of(k as nat),
                forall|j: int| 0 <= j < k ==> patched_model@.is_live(#[trigger] inputs@[j]),
            decreases inputs.len() - k,
        {
            proof {
                crate::sound::lemma_tap_sound::<U>(patch@, patched_model@, inputs@[k as int]);
            }
            match patch.tap_model(patched_model, inputs[k]) {
                Ok(id) => {
                    taps.push(id);
                    assert(taps@ =~= taps_of(k as nat + 1));
                },
                Err(e) => {
                    return Err(e);
                },
            }
            k += 1;
        }
        let ghost tapped = patch@;
        proof {
            start.lemma_tap_all(patched_model@, inputs@, inputs@.len() as int);
        }
        let wires = match patch.model.wire_node(node.name.as_str(), new_op, taps.as_slice()) {
            Ok(w) => w,
            Err(e) => {
                return Err(e);
            },
        };
        let ghost wired = patch@;
        let ghost count = wired_outputs::<U>(tapped.model, new_op@, taps@);
        assert(wired == (PatchView { model: wired.model, ..tapped }));
        let mut ix: usize = 0;
        while ix < wires.len()
            invariant
                ix <= wires.len(),
                patch.wf(),
                fact_sound::<U>(patch@.model),
                wires@ == outlets_of(inputs@.len() as usize, count),
                patch@ == wired.shunt_all(node.id, wires@, ix as int),
            decreases wires.len() - ix,
        {
            let _ = patch.shunt_outside(OutletId::new(node.id, ix), wires[ix]);
            ix += 1;
        }
        let _ = patch.obliterate(node.id);
        Ok(patch)
    }
}

} // verus!
