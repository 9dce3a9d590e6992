//! What an operator must be able to do for the graph and its optimizer.

use crate::error::{TractError, TractResult};
use crate::fact::{fact_views, FactView, TypedFact};
use crate::graph::{
    Graph, GraphView, InletId, Node, OperatorKind, Outlet, OutletId, OutletView,
};
use crate::patch::{ModelPatch, PatchView};
use crate::tensor::{IntoArcTensor, Tensor, TensorView};
use std::sync::Arc;
use vstd::prelude::*;

verus! {

/// The views of the facts behind a run of references.
pub open spec fn ref_fact_views(facts: Seq<&TypedFact>) -> Seq<FactView> {
    Seq::new(facts.len(), |i: int| facts[i]@)
}

/// What a fact inference returned, over views.
pub open spec fn facts_result(r: TractResult<Vec<TypedFact>>) -> Result<Seq<FactView>, TractError> {
    match r {
        Ok(facts) => Ok(fact_views(facts@)),
        Err(e) => Err(e),
    }
}

/// What a rewrite returned, over views.
pub open spec fn patch_result<U: View>(r: TractResult<Option<ModelPatch<U>>>) -> Result<
    Option<PatchView<U::V>>,
    TractError,
> {
    match r {
        Ok(Some(p)) => Ok(Some(p@)),
        Ok(None) => Ok(None),
        Err(e) => Err(e),
    }
}

/// What every operator can do: say its name and infer the facts of its
/// outputs from the facts of its inputs. Each capability is a function of
/// its arguments alone: the `spec_` function beside it says which.
pub trait Op: View + Sized {
    /// The name shown for the operator.
    spec fn spec_name(op: Self::V) -> Seq<char>;

    /// The output facts for the input facts `inputs`, or the reason why
    /// the operator rejects them.
    spec fn spec_output_facts(op: Self::V, inputs: Seq<FactView>) -> Result<
        Seq<FactView>,
        TractError,
    >;

    /// The operator without inputs whose single output always carries `t`.
    spec fn spec_konst(t: TensorView) -> Self::V;

    /// The constant operator infers the fact of its tensor.
    proof fn lemma_konst_facts(t: TensorView)
        ensures
            Self::spec_output_facts(Self::spec_konst(t), Seq::empty()) == Ok::<
                Seq<FactView>,
                TractError,
            >(seq![FactView::of_tensor(t)]),
    ;

    fn name(&self) -> (r: String)
        ensures
            r@ == Self::spec_name(self@),
    ;

    fn output_facts(&self, inputs: &[&TypedFact]) -> (r: TractResult<Vec<TypedFact>>)
        ensures
            facts_result(r) == Self::spec_output_facts(self@, ref_fact_views(inputs@)),
    ;

    fn konst(t: Arc<Tensor>) -> (r: Self)
        ensures
            r@ == Self::spec_konst(t@),
    ;

    /// A copy of the operator.
    fn duplicate(&self) -> (r: Self)
        ensures
            r@ == self@,
    ;
}

impl<U: Op> Clone for OperatorKind<U> {
    fn clone(&self) -> (r: OperatorKind<U>)
        ensures
            r@ == self@,
    {
        match self {
            OperatorKind::Source => OperatorKind::Source,
            OperatorKind::Placeholder => OperatorKind::Placeholder,
            OperatorKind::UserDefined(u) => OperatorKind::UserDefined(u.duplicate()),
        }
    }
}

impl<U: Op> Clone for Node<U> {
    fn clone(&self) -> (r: Node<U>)
        ensures
            r@ == self@,
    {
        let mut outputs: Vec<Outlet> = Vec::new();
        let mut s: usize = 0;
        while s < self.outputs.len()
            invariant
                s <= self.outputs.len(),
                outputs@.len() == s,
                forall|a: int| 0 <= a < s ==> (#[trigger] outputs@[a])@ == self.outputs@[a]@,
            decreases self.outputs.len() - s,
        {
            outputs.push(self.outputs[s].clone());
            s += 1;
        }
        let r = Node {
            id: self.id,
            name: self.name.as_str().to_owned(),
            inputs: vstd::slice::slice_to_vec(self.inputs.as_slice()),
            op: self.op.clone(),
            outputs,
        };
        assert(r@.outputs =~= self@.outputs);
        r
    }
}

impl<U: Op> Clone for Graph<U> {
    fn clone(&self) -> (r: Graph<U>)
        ensures
            r@ == self@,
    {
        let mut nodes: Vec<Node<U>> = Vec::new();
        let mut i: usize = 0;
        while i < self.nodes.len()
            invariant
                i <= self.nodes.len(),
                nodes@.len() == i,
                forall|a: int| 0 <= a < i ==> (#[trigger] nodes@[a])@ == self.nodes@[a]@,
            decreases self.nodes.len() - i,
        {
            nodes.push(self.nodes[i].clone());
            i += 1;
        }
        let r = Graph {
            nodes,
            inputs: vstd::slice::slice_to_vec(self.inputs.as_slice()),
            outputs: vstd::slice::slice_to_vec(self.outputs.as_slice()),
        };
        assert(r@.nodes =~= self@.nodes);
        r
    }
}

impl<U: Op> Clone for ModelPatch<U> {
    fn clone(&self) -> (r: ModelPatch<U>)
        ensures
            r@ == self@,
    {
        let dont_apply_twice = match &self.dont_apply_twice {
            Some(s) => Some(s.as_str().to_owned()),
            None => None,
        };
        ModelPatch {
            dont_apply_twice,
            model: self.model.clone(),
            incoming: self.incoming.clone(),
            shunt_outlet_by: self.shunt_outlet_by.clone(),
            obliterate: vstd::slice::slice_to_vec(self.obliterate.as_slice()),
        }
    }
}

/// What an operator can propose to the optimizer: a simplification of the
/// node it sits on, and a lowering to a form that is ready to run. Each
/// returns a patch or reports that nothing is to change; neither touches
/// the graph.
pub trait TypedOp: Op {
    /// The simplification that the operator proposes for node `node` of
    /// `model`, if any.
    spec fn spec_declutter(op: Self::V, model: GraphView<Self::V>, node: int) -> Result<
        Option<PatchView<Self::V>>,
        TractError,
    >;

    /// The lowering that the operator proposes for node `node` of
    /// `model`, if any.
    spec fn spec_codegen(op: Self::V, model: GraphView<Self::V>, node: int) -> Result<
        Option<PatchView<Self::V>>,
        TractError,
    >;

    fn declutter(&self, model: &Graph<Self>, node: &Node<Self>) -> (r: TractResult<
        Option<ModelPatch<Self>>,
    >)
        requires
            model.wf(),
            node.id < model.nodes@.len(),
            model.nodes@[node.id as int] == *node,
        ensures
            patch_result(r) == Self::spec_declutter(self@, model@, node.id as int),
            r matches Ok(Some(p)) ==> p.wf() && fact_sound::<Self>(p@.model),
    ;

    fn codegen(&self, model: &Graph<Self>, node: &Node<Self>) -> (r: TractResult<
        Option<ModelPatch<Self>>,
    >)
        requires
            model.wf(),
            node.id < model.nodes@.len(),
            model.nodes@[node.id as int] == *node,
        ensures
            patch_result(r) == Self::spec_codegen(self@, model@, node.id as int),
            r matches Ok(Some(p)) ==> p.wf() && fact_sound::<Self>(p@.model),
    ;
}

/// The facts of a run of output slots.
pub open spec fn outlet_facts(outputs: Seq<OutletView>) -> Seq<FactView> {
    Seq::new(outputs.len(), |s: int| outputs[s].fact)
}

/// The facts that `g` records for the outlets `inputs`.
pub open spec fn input_facts<V>(g: GraphView<V>, inputs: Seq<OutletId>) -> Seq<FactView> {
    Seq::new(inputs.len(), |k: int| g.outlet(inputs[k]).fact)
}

/// The outlets of node `node`, which has `count` output slots.
pub open spec fn outlets_of(node: usize, count: nat) -> Seq<OutletId> {
    Seq::new(count, |s: int| OutletId { node, slot: s as usize })
}

/// The operator of node `i`, where it is the user's, infers from the facts
/// of the node's inputs the facts recorded on the node's outputs.
pub open spec fn node_is_sound<U: Op>(g: GraphView<U::V>, i: int) -> bool {
    g.nodes[i].op matches OperatorKind::UserDefined(op) ==> U::spec_output_facts(
        op,
        input_facts(g, g.nodes[i].inputs),
    ) == Ok::<Seq<FactView>, TractError>(outlet_facts(g.nodes[i].outputs))
}

/// No node's recorded facts differ from what its operator infers.
pub open spec fn fact_sound<U: Op>(g: GraphView<U::V>) -> bool {
    forall|i: int| 0 <= i < g.nodes.len() ==> #[trigger] node_is_sound::<U>(g, i)
}

/// What `wire_node` makes of the graph `g`, or why it refuses.
pub open spec fn wire_spec<U: Op>(
    g: GraphView<U::V>,
    name: Seq<char>,
    op: U::V,
    inputs: Seq<OutletId>,
) -> Result<GraphView<U::V>, TractError> {
    if !(forall|k: int| 0 <= k < inputs.len() ==> g.is_live(#[trigger] inputs[k])) {
        Err(TractError::OutletNotFound)
    } else {
        match U::spec_output_facts(op, input_facts(g, inputs)) {
            Ok(facts) => Ok(
                g.add_node(name, OperatorKind::UserDefined(op), facts).wire_inputs(
                    g.nodes.len() as usize,
                    inputs,
                    inputs.len() as int,
                ),
            ),
            Err(_) => Err(TractError::FactInferenceError),
        }
    }
}

/// The number of output slots that `wire_node` gives the new node.
pub open spec fn wired_outputs<U: Op>(g: GraphView<U::V>, op: U::V, inputs: Seq<OutletId>) -> nat {
    match U::spec_output_facts(op, input_facts(g, inputs)) {
        Ok(facts) => facts.len(),
        Err(_) => 0,
    }
}

/// Wiring a node keeps the graph well formed, leaves the nodes that were
/// there as they were but for their successors, and records on the new node
/// the facts that its operator infers.
pub proof fn lemma_wire_spec<U: Op>(
    g: GraphView<U::V>,
    name: Seq<char>,
    op: U::V,
    inputs: Seq<OutletId>,
)
    requires
        g.wf(),
        g.nodes.len() < usize::MAX,
        inputs.len() <= usize::MAX,
        wire_spec::<U>(g, name, op, inputs) is Ok,
    ensures
        ({
            let after = wire_spec::<U>(g, name, op, inputs)->Ok_0;
            let facts = U::spec_output_facts(op, input_facts(g, inputs))->Ok_0;
            &&& after.wf()
            &&& after.same_but_edges(g.add_node(name, OperatorKind::UserDefined(op), facts))
            &&& after.nodes[g.nodes.len() as int].inputs == inputs
            &&& forall|i: int|
                0 <= i < g.nodes.len() ==> (#[trigger] after.nodes[i]).inputs == g.nodes[i].inputs
            &&& node_is_sound::<U>(after, g.nodes.len() as int)
            &&& fact_sound::<U>(g) ==> fact_sound::<U>(after)
        }),
{
    let facts = U::spec_output_facts(op, input_facts(g, inputs))->Ok_0;
    let mid = g.add_node(name, OperatorKind::UserDefined(op), facts);
    let id = g.nodes.len() as usize;
    let after = mid.wire_inputs(id, inputs, inputs.len() as int);
    g.lemma_add_node_wf(name, OperatorKind::UserDefined(op), facts);
    assert forall|k: int| 0 <= k < inputs.len() implies mid.has_outlet(#[trigger] inputs[k]) by {
        assert(g.is_live(inputs[k]));
    }
    mid.lemma_wire_inputs(id, inputs, inputs.len() as int);
    assert(inputs.take(inputs.len() as int) =~= inputs);
    assert forall|i: int| 0 <= i < g.nodes.len() implies (#[trigger] after.nodes[i]).inputs
        == g.nodes[i].inputs by {
        assert(mid.nodes[i] == g.nodes[i]);
    }
    assert(input_facts(after, inputs) =~= input_facts(g, inputs)) by {
        assert forall|k: int| 0 <= k < inputs.len() implies after.outlet(inputs[k]).fact
            == g.outlet(inputs[k]).fact by {
            assert(g.is_live(inputs[k]));
            let o = inputs[k];
            assert(mid.nodes[o.node as int] == g.nodes[o.node as int]);
            assert(after.nodes[o.node as int].outputs[o.slot as int].fact
                == mid.nodes[o.node as int].outputs[o.slot as int].fact);
        }
    }
    assert(outlet_facts(after.nodes[id as int].outputs) =~= facts) by {
        assert forall|s: int| 0 <= s < facts.len() implies after.nodes[id as int].outputs[s].fact
            == facts[s] by {
            assert(after.nodes[id as int].outputs[s].fact == mid.nodes[id as int].outputs[s].fact);
        }
    }
    if fact_sound::<U>(g) {
        assert forall|i: int| 0 <= i < after.nodes.len() implies #[trigger] node_is_sound::<U>(
            after,
            i,
        ) by {
            if i < g.nodes.len() {
                assert(node_is_sound::<U>(g, i));
                assert(mid.nodes[i] == g.nodes[i]);
                let ins = g.nodes[i].inputs;
                assert(input_facts(after, ins) =~= input_facts(g, ins)) by {
                    assert forall|k: int| 0 <= k < ins.len() implies after.outlet(ins[k]).fact
                        == g.outlet(ins[k]).fact by {
                        assert(g.input_ok(i, k));
                        let o = ins[k];
                        assert(mid.nodes[o.node as int] == g.nodes[o.node as int]);
                        assert(after.nodes[o.node as int].outputs[o.slot as int].fact
                            == mid.nodes[o.node as int].outputs[o.slot as int].fact);
                    }
                }
                assert(outlet_facts(after.nodes[i].outputs) =~= outlet_facts(g.nodes[i].outputs))
                    by {
                    assert forall|s: int| 0 <= s < g.nodes[i].outputs.len() implies (
                    #[trigger] after.nodes[i].outputs[s]).fact == g.nodes[i].outputs[s].fact by {
                        assert(after.nodes[i].outputs[s].fact == mid.nodes[i].outputs[s].fact);
                    }
                }
            }
        }
    }
}

impl<U: Op> Graph<U> {
    /// Inserts a node with the operator `op`, with the facts that `op`
    /// infers from the facts of `inputs` on its outputs, wires `inputs` to
    /// it in order, and returns its outlets.
    pub fn wire_node(&mut self, name: &str, op: U, inputs: &[OutletId]) -> (r: TractResult<
        Vec<OutletId>,
    >)
        requires
            old(self).wf(),
        ensures
            match r {
                Ok(outlets) => {
                    &&& wire_spec::<U>(old(self)@, name@, op@, inputs@) == Ok::<
                        GraphView<U::V>,
                        TractError,
                    >(final(self)@)
                    &&& outlets@ == outlets_of(
                        old(self).nodes.len(),
                        wired_outputs::<U>(old(self)@, op@, inputs@),
                    )
                },
                Err(e) => {
                    &&& wire_spec::<U>(old(self)@, name@, op@, inputs@) == Err::<
                        GraphView<U::V>,
                        TractError,
                    >(e)
                    &&& final(self)@ == old(self)@
                },
            },
            final(self).wf(),
            fact_sound::<U>(old(self)@) ==> fact_sound::<U>(final(self)@),
    {
        let mut input_facts_vec: Vec<&TypedFact> = Vec::new();
        let mut k: usize = 0;
        while k < inputs.len()
            invariant
                k <= inputs.len(),
                *self == *old(self),
                old(self).wf(),
                input_facts_vec@.len() == k,
                forall|j: int| 0 <= j < k ==> self@.is_live(#[trigger] inputs@[j]),
                forall|j: int|
                    0 <= j < k ==> (#[trigger] input_facts_vec@[j])@ == self@.outlet(
                        inputs@[j],
                    ).fact,
            decreases inputs.len() - k,
        {
            match self.outlet_fact(inputs[k]) {
                Ok(f) => {
                    input_facts_vec.push(f);
                },
                Err(e) => {
                    return Err(e);
                },
            }
            k += 1;
        }
        assert(ref_fact_views(input_facts_vec@) =~= input_facts(self@, inputs@));
        let output_facts = match op.output_facts(input_facts_vec.as_slice()) {
            Ok(facts) => facts,
            Err(_) => {
                return Err(TractError::FactInferenceError);
            },
        };
        let ghost facts = fact_views(output_facts@);
        let n_outputs = output_facts.len();
        let id = match self.add_node(name, OperatorKind::UserDefined(op), output_facts) {
            Ok(id) => id,
            Err(e) => {
                return Err(e);
            },
        };
        proof {
            assert(self.nodes.len() == old(self).nodes.len() + 1);
            assert forall|j: int| 0 <= j < inputs@.len() implies self@.has_outlet(
                #[trigger] inputs@[j],
            ) by {
                assert(old(self)@.is_live(inputs@[j]));
            }
            assert(self@.nodes[id as int].inputs.len() == 0);
        }
        self.wire_inputs(id, inputs);
        proof {
            lemma_wire_spec::<U>(old(self)@, name@, op@, inputs@);
        }
        let mut outlets: Vec<OutletId> = Vec::new();
        let mut s: usize = 0;
        while s < n_outputs
            invariant
                s <= n_outputs,
                outlets@.len() == s,
                forall|j: int| 0 <= j < s ==> outlets@[j] == (OutletId { node: id, slot: j as usize }),
            decreases n_outputs - s,
        {
            outlets.push(OutletId::new(id, s));
            s += 1;
        }
        assert(outlets@ =~= outlets_of(id, n_outputs as nat));
        Ok(outlets)
    }

    /// Inserts a node without inputs whose single output always carries
    /// the tensor `v`, and returns that output.
    pub fn add_const<T: IntoArcTensor>(&mut self, name: &str, v: T) -> (r: TractResult<OutletId>)
        requires
            old(self).wf(),
        ensures
            r == Ok::<OutletId, TractError>(OutletId { node: old(self).nodes.len(), slot: 0 }),
            final(self)@ == old(self)@.add_node(
                name@,
                OperatorKind::UserDefined(U::spec_konst(v.tensor_view())),
                seq![FactView::of_tensor(v.tensor_view())],
            ),
            final(self).wf(),
            fact_sound::<U>(old(self)@) ==> fact_sound::<U>(final(self)@),
    {
        let v = v.into_arc_tensor();
        let fact = TypedFact::from_tensor(v.clone());
        let op = U::konst(v);
        let mut facts: Vec<TypedFact> = Vec::new();
        facts.push(fact);
        assert(fact_views(facts@) =~= seq![FactView::of_tensor(v@)]);
        let id = match self.add_node(name, OperatorKind::UserDefined(op), facts) {
            Ok(id) => id,
            Err(e) => {
                return Err(e);
            },
        };
        proof {
            let g = old(self)@;
            let after = self@;
            U::lemma_konst_facts(v@);
            if fact_sound::<U>(g) {
                assert forall|i: int| 0 <= i < after.nodes.len() implies #[trigger] node_is_sound::<
                    U,
                >(after, i) by {
                    if i < g.nodes.len() {
                        assert(node_is_sound::<U>(g, i));
                        assert(after.nodes[i] == g.nodes[i]);
                        let ins = g.nodes[i].inputs;
                        assert(input_facts(after, ins) =~= input_facts(g, ins)) by {
                            assert forall|k: int| 0 <= k < ins.len() implies after.outlet(
                                ins[k],
                            ).fact == g.outlet(ins[k]).fact by {
                                assert(g.input_ok(i, k));
                            }
                        }
                    } else {
                        assert(input_facts(after, after.nodes[i].inputs) =~= Seq::<
                            FactView,
                        >::empty());
                        assert(outlet_facts(after.nodes[i].outputs) =~= seq![
                            FactView::of_tensor(v@),
                        ]);
                    }
                }
            }
        }
        Ok(OutletId::new(id, 0))
    }
}

} // verus!
