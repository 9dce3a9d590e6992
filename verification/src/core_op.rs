//! The operator set of typed models, and its rewrites.

use crate::error::{TractError, TractResult};
use crate::fact::{FactView, TDim, TypedFact};
use crate::graph::{Graph, GraphView, Node, OperatorKind, OutletId};
use crate::label::with_suffix;
use crate::op::{
    fact_sound, facts_result, input_facts, lemma_wire_spec, outlets_of, patch_result,
    ref_fact_views, wire_spec, wired_outputs, Op, TypedOp,
};
use crate::sound::lemma_tap_sound;
use crate::ops::{
    Const, DepthWise, DepthWiseView, LirMatMulUnary, LirMatMulUnaryView, MatMatMulPack, MatMul,
    MatMulUnary, Range,
};
use crate::patch::{built_patch, replace_spec, ModelPatch, PatchView};
use crate::tensor::{Tensor, TensorView};
use std::sync::Arc;
use vstd::prelude::*;
use vstd::string::*;

verus! {

/// An operator of a typed model.
pub enum CoreOp {
    Const(Const),
    MatMul(MatMul),
    MatMulUnary(MatMulUnary),
    MatMatMulPack(MatMatMulPack),
    LirMatMulUnary(LirMatMulUnary),
    Range(Range),
    DepthWise(DepthWise),
}

pub enum CoreOpView {
    Const(TensorView),
    MatMul,
    MatMulUnary(TensorView),
    MatMatMulPack,
    LirMatMulUnary(LirMatMulUnaryView),
    Range(TDim),
    DepthWise(DepthWiseView),
}

impl View for CoreOp {
    type V = CoreOpView;

    open spec fn view(&self) -> CoreOpView {
        match *self {
            CoreOp::Const(c) => CoreOpView::Const(c.0@),
            CoreOp::MatMul(_) => CoreOpView::MatMul,
            CoreOp::MatMulUnary(m) => CoreOpView::MatMulUnary(m.a@),
            CoreOp::MatMatMulPack(_) => CoreOpView::MatMatMulPack,
            CoreOp::LirMatMulUnary(l) => CoreOpView::LirMatMulUnary(l@),
            CoreOp::Range(r) => CoreOpView::Range(r.spec_len()),
            CoreOp::DepthWise(d) => CoreOpView::DepthWise(d@),
        }
    }
}

/// A graph of the library's own operators.
pub type TypedModel = Graph<CoreOp>;

pub type TypedNode = Node<CoreOp>;

pub type TypedModelPatch = ModelPatch<CoreOp>;

/// The simplification of a product of two inputs at node `node`: where
/// the first input is known, the node is replaced by the product of that
/// matrix with the second input.
pub open spec fn matmul_declutter(model: GraphView<CoreOpView>, node: int) -> Result<
    Option<PatchView<CoreOpView>>,
    TractError,
> {
    let n = model.nodes[node];
    if n.inputs.len() >= 2 && model.is_live(n.inputs[0]) && model.is_live(n.inputs[1])
        && model.outlet(n.inputs[0]).fact.konst is Some {
        match replace_spec::<CoreOp>(
            model,
            n.id,
            n.name,
            seq![n.inputs[1]],
            CoreOpView::MatMulUnary(model.outlet(n.inputs[0]).fact.konst->0),
        ) {
            Ok(p) => Ok(Some(p)),
            Err(e) => Err(e),
        }
    } else {
        Ok(None)
    }
}

/// The lowering of a product with a known matrix at node `node`: the input
/// is packed, the packed input feeds the lowered product, which carries
/// the fact of the node's output and takes its place.
pub open spec fn unary_codegen(model: GraphView<CoreOpView>, node: int) -> Result<
    Option<PatchView<CoreOpView>>,
    TractError,
> {
    let n = model.nodes[node];
    if n.inputs.len() >= 1 && model.is_live(n.inputs[0]) && n.outputs.len() >= 1 {
        let tapped = PatchView::<CoreOpView>::empty().tap(model, n.inputs[0]);
        let tap = OutletId { node: 0, slot: 0 };
        let packed = OutletId { node: 1, slot: 0 };
        let product = OutletId { node: 2, slot: 0 };
        match wire_spec::<CoreOp>(
            tapped.model,
            n.name + ".pack"@,
            CoreOpView::MatMatMulPack,
            seq![tap],
        ) {
            Err(e) => Err(e),
            Ok(with_pack) => match wire_spec::<CoreOp>(
                with_pack,
                n.name + ".matmatmul"@,
                CoreOpView::LirMatMulUnary(LirMatMulUnaryView::single(n.outputs[0].fact)),
                seq![packed],
            ) {
                Err(e) => Err(e),
                Ok(lowered) => Ok(
                    Some(
                        PatchView { model: lowered, ..tapped }.shunt(
                            OutletId { node: n.id, slot: 0 },
                            product,
                        ).mark_obliterated(n.id),
                    ),
                ),
            },
        }
    } else {
        Ok(None)
    }
}

impl Op for CoreOp {
    open spec fn spec_name(op: CoreOpView) -> Seq<char> {
        match op {
            CoreOpView::Const(_) => "Const"@,
            CoreOpView::MatMul => "MatMul"@,
            CoreOpView::MatMulUnary(_) => "MatMulUnary"@,
            CoreOpView::MatMatMulPack => "MatMatMulPack"@,
            CoreOpView::LirMatMulUnary(_) => "LirMatMulUnary"@,
            CoreOpView::Range(_) => "Range"@,
            CoreOpView::DepthWise(_) => "DepthWiseConv"@,
        }
    }

    open spec fn spec_output_facts(op: CoreOpView, inputs: Seq<FactView>) -> Result<
        Seq<FactView>,
        TractError,
    > {
        match op {
            CoreOpView::Const(t) => Const::spec_output_facts(t, inputs),
            CoreOpView::MatMul => MatMul::spec_output_facts(inputs),
            CoreOpView::MatMulUnary(a) => MatMulUnary::spec_output_facts(a, inputs),
            CoreOpView::MatMatMulPack => MatMatMulPack::spec_output_facts(inputs),
            CoreOpView::LirMatMulUnary(l) => LirMatMulUnary::spec_output_facts(l.c_fact, inputs),
            CoreOpView::Range(len) => Range::spec_output_facts(len, inputs),
            CoreOpView::DepthWise(d) => if inputs.len() == 0 {
                Err(TractError::FactInferenceError)
            } else {
                DepthWise::spec_output_facts(d, inputs)
            },
        }
    }

    open spec fn spec_konst(t: TensorView) -> CoreOpView {
        CoreOpView::Const(t)
    }

    proof fn lemma_konst_facts(t: TensorView) {
    }

    fn name(&self) -> (r: String) {
        match self {
            CoreOp::Const(_) => String::from_str("Const"),
            CoreOp::MatMul(_) => String::from_str("MatMul"),
            CoreOp::MatMulUnary(_) => String::from_str("MatMulUnary"),
            CoreOp::MatMatMulPack(_) => String::from_str("MatMatMulPack"),
            CoreOp::LirMatMulUnary(_) => String::from_str("LirMatMulUnary"),
            CoreOp::Range(_) => String::from_str("Range"),
            CoreOp::DepthWise(_) => String::from_str("DepthWiseConv"),
        }
    }

    fn output_facts(&self, inputs: &[&TypedFact]) -> (r: TractResult<Vec<TypedFact>>) {
        match self {
            CoreOp::Const(c) => c.output_facts(inputs),
            CoreOp::MatMul(m) => m.output_facts(inputs),
            CoreOp::MatMulUnary(m) => m.output_facts(inputs),
            CoreOp::MatMatMulPack(p) => p.output_facts(inputs),
            CoreOp::LirMatMulUnary(l) => l.output_facts(inputs),
            CoreOp::Range(r) => r.output_facts(inputs),
            CoreOp::DepthWise(d) => if inputs.len() == 0 {
                Err(TractError::FactInferenceError)
            } else {
                d.output_facts(inputs)
            },
        }
    }

    fn konst(t: Arc<Tensor>) -> (r: CoreOp) {
        CoreOp::Const(Const(t))
    }

    fn duplicate(&self) -> (r: CoreOp) {
        match self {
            CoreOp::Const(c) => CoreOp::Const(Const(c.0.clone())),
            CoreOp::MatMul(_) => CoreOp::MatMul(MatMul {  }),
            CoreOp::MatMulUnary(m) => CoreOp::MatMulUnary(MatMulUnary { a: m.a.clone() }),
            CoreOp::MatMatMulPack(_) => CoreOp::MatMatMulPack(MatMatMulPack {  }),
            CoreOp::LirMatMulUnary(l) => CoreOp::LirMatMulUnary(l.clone()),
            CoreOp::Range(r) => CoreOp::Range(Range::new(r.len())),
            CoreOp::DepthWise(d) => CoreOp::DepthWise(d.clone()),
        }
    }
}

impl TypedOp for CoreOp {
    open spec fn spec_declutter(op: CoreOpView, model: GraphView<CoreOpView>, node: int) -> Result<
        Option<PatchView<CoreOpView>>,
        TractError,
    > {
        match op {
            CoreOpView::MatMul => matmul_declutter(model, node),
            _ => Ok(None),
        }
    }

    open spec fn spec_codegen(op: CoreOpView, model: GraphView<CoreOpView>, node: int) -> Result<
        Option<PatchView<CoreOpView>>,
        TractError,
    > {
        match op {
            CoreOpView::MatMulUnary(_) => unary_codegen(model, node),
            _ => Ok(None),
        }
    }

    fn declutter(&self, model: &Graph<CoreOp>, node: &Node<CoreOp>) -> (r: TractResult<
        Option<ModelPatch<CoreOp>>,
    >) {
        match self {
            CoreOp::MatMul(m) => m.declutter(model, node),
            _ => Ok(None),
        }
    }

    fn codegen(&self, model: &Graph<CoreOp>, node: &Node<CoreOp>) -> (r: TractResult<
        Option<ModelPatch<CoreOp>>,
    >) {
        match self {
            CoreOp::MatMulUnary(m) => m.codegen(model, node),
            _ => Ok(None),
        }
    }
}

impl MatMul {
    /// Where the first input of the node is a known matrix, the patch that
    /// replaces the node by the product of that matrix with the second
    /// input.
    pub fn declutter(&self, model: &TypedModel, node: &TypedNode) -> (r: TractResult<
        Option<TypedModelPatch>,
    >)
        requires
            model.wf(),
            node.id < model.nodes@.len(),
            model.nodes@[node.id as int] == *node,
        ensures
            patch_result(r) == matmul_declutter(model@, node.id as int),
            r matches Ok(Some(p)) ==> p.wf() && fact_sound::<CoreOp>(p@.model),
    {
        if node.inputs.len() < 2 {
            return Ok(None);
        }
        let konst = match model.outlet_fact(node.inputs[0]) {
            Ok(fact) => match fact.konst() {
                Some(k) => k.clone(),
                None => {
                    return Ok(None);
                },
            },
            Err(_) => {
                return Ok(None);
            },
        };
        if model.outlet_fact(node.inputs[1]).is_err() {
            return Ok(None);
        }
        let mut rest: Vec<OutletId> = Vec::new();
        rest.push(node.inputs[1]);
        assert(rest@ =~= seq![node@.inputs[1]]);
        match ModelPatch::replace_single_op(
            model,
            node,
            rest.as_slice(),
            CoreOp::MatMulUnary(MatMulUnary { a: konst }),
        ) {
            Ok(p) => Ok(Some(p)),
            Err(e) => Err(e),
        }
    }
}

impl MatMulUnary {
    /// The patch that lowers the node: its input is packed, and the lowered
    /// product of the packed input takes the place of the node's output.
    fn new_mat_mul_unary_finite(&self, model: &TypedModel, node: &TypedNode) -> (r: TractResult<
        Option<TypedModelPatch>,
    >)
        requires
            model.wf(),
            node.id < model.nodes@.len(),
            model.nodes@[node.id as int] == *node,
        ensures
            patch_result(r) == unary_codegen(model@, node.id as int),
            r matches Ok(Some(p)) ==> p.wf() && fact_sound::<CoreOp>(p@.model),
    {
        if node.inputs.len() < 1 || node.outputs.len() < 1 {
            return Ok(None);
        }
        let mut patch: TypedModelPatch = ModelPatch::new();
        let wire = match patch.tap_model(model, node.inputs[0]) {
            Ok(w) => w,
            Err(_) => {
                return Ok(None);
            },
        };
        let ghost tapped = patch@;
        proof {
            lemma_tap_sound::<CoreOp>(PatchView::<CoreOpView>::empty(), model@, node@.inputs[0]);
        }
        let mut taps: Vec<OutletId> = Vec::new();
        taps.push(wire);
        assert(taps@ =~= seq![OutletId { node: 0, slot: 0 }]);
        let pack_name = with_suffix(&node.name, ".pack");
        let packed = match patch.model.wire_node(
            pack_name.as_str(),
            CoreOp::MatMatMulPack(MatMatMulPack {  }),
            taps.as_slice(),
        ) {
            Ok(w) => w,
            Err(e) => {
                return Err(e);
            },
        };
        let ghost with_pack = patch@.model;
        proof {
            assert(wired_outputs::<CoreOp>(tapped.model, CoreOpView::MatMatMulPack, taps@) == 1);
            lemma_wire_spec::<CoreOp>(
                tapped.model,
                pack_name@,
                CoreOpView::MatMatMulPack,
                taps@,
            );
            assert(with_pack.nodes.len() == 2);
        }
        let mut wires: Vec<OutletId> = Vec::new();
        wires.push(packed[0]);
        assert(wires@ =~= seq![OutletId { node: 1, slot: 0 }]);
        let op = LirMatMulUnary::single(node.outputs[0].fact.clone());
        let ghost lowered_op = CoreOpView::LirMatMulUnary(
            LirMatMulUnaryView::single(node@.outputs[0].fact),
        );
        let product_name = with_suffix(&node.name, ".matmatmul");
        let product = match patch.model.wire_node(
            product_name.as_str(),
            CoreOp::LirMatMulUnary(op),
            wires.as_slice(),
        ) {
            Ok(w) => w,
            Err(e) => {
                return Err(e);
            },
        };
        proof {
            assert(wired_outputs::<CoreOp>(with_pack, lowered_op, wires@) == 1);
        }
        let _ = patch.shunt_outside(OutletId::new(node.id, 0), product[0]);
        let _ = patch.obliterate(node.id);
        Ok(Some(patch))
    }

    /// The lowering of the node, as a patch.
    pub fn codegen(&self, model: &TypedModel, node: &TypedNode) -> (r: TractResult<
        Option<TypedModelPatch>,
    >)
        requires
            model.wf(),
            node.id < model.nodes@.len(),
            model.nodes@[node.id as int] == *node,
        ensures
            patch_result(r) == unary_codegen(model@, node.id as int),
            r matches Ok(Some(p)) ==> p.wf() && fact_sound::<CoreOp>(p@.model),
    {
        self.new_mat_mul_unary_finite(model, node)
    }
}

} // verus!
