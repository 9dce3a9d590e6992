use tract_core::core_op::{CoreOp, TypedModel};
use tract_core::datum::DatumType;
use tract_core::error::TractError;
use tract_core::fact::{ShapeFact, TDim, TypedFact};
use tract_core::graph::{InletId, OperatorKind, OutletId};
use tract_core::op::Op;
use tract_core::ops::{
    compute_shape, multi_broadcast, output_type, Const, DepthWise, LirMatMulUnary, MatMatMulPack,
    MatMul, MatMulUnary, Range,
};
use tract_core::tensor::{IntoArcTensor, Tensor};

fn f32_fact(shape: &[usize]) -> TypedFact {
    DatumType::F32.fact(shape)
}

#[test]
fn empty_graph_has_nothing() {
    let model = TypedModel::default();
    assert_eq!(model.nodes().len(), 0);
    assert_eq!(model.input_outlets().unwrap().len(), 0);
    assert_eq!(model.output_outlets().unwrap().len(), 0);
    assert_eq!(model.eval_order().unwrap(), Vec::<usize>::new());
}

#[test]
fn add_source_registers_a_graph_input() {
    let mut model = TypedModel::default();
    let a = model.add_source("a", f32_fact(&[1, 1])).unwrap();
    let b = model.add_source("a", f32_fact(&[2])).unwrap();
    assert_eq!(a, OutletId::new(0, 0));
    assert_eq!(b, OutletId::new(1, 0));
    assert_eq!(model.input_outlets().unwrap(), &[a, b][..]);
    assert_eq!(model.node(0).name, "a");
    assert_eq!(model.node(1).name, "a");
    assert_eq!(model.node(1).id, 1);
    assert!(matches!(model.node(0).op, OperatorKind::Source));
    assert_eq!(model.node(0).inputs.len(), 0);
    assert_eq!(model.node(0).outputs.len(), 1);
    assert!(model.outlet_fact(b).unwrap().same_as(&f32_fact(&[2])));
}

#[test]
fn add_const_wraps_the_tensor() {
    let mut model = TypedModel::default();
    let t = Tensor::from_raw(DatumType::U8, &[2, 1], vec![3, 4]).unwrap();
    let a = model.add_const("a", t).unwrap();
    assert_eq!(a, OutletId::new(0, 0));
    assert_eq!(model.input_outlets().unwrap().len(), 0);
    let fact = model.outlet_fact(a).unwrap();
    assert_eq!(fact.datum_type(), DatumType::U8);
    assert_eq!(fact.shape().as_concrete(), Some(&[2usize, 1][..]));
    assert_eq!(fact.konst().unwrap().as_bytes(), &[3u8, 4][..]);
    match &model.node(0).op {
        OperatorKind::UserDefined(CoreOp::Const(c)) => {
            assert_eq!(c.0.as_bytes(), &[3u8, 4][..])
        }
        _ => panic!("a constant was expected"),
    }
}

#[test]
fn add_node_declares_facts_without_inputs() {
    let mut model = TypedModel::default();
    let id = model
        .add_node(
            "n",
            OperatorKind::UserDefined(CoreOp::MatMul(MatMul {})),
            vec![f32_fact(&[1]), f32_fact(&[2])],
        )
        .unwrap();
    assert_eq!(id, 0);
    assert_eq!(model.node(0).outputs.len(), 2);
    assert_eq!(model.node(0).inputs.len(), 0);
    assert_eq!(model.node(0).outputs[1].successors.len(), 0);
    assert!(model.outlet_fact(OutletId::new(0, 1)).unwrap().same_as(&f32_fact(&[2])));
}

#[test]
fn add_edge_records_both_ends() {
    let mut model = TypedModel::default();
    let a = model.add_source("a", f32_fact(&[1])).unwrap();
    let n = model.add_node("n", OperatorKind::Placeholder, vec![f32_fact(&[1])]).unwrap();
    model.add_edge(a, InletId { node: n, slot: 0 }).unwrap();
    model.add_edge(a, InletId { node: n, slot: 1 }).unwrap();
    assert_eq!(model.node(n).inputs, vec![a, a]);
    assert_eq!(
        model.node(0).outputs[0].successors,
        vec![InletId { node: n, slot: 0 }, InletId { node: n, slot: 1 }]
    );
}

#[test]
fn add_edge_rejects_slots_out_of_order() {
    let mut model = TypedModel::default();
    let a = model.add_source("a", f32_fact(&[1])).unwrap();
    let n = model.add_node("n", OperatorKind::Placeholder, vec![f32_fact(&[1])]).unwrap();
    assert_eq!(
        model.add_edge(a, InletId { node: n, slot: 1 }),
        Err(TractError::NonSequentialInlet)
    );
    model.add_edge(a, InletId { node: n, slot: 0 }).unwrap();
    assert_eq!(
        model.add_edge(a, InletId { node: n, slot: 0 }),
        Err(TractError::NonSequentialInlet)
    );
    assert_eq!(
        model.add_edge(a, InletId { node: 7, slot: 0 }),
        Err(TractError::NonSequentialInlet)
    );
    assert_eq!(model.node(n).inputs, vec![a]);
    assert_eq!(model.node(0).outputs[0].successors.len(), 1);
}

#[test]
fn add_edge_rejects_a_missing_outlet() {
    let mut model = TypedModel::default();
    let _ = model.add_source("a", f32_fact(&[1])).unwrap();
    let n = model.add_node("n", OperatorKind::Placeholder, vec![f32_fact(&[1])]).unwrap();
    assert_eq!(
        model.add_edge(OutletId::new(0, 1), InletId { node: n, slot: 0 }),
        Err(TractError::OutletNotFound)
    );
    assert_eq!(
        model.add_edge(OutletId::new(5, 0), InletId { node: n, slot: 0 }),
        Err(TractError::OutletNotFound)
    );
    assert_eq!(model.node(n).inputs.len(), 0);
}

#[test]
fn declared_outputs_must_exist() {
    let mut model = TypedModel::default();
    let a = model.add_source("a", f32_fact(&[1])).unwrap();
    assert_eq!(
        model.set_output_outlets(&[a, OutletId::new(0, 1)]),
        Err(TractError::OutletNotFound)
    );
    assert_eq!(model.output_outlets().unwrap().len(), 0);
    model.set_output_outlets(&[a, a]).unwrap();
    assert_eq!(model.output_outlets().unwrap(), &[a, a][..]);
    assert_eq!(model.set_input_outlets(&[OutletId::new(3, 0)]), Err(TractError::OutletNotFound));
    assert_eq!(model.input_outlets().unwrap(), &[a][..]);
    model.set_input_outlets(&[]).unwrap();
    assert_eq!(model.input_outlets().unwrap().len(), 0);
}

#[test]
fn outlet_fact_fails_on_a_missing_outlet() {
    let mut model = TypedModel::default();
    let a = model.add_source("a", f32_fact(&[1])).unwrap();
    assert!(model.outlet_fact(a).is_ok());
    assert_eq!(model.outlet_fact(OutletId::new(0, 1)).err(), Some(TractError::OutletNotFound));
    assert_eq!(model.outlet_fact(OutletId::new(1, 0)).err(), Some(TractError::OutletNotFound));
}

#[test]
fn outlet_fact_fails_on_an_obliterated_node() {
    let mut model = TypedModel::default();
    let a = model.add_source("a", f32_fact(&[1])).unwrap();
    model.obliterate(0);
    assert!(matches!(model.node(0).op, OperatorKind::Placeholder));
    assert_eq!(model.outlet_fact(a).err(), Some(TractError::OutletNotFound));
    assert_eq!(model.node(0).outputs.len(), 1);
}

#[test]
fn wire_node_infers_the_facts_and_wires_the_inputs() {
    let mut model = TypedModel::default();
    let x = model.add_source("x", f32_fact(&[1, 1])).unwrap();
    let a = model.add_const("a", Tensor::zero(DatumType::F32, &[2, 1]).unwrap()).unwrap();
    let out = model.wire_node("mm", CoreOp::MatMul(MatMul {}), &[a, x]).unwrap();
    assert_eq!(out, vec![OutletId::new(2, 0)]);
    assert_eq!(model.node(2).inputs, vec![a, x]);
    assert_eq!(model.node(2).name, "mm");
    assert_eq!(model.node(0).outputs[0].successors, vec![InletId { node: 2, slot: 1 }]);
    assert_eq!(model.node(1).outputs[0].successors, vec![InletId { node: 2, slot: 0 }]);
    let fact = model.outlet_fact(out[0]).unwrap();
    assert_eq!(fact.datum_type(), DatumType::F32);
    assert_eq!(fact.shape().as_concrete(), Some(&[1usize, 2][..]));
    assert!(fact.konst().is_none());
}

#[test]
fn wire_node_fails_where_the_operator_rejects_its_inputs() {
    let mut model = TypedModel::default();
    let x = model.add_source("x", f32_fact(&[1, 1])).unwrap();
    let v = model.add_source("v", f32_fact(&[3])).unwrap();
    let i = model.add_source("i", DatumType::I32.fact(&[1, 1])).unwrap();
    assert_eq!(
        model.wire_node("arity", CoreOp::MatMul(MatMul {}), &[x]).err(),
        Some(TractError::FactInferenceError)
    );
    assert_eq!(
        model.wire_node("rank", CoreOp::MatMul(MatMul {}), &[x, v]).err(),
        Some(TractError::FactInferenceError)
    );
    assert_eq!(
        model.wire_node("type", CoreOp::MatMul(MatMul {}), &[x, i]).err(),
        Some(TractError::FactInferenceError)
    );
    assert_eq!(model.nodes().len(), 3);
    assert_eq!(model.node(0).outputs[0].successors.len(), 0);
}

#[test]
fn wire_node_fails_on_a_missing_input() {
    let mut model = TypedModel::default();
    let x = model.add_source("x", f32_fact(&[1, 1])).unwrap();
    assert_eq!(
        model.wire_node("mm", CoreOp::MatMul(MatMul {}), &[x, OutletId::new(4, 0)]).err(),
        Some(TractError::OutletNotFound)
    );
    assert_eq!(model.nodes().len(), 1);
}

#[test]
fn compute_shape_gives_the_transposed_product() {
    assert_eq!(compute_shape(&[2, 1], &[1, 1]), Ok((2, 1, 1, vec![1, 2])));
    assert_eq!(compute_shape(&[5, 3], &[3, 7]), Ok((5, 3, 7, vec![7, 5])));
    assert_eq!(compute_shape(&[5], &[3, 7]), Err(TractError::FactInferenceError));
    assert_eq!(compute_shape(&[5, 3], &[]), Err(TractError::FactInferenceError));
    assert_eq!(output_type(DatumType::F16), DatumType::F16);
    assert_eq!(multi_broadcast(&[vec![1, 2], vec![3]]), Some(vec![]));
}

#[test]
fn operator_facts() {
    let b = f32_fact(&[4, 6]);
    let sym = TypedFact::dt_shape(
        DatumType::F32,
        ShapeFact::from_tdims(vec![TDim::Val(4), TDim::Sym('S')]),
    );
    let a = Tensor::zero(DatumType::F32, &[3, 4]).unwrap().into_arc_tensor();
    let unary = MatMulUnary { a: a.clone() };
    let facts = unary.output_facts(&[&b]).unwrap();
    assert_eq!(facts.len(), 1);
    assert_eq!(facts[0].shape().as_concrete(), Some(&[6usize, 3][..]));
    assert_eq!(facts[0].datum_type(), DatumType::F32);
    assert_eq!(unary.output_facts(&[&sym]).err(), Some(TractError::FactInferenceError));
    assert_eq!(unary.output_facts(&[]).err(), Some(TractError::FactInferenceError));
    assert_eq!(unary.output_facts(&[&b, &b]).err(), Some(TractError::FactInferenceError));

    let pack = MatMatMulPack {};
    let facts = pack.output_facts(&[&DatumType::I8.fact(&[4, 6])]).unwrap();
    assert_eq!(facts[0].shape().as_concrete(), Some(&[1usize][..]));
    assert_eq!(facts[0].datum_type(), DatumType::I8);
    assert_eq!(pack.output_facts(&[]).err(), Some(TractError::FactInferenceError));

    let konst = Const(a.clone());
    let facts = konst.output_facts(&[]).unwrap();
    assert!(facts[0].konst().unwrap().same_as(&a));
    assert_eq!(konst.output_facts(&[&b]).err(), Some(TractError::FactInferenceError));

    let lir = LirMatMulUnary::single(f32_fact(&[1, 2]));
    let facts = lir.output_facts(&[&b]).unwrap();
    assert!(facts[0].same_as(&f32_fact(&[1, 2])));
    assert_eq!(lir.grid_shape(), vec![1, 1]);
}

#[test]
fn range_facts() {
    let scalar = DatumType::I32.scalar_fact();
    let range = Range::new(TDim::Sym('N'));
    assert_eq!(range.len(), TDim::Sym('N'));
    let facts = range.output_facts(&[&scalar, &scalar, &scalar]).unwrap();
    assert_eq!(facts.len(), 1);
    assert_eq!(facts[0].datum_type(), DatumType::I32);
    assert_eq!(facts[0].shape().dims(), &[TDim::Sym('N')][..]);
    let fixed = Range::new(TDim::Val(5)).output_facts(&[&scalar, &scalar, &scalar]).unwrap();
    assert_eq!(fixed[0].shape().as_concrete(), Some(&[5usize][..]));
    assert_eq!(
        range.output_facts(&[&scalar, &scalar]).err(),
        Some(TractError::FactInferenceError)
    );
    assert_eq!(
        range.output_facts(&[&scalar, &DatumType::I64.scalar_fact(), &scalar]).err(),
        Some(TractError::FactInferenceError)
    );
    assert_eq!(
        range.output_facts(&[&scalar, &scalar, &DatumType::I32.fact(&[1])]).err(),
        Some(TractError::FactInferenceError)
    );
}

#[test]
fn operator_names() {
    assert_eq!(CoreOp::MatMul(MatMul {}).name(), "MatMul");
    assert_eq!(CoreOp::MatMatMulPack(MatMatMulPack {}).name(), "MatMatMulPack");
    assert_eq!(CoreOp::Range(Range::new(TDim::Val(1))).name(), "Range");
    let a = Tensor::zero(DatumType::F32, &[1, 1]).unwrap().into_arc_tensor();
    assert_eq!(CoreOp::Const(Const(a.clone())).name(), "Const");
    assert_eq!(CoreOp::MatMulUnary(MatMulUnary { a }).name(), "MatMulUnary");
    assert_eq!(
        CoreOp::LirMatMulUnary(LirMatMulUnary::single(f32_fact(&[1]))).name(),
        "LirMatMulUnary"
    );
}

#[test]
fn duplicate_copies_the_operator() {
    let a = Tensor::from_raw(DatumType::U8, &[1, 2], vec![1, 2]).unwrap().into_arc_tensor();
    match CoreOp::MatMulUnary(MatMulUnary { a: a.clone() }).duplicate() {
        CoreOp::MatMulUnary(m) => assert!(m.a.same_as(&a)),
        _ => panic!("a product with a known matrix was expected"),
    }
    match CoreOp::LirMatMulUnary(LirMatMulUnary::single(f32_fact(&[3]))).duplicate() {
        CoreOp::LirMatMulUnary(l) => {
            assert!(l.c_fact.same_as(&f32_fact(&[3])));
            assert_eq!(l.grid_shape(), vec![1, 1]);
        }
        _ => panic!("a lowered product was expected"),
    }
    match CoreOp::konst(a.clone()) {
        CoreOp::Const(c) => assert!(c.0.same_as(&a)),
        _ => panic!("a constant was expected"),
    }
}

#[test]
fn range_over_constants_has_the_counted_length() {
    let konst = TypedFact::from_tensor(Tensor::zero(DatumType::I32, &[]).unwrap().into_arc_tensor());
    let scalar = DatumType::I32.scalar_fact();
    let range = Range::new(TDim::Sym('N'));
    let facts = range.facts_for(&[&konst, &konst, &konst], Some(4)).unwrap();
    assert_eq!(facts.len(), 1);
    assert!(facts[0].same_as(&DatumType::I32.fact(&[4])));
    assert_eq!(
        range.facts_for(&[&konst, &konst, &konst], None).err(),
        Some(TractError::FactInferenceError)
    );
    assert_eq!(
        range.output_facts(&[&konst, &konst, &konst]).err(),
        Some(TractError::FactInferenceError)
    );
    let open = range.facts_for(&[&konst, &scalar, &konst], Some(4)).unwrap();
    assert_eq!(open[0].shape().dims(), &[TDim::Sym('N')][..]);
    assert_eq!(
        range.facts_for(&[&konst, &konst], Some(4)).err(),
        Some(TractError::FactInferenceError)
    );
}

#[test]
fn outlet_from_a_node_and_from_a_pair() {
    assert_eq!(OutletId::from(3usize), OutletId::new(3, 0));
    assert_eq!(OutletId::from((3usize, 1usize)), OutletId::new(3, 1));
    let o: OutletId = (0usize, 2usize).into();
    assert_eq!(o, OutletId { node: 0, slot: 2 });
}

#[test]
fn copy_of_a_graph_holds_the_same_nodes() {
    let mut model = TypedModel::default();
    let x = model.add_source("x", f32_fact(&[1, 1])).unwrap();
    let a = model.add_const("a", Tensor::zero(DatumType::F32, &[2, 1]).unwrap()).unwrap();
    let mm = model.wire_node("mm", CoreOp::MatMul(MatMul {}), &[a, x]).unwrap()[0];
    model.set_output_outlets(&[mm]).unwrap();
    let copy = model.clone();
    assert_eq!(copy.nodes().len(), 3);
    assert_eq!(copy.input_outlets().unwrap(), model.input_outlets().unwrap());
    assert_eq!(copy.output_outlets().unwrap(), model.output_outlets().unwrap());
    for i in 0..3 {
        assert_eq!(copy.node(i).id, i);
        assert_eq!(copy.node(i).name, model.node(i).name);
        assert_eq!(copy.node(i).inputs, model.node(i).inputs);
        let same_op = match (&copy.node(i).op, &model.node(i).op) {
            (OperatorKind::Source, OperatorKind::Source) => true,
            (OperatorKind::UserDefined(a), OperatorKind::UserDefined(b)) => a.name() == b.name(),
            _ => false,
        };
        assert!(same_op);
        assert_eq!(copy.node(i).outputs.len(), 1);
        assert!(copy.node(i).outputs[0].fact.same_as(&model.node(i).outputs[0].fact));
        assert_eq!(copy.node(i).outputs[0].successors, model.node(i).outputs[0].successors);
    }
    let outlet = model.node(0).outputs[0].clone();
    assert_eq!(outlet.successors, vec![InletId { node: 2, slot: 1 }]);
}

fn depth_wise(input_channels: usize, output_channels: usize, bias: usize) -> DepthWise {
    DepthWise::new(
        input_channels,
        output_channels,
        vec![1, 3, 8, 8],
        Tensor::zero(DatumType::F32, &[3, 2, 2]).unwrap().into_arc_tensor(),
        Tensor::zero(DatumType::F32, &[bias]).unwrap().into_arc_tensor(),
    )
}

#[test]
fn depth_wise_convolution_has_its_output_shape() {
    let image = DatumType::F16.fact(&[1, 3, 9, 9]);
    let facts = depth_wise(3, 3, 3).output_facts(&[&image]).unwrap();
    assert_eq!(facts.len(), 1);
    assert!(facts[0].same_as(&DatumType::F16.fact(&[1, 3, 8, 8])));
    assert_eq!(
        depth_wise(3, 4, 3).output_facts(&[&image]).err(),
        Some(TractError::FactInferenceError)
    );
    assert_eq!(
        depth_wise(3, 3, 2).output_facts(&[&image]).err(),
        Some(TractError::FactInferenceError)
    );
    let op = CoreOp::DepthWise(depth_wise(3, 3, 3));
    assert_eq!(op.name(), "DepthWiseConv");
    assert!(op.output_facts(&[&image]).unwrap()[0].same_as(&DatumType::F16.fact(&[1, 3, 8, 8])));
    assert_eq!(op.output_facts(&[]).err(), Some(TractError::FactInferenceError));
    let copy = op.duplicate();
    assert!(copy.output_facts(&[&image]).unwrap()[0].same_as(&DatumType::F16.fact(&[1, 3, 8, 8])));
}
