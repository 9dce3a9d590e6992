use tract_core::core_op::{CoreOp, TypedModel};
use tract_core::datum::DatumType;
use tract_core::error::TractError;
use tract_core::graph::{InletId, OperatorKind, OutletId};
use tract_core::op::{Op, TypedOp};
use tract_core::ops::{zero_panel, LirMatMulUnary, MatMatMulPack, MatMul, ProtoFusedSpec};
use tract_core::optim::{Capability, OpOptim, Optimizer};
use tract_core::tensor::{IntoArcTensor, Tensor};
use tract_core::translate::IntoTranslator;

/// Source `input` of shape [1, 1], constant `a` of shape [2, 1], and their
/// product `conv` as the one declared output.
fn monterey() -> TypedModel {
    let mut model = TypedModel::default();
    let wire = model.add_source("input", DatumType::F32.fact(&[1usize, 1])).unwrap();
    let a = model
        .add_const("a", Tensor::zero(DatumType::F32, &[2, 1]).unwrap().into_arc_tensor())
        .unwrap();
    let op = MatMul {};
    let wire = model.wire_node("conv", CoreOp::MatMul(op), &[a, wire]).unwrap()[0];
    model.set_output_outlets(&[wire]).unwrap();
    model
}

fn output_is_f32_1x2(model: &TypedModel) -> bool {
    let outputs = model.output_outlets().unwrap();
    let fact = model.outlet_fact(outputs[0]).unwrap();
    outputs.len() == 1 && fact.same_as(&DatumType::F32.fact(&[1, 2]))
}

#[test]
fn kali() {
    let mut patch = TypedModel::default();
    let mut wire = patch.add_source("x", DatumType::F32.fact(&[1, 1])).unwrap();

    let pa = Tensor::zero_aligned(DatumType::F32, &[64], 32).unwrap();
    let (panel, fused) = zero_panel();
    assert!(panel.same_as(&pa));
    assert_eq!(fused.len(), 1);
    assert!(matches!(fused[0], ProtoFusedSpec::Store));

    wire = patch.wire_node("pack", CoreOp::MatMatMulPack(MatMatMulPack {}), &[wire]).unwrap()[0];

    let op = LirMatMulUnary::single(DatumType::F32.fact(&[1, 2]));
    assert_eq!(op.grid_shape(), vec![1, 1]);
    wire = patch.wire_node("matmatmul", CoreOp::LirMatMulUnary(op), &[wire]).unwrap()[0];
    assert_eq!(wire, OutletId::new(2, 0));
    std::mem::drop(patch);
}

#[test]
fn crasher_monterey_matmul() {
    let mut model = TypedModel::default();
    let wire = model.add_source("input", DatumType::F32.fact(&[1usize, 1])).unwrap();
    let a = model
        .add_const("a", Tensor::zero(DatumType::F32, &[2, 1]).unwrap().into_arc_tensor())
        .unwrap();
    let op = MatMul {};
    let wire = model.wire_node("conv", CoreOp::MatMul(op), &[a, wire]).unwrap()[0];
    model.set_output_outlets(&[wire]).unwrap();
    let decluttered = model.into_decluttered().unwrap();
    let _optimized = decluttered.into_optimized().unwrap();
}

#[test]
fn product_of_constant_and_source_has_shape_1x2() {
    let model = monterey();
    assert!(output_is_f32_1x2(&model));
    assert_eq!(model.nodes().len(), 3);
}

#[test]
fn declutter_specializes_the_product() {
    let decluttered = monterey().into_decluttered().unwrap();
    assert_eq!(decluttered.nodes().len(), 2);
    assert_eq!(decluttered.node(0).name, "input");
    assert!(matches!(decluttered.node(0).op, OperatorKind::Source));
    assert_eq!(decluttered.node(1).name, "conv");
    match &decluttered.node(1).op {
        OperatorKind::UserDefined(CoreOp::MatMulUnary(m)) => {
            assert!(m.a.same_as(&Tensor::zero(DatumType::F32, &[2, 1]).unwrap()))
        }
        _ => panic!("a product with a known matrix was expected"),
    }
    assert_eq!(decluttered.node(1).inputs, vec![OutletId::new(0, 0)]);
    assert_eq!(decluttered.node(0).outputs[0].successors, vec![InletId { node: 1, slot: 0 }]);
    assert_eq!(decluttered.input_outlets().unwrap(), &[OutletId::new(0, 0)][..]);
    assert_eq!(decluttered.output_outlets().unwrap(), &[OutletId::new(1, 0)][..]);
    assert!(output_is_f32_1x2(&decluttered));
}

#[test]
fn codegen_lowers_the_specialized_product() {
    let optimized = monterey().into_optimized().unwrap();
    assert_eq!(optimized.nodes().len(), 3);
    assert_eq!(optimized.node(0).name, "input");
    assert_eq!(optimized.node(1).name, "conv.pack");
    assert_eq!(optimized.node(2).name, "conv.matmatmul");
    assert!(matches!(
        optimized.node(1).op,
        OperatorKind::UserDefined(CoreOp::MatMatMulPack(_))
    ));
    match &optimized.node(2).op {
        OperatorKind::UserDefined(CoreOp::LirMatMulUnary(l)) => {
            assert!(l.c_fact.same_as(&DatumType::F32.fact(&[1, 2])));
            assert_eq!(l.grid_shape(), vec![1, 1]);
        }
        _ => panic!("a lowered product was expected"),
    }
    assert_eq!(optimized.node(1).inputs, vec![OutletId::new(0, 0)]);
    assert_eq!(optimized.node(2).inputs, vec![OutletId::new(1, 0)]);
    assert!(optimized
        .outlet_fact(OutletId::new(1, 0))
        .unwrap()
        .same_as(&DatumType::F32.fact(&[1])));
    assert_eq!(optimized.input_outlets().unwrap(), &[OutletId::new(0, 0)][..]);
    assert_eq!(optimized.output_outlets().unwrap(), &[OutletId::new(2, 0)][..]);
    assert!(output_is_f32_1x2(&optimized));
    assert_eq!(optimized.eval_order().unwrap(), vec![0, 1, 2]);
}

#[test]
fn optimizing_twice_applies_no_patch() {
    let mut model = monterey();
    let declutter = Optimizer::declutter();
    let codegen = Optimizer::codegen();

    let mut session = declutter.session();
    session.optimize(&mut model).unwrap();
    assert_eq!(session.applied_patches(), 1);
    let mut session = codegen.session();
    session.optimize(&mut model).unwrap();
    assert_eq!(session.applied_patches(), 1);

    let mut session = declutter.session();
    session.optimize(&mut model).unwrap();
    assert_eq!(session.applied_patches(), 0);
    let mut session = codegen.session();
    session.optimize(&mut model).unwrap();
    assert_eq!(session.applied_patches(), 0);
    assert_eq!(model.nodes().len(), 3);

    let again = model.into_optimized().unwrap();
    assert_eq!(again.nodes().len(), 3);
    assert_eq!(again.node(2).name, "conv.matmatmul");
    assert!(output_is_f32_1x2(&again));
}

#[test]
fn product_of_two_sources_is_left_alone() {
    let mut model = TypedModel::default();
    let x = model.add_source("x", DatumType::F32.fact(&[2, 1])).unwrap();
    let y = model.add_source("y", DatumType::F32.fact(&[1, 3])).unwrap();
    let mm = model.wire_node("mm", CoreOp::MatMul(MatMul {}), &[x, y]).unwrap()[0];
    model.set_output_outlets(&[mm]).unwrap();
    let optimizer = Optimizer::codegen();
    let mut session = optimizer.session();
    session.optimize(&mut model).unwrap();
    assert_eq!(session.applied_patches(), 0);
    assert_eq!(model.nodes().len(), 3);
    assert!(matches!(model.node(2).op, OperatorKind::UserDefined(CoreOp::MatMul(_))));
    assert!(model
        .outlet_fact(model.output_outlets().unwrap()[0])
        .unwrap()
        .same_as(&DatumType::F32.fact(&[3, 2])));
}

#[test]
fn optimization_aborts_on_a_cycle() {
    let mut model = TypedModel::default();
    let b = model
        .add_node("b", OperatorKind::Placeholder, vec![DatumType::F32.fact(&[1])])
        .unwrap();
    model.add_edge(OutletId::new(b, 0), InletId { node: b, slot: 0 }).unwrap();
    model.set_output_outlets(&[OutletId::new(b, 0)]).unwrap();
    assert_eq!(Optimizer::declutter().optimize(&mut model), Err(TractError::CyclicGraphError));
    assert_eq!(model.compact(), Err(TractError::CyclicGraphError));
    assert_eq!(model.nodes().len(), 1);
    assert_eq!(model.into_optimized().err(), Some(TractError::CyclicGraphError));
}

#[test]
fn declutter_proposes_one_replacement_for_the_product() {
    let model = monterey();
    let node = model.node(2);
    let patch = match &node.op {
        OperatorKind::UserDefined(op) => op.declutter(&model, node).unwrap().unwrap(),
        _ => panic!("an operator was expected"),
    };
    assert_eq!(patch.obliterate, vec![2]);
    assert_eq!(patch.shunt_outlet_by.entry(0), (OutletId::new(2, 0), OutletId::new(1, 0)));
    assert_eq!(patch.incoming.entry(0), (OutletId::new(0, 0), OutletId::new(0, 0)));
    assert_eq!(patch.model.node(0).name, "incoming-0/0");
    assert_eq!(patch.model.node(1).name, "conv");
    match &node.op {
        OperatorKind::UserDefined(op) => assert!(op.codegen(&model, node).unwrap().is_none()),
        _ => panic!("an operator was expected"),
    }
    match &model.node(1).op {
        OperatorKind::UserDefined(op) => {
            assert!(op.declutter(&model, model.node(1)).unwrap().is_none());
            assert!(op.codegen(&model, model.node(1)).unwrap().is_none());
        }
        _ => panic!("an operator was expected"),
    }
}

#[test]
fn pass_resumes_where_it_proposed() {
    let model = monterey();
    let mut pass = OpOptim("declutter", Capability::Declutter, 0);
    assert_eq!(model.eval_order().unwrap(), vec![1, 0, 2]);
    let patch = pass.next(&model).unwrap();
    assert!(patch.is_some());
    assert_eq!(pass.2, 2);
    assert_eq!(pass.0, "declutter");
    let mut behind = OpOptim("declutter", Capability::Declutter, 3);
    assert!(behind.next(&model).unwrap().is_none());
    assert_eq!(behind.2, 3);
    behind.reset().unwrap();
    assert_eq!(behind.2, 0);
    assert!(behind.next(&model).unwrap().is_some());
    let mut codegen = OpOptim("codegen", Capability::Codegen, 0);
    assert!(codegen.next(&model).unwrap().is_none());
    assert_eq!(codegen.2, 0);
}

#[test]
fn session_counts_the_patches_it_applies() {
    let mut model = monterey();
    let optimizer = Optimizer::declutter();
    let mut session = optimizer.session();
    assert_eq!(session.applied_patches(), 0);
    let mut pass = OpOptim("declutter", Capability::Declutter, 0);
    session.run_one_pass_inner(&mut pass, &mut model).unwrap();
    assert_eq!(session.applied_patches(), 1);
    assert_eq!(model.nodes().len(), 4);
    assert_eq!(model.output_outlets().unwrap(), &[OutletId::new(3, 0)][..]);
    session.run_one_pass_outer(&mut pass, &mut model).unwrap();
    assert_eq!(session.applied_patches(), 1);
    assert_eq!(model.nodes().len(), 4);
    session.run_all_passes(&mut model).unwrap();
    assert_eq!(session.applied_patches(), 1);
    assert_eq!(model.nodes().len(), 2);
}

#[test]
fn session_stops_where_the_count_would_overflow() {
    let mut model = monterey();
    let optimizer = Optimizer::declutter();
    let mut session = optimizer.session_from(usize::MAX);
    assert_eq!(session.optimize(&mut model), Err(TractError::PatchCountOverflow));
    assert_eq!(session.applied_patches(), usize::MAX);
    assert_eq!(model.nodes().len(), 4);
    let mut near = optimizer.session_from(usize::MAX - 1);
    let mut model = monterey();
    near.optimize(&mut model).unwrap();
    assert_eq!(near.applied_patches(), usize::MAX);
    assert_eq!(model.nodes().len(), 2);
}

/// Whether the facts recorded on every node are what its operator infers
/// from the facts of its inputs.
fn facts_are_sound(model: &TypedModel) -> bool {
    model.nodes().iter().all(|node| match &node.op {
        OperatorKind::UserDefined(op) => {
            let inputs: Vec<_> =
                node.inputs.iter().map(|o| &model.node(o.node).outputs[o.slot].fact).collect();
            match tract_core::op::Op::output_facts(op, &inputs) {
                Ok(facts) => {
                    facts.len() == node.outputs.len()
                        && facts.iter().zip(node.outputs.iter()).all(|(f, o)| f.same_as(&o.fact))
                }
                Err(_) => false,
            }
        }
        _ => true,
    })
}

#[test]
fn recorded_facts_are_what_the_operators_infer() {
    let model = monterey();
    assert!(facts_are_sound(&model));
    let mut patched = monterey();
    let patch = match &patched.node(2).op {
        OperatorKind::UserDefined(op) => op.declutter(&patched, patched.node(2)).unwrap().unwrap(),
        _ => panic!("an operator was expected"),
    };
    assert!(facts_are_sound(&patch.model));
    patch.apply(&mut patched).unwrap();
    assert!(facts_are_sound(&patched));
    patched.compact().unwrap();
    assert!(facts_are_sound(&patched));
    let decluttered = monterey().into_decluttered().unwrap();
    assert!(facts_are_sound(&decluttered));
    let optimized = decluttered.into_optimized().unwrap();
    assert!(facts_are_sound(&optimized));
    let mut unsound = TypedModel::default();
    let x = unsound.add_source("x", DatumType::F32.fact(&[1, 1])).unwrap();
    let n = unsound
        .add_node(
            "pack",
            OperatorKind::UserDefined(CoreOp::MatMatMulPack(MatMatMulPack {})),
            vec![DatumType::F32.fact(&[7])],
        )
        .unwrap();
    unsound.add_edge(x, InletId { node: n, slot: 0 }).unwrap();
    assert!(!facts_are_sound(&unsound));
}

#[test]
fn compaction_drops_what_is_not_needed() {
    let mut model = TypedModel::default();
    let x = model.add_source("x", DatumType::F32.fact(&[1, 1])).unwrap();
    let unused = model.add_source("unused", DatumType::F32.fact(&[5])).unwrap();
    let a = model.add_const("a", Tensor::zero(DatumType::F32, &[2, 1]).unwrap()).unwrap();
    let _dead = model.wire_node("dead", CoreOp::MatMul(MatMul {}), &[a, x]).unwrap();
    let mm = model.wire_node("mm", CoreOp::MatMul(MatMul {}), &[a, x]).unwrap()[0];
    model.set_output_outlets(&[mm]).unwrap();
    model.compact().unwrap();
    assert_eq!(model.nodes().len(), 4);
    assert_eq!(model.node(0).name, "a");
    assert_eq!(model.node(1).name, "x");
    assert_eq!(model.node(2).name, "mm");
    assert_eq!(model.node(3).name, "unused");
    for (id, node) in model.nodes().iter().enumerate() {
        assert_eq!(node.id, id);
    }
    assert_eq!(model.node(2).inputs, vec![OutletId::new(0, 0), OutletId::new(1, 0)]);
    assert_eq!(model.node(0).outputs[0].successors, vec![InletId { node: 2, slot: 0 }]);
    assert_eq!(model.node(1).outputs[0].successors, vec![InletId { node: 2, slot: 1 }]);
    assert_eq!(model.input_outlets().unwrap(), &[OutletId::new(1, 0), OutletId::new(3, 0)][..]);
    assert_eq!(model.output_outlets().unwrap(), &[OutletId::new(2, 0)][..]);
    assert!(output_is_f32_1x2(&model));
    assert_eq!(unused, OutletId::new(1, 0));
    assert!(model.outlet_fact(OutletId::new(3, 0)).unwrap().same_as(&DatumType::F32.fact(&[5])));
    model.compact().unwrap();
    assert_eq!(model.nodes().len(), 4);
    assert_eq!(model.node(0).name, "a");
}

#[test]
fn compaction_turns_declared_inputs_into_sources() {
    let mut model = monterey();
    model.set_input_outlets(&[OutletId::new(2, 0)]).unwrap();
    let (compact, mapping) = IntoTranslator.translate_model_with_mappings(&model).unwrap();
    assert_eq!(mapping, vec![None, None, Some(0)]);
    assert_eq!(compact.nodes().len(), 1);
    assert!(matches!(compact.node(0).op, OperatorKind::Source));
    assert_eq!(compact.node(0).name, "conv");
    assert_eq!(compact.node(0).inputs.len(), 0);
    assert_eq!(compact.input_outlets().unwrap(), &[OutletId::new(0, 0)][..]);
    assert_eq!(compact.output_outlets().unwrap(), &[OutletId::new(0, 0)][..]);
    assert!(output_is_f32_1x2(&compact));
    assert_eq!(model.nodes().len(), 3);
    let same = IntoTranslator.translate_model(&compact).unwrap();
    assert_eq!(same.nodes().len(), 1);
}

/// Sources `unused` and `x`, and a node `two` with two outputs that reads
/// `x`.
fn two_outputs() -> TypedModel {
    let mut model = TypedModel::default();
    model.add_source("unused", DatumType::F32.fact(&[1, 1])).unwrap();
    let x = model.add_source("x", DatumType::F32.fact(&[1, 1])).unwrap();
    let facts = vec![DatumType::F32.fact(&[1, 1]), DatumType::F32.fact(&[2, 2])];
    let two = model
        .add_node("two", OperatorKind::UserDefined(CoreOp::MatMatMulPack(MatMatMulPack {})), facts)
        .unwrap();
    model.add_edge(x, InletId { node: two, slot: 0 }).unwrap();
    model
}

#[test]
fn compaction_keeps_a_node_that_holds_an_input_on_one_output_only() {
    let mut model = two_outputs();
    model.set_input_outlets(&[OutletId::new(1, 0), OutletId::new(2, 0)]).unwrap();
    model.set_output_outlets(&[OutletId::new(1, 0), OutletId::new(2, 1)]).unwrap();
    let (compact, mapping) = IntoTranslator.translate_model_with_mappings(&model).unwrap();
    assert_eq!(mapping, vec![None, Some(0), Some(1)]);
    assert_eq!(compact.nodes().len(), 2);
    assert!(matches!(compact.node(0).op, OperatorKind::Source));
    assert_eq!(compact.node(0).name, "x");
    assert!(matches!(
        compact.node(1).op,
        OperatorKind::UserDefined(CoreOp::MatMatMulPack(_))
    ));
    assert_eq!(compact.node(1).name, "two");
    assert_eq!(compact.node(1).inputs, vec![OutletId::new(0, 0)]);
    assert_eq!(compact.node(1).outputs.len(), 2);
    assert!(compact.node(1).outputs[1].fact.same_as(&DatumType::F32.fact(&[2, 2])));
    assert_eq!(compact.node(0).outputs[0].successors, vec![InletId { node: 1, slot: 0 }]);
    assert_eq!(
        compact.input_outlets().unwrap(),
        &[OutletId::new(0, 0), OutletId::new(1, 0)][..]
    );
    assert_eq!(
        compact.output_outlets().unwrap(),
        &[OutletId::new(0, 0), OutletId::new(1, 1)][..]
    );
}

#[test]
fn compaction_turns_a_node_into_a_source_where_all_its_outputs_are_inputs() {
    let mut model = two_outputs();
    model.set_input_outlets(&[OutletId::new(2, 1), OutletId::new(2, 0)]).unwrap();
    model.set_output_outlets(&[OutletId::new(2, 1)]).unwrap();
    model.compact().unwrap();
    assert_eq!(model.nodes().len(), 1);
    assert!(matches!(model.node(0).op, OperatorKind::Source));
    assert_eq!(model.node(0).name, "two");
    assert_eq!(model.node(0).inputs.len(), 0);
    assert_eq!(model.node(0).outputs.len(), 2);
    assert_eq!(model.input_outlets().unwrap(), &[OutletId::new(0, 1), OutletId::new(0, 0)][..]);
    assert_eq!(model.output_outlets().unwrap(), &[OutletId::new(0, 1)][..]);
}

#[test]
fn compaction_fails_where_a_producer_has_no_copy() {
    let mut model = two_outputs();
    model.set_input_outlets(&[OutletId::new(2, 0)]).unwrap();
    model.set_output_outlets(&[OutletId::new(2, 1)]).unwrap();
    assert_eq!(
        IntoTranslator.translate_model(&model).err(),
        Some(TractError::OutletNotFound)
    );
    assert_eq!(model.compact(), Err(TractError::OutletNotFound));
    assert_eq!(model.nodes().len(), 3);
    assert_eq!(model.node(2).inputs, vec![OutletId::new(1, 0)]);
    assert_eq!(model.input_outlets().unwrap(), &[OutletId::new(2, 0)][..]);
    let mut optimizer_input = model;
    assert_eq!(optimizer_input.declutter(), Err(TractError::OutletNotFound));
}

#[test]
fn node_is_copied_with_its_inputs_moved() {
    let source = monterey();
    let mut target = TypedModel::default();
    target.add_source("p", DatumType::F32.fact(&[2, 1])).unwrap();
    target.add_source("q", DatumType::F32.fact(&[1, 1])).unwrap();
    let mapping = vec![Some(1), Some(0), None];
    let outlets =
        IntoTranslator.translate_node(&source, source.node(2), &mut target, &mapping).unwrap();
    assert_eq!(outlets, vec![OutletId::new(2, 0)]);
    assert_eq!(target.nodes().len(), 3);
    assert_eq!(target.node(2).name, "conv");
    assert!(matches!(target.node(2).op, OperatorKind::UserDefined(CoreOp::MatMul(_))));
    assert_eq!(target.node(2).inputs, vec![OutletId::new(0, 0), OutletId::new(1, 0)]);
    assert!(target.node(2).outputs[0].fact.same_as(&DatumType::F32.fact(&[1, 2])));
    assert_eq!(target.node(0).outputs[0].successors, vec![InletId { node: 2, slot: 0 }]);
    assert_eq!(target.node(1).outputs[0].successors, vec![InletId { node: 2, slot: 1 }]);
    let nothing: Vec<Option<usize>> = Vec::new();
    let outlets =
        IntoTranslator.translate_node(&source, source.node(0), &mut target, &nothing).unwrap();
    assert_eq!(outlets, vec![OutletId::new(3, 0)]);
    assert!(matches!(target.node(3).op, OperatorKind::Source));
    assert_eq!(target.node(3).name, "input");
    assert_eq!(target.node(3).inputs.len(), 0);
    assert_eq!(target.input_outlets().unwrap().len(), 2);
}

#[test]
fn placeholder_stays_where_a_node_reads_it() {
    let mut model = TypedModel::default();
    let x = model.add_source("x", DatumType::F32.fact(&[1usize, 1])).unwrap();
    let a = model
        .add_const("a", Tensor::zero(DatumType::F32, &[2, 1]).unwrap().into_arc_tensor())
        .unwrap();
    let mm = model.wire_node("mm", CoreOp::MatMul(MatMul {}), &[a, x]).unwrap()[0];
    let pack = model.wire_node("pack", CoreOp::MatMatMulPack(MatMatMulPack {}), &[mm]).unwrap()[0];
    model.set_output_outlets(&[pack]).unwrap();
    let model = model.into_decluttered().unwrap();
    let order = model.eval_order().unwrap();
    assert_eq!(order.len() , model.nodes().len());
    let placeholders =
        model.nodes().iter().filter(|n| matches!(n.op, OperatorKind::Placeholder)).count();
    assert_eq!(placeholders, 1);
    let last = model.nodes().len() - 1;
    assert_eq!(model.node(last).name, "pack");
    let read = model.node(last).inputs[0];
    assert!(matches!(model.node(read.node).op, OperatorKind::Placeholder));
    assert_eq!(model.node(read.node).name, "mm");
}

#[test]
fn optimized_model_holds_only_what_is_needed() {
    let model = monterey().into_optimized().unwrap();
    let order = model.eval_order().unwrap();
    let inputs = model.input_outlets().unwrap();
    for node in model.nodes() {
        assert!(order.contains(&node.id) || inputs.iter().any(|i| i.node == node.id));
    }
    let again = model.clone().into_optimized().unwrap();
    assert_eq!(again.nodes().len(), model.nodes().len());
    for (a, b) in again.nodes().iter().zip(model.nodes().iter()) {
        assert_eq!(a.name, b.name);
        assert_eq!(a.inputs, b.inputs);
    }
}

fn same_graph(a: &TypedModel, b: &TypedModel) -> bool {
    a.nodes().len() == b.nodes().len()
        && a.input_outlets().unwrap() == b.input_outlets().unwrap()
        && a.output_outlets().unwrap() == b.output_outlets().unwrap()
        && a.nodes().iter().zip(b.nodes().iter()).all(|(x, y)| {
            let same_op = match (&x.op, &y.op) {
                (OperatorKind::Source, OperatorKind::Source) => true,
                (OperatorKind::Placeholder, OperatorKind::Placeholder) => true,
                (OperatorKind::UserDefined(p), OperatorKind::UserDefined(q)) => {
                    p.name() == q.name()
                }
                _ => false,
            };
            same_op
                && x.id == y.id
                && x.name == y.name
                && x.inputs == y.inputs
                && x.outputs.len() == y.outputs.len()
                && x.outputs.iter().zip(y.outputs.iter()).all(|(o, p)| {
                    o.fact.same_as(&p.fact) && o.successors == p.successors
                })
        })
}

#[test]
fn compacting_again_changes_nothing() {
    let mut model = TypedModel::default();
    let x = model.add_source("x", DatumType::F32.fact(&[1usize, 1])).unwrap();
    model.add_source("unused", DatumType::F32.fact(&[4usize])).unwrap();
    let a = model
        .add_const("a", Tensor::zero(DatumType::F32, &[2, 1]).unwrap().into_arc_tensor())
        .unwrap();
    model.add_const("idle", Tensor::zero(DatumType::F32, &[3]).unwrap().into_arc_tensor()).unwrap();
    let mm = model.wire_node("mm", CoreOp::MatMul(MatMul {}), &[a, x]).unwrap()[0];
    let pack = model.wire_node("pack", CoreOp::MatMatMulPack(MatMatMulPack {}), &[mm]).unwrap()[0];
    model.set_output_outlets(&[pack, mm]).unwrap();
    model.compact().unwrap();
    assert_eq!(model.nodes().len(), 5);
    let once = model.clone();
    model.compact().unwrap();
    assert!(same_graph(&model, &once));
}

#[test]
fn optimizing_again_gives_the_same_model() {
    let first = monterey().into_optimized().unwrap();
    let second = first.clone().into_optimized().unwrap();
    assert!(same_graph(&second, &first));
    let third = second.clone().into_decluttered().unwrap();
    assert!(same_graph(&third, &first));
}
