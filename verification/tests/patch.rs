use tract_core::core_op::{CoreOp, TypedModel, TypedModelPatch};
use tract_core::datum::DatumType;
use tract_core::error::TractError;
use tract_core::graph::{InletId, OperatorKind, OutletId};
use tract_core::ops::{MatMatMulPack, MatMul, MatMulUnary};
use tract_core::outlet_map::OutletMap;
use tract_core::patch::ModelPatch;
use tract_core::tensor::{IntoArcTensor, Tensor};

/// Source `x` of shape [1, 1], constant `a` of shape [2, 1], and their
/// product `mm` as the one declared output.
fn product_model() -> TypedModel {
    let mut model = TypedModel::default();
    let x = model.add_source("x", DatumType::F32.fact(&[1, 1])).unwrap();
    let a = model.add_const("a", Tensor::zero(DatumType::F32, &[2, 1]).unwrap()).unwrap();
    let mm = model.wire_node("mm", CoreOp::MatMul(MatMul {}), &[a, x]).unwrap()[0];
    model.set_output_outlets(&[mm]).unwrap();
    model
}

fn unary() -> CoreOp {
    CoreOp::MatMulUnary(MatMulUnary {
        a: Tensor::zero(DatumType::F32, &[2, 1]).unwrap().into_arc_tensor(),
    })
}

#[test]
fn outlet_map_keeps_insertion_order() {
    let mut map = OutletMap::new();
    assert_eq!(map.len(), 0);
    assert_eq!(map.get(OutletId::new(1, 0)), None);
    map.insert(OutletId::new(1, 0), OutletId::new(10, 0));
    map.insert(OutletId::new(2, 0), OutletId::new(20, 0));
    map.insert(OutletId::new(1, 0), OutletId::new(11, 1));
    assert_eq!(map.len(), 2);
    assert_eq!(map.entry(0), (OutletId::new(1, 0), OutletId::new(11, 1)));
    assert_eq!(map.entry(1), (OutletId::new(2, 0), OutletId::new(20, 0)));
    assert_eq!(map.get(OutletId::new(1, 0)), Some(OutletId::new(11, 1)));
    assert_eq!(map.get(OutletId::new(2, 0)), Some(OutletId::new(20, 0)));
    assert_eq!(map.get(OutletId::new(2, 1)), None);
    assert!(map.contains_key(OutletId::new(2, 0)));
    assert!(!map.contains_key(OutletId::new(0, 2)));
}

#[test]
fn empty_patch_changes_nothing() {
    let mut model = product_model();
    let patch: TypedModelPatch = ModelPatch::default();
    assert_eq!(patch.model.nodes().len(), 0);
    assert_eq!(patch.obliterate.len(), 0);
    assert!(patch.dont_apply_twice.is_none());
    patch.apply(&mut model).unwrap();
    assert_eq!(model.nodes().len(), 3);
    assert_eq!(model.output_outlets().unwrap(), &[OutletId::new(2, 0)][..]);
    assert_eq!(model.input_outlets().unwrap(), &[OutletId::new(0, 0)][..]);
}

#[test]
fn tap_stands_for_an_outlet_of_the_target() {
    let model = product_model();
    let mut patch: TypedModelPatch = ModelPatch::new();
    let tap = patch.tap_model(&model, OutletId::new(2, 0)).unwrap();
    assert_eq!(tap, OutletId::new(0, 0));
    assert_eq!(patch.model.node(0).name, "incoming-2/0");
    assert!(matches!(patch.model.node(0).op, OperatorKind::Source));
    assert_eq!(patch.model.input_outlets().unwrap(), &[tap][..]);
    assert_eq!(patch.incoming.get(tap), Some(OutletId::new(2, 0)));
    assert!(patch
        .model
        .outlet_fact(tap)
        .unwrap()
        .same_as(model.outlet_fact(OutletId::new(2, 0)).unwrap()));
    let again = patch.tap_model(&model, OutletId::new(2, 0)).unwrap();
    assert_eq!(again, OutletId::new(1, 0));
    assert_eq!(patch.incoming.len(), 2);
}

#[test]
fn tap_names_spell_out_node_and_slot() {
    let mut model = TypedModel::default();
    for _ in 0..12 {
        model.add_source("s", DatumType::F32.fact(&[1])).unwrap();
    }
    let mut facts = vec![];
    for _ in 0..101 {
        facts.push(DatumType::F32.fact(&[1]));
    }
    let wide = model.add_node("wide", OperatorKind::Source, facts).unwrap();
    assert_eq!(wide, 12);
    let mut patch: TypedModelPatch = ModelPatch::new();
    patch.tap_model(&model, OutletId::new(12, 100)).unwrap();
    patch.tap_model(&model, OutletId::new(0, 0)).unwrap();
    patch.tap_model(&model, OutletId::new(10, 0)).unwrap();
    patch.tap_model(&model, OutletId::new(12, 9)).unwrap();
    assert_eq!(patch.model.node(0).name, "incoming-12/100");
    assert_eq!(patch.model.node(1).name, "incoming-0/0");
    assert_eq!(patch.model.node(2).name, "incoming-10/0");
    assert_eq!(patch.model.node(3).name, "incoming-12/9");
}

#[test]
fn tap_fails_on_a_missing_outlet() {
    let model = product_model();
    let mut patch: TypedModelPatch = ModelPatch::new();
    assert_eq!(patch.tap_model(&model, OutletId::new(2, 1)), Err(TractError::OutletNotFound));
    assert_eq!(patch.tap_model(&model, OutletId::new(9, 0)), Err(TractError::OutletNotFound));
    assert_eq!(patch.model.nodes().len(), 0);
    assert_eq!(patch.incoming.len(), 0);
}

#[test]
fn replace_single_op_builds_the_canonical_patch() {
    let model = product_model();
    let patch =
        ModelPatch::replace_single_op(&model, model.node(2), &[OutletId::new(0, 0)], unary())
            .unwrap();
    assert_eq!(patch.model.nodes().len(), 2);
    assert_eq!(patch.model.node(0).name, "incoming-0/0");
    assert_eq!(patch.model.node(1).name, "mm");
    assert!(matches!(
        patch.model.node(1).op,
        OperatorKind::UserDefined(CoreOp::MatMulUnary(_))
    ));
    assert_eq!(patch.model.node(1).inputs, vec![OutletId::new(0, 0)]);
    assert_eq!(patch.incoming.len(), 1);
    assert_eq!(patch.incoming.entry(0), (OutletId::new(0, 0), OutletId::new(0, 0)));
    assert_eq!(patch.shunt_outlet_by.len(), 1);
    assert_eq!(patch.shunt_outlet_by.entry(0), (OutletId::new(2, 0), OutletId::new(1, 0)));
    assert_eq!(patch.obliterate, vec![2]);
    assert!(patch.dont_apply_twice.is_none());
}

#[test]
fn replace_single_op_fails_with_the_new_operator() {
    let model = product_model();
    let rejected = ModelPatch::replace_single_op(
        &model,
        model.node(2),
        &[OutletId::new(0, 0), OutletId::new(1, 0)],
        unary(),
    );
    assert_eq!(rejected.err(), Some(TractError::FactInferenceError));
    let missing =
        ModelPatch::replace_single_op(&model, model.node(2), &[OutletId::new(5, 0)], unary());
    assert_eq!(missing.err(), Some(TractError::OutletNotFound));
}

#[test]
fn applied_replacement_takes_the_place_of_the_node() {
    let mut model = product_model();
    let old_fact = model.outlet_fact(OutletId::new(2, 0)).unwrap().clone();
    let patch =
        ModelPatch::replace_single_op(&model, model.node(2), &[OutletId::new(0, 0)], unary())
            .unwrap();
    patch.apply(&mut model).unwrap();
    assert_eq!(model.nodes().len(), 4);
    assert_eq!(model.input_outlets().unwrap(), &[OutletId::new(0, 0)][..]);
    assert_eq!(model.output_outlets().unwrap(), &[OutletId::new(3, 0)][..]);
    assert!(matches!(model.node(2).op, OperatorKind::Placeholder));
    assert_eq!(model.node(2).id, 2);
    assert_eq!(model.node(2).name, "mm");
    assert_eq!(model.outlet_fact(OutletId::new(2, 0)).err(), Some(TractError::OutletNotFound));
    assert!(model.outlet_fact(OutletId::new(3, 0)).unwrap().same_as(&old_fact));
    assert_eq!(model.node(3).name, "mm");
    assert_eq!(model.node(3).id, 3);
    assert_eq!(model.node(3).inputs, vec![OutletId::new(0, 0)]);
    assert!(matches!(model.node(3).op, OperatorKind::UserDefined(CoreOp::MatMulUnary(_))));
    assert_eq!(
        model.node(0).outputs[0].successors,
        vec![InletId { node: 2, slot: 1 }, InletId { node: 3, slot: 0 }]
    );
    assert_eq!(model.node(2).inputs, vec![OutletId::new(1, 0), OutletId::new(0, 0)]);
    assert_eq!(model.eval_order().unwrap(), vec![0, 3]);
}

#[test]
fn patch_that_removes_a_missing_node_is_refused() {
    let mut model = product_model();
    let mut patch: TypedModelPatch = ModelPatch::new();
    patch.obliterate(3).unwrap();
    assert_eq!(patch.apply(&mut model), Err(TractError::PatchInvariantViolation));
    assert_eq!(model.nodes().len(), 3);
    assert!(!matches!(model.node(2).op, OperatorKind::Placeholder));
}

#[test]
fn patch_may_remove_a_node_it_adds() {
    let mut model = product_model();
    let mut patch: TypedModelPatch = ModelPatch::new();
    let tap = patch.tap_model(&model, OutletId::new(0, 0)).unwrap();
    patch.model.wire_node("pack", CoreOp::MatMatMulPack(MatMatMulPack {}), &[tap]).unwrap();
    patch.obliterate(3).unwrap();
    patch.obliterate(1).unwrap();
    patch.apply(&mut model).unwrap();
    assert_eq!(model.nodes().len(), 4);
    assert!(matches!(model.node(3).op, OperatorKind::Placeholder));
    assert!(matches!(model.node(1).op, OperatorKind::Placeholder));
    assert_eq!(model.node(3).inputs, vec![OutletId::new(0, 0)]);
    assert_eq!(model.output_outlets().unwrap(), &[OutletId::new(2, 0)][..]);
}

#[test]
fn shunt_that_changes_the_fact_is_refused() {
    let mut model = product_model();
    let mut patch: TypedModelPatch = ModelPatch::new();
    let tap = patch.tap_model(&model, OutletId::new(0, 0)).unwrap();
    let pack =
        patch.model.wire_node("pack", CoreOp::MatMatMulPack(MatMatMulPack {}), &[tap]).unwrap()[0];
    patch.shunt_outside(OutletId::new(2, 0), pack).unwrap();
    assert_eq!(patch.apply(&mut model), Err(TractError::PatchFactMismatch));
    assert_eq!(model.nodes().len(), 3);
    assert_eq!(model.output_outlets().unwrap(), &[OutletId::new(2, 0)][..]);
    assert_eq!(model.node(0).outputs[0].successors.len(), 1);
}

#[test]
fn tap_that_changes_the_fact_is_refused() {
    let tapped = product_model();
    let mut patch: TypedModelPatch = ModelPatch::new();
    let tap = patch.tap_model(&tapped, OutletId::new(0, 0)).unwrap();
    patch.model.wire_node("pack", CoreOp::MatMatMulPack(MatMatMulPack {}), &[tap]).unwrap();
    let mut other = TypedModel::default();
    other.add_source("x", DatumType::F32.fact(&[3, 1])).unwrap();
    assert_eq!(patch.apply(&mut other), Err(TractError::PatchFactMismatch));
    assert_eq!(other.nodes().len(), 1);
}

#[test]
fn patch_that_does_not_fit_is_refused_before_its_facts_are_read() {
    let tapped = product_model();
    let mut patch: TypedModelPatch = ModelPatch::new();
    let tap = patch.tap_model(&tapped, OutletId::new(0, 0)).unwrap();
    patch.model.wire_node("pack", CoreOp::MatMatMulPack(MatMatMulPack {}), &[tap]).unwrap();
    patch.obliterate(7).unwrap();
    let mut other = TypedModel::default();
    other.add_source("x", DatumType::F32.fact(&[3, 1])).unwrap();
    assert_eq!(patch.apply(&mut other), Err(TractError::PatchInvariantViolation));
    assert_eq!(other.nodes().len(), 1);
}

#[test]
fn copy_of_a_patch_applies_like_the_patch() {
    let mut model = product_model();
    let mut twin = model.clone();
    let node = model.node(2).clone();
    assert_eq!(node.name, "mm");
    assert_eq!(node.inputs, vec![OutletId::new(1, 0), OutletId::new(0, 0)]);
    let patch =
        ModelPatch::replace_single_op(&model, model.node(2), &[OutletId::new(0, 0)], unary())
            .unwrap();
    let copy = patch.clone();
    assert_eq!(copy.model.nodes().len(), patch.model.nodes().len());
    assert_eq!(copy.obliterate, vec![2]);
    patch.apply(&mut model).unwrap();
    copy.apply(&mut twin).unwrap();
    assert_eq!(model.nodes().len(), 4);
    assert_eq!(twin.nodes().len(), 4);
    assert_eq!(twin.node(3).name, model.node(3).name);
    assert_eq!(twin.node(3).inputs, model.node(3).inputs);
    assert!(matches!(twin.node(2).op, OperatorKind::Placeholder));
    assert_eq!(twin.output_outlets().unwrap(), model.output_outlets().unwrap());
    assert_eq!(twin.node(0).outputs[0].successors, model.node(0).outputs[0].successors);
}

#[test]
fn shunt_to_an_outlet_the_patch_lacks_is_refused() {
    let mut model = product_model();
    let mut patch: TypedModelPatch = ModelPatch::new();
    patch.shunt_outside(OutletId::new(2, 0), OutletId::new(0, 0)).unwrap();
    assert_eq!(patch.apply(&mut model), Err(TractError::PatchInvariantViolation));
    let mut patch: TypedModelPatch = ModelPatch::new();
    let tap = patch.tap_model(&model, OutletId::new(2, 0)).unwrap();
    patch.shunt_outside(OutletId::new(7, 0), tap).unwrap();
    assert_eq!(patch.apply(&mut model), Err(TractError::PatchInvariantViolation));
    assert_eq!(model.nodes().len(), 3);
}

#[test]
fn tap_of_a_removed_node_is_refused() {
    let mut model = product_model();
    let mut patch: TypedModelPatch = ModelPatch::new();
    let _ = patch.tap_model(&model, OutletId::new(1, 0)).unwrap();
    model.obliterate(1);
    assert_eq!(patch.apply(&mut model), Err(TractError::PatchInvariantViolation));
    assert_eq!(model.nodes().len(), 3);
}

#[test]
fn tap_alone_adds_no_node() {
    let mut model = product_model();
    let mut patch: TypedModelPatch = ModelPatch::new();
    let _ = patch.tap_model(&model, OutletId::new(1, 0)).unwrap();
    patch.apply(&mut model).unwrap();
    assert_eq!(model.nodes().len(), 3);
    assert_eq!(model.input_outlets().unwrap().len(), 1);
}

#[test]
fn source_without_a_tap_is_copied() {
    let mut model = product_model();
    let mut patch: TypedModelPatch = ModelPatch::new();
    let s = patch.model.add_source("fresh", DatumType::F32.fact(&[1, 1])).unwrap();
    patch.model.wire_node("pack", CoreOp::MatMatMulPack(MatMatMulPack {}), &[s]).unwrap();
    patch.apply(&mut model).unwrap();
    assert_eq!(model.nodes().len(), 5);
    assert!(matches!(model.node(3).op, OperatorKind::Source));
    assert_eq!(model.node(3).name, "fresh");
    assert_eq!(model.node(4).inputs, vec![OutletId::new(3, 0)]);
    assert_eq!(model.node(3).outputs[0].successors, vec![InletId { node: 4, slot: 0 }]);
    assert_eq!(model.input_outlets().unwrap(), &[OutletId::new(0, 0)][..]);
}

#[test]
fn shunts_are_followed_in_insertion_order() {
    let mut model = TypedModel::default();
    let a = model.add_source("a", DatumType::F32.fact(&[1])).unwrap();
    let b = model.add_source("b", DatumType::F32.fact(&[1])).unwrap();
    model.set_output_outlets(&[a, b, a]).unwrap();
    let mut patch: TypedModelPatch = ModelPatch::new();
    let tap_b = patch.tap_model(&model, b).unwrap();
    let fresh = patch
        .model
        .add_node("fresh", OperatorKind::Placeholder, vec![DatumType::F32.fact(&[1])])
        .unwrap();
    patch.shunt_outside(a, tap_b).unwrap();
    patch.shunt_outside(b, OutletId::new(fresh, 0)).unwrap();
    patch.apply(&mut model).unwrap();
    let new = OutletId::new(2, 0);
    assert_eq!(model.output_outlets().unwrap(), &[new, new, new][..]);
    assert_eq!(model.input_outlets().unwrap(), &[a, b][..]);

    let mut model = TypedModel::default();
    let a = model.add_source("a", DatumType::F32.fact(&[1])).unwrap();
    let b = model.add_source("b", DatumType::F32.fact(&[1])).unwrap();
    model.set_output_outlets(&[a, b, a]).unwrap();
    let mut patch: TypedModelPatch = ModelPatch::new();
    let tap_b = patch.tap_model(&model, b).unwrap();
    let fresh = patch
        .model
        .add_node("fresh", OperatorKind::Placeholder, vec![DatumType::F32.fact(&[1])])
        .unwrap();
    patch.shunt_outside(b, OutletId::new(fresh, 0)).unwrap();
    patch.shunt_outside(a, tap_b).unwrap();
    patch.apply(&mut model).unwrap();
    assert_eq!(model.output_outlets().unwrap(), &[b, new, b][..]);
}
