use tract_core::core_op::{CoreOp, TypedModel};
use tract_core::datum::DatumType;
use tract_core::error::TractError;
use tract_core::graph::{InletId, OperatorKind, OutletId};
use tract_core::order::{eval_order, eval_order_for_nodes};

/// A node with one output and the producers `inputs`, wired in order.
fn node_over(model: &mut TypedModel, name: &str, inputs: &[usize]) -> usize {
    let id = model
        .add_node(name, OperatorKind::Placeholder, vec![DatumType::F32.fact(&[1])])
        .unwrap();
    for (slot, producer) in inputs.iter().enumerate() {
        model.add_edge(OutletId::new(*producer, 0), InletId { node: id, slot }).unwrap();
    }
    id
}

fn source(model: &mut TypedModel, name: &str) -> usize {
    model.add_source(name, DatumType::F32.fact(&[1])).unwrap().node
}

fn position(order: &[usize], node: usize) -> usize {
    order.iter().position(|n| *n == node).unwrap()
}

#[test]
fn chain_is_scheduled_from_its_source() {
    let mut model = TypedModel::default();
    let a = source(&mut model, "a");
    let b = node_over(&mut model, "b", &[a]);
    let c = node_over(&mut model, "c", &[b]);
    model.set_output_outlets(&[OutletId::new(c, 0)]).unwrap();
    assert_eq!(model.eval_order().unwrap(), vec![a, b, c]);
    assert_eq!(eval_order(&model).unwrap(), vec![a, b, c]);
}

#[test]
fn unneeded_nodes_are_not_scheduled() {
    let mut model = TypedModel::default();
    let a = source(&mut model, "a");
    let b = node_over(&mut model, "b", &[a]);
    let _unused = node_over(&mut model, "unused", &[b]);
    let _other = source(&mut model, "other");
    model.set_output_outlets(&[OutletId::new(b, 0)]).unwrap();
    assert_eq!(model.eval_order().unwrap(), vec![a, b]);
}

#[test]
fn diamond_schedules_each_node_once() {
    let mut model = TypedModel::default();
    let a = source(&mut model, "a");
    let l = node_over(&mut model, "l", &[a]);
    let r = node_over(&mut model, "r", &[a]);
    let j = node_over(&mut model, "j", &[l, r]);
    model.set_output_outlets(&[OutletId::new(j, 0)]).unwrap();
    assert_eq!(model.eval_order().unwrap(), vec![a, l, r, j]);
}

#[test]
fn producers_with_inputs_come_before_leaves() {
    let mut model = TypedModel::default();
    let a = source(&mut model, "a");
    let k = node_over(&mut model, "k", &[]);
    let inner = node_over(&mut model, "inner", &[a]);
    let j = node_over(&mut model, "j", &[k, inner]);
    model.set_output_outlets(&[OutletId::new(j, 0)]).unwrap();
    assert_eq!(model.eval_order().unwrap(), vec![a, inner, k, j]);
}

#[test]
fn every_dependency_comes_earlier() {
    let mut model = TypedModel::default();
    let a = source(&mut model, "a");
    let b = source(&mut model, "b");
    let c = node_over(&mut model, "c", &[b, a]);
    let d = node_over(&mut model, "d", &[c, a]);
    let e = node_over(&mut model, "e", &[b]);
    let f = node_over(&mut model, "f", &[d, e, c]);
    model.set_output_outlets(&[OutletId::new(f, 0), OutletId::new(e, 0)]).unwrap();
    let order = model.eval_order().unwrap();
    assert_eq!(order.len(), 6);
    for node in [c, d, e, f] {
        for input in &model.node(node).inputs {
            assert!(position(&order, input.node) < position(&order, node));
        }
    }
}

#[test]
fn graph_inputs_are_not_walked_through() {
    let mut model = TypedModel::default();
    let a = source(&mut model, "a");
    let b = node_over(&mut model, "b", &[a]);
    let c = node_over(&mut model, "c", &[b]);
    model.set_input_outlets(&[OutletId::new(b, 0)]).unwrap();
    model.set_output_outlets(&[OutletId::new(c, 0)]).unwrap();
    assert_eq!(model.eval_order().unwrap(), vec![b, c]);
}

#[test]
fn outputs_of_one_node_schedule_it_once() {
    let mut model = TypedModel::default();
    let a = source(&mut model, "a");
    let b = node_over(&mut model, "b", &[a]);
    model
        .set_output_outlets(&[OutletId::new(b, 0), OutletId::new(a, 0), OutletId::new(b, 0)])
        .unwrap();
    assert_eq!(model.eval_order().unwrap(), vec![a, b]);
}

#[test]
fn back_edge_is_a_cycle() {
    let mut model = TypedModel::default();
    let a = source(&mut model, "a");
    let b = node_over(&mut model, "b", &[a]);
    let c = node_over(&mut model, "c", &[b]);
    model.add_edge(OutletId::new(c, 0), InletId { node: b, slot: 1 }).unwrap();
    model.set_output_outlets(&[OutletId::new(c, 0)]).unwrap();
    assert_eq!(model.eval_order(), Err(TractError::CyclicGraphError));
    model.set_output_outlets(&[OutletId::new(b, 0)]).unwrap();
    assert_eq!(model.eval_order(), Err(TractError::CyclicGraphError));
    model.set_output_outlets(&[OutletId::new(a, 0)]).unwrap();
    assert_eq!(model.eval_order().unwrap(), vec![a]);
}

#[test]
fn self_loop_is_a_cycle() {
    let mut model = TypedModel::default();
    let b = node_over(&mut model, "b", &[]);
    model.add_edge(OutletId::new(b, 0), InletId { node: b, slot: 0 }).unwrap();
    model.set_output_outlets(&[OutletId::new(b, 0)]).unwrap();
    assert_eq!(model.eval_order(), Err(TractError::CyclicGraphError));
}

#[test]
fn cycle_behind_a_graph_input_is_not_met() {
    let mut model = TypedModel::default();
    let a = source(&mut model, "a");
    let b = node_over(&mut model, "b", &[a]);
    let c = node_over(&mut model, "c", &[b]);
    model.add_edge(OutletId::new(c, 0), InletId { node: b, slot: 1 }).unwrap();
    model.set_input_outlets(&[OutletId::new(b, 0)]).unwrap();
    model.set_output_outlets(&[OutletId::new(c, 0)]).unwrap();
    assert_eq!(model.eval_order().unwrap(), vec![b, c]);
}

#[test]
fn forced_dependencies_come_before_leaves() {
    let mut model = TypedModel::default();
    let a = source(&mut model, "a");
    let b = node_over(&mut model, "b", &[a]);
    let k = node_over(&mut model, "k", &[]);
    let t = node_over(&mut model, "t", &[]);
    let order = eval_order_for_nodes(model.nodes(), &[a], &[b], &[(b, t), (k, a)]).unwrap();
    assert_eq!(order, vec![t, a, b]);
    let order = eval_order_for_nodes(model.nodes(), &[a], &[b, k], &[(b, t), (k, b)]).unwrap();
    assert_eq!(order, vec![t, a, b, k]);
    let order = eval_order_for_nodes(model.nodes(), &[], &[k], &[(k, t), (t, k)]);
    assert_eq!(order, Err(TractError::CyclicGraphError));
}

#[test]
fn leaves_are_scheduled_in_input_order() {
    let mut model = TypedModel::default();
    let x = model.add_source("x", DatumType::F32.fact(&[1, 1])).unwrap();
    let a = model
        .add_const("a", tract_core::tensor::Tensor::zero(DatumType::F32, &[2, 1]).unwrap())
        .unwrap();
    let mm = model
        .wire_node("mm", CoreOp::MatMul(tract_core::ops::MatMul {}), &[a, x])
        .unwrap()[0];
    model.set_output_outlets(&[mm]).unwrap();
    assert_eq!(model.eval_order().unwrap(), vec![1, 0, 2]);
}
