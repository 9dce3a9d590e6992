//! Compaction: rebuilding a graph with only the nodes that are needed, in
//! evaluation order.

use crate::error::{TractError, TractResult};
use crate::fact::{fact_views, TypedFact};
use crate::graph::{Graph, GraphView, Node, NodeView, OperatorKind, Outlet, OutletId};
use crate::op::{outlet_facts, Op};
use crate::order::{
    eval_order_for_nodes, inputs_table, lemma_input_targets_add_no_cycle,
    lemma_producers_are_dependencies, lemma_schedule, producer, schedule, traversed, valid_order,
};
use vstd::prelude::*;

verus! {

/// The outlet `o` after the nodes `kept` are renumbered by their place in
/// `kept`.
pub open spec fn remap(kept: Seq<usize>, o: OutletId) -> OutletId {
    OutletId { node: kept.index_of(o.node) as usize, slot: o.slot }
}

pub open spec fn remap_all(kept: Seq<usize>, outlets: Seq<OutletId>) -> Seq<OutletId> {
    Seq::new(outlets.len(), |k: int| remap(kept, outlets[k]))
}

proof fn lemma_index_of(kept: Seq<usize>, k: int)
    requires
        kept.no_duplicates(),
        0 <= k < kept.len(),
    ensures
        kept.index_of(kept[k]) == k,
{
    let i = kept.index_of(kept[k]);
    assert(0 <= i < kept.len() && kept[i] == kept[k]);
}

/// Output `s` of node `id` is among the declared inputs `inputs`.
pub open spec fn declared(inputs: Seq<OutletId>, id: usize, s: int) -> bool {
    inputs.contains(OutletId { node: id, slot: s as usize })
}

/// A node with the index `id` and `outputs` outputs has an output, and
/// every output of it is among the declared inputs `inputs`.
pub open spec fn is_whole_input(inputs: Seq<OutletId>, id: usize, outputs: nat) -> bool {
    &&& outputs > 0
    &&& forall|s: int| 0 <= s < outputs ==> #[trigger] declared(inputs, id, s)
}

/// `outlets`, each moved to the node that `mapping` gives for its node.
pub open spec fn mapped(mapping: Seq<Option<usize>>, outlets: Seq<OutletId>) -> Seq<OutletId> {
    Seq::new(
        outlets.len(),
        |k: int| OutletId { node: mapping[outlets[k].node as int]->0, slot: outlets[k].slot },
    )
}

/// `mapping` gives the node of each of `outlets` a node of `g` that has
/// the outlet's slot.
pub open spec fn maps_into<V>(
    mapping: Seq<Option<usize>>,
    outlets: Seq<OutletId>,
    g: GraphView<V>,
) -> bool {
    forall|k: int|
        0 <= k < outlets.len() ==> {
            &&& (#[trigger] outlets[k]).node < mapping.len()
            &&& mapping[outlets[k].node as int] matches Some(t) && g.has_outlet(
                OutletId { node: t, slot: outlets[k].slot },
            )
        }
}

/// `g` with a copy of `node`, a node of a graph with the declared inputs
/// `inputs`. Where every output of `node` is a declared input, the copy is
/// a source. Otherwise it has the operator of `node`, and its inputs are
/// those of `node`, moved by `mapping`. Name and facts are kept.
pub open spec fn with_copy<V>(
    g: GraphView<V>,
    inputs: Seq<OutletId>,
    node: NodeView<V>,
    mapping: Seq<Option<usize>>,
) -> GraphView<V> {
    if is_whole_input(inputs, node.id, node.outputs.len()) {
        g.add_node(node.name, OperatorKind::Source, outlet_facts(node.outputs))
    } else {
        g.add_node(node.name, node.op, outlet_facts(node.outputs)).wire_inputs(
            g.nodes.len() as usize,
            mapped(mapping, node.inputs),
            node.inputs.len() as int,
        )
    }
}

impl<V> GraphView<V> {
    /// Node `i` has an output, and every output of it is a declared graph
    /// input.
    pub open spec fn is_input_node(self, i: usize) -> bool {
        i < self.nodes.len() && is_whole_input(
            self.inputs,
            i,
            self.nodes[i as int].outputs.len(),
        )
    }

    /// Some output of node `i` is a declared graph input.
    pub open spec fn holds_input(self, i: usize) -> bool {
        self.input_nodes().contains(i)
    }

    /// `kept` lists, each behind the producers of its inputs unless it
    /// holds a declared input, the nodes that the declared outputs need,
    /// then the nodes of the declared inputs that no output needs, and no
    /// other node.
    pub open spec fn schedules(self, kept: Seq<usize>) -> bool {
        valid_order(
            self.inputs_table(),
            Seq::empty(),
            self.input_nodes(),
            self.output_nodes() + self.input_nodes(),
            kept,
        )
    }

    /// Input `j` of node `kept[k]` can be wired in the copy: the node
    /// becomes a source, or the producer of the input is listed before it.
    pub open spec fn wire_kept(self, kept: Seq<usize>, k: int, j: int) -> bool {
        self.is_input_node(kept[k]) || kept.take(k).contains(
            self.nodes[kept[k] as int].inputs[j].node,
        )
    }

    /// Every input of each of the first `upto` nodes of `kept` can be
    /// wired in the copy.
    pub open spec fn wires_kept(self, kept: Seq<usize>, upto: int) -> bool {
        forall|k: int, j: int|
            0 <= k < upto && 0 <= j < self.nodes[kept[k] as int].inputs.len()
                ==> #[trigger] self.wire_kept(kept, k, j)
    }

    /// `kept` is a schedule of the needed nodes along which the graph can
    /// be rebuilt.
    pub open spec fn keeps(self, kept: Seq<usize>) -> bool {
        self.schedules(kept) && self.wires_kept(kept, kept.len() as int)
    }

    /// The graph with copies of the first `upto` nodes of `kept`, numbered
    /// by their place in `kept`. A node whose outputs are all declared
    /// inputs becomes a source; every other node keeps its operator, and
    /// its inputs are wired to the copies of their producers. Names and
    /// facts are kept.
    pub open spec fn translated(self, kept: Seq<usize>, upto: int) -> GraphView<V>
        decreases upto,
    {
        if upto <= 0 {
            GraphView::empty()
        } else {
            let before = self.translated(kept, upto - 1);
            let node = self.nodes[kept[upto - 1] as int];
            if self.is_input_node(kept[upto - 1]) {
                before.add_node(node.name, OperatorKind::Source, outlet_facts(node.outputs))
            } else {
                before.add_node(node.name, node.op, outlet_facts(node.outputs)).wire_inputs(
                    (upto - 1) as usize,
                    remap_all(kept, node.inputs),
                    node.inputs.len() as int,
                )
            }
        }
    }

    /// The graph rebuilt over the nodes `kept` alone, with the declared
    /// inputs and outputs renumbered like the nodes.
    pub open spec fn compacted(self, kept: Seq<usize>) -> GraphView<V> {
        GraphView {
            inputs: remap_all(kept, self.inputs),
            outputs: remap_all(kept, self.outputs),
            ..self.translated(kept, kept.len() as int)
        }
    }

    /// The nodes that compaction keeps, in their new order: the schedule
    /// of the nodes of the declared outputs, then of the declared inputs.
    pub open spec fn kept_nodes(self) -> Option<Seq<usize>> {
        schedule(
            self.inputs_table(),
            Seq::empty(),
            self.input_nodes(),
            self.output_nodes() + self.input_nodes(),
            (self.output_nodes() + self.input_nodes()).len() as int,
        )
    }

    /// The compacted graph. There is none where a declared output depends
    /// on a cycle (`CyclicGraphError`), nor where a kept node that holds a
    /// declared input on some of its outputs only has an input whose
    /// producer is not listed before it (`OutletNotFound`): the schedule
    /// does not go behind a node that holds a declared input.
    pub open spec fn compaction(self) -> Result<GraphView<V>, TractError> {
        match self.kept_nodes() {
            Some(kept) => if self.wires_kept(kept, kept.len() as int) {
                Ok(self.compacted(kept))
            } else {
                Err(TractError::OutletNotFound)
            },
            None => Err(TractError::CyclicGraphError),
        }
    }

    /// There is a schedule of the needed nodes exactly where no declared
    /// output depends on a cycle.
    pub proof fn lemma_kept_nodes(self)
        requires
            self.wf(),
        ensures
            match self.kept_nodes() {
                Some(kept) => self.schedules(kept) && !self.is_cyclic(),
                None => self.is_cyclic(),
            },
    {
        self.lemma_tables();
        let targets = self.output_nodes() + self.input_nodes();
        lemma_schedule(
            self.inputs_table(),
            Seq::empty(),
            self.input_nodes(),
            targets,
            targets.len() as int,
        );
        assert(targets.take(targets.len() as int) =~= targets);
        lemma_input_targets_add_no_cycle(
            self.inputs_table(),
            Seq::empty(),
            self.input_nodes(),
            self.output_nodes(),
        );
        if self.kept_nodes() is Some {
            crate::order::lemma_valid_order_excludes_cycle(
                self.inputs_table(),
                Seq::empty(),
                self.input_nodes(),
                targets,
                self.kept_nodes()->0,
            );
        }
    }

    /// The copy of node `kept[k]` in a graph rebuilt over `kept`.
    pub open spec fn copy_matches(self, kept: Seq<usize>, g: GraphView<V>, k: int) -> bool {
        let old = self.nodes[kept[k] as int];
        let new = g.nodes[k];
        &&& new.name == old.name
        &&& new.outputs.len() == old.outputs.len()
        &&& outlet_facts(new.outputs) == outlet_facts(old.outputs)
        &&& if self.is_input_node(kept[k]) {
            new.op == OperatorKind::<V>::Source && new.inputs.len() == 0
        } else {
            new.op == old.op && new.inputs == remap_all(kept, old.inputs)
        }
    }

    pub proof fn lemma_kept_inputs_precede(self, kept: Seq<usize>, k: int, j: int)
        requires
            self.wf(),
            self.schedules(kept),
            0 <= k < kept.len(),
            !self.is_input_node(kept[k]),
            0 <= j < self.nodes[kept[k] as int].inputs.len(),
            self.wire_kept(kept, k, j),
        ensures
            kept.take(k).contains(self.nodes[kept[k] as int].inputs[j].node),
            0 <= kept.index_of(self.nodes[kept[k] as int].inputs[j].node) < k,
            self.has_outlet(self.nodes[kept[k] as int].inputs[j]),
    {
        let n = kept[k];
        let o = self.nodes[n as int].inputs[j];
        let w = choose|w: int| 0 <= w < kept.take(k).len() && kept.take(k)[w] == o.node;
        assert(kept[w] == o.node);
        lemma_index_of(kept, w);
        assert(kept[k] < self.inputs_table().len());
        assert(self.input_ok(n as int, j));
    }

    /// A node that holds no declared input waits for the producers of its
    /// inputs, so a schedule lists them before it.
    pub proof fn lemma_free_node_is_wired(self, kept: Seq<usize>, k: int, j: int)
        requires
            self.wf(),
            self.schedules(kept),
            0 <= k < kept.len(),
            !self.holds_input(kept[k]),
            0 <= j < self.nodes[kept[k] as int].inputs.len(),
        ensures
            self.wire_kept(kept, k, j),
    {
        let ins = self.inputs_table();
        let n = kept[k];
        let o = self.nodes[n as int].inputs[j];
        assert(kept[k] < ins.len());
        lemma_producers_are_dependencies(ins, Seq::empty(), n, j);
        assert(traversed(ins, Seq::empty(), self.input_nodes(), kept[k], o.node));
    }

    /// Compaction succeeds on a graph without cycles in which a node has
    /// all of its outputs among the declared inputs, or none: such is
    /// every graph whose declared inputs are those of its sources.
    pub proof fn lemma_compaction_succeeds(self)
        requires
            self.wf(),
            !self.is_cyclic(),
            forall|a: int|
                0 <= a < self.inputs.len() ==> self.is_input_node((#[trigger] self.inputs[a]).node),
        ensures
            self.compaction() is Ok,
    {
        self.lemma_kept_nodes();
        let kept = self.kept_nodes()->0;
        assert forall|k: int, j: int|
            0 <= k < kept.len() && 0 <= j < self.nodes[kept[k] as int].inputs.len()
            implies #[trigger] self.wire_kept(kept, k, j) by {
            if self.holds_input(kept[k]) {
                let nodes = self.input_nodes();
                let a = choose|a: int| 0 <= a < nodes.len() && nodes[a] == kept[k];
                assert(self.inputs[a].node == kept[k]);
            } else {
                self.lemma_free_node_is_wired(kept, k, j);
            }
        }
    }

    pub proof fn lemma_translated(self, kept: Seq<usize>, upto: int)
        requires
            self.wf(),
            self.nodes.len() <= usize::MAX,
            self.schedules(kept),
            0 <= upto <= kept.len(),
            self.wires_kept(kept, upto),
        ensures
            self.translated(kept, upto).wf(),
            self.translated(kept, upto).nodes.len() == upto,
            self.translated(kept, upto).inputs.len() == 0,
            self.translated(kept, upto).outputs.len() == 0,
            forall|k: int|
                0 <= k < upto ==> #[trigger] self.copy_matches(
                    kept,
                    self.translated(kept, upto),
                    k,
                ),
            upto > 0 && !self.is_input_node(kept[upto - 1]) ==> {
                let node = self.nodes[kept[upto - 1] as int];
                let mid = self.translated(kept, upto - 1).add_node(
                    node.name,
                    node.op,
                    outlet_facts(node.outputs),
                );
                &&& mid.wf()
                &&& forall|j: int|
                    0 <= j < node.inputs.len() ==> mid.has_outlet(
                        #[trigger] remap_all(kept, node.inputs)[j],
                    )
            },
        decreases upto,
    {
        if upto > 0 {
            self.lemma_translated(kept, upto - 1);
            let before = self.translated(kept, upto - 1);
            let after = self.translated(kept, upto);
            let n = kept[upto - 1];
            let node = self.nodes[n as int];
            let facts = outlet_facts(node.outputs);
            assert(kept.len() <= self.nodes.len()) by {
                crate::order::lemma_valid_order_len(
                    self.inputs_table(),
                    Seq::empty(),
                    self.input_nodes(),
                    self.output_nodes() + self.input_nodes(),
                    kept,
                );
            }
            if self.is_input_node(n) {
                before.lemma_add_node_wf(node.name, OperatorKind::Source, facts);
                assert forall|k: int| 0 <= k < upto implies #[trigger] self.copy_matches(
                    kept,
                    after,
                    k,
                ) by {
                    if k < upto - 1 {
                        assert(self.copy_matches(kept, before, k));
                        assert(after.nodes[k] == before.nodes[k]);
                    } else {
                        assert(outlet_facts(after.nodes[k].outputs) =~= facts);
                    }
                }
            } else {
                let mid = before.add_node(node.name, node.op, facts);
                let inputs = remap_all(kept, node.inputs);
                before.lemma_add_node_wf(node.name, node.op, facts);
                assert forall|j: int| 0 <= j < inputs.len() implies mid.has_outlet(
                    #[trigger] inputs[j],
                ) by {
                    assert(self.wire_kept(kept, upto - 1, j));
                    self.lemma_kept_inputs_precede(kept, upto - 1, j);
                    let o = node.inputs[j];
                    let p = kept.index_of(o.node);
                    assert(kept[p] == o.node);
                    assert(self.copy_matches(kept, before, p));
                    assert(mid.nodes[p] == before.nodes[p]);
                }
                assert(inputs.len() <= usize::MAX) by {
                    if inputs.len() > 0 {
                        assert(self.input_ok(n as int, inputs.len() - 1));
                    }
                }
                mid.lemma_wire_inputs((upto - 1) as usize, inputs, inputs.len() as int);
                assert(inputs.take(inputs.len() as int) =~= inputs);
                assert forall|k: int| 0 <= k < upto implies #[trigger] self.copy_matches(
                    kept,
                    after,
                    k,
                ) by {
                    if k < upto - 1 {
                        assert(self.copy_matches(kept, before, k));
                        assert(mid.nodes[k] == before.nodes[k]);
                        assert(after.nodes[k].inputs == mid.nodes[k].inputs);
                        assert(outlet_facts(after.nodes[k].outputs) =~= outlet_facts(
                            mid.nodes[k].outputs,
                        ));
                    } else {
                        assert(outlet_facts(after.nodes[k].outputs) =~= facts);
                    }
                }
            }
        }
    }

    /// Where the producers of the inputs of node `kept[k]` are listed
    /// before it, a table that renumbers the nodes before it moves its
    /// inputs to the copies of their producers.
    pub proof fn lemma_copy_wires(self, kept: Seq<usize>, k: int, mapping: Seq<Option<usize>>)
        requires
            self.wf(),
            self.nodes.len() <= usize::MAX,
            self.schedules(kept),
            0 <= k < kept.len(),
            self.wires_kept(kept, k),
            !self.is_input_node(kept[k]),
            mapping.len() == self.nodes.len(),
            is_renumbering(mapping, kept, k),
            forall|j: int|
                0 <= j < self.nodes[kept[k] as int].inputs.len() ==> kept.take(k).contains(
                    #[trigger] self.nodes[kept[k] as int].inputs[j].node,
                ),
        ensures
            self.wires_kept(kept, k + 1),
            maps_into(mapping, self.nodes[kept[k] as int].inputs, self.translated(kept, k)),
            mapped(mapping, self.nodes[kept[k] as int].inputs) == remap_all(
                kept,
                self.nodes[kept[k] as int].inputs,
            ),
    {
        let node = self.nodes[kept[k] as int];
        let target = self.translated(kept, k);
        assert forall|a: int, j: int|
            0 <= a < k + 1 && 0 <= j < self.nodes[kept[a] as int].inputs.len()
            implies #[trigger] self.wire_kept(kept, a, j) by {
            if a == k {
                assert(kept.take(k).contains(node.inputs[j].node));
            }
        }
        self.lemma_translated(kept, k);
        assert forall|j: int| 0 <= j < node.inputs.len() implies {
            &&& (#[trigger] node.inputs[j]).node < mapping.len()
            &&& mapping[node.inputs[j].node as int] matches Some(t) && t == remap(
                kept,
                node.inputs[j],
            ).node && target.has_outlet(OutletId { node: t, slot: node.inputs[j].slot })
        } by {
            let o = node.inputs[j];
            assert(self.wire_kept(kept, k, j));
            self.lemma_kept_inputs_precede(kept, k, j);
            let p = kept.index_of(o.node);
            assert(kept[p] == o.node);
            assert(self.copy_matches(kept, target, p));
        }
        assert(mapped(mapping, node.inputs) =~= remap_all(kept, node.inputs));
    }

    /// Compaction keeps the graph well formed, keeps the number of declared
    /// inputs and outputs and the fact of each, and holds exactly the nodes
    /// of the schedule.
    pub proof fn lemma_compacted(self, kept: Seq<usize>)
        requires
            self.wf(),
            self.nodes.len() <= usize::MAX,
            self.keeps(kept),
        ensures
            self.compacted(kept).wf(),
            self.compacted(kept).nodes.len() == kept.len(),
            self.compacted(kept).inputs.len() == self.inputs.len(),
            self.compacted(kept).outputs.len() == self.outputs.len(),
            forall|k: int|
                0 <= k < kept.len() ==> #[trigger] self.copy_matches(kept, self.compacted(kept), k),
            forall|k: int|
                0 <= k < self.inputs.len() ==> self.compacted(kept).outlet(
                    #[trigger] self.compacted(kept).inputs[k],
                ).fact == self.outlet(self.inputs[k]).fact,
            forall|k: int|
                0 <= k < self.outputs.len() ==> self.compacted(kept).outlet(
                    #[trigger] self.compacted(kept).outputs[k],
                ).fact == self.outlet(self.outputs[k]).fact,
    {
        let n = kept.len() as int;
        let built = self.translated(kept, n);
        let g = self.compacted(kept);
        self.lemma_translated(kept, n);
        assert forall|i: int, k: int|
            0 <= i < g.nodes.len() && 0 <= k < g.nodes[i].inputs.len() implies #[trigger] g.input_ok(
            i,
            k,
        ) by {
            assert(built.input_ok(i, k));
        }
        assert forall|a: int, s: int, j: int|
            0 <= a < g.nodes.len() && 0 <= s < g.nodes[a].outputs.len() && 0 <= j
                < g.nodes[a].outputs[s].successors.len() implies #[trigger] g.successor_ok(
            a,
            s,
            j,
        ) by {
            assert(built.successor_ok(a, s, j));
        }
        assert forall|k: int| 0 <= k < kept.len() implies #[trigger] self.copy_matches(
            kept,
            g,
            k,
        ) by {
            assert(self.copy_matches(kept, built, k));
        }
        assert forall|k: int| 0 <= k < self.inputs.len() implies g.has_outlet(
            #[trigger] g.inputs[k],
        ) && g.outlet(g.inputs[k]).fact == self.outlet(self.inputs[k]).fact by {
            let o = self.inputs[k];
            assert(self.has_outlet(o));
            assert(self.input_nodes()[k] == o.node);
            let targets = self.output_nodes() + self.input_nodes();
            assert(targets[self.output_nodes().len() + k] == o.node);
            assert(kept.contains(o.node));
            let p = kept.index_of(o.node);
            assert(self.copy_matches(kept, g, p));
            assert(outlet_facts(g.nodes[p].outputs)[o.slot as int] == outlet_facts(
                self.nodes[o.node as int].outputs,
            )[o.slot as int]);
        }
        assert forall|k: int| 0 <= k < self.outputs.len() implies g.has_outlet(
            #[trigger] g.outputs[k],
        ) && g.outlet(g.outputs[k]).fact == self.outlet(self.outputs[k]).fact by {
            let o = self.outputs[k];
            assert(self.has_outlet(o));
            assert(self.output_nodes()[k] == o.node);
            let targets = self.output_nodes() + self.input_nodes();
            assert(targets[k] == o.node);
            assert(kept.contains(o.node));
            let p = kept.index_of(o.node);
            assert(self.copy_matches(kept, g, p));
            assert(outlet_facts(g.nodes[p].outputs)[o.slot as int] == outlet_facts(
                self.nodes[o.node as int].outputs,
            )[o.slot as int]);
        }
    }
}

fn copy_facts(outputs: &Vec<Outlet>) -> (r: Vec<TypedFact>)
    ensures
        fact_views(r@) == outlet_facts(Seq::new(outputs@.len(), |s: int| outputs@[s]@)),
{
    let mut facts: Vec<TypedFact> = Vec::new();
    let mut s: usize = 0;
    while s < outputs.len()
        invariant
            s <= outputs.len(),
            facts@.len() == s,
            forall|a: int| 0 <= a < s ==> (#[trigger] facts@[a])@ == outputs@[a].fact@,
        decreases outputs.len() - s,
    {
        facts.push(outputs[s].fact.clone());
        s += 1;
    }
    assert(fact_views(facts@) =~= outlet_facts(Seq::new(outputs@.len(), |s: int| outputs@[s]@)));
    facts
}

fn nodes_of(outlets: &Vec<OutletId>) -> (r: Vec<usize>)
    ensures
        r@ == outlets@.map_values(producer()),
{
    let mut r: Vec<usize> = Vec::new();
    let mut i: usize = 0;
    while i < outlets.len()
        invariant
            i <= outlets.len(),
            r@.len() == i,
            forall|j: int| 0 <= j < i ==> r@[j] == outlets@[j].node,
        decreases outlets.len() - i,
    {
        r.push(outlets[i].node);
        i += 1;
    }
    assert(r@ =~= outlets@.map_values(producer()));
    r
}

fn holds_outlet(outlets: &Vec<OutletId>, o: OutletId) -> (r: bool)
    ensures
        r == outlets@.contains(o),
{
    let mut i: usize = 0;
    while i < outlets.len()
        invariant
            i <= outlets.len(),
            forall|j: int| 0 <= j < i ==> outlets@[j] != o,
        decreases outlets.len() - i,
    {
        if outlets[i].node == o.node && outlets[i].slot == o.slot {
            return true;
        }
        i += 1;
    }
    false
}

fn whole_input(inputs: &Vec<OutletId>, id: usize, outputs: usize) -> (r: bool)
    ensures
        r == is_whole_input(inputs@, id, outputs as nat),
{
    if outputs == 0 {
        return false;
    }
    let mut s: usize = 0;
    while s < outputs
        invariant
            s <= outputs,
            forall|a: int| 0 <= a < s ==> #[trigger] declared(inputs@, id, a),
        decreases outputs - s,
    {
        if !holds_outlet(inputs, OutletId::new(id, s)) {
            assert(!declared(inputs@, id, s as int));
            return false;
        }
        s += 1;
    }
    true
}

/// The first of `outlets` for whose producer `mapping` gives no node, if
/// there is one.
fn first_without_copy(outlets: &Vec<OutletId>, mapping: &Vec<Option<usize>>) -> (r: Option<usize>)
    ensures
        match r {
            Some(k) => k < outlets@.len() && !(outlets@[k as int].node < mapping@.len()
                && mapping@[outlets@[k as int].node as int] is Some),
            None => forall|k: int|
                0 <= k < outlets@.len() ==> (#[trigger] outlets@[k]).node < mapping@.len()
                    && mapping@[outlets@[k].node as int] is Some,
        },
{
    let mut k: usize = 0;
    while k < outlets.len()
        invariant
            k <= outlets.len(),
            forall|j: int|
                0 <= j < k ==> (#[trigger] outlets@[j]).node < mapping@.len()
                    && mapping@[outlets@[j].node as int] is Some,
        decreases outlets.len() - k,
    {
        let n = outlets[k].node;
        if n >= mapping.len() || mapping[n].is_none() {
            return Some(k);
        }
        k += 1;
    }
    None
}

/// `table` gives each of the first `upto` nodes of `kept` its place in
/// `kept`, and nothing to any other node.
pub open spec fn is_renumbering(table: Seq<Option<usize>>, kept: Seq<usize>, upto: int) -> bool {
    forall|x: int|
        0 <= x < table.len() ==> #[trigger] table[x] == if kept.take(upto).contains(x as usize) {
            Some(kept.index_of(x as usize) as usize)
        } else {
            None
        }
}

/// Rebuilds a graph node by node, in a table of its own.
pub struct IntoTranslator;

impl IntoTranslator {
    /// Copies `node` of `source` into `target` and returns the outlets of
    /// the copy. Where every output of `node` is a declared input of
    /// `source`, the copy is a source. Otherwise it has the operator of
    /// `node`, and `mapping` gives, for the producer of each input of
    /// `node`, the node of `target` that the copy reads in its place.
    pub fn translate_node<U: Op>(
        &self,
        source: &Graph<U>,
        node: &Node<U>,
        target: &mut Graph<U>,
        mapping: &Vec<Option<usize>>,
    ) -> (r: TractResult<Vec<OutletId>>)
        requires
            old(target).wf(),
            !is_whole_input(source@.inputs, node.id, node.outputs@.len()) ==> maps_into(
                mapping@,
                node.inputs@,
                old(target)@,
            ),
        ensures
            r matches Ok(outlets) && outlets@ == crate::op::outlets_of(
                old(target).nodes.len(),
                node.outputs@.len() as nat,
            ),
            final(target)@ == with_copy(old(target)@, source@.inputs, node@, mapping@),
            final(target).wf(),
    {
        let facts = copy_facts(&node.outputs);
        let n_outputs = node.outputs.len();
        let ghost before = target@;
        assert(target@.nodes.len() == target.nodes@.len());
        let id = if whole_input(&source.inputs, node.id, n_outputs) {
            match target.add_node(node.name.as_str(), OperatorKind::Source, facts) {
                Ok(id) => id,
                Err(e) => {
                    return Err(e);
                },
            }
        } else {
            let new_op = node.op.clone();
            let id = match target.add_node(node.name.as_str(), new_op, facts) {
                Ok(id) => id,
                Err(e) => {
                    return Err(e);
                },
            };
            let mut wires: Vec<OutletId> = Vec::new();
            let mut j: usize = 0;
            while j < node.inputs.len()
                invariant
                    j <= node.inputs@.len(),
                    maps_into(mapping@, node.inputs@, before),
                    wires@.len() == j,
                    forall|a: int|
                        0 <= a < j ==> #[trigger] wires@[a] == mapped(mapping@, node.inputs@)[a],
                decreases node.inputs@.len() - j,
            {
                let o = node.inputs[j];
                assert(node.inputs@[j as int].node < mapping@.len());
                let to = match mapping[o.node] {
                    Some(t) => t,
                    None => {
                        return Err(TractError::OutletNotFound);
                    },
                };
                wires.push(OutletId::new(to, o.slot));
                j += 1;
            }
            proof {
                assert(wires@ =~= mapped(mapping@, node@.inputs));
                assert forall|k: int| 0 <= k < wires@.len() implies target@.has_outlet(
                    #[trigger] wires@[k],
                ) by {
                    let o = node.inputs@[k];
                    assert(before.has_outlet(wires@[k]));
                    assert(target@.nodes[wires@[k].node as int] == before.nodes[wires@[k].node as int]);
                }
            }
            target.wire_inputs(id, wires.as_slice());
            id
        };
        let mut outlets: Vec<OutletId> = Vec::new();
        let mut s: usize = 0;
        while s < n_outputs
            invariant
                s <= n_outputs,
                outlets@.len() == s,
                forall|a: int|
                    0 <= a < s ==> outlets@[a] == (OutletId { node: id, slot: a as usize }),
            decreases n_outputs - s,
        {
            outlets.push(OutletId::new(id, s));
            s += 1;
        }
        assert(outlets@ =~= crate::op::outlets_of(id, n_outputs as nat));
        Ok(outlets)
    }

    /// `outlets` renumbered by `mapping`.
    fn renumbered(
        outlets: &Vec<OutletId>,
        mapping: &Vec<Option<usize>>,
        Ghost(kept): Ghost<Seq<usize>>,
    ) -> (r: Vec<OutletId>)
        requires
            is_renumbering(mapping@, kept, kept.len() as int),
            forall|k: int|
                0 <= k < outlets@.len() ==> (#[trigger] outlets@[k]).node < mapping@.len()
                    && kept.contains(outlets@[k].node),
        ensures
            r@ == remap_all(kept, outlets@),
    {
        let mut r: Vec<OutletId> = Vec::new();
        let mut k: usize = 0;
        assert(kept.take(kept.len() as int) =~= kept);
        while k < outlets.len()
            invariant
                k <= outlets.len(),
                is_renumbering(mapping@, kept, kept.len() as int),
                kept.take(kept.len() as int) == kept,
                forall|j: int|
                    0 <= j < outlets@.len() ==> (#[trigger] outlets@[j]).node < mapping@.len()
                        && kept.contains(outlets@[j].node),
                r@.len() == k,
                forall|j: int| 0 <= j < k ==> #[trigger] r@[j] == remap(kept, outlets@[j]),
            decreases outlets.len() - k,
        {
            let o = outlets[k];
            assert(outlets@[k as int].node < mapping@.len());
            match mapping[o.node] {
                Some(to) => {
                    r.push(OutletId::new(to, o.slot));
                },
                None => {},
            }
            k += 1;
        }
        assert(r@ =~= remap_all(kept, outlets@));
        r
    }

    /// Rebuilds `source` over the nodes that its declared outputs and
    /// inputs need, in evaluation order, and returns the new graph with,
    /// for each node of `source`, the index of its copy. Fails where a
    /// declared output depends on a cycle, and where a node to copy reads
    /// a node that has no copy yet.
    pub fn translate_model_with_mappings<U: Op>(&self, source: &Graph<U>) -> (r: TractResult<
        (Graph<U>, Vec<Option<usize>>),
    >)
        requires
            source.wf(),
        ensures
            match r {
                Ok((target, mapping)) => {
                    &&& target.wf()
                    &&& source@.compaction() matches Ok(g) && g == target@
                    &&& mapping@.len() == source.nodes@.len()
                    &&& is_renumbering(
                        mapping@,
                        source@.kept_nodes()->0,
                        source@.kept_nodes()->0.len() as int,
                    )
                },
                Err(e) => {
                    &&& source@.compaction() matches Err(x) && x == e
                    &&& source@.is_cyclic() == (e == TractError::CyclicGraphError)
                },
            },
    {
        let inputs = nodes_of(&source.inputs);
        let mut targets = nodes_of(&source.outputs);
        let mut i: usize = 0;
        while i < inputs.len()
            invariant
                i <= inputs.len(),
                targets@ == source@.output_nodes() + inputs@.take(i as int),
            decreases inputs.len() - i,
        {
            targets.push(inputs[i]);
            assert(targets@ =~= source@.output_nodes() + inputs@.take(i as int + 1));
            i += 1;
        }
        let more: Vec<(usize, usize)> = Vec::new();
        proof {
            let ins = inputs_table(source.nodes@);
            assert(inputs@.take(inputs@.len() as int) =~= inputs@);
            assert(ins =~= source@.inputs_table());
            assert(more@ =~= Seq::<(usize, usize)>::empty());
            source@.lemma_tables();
            source@.lemma_kept_nodes();
            lemma_input_targets_add_no_cycle(
                source@.inputs_table(),
                Seq::empty(),
                source@.input_nodes(),
                source@.output_nodes(),
            );
        }
        let order = match eval_order_for_nodes(
            source.nodes.as_slice(),
            inputs.as_slice(),
            targets.as_slice(),
            more.as_slice(),
        ) {
            Ok(order) => order,
            Err(e) => {
                return Err(e);
            },
        };
        let ghost kept = order@;
        assert(source@.schedules(kept));
        assert(source@.kept_nodes() == Some(kept));
        let n = source.nodes.len();
        let mut mapping: Vec<Option<usize>> = Vec::new();
        let mut i: usize = 0;
        while i < n
            invariant
                i <= n,
                mapping@.len() == i,
                forall|x: int| 0 <= x < i ==> #[trigger] mapping@[x] == None::<usize>,
            decreases n - i,
        {
            mapping.push(None);
            i += 1;
        }
        let mut target: Graph<U> = Graph::new();
        let mut k: usize = 0;
        proof {
            assert(kept.take(0) =~= Seq::<usize>::empty());
            assert(source@.nodes.len() == source.nodes.len());
            assert(target@.nodes.len() == target.nodes@.len());
        }
        while k < order.len()
            invariant
                k <= order.len(),
                kept == order@,
                n == source.nodes@.len(),
                source.wf(),
                source@.schedules(kept),
                source@.kept_nodes() == Some(kept),
                !source@.is_cyclic(),
                source@.wires_kept(kept, k as int),
                mapping@.len() == n,
                is_renumbering(mapping@, kept, k as int),
                target@ == source@.translated(kept, k as int),
                target.nodes@.len() == k,
                target.wf(),
            decreases order.len() - k,
        {
            let old_id = order[k];
            assert(old_id < n);
            let node = source.node(old_id);
            let ghost view = source@.nodes[old_id as int];
            proof {
                assert(source@.nodes.len() == source.nodes.len());
                assert(view == node@);
                assert(view.id == old_id);
                assert(view.outputs.len() == node.outputs@.len());
                assert(view.inputs == node.inputs@);
            }
            if !whole_input(&source.inputs, node.id, node.outputs.len()) {
                match first_without_copy(&node.inputs, &mapping) {
                    Some(j) => {
                        proof {
                            let o = view.inputs[j as int];
                            assert(source@.input_ok(old_id as int, j as int));
                            assert(!kept.take(k as int).contains(o.node));
                            assert(!source@.is_input_node(kept[k as int]));
                            assert(!source@.wire_kept(kept, k as int, j as int));
                            assert(!source@.wires_kept(kept, kept.len() as int));
                        }
                        return Err(TractError::OutletNotFound);
                    },
                    None => {},
                }
                proof {
                    assert forall|j: int| 0 <= j < view.inputs.len() implies kept.take(
                        k as int,
                    ).contains(#[trigger] view.inputs[j].node) by {
                        assert(node.inputs@[j].node < mapping@.len());
                        assert(mapping@[view.inputs[j].node as int] is Some);
                    }
                    source@.lemma_copy_wires(kept, k as int, mapping@);
                }
            } else {
                proof {
                    assert forall|a: int, j: int|
                        0 <= a < k + 1 && 0 <= j < source@.nodes[kept[a] as int].inputs.len()
                        implies #[trigger] source@.wire_kept(kept, a, j) by {}
                }
            }
            match self.translate_node(source, node, &mut target, &mapping) {
                Ok(_) => {},
                Err(e) => {
                    return Err(e);
                },
            }
            let ghost before = mapping@;
            mapping.set(old_id, Some(k));
            proof {
                assert(target@ == source@.translated(kept, k as int + 1));
                source@.lemma_translated(kept, k as int + 1);
                lemma_index_of(kept, k as int);
                let shorter = kept.take(k as int);
                let longer = kept.take(k as int + 1);
                assert(longer =~= shorter.push(old_id));
                assert forall|x: int| 0 <= x < mapping@.len() implies #[trigger] mapping@[x]
                    == if longer.contains(x as usize) {
                    Some(kept.index_of(x as usize) as usize)
                } else {
                    None
                } by {
                    assert(before[x] == if shorter.contains(x as usize) {
                        Some(kept.index_of(x as usize) as usize)
                    } else {
                        None
                    });
                    if x == old_id {
                        assert(longer[k as int] == old_id);
                    } else if shorter.contains(x as usize) {
                        let w = choose|w: int| 0 <= w < shorter.len() && shorter[w] == x as usize;
                        assert(longer[w] == x as usize);
                    } else if longer.contains(x as usize) {
                        let w = choose|w: int| 0 <= w < longer.len() && longer[w] == x as usize;
                        assert(shorter[w] == x as usize);
                    }
                }
            }
            k += 1;
        }
        proof {
            assert(source@.nodes.len() == source.nodes.len());
            assert(source@.keeps(kept));
            source@.lemma_compacted(kept);
            let all = source@.output_nodes() + source@.input_nodes();
            assert forall|a: int| 0 <= a < source.inputs@.len() implies (
            #[trigger] source.inputs@[a]).node < mapping@.len() && kept.contains(
                source.inputs@[a].node,
            ) by {
                assert(source@.has_outlet(source@.inputs[a]));
                assert(all[source@.outputs.len() + a] == source.inputs@[a].node);
            }
            assert forall|a: int| 0 <= a < source.outputs@.len() implies (
            #[trigger] source.outputs@[a]).node < mapping@.len() && kept.contains(
                source.outputs@[a].node,
            ) by {
                assert(source@.has_outlet(source@.outputs[a]));
                assert(all[a] == source.outputs@[a].node);
            }
        }
        let new_inputs = Self::renumbered(&source.inputs, &mapping, Ghost(kept));
        let new_outputs = Self::renumbered(&source.outputs, &mapping, Ghost(kept));
        proof {
            let g = source@.compacted(kept);
            assert forall|a: int| 0 <= a < new_inputs@.len() implies target@.has_outlet(
                #[trigger] new_inputs@[a],
            ) by {
                assert(g.has_outlet(g.inputs[a]));
            }
            assert forall|a: int| 0 <= a < new_outputs@.len() implies target@.has_outlet(
                #[trigger] new_outputs@[a],
            ) by {
                assert(g.has_outlet(g.outputs[a]));
            }
        }
        let r = target.set_input_outlets(new_inputs.as_slice());
        assert(r is Ok);
        let r = target.set_output_outlets(new_outputs.as_slice());
        assert(r is Ok);
        assert(target@ == source@.compacted(kept));
        Ok((target, mapping))
    }

    /// Rebuilds `source` over the nodes that its declared outputs and
    /// inputs need, in evaluation order.
    pub fn translate_model<U: Op>(&self, source: &Graph<U>) -> (r: TractResult<Graph<U>>)
        requires
            source.wf(),
        ensures
            match r {
                Ok(target) => {
                    &&& target.wf()
                    &&& source@.compaction() matches Ok(g) && g == target@
                },
                Err(e) => {
                    &&& source@.compaction() matches Err(x) && x == e
                    &&& source@.is_cyclic() == (e == TractError::CyclicGraphError)
                },
            },
    {
        match self.translate_model_with_mappings(source) {
            Ok((target, _)) => Ok(target),
            Err(e) => Err(e),
        }
    }
}

impl<U: Op> Graph<U> {
    /// Drops the nodes that no declared output or input needs, and
    /// renumbers the rest in evaluation order. A node whose outputs are
    /// all declared inputs becomes a source; every other node keeps its
    /// operator and its inputs. On an error the graph is unchanged.
    pub fn compact(&mut self) -> (r: TractResult<()>)
        requires
            old(self).wf(),
        ensures
            match r {
                Ok(_) => old(self)@.compaction() matches Ok(g) && g == final(self)@,
                Err(e) => {
                    &&& old(self)@.compaction() matches Err(x) && x == e
                    &&& old(self)@.is_cyclic() == (e == TractError::CyclicGraphError)
                    &&& final(self)@ == old(self)@
                },
            },
            final(self).wf(),
    {
        let translator = IntoTranslator;
        let result = match translator.translate_model(self) {
            Ok(g) => g,
            Err(e) => {
                return Err(e);
            },
        };
        *self = result;
        Ok(())
    }
}

} // verus!
