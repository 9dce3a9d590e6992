//! Applying a patch to a graph, all or nothing.

use crate::error::{TractError, TractResult};
use crate::fact::{fact_views, FactView, TypedFact};
use crate::graph::{
    fresh_outlets, Graph, GraphView, InletId, Node, NodeView, OperatorKind, Outlet, OutletId,
    OutletView,
};
use crate::op::outlet_facts;
use crate::outlet_map::{distinct_keys, lemma_lookup_some, lookup, OutletMap};
use crate::patch::{ModelPatch, PatchView};
use vstd::prelude::*;

verus! {

/// `outputs` with every occurrence of `from` replaced by `to`.
pub open spec fn redirect(outputs: Seq<OutletId>, from: OutletId, to: OutletId) -> Seq<OutletId> {
    Seq::new(
        outputs.len(),
        |k: int|
            if outputs[k] == from {
                to
            } else {
                outputs[k]
            },
    )
}

/// The graph with the first `upto` nodes of `list` replaced by
/// placeholders.
pub open spec fn obliterated<V>(g: GraphView<V>, list: Seq<usize>, upto: int) -> GraphView<V>
    decreases upto,
{
    if upto <= 0 {
        g
    } else {
        obliterated(g, list, upto - 1).obliterate(list[upto - 1] as int)
    }
}

impl<V> PatchView<V> {
    /// Node `i` of the patch is a tap: a source that stands for an outlet
    /// of the target. Taps are not copied into the target.
    pub open spec fn is_tap(self, i: int) -> bool {
        self.model.nodes[i].op is Source && lookup(
            self.incoming,
            OutletId { node: i as usize, slot: 0 },
        ) is Some
    }

    /// How many of the first `i` nodes of the patch are copied.
    pub open spec fn copies_before(self, i: int) -> int
        decreases i,
    {
        if i <= 0 {
            0
        } else if self.is_tap(i - 1) {
            self.copies_before(i - 1)
        } else {
            self.copies_before(i - 1) + 1
        }
    }

    /// The outlet of the target that the outlet `o` of the patch becomes,
    /// where the target had `base` nodes: an outlet of the copy of its
    /// node, or the outlet that its tap stands for.
    pub open spec fn resolve(self, base: nat, o: OutletId) -> Option<OutletId> {
        if o.node < self.model.nodes.len() && !self.is_tap(o.node as int) && o.slot
            < self.model.nodes[o.node as int].outputs.len() {
            Some(OutletId { node: (base + self.copies_before(o.node as int)) as usize, slot: o.slot })
        } else {
            lookup(self.incoming, o)
        }
    }

    /// Entry `i` of the taps names an outlet of the patch and a live
    /// outlet of the target.
    pub open spec fn tap_fits(self, target: GraphView<V>, i: int) -> bool {
        let (k, t) = self.incoming[i];
        self.model.has_outlet(k) && target.is_live(t)
    }

    /// Entry `i` of the taps names an outlet of the patch and a live
    /// outlet of the target with the same fact.
    pub open spec fn tap_ok(self, target: GraphView<V>, i: int) -> bool {
        let (k, t) = self.incoming[i];
        &&& self.model.has_outlet(k)
        &&& target.is_live(t)
        &&& self.model.outlet(k).fact == target.outlet(t).fact
    }

    /// Input `k` of node `i` of the patch, where the node is copied, has
    /// an outlet of the target to become.
    pub open spec fn input_resolves(self, base: nat, i: int, k: int) -> bool {
        self.is_tap(i) || self.resolve(base, self.model.nodes[i].inputs[k]) is Some
    }

    /// Entry `j` of the shunts redirects a live outlet of the target to an
    /// outlet of the patch that has an outlet of the target to become.
    pub open spec fn shunt_fits(self, target: GraphView<V>, j: int) -> bool {
        let (outlet, by) = self.shunt_outlet_by[j];
        &&& target.is_live(outlet)
        &&& self.model.has_outlet(by)
        &&& self.resolve(target.nodes.len(), by) is Some
    }

    /// Entry `j` of the shunts redirects a live outlet of the target to an
    /// outlet of the patch that carries the same fact.
    pub open spec fn shunt_ok(self, target: GraphView<V>, j: int) -> bool {
        let (outlet, by) = self.shunt_outlet_by[j];
        &&& target.is_live(outlet)
        &&& self.model.has_outlet(by)
        &&& self.resolve(target.nodes.len(), by) is Some
        &&& self.model.outlet(by).fact == target.outlet(outlet).fact
    }

    /// Whether the patch fits `target`, whatever the facts: the node table
    /// stays within the machine's index range, every tap stands for a live
    /// outlet of the target, every input of a copied node and every shunt
    /// resolve, and only nodes of the patched graph are removed.
    pub open spec fn fits(self, target: GraphView<V>) -> bool {
        let base = target.nodes.len();
        let n = self.model.nodes.len();
        &&& base + n <= usize::MAX
        &&& forall|i: int| 0 <= i < self.incoming.len() ==> #[trigger] self.tap_fits(target, i)
        &&& forall|i: int, k: int|
            0 <= i < n && 0 <= k < self.model.nodes[i].inputs.len() ==> #[trigger] self.input_resolves(
                base,
                i,
                k,
            )
        &&& forall|j: int|
            0 <= j < self.shunt_outlet_by.len() ==> #[trigger] self.shunt_fits(target, j)
        &&& forall|j: int|
            0 <= j < self.obliterate.len() ==> #[trigger] self.obliterate[j] < base
                + self.copies_before(n as int)
    }

    /// Why the patch is not applied to `target`, if it is not: with
    /// `PatchInvariantViolation` where it does not fit; with
    /// `PatchFactMismatch` where it fits, and a tap or a shunt of it would
    /// change the fact of an outlet.
    pub open spec fn refusal(self, target: GraphView<V>) -> Option<TractError> {
        if !self.fits(target) {
            Some(TractError::PatchInvariantViolation)
        } else if !self.applicable(target) {
            Some(TractError::PatchFactMismatch)
        } else {
            None
        }
    }

    /// Whether the patch is applied to `target`: it fits, every tap stands
    /// for an outlet with the same fact, and a shunt keeps the fact of the
    /// outlet it redirects. A patch that fits and would change a fact is
    /// refused too, with an error of its own: see `refusal`.
    pub open spec fn applicable(self, target: GraphView<V>) -> bool {
        let base = target.nodes.len();
        let n = self.model.nodes.len();
        &&& base + n <= usize::MAX
        &&& forall|i: int| 0 <= i < self.incoming.len() ==> #[trigger] self.tap_ok(target, i)
        &&& forall|i: int, k: int|
            0 <= i < n && 0 <= k < self.model.nodes[i].inputs.len() ==> #[trigger] self.input_resolves(
                base,
                i,
                k,
            )
        &&& forall|j: int|
            0 <= j < self.shunt_outlet_by.len() ==> #[trigger] self.shunt_ok(target, j)
        &&& forall|j: int|
            0 <= j < self.obliterate.len() ==> #[trigger] self.obliterate[j] < base
                + self.copies_before(n as int)
    }

    /// A patch is applied exactly where nothing refuses it.
    pub proof fn lemma_refusal(self, target: GraphView<V>)
        ensures
            self.applicable(target) ==> self.fits(target),
            self.applicable(target) <==> self.refusal(target) is None,
    {
        if self.applicable(target) {
            assert forall|i: int| 0 <= i < self.incoming.len() implies #[trigger] self.tap_fits(
                target,
                i,
            ) by {
                assert(self.tap_ok(target, i));
            }
            assert forall|j: int|
                0 <= j < self.shunt_outlet_by.len() implies #[trigger] self.shunt_fits(
                target,
                j,
            ) by {
                assert(self.shunt_ok(target, j));
            }
        }
    }

    /// The target with the copies of those of the first `upto` nodes of
    /// the patch that are not taps: name, operator and facts are kept, and
    /// no input is wired.
    pub open spec fn materialized(self, target: GraphView<V>, upto: int) -> GraphView<V>
        decreases upto,
    {
        if upto <= 0 {
            target
        } else if self.is_tap(upto - 1) {
            self.materialized(target, upto - 1)
        } else {
            let node = self.model.nodes[upto - 1];
            self.materialized(target, upto - 1).add_node(
                node.name,
                node.op,
                outlet_facts(node.outputs),
            )
        }
    }

    /// The declared outputs `outputs` after the first `upto` shunts, taken
    /// in insertion order.
    pub open spec fn rerouted(self, base: nat, outputs: Seq<OutletId>, upto: int) -> Seq<OutletId>
        decreases upto,
    {
        if upto <= 0 {
            outputs
        } else {
            let (outlet, by) = self.shunt_outlet_by[upto - 1];
            redirect(self.rerouted(base, outputs, upto - 1), outlet, self.resolve(base, by)->0)
        }
    }

    /// The outlets of the target that the inputs of node `i` become.
    pub open spec fn resolved_inputs(self, base: nat, i: int) -> Seq<OutletId> {
        Seq::new(
            self.model.nodes[i].inputs.len(),
            |k: int| self.resolve(base, self.model.nodes[i].inputs[k])->0,
        )
    }

    /// The graph `g` with the inputs wired of the copies of the first
    /// `upto` nodes of the patch.
    pub open spec fn rewired(self, base: nat, g: GraphView<V>, upto: int) -> GraphView<V>
        decreases upto,
    {
        if upto <= 0 {
            g
        } else if self.is_tap(upto - 1) {
            self.rewired(base, g, upto - 1)
        } else {
            let inputs = self.resolved_inputs(base, upto - 1);
            self.rewired(base, g, upto - 1).wire_inputs(
                (base + self.copies_before(upto - 1)) as usize,
                inputs,
                inputs.len() as int,
            )
        }
    }

    /// The target after the patch: the nodes that are not taps are copied,
    /// the declared outputs follow the shunts, the inputs of the copies are
    /// wired, and the nodes to remove are placeholders. The declared inputs
    /// stay.
    pub open spec fn applied(self, target: GraphView<V>) -> GraphView<V> {
        let base = target.nodes.len();
        let n = self.model.nodes.len() as int;
        let copied = self.materialized(target, n);
        let shunted = GraphView {
            outputs: self.rerouted(base, copied.outputs, self.shunt_outlet_by.len() as int),
            ..copied
        };
        let wired = self.rewired(base, shunted, n);
        let cleared = obliterated(wired, self.obliterate, self.obliterate.len() as int);
        GraphView { inputs: target.inputs, ..cleared }
    }

    pub proof fn lemma_copies_before(self, i: int, upto: int)
        requires
            0 <= i <= upto,
        ensures
            0 <= self.copies_before(i) <= self.copies_before(upto),
            self.copies_before(upto) <= upto,
            i < upto && !self.is_tap(i) ==> self.copies_before(i) < self.copies_before(upto),
        decreases upto,
    {
        if i < upto {
            self.lemma_copies_before(i, upto - 1);
        } else if upto > 0 {
            self.lemma_copies_before(i - 1, upto - 1);
        }
    }

    /// Copies of the same slot of different nodes never meet.
    pub proof fn lemma_copies_distinct(self, i: int, j: int)
        requires
            0 <= i < j,
            !self.is_tap(i),
        ensures
            0 <= self.copies_before(i) < self.copies_before(j),
    {
        self.lemma_copies_before(i, j);
    }

    /// The node that copies node `i` of the patch.
    pub open spec fn copy_of(self, base: nat, i: int) -> NodeView<V> {
        let node = self.model.nodes[i];
        NodeView {
            id: (base + self.copies_before(i)) as usize,
            name: node.name,
            inputs: Seq::empty(),
            op: node.op,
            outputs: fresh_outlets(outlet_facts(node.outputs)),
        }
    }

    pub proof fn lemma_materialized(self, target: GraphView<V>, upto: int)
        requires
            target.wf(),
            0 <= upto <= self.model.nodes.len(),
            target.nodes.len() + self.model.nodes.len() <= usize::MAX,
        ensures
            self.materialized(target, upto).wf(),
            self.materialized(target, upto).nodes.len() == target.nodes.len() + self.copies_before(
                upto,
            ),
            self.materialized(target, upto).inputs == target.inputs,
            self.materialized(target, upto).outputs == target.outputs,
            forall|i: int|
                0 <= i < target.nodes.len() ==> #[trigger] self.materialized(target, upto).nodes[i]
                    == target.nodes[i],
            forall|i: int|
                0 <= i < upto && !self.is_tap(i) ==> #[trigger] self.materialized(
                    target,
                    upto,
                ).nodes[target.nodes.len() + self.copies_before(i)] == self.copy_of(
                    target.nodes.len(),
                    i,
                ),
        decreases upto,
    {
        let base = target.nodes.len();
        if upto > 0 {
            self.lemma_materialized(target, upto - 1);
            self.lemma_copies_before(upto - 1, upto);
            self.lemma_copies_before(0, upto - 1);
            let prev = self.materialized(target, upto - 1);
            let g = self.materialized(target, upto);
            if !self.is_tap(upto - 1) {
                let node = self.model.nodes[upto - 1];
                prev.lemma_add_node_wf(node.name, node.op, outlet_facts(node.outputs));
                assert forall|i: int| 0 <= i < upto && !self.is_tap(i) implies #[trigger] g.nodes[base
                    + self.copies_before(i)] == self.copy_of(base, i) by {
                    if i < upto - 1 {
                        self.lemma_copies_before(i, upto - 1);
                        assert(prev.nodes[base + self.copies_before(i)] == self.copy_of(base, i));
                    }
                }
            } else {
                assert forall|i: int| 0 <= i < upto && !self.is_tap(i) implies #[trigger] g.nodes[base
                    + self.copies_before(i)] == self.copy_of(base, i) by {
                    assert(prev.nodes[base + self.copies_before(i)] == self.copy_of(base, i));
                }
            }
        }
    }

    /// What an outlet of the patch resolves to is an outlet of the target
    /// with the copies, and carries the fact that the patch records.
    pub proof fn lemma_resolve(self, target: GraphView<V>, o: OutletId)
        requires
            target.wf(),
            self.applicable(target),
            self.resolve(target.nodes.len(), o) is Some,
        ensures
            self.materialized(target, self.model.nodes.len() as int).has_outlet(
                self.resolve(target.nodes.len(), o)->0,
            ),
            self.model.has_outlet(o),
            self.materialized(target, self.model.nodes.len() as int).outlet(
                self.resolve(target.nodes.len(), o)->0,
            ).fact == self.model.outlet(o).fact,
    {
        let base = target.nodes.len();
        let n = self.model.nodes.len() as int;
        let g = self.materialized(target, n);
        self.lemma_materialized(target, n);
        self.lemma_copies_before(0, n);
        if o.node < n && !self.is_tap(o.node as int) && o.slot
            < self.model.nodes[o.node as int].outputs.len() {
            self.lemma_copies_before(o.node as int, n);
            assert(g.nodes[base + self.copies_before(o.node as int)] == self.copy_of(
                base,
                o.node as int,
            ));
        } else {
            lemma_lookup_some(self.incoming, o);
            let t = lookup(self.incoming, o)->0;
            let i = choose|i: int| 0 <= i < self.incoming.len() && #[trigger] self.incoming[i] == (o, t);
            assert(self.tap_ok(target, i));
            assert(g.nodes[t.node as int] == target.nodes[t.node as int]);
        }
    }

    pub proof fn lemma_rerouted(self, target: GraphView<V>, upto: int)
        requires
            target.wf(),
            self.applicable(target),
            0 <= upto <= self.shunt_outlet_by.len(),
        ensures
            self.rerouted(target.nodes.len(), target.outputs, upto).len() == target.outputs.len(),
            forall|k: int|
                0 <= k < target.outputs.len() ==> {
                    let o = #[trigger] self.rerouted(target.nodes.len(), target.outputs, upto)[k];
                    &&& self.materialized(target, self.model.nodes.len() as int).has_outlet(o)
                    &&& self.materialized(target, self.model.nodes.len() as int).outlet(o).fact
                        == target.outlet(target.outputs[k]).fact
                },
        decreases upto,
    {
        let base = target.nodes.len();
        let n = self.model.nodes.len() as int;
        let g = self.materialized(target, n);
        self.lemma_materialized(target, n);
        if upto <= 0 {
            assert forall|k: int| 0 <= k < target.outputs.len() implies {
                let o = #[trigger] self.rerouted(base, target.outputs, upto)[k];
                &&& g.has_outlet(o)
                &&& g.outlet(o).fact == target.outlet(target.outputs[k]).fact
            } by {
                let o = target.outputs[k];
                assert(target.has_outlet(o));
                assert(g.nodes[o.node as int] == target.nodes[o.node as int]);
            }
        } else {
            self.lemma_rerouted(target, upto - 1);
            let prev = self.rerouted(base, target.outputs, upto - 1);
            let (outlet, by) = self.shunt_outlet_by[upto - 1];
            assert(self.shunt_ok(target, upto - 1));
            self.lemma_resolve(target, by);
            let to = self.resolve(base, by)->0;
            assert forall|k: int| 0 <= k < target.outputs.len() implies {
                let o = #[trigger] self.rerouted(base, target.outputs, upto)[k];
                &&& g.has_outlet(o)
                &&& g.outlet(o).fact == target.outlet(target.outputs[k]).fact
            } by {
                let before = prev[k];
                assert(g.has_outlet(before));
                if before == outlet {
                    assert(g.nodes[outlet.node as int] == target.nodes[outlet.node as int]);
                }
            }
        }
    }

    pub proof fn lemma_rewired(self, target: GraphView<V>, g: GraphView<V>, upto: int)
        requires
            target.wf(),
            self.model.wf(),
            self.applicable(target),
            g.wf(),
            g.same_but_edges(
                GraphView { outputs: g.outputs, ..self.materialized(
                    target,
                    self.model.nodes.len() as int,
                ) },
            ),
            forall|i: int|
                0 <= i < self.model.nodes.len() && !self.is_tap(i) ==> (#[trigger] g.nodes[target.nodes.len()
                    + self.copies_before(i)]).inputs.len() == 0,
            0 <= upto <= self.model.nodes.len(),
        ensures
            self.rewired(target.nodes.len(), g, upto).wf(),
            self.rewired(target.nodes.len(), g, upto).same_but_edges(g),
            forall|i: int|
                upto <= i < self.model.nodes.len() && !self.is_tap(i) ==> (#[trigger] self.rewired(
                    target.nodes.len(),
                    g,
                    upto,
                ).nodes[target.nodes.len() + self.copies_before(i)]).inputs.len() == 0,
            forall|i: int|
                0 <= i < upto && !self.is_tap(i) ==> (#[trigger] self.rewired(
                    target.nodes.len(),
                    g,
                    upto,
                ).nodes[target.nodes.len() + self.copies_before(i)]).inputs == self.resolved_inputs(
                    target.nodes.len(),
                    i,
                ),
            forall|i: int|
                0 <= i < target.nodes.len() ==> (#[trigger] self.rewired(
                    target.nodes.len(),
                    g,
                    upto,
                ).nodes[i]).inputs == g.nodes[i].inputs,
            upto > 0 && !self.is_tap(upto - 1) ==> {
                let prev = self.rewired(target.nodes.len(), g, upto - 1);
                let id = target.nodes.len() + self.copies_before(upto - 1);
                &&& prev.wf()
                &&& id < prev.nodes.len()
                &&& prev.nodes[id].inputs.len() == 0
                &&& forall|k: int|
                    0 <= k < self.resolved_inputs(target.nodes.len(), upto - 1).len()
                        ==> prev.has_outlet(
                        #[trigger] self.resolved_inputs(target.nodes.len(), upto - 1)[k],
                    )
            },
        decreases upto,
    {
        let base = target.nodes.len();
        let n = self.model.nodes.len() as int;
        let copied = self.materialized(target, n);
        self.lemma_materialized(target, n);
        if upto > 0 {
            self.lemma_rewired(target, g, upto - 1);
            let prev = self.rewired(base, g, upto - 1);
            let cur = self.rewired(base, g, upto);
            if !self.is_tap(upto - 1) {
                self.lemma_copies_before(upto - 1, n);
                let id = (base + self.copies_before(upto - 1)) as usize;
                let inputs = self.resolved_inputs(base, upto - 1);
                assert(prev.nodes[base + self.copies_before(upto - 1)].inputs.len() == 0);
                assert forall|k: int| 0 <= k < inputs.len() implies prev.has_outlet(
                    #[trigger] inputs[k],
                ) by {
                    assert(self.input_resolves(base, upto - 1, k));
                    self.lemma_resolve(target, self.model.nodes[upto - 1].inputs[k]);
                    assert(copied.has_outlet(inputs[k]));
                }
                assert(inputs.len() <= usize::MAX) by {
                    if inputs.len() > 0 {
                        assert(self.model.input_ok(upto - 1, inputs.len() - 1));
                    }
                }
                prev.lemma_wire_inputs(id, inputs, inputs.len() as int);
                assert(inputs.take(inputs.len() as int) =~= inputs);
                assert forall|i: int| upto <= i < n && !self.is_tap(i) implies (
                #[trigger] cur.nodes[base + self.copies_before(i)]).inputs.len() == 0 by {
                    self.lemma_copies_distinct(upto - 1, i);
                    self.lemma_copies_before(i, n);
                    assert(prev.nodes[base + self.copies_before(i)].inputs.len() == 0);
                }
                assert forall|i: int| 0 <= i < upto && !self.is_tap(i) implies (
                #[trigger] cur.nodes[base + self.copies_before(i)]).inputs == self.resolved_inputs(
                    base,
                    i,
                ) by {
                    if i < upto - 1 {
                        self.lemma_copies_distinct(i, upto - 1);
                        assert(prev.nodes[base + self.copies_before(i)].inputs
                            == self.resolved_inputs(base, i));
                    } else {
                        assert(cur.nodes[id as int].inputs == inputs);
                    }
                }
                assert forall|i: int| 0 <= i < base implies (#[trigger] cur.nodes[i]).inputs
                    == g.nodes[i].inputs by {
                    assert(prev.nodes[i].inputs == g.nodes[i].inputs);
                }
            }
        }
    }

    pub proof fn lemma_obliterated(g: GraphView<V>, list: Seq<usize>, upto: int)
        requires
            g.wf(),
            0 <= upto <= list.len(),
            forall|j: int| 0 <= j < list.len() ==> #[trigger] list[j] < g.nodes.len(),
        ensures
            obliterated(g, list, upto).wf(),
            obliterated(g, list, upto).nodes.len() == g.nodes.len(),
            obliterated(g, list, upto).inputs == g.inputs,
            obliterated(g, list, upto).outputs == g.outputs,
            forall|i: int|
                0 <= i < g.nodes.len() ==> {
                    let node = #[trigger] obliterated(g, list, upto).nodes[i];
                    &&& node.id == g.nodes[i].id
                    &&& node.name == g.nodes[i].name
                    &&& node.inputs == g.nodes[i].inputs
                    &&& node.outputs == g.nodes[i].outputs
                    &&& node.op == if list.take(upto).contains(i as usize) {
                        OperatorKind::Placeholder
                    } else {
                        g.nodes[i].op
                    }
                },
        decreases upto,
    {
        if upto > 0 {
            Self::lemma_obliterated(g, list, upto - 1);
            let prev = obliterated(g, list, upto - 1);
            assert(list[upto - 1] < g.nodes.len());
            prev.lemma_obliterate_wf(list[upto - 1] as int);
            let cur = obliterated(g, list, upto);
            assert forall|i: int| 0 <= i < g.nodes.len() implies {
                let node = #[trigger] cur.nodes[i];
                &&& node.id == g.nodes[i].id
                &&& node.name == g.nodes[i].name
                &&& node.inputs == g.nodes[i].inputs
                &&& node.outputs == g.nodes[i].outputs
                &&& node.op == if list.take(upto).contains(i as usize) {
                    OperatorKind::Placeholder
                } else {
                    g.nodes[i].op
                }
            } by {
                let p = prev.nodes[i];
                let short = list.take(upto - 1);
                let full = list.take(upto);
                assert(full =~= short.push(list[upto - 1]));
                if i == list[upto - 1] {
                    assert(full[upto - 1] == i as usize);
                } else if short.contains(i as usize) {
                    let w = choose|w: int| 0 <= w < short.len() && short[w] == i as usize;
                    assert(full[w] == i as usize);
                } else if full.contains(i as usize) {
                    let w = choose|w: int| 0 <= w < full.len() && full[w] == i as usize;
                    assert(short[w] == i as usize);
                }
            }
        } else {
            assert(list.take(0) =~= Seq::<usize>::empty());
        }
    }

    /// What applying a patch does and leaves alone. The graph stays well
    /// formed. The declared inputs stay as they are, and there are as many
    /// declared outputs as before, each with the fact it had. The nodes
    /// that were there keep their place, name, inputs and facts, and their
    /// operator unless they are removed; every removed node is a
    /// placeholder. Every copied node has the name and facts of the patch
    /// node it copies, and its inputs are what that node's inputs resolve
    /// to. What an outlet of the patch resolves to carries that outlet's
    /// fact.
    pub proof fn lemma_applied(self, target: GraphView<V>)
        requires
            target.wf(),
            self.wf(),
            self.applicable(target),
        ensures
            self.applied(target).wf(),
            self.applied(target).inputs == target.inputs,
            self.applied(target).outputs.len() == target.outputs.len(),
            self.applied(target).same_interface(target),
            self.applied(target).nodes.len() == target.nodes.len() + self.copies_before(
                self.model.nodes.len() as int,
            ),
            forall|i: int|
                0 <= i < target.nodes.len() ==> {
                    let node = #[trigger] self.applied(target).nodes[i];
                    &&& node.id == target.nodes[i].id
                    &&& node.name == target.nodes[i].name
                    &&& node.inputs == target.nodes[i].inputs
                    &&& node.outputs.len() == target.nodes[i].outputs.len()
                    &&& outlet_facts(node.outputs) == outlet_facts(target.nodes[i].outputs)
                    &&& node.op == if self.obliterate.contains(i as usize) {
                        OperatorKind::Placeholder
                    } else {
                        target.nodes[i].op
                    }
                },
            forall|j: int|
                0 <= j < self.obliterate.len() ==> self.applied(
                    target,
                ).nodes[#[trigger] self.obliterate[j] as int].op is Placeholder,
            forall|p: int|
                0 <= p < self.model.nodes.len() && !self.is_tap(p) ==> {
                    let node = #[trigger] self.applied(target).nodes[target.nodes.len()
                        + self.copies_before(p)];
                    &&& node.name == self.model.nodes[p].name
                    &&& node.inputs == self.resolved_inputs(target.nodes.len(), p)
                    &&& outlet_facts(node.outputs) == outlet_facts(self.model.nodes[p].outputs)
                    &&& node.op == if self.obliterate.contains(
                        (target.nodes.len() + self.copies_before(p)) as usize,
                    ) {
                        OperatorKind::Placeholder
                    } else {
                        self.model.nodes[p].op
                    }
                },
            forall|o: OutletId|
                (#[trigger] self.resolve(target.nodes.len(), o)) is Some ==> {
                    &&& self.applied(target).has_outlet(self.resolve(target.nodes.len(), o)->0)
                    &&& self.applied(target).outlet(self.resolve(target.nodes.len(), o)->0).fact
                        == self.model.outlet(o).fact
                },
    {
        let base = target.nodes.len();
        let n = self.model.nodes.len() as int;
        let copied = self.materialized(target, n);
        let outputs = self.rerouted(base, copied.outputs, self.shunt_outlet_by.len() as int);
        let shunted = GraphView { outputs, ..copied };
        let wired = self.rewired(base, shunted, n);
        let list = self.obliterate;
        let cleared = obliterated(wired, list, list.len() as int);
        let after = self.applied(target);
        self.lemma_materialized(target, n);
        self.lemma_copies_before(0, n);
        self.lemma_rerouted(target, self.shunt_outlet_by.len() as int);
        copied.lemma_with_outputs_wf(outputs);
        assert forall|a: int| 0 <= a < n && !self.is_tap(a) implies (#[trigger] shunted.nodes[base
            + self.copies_before(a)]).inputs.len() == 0 by {
            self.lemma_copies_before(a, n);
            assert(copied.nodes[base + self.copies_before(a)] == self.copy_of(base, a));
        }
        self.lemma_rewired(target, shunted, n);
        Self::lemma_obliterated(wired, list, list.len() as int);
        assert(list.take(list.len() as int) =~= list);
        assert(after == cleared);
        assert forall|i: int, s: int|
            0 <= i < copied.nodes.len() && 0 <= s < copied.nodes[i].outputs.len() implies (
        #[trigger] after.nodes[i].outputs[s]).fact == copied.nodes[i].outputs[s].fact by {
            assert(wired.nodes[i].outputs[s].fact == shunted.nodes[i].outputs[s].fact);
            assert(after.nodes[i].outputs == wired.nodes[i].outputs);
        }
        assert forall|i: int| 0 <= i < copied.nodes.len() implies (#[trigger] after.nodes[i]).outputs.len()
            == copied.nodes[i].outputs.len() by {
            assert(wired.nodes[i].outputs.len() == shunted.nodes[i].outputs.len());
            assert(after.nodes[i].outputs == wired.nodes[i].outputs);
        }
        assert forall|i: int| 0 <= i < base implies {
            let node = #[trigger] after.nodes[i];
            &&& node.id == target.nodes[i].id
            &&& node.name == target.nodes[i].name
            &&& node.inputs == target.nodes[i].inputs
            &&& node.outputs.len() == target.nodes[i].outputs.len()
            &&& outlet_facts(node.outputs) == outlet_facts(target.nodes[i].outputs)
            &&& node.op == if self.obliterate.contains(i as usize) {
                OperatorKind::Placeholder
            } else {
                target.nodes[i].op
            }
        } by {
            assert(copied.nodes[i] == target.nodes[i]);
            assert(wired.nodes[i].id == shunted.nodes[i].id);
            assert(wired.nodes[i].inputs == shunted.nodes[i].inputs);
            assert(outlet_facts(after.nodes[i].outputs) =~= outlet_facts(target.nodes[i].outputs))
                by {
                assert forall|s: int| 0 <= s < target.nodes[i].outputs.len() implies (
                #[trigger] after.nodes[i].outputs[s]).fact == target.nodes[i].outputs[s].fact by {
                    assert(after.nodes[i].outputs[s].fact == copied.nodes[i].outputs[s].fact);
                }
            }
        }
        assert forall|j: int| 0 <= j < list.len() implies after.nodes[#[trigger] list[j] as int].op is Placeholder by {
            assert(list[j] < wired.nodes.len());
            assert(list.contains(list[j]));
        }
        assert forall|p: int| 0 <= p < n && !self.is_tap(p) implies {
            let node = #[trigger] after.nodes[base + self.copies_before(p)];
            &&& node.name == self.model.nodes[p].name
            &&& node.inputs == self.resolved_inputs(base, p)
            &&& outlet_facts(node.outputs) == outlet_facts(self.model.nodes[p].outputs)
            &&& node.op == if self.obliterate.contains((base + self.copies_before(p)) as usize) {
                OperatorKind::Placeholder
            } else {
                self.model.nodes[p].op
            }
        } by {
            self.lemma_copies_before(p, n);
            let id = base + self.copies_before(p);
            assert(copied.nodes[id] == self.copy_of(base, p));
            assert(wired.nodes[id].name == shunted.nodes[id].name);
            assert(wired.nodes[id].op == shunted.nodes[id].op);
            assert(outlet_facts(after.nodes[id].outputs) =~= outlet_facts(
                self.model.nodes[p].outputs,
            )) by {
                assert forall|s: int| 0 <= s < self.model.nodes[p].outputs.len() implies (
                #[trigger] after.nodes[id].outputs[s]).fact == self.model.nodes[p].outputs[s].fact by {
                    assert(after.nodes[id].outputs[s].fact == copied.nodes[id].outputs[s].fact);
                }
            }
        }
        assert forall|o: OutletId| (#[trigger] self.resolve(base, o)) is Some implies {
            &&& after.has_outlet(self.resolve(base, o)->0)
            &&& after.outlet(self.resolve(base, o)->0).fact == self.model.outlet(o).fact
        } by {
            self.lemma_resolve(target, o);
            let r = self.resolve(base, o)->0;
            assert(after.nodes[r.node as int].outputs.len() == copied.nodes[r.node as int].outputs.len());
            assert(after.nodes[r.node as int].outputs[r.slot as int].fact
                == copied.nodes[r.node as int].outputs[r.slot as int].fact);
        }
        assert forall|k: int| 0 <= k < after.inputs.len() implies after.outlet(
            #[trigger] after.inputs[k],
        ).fact == target.outlet(target.inputs[k]).fact by {
            let o = target.inputs[k];
            assert(target.has_outlet(o));
            assert(copied.nodes[o.node as int] == target.nodes[o.node as int]);
            assert(after.nodes[o.node as int].outputs[o.slot as int].fact
                == copied.nodes[o.node as int].outputs[o.slot as int].fact);
        }
        assert forall|k: int| 0 <= k < after.outputs.len() implies after.outlet(
            #[trigger] after.outputs[k],
        ).fact == target.outlet(target.outputs[k]).fact by {
            let o = outputs[k];
            assert(copied.has_outlet(o));
            assert(after.nodes[o.node as int].outputs[o.slot as int].fact
                == copied.nodes[o.node as int].outputs[o.slot as int].fact);
        }
    }

    /// `ids` gives, for each node of the patch, the index of its copy in a
    /// target that had `base` nodes, and nothing for a tap.
    pub open spec fn is_plan(self, base: nat, ids: Seq<Option<usize>>) -> bool {
        &&& ids.len() == self.model.nodes.len()
        &&& base + self.model.nodes.len() <= usize::MAX
        &&& forall|i: int|
            0 <= i < ids.len() ==> #[trigger] ids[i] == if self.is_tap(i) {
                None
            } else {
                Some((base + self.copies_before(i)) as usize)
            }
    }
}

fn facts_of(outputs: Vec<Outlet>) -> (r: Vec<TypedFact>)
    ensures
        fact_views(r@) == outlet_facts(Seq::new(outputs@.len(), |s: int| outputs@[s]@)),
{
    let mut facts: Vec<TypedFact> = Vec::new();
    for outlet in it: outputs
        invariant
            it.seq() == outputs@,
            facts@.len() == it.index(),
            forall|s: int| 0 <= s < facts@.len() ==> (#[trigger] facts@[s])@ == outputs@[s].fact@,
    {
        facts.push(outlet.fact);
    }
    assert(fact_views(facts@) =~= outlet_facts(Seq::new(outputs@.len(), |s: int| outputs@[s]@)));
    facts
}

impl<U: View> ModelPatch<U> {
    fn is_tap_node(&self, i: usize) -> (r: bool)
        requires
            i < self.model.nodes@.len(),
        ensures
            r == self@.is_tap(i as int),
    {
        match self.model.nodes[i].op {
            OperatorKind::Source => self.incoming.contains_key(OutletId::new(i, 0)),
            _ => false,
        }
    }

    /// Where each node of the patch goes in a target of `base` nodes, and
    /// how many nodes the target has afterwards.
    fn plan(&self, base: usize) -> (r: Option<(Vec<Option<usize>>, usize)>)
        ensures
            r is Some <==> base + self.model.nodes@.len() <= usize::MAX,
            r matches Some((ids, total)) ==> self@.is_plan(base as nat, ids@) && total == base
                + self@.copies_before(self.model.nodes@.len() as int),
    {
        let n = self.model.nodes.len();
        if n > usize::MAX - base {
            return None;
        }
        let mut ids: Vec<Option<usize>> = Vec::new();
        let mut next: usize = base;
        let mut i: usize = 0;
        while i < n
            invariant
                i <= n,
                n == self.model.nodes@.len(),
                base + n <= usize::MAX,
                ids@.len() == i,
                next == base + self@.copies_before(i as int),
                forall|j: int|
                    0 <= j < i ==> #[trigger] ids@[j] == if self@.is_tap(j) {
                        None
                    } else {
                        Some((base + self@.copies_before(j)) as usize)
                    },
            decreases n - i,
        {
            proof {
                self@.lemma_copies_before(i as int, i as int);
            }
            if self.is_tap_node(i) {
                ids.push(None);
            } else {
                ids.push(Some(next));
                next += 1;
            }
            i += 1;
        }
        Some((ids, next))
    }

    fn resolve(&self, base: usize, ids: &Vec<Option<usize>>, o: OutletId) -> (r: Option<OutletId>)
        requires
            self@.is_plan(base as nat, ids@),
        ensures
            r == self@.resolve(base as nat, o),
    {
        if o.node < self.model.nodes.len() {
            match ids[o.node] {
                Some(t) => {
                    if o.slot < self.model.nodes[o.node].outputs.len() {
                        return Some(OutletId::new(t, o.slot));
                    }
                },
                None => {},
            }
        }
        self.incoming.get(o)
    }

    /// The fact that the patch records for `o`, where it has the outlet.
    fn own_fact(&self, o: OutletId) -> (r: Option<&TypedFact>)
        ensures
            match r {
                Some(f) => self@.model.has_outlet(o) && f@ == self@.model.outlet(o).fact,
                None => !self@.model.has_outlet(o),
            },
    {
        if o.node < self.model.nodes.len() && o.slot < self.model.nodes[o.node].outputs.len() {
            Some(&self.model.nodes[o.node].outputs[o.slot].fact)
        } else {
            None
        }
    }

    fn taps_fit(&self, target: &Graph<U>) -> (r: bool)
        ensures
            r == forall|i: int|
                0 <= i < self@.incoming.len() ==> #[trigger] self@.tap_fits(target@, i),
    {
        let mut i: usize = 0;
        while i < self.incoming.len()
            invariant
                i <= self@.incoming.len(),
                forall|j: int| 0 <= j < i ==> #[trigger] self@.tap_fits(target@, j),
            decreases self@.incoming.len() - i,
        {
            let (k, t) = self.incoming.entry(i);
            let ok = match (self.own_fact(k), target.outlet_fact(t)) {
                (Some(_), Ok(_)) => true,
                _ => false,
            };
            if !ok {
                assert(!self@.tap_fits(target@, i as int));
                return false;
            }
            i += 1;
        }
        true
    }

    fn taps_keep_facts(&self, target: &Graph<U>) -> (r: bool)
        ensures
            r == forall|i: int| 0 <= i < self@.incoming.len() ==> #[trigger] self@.tap_ok(target@, i),
    {
        let mut i: usize = 0;
        while i < self.incoming.len()
            invariant
                i <= self@.incoming.len(),
                forall|j: int| 0 <= j < i ==> #[trigger] self@.tap_ok(target@, j),
            decreases self@.incoming.len() - i,
        {
            let (k, t) = self.incoming.entry(i);
            let ok = match (self.own_fact(k), target.outlet_fact(t)) {
                (Some(mine), Ok(theirs)) => mine.same_as(theirs),
                _ => false,
            };
            if !ok {
                assert(!self@.tap_ok(target@, i as int));
                return false;
            }
            i += 1;
        }
        true
    }

    fn inputs_fit(&self, base: usize, ids: &Vec<Option<usize>>) -> (r: bool)
        requires
            self@.is_plan(base as nat, ids@),
        ensures
            r == forall|i: int, k: int|
                0 <= i < self@.model.nodes.len() && 0 <= k < self@.model.nodes[i].inputs.len()
                    ==> #[trigger] self@.input_resolves(base as nat, i, k),
    {
        let n = self.model.nodes.len();
        let mut i: usize = 0;
        while i < n
            invariant
                i <= n,
                n == self@.model.nodes.len(),
                self@.is_plan(base as nat, ids@),
                forall|a: int, k: int|
                    0 <= a < i && 0 <= k < self@.model.nodes[a].inputs.len()
                        ==> #[trigger] self@.input_resolves(base as nat, a, k),
            decreases n - i,
        {
            if ids[i].is_some() {
                let inputs = &self.model.nodes[i].inputs;
                let mut k: usize = 0;
                while k < inputs.len()
                    invariant
                        k <= inputs.len(),
                        i < n,
                        n == self@.model.nodes.len(),
                        inputs@ == self@.model.nodes[i as int].inputs,
                        self@.is_plan(base as nat, ids@),
                        !self@.is_tap(i as int),
                        forall|b: int|
                            0 <= b < k ==> #[trigger] self@.input_resolves(base as nat, i as int, b),
                    decreases inputs.len() - k,
                {
                    if self.resolve(base, ids, inputs[k]).is_none() {
                        assert(!self@.input_resolves(base as nat, i as int, k as int));
                        return false;
                    }
                    k += 1;
                }
            }
            i += 1;
        }
        true
    }

    fn shunts_fit(&self, base: usize, ids: &Vec<Option<usize>>, target: &Graph<U>) -> (r: bool)
        requires
            self@.is_plan(base as nat, ids@),
            base == target@.nodes.len(),
        ensures
            r == forall|j: int|
                0 <= j < self@.shunt_outlet_by.len() ==> #[trigger] self@.shunt_fits(target@, j),
    {
        let mut j: usize = 0;
        while j < self.shunt_outlet_by.len()
            invariant
                j <= self@.shunt_outlet_by.len(),
                self@.is_plan(base as nat, ids@),
                base == target@.nodes.len(),
                forall|a: int| 0 <= a < j ==> #[trigger] self@.shunt_fits(target@, a),
            decreases self@.shunt_outlet_by.len() - j,
        {
            let (outlet, by) = self.shunt_outlet_by.entry(j);
            let ok = match (target.outlet_fact(outlet), self.own_fact(by)) {
                (Ok(_), Some(_)) => self.resolve(base, ids, by).is_some(),
                _ => false,
            };
            if !ok {
                assert(!self@.shunt_fits(target@, j as int));
                return false;
            }
            j += 1;
        }
        true
    }

    fn shunts_keep_facts(&self, base: usize, ids: &Vec<Option<usize>>, target: &Graph<U>) -> (r: bool)
        requires
            self@.is_plan(base as nat, ids@),
            base == target@.nodes.len(),
        ensures
            r == forall|j: int|
                0 <= j < self@.shunt_outlet_by.len() ==> #[trigger] self@.shunt_ok(target@, j),
    {
        let mut j: usize = 0;
        while j < self.shunt_outlet_by.len()
            invariant
                j <= self@.shunt_outlet_by.len(),
                self@.is_plan(base as nat, ids@),
                base == target@.nodes.len(),
                forall|a: int| 0 <= a < j ==> #[trigger] self@.shunt_ok(target@, a),
            decreases self@.shunt_outlet_by.len() - j,
        {
            let (outlet, by) = self.shunt_outlet_by.entry(j);
            let ok = match (target.outlet_fact(outlet), self.own_fact(by)) {
                (Ok(theirs), Some(mine)) => self.resolve(base, ids, by).is_some() && mine.same_as(
                    theirs,
                ),
                _ => false,
            };
            if !ok {
                assert(!self@.shunt_ok(target@, j as int));
                return false;
            }
            j += 1;
        }
        true
    }

    fn removals_fit(&self, total: usize) -> (r: bool)
        ensures
            r == forall|j: int| 0 <= j < self@.obliterate.len() ==> #[trigger] self@.obliterate[j] < total,
    {
        let mut j: usize = 0;
        while j < self.obliterate.len()
            invariant
                j <= self@.obliterate.len(),
                forall|a: int| 0 <= a < j ==> #[trigger] self@.obliterate[a] < total,
            decreases self@.obliterate.len() - j,
        {
            if self.obliterate[j] >= total {
                return false;
            }
            j += 1;
        }
        true
    }

    /// For each copied node of the patch, the outlets of the target that
    /// its inputs become.
    fn resolved_wiring(&self, base: usize, ids: &Vec<Option<usize>>) -> (r: Vec<Vec<OutletId>>)
        requires
            self@.is_plan(base as nat, ids@),
            forall|i: int, k: int|
                0 <= i < self@.model.nodes.len() && 0 <= k < self@.model.nodes[i].inputs.len()
                    ==> #[trigger] self@.input_resolves(base as nat, i, k),
        ensures
            r@.len() == self@.model.nodes.len(),
            forall|i: int|
                0 <= i < r@.len() && !self@.is_tap(i) ==> (#[trigger] r@[i])@
                    == self@.resolved_inputs(base as nat, i),
    {
        let n = self.model.nodes.len();
        let mut wiring: Vec<Vec<OutletId>> = Vec::new();
        let mut i: usize = 0;
        while i < n
            invariant
                i <= n,
                n == self@.model.nodes.len(),
                self@.is_plan(base as nat, ids@),
                forall|a: int, k: int|
                    0 <= a < self@.model.nodes.len() && 0 <= k < self@.model.nodes[a].inputs.len()
                        ==> #[trigger] self@.input_resolves(base as nat, a, k),
                wiring@.len() == i,
                forall|a: int|
                    0 <= a < i && !self@.is_tap(a) ==> (#[trigger] wiring@[a])@
                        == self@.resolved_inputs(base as nat, a),
            decreases n - i,
        {
            let mut row: Vec<OutletId> = Vec::new();
            if ids[i].is_some() {
                let inputs = &self.model.nodes[i].inputs;
                let mut k: usize = 0;
                while k < inputs.len()
                    invariant
                        k <= inputs.len(),
                        i < n,
                        n == self@.model.nodes.len(),
                        !self@.is_tap(i as int),
                        inputs@ == self@.model.nodes[i as int].inputs,
                        self@.is_plan(base as nat, ids@),
                        forall|a: int, b: int|
                            0 <= a < self@.model.nodes.len() && 0 <= b
                                < self@.model.nodes[a].inputs.len()
                                ==> #[trigger] self@.input_resolves(base as nat, a, b),
                        row@.len() == k,
                        forall|b: int|
                            0 <= b < k ==> #[trigger] row@[b] == self@.resolve(
                                base as nat,
                                inputs@[b],
                            )->0,
                    decreases inputs.len() - k,
                {
                    assert(self@.input_resolves(base as nat, i as int, k as int));
                    match self.resolve(base, ids, inputs[k]) {
                        Some(o) => {
                            row.push(o);
                        },
                        None => {},
                    }
                    k += 1;
                }
                assert(row@ =~= self@.resolved_inputs(base as nat, i as int));
            }
            wiring.push(row);
            i += 1;
        }
        wiring
    }

    /// For each shunt, the outlet it redirects and the outlet of the
    /// target that takes its place.
    fn resolved_shunts(&self, base: usize, ids: &Vec<Option<usize>>, target: &Graph<U>) -> (r: Vec<
        (OutletId, OutletId),
    >)
        requires
            self@.is_plan(base as nat, ids@),
            base == target@.nodes.len(),
            forall|j: int|
                0 <= j < self@.shunt_outlet_by.len() ==> #[trigger] self@.shunt_ok(target@, j),
        ensures
            r@.len() == self@.shunt_outlet_by.len(),
            forall|j: int|
                0 <= j < r@.len() ==> #[trigger] r@[j] == (
                    self@.shunt_outlet_by[j].0,
                    self@.resolve(base as nat, self@.shunt_outlet_by[j].1)->0,
                ),
    {
        let mut shunts: Vec<(OutletId, OutletId)> = Vec::new();
        let mut j: usize = 0;
        while j < self.shunt_outlet_by.len()
            invariant
                j <= self@.shunt_outlet_by.len(),
                self@.is_plan(base as nat, ids@),
                base == target@.nodes.len(),
                forall|a: int|
                    0 <= a < self@.shunt_outlet_by.len() ==> #[trigger] self@.shunt_ok(target@, a),
                shunts@.len() == j,
                forall|a: int|
                    0 <= a < j ==> #[trigger] shunts@[a] == (
                        self@.shunt_outlet_by[a].0,
                        self@.resolve(base as nat, self@.shunt_outlet_by[a].1)->0,
                    ),
            decreases self@.shunt_outlet_by.len() - j,
        {
            let (outlet, by) = self.shunt_outlet_by.entry(j);
            assert(self@.shunt_ok(target@, j as int));
            match self.resolve(base, ids, by) {
                Some(to) => {
                    shunts.push((outlet, to));
                },
                None => {},
            }
            j += 1;
        }
        shunts
    }

    /// Applies the patch to `target`, or leaves `target` as it is where
    /// the patch does not fit or would change the fact of an outlet that
    /// it taps or redirects. The phases follow each other: the nodes of
    /// the patch that are not taps are copied; the declared outputs follow
    /// the shunts; the inputs of the copies are wired; the nodes to remove
    /// become placeholders; the declared inputs are set back.
    pub fn apply(self, target: &mut Graph<U>) -> (r: TractResult<()>)
        requires
            self.wf(),
            old(target).wf(),
        ensures
            match r {
                Ok(_) => {
                    &&& self@.refusal(old(target)@) is None
                    &&& self@.applicable(old(target)@)
                    &&& final(target)@ == self@.applied(old(target)@)
                },
                Err(e) => {
                    &&& self@.refusal(old(target)@) == Some(e)
                    &&& !self@.applicable(old(target)@)
                    &&& final(target)@ == old(target)@
                },
            },
            final(target).wf(),
            final(target)@.inputs == old(target)@.inputs,
            final(target)@.outputs.len() == old(target)@.outputs.len(),
            final(target)@.same_interface(old(target)@),
    {
        let ghost patch = self@;
        let ghost before = target@;
        proof {
            patch.lemma_refusal(before);
        }
        let base = target.nodes.len();
        let n = self.model.nodes.len();
        let (ids, total) = match self.plan(base) {
            Some(p) => p,
            None => {
                return Err(TractError::PatchInvariantViolation);
            },
        };
        if !(self.taps_fit(target) && self.inputs_fit(base, &ids) && self.shunts_fit(
            base,
            &ids,
            target,
        ) && self.removals_fit(total)) {
            return Err(TractError::PatchInvariantViolation);
        }
        assert(patch.fits(before));
        if !(self.taps_keep_facts(target) && self.shunts_keep_facts(base, &ids, target)) {
            return Err(TractError::PatchFactMismatch);
        }
        assert(patch.applicable(before));
        let wiring = self.resolved_wiring(base, &ids);
        let shunts = self.resolved_shunts(base, &ids, target);
        let saved_inputs = match target.input_outlets() {
            Ok(s) => vstd::slice::slice_to_vec(s),
            Err(e) => {
                return Err(e);
            },
        };
        let ModelPatch { dont_apply_twice: _, model, incoming: _, shunt_outlet_by: _, obliterate } =
            self;
        let Graph { nodes, inputs: _, outputs: _ } = model;
        let ghost rows = nodes@;
        assert(forall|i: int| 0 <= i < n ==> (#[trigger] rows[i])@ == patch.model.nodes[i]);
        let mut i: usize = 0;
        for node in it: nodes
            invariant
                it.seq() == rows,
                i == it.index(),
                n == rows.len(),
                n == patch.model.nodes.len(),
                base == before.nodes.len(),
                before.wf(),
                patch.is_plan(base as nat, ids@),
                forall|a: int| 0 <= a < n ==> (#[trigger] rows[a])@ == patch.model.nodes[a],
                target@ == patch.materialized(before, i as int),
                target.wf(),
        {
            let Node { id: _, name, inputs: _, op, outputs } = node;
            if ids[i].is_some() {
                let facts = facts_of(outputs);
                let _ = target.add_node(name.as_str(), op, facts);
            }
            i += 1;
        }
        let ghost copied = target@;
        proof {
            patch.lemma_materialized(before, n as int);
            patch.lemma_copies_before(0, n as int);
        }
        // The declared outputs follow the shunts.
        let mut j: usize = 0;
        while j < shunts.len()
            invariant
                j <= shunts.len(),
                shunts@.len() == patch.shunt_outlet_by.len(),
                forall|a: int|
                    0 <= a < shunts@.len() ==> #[trigger] shunts@[a] == (
                        patch.shunt_outlet_by[a].0,
                        patch.resolve(base as nat, patch.shunt_outlet_by[a].1)->0,
                    ),
                n == patch.model.nodes.len(),
                base == before.nodes.len(),
                before.wf(),
                patch.applicable(before),
                copied == patch.materialized(before, n as int),
                copied.outputs == before.outputs,
                target@ == (GraphView {
                    outputs: patch.rerouted(base as nat, before.outputs, j as int),
                    ..copied
                }),
                target.wf(),
            decreases shunts.len() - j,
        {
            let (from, to) = shunts[j];
            let mut outputs: Vec<OutletId> = Vec::new();
            let mut k: usize = 0;
            while k < target.outputs.len()
                invariant
                    k <= target.outputs@.len(),
                    outputs@.len() == k,
                    forall|b: int|
                        0 <= b < k ==> outputs@[b] == if target.outputs@[b] == from {
                            to
                        } else {
                            target.outputs@[b]
                        },
                decreases target.outputs@.len() - k,
            {
                let o = target.outputs[k];
                if o == from {
                    outputs.push(to);
                } else {
                    outputs.push(o);
                }
                k += 1;
            }
            proof {
                assert(outputs@ =~= redirect(target@.outputs, from, to));
                patch.lemma_rerouted(before, j as int + 1);
                assert forall|b: int| 0 <= b < outputs@.len() implies target@.has_outlet(
                    #[trigger] outputs@[b],
                ) by {
                    let o = patch.rerouted(base as nat, before.outputs, j as int + 1)[b];
                    assert(copied.has_outlet(o));
                }
            }
            let r = target.set_output_outlets(outputs.as_slice());
            assert(r is Ok);
            j += 1;
        }
        let ghost shunted = target@;
        // The inputs of the copies are wired.
        proof {
            assert forall|a: int| 0 <= a < n && !patch.is_tap(a) implies (
            #[trigger] shunted.nodes[base + patch.copies_before(a)]).inputs.len() == 0 by {
                patch.lemma_copies_before(a, n as int);
                assert(copied.nodes[base + patch.copies_before(a)] == patch.copy_of(base as nat, a));
            }
        }
        let mut i: usize = 0;
        while i < n
            invariant
                i <= n,
                n == patch.model.nodes.len(),
                base == before.nodes.len(),
                before.wf(),
                patch.model.wf(),
                patch.applicable(before),
                patch.is_plan(base as nat, ids@),
                wiring@.len() == n,
                forall|a: int|
                    0 <= a < n && !patch.is_tap(a) ==> (#[trigger] wiring@[a])@
                        == patch.resolved_inputs(base as nat, a),
                shunted.wf(),
                shunted.same_but_edges(
                    GraphView { outputs: shunted.outputs, ..patch.materialized(before, n as int) },
                ),
                forall|a: int|
                    0 <= a < n && !patch.is_tap(a) ==> (#[trigger] shunted.nodes[base
                        + patch.copies_before(a)]).inputs.len() == 0,
                target@ == patch.rewired(base as nat, shunted, i as int),
                target.wf(),
            decreases n - i,
        {
            proof {
                patch.lemma_rewired(before, shunted, i as int + 1);
                patch.lemma_copies_before(i as int, n as int);
            }
            match ids[i] {
                Some(t) => {
                    target.wire_inputs(t, wiring[i].as_slice());
                },
                None => {},
            }
            i += 1;
        }
        let ghost wired = target@;
        proof {
            patch.lemma_rewired(before, shunted, n as int);
        }
        // The nodes to remove become placeholders.
        let mut j: usize = 0;
        while j < obliterate.len()
            invariant
                j <= obliterate.len(),
                obliterate@ == patch.obliterate,
                wired.wf(),
                forall|a: int| 0 <= a < obliterate@.len() ==> #[trigger] obliterate@[a] < wired.nodes.len(),
                target@ == obliterated(wired, obliterate@, j as int),
                target.wf(),
            decreases obliterate.len() - j,
        {
            proof {
                PatchView::<U::V>::lemma_obliterated(wired, obliterate@, j as int);
            }
            target.obliterate(obliterate[j]);
            j += 1;
        }
        proof {
            PatchView::<U::V>::lemma_obliterated(wired, obliterate@, obliterate@.len() as int);
        }
        // The declared inputs are set back.
        let r = target.set_input_outlets(saved_inputs.as_slice());
        assert(r is Ok);
        assert(target@ == patch.applied(before));
        proof {
            patch.lemma_applied(before);
        }
        Ok(())
    }
}

} // verus!
