//! The graph: a table of nodes that refer to each other by index alone.

use crate::error::{TractError, TractResult};
use crate::fact::{fact_views, FactView, TypedFact};
use vstd::prelude::*;
use vstd::slice::slice_to_vec;

verus! {

/// An output port: a node and one of its output slots.
#[derive(Clone, Copy, Debug, PartialEq, Eq, Structural, PartialOrd, Ord, Hash)]
pub struct OutletId {
    pub node: usize,
    pub slot: usize,
}

impl OutletId {
    pub fn new(node: usize, slot: usize) -> (r: OutletId)
        ensures
            r == (OutletId { node, slot }),
    {
        OutletId { node, slot }
    }
}

/// Output 0 of a node.
impl From<usize> for OutletId {
    fn from(node: usize) -> (r: OutletId) {
        OutletId { node, slot: 0 }
    }
}

impl vstd::std_specs::convert::FromSpecImpl<usize> for OutletId {
    open spec fn obeys_from_spec() -> bool {
        true
    }

    open spec fn from_spec(node: usize) -> OutletId {
        OutletId { node, slot: 0 }
    }
}

/// The output of a node and a slot.
impl From<(usize, usize)> for OutletId {
    fn from(pair: (usize, usize)) -> (r: OutletId) {
        OutletId { node: pair.0, slot: pair.1 }
    }
}

impl vstd::std_specs::convert::FromSpecImpl<(usize, usize)> for OutletId {
    open spec fn obeys_from_spec() -> bool {
        true
    }

    open spec fn from_spec(pair: (usize, usize)) -> OutletId {
        OutletId { node: pair.0, slot: pair.1 }
    }
}

/// An input port: a node and one of its input slots.
#[derive(Clone, Copy, Debug, PartialEq, Eq, Structural, PartialOrd, Ord)]
pub struct InletId {
    pub node: usize,
    pub slot: usize,
}

/// What a node computes, as far as the graph itself needs to tell: a source
/// feeds the graph from outside, a placeholder stands where a node was
/// removed, and every other operator is the user's.
pub enum OperatorKind<U> {
    Source,
    Placeholder,
    UserDefined(U),
}

impl<U: View> View for OperatorKind<U> {
    type V = OperatorKind<U::V>;

    open spec fn view(&self) -> OperatorKind<U::V> {
        match *self {
            OperatorKind::Source => OperatorKind::Source,
            OperatorKind::Placeholder => OperatorKind::Placeholder,
            OperatorKind::UserDefined(u) => OperatorKind::UserDefined(u@),
        }
    }
}

/// One output slot of a node: the fact of its values and the inlets that
/// consume them.
pub struct Outlet {
    pub fact: TypedFact,
    pub successors: Vec<InletId>,
}

pub struct OutletView {
    pub fact: FactView,
    pub successors: Seq<InletId>,
}

impl View for Outlet {
    type V = OutletView;

    open spec fn view(&self) -> OutletView {
        OutletView { fact: self.fact@, successors: self.successors@ }
    }
}

impl Clone for Outlet {
    fn clone(&self) -> (r: Outlet)
        ensures
            r@ == self@,
    {
        Outlet { fact: self.fact.clone(), successors: slice_to_vec(self.successors.as_slice()) }
    }
}

/// A vertex of the graph.
pub struct Node<U> {
    pub id: usize,
    pub name: String,
    pub inputs: Vec<OutletId>,
    pub op: OperatorKind<U>,
    pub outputs: Vec<Outlet>,
}

pub struct NodeView<V> {
    pub id: usize,
    pub name: Seq<char>,
    pub inputs: Seq<OutletId>,
    pub op: OperatorKind<V>,
    pub outputs: Seq<OutletView>,
}

impl<U: View> View for Node<U> {
    type V = NodeView<U::V>;

    open spec fn view(&self) -> NodeView<U::V> {
        NodeView {
            id: self.id,
            name: self.name@,
            inputs: self.inputs@,
            op: self.op@,
            outputs: Seq::new(self.outputs@.len(), |i: int| self.outputs@[i]@),
        }
    }
}

/// The node table with the graph's declared inputs and outputs.
pub struct Graph<U> {
    pub nodes: Vec<Node<U>>,
    pub inputs: Vec<OutletId>,
    pub outputs: Vec<OutletId>,
}

pub struct GraphView<V> {
    pub nodes: Seq<NodeView<V>>,
    pub inputs: Seq<OutletId>,
    pub outputs: Seq<OutletId>,
}

impl<U: View> View for Graph<U> {
    type V = GraphView<U::V>;

    open spec fn view(&self) -> GraphView<U::V> {
        GraphView {
            nodes: Seq::new(self.nodes@.len(), |i: int| self.nodes@[i]@),
            inputs: self.inputs@,
            outputs: self.outputs@,
        }
    }
}

/// The output slots a fresh node gets for `facts`: nothing consumes them yet.
pub open spec fn fresh_outlets(facts: Seq<FactView>) -> Seq<OutletView> {
    Seq::new(facts.len(), |i: int| OutletView { fact: facts[i], successors: Seq::empty() })
}

impl<V> GraphView<V> {
    pub open spec fn empty() -> GraphView<V> {
        GraphView { nodes: Seq::empty(), inputs: Seq::empty(), outputs: Seq::empty() }
    }

    /// The graph holds the node of `o` and that node has the slot.
    pub open spec fn has_outlet(self, o: OutletId) -> bool {
        o.node < self.nodes.len() && o.slot < self.nodes[o.node as int].outputs.len()
    }

    /// The outlet is there and its node was not replaced by a placeholder.
    pub open spec fn is_live(self, o: OutletId) -> bool {
        self.has_outlet(o) && !(self.nodes[o.node as int].op is Placeholder)
    }

    pub open spec fn outlet(self, o: OutletId) -> OutletView {
        self.nodes[o.node as int].outputs[o.slot as int]
    }

    /// Input `k` of node `i` names an outlet of the graph that lists this
    /// inlet among its successors.
    pub open spec fn input_ok(self, i: int, k: int) -> bool {
        let o = self.nodes[i].inputs[k];
        k < usize::MAX && self.has_outlet(o) && self.outlet(o).successors.contains(
            InletId { node: i as usize, slot: k as usize },
        )
    }

    /// Successor `j` of slot `s` of node `n` names an inlet of the graph
    /// that is fed by this outlet.
    pub open spec fn successor_ok(self, n: int, s: int, j: int) -> bool {
        let inlet = self.nodes[n].outputs[s].successors[j];
        &&& inlet.node < self.nodes.len()
        &&& inlet.slot < self.nodes[inlet.node as int].inputs.len()
        &&& self.nodes[inlet.node as int].inputs[inlet.slot as int] == OutletId {
            node: n as usize,
            slot: s as usize,
        }
    }

    /// The structural invariant: nodes are numbered by their place in the
    /// table, edges are recorded at both ends, and declared inputs and
    /// outputs name outlets of the graph.
    pub open spec fn wf(self) -> bool {
        &&& forall|i: int| 0 <= i < self.nodes.len() ==> (#[trigger] self.nodes[i]).id == i
        &&& forall|i: int, k: int|
            0 <= i < self.nodes.len() && 0 <= k < self.nodes[i].inputs.len()
                ==> #[trigger] self.input_ok(i, k)
        &&& forall|n: int, s: int, j: int|
            0 <= n < self.nodes.len() && 0 <= s < self.nodes[n].outputs.len() && 0 <= j
                < self.nodes[n].outputs[s].successors.len() ==> #[trigger] self.successor_ok(
                n,
                s,
                j,
            )
        &&& forall|k: int| 0 <= k < self.inputs.len() ==> self.has_outlet(#[trigger] self.inputs[k])
        &&& forall|k: int|
            0 <= k < self.outputs.len() ==> self.has_outlet(#[trigger] self.outputs[k])
    }

    /// The graph with one more node, which has no inputs yet.
    pub open spec fn add_node(self, name: Seq<char>, op: OperatorKind<V>, facts: Seq<FactView>)
        -> GraphView<V> {
        GraphView {
            nodes: self.nodes.push(
                NodeView {
                    id: self.nodes.len() as usize,
                    name,
                    inputs: Seq::empty(),
                    op,
                    outputs: fresh_outlets(facts),
                },
            ),
            ..self
        }
    }

    /// Whether `add_edge` accepts the edge: the outlet is in the graph and
    /// the inlet is the next free input slot of a node of the graph, whose
    /// inputs can still be counted in a machine word.
    pub open spec fn accepts_edge(self, outlet: OutletId, inlet: InletId) -> bool {
        &&& self.has_outlet(outlet)
        &&& inlet.node < self.nodes.len()
        &&& inlet.slot == self.nodes[inlet.node as int].inputs.len()
        &&& inlet.slot < usize::MAX
    }

    /// The graph with `inlet` appended to the successors of `outlet`.
    pub open spec fn add_successor(self, outlet: OutletId, inlet: InletId) -> GraphView<V> {
        let node = self.nodes[outlet.node as int];
        let slot = node.outputs[outlet.slot as int];
        GraphView {
            nodes: self.nodes.update(
                outlet.node as int,
                NodeView {
                    outputs: node.outputs.update(
                        outlet.slot as int,
                        OutletView { successors: slot.successors.push(inlet), ..slot },
                    ),
                    ..node
                },
            ),
            ..self
        }
    }

    /// The graph with `outlet` appended to the inputs of node `node`.
    pub open spec fn add_input(self, node: usize, outlet: OutletId) -> GraphView<V> {
        let n = self.nodes[node as int];
        GraphView {
            nodes: self.nodes.update(node as int, NodeView { inputs: n.inputs.push(outlet), ..n }),
            ..self
        }
    }

    /// The graph with the edge from `outlet` to `inlet`, recorded at both
    /// ends.
    pub open spec fn add_edge(self, outlet: OutletId, inlet: InletId) -> GraphView<V> {
        self.add_successor(outlet, inlet).add_input(inlet.node, outlet)
    }

    /// The graph with one more source node, declared as a graph input.
    pub open spec fn add_source(self, name: Seq<char>, fact: FactView) -> GraphView<V> {
        let g = self.add_node(name, OperatorKind::Source, seq![fact]);
        GraphView {
            inputs: g.inputs.push(OutletId { node: self.nodes.len() as usize, slot: 0 }),
            ..g
        }
    }

    /// The graph with node `node` replaced by a placeholder. Its edges stay.
    pub open spec fn obliterate(self, node: int) -> GraphView<V> {
        GraphView {
            nodes: self.nodes.update(
                node,
                NodeView { op: OperatorKind::Placeholder, ..self.nodes[node] },
            ),
            ..self
        }
    }

    pub proof fn lemma_add_node_wf(self, name: Seq<char>, op: OperatorKind<V>, facts: Seq<FactView>)
        requires
            self.wf(),
            self.nodes.len() < usize::MAX,
        ensures
            self.add_node(name, op, facts).wf(),
    {
        let g = self.add_node(name, op, facts);
        assert forall|i: int, k: int|
            0 <= i < g.nodes.len() && 0 <= k < g.nodes[i].inputs.len() implies #[trigger] g.input_ok(
            i,
            k,
        ) by {
            assert(self.input_ok(i, k));
        }
        assert forall|n: int, s: int, j: int|
            0 <= n < g.nodes.len() && 0 <= s < g.nodes[n].outputs.len() && 0 <= j
                < g.nodes[n].outputs[s].successors.len() implies #[trigger] g.successor_ok(
            n,
            s,
            j,
        ) by {
            assert(self.successor_ok(n, s, j));
        }
        assert forall|k: int| 0 <= k < g.inputs.len() implies g.has_outlet(
            #[trigger] g.inputs[k],
        ) by {
            assert(self.has_outlet(self.inputs[k]));
        }
        assert forall|k: int| 0 <= k < g.outputs.len() implies g.has_outlet(
            #[trigger] g.outputs[k],
        ) by {
            assert(self.has_outlet(self.outputs[k]));
        }
    }

    pub proof fn lemma_add_edge_wf(self, outlet: OutletId, inlet: InletId)
        requires
            self.wf(),
            self.accepts_edge(outlet, inlet),
        ensures
            self.add_edge(outlet, inlet).wf(),
    {
        let mid = self.add_successor(outlet, inlet);
        let g = self.add_edge(outlet, inlet);
        assert(g.nodes.len() == self.nodes.len());
        assert forall|i: int| 0 <= i < g.nodes.len() implies (#[trigger] g.nodes[i]).id == i by {
            assert(self.nodes[i].id == i);
        }
        assert forall|i: int, k: int|
            0 <= i < g.nodes.len() && 0 <= k < g.nodes[i].inputs.len() implies #[trigger] g.input_ok(
            i,
            k,
        ) by {
            if i == inlet.node && k == inlet.slot {
                let succ = g.outlet(outlet).successors;
                assert(succ == self.outlet(outlet).successors.push(inlet));
                assert(succ[succ.len() - 1] == inlet);
            } else {
                assert(self.input_ok(i, k));
                let o = self.nodes[i].inputs[k];
                let w = choose|w: int|
                    0 <= w < self.outlet(o).successors.len() && self.outlet(o).successors[w]
                        == (InletId { node: i as usize, slot: k as usize });
                assert(g.outlet(o).successors[w] == (InletId { node: i as usize, slot: k as usize }));
            }
        }
        assert forall|n: int, s: int, j: int|
            0 <= n < g.nodes.len() && 0 <= s < g.nodes[n].outputs.len() && 0 <= j
                < g.nodes[n].outputs[s].successors.len() implies #[trigger] g.successor_ok(
            n,
            s,
            j,
        ) by {
            if n == outlet.node && s == outlet.slot && j == self.outlet(outlet).successors.len() {
            } else {
                assert(self.successor_ok(n, s, j));
            }
        }
        assert forall|k: int| 0 <= k < g.inputs.len() implies g.has_outlet(
            #[trigger] g.inputs[k],
        ) by {
            assert(self.has_outlet(self.inputs[k]));
        }
        assert forall|k: int| 0 <= k < g.outputs.len() implies g.has_outlet(
            #[trigger] g.outputs[k],
        ) by {
            assert(self.has_outlet(self.outputs[k]));
        }
    }

    /// The two graphs differ at most in their edges: they have the same
    /// nodes, with the same operators, names and facts, and declare the
    /// same inputs and outputs.
    pub open spec fn same_but_edges(self, other: GraphView<V>) -> bool {
        &&& self.nodes.len() == other.nodes.len()
        &&& self.inputs == other.inputs
        &&& self.outputs == other.outputs
        &&& forall|i: int|
            0 <= i < self.nodes.len() ==> {
                &&& (#[trigger] self.nodes[i]).id == other.nodes[i].id
                &&& self.nodes[i].name == other.nodes[i].name
                &&& self.nodes[i].op == other.nodes[i].op
                &&& self.nodes[i].outputs.len() == other.nodes[i].outputs.len()
            }
        &&& forall|i: int, s: int|
            0 <= i < self.nodes.len() && 0 <= s < self.nodes[i].outputs.len() ==> (
            #[trigger] self.nodes[i].outputs[s]).fact == other.nodes[i].outputs[s].fact
    }

    /// A source added to a well-formed graph leaves it well formed.
    pub proof fn lemma_add_source_wf(self, name: Seq<char>, fact: FactView)
        requires
            self.wf(),
            self.nodes.len() < usize::MAX,
        ensures
            self.add_source(name, fact).wf(),
    {
        let g = self.add_node(name, OperatorKind::Source, seq![fact]);
        let after = self.add_source(name, fact);
        self.lemma_add_node_wf(name, OperatorKind::Source, seq![fact]);
        assert forall|i: int, k: int|
            0 <= i < after.nodes.len() && 0 <= k < after.nodes[i].inputs.len()
                implies #[trigger] after.input_ok(i, k) by {
            assert(g.input_ok(i, k));
        }
        assert forall|n: int, s: int, j: int|
            0 <= n < after.nodes.len() && 0 <= s < after.nodes[n].outputs.len() && 0 <= j
                < after.nodes[n].outputs[s].successors.len()
                implies #[trigger] after.successor_ok(n, s, j) by {
            assert(g.successor_ok(n, s, j));
        }
        assert forall|k: int| 0 <= k < after.inputs.len() implies after.has_outlet(
            #[trigger] after.inputs[k],
        ) by {
            if k < g.inputs.len() {
                assert(g.has_outlet(g.inputs[k]));
            } else {
                assert(after.nodes[self.nodes.len() as int].outputs.len() == 1);
            }
        }
        assert forall|k: int| 0 <= k < after.outputs.len() implies after.has_outlet(
            #[trigger] after.outputs[k],
        ) by {
            assert(g.has_outlet(g.outputs[k]));
        }
    }

    /// The two graphs declare as many inputs and as many outputs, and each
    /// declared input and output carries the same fact in both.
    pub open spec fn same_interface(self, other: GraphView<V>) -> bool {
        &&& self.inputs.len() == other.inputs.len()
        &&& self.outputs.len() == other.outputs.len()
        &&& forall|k: int|
            0 <= k < self.inputs.len() ==> self.outlet(#[trigger] self.inputs[k]).fact
                == other.outlet(other.inputs[k]).fact
        &&& forall|k: int|
            0 <= k < self.outputs.len() ==> self.outlet(#[trigger] self.outputs[k]).fact
                == other.outlet(other.outputs[k]).fact
    }

    /// Declaring other outputs, all of them outlets of the graph, keeps
    /// the graph well formed.
    pub proof fn lemma_with_outputs_wf(self, outputs: Seq<OutletId>)
        requires
            self.wf(),
            forall|k: int| 0 <= k < outputs.len() ==> self.has_outlet(#[trigger] outputs[k]),
        ensures
            (GraphView { outputs, ..self }).wf(),
    {
        let g = GraphView { outputs, ..self };
        assert forall|i: int, k: int|
            0 <= i < g.nodes.len() && 0 <= k < g.nodes[i].inputs.len() implies #[trigger] g.input_ok(
            i,
            k,
        ) by {
            assert(self.input_ok(i, k));
        }
        assert forall|n: int, s: int, j: int|
            0 <= n < g.nodes.len() && 0 <= s < g.nodes[n].outputs.len() && 0 <= j
                < g.nodes[n].outputs[s].successors.len() implies #[trigger] g.successor_ok(
            n,
            s,
            j,
        ) by {
            assert(self.successor_ok(n, s, j));
        }
        assert forall|k: int| 0 <= k < g.inputs.len() implies g.has_outlet(
            #[trigger] g.inputs[k],
        ) by {
            assert(self.has_outlet(self.inputs[k]));
        }
    }

    /// Declaring other inputs, all of them outlets of the graph, keeps the
    /// graph well formed.
    pub proof fn lemma_with_inputs_wf(self, inputs: Seq<OutletId>)
        requires
            self.wf(),
            forall|k: int| 0 <= k < inputs.len() ==> self.has_outlet(#[trigger] inputs[k]),
        ensures
            (GraphView { inputs, ..self }).wf(),
    {
        let g = GraphView { inputs, ..self };
        assert forall|i: int, k: int|
            0 <= i < g.nodes.len() && 0 <= k < g.nodes[i].inputs.len() implies #[trigger] g.input_ok(
            i,
            k,
        ) by {
            assert(self.input_ok(i, k));
        }
        assert forall|n: int, s: int, j: int|
            0 <= n < g.nodes.len() && 0 <= s < g.nodes[n].outputs.len() && 0 <= j
                < g.nodes[n].outputs[s].successors.len() implies #[trigger] g.successor_ok(
            n,
            s,
            j,
        ) by {
            assert(self.successor_ok(n, s, j));
        }
        assert forall|k: int| 0 <= k < g.outputs.len() implies g.has_outlet(
            #[trigger] g.outputs[k],
        ) by {
            assert(self.has_outlet(self.outputs[k]));
        }
    }

    /// The graph with the first `upto` outlets of `inputs` wired, in
    /// order, to the input slots of node `node`.
    pub open spec fn wire_inputs(self, node: usize, inputs: Seq<OutletId>, upto: int) -> GraphView<
        V,
    >
        decreases upto,
    {
        if upto <= 0 {
            self
        } else {
            self.wire_inputs(node, inputs, upto - 1).add_edge(
                inputs[upto - 1],
                InletId { node, slot: (upto - 1) as usize },
            )
        }
    }

    pub proof fn lemma_add_edge_frame(self, outlet: OutletId, inlet: InletId)
        requires
            self.accepts_edge(outlet, inlet),
        ensures
            self.add_edge(outlet, inlet).same_but_edges(self),
            self.add_edge(outlet, inlet).nodes[inlet.node as int].inputs
                == self.nodes[inlet.node as int].inputs.push(outlet),
            forall|i: int|
                0 <= i < self.nodes.len() && i != inlet.node ==> (#[trigger] self.add_edge(
                    outlet,
                    inlet,
                ).nodes[i]).inputs == self.nodes[i].inputs,
    {
    }

    pub proof fn lemma_wire_inputs(self, node: usize, inputs: Seq<OutletId>, upto: int)
        requires
            self.wf(),
            node < self.nodes.len(),
            self.nodes[node as int].inputs.len() == 0,
            0 <= upto <= inputs.len() <= usize::MAX,
            forall|k: int| 0 <= k < inputs.len() ==> self.has_outlet(#[trigger] inputs[k]),
        ensures
            self.wire_inputs(node, inputs, upto).wf(),
            self.wire_inputs(node, inputs, upto).same_but_edges(self),
            self.wire_inputs(node, inputs, upto).nodes[node as int].inputs == inputs.take(upto),
            forall|i: int|
                0 <= i < self.nodes.len() && i != node ==> (#[trigger] self.wire_inputs(
                    node,
                    inputs,
                    upto,
                ).nodes[i]).inputs == self.nodes[i].inputs,
            upto > 0 ==> self.wire_inputs(node, inputs, upto - 1).accepts_edge(
                inputs[upto - 1],
                InletId { node, slot: (upto - 1) as usize },
            ),
        decreases upto,
    {
        if upto <= 0 {
            assert(inputs.take(0) =~= Seq::<OutletId>::empty());
            assert(self.nodes[node as int].inputs =~= inputs.take(0));
        } else {
            let prev = self.wire_inputs(node, inputs, upto - 1);
            let outlet = inputs[upto - 1];
            let inlet = InletId { node, slot: (upto - 1) as usize };
            self.lemma_wire_inputs(node, inputs, upto - 1);
            assert(self.has_outlet(outlet));
            assert(prev.accepts_edge(outlet, inlet));
            prev.lemma_add_edge_wf(outlet, inlet);
            prev.lemma_add_edge_frame(outlet, inlet);
            let g = prev.add_edge(outlet, inlet);
            assert(g.nodes[node as int].inputs =~= inputs.take(upto));
            assert forall|i: int| 0 <= i < self.nodes.len() && i != node implies (
            #[trigger] g.nodes[i]).inputs == self.nodes[i].inputs by {
                assert(prev.nodes[i].inputs == self.nodes[i].inputs);
            }
        }
    }

    pub proof fn lemma_obliterate_wf(self, node: int)
        requires
            self.wf(),
            0 <= node < self.nodes.len(),
        ensures
            self.obliterate(node).wf(),
    {
        let g = self.obliterate(node);
        assert forall|i: int, k: int|
            0 <= i < g.nodes.len() && 0 <= k < g.nodes[i].inputs.len() implies #[trigger] g.input_ok(
            i,
            k,
        ) by {
            assert(self.input_ok(i, k));
        }
        assert forall|n: int, s: int, j: int|
            0 <= n < g.nodes.len() && 0 <= s < g.nodes[n].outputs.len() && 0 <= j
                < g.nodes[n].outputs[s].successors.len() implies #[trigger] g.successor_ok(
            n,
            s,
            j,
        ) by {
            assert(self.successor_ok(n, s, j));
        }
        assert forall|k: int| 0 <= k < g.inputs.len() implies g.has_outlet(
            #[trigger] g.inputs[k],
        ) by {
            assert(self.has_outlet(self.inputs[k]));
        }
        assert forall|k: int| 0 <= k < g.outputs.len() implies g.has_outlet(
            #[trigger] g.outputs[k],
        ) by {
            assert(self.has_outlet(self.outputs[k]));
        }
    }
}

impl<U: View> Default for Graph<U> {
    /// The empty graph.
    fn default() -> (r: Graph<U>)
        ensures
            r@ == GraphView::<U::V>::empty(),
            r.wf(),
    {
        Graph::new()
    }
}

fn fresh_outlet_vec(facts: Vec<TypedFact>) -> (r: Vec<Outlet>)
    ensures
        Seq::new(r@.len(), |i: int| r@[i]@) == fresh_outlets(
            fact_views(facts@),
        ),
{
    let ghost views = fact_views(facts@);
    let mut outlets: Vec<Outlet> = Vec::new();
    for fact in it: facts
        invariant
            it.seq() == facts@,
            outlets@.len() == it.index(),
            forall|i: int|
                0 <= i < outlets@.len() ==> (#[trigger] outlets@[i])@ == (OutletView {
                    fact: facts@[i]@,
                    successors: Seq::empty(),
                }),
    {
        outlets.push(Outlet { fact, successors: Vec::new() });
    }
    assert(Seq::new(outlets@.len(), |i: int| outlets@[i]@) =~= fresh_outlets(views));
    outlets
}

impl<U: View> Graph<U> {
    pub open spec fn wf(&self) -> bool {
        self@.wf()
    }

    /// The empty graph.
    pub fn new() -> (r: Graph<U>)
        ensures
            r@ == GraphView::<U::V>::empty(),
            r.wf(),
    {
        let g = Graph { nodes: Vec::new(), inputs: Vec::new(), outputs: Vec::new() };
        assert(g@.nodes =~= Seq::empty());
        g
    }

    /// Inserts a node with the operator `op` and the output facts
    /// `output_facts`, with no input wired yet, and returns its index.
    pub fn add_node(&mut self, name: &str, op: OperatorKind<U>, output_facts: Vec<TypedFact>) -> (r:
        TractResult<usize>)
        requires
            old(self).wf(),
        ensures
            r == Ok::<usize, TractError>(old(self).nodes.len()),
            final(self)@ == old(self)@.add_node(
                name@,
                op@,
                fact_views(output_facts@),
            ),
            final(self).wf(),
    {
        let id = self.nodes.len();
        let ghost facts = fact_views(output_facts@);
        let outputs = fresh_outlet_vec(output_facts);
        let node = Node { id, name: name.to_owned(), inputs: Vec::new(), op, outputs };
        assert(node@.outputs == fresh_outlets(facts));
        self.nodes.push(node);
        proof {
            assert(self.nodes.len() == old(self).nodes.len() + 1);
            assert(self@.nodes =~= old(self)@.add_node(name@, op@, facts).nodes);
            old(self)@.lemma_add_node_wf(name@, op@, facts);
        }
        Ok(id)
    }

    /// Creates a node without inputs and with one output that carries
    /// `fact`, and declares that output a graph input.
    pub fn add_source(&mut self, name: &str, fact: TypedFact) -> (r: TractResult<OutletId>)
        requires
            old(self).wf(),
        ensures
            r == Ok::<OutletId, TractError>(OutletId { node: old(self).nodes.len(), slot: 0 }),
            final(self)@ == old(self)@.add_source(name@, fact@),
            final(self).wf(),
    {
        let ghost view = fact@;
        let mut facts: Vec<TypedFact> = Vec::new();
        facts.push(fact);
        assert(fact_views(facts@) =~= seq![view]);
        let id = match self.add_node(name, OperatorKind::Source, facts) {
            Ok(id) => id,
            Err(e) => {
                return Err(e);
            },
        };
        let id = OutletId::new(id, 0);
        self.inputs.push(id);
        proof {
            let g = old(self)@.add_node(name@, OperatorKind::Source, seq![view]);
            assert(self@.nodes.len() == self.nodes.len());
            assert(self@.nodes =~= g.nodes);
            assert(self@.inputs =~= g.inputs.push(id));
            assert(self@ == old(self)@.add_source(name@, view));
            old(self)@.lemma_add_source_wf(name@, view);
        }
        Ok(id)
    }

    /// Records the edge from `outlet` to `inlet` at both ends. The outlet
    /// must be in the graph, and the inlet must be the next free input slot
    /// of its node: edges are added in slot order.
    pub fn add_edge(&mut self, outlet: OutletId, inlet: InletId) -> (r: TractResult<()>)
        requires
            old(self).wf(),
        ensures
            match r {
                Ok(_) => old(self)@.accepts_edge(outlet, inlet) && final(self)@ == old(
                    self,
                )@.add_edge(outlet, inlet),
                Err(e) => {
                    &&& !old(self)@.accepts_edge(outlet, inlet)
                    &&& final(self)@ == old(self)@
                    &&& e == if old(self)@.has_outlet(outlet) {
                        TractError::NonSequentialInlet
                    } else {
                        TractError::OutletNotFound
                    }
                },
            },
            final(self).wf(),
    {
        if outlet.node >= self.nodes.len() || outlet.slot >= self.nodes[outlet.node].outputs.len() {
            return Err(TractError::OutletNotFound);
        }
        if inlet.node >= self.nodes.len() || inlet.slot != self.nodes[inlet.node].inputs.len()
            || inlet.slot == usize::MAX {
            return Err(TractError::NonSequentialInlet);
        }
        self.nodes[outlet.node].outputs[outlet.slot].successors.push(inlet);
        proof {
            assert(self@.nodes =~= old(self)@.add_successor(outlet, inlet).nodes) by {
                let g = old(self)@.add_successor(outlet, inlet);
                assert forall|i: int| 0 <= i < self@.nodes.len() implies self@.nodes[i]
                    == g.nodes[i] by {
                    if i == outlet.node {
                        assert(self@.nodes[i].outputs =~= g.nodes[i].outputs);
                    }
                }
            }
        }
        let ghost mid = self@;
        self.nodes[inlet.node].inputs.push(outlet);
        proof {
            assert(self@.nodes =~= mid.add_input(inlet.node, outlet).nodes) by {
                let g = mid.add_input(inlet.node, outlet);
                assert forall|i: int| 0 <= i < self@.nodes.len() implies self@.nodes[i]
                    == g.nodes[i] by {
                    if i == inlet.node {
                        assert(self@.nodes[i].outputs =~= g.nodes[i].outputs);
                    }
                }
            }
            old(self)@.lemma_add_edge_wf(outlet, inlet);
        }
        Ok(())
    }

    /// The declared graph inputs.
    pub fn input_outlets(&self) -> (r: TractResult<&[OutletId]>)
        ensures
            r matches Ok(s) && s@ == self@.inputs,
    {
        Ok(self.inputs.as_slice())
    }

    /// The declared graph outputs.
    pub fn output_outlets(&self) -> (r: TractResult<&[OutletId]>)
        ensures
            r matches Ok(s) && s@ == self@.outputs,
    {
        Ok(self.outputs.as_slice())
    }

    /// Whether every outlet of `outlets` is in the graph.
    fn has_outlets(&self, outlets: &[OutletId]) -> (r: bool)
        ensures
            r == forall|k: int| 0 <= k < outlets@.len() ==> self@.has_outlet(#[trigger] outlets@[k]),
    {
        let mut k: usize = 0;
        while k < outlets.len()
            invariant
                k <= outlets.len(),
                forall|j: int| 0 <= j < k ==> self@.has_outlet(#[trigger] outlets@[j]),
            decreases outlets.len() - k,
        {
            let o = outlets[k];
            if o.node >= self.nodes.len() || o.slot >= self.nodes[o.node].outputs.len() {
                assert(!self@.has_outlet(outlets@[k as int]));
                return false;
            }
            k += 1;
        }
        true
    }

    /// Declares `inputs` the graph inputs. Each must be an outlet of the
    /// graph.
    pub fn set_input_outlets(&mut self, inputs: &[OutletId]) -> (r: TractResult<()>)
        requires
            old(self).wf(),
        ensures
            match r {
                Ok(_) => final(self)@ == (GraphView { inputs: inputs@, ..old(self)@ }),
                Err(e) => e == TractError::OutletNotFound && final(self)@ == old(self)@,
            },
            r is Ok <==> forall|k: int|
                0 <= k < inputs@.len() ==> old(self)@.has_outlet(#[trigger] inputs@[k]),
            final(self).wf(),
    {
        if !self.has_outlets(inputs) {
            return Err(TractError::OutletNotFound);
        }
        self.inputs = slice_to_vec(inputs);
        proof {
            assert(self@.nodes =~= old(self)@.nodes);
            old(self)@.lemma_with_inputs_wf(inputs@);
        }
        Ok(())
    }

    /// Declares `outputs` the graph outputs. Each must be an outlet of the
    /// graph.
    pub fn set_output_outlets(&mut self, outputs: &[OutletId]) -> (r: TractResult<()>)
        requires
            old(self).wf(),
        ensures
            match r {
                Ok(_) => final(self)@ == (GraphView { outputs: outputs@, ..old(self)@ }),
                Err(e) => e == TractError::OutletNotFound && final(self)@ == old(self)@,
            },
            r is Ok <==> forall|k: int|
                0 <= k < outputs@.len() ==> old(self)@.has_outlet(#[trigger] outputs@[k]),
            final(self).wf(),
    {
        if !self.has_outlets(outputs) {
            return Err(TractError::OutletNotFound);
        }
        self.outputs = slice_to_vec(outputs);
        proof {
            assert(self@.nodes =~= old(self)@.nodes);
            old(self)@.lemma_with_outputs_wf(outputs@);
        }
        Ok(())
    }

    /// The node at index `id`.
    pub fn node(&self, id: usize) -> (r: &Node<U>)
        requires
            id < self.nodes@.len(),
        ensures
            *r == self.nodes@[id as int],
    {
        &self.nodes[id]
    }

    /// The node table.
    pub fn nodes(&self) -> (r: &[Node<U>])
        ensures
            r@ == self.nodes@,
    {
        self.nodes.as_slice()
    }

    /// The fact of `outlet`. The outlet must be in the graph, on a node
    /// that was not replaced by a placeholder.
    pub fn outlet_fact(&self, outlet: OutletId) -> (r: TractResult<&TypedFact>)
        ensures
            match r {
                Ok(f) => self@.is_live(outlet) && f@ == self@.outlet(outlet).fact,
                Err(e) => e == TractError::OutletNotFound && !self@.is_live(outlet),
            },
    {
        if outlet.node >= self.nodes.len() {
            return Err(TractError::OutletNotFound);
        }
        let node = &self.nodes[outlet.node];
        if outlet.slot >= node.outputs.len() {
            return Err(TractError::OutletNotFound);
        }
        match node.op {
            OperatorKind::Placeholder => Err(TractError::OutletNotFound),
            _ => Ok(&node.outputs[outlet.slot].fact),
        }
    }

    /// Wires the outlets `inputs`, in order, to the input slots of node
    /// `node`, which has no input yet.
    pub fn wire_inputs(&mut self, node: usize, inputs: &[OutletId])
        requires
            old(self).wf(),
            node < old(self).nodes@.len(),
            old(self)@.nodes[node as int].inputs.len() == 0,
            forall|k: int| 0 <= k < inputs@.len() ==> old(self)@.has_outlet(#[trigger] inputs@[k]),
        ensures
            final(self)@ == old(self)@.wire_inputs(node, inputs@, inputs@.len() as int),
            final(self).wf(),
    {
        let mut k: usize = 0;
        while k < inputs.len()
            invariant
                k <= inputs.len(),
                old(self).wf(),
                node < old(self).nodes@.len(),
                old(self)@.nodes[node as int].inputs.len() == 0,
                forall|j: int|
                    0 <= j < inputs@.len() ==> old(self)@.has_outlet(#[trigger] inputs@[j]),
                self@ == old(self)@.wire_inputs(node, inputs@, k as int),
                self.wf(),
            decreases inputs.len() - k,
        {
            proof {
                old(self)@.lemma_wire_inputs(node, inputs@, k as int + 1);
            }
            let r = self.add_edge(inputs[k], InletId { node, slot: k });
            assert(r is Ok);
            k += 1;
        }
    }

    /// Replaces the operator of node `node` by a placeholder. The node
    /// keeps its index and its edges.
    pub fn obliterate(&mut self, node: usize)
        requires
            old(self).wf(),
            node < old(self).nodes@.len(),
        ensures
            final(self)@ == old(self)@.obliterate(node as int),
            final(self).wf(),
    {
        self.nodes[node].op = OperatorKind::Placeholder;
        proof {
            let g = old(self)@.obliterate(node as int);
            assert(self@.nodes =~= g.nodes) by {
                assert forall|i: int| 0 <= i < self@.nodes.len() implies self@.nodes[i]
                    == g.nodes[i] by {
                    if i == node {
                        assert(self@.nodes[i].outputs =~= g.nodes[i].outputs);
                    }
                }
            }
            old(self)@.lemma_obliterate_wf(node as int);
        }
    }
}

} // verus!
