//! What compaction keeps or brings about: sources at the declared
//! inputs, the absence of cycles, and no node that nothing needs.

use crate::graph::{GraphView, OutletId};
use crate::order::{
    dependencies, is_inner, is_lasso, is_leaf, lemma_input_targets_add_no_cycle,
    lemma_producers_are_dependencies, lemma_valid_order_excludes_cycle, lemma_valid_order_len,
    producer, traversed,
};
use crate::translate::{declared, remap};
use vstd::prelude::*;

verus! {

/// The graph is well formed and its nodes can be counted in a machine
/// word.
pub open spec fn countable<V>(g: GraphView<V>) -> bool {
    g.wf() && g.nodes.len() <= usize::MAX
}

/// A node whose outputs are all declared graph inputs is a source without
/// inputs.
pub open spec fn inputs_are_bare_sources<V>(g: GraphView<V>) -> bool {
    forall|i: int|
        0 <= i < g.nodes.len() && g.is_input_node((#[trigger] g.nodes[i]).id) ==> {
            &&& g.nodes[i].op is Source
            &&& g.nodes[i].inputs.len() == 0
        }
}

/// The graph is countable, and a node whose outputs are all declared
/// inputs is a source without inputs.
pub open spec fn sane<V>(g: GraphView<V>) -> bool {
    countable(g) && inputs_are_bare_sources(g)
}

/// A node of a sane graph whose outputs are all declared inputs is a
/// source without inputs.
pub proof fn lemma_input_node_is_source<V>(g: GraphView<V>, x: usize)
    requires
        sane(g),
        g.is_input_node(x),
    ensures
        x < g.nodes.len(),
        g.nodes[x as int].op is Source,
        g.nodes[x as int].inputs.len() == 0,
{
    assert(g.nodes[x as int].id == x);
}

/// The copy of a node holds a declared input exactly where the node does,
/// and has all its outputs among the declared inputs exactly where the
/// node has.
pub proof fn lemma_copy_holds_input<V>(g: GraphView<V>, kept: Seq<usize>, k: int)
    requires
        countable(g),
        g.keeps(kept),
        0 <= k < kept.len(),
    ensures
        g.compacted(kept).holds_input(k as usize) == g.holds_input(kept[k]),
        g.compacted(kept).is_input_node(k as usize) == g.is_input_node(kept[k]),
{
    let c = g.compacted(kept);
    let targets = g.output_nodes() + g.input_nodes();
    g.lemma_compacted(kept);
    lemma_valid_order_len(g.inputs_table(), Seq::empty(), g.input_nodes(), targets, kept);
    assert(g.copy_matches(kept, c, k));
    assert(kept.index_of(kept[k]) == k) by {
        let i = kept.index_of(kept[k]);
        assert(0 <= i < kept.len() && kept[i] == kept[k]);
    }
    if !g.holds_input(kept[k]) {
        lemma_copy_holds_no_input(g, kept, k);
    } else {
        let nodes = g.input_nodes();
        let a = choose|a: int| 0 <= a < nodes.len() && nodes[a] == kept[k];
        assert(g.inputs[a].node == kept[k]);
        assert(c.inputs[a] == remap(kept, g.inputs[a]));
        assert(c.input_nodes()[a] == k as usize);
    }
    if g.is_input_node(kept[k]) {
        assert forall|s: int| 0 <= s < c.nodes[k].outputs.len() implies #[trigger] declared(
            c.inputs,
            k as usize,
            s,
        ) by {
            assert(declared(g.inputs, kept[k], s));
            let w = OutletId { node: kept[k], slot: s as usize };
            let a = choose|a: int| 0 <= a < g.inputs.len() && g.inputs[a] == w;
            assert(c.inputs[a] == remap(kept, w));
        }
    }
    if c.is_input_node(k as usize) {
        assert forall|s: int|
            0 <= s < g.nodes[kept[k] as int].outputs.len() implies #[trigger] declared(
            g.inputs,
            kept[k],
            s,
        ) by {
            assert(declared(c.inputs, k as usize, s));
            let w = OutletId { node: k as usize, slot: s as usize };
            let a = choose|a: int| 0 <= a < c.inputs.len() && c.inputs[a] == w;
            let o = g.inputs[a];
            assert(c.inputs[a] == remap(kept, o));
            assert(g.input_nodes()[a] == o.node);
            assert(targets[g.output_nodes().len() + a] == o.node);
            assert(kept.contains(o.node));
            let p = kept.index_of(o.node);
            assert(kept[p] == o.node);
            assert(p == k);
        }
    }
}

/// Without forced dependencies, every node that a node waits for produces
/// one of its inputs.
pub proof fn lemma_dependencies_are_producers(ins: Seq<Seq<OutletId>>, n: usize, b: usize) -> (j:
    int)
    requires
        n < ins.len(),
        dependencies(ins, Seq::empty(), n).contains(b),
    ensures
        0 <= j < ins[n as int].len(),
        ins[n as int][j].node == b,
{
    broadcast use Seq::lemma_filter_contains_rev;

    let row = ins[n as int];
    let a = row.filter(is_inner(ins));
    let e = Seq::<(usize, usize)>::empty().filter(crate::order::is_forced_on(n));
    let c = row.filter(is_leaf(ins));
    let am = a.map_values(producer());
    let em = e.map_values(crate::order::forced_target());
    let cm = c.map_values(producer());
    let all = am + em + cm;
    Seq::<(usize, usize)>::empty().lemma_filter_len(crate::order::is_forced_on(n));
    assert(e.len() == 0);
    let w = choose|w: int| 0 <= w < all.len() && all[w] == b;
    if w < am.len() {
        assert(am[w] == b);
        assert(a.contains(a[w]));
        assert(row.contains(a[w]));
        let j = choose|j: int| 0 <= j < row.len() && row[j] == a[w];
        j
    } else {
        let v = w - am.len() - em.len();
        assert(cm[v] == b);
        assert(c.contains(c[v]));
        assert(row.contains(c[v]));
        let j = choose|j: int| 0 <= j < row.len() && row[j] == c[v];
        j
    }
}

/// Compaction turns the nodes whose outputs are all declared inputs into
/// sources without inputs.
pub proof fn lemma_compacted_sane<V>(g: GraphView<V>, kept: Seq<usize>)
    requires
        countable(g),
        g.keeps(kept),
    ensures
        sane(g.compacted(kept)),
{
    let after = g.compacted(kept);
    g.lemma_compacted(kept);
    lemma_valid_order_len(
        g.inputs_table(),
        Seq::empty(),
        g.input_nodes(),
        g.output_nodes() + g.input_nodes(),
        kept,
    );
    assert forall|i: int|
        0 <= i < after.nodes.len() && after.is_input_node(
            (#[trigger] after.nodes[i]).id,
        ) implies after.nodes[i].op is Source && after.nodes[i].inputs.len() == 0 by {
        assert(g.copy_matches(kept, after, i));
        lemma_copy_holds_input(g, kept, i);
    }
}

/// Every node of the graph is on the evaluation order `order` or holds a
/// declared input: the graph holds no node that nothing needs.
pub open spec fn needs_all<V>(g: GraphView<V>, order: Seq<usize>) -> bool {
    forall|i: int|
        0 <= i < g.nodes.len() ==> order.contains((#[trigger] g.nodes[i]).id) || g.holds_input(
            g.nodes[i].id,
        )
}

/// The graph has an evaluation order, and every node of it is on that
/// order or holds a declared input.
pub open spec fn tight<V>(g: GraphView<V>) -> bool {
    g.scheduled() matches Some(order) && needs_all(g, order)
}

/// A node whose outputs are all declared inputs holds a declared input.
pub proof fn lemma_whole_holds<V>(g: GraphView<V>, x: usize)
    requires
        g.is_input_node(x),
    ensures
        g.holds_input(x),
{
    assert(declared(g.inputs, x, 0));
    let o = OutletId { node: x, slot: 0 };
    let k = choose|k: int| 0 <= k < g.inputs.len() && g.inputs[k] == o;
    assert(g.input_nodes()[k] == x);
}

/// The copy of a node that holds no declared input holds none.
pub proof fn lemma_copy_holds_no_input<V>(g: GraphView<V>, kept: Seq<usize>, j: int)
    requires
        countable(g),
        g.keeps(kept),
        0 <= j < kept.len(),
        !g.holds_input(kept[j]),
    ensures
        !g.compacted(kept).holds_input(j as usize),
{
    let c = g.compacted(kept);
    if c.holds_input(j as usize) {
        let nodes = c.input_nodes();
        let a = choose|a: int| 0 <= a < nodes.len() && nodes[a] == j as usize;
        let o = g.inputs[a];
        assert(c.inputs[a] == remap(kept, o));
        assert(g.input_nodes()[a] == o.node);
        let targets = g.output_nodes() + g.input_nodes();
        assert(targets[g.output_nodes().len() + a] == o.node);
        assert(kept.contains(o.node));
        let p = kept.index_of(o.node);
        assert(kept[p] == o.node);
        lemma_valid_order_len(g.inputs_table(), Seq::empty(), g.input_nodes(), targets, kept);
        assert(nodes[a] == c.inputs[a].node);
        assert(p == j);
    }
}

/// Every node of a compacted graph is on its evaluation order or holds a
/// declared input of it.
pub proof fn lemma_copy_is_needed<V>(g: GraphView<V>, kept: Seq<usize>, order: Seq<usize>, k: int)
    requires
        countable(g),
        g.keeps(kept),
        g.compacted(kept).is_eval_order(order),
        0 <= k < kept.len(),
    ensures
        order.contains(k as usize) || g.compacted(kept).holds_input(k as usize),
    decreases kept.len() - k,
{
    let c = g.compacted(kept);
    let ins = g.inputs_table();
    let targets = g.output_nodes() + g.input_nodes();
    g.lemma_compacted(kept);
    lemma_valid_order_len(ins, Seq::empty(), g.input_nodes(), targets, kept);
    assert(kept.index_of(kept[k]) == k) by {
        let i = kept.index_of(kept[k]);
        assert(0 <= i < kept.len() && kept[i] == kept[k]);
    }
    if targets.contains(kept[k]) {
        let w = choose|w: int| 0 <= w < targets.len() && targets[w] == kept[k];
        if w < g.output_nodes().len() {
            assert(g.outputs[w].node == kept[k]);
            assert(c.outputs[w] == remap(kept, g.outputs[w]));
            assert(c.output_nodes()[w] == k as usize);
            assert(order.contains(c.output_nodes()[w]));
        } else {
            let a = w - g.output_nodes().len();
            assert(g.inputs[a].node == kept[k]);
            assert(c.inputs[a] == remap(kept, g.inputs[a]));
            assert(c.input_nodes()[a] == k as usize);
        }
    } else {
        let j = choose|j: int|
            k < j < kept.len() && traversed(
                ins,
                Seq::empty(),
                g.input_nodes(),
                #[trigger] kept[j],
                kept[k],
            );
        lemma_copy_is_needed(g, kept, order, j);
        lemma_copy_holds_no_input(g, kept, j);
        if g.is_input_node(kept[j]) {
            lemma_whole_holds(g, kept[j]);
        }
        let q = choose|q: int| 0 <= q < order.len() && order[q] == j as usize;
        let at = lemma_dependencies_are_producers(ins, kept[j], kept[k]);
        assert(g.copy_matches(kept, c, j));
        assert(c.nodes[j].inputs[at] == remap(kept, g.nodes[kept[j] as int].inputs[at]));
        assert(c.inputs_table()[j][at].node == k as usize);
        lemma_producers_are_dependencies(c.inputs_table(), Seq::empty(), j as usize, at);
        assert(traversed(c.inputs_table(), Seq::empty(), c.input_nodes(), order[q], k as usize));
        assert(order.take(q).contains(k as usize));
        let w = choose|w: int| 0 <= w < order.take(q).len() && order.take(q)[w] == k as usize;
        assert(order[w] == k as usize);
    }
}

/// A compacted graph without cycles holds no node that nothing needs.
pub proof fn lemma_compacted_tight<V>(g: GraphView<V>, kept: Seq<usize>)
    requires
        countable(g),
        g.keeps(kept),
        !g.compacted(kept).is_cyclic(),
    ensures
        tight(g.compacted(kept)),
{
    let c = g.compacted(kept);
    g.lemma_compacted(kept);
    c.lemma_scheduled();
    let order = c.scheduled()->0;
    assert forall|i: int| 0 <= i < c.nodes.len() implies order.contains(
        (#[trigger] c.nodes[i]).id,
    ) || c.holds_input(c.nodes[i].id) by {
        lemma_copy_is_needed(g, kept, order, i);
    }
}

/// The node of the compacted graph at each place of a walk stands for a
/// node of the graph, and the walk goes along dependencies of the graph.
proof fn lemma_walk_maps_back<V>(g: GraphView<V>, kept: Seq<usize>, path: Seq<usize>, i: int)
    requires
        countable(g),
        g.keeps(kept),
        path.len() >= 1,
        g.compacted(kept).output_nodes().contains(path[0]),
        crate::order::is_walk(
            g.compacted(kept).inputs_table(),
            Seq::empty(),
            g.compacted(kept).input_nodes(),
            path,
        ),
        0 <= i < path.len(),
    ensures
        path[i] < kept.len(),
        i > 0 ==> traversed(
            g.inputs_table(),
            Seq::empty(),
            g.input_nodes(),
            kept[path[i - 1] as int],
            kept[path[i] as int],
        ),
        i == 0 ==> g.output_nodes().contains(kept[path[0] as int]),
    decreases i,
{
    let after = g.compacted(kept);
    g.lemma_compacted(kept);
    if i == 0 {
        let outs = after.output_nodes();
        let k = choose|k: int| 0 <= k < outs.len() && outs[k] == path[0];
        assert(after.has_outlet(after.outputs[k]));
        let o = g.outputs[k];
        assert(g.output_nodes()[k] == o.node);
        let targets = g.output_nodes() + g.input_nodes();
        assert(targets[k] == o.node);
        assert(kept.contains(o.node));
        let p = kept.index_of(o.node);
        assert(kept[p] == o.node);
        assert(after.outputs[k] == remap(kept, o));
        assert(outs[k] == after.outputs[k].node);
        lemma_valid_order_len(
            g.inputs_table(),
            Seq::empty(),
            g.input_nodes(),
            g.output_nodes() + g.input_nodes(),
            kept,
        );
        assert(0 <= p < kept.len());
        assert(path[0] == p);
        assert(g.output_nodes()[k] == kept[path[0] as int]);
    } else {
        lemma_walk_maps_back(g, kept, path, i - 1);
        let a = path[i - 1];
        let b = path[i];
        let ins2 = after.inputs_table();
        assert(traversed(ins2, Seq::empty(), after.input_nodes(), a, b));
        let j = lemma_dependencies_are_producers(ins2, a, b);
        assert(after.input_ok(a as int, j));
        assert(g.copy_matches(kept, after, a as int));
        if g.is_input_node(kept[a as int]) {
            assert(after.nodes[a as int].inputs.len() == 0);
        } else {
            let old = g.nodes[kept[a as int] as int];
            lemma_copy_holds_input(g, kept, a as int);
            g.lemma_kept_inputs_precede(kept, a as int, j);
            let o = old.inputs[j];
            assert(after.nodes[a as int].inputs[j] == remap(kept, o));
            let p = kept.index_of(o.node);
            assert(kept[p] == o.node);
            lemma_producers_are_dependencies(g.inputs_table(), Seq::empty(), kept[a as int], j);
        }
    }
}

/// Neither a graph that can be compacted nor its compacted graph has a
/// cycle.
pub proof fn lemma_compacted_acyclic<V>(g: GraphView<V>, kept: Seq<usize>)
    requires
        countable(g),
        g.keeps(kept),
    ensures
        !g.compacted(kept).is_cyclic(),
        !g.is_cyclic(),
{
    let after = g.compacted(kept);
    let ins = g.inputs_table();
    lemma_valid_order_excludes_cycle(
        ins,
        Seq::empty(),
        g.input_nodes(),
        g.output_nodes() + g.input_nodes(),
        kept,
    );
    lemma_input_targets_add_no_cycle(ins, Seq::empty(), g.input_nodes(), g.output_nodes());
    if after.is_cyclic() {
        let path = choose|path: Seq<usize>|
            is_lasso(
                after.inputs_table(),
                Seq::empty(),
                after.input_nodes(),
                after.output_nodes(),
                path,
            );
        let back = Seq::new(path.len(), |i: int| kept[path[i] as int]);
        let last = path.len() - 1;
        let j = choose|j: int| 0 <= j < path.len() - 1 && #[trigger] path[j] == path[last];
        assert forall|i: int| 0 <= i < back.len() - 1 implies traversed(
            ins,
            Seq::empty(),
            g.input_nodes(),
            #[trigger] back[i],
            back[i + 1],
        ) by {
            lemma_walk_maps_back(g, kept, path, i + 1);
        }
        lemma_walk_maps_back(g, kept, path, 0);
        assert(back[j] == back[back.len() - 1]);
        assert(is_lasso(ins, Seq::empty(), g.input_nodes(), g.output_nodes(), back));
    }
}

} // verus!
