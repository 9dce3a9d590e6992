//! Compacting a compacted graph changes nothing.

use crate::error::TractError;
use crate::graph::{GraphView, OutletId};
use crate::order::{lemma_schedule_renumbered, place, place_outlet, renumbered};
use crate::stable::{lemma_compacted_sane, lemma_copy_holds_input, sane};
use crate::translate::{remap, remap_all};
use vstd::prelude::*;

verus! {

/// The nodes of a graph of `n` nodes, each at its own place.
pub open spec fn in_place(n: nat) -> Seq<usize> {
    Seq::new(n, |i: int| i as usize)
}

/// Compaction gives the graph itself.
pub open spec fn is_compact<V>(g: GraphView<V>) -> bool {
    g.compaction() == Ok::<GraphView<V>, TractError>(g)
}

/// A node in place stands at its own index.
proof fn lemma_in_place(n: nat, x: usize)
    requires
        x < n,
        n <= usize::MAX,
    ensures
        in_place(n).no_duplicates(),
        in_place(n).index_of(x) == x,
{
    let id = in_place(n);
    assert(id[x as int] == x);
    let i = id.index_of(x);
    assert(0 <= i < id.len() && id[i] == x);
}

/// Renumbering by the nodes in place changes no outlet.
proof fn lemma_remap_in_place(n: nat, outlets: Seq<OutletId>)
    requires
        n <= usize::MAX,
        forall|j: int| 0 <= j < outlets.len() ==> (#[trigger] outlets[j]).node < n,
    ensures
        remap_all(in_place(n), outlets) == outlets,
{
    assert forall|j: int| 0 <= j < outlets.len() implies remap_all(in_place(n), outlets)[j]
        == outlets[j] by {
        lemma_in_place(n, outlets[j].node);
    }
    assert(remap_all(in_place(n), outlets) =~= outlets);
}

/// The tables of a compacted graph are the tables of the graph over the
/// kept nodes, each under its place.
proof fn lemma_tables_renumbered<V>(g: GraphView<V>, kept: Seq<usize>)
    requires
        sane(g),
        g.keeps(kept),
    ensures
        renumbered(
            g.inputs_table(),
            g.input_nodes(),
            kept,
            g.compacted(kept).inputs_table(),
            g.compacted(kept).input_nodes(),
        ),
        g.compacted(kept).output_nodes() + g.compacted(kept).input_nodes() == (g.output_nodes()
            + g.input_nodes()).map_values(place(kept)),
        kept.map_values(place(kept)) == in_place(kept.len()),
        kept.len() <= usize::MAX,
{
    reveal(renumbered);
    let c = g.compacted(kept);
    let ins = g.inputs_table();
    let ins2 = c.inputs_table();
    g.lemma_compacted(kept);
    g.lemma_tables();
    c.lemma_tables();
    crate::order::lemma_valid_order_len(
        ins,
        Seq::empty(),
        g.input_nodes(),
        g.output_nodes() + g.input_nodes(),
        kept,
    );
    assert forall|k: int| 0 <= k < kept.len() implies #[trigger] ins2[k] == ins[kept[k] as int].map_values(
        place_outlet(kept),
    ) by {
        assert(g.copy_matches(kept, c, k));
        let row = g.nodes[kept[k] as int].inputs;
        if g.is_input_node(kept[k]) {
            assert(g.nodes[kept[k] as int].id == kept[k]);
            assert(row.len() == 0);
            assert(c.nodes[k].inputs =~= row.map_values(place_outlet(kept)));
        } else {
            assert(remap_all(kept, row) =~= row.map_values(place_outlet(kept)));
        }
    }
    assert forall|k: int, j: int|
        0 <= k < kept.len() && 0 <= j < ins[kept[k] as int].len() implies kept.contains(
        (#[trigger] ins[kept[k] as int][j]).node,
    ) by {
        if g.is_input_node(kept[k]) {
            assert(g.nodes[kept[k] as int].id == kept[k]);
        } else {
            assert(g.wire_kept(kept, k, j));
            let x = g.nodes[kept[k] as int].inputs[j].node;
            let w = choose|w: int| 0 <= w < kept.take(k).len() && kept.take(k)[w] == x;
            assert(kept[w] == x);
        }
    }
    assert forall|k: int| 0 <= k < kept.len() implies (c.input_nodes().contains(k as usize)
        <==> g.input_nodes().contains(#[trigger] kept[k])) by {
        lemma_copy_holds_input(g, kept, k);
    }
    assert(c.output_nodes() + c.input_nodes() =~= (g.output_nodes() + g.input_nodes()).map_values(
        place(kept),
    ));
    assert forall|k: int| 0 <= k < kept.len() implies kept.map_values(place(kept))[k] == in_place(
        kept.len(),
    )[k] by {
        let i = kept.index_of(kept[k]);
        assert(0 <= i < kept.len() && kept[i] == kept[k]);
    }
    assert(kept.map_values(place(kept)) =~= in_place(kept.len()));
}

/// Rebuilding a compacted graph along its nodes in place builds it again.
proof fn lemma_translated_again<V>(g: GraphView<V>, kept: Seq<usize>, upto: int)
    requires
        sane(g),
        g.keeps(kept),
        0 <= upto <= kept.len(),
    ensures
        g.compacted(kept).translated(in_place(kept.len()), upto) == g.translated(kept, upto),
    decreases upto,
{
    if upto > 0 {
        lemma_translated_again(g, kept, upto - 1);
        let c = g.compacted(kept);
        let id = in_place(kept.len());
        let k = upto - 1;
        g.lemma_compacted(kept);
        crate::order::lemma_valid_order_len(
            g.inputs_table(),
            Seq::empty(),
            g.input_nodes(),
            g.output_nodes() + g.input_nodes(),
            kept,
        );
        assert(id[k] == k as usize);
        assert(g.copy_matches(kept, c, k));
        lemma_copy_holds_input(g, kept, k);
        if !g.is_input_node(kept[k]) {
            let row = c.nodes[k].inputs;
            assert forall|j: int| 0 <= j < row.len() implies (#[trigger] row[j]).node
                < kept.len() by {
                assert(c.input_ok(k, j));
            }
            lemma_remap_in_place(kept.len(), row);
        }
    }
}

/// The evaluation order of a compacted graph is the evaluation order of
/// the graph, each node under its place among the kept nodes.
pub proof fn lemma_scheduled_renumbered<V>(g: GraphView<V>, kept: Seq<usize>)
    requires
        sane(g),
        g.keeps(kept),
    ensures
        match g.scheduled() {
            Some(o) => {
                &&& g.compacted(kept).scheduled() == Some(o.map_values(place(kept)))
                &&& forall|i: int| 0 <= i < o.len() ==> kept.contains(#[trigger] o[i])
            },
            None => g.compacted(kept).scheduled() is None,
        },
{
    let c = g.compacted(kept);
    let outs = g.output_nodes();
    g.lemma_compacted(kept);
    g.lemma_tables();
    lemma_tables_renumbered(g, kept);
    assert forall|j: int| 0 <= j < outs.len() implies kept.contains(#[trigger] outs[j]) by {
        assert((g.output_nodes() + g.input_nodes())[j] == outs[j]);
    }
    assert(c.output_nodes() =~= outs.map_values(place(kept)));
    lemma_schedule_renumbered(
        g.inputs_table(),
        g.input_nodes(),
        kept,
        c.inputs_table(),
        c.input_nodes(),
        outs,
        outs.len() as int,
    );
}

/// Compacting a sane graph gives a graph that compaction leaves as it is.
pub proof fn lemma_compacted_is_compact<V>(g: GraphView<V>)
    requires
        sane(g),
        g.compaction() is Ok,
    ensures
        is_compact(g.compaction()->Ok_0),
{
    g.lemma_kept_nodes();
    let kept = g.kept_nodes()->0;
    let c = g.compacted(kept);
    let id = in_place(kept.len());
    let targets = g.output_nodes() + g.input_nodes();
    g.lemma_compacted(kept);
    g.lemma_tables();
    lemma_compacted_sane(g, kept);
    lemma_tables_renumbered(g, kept);
    lemma_schedule_renumbered(
        g.inputs_table(),
        g.input_nodes(),
        kept,
        c.inputs_table(),
        c.input_nodes(),
        targets,
        targets.len() as int,
    );
    assert((c.output_nodes() + c.input_nodes()).len() == targets.len());
    assert(c.kept_nodes() == Some(id));
    assert forall|k: int, j: int|
        0 <= k < id.len() && 0 <= j < c.nodes[id[k] as int].inputs.len()
        implies #[trigger] c.wire_kept(id, k, j) by {
        assert(id[k] == k as usize);
        assert(g.copy_matches(kept, c, k));
        lemma_copy_holds_input(g, kept, k);
        if !c.is_input_node(id[k]) {
            assert(g.wire_kept(kept, k, j));
            let x = g.nodes[kept[k] as int].inputs[j].node;
            let w = choose|w: int| 0 <= w < kept.take(k).len() && kept.take(k)[w] == x;
            assert(kept[w] == x);
            let i = kept.index_of(x);
            assert(0 <= i < kept.len() && kept[i] == x);
            assert(c.nodes[k].inputs[j] == remap(kept, g.nodes[kept[k] as int].inputs[j]));
            assert(id.take(k)[w] == w as usize);
        }
    }
    lemma_translated_again(g, kept, kept.len() as int);
    assert forall|j: int| 0 <= j < c.inputs.len() implies (#[trigger] c.inputs[j]).node
        < kept.len() by {
        assert(c.has_outlet(c.inputs[j]));
    }
    assert forall|j: int| 0 <= j < c.outputs.len() implies (#[trigger] c.outputs[j]).node
        < kept.len() by {
        assert(c.has_outlet(c.outputs[j]));
    }
    lemma_remap_in_place(kept.len(), c.inputs);
    lemma_remap_in_place(kept.len(), c.outputs);
    assert(c.compacted(id) == c);
}

} // verus!
