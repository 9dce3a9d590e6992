//! Evaluation order: a topological sort from the graph's outputs backward.

use crate::error::{TractError, TractResult};
use crate::graph::{Graph, GraphView, Node, OutletId};
use std::collections::HashSet;
use vstd::prelude::*;
use vstd::std_specs::hash::*;

verus! {

/// For each node, the outlets it consumes.
pub open spec fn inputs_table<U>(nodes: Seq<Node<U>>) -> Seq<Seq<OutletId>> {
    Seq::new(nodes.len(), |i: int| nodes[i].inputs@)
}

/// Whether the node that produces `o` has inputs of its own.
pub open spec fn is_inner(ins: Seq<Seq<OutletId>>) -> spec_fn(OutletId) -> bool {
    |o: OutletId| ins[o.node as int].len() > 0
}

/// Whether the node that produces `o` has no input.
pub open spec fn is_leaf(ins: Seq<Seq<OutletId>>) -> spec_fn(OutletId) -> bool {
    |o: OutletId| ins[o.node as int].len() == 0
}

pub open spec fn producer() -> spec_fn(OutletId) -> usize {
    |o: OutletId| o.node
}

/// Whether a forced dependency is one of node `n`.
pub open spec fn is_forced_on(n: usize) -> spec_fn((usize, usize)) -> bool {
    |a: (usize, usize)| a.0 == n
}

pub open spec fn forced_target() -> spec_fn((usize, usize)) -> usize {
    |a: (usize, usize)| a.1
}

/// The nodes that node `n` waits for, in the order in which they are
/// visited: first the producers of its inputs that have inputs themselves,
/// then the dependencies forced on it, then the producers without inputs.
pub open spec fn dependencies(ins: Seq<Seq<OutletId>>, more: Seq<(usize, usize)>, n: usize) -> Seq<
    usize,
> {
    ins[n as int].filter(is_inner(ins)).map_values(producer()) + more.filter(
        is_forced_on(n),
    ).map_values(forced_target()) + ins[n as int].filter(is_leaf(ins)).map_values(producer())
}

/// Node `a` is not a graph input and waits for node `b`.
pub open spec fn traversed(
    ins: Seq<Seq<OutletId>>,
    more: Seq<(usize, usize)>,
    inputs: Seq<usize>,
    a: usize,
    b: usize,
) -> bool {
    !inputs.contains(a) && dependencies(ins, more, a).contains(b)
}

/// Every node that the tables name is a node of the table, and the
/// dependencies of a node can be counted in a machine word.
pub open spec fn table_ok(ins: Seq<Seq<OutletId>>, more: Seq<(usize, usize)>) -> bool {
    &&& forall|i: int, k: int|
        0 <= i < ins.len() && 0 <= k < ins[i].len() ==> (#[trigger] ins[i][k]).node < ins.len()
    &&& forall|j: int| 0 <= j < more.len() ==> (#[trigger] more[j]).1 < ins.len()
    &&& forall|n: usize|
        n < ins.len() ==> (#[trigger] dependencies(ins, more, n)).len() <= usize::MAX
}

/// The tables are in order and every target is a node of the table.
pub open spec fn tables_in_range(
    ins: Seq<Seq<OutletId>>,
    more: Seq<(usize, usize)>,
    targets: Seq<usize>,
) -> bool {
    &&& table_ok(ins, more)
    &&& forall|j: int| 0 <= j < targets.len() ==> #[trigger] targets[j] < ins.len()
}

/// Without forced dependencies a node waits for as many nodes as it has
/// inputs.
pub proof fn lemma_dependencies_len(ins: Seq<Seq<OutletId>>, n: usize)
    requires
        n < ins.len(),
    ensures
        dependencies(ins, Seq::empty(), n).len() == ins[n as int].len(),
{
    lemma_split_len(ins, ins[n as int]);
    assert(Seq::<(usize, usize)>::empty().filter(is_forced_on(n)).len() == 0) by {
        Seq::<(usize, usize)>::empty().lemma_filter_len(is_forced_on(n));
    }
}

proof fn lemma_split_len(ins: Seq<Seq<OutletId>>, row: Seq<OutletId>)
    ensures
        row.filter(is_inner(ins)).len() + row.filter(is_leaf(ins)).len() == row.len(),
    decreases row.len(),
{
    if row.len() == 0 {
        row.lemma_filter_len(is_inner(ins));
        row.lemma_filter_len(is_leaf(ins));
    } else {
        let rest = row.drop_last();
        let o = row.last();
        lemma_split_len(ins, rest);
        assert(row =~= rest.push(o));
        rest.lemma_filter_push(o, is_inner(ins));
        rest.lemma_filter_push(o, is_leaf(ins));
    }
}

/// `order` schedules the targets: it names no node twice, holds every
/// target, holds behind each node that is not a graph input everything the
/// node waits for, and holds nothing that no target needs.
pub open spec fn valid_order(
    ins: Seq<Seq<OutletId>>,
    more: Seq<(usize, usize)>,
    inputs: Seq<usize>,
    targets: Seq<usize>,
    order: Seq<usize>,
) -> bool {
    &&& order.no_duplicates()
    &&& forall|k: int| 0 <= k < order.len() ==> #[trigger] order[k] < ins.len()
    &&& forall|j: int| 0 <= j < targets.len() ==> order.contains(#[trigger] targets[j])
    &&& forall|k: int, b: usize|
        0 <= k < order.len() && #[trigger] traversed(ins, more, inputs, order[k], b)
            ==> order.take(k).contains(b)
    &&& forall|k: int|
        0 <= k < order.len() ==> targets.contains(#[trigger] order[k]) || exists|j: int|
            k < j < order.len() && traversed(ins, more, inputs, #[trigger] order[j], order[k])
}

/// Each node of `path` waits for the next.
pub open spec fn is_walk(
    ins: Seq<Seq<OutletId>>,
    more: Seq<(usize, usize)>,
    inputs: Seq<usize>,
    path: Seq<usize>,
) -> bool {
    forall|i: int|
        0 <= i < path.len() - 1 ==> traversed(ins, more, inputs, #[trigger] path[i], path[i + 1])
}

/// A walk from a target, along dependencies, comes back to a node it has
/// passed.
pub open spec fn is_lasso(
    ins: Seq<Seq<OutletId>>,
    more: Seq<(usize, usize)>,
    inputs: Seq<usize>,
    targets: Seq<usize>,
    path: Seq<usize>,
) -> bool {
    &&& path.len() >= 2
    &&& targets.contains(path[0])
    &&& is_walk(ins, more, inputs, path)
    &&& exists|j: int| 0 <= j < path.len() - 1 && #[trigger] path[j] == path[path.len() - 1]
}

/// Some target depends on a node that depends on itself.
pub open spec fn has_cycle(
    ins: Seq<Seq<OutletId>>,
    more: Seq<(usize, usize)>,
    inputs: Seq<usize>,
    targets: Seq<usize>,
) -> bool {
    exists|path: Seq<usize>| is_lasso(ins, more, inputs, targets, path)
}

proof fn lemma_walk_descends(
    ins: Seq<Seq<OutletId>>,
    more: Seq<(usize, usize)>,
    inputs: Seq<usize>,
    targets: Seq<usize>,
    order: Seq<usize>,
    path: Seq<usize>,
    i: int,
)
    requires
        valid_order(ins, more, inputs, targets, order),
        is_walk(ins, more, inputs, path),
        path.len() >= 1,
        targets.contains(path[0]),
        0 <= i < path.len(),
    ensures
        order.contains(path[i]),
        forall|j: int|
            0 <= j < i ==> order.index_of(path[i]) < order.index_of(#[trigger] path[j]),
    decreases i,
{
    if i == 0 {
        let t = choose|t: int| 0 <= t < targets.len() && targets[t] == path[0];
        assert(order.contains(targets[t]));
    } else {
        lemma_walk_descends(ins, more, inputs, targets, order, path, i - 1);
        let k = order.index_of(path[i - 1]);
        assert(0 <= k < order.len() && order[k] == path[i - 1]);
        assert(traversed(ins, more, inputs, path[i - 1], path[i]));
        assert(traversed(ins, more, inputs, order[k], path[i]));
        assert(order.take(k).contains(path[i]));
        let w = choose|w: int| 0 <= w < order.take(k).len() && order.take(k)[w] == path[i];
        assert(order[w] == path[i]);
        let q = order.index_of(path[i]);
        assert(0 <= q < order.len() && order[q] == path[i]);
        assert(q == w);
    }
}

/// Where a valid order exists, no target depends on a cycle.
pub proof fn lemma_valid_order_excludes_cycle(
    ins: Seq<Seq<OutletId>>,
    more: Seq<(usize, usize)>,
    inputs: Seq<usize>,
    targets: Seq<usize>,
    order: Seq<usize>,
)
    requires
        valid_order(ins, more, inputs, targets, order),
    ensures
        !has_cycle(ins, more, inputs, targets),
{
    if has_cycle(ins, more, inputs, targets) {
        let path = choose|path: Seq<usize>| is_lasso(ins, more, inputs, targets, path);
        let last = path.len() - 1;
        let j = choose|j: int| 0 <= j < path.len() - 1 && #[trigger] path[j] == path[last];
        lemma_walk_descends(ins, more, inputs, targets, order, path, last);
        assert(order.index_of(path[last]) < order.index_of(path[j]));
    }
}

/// A run of distinct indices below `n` has at most `n` entries.
proof fn lemma_distinct_below(s: Seq<usize>, n: nat)
    requires
        s.no_duplicates(),
        forall|i: int| 0 <= i < s.len() ==> #[trigger] s[i] < n,
    ensures
        s.len() <= n,
    decreases n,
{
    if s.len() == 0 {
    } else if n == 0 {
        assert(s[0] < n);
    } else {
        let top = (n - 1) as usize;
        if s.contains(top) {
            let i = choose|i: int| 0 <= i < s.len() && s[i] == top;
            let rest = s.remove(i);
            assert forall|a: int, b: int|
                0 <= a < rest.len() && 0 <= b < rest.len() && a != b implies rest[a] != rest[b] by {
                let a2 = if a < i { a } else { a + 1 };
                let b2 = if b < i { b } else { b + 1 };
                assert(rest[a] == s[a2] && rest[b] == s[b2]);
            }
            assert forall|a: int| 0 <= a < rest.len() implies #[trigger] rest[a] < n - 1 by {
                let a2 = if a < i { a } else { a + 1 };
                assert(rest[a] == s[a2]);
                assert(s[a2] < n);
                assert(s[a2] != s[i]);
            }
            lemma_distinct_below(rest, (n - 1) as nat);
        } else {
            assert forall|a: int| 0 <= a < s.len() implies #[trigger] s[a] < n - 1 by {
                assert(s[a] < n);
                assert(s[a] != top);
            }
            lemma_distinct_below(s, (n - 1) as nat);
        }
    }
}

fn contains_node(nodes: &[usize], n: usize) -> (r: bool)
    ensures
        r == nodes@.contains(n),
{
    let mut i: usize = 0;
    while i < nodes.len()
        invariant
            i <= nodes.len(),
            forall|j: int| 0 <= j < i ==> nodes@[j] != n,
        decreases nodes.len() - i,
    {
        if nodes[i] == n {
            return true;
        }
        i += 1;
    }
    false
}

/// Pushes onto `acc` the producers of the inputs of node `n` that have
/// inputs themselves (`leaves` false) or have none (`leaves` true).
fn push_producers<U>(acc: &mut Vec<usize>, nodes: &[Node<U>], n: usize, leaves: bool)
    requires
        n < nodes@.len(),
        forall|k: int|
            0 <= k < nodes@[n as int].inputs@.len() ==> (#[trigger] nodes@[n as int].inputs@[k]).node
                < nodes@.len(),
    ensures
        final(acc)@ == old(acc)@ + inputs_table(nodes@)[n as int].filter(
            if leaves {
                is_leaf(inputs_table(nodes@))
            } else {
                is_inner(inputs_table(nodes@))
            },
        ).map_values(producer()),
{
    let ghost ins = inputs_table(nodes@);
    let ghost pred = if leaves {
        is_leaf(ins)
    } else {
        is_inner(ins)
    };
    let ghost row = ins[n as int];
    let inputs = &nodes[n].inputs;
    let mut k: usize = 0;
    assert(row.take(0) =~= Seq::<OutletId>::empty());
    assert(old(acc)@ + row.take(0).filter(pred).map_values(producer()) =~= old(acc)@);
    while k < inputs.len()
        invariant
            k <= inputs.len(),
            inputs@ == row,
            n < nodes@.len(),
            ins == inputs_table(nodes@),
            row == ins[n as int],
            pred == if leaves {
                is_leaf(ins)
            } else {
                is_inner(ins)
            },
            forall|j: int| 0 <= j < row.len() ==> (#[trigger] row[j]).node < nodes@.len(),
            acc@ == old(acc)@ + row.take(k as int).filter(pred).map_values(producer()),
        decreases inputs.len() - k,
    {
        let o = inputs[k];
        assert(row[k as int].node < nodes@.len());
        let empty = nodes[o.node].inputs.len() == 0;
        proof {
            let before = row.take(k as int);
            assert(row.take(k as int + 1) =~= before.push(o));
            before.lemma_filter_push(o, pred);
            before.filter(pred).lemma_push_map_commute(producer(), o);
            assert(pred(o) == (empty == leaves));
        }
        if empty == leaves {
            acc.push(o.node);
            assert(acc@ =~= old(acc)@ + row.take(k as int + 1).filter(pred).map_values(
                producer(),
            ));
        }
        k += 1;
    }
    assert(row.take(k as int) =~= row);
}

/// The nodes that node `n` waits for, in visiting order.
fn dependencies_of<U>(nodes: &[Node<U>], more: &[(usize, usize)], n: usize) -> (r: Vec<usize>)
    requires
        n < nodes@.len(),
        forall|k: int|
            0 <= k < nodes@[n as int].inputs@.len() ==> (#[trigger] nodes@[n as int].inputs@[k]).node
                < nodes@.len(),
    ensures
        r@ == dependencies(inputs_table(nodes@), more@, n),
{
    let mut acc: Vec<usize> = Vec::new();
    push_producers(&mut acc, nodes, n, false);
    let ghost first = acc@;
    let ghost pred = is_forced_on(n);
    let mut j: usize = 0;
    assert(more@.take(0) =~= Seq::<(usize, usize)>::empty());
    assert(first + more@.take(0).filter(pred).map_values(forced_target()) =~= first);
    while j < more.len()
        invariant
            j <= more.len(),
            pred == is_forced_on(n),
            acc@ == first + more@.take(j as int).filter(pred).map_values(forced_target()),
        decreases more.len() - j,
    {
        let a = more[j];
        proof {
            let before = more@.take(j as int);
            assert(more@.take(j as int + 1) =~= before.push(a));
            before.lemma_filter_push(a, pred);
            before.filter(pred).lemma_push_map_commute(forced_target(), a);
        }
        if a.0 == n {
            acc.push(a.1);
            assert(acc@ =~= first + more@.take(j as int + 1).filter(pred).map_values(
                forced_target(),
            ));
        }
        j += 1;
    }
    assert(more@.take(j as int) =~= more@);
    push_producers(&mut acc, nodes, n, true);
    acc
}

/// Every dependency of a node of the table is a node of the table.
proof fn lemma_dependencies_in_range(
    ins: Seq<Seq<OutletId>>,
    more: Seq<(usize, usize)>,
    targets: Seq<usize>,
    n: usize,
)
    requires
        tables_in_range(ins, more, targets),
        n < ins.len(),
    ensures
        forall|c: int|
            0 <= c < dependencies(ins, more, n).len() ==> #[trigger] dependencies(ins, more, n)[c]
                < ins.len(),
{
    broadcast use Seq::lemma_filter_contains_rev;

    let row = ins[n as int];
    let a = row.filter(is_inner(ins));
    let b = more.filter(is_forced_on(n));
    let c = row.filter(is_leaf(ins));
    assert forall|i: int| 0 <= i < a.len() implies (#[trigger] a[i]).node < ins.len() by {
        assert(a.contains(a[i]));
        assert(row.contains(a[i]));
        let w = choose|w: int| 0 <= w < row.len() && row[w] == a[i];
        assert(ins[n as int][w].node < ins.len());
    }
    assert forall|i: int| 0 <= i < b.len() implies (#[trigger] b[i]).1 < ins.len() by {
        assert(b.contains(b[i]));
        assert(more.contains(b[i]));
        let w = choose|w: int| 0 <= w < more.len() && more[w] == b[i];
        assert(more[w].1 < ins.len());
    }
    assert forall|i: int| 0 <= i < c.len() implies (#[trigger] c[i]).node < ins.len() by {
        assert(c.contains(c[i]));
        assert(row.contains(c[i]));
        let w = choose|w: int| 0 <= w < row.len() && row[w] == c[i];
        assert(ins[n as int][w].node < ins.len());
    }
}

/// A valid order names no more nodes than there are.
pub proof fn lemma_valid_order_len(
    ins: Seq<Seq<OutletId>>,
    more: Seq<(usize, usize)>,
    inputs: Seq<usize>,
    targets: Seq<usize>,
    order: Seq<usize>,
)
    requires
        valid_order(ins, more, inputs, targets, order),
    ensures
        order.len() <= ins.len(),
{
    lemma_distinct_below(order, ins.len());
}

/// A node waits for the producer of each of its inputs.
pub proof fn lemma_producers_are_dependencies(
    ins: Seq<Seq<OutletId>>,
    more: Seq<(usize, usize)>,
    n: usize,
    k: int,
)
    requires
        n < ins.len(),
        0 <= k < ins[n as int].len(),
    ensures
        dependencies(ins, more, n).contains(ins[n as int][k].node),
{
    let row = ins[n as int];
    let o = row[k];
    let inner = row.filter(is_inner(ins)).map_values(producer());
    let forced = more.filter(is_forced_on(n)).map_values(forced_target());
    let leaves = row.filter(is_leaf(ins)).map_values(producer());
    if is_inner(ins)(o) {
        row.lemma_filter_contains(is_inner(ins), k);
        let a = row.filter(is_inner(ins));
        let w = choose|w: int| 0 <= w < a.len() && a[w] == o;
        assert(inner[w] == o.node);
        assert((inner + forced + leaves)[w] == o.node);
    } else {
        assert(is_leaf(ins)(o));
        row.lemma_filter_contains(is_leaf(ins), k);
        let c = row.filter(is_leaf(ins));
        let w = choose|w: int| 0 <= w < c.len() && c[w] == o;
        assert(leaves[w] == o.node);
        assert((inner + forced + leaves)[inner.len() + forced.len() + w] == o.node);
    }
}

/// Graph inputs wait for nothing, so taking them as further targets adds
/// no cycle.
pub proof fn lemma_input_targets_add_no_cycle(
    ins: Seq<Seq<OutletId>>,
    more: Seq<(usize, usize)>,
    inputs: Seq<usize>,
    targets: Seq<usize>,
)
    ensures
        has_cycle(ins, more, inputs, targets + inputs) == has_cycle(ins, more, inputs, targets),
{
    if has_cycle(ins, more, inputs, targets + inputs) {
        let path = choose|path: Seq<usize>| is_lasso(ins, more, inputs, targets + inputs, path);
        let w = choose|w: int| 0 <= w < (targets + inputs).len() && (targets + inputs)[w] == path[0];
        assert(traversed(ins, more, inputs, path[0], path[1]));
        if w >= targets.len() {
            assert(inputs[w - targets.len()] == path[0]);
        } else {
            assert(targets[w] == path[0]);
        }
        assert(is_lasso(ins, more, inputs, targets, path));
    }
    if has_cycle(ins, more, inputs, targets) {
        let path = choose|path: Seq<usize>| is_lasso(ins, more, inputs, targets, path);
        let w = choose|w: int| 0 <= w < targets.len() && targets[w] == path[0];
        assert((targets + inputs)[w] == path[0]);
        assert(is_lasso(ins, more, inputs, targets + inputs, path));
    }
}

/// The nodes of the frames of a walk in progress.
pub open spec fn frame_nodes(stack: Seq<(usize, usize)>) -> Seq<usize> {
    Seq::new(stack.len(), |i: int| stack[i].0)
}

/// What holds of the walk in progress towards `target`: the frames form a
/// chain of dependencies from the target down, each frame's cursor has only
/// passed dependencies that are scheduled, and no frame's node is scheduled.
spec fn walk_inv(
    ins: Seq<Seq<OutletId>>,
    more: Seq<(usize, usize)>,
    inputs: Seq<usize>,
    target: usize,
    order: Seq<usize>,
    stack: Seq<(usize, usize)>,
) -> bool {
    &&& stack.len() > 0 ==> stack[0].0 == target
    &&& stack.len() == 0 ==> order.contains(target)
    &&& (order + frame_nodes(stack)).no_duplicates()
    &&& forall|i: int| 0 <= i < stack.len() ==> (#[trigger] stack[i]).0 < ins.len()
    &&& forall|i: int|
        0 <= i < stack.len() ==> (#[trigger] stack[i]).1 <= dependencies(ins, more, stack[i].0).len()
    &&& forall|i: int, c: int|
        0 <= i < stack.len() && 0 <= c < stack[i].1 ==> order.contains(
            #[trigger] dependencies(ins, more, stack[i].0)[c],
        )
    &&& forall|i: int|
        0 <= i < stack.len() - 1 ==> {
            &&& !inputs.contains((#[trigger] stack[i]).0)
            &&& stack[i].1 < dependencies(ins, more, stack[i].0).len()
            &&& dependencies(ins, more, stack[i].0)[stack[i].1 as int] == stack[i + 1].0
        }
}

/// What holds of the nodes scheduled so far, with the walk in progress:
/// like `valid_order`, but only the targets `needed` count, and a node may
/// also be there because a frame of the walk waits for it.
spec fn order_inv(
    ins: Seq<Seq<OutletId>>,
    more: Seq<(usize, usize)>,
    inputs: Seq<usize>,
    needed: Seq<usize>,
    order: Seq<usize>,
    stack: Seq<(usize, usize)>,
) -> bool {
    &&& forall|k: int| 0 <= k < order.len() ==> #[trigger] order[k] < ins.len()
    &&& forall|k: int, b: usize|
        0 <= k < order.len() && #[trigger] traversed(ins, more, inputs, order[k], b)
            ==> order.take(k).contains(b)
    &&& forall|k: int|
        0 <= k < order.len() ==> {
            ||| needed.contains(#[trigger] order[k])
            ||| exists|j: int|
                k < j < order.len() && traversed(ins, more, inputs, #[trigger] order[j], order[k])
            ||| exists|i: int|
                0 <= i < stack.len() && traversed(
                    ins,
                    more,
                    inputs,
                    (#[trigger] stack[i]).0,
                    order[k],
                )
        }
}

proof fn lemma_emit(
    ins: Seq<Seq<OutletId>>,
    more: Seq<(usize, usize)>,
    inputs: Seq<usize>,
    needed: Seq<usize>,
    target: usize,
    order: Seq<usize>,
    stack: Seq<(usize, usize)>,
)
    requires
        stack.len() > 0,
        walk_inv(ins, more, inputs, target, order, stack),
        order_inv(ins, more, inputs, needed, order, stack),
        needed.contains(target),
        inputs.contains(stack.last().0) || stack.last().1 == dependencies(
            ins,
            more,
            stack.last().0,
        ).len(),
    ensures
        walk_inv(ins, more, inputs, target, order.push(stack.last().0), stack.drop_last()),
        order_inv(ins, more, inputs, needed, order.push(stack.last().0), stack.drop_last()),
        !order.contains(stack.last().0),
{
    let cur = stack.last().0;
    let m = stack.len() - 1;
    let order2 = order.push(cur);
    let stack2 = stack.drop_last();
    let all = order + frame_nodes(stack);
    let all2 = order2 + frame_nodes(stack2);
    assert(all[order.len() + m] == cur);
    if order.contains(cur) {
        let w = choose|w: int| 0 <= w < order.len() && order[w] == cur;
        assert(all[w] == cur);
    }
    assert forall|a: int, b: int| 0 <= a < all2.len() && 0 <= b < all2.len() && a != b implies all2[a]
        != all2[b] by {
        let a1 = if a < order.len() {
            a
        } else if a == order.len() {
            order.len() + m
        } else {
            a - 1
        };
        let b1 = if b < order.len() {
            b
        } else if b == order.len() {
            order.len() + m
        } else {
            b - 1
        };
        assert(all2[a] == all[a1]);
        assert(all2[b] == all[b1]);
    }
    assert forall|i: int, c: int| 0 <= i < stack2.len() && 0 <= c < stack2[i].1 implies order2.contains(
        #[trigger] dependencies(ins, more, stack2[i].0)[c],
    ) by {
        let d = dependencies(ins, more, stack[i].0)[c];
        assert(order.contains(d));
        let w = choose|w: int| 0 <= w < order.len() && order[w] == d;
        assert(order2[w] == d);
    }
    if stack2.len() == 0 {
        assert(order2[order.len() as int] == target);
    }
    assert forall|i: int| 0 <= i < stack2.len() - 1 implies {
        &&& !inputs.contains((#[trigger] stack2[i]).0)
        &&& stack2[i].1 < dependencies(ins, more, stack2[i].0).len()
        &&& dependencies(ins, more, stack2[i].0)[stack2[i].1 as int] == stack2[i + 1].0
    } by {
        assert(stack2[i] == stack[i]);
        assert(stack2[i + 1] == stack[i + 1]);
    }
    assert(walk_inv(ins, more, inputs, target, order2, stack2));
    assert forall|k: int, b: usize|
        0 <= k < order2.len() && #[trigger] traversed(
            ins,
            more,
            inputs,
            order2[k],
            b,
        ) implies order2.take(k).contains(b) by {
        if k < order.len() {
            assert(order2[k] == order[k]);
            assert(order.take(k).contains(b));
            assert(order2.take(k) =~= order.take(k));
        } else {
            let deps = dependencies(ins, more, cur);
            let c = choose|c: int| 0 <= c < deps.len() && deps[c] == b;
            assert(order.contains(dependencies(ins, more, stack[m].0)[c]));
            assert(order2.take(k) =~= order);
        }
    }
    assert forall|k: int| 0 <= k < order2.len() implies {
        ||| needed.contains(#[trigger] order2[k])
        ||| exists|j: int|
            k < j < order2.len() && traversed(ins, more, inputs, #[trigger] order2[j], order2[k])
        ||| exists|i: int|
            0 <= i < stack2.len() && traversed(
                ins,
                more,
                inputs,
                (#[trigger] stack2[i]).0,
                order2[k],
            )
    } by {
        if k < order.len() {
            assert(order2[k] == order[k]);
            if needed.contains(order[k]) {
            } else if exists|j: int|
                k < j < order.len() && traversed(ins, more, inputs, #[trigger] order[j], order[k]) {
                let j = choose|j: int|
                    k < j < order.len() && traversed(
                        ins,
                        more,
                        inputs,
                        #[trigger] order[j],
                        order[k],
                    );
                assert(order2[j] == order[j]);
            } else {
                let i = choose|i: int|
                    0 <= i < stack.len() && traversed(
                        ins,
                        more,
                        inputs,
                        (#[trigger] stack[i]).0,
                        order[k],
                    );
                if i == m {
                    assert(order2[order.len() as int] == cur);
                    assert(traversed(ins, more, inputs, order2[order.len() as int], order2[k]));
                } else {
                    assert(stack2[i] == stack[i]);
                }
            }
        } else {
            if m == 0 {
                assert(cur == target);
            } else {
                assert(stack2[m - 1] == stack[m - 1]);
                assert(dependencies(ins, more, stack[m - 1].0)[stack[m - 1].1 as int]
                    == stack[m].0);
                assert(traversed(ins, more, inputs, stack2[m - 1].0, order2[k]));
            }
        }
    }
}

proof fn lemma_advance(
    ins: Seq<Seq<OutletId>>,
    more: Seq<(usize, usize)>,
    inputs: Seq<usize>,
    needed: Seq<usize>,
    target: usize,
    order: Seq<usize>,
    stack: Seq<(usize, usize)>,
)
    requires
        stack.len() > 0,
        walk_inv(ins, more, inputs, target, order, stack),
        order_inv(ins, more, inputs, needed, order, stack),
        !inputs.contains(stack.last().0),
        stack.last().1 < dependencies(ins, more, stack.last().0).len(),
        order.contains(dependencies(ins, more, stack.last().0)[stack.last().1 as int]),
    ensures
        walk_inv(
            ins,
            more,
            inputs,
            target,
            order,
            stack.drop_last().push((stack.last().0, (stack.last().1 + 1) as usize)),
        ),
        order_inv(
            ins,
            more,
            inputs,
            needed,
            order,
            stack.drop_last().push((stack.last().0, (stack.last().1 + 1) as usize)),
        ),
{
    let m = stack.len() - 1;
    let stack2 = stack.drop_last().push((stack.last().0, (stack.last().1 + 1) as usize));
    assert(frame_nodes(stack2) =~= frame_nodes(stack));
    assert forall|i: int| 0 <= i < stack2.len() implies (#[trigger] stack2[i]).1 <= dependencies(
        ins,
        more,
        stack2[i].0,
    ).len() by {
        if i < m {
            assert(stack2[i] == stack[i]);
        }
    }
    assert forall|i: int, c: int| 0 <= i < stack2.len() && 0 <= c < stack2[i].1 implies order.contains(
        #[trigger] dependencies(ins, more, stack2[i].0)[c],
    ) by {
        if i < m {
            assert(stack2[i] == stack[i]);
        } else if c < stack[m].1 {
            assert(order.contains(dependencies(ins, more, stack[m].0)[c]));
        }
    }
    assert forall|i: int| 0 <= i < stack2.len() - 1 implies {
        &&& !inputs.contains((#[trigger] stack2[i]).0)
        &&& stack2[i].1 < dependencies(ins, more, stack2[i].0).len()
        &&& dependencies(ins, more, stack2[i].0)[stack2[i].1 as int] == stack2[i + 1].0
    } by {
        assert(stack2[i] == stack[i]);
        assert(stack2[i + 1].0 == stack[i + 1].0);
    }
    assert forall|k: int| 0 <= k < order.len() implies {
        ||| needed.contains(#[trigger] order[k])
        ||| exists|j: int|
            k < j < order.len() && traversed(ins, more, inputs, #[trigger] order[j], order[k])
        ||| exists|i: int|
            0 <= i < stack2.len() && traversed(
                ins,
                more,
                inputs,
                (#[trigger] stack2[i]).0,
                order[k],
            )
    } by {
        if needed.contains(order[k]) {
        } else if exists|j: int|
            k < j < order.len() && traversed(ins, more, inputs, #[trigger] order[j], order[k]) {
        } else {
            let i = choose|i: int|
                0 <= i < stack.len() && traversed(
                    ins,
                    more,
                    inputs,
                    (#[trigger] stack[i]).0,
                    order[k],
                );
            assert(stack2[i].0 == stack[i].0);
        }
    }
}

proof fn lemma_descend(
    ins: Seq<Seq<OutletId>>,
    more: Seq<(usize, usize)>,
    inputs: Seq<usize>,
    needed: Seq<usize>,
    target: usize,
    order: Seq<usize>,
    stack: Seq<(usize, usize)>,
    next: usize,
)
    requires
        stack.len() > 0,
        walk_inv(ins, more, inputs, target, order, stack),
        order_inv(ins, more, inputs, needed, order, stack),
        !inputs.contains(stack.last().0),
        stack.last().1 < dependencies(ins, more, stack.last().0).len(),
        next == dependencies(ins, more, stack.last().0)[stack.last().1 as int],
        next < ins.len(),
        !order.contains(next),
        !frame_nodes(stack).contains(next),
    ensures
        walk_inv(ins, more, inputs, target, order, stack.push((next, 0))),
        order_inv(ins, more, inputs, needed, order, stack.push((next, 0))),
{
    let m = stack.len() - 1;
    let stack2 = stack.push((next, 0));
    let all = order + frame_nodes(stack);
    let all2 = order + frame_nodes(stack2);
    assert forall|a: int, b: int| 0 <= a < all2.len() && 0 <= b < all2.len() && a != b implies all2[a]
        != all2[b] by {
        if a < all.len() && b < all.len() {
            assert(all2[a] == all[a] && all2[b] == all[b]);
        } else {
            let other = if a < all.len() {
                a
            } else {
                b
            };
            assert(all2[all.len() as int] == next);
            if other < order.len() {
                assert(all2[other] == order[other]);
            } else {
                assert(all2[other] == frame_nodes(stack)[other - order.len()]);
            }
        }
    }
    assert forall|i: int, c: int| 0 <= i < stack2.len() && 0 <= c < stack2[i].1 implies order.contains(
        #[trigger] dependencies(ins, more, stack2[i].0)[c],
    ) by {
        assert(stack2[i] == stack[i]);
    }
    assert forall|i: int| 0 <= i < stack2.len() - 1 implies {
        &&& !inputs.contains((#[trigger] stack2[i]).0)
        &&& stack2[i].1 < dependencies(ins, more, stack2[i].0).len()
        &&& dependencies(ins, more, stack2[i].0)[stack2[i].1 as int] == stack2[i + 1].0
    } by {
        assert(stack2[i] == stack[i]);
        if i < m {
            assert(stack2[i + 1] == stack[i + 1]);
        }
    }
    assert forall|k: int| 0 <= k < order.len() implies {
        ||| needed.contains(#[trigger] order[k])
        ||| exists|j: int|
            k < j < order.len() && traversed(ins, more, inputs, #[trigger] order[j], order[k])
        ||| exists|i: int|
            0 <= i < stack2.len() && traversed(
                ins,
                more,
                inputs,
                (#[trigger] stack2[i]).0,
                order[k],
            )
    } by {
        if needed.contains(order[k]) {
        } else if exists|j: int|
            k < j < order.len() && traversed(ins, more, inputs, #[trigger] order[j], order[k]) {
        } else {
            let i = choose|i: int|
                0 <= i < stack.len() && traversed(
                    ins,
                    more,
                    inputs,
                    (#[trigger] stack[i]).0,
                    order[k],
                );
            assert(stack2[i] == stack[i]);
        }
    }
}

/// A dependency that a frame of the walk already waits on closes a cycle.
proof fn lemma_pending_is_cycle(
    ins: Seq<Seq<OutletId>>,
    more: Seq<(usize, usize)>,
    inputs: Seq<usize>,
    targets: Seq<usize>,
    target: usize,
    order: Seq<usize>,
    stack: Seq<(usize, usize)>,
    next: usize,
)
    requires
        stack.len() > 0,
        walk_inv(ins, more, inputs, target, order, stack),
        targets.contains(target),
        !inputs.contains(stack.last().0),
        stack.last().1 < dependencies(ins, more, stack.last().0).len(),
        next == dependencies(ins, more, stack.last().0)[stack.last().1 as int],
        frame_nodes(stack).contains(next),
    ensures
        has_cycle(ins, more, inputs, targets),
{
    let path = frame_nodes(stack).push(next);
    let m = stack.len() - 1;
    let j = choose|j: int| 0 <= j < frame_nodes(stack).len() && frame_nodes(stack)[j] == next;
    assert(path[j] == path[path.len() - 1]);
    assert forall|i: int| 0 <= i < path.len() - 1 implies traversed(
        ins,
        more,
        inputs,
        #[trigger] path[i],
        path[i + 1],
    ) by {
        let deps = dependencies(ins, more, stack[i].0);
        if i < m {
            assert(deps[stack[i].1 as int] == stack[i + 1].0);
        } else {
            assert(deps[stack[i].1 as int] == next);
        }
    }
    assert(is_lasso(ins, more, inputs, targets, path));
}

/// The nodes scheduled and the nodes of the frames are nodes of the table,
/// and none is there twice.
pub open spec fn walk_bounded(
    ins: Seq<Seq<OutletId>>,
    order: Seq<usize>,
    stack: Seq<(usize, usize)>,
) -> bool {
    &&& (order + frame_nodes(stack)).no_duplicates()
    &&& forall|i: int|
        0 <= i < (order + frame_nodes(stack)).len() ==> #[trigger] (order + frame_nodes(stack))[i]
            < ins.len()
}

/// How many dependencies the top frame has still to pass.
pub open spec fn remaining(
    ins: Seq<Seq<OutletId>>,
    more: Seq<(usize, usize)>,
    stack: Seq<(usize, usize)>,
) -> int {
    if stack.len() > 0 {
        dependencies(ins, more, stack.last().0).len() - stack.last().1
    } else {
        0
    }
}

/// The schedule that a walk ends with, from the nodes `order` scheduled so
/// far and the frames `stack`, each a node with the number of its
/// dependencies already passed; or nothing, where the walk meets a node
/// that waits for itself. The top frame's node is scheduled once it is a
/// graph input or all its dependencies are passed. Else its next dependency
/// is passed where it is scheduled already, closes a cycle where a frame
/// holds it, and gets a frame of its own otherwise.
pub open spec fn walk(
    ins: Seq<Seq<OutletId>>,
    more: Seq<(usize, usize)>,
    inputs: Seq<usize>,
    order: Seq<usize>,
    stack: Seq<(usize, usize)>,
) -> Option<Seq<usize>>
    decreases ins.len() - order.len(), ins.len() - stack.len(), remaining(ins, more, stack),
    when table_ok(ins, more) && walk_bounded(ins, order, stack)
    via walk_terminates
{
    if stack.len() == 0 {
        Some(order)
    } else {
        let (node, cursor) = stack.last();
        let deps = dependencies(ins, more, node);
        if inputs.contains(node) || cursor >= deps.len() {
            walk(ins, more, inputs, order.push(node), stack.drop_last())
        } else if order.contains(deps[cursor as int]) {
            walk(ins, more, inputs, order, stack.drop_last().push((node, (cursor + 1) as usize)))
        } else if frame_nodes(stack).contains(deps[cursor as int]) {
            None
        } else {
            walk(ins, more, inputs, order, stack.push((deps[cursor as int], 0usize)))
        }
    }
}

#[via_fn]
proof fn walk_terminates(
    ins: Seq<Seq<OutletId>>,
    more: Seq<(usize, usize)>,
    inputs: Seq<usize>,
    order: Seq<usize>,
    stack: Seq<(usize, usize)>,
) {
    let all = order + frame_nodes(stack);
    lemma_distinct_below(all, ins.len());
    if stack.len() > 0 {
        let (node, cursor) = stack.last();
        assert(all[order.len() + stack.len() - 1] == node);
        let deps = dependencies(ins, more, node);
        assert(tables_in_range(ins, more, Seq::empty()));
        lemma_dependencies_in_range(ins, more, Seq::empty(), node);
        if !(inputs.contains(node) || cursor >= deps.len()) {
            let next = deps[cursor as int];
            if !order.contains(next) && !frame_nodes(stack).contains(next) {
                let longer = order + frame_nodes(stack.push((next, 0usize)));
                assert(longer =~= all.push(next));
                assert forall|a: int, b: int|
                    0 <= a < longer.len() && 0 <= b < longer.len() && a != b implies longer[a]
                    != longer[b] by {
                    if a < all.len() && b < all.len() {
                        assert(longer[a] == all[a] && longer[b] == all[b]);
                    } else {
                        let other = if a < all.len() {
                            a
                        } else {
                            b
                        };
                        if other < order.len() {
                            assert(all[other] == order[other]);
                        } else {
                            assert(all[other] == frame_nodes(stack)[other - order.len()]);
                        }
                    }
                }
                assert forall|a: int| 0 <= a < longer.len() implies #[trigger] longer[a]
                    < ins.len() by {
                    if a < all.len() {
                        assert(longer[a] == all[a]);
                    }
                }
                lemma_distinct_below(longer, ins.len());
            }
        }
    }
}

/// The schedule for the first `upto` targets, each walked from in turn
/// unless it is scheduled already; or nothing, where a walk meets a cycle.
pub open spec fn schedule(
    ins: Seq<Seq<OutletId>>,
    more: Seq<(usize, usize)>,
    inputs: Seq<usize>,
    targets: Seq<usize>,
    upto: int,
) -> Option<Seq<usize>>
    decreases upto,
{
    if upto <= 0 {
        Some(Seq::empty())
    } else {
        match schedule(ins, more, inputs, targets, upto - 1) {
            None => None,
            Some(order) => if order.contains(targets[upto - 1]) {
                Some(order)
            } else {
                walk(ins, more, inputs, order, seq![(targets[upto - 1], 0usize)])
            },
        }
    }
}

proof fn lemma_walk_bounded(
    ins: Seq<Seq<OutletId>>,
    more: Seq<(usize, usize)>,
    inputs: Seq<usize>,
    needed: Seq<usize>,
    target: usize,
    order: Seq<usize>,
    stack: Seq<(usize, usize)>,
)
    requires
        walk_inv(ins, more, inputs, target, order, stack),
        order_inv(ins, more, inputs, needed, order, stack),
    ensures
        walk_bounded(ins, order, stack),
        order.len() + stack.len() <= ins.len(),
{
    let all = order + frame_nodes(stack);
    assert forall|i: int| 0 <= i < all.len() implies #[trigger] all[i] < ins.len() by {
        if i < order.len() {
            assert(all[i] == order[i]);
        } else {
            assert(all[i] == stack[i - order.len()].0);
        }
    }
    lemma_distinct_below(all, ins.len());
}

/// A walk that starts in a sound state ends in a sound schedule that
/// holds what was scheduled before and the walk's target, or it fails and
/// a target depends on a cycle.
proof fn lemma_walk(
    ins: Seq<Seq<OutletId>>,
    more: Seq<(usize, usize)>,
    inputs: Seq<usize>,
    targets: Seq<usize>,
    needed: Seq<usize>,
    target: usize,
    order: Seq<usize>,
    stack: Seq<(usize, usize)>,
)
    requires
        tables_in_range(ins, more, targets),
        targets.contains(target),
        needed.contains(target),
        walk_inv(ins, more, inputs, target, order, stack),
        order_inv(ins, more, inputs, needed, order, stack),
    ensures
        match walk(ins, more, inputs, order, stack) {
            Some(o) => {
                &&& o.no_duplicates()
                &&& o.contains(target)
                &&& order_inv(ins, more, inputs, needed, o, Seq::empty())
                &&& forall|x: usize| order.contains(x) ==> o.contains(x)
            },
            None => has_cycle(ins, more, inputs, targets),
        },
    decreases ins.len() - order.len(), ins.len() - stack.len(), remaining(ins, more, stack),
{
    lemma_walk_bounded(ins, more, inputs, needed, target, order, stack);
    if stack.len() == 0 {
        assert(order + frame_nodes(stack) =~= order);
    } else {
        let (node, cursor) = stack.last();
        let deps = dependencies(ins, more, node);
        lemma_dependencies_in_range(ins, more, targets, node);
        if inputs.contains(node) || cursor >= deps.len() {
            lemma_emit(ins, more, inputs, needed, target, order, stack);
            let order2 = order.push(node);
            let stack2 = stack.drop_last();
            lemma_walk_bounded(ins, more, inputs, needed, target, order2, stack2);
            lemma_walk(ins, more, inputs, targets, needed, target, order2, stack2);
            assert forall|x: usize| order.contains(x) implies order2.contains(x) by {
                let w = choose|w: int| 0 <= w < order.len() && order[w] == x;
                assert(order2[w] == x);
            }
        } else if order.contains(deps[cursor as int]) {
            lemma_advance(ins, more, inputs, needed, target, order, stack);
            let stack2 = stack.drop_last().push((node, (cursor + 1) as usize));
            lemma_walk_bounded(ins, more, inputs, needed, target, order, stack2);
            lemma_walk(ins, more, inputs, targets, needed, target, order, stack2);
        } else if frame_nodes(stack).contains(deps[cursor as int]) {
            lemma_pending_is_cycle(
                ins,
                more,
                inputs,
                targets,
                target,
                order,
                stack,
                deps[cursor as int],
            );
        } else {
            lemma_descend(ins, more, inputs, needed, target, order, stack, deps[cursor as int]);
            let stack2 = stack.push((deps[cursor as int], 0usize));
            lemma_walk_bounded(ins, more, inputs, needed, target, order, stack2);
            lemma_walk(ins, more, inputs, targets, needed, target, order, stack2);
        }
    }
}

/// The state in which the walk from `target` starts is sound.
proof fn lemma_walk_start(
    ins: Seq<Seq<OutletId>>,
    more: Seq<(usize, usize)>,
    inputs: Seq<usize>,
    before: Seq<usize>,
    needed: Seq<usize>,
    target: usize,
    order: Seq<usize>,
)
    requires
        order.no_duplicates(),
        !order.contains(target),
        target < ins.len(),
        order_inv(ins, more, inputs, before, order, Seq::empty()),
        forall|x: usize| before.contains(x) ==> needed.contains(x),
    ensures
        walk_inv(ins, more, inputs, target, order, seq![(target, 0usize)]),
        order_inv(ins, more, inputs, needed, order, seq![(target, 0usize)]),
{
    let stack = seq![(target, 0usize)];
    assert(frame_nodes(stack) =~= seq![target]);
    assert((order + frame_nodes(stack)) =~= order.push(target));
    assert forall|k: int| 0 <= k < order.len() implies {
        ||| needed.contains(#[trigger] order[k])
        ||| exists|j: int|
            k < j < order.len() && traversed(ins, more, inputs, #[trigger] order[j], order[k])
        ||| exists|i: int|
            0 <= i < stack.len() && traversed(ins, more, inputs, (#[trigger] stack[i]).0, order[k])
    } by {
        if before.contains(order[k]) {
        }
    }
}

/// Where the schedule exists it is a valid order, and where it does not
/// a target depends on a cycle.
pub proof fn lemma_schedule(
    ins: Seq<Seq<OutletId>>,
    more: Seq<(usize, usize)>,
    inputs: Seq<usize>,
    targets: Seq<usize>,
    upto: int,
)
    requires
        tables_in_range(ins, more, targets),
        0 <= upto <= targets.len(),
    ensures
        match schedule(ins, more, inputs, targets, upto) {
            Some(o) => valid_order(ins, more, inputs, targets.take(upto), o),
            None => has_cycle(ins, more, inputs, targets),
        },
    decreases upto,
{
    if upto <= 0 {
        assert(targets.take(upto) =~= Seq::<usize>::empty());
    } else {
        lemma_schedule(ins, more, inputs, targets, upto - 1);
        let before = targets.take(upto - 1);
        let needed = targets.take(upto);
        let target = targets[upto - 1];
        assert(needed[upto - 1] == target);
        assert forall|x: usize| before.contains(x) implies needed.contains(x) by {
            let w = choose|w: int| 0 <= w < before.len() && before[w] == x;
            assert(needed[w] == x);
        }
        match schedule(ins, more, inputs, targets, upto - 1) {
            None => {},
            Some(order) => {
                assert(order_inv(ins, more, inputs, before, order, Seq::empty()));
                if order.contains(target) {
                    assert forall|j: int| 0 <= j < needed.len() implies order.contains(
                        #[trigger] needed[j],
                    ) by {
                        if j < upto - 1 {
                            assert(before[j] == needed[j]);
                        }
                    }
                    assert forall|k: int| 0 <= k < order.len() implies needed.contains(
                        #[trigger] order[k],
                    ) || exists|j: int|
                        k < j < order.len() && traversed(
                            ins,
                            more,
                            inputs,
                            #[trigger] order[j],
                            order[k],
                        ) by {
                        if before.contains(order[k]) {
                        }
                    }
                } else {
                    lemma_walk_start(ins, more, inputs, before, needed, target, order);
                    let stack = seq![(target, 0usize)];
                    lemma_walk(ins, more, inputs, targets, needed, target, order, stack);
                    match walk(ins, more, inputs, order, stack) {
                        None => {},
                        Some(o) => {
                            assert forall|j: int| 0 <= j < needed.len() implies o.contains(
                                #[trigger] needed[j],
                            ) by {
                                if j < upto - 1 {
                                    assert(before[j] == needed[j]);
                                    assert(order.contains(before[j]));
                                }
                            }
                        },
                    }
                }
            },
        }
    }
}

/// Once a walk has met a cycle there is no schedule.
pub proof fn lemma_schedule_fails_on(
    ins: Seq<Seq<OutletId>>,
    more: Seq<(usize, usize)>,
    inputs: Seq<usize>,
    targets: Seq<usize>,
    at: int,
    upto: int,
)
    requires
        0 <= at <= upto,
        schedule(ins, more, inputs, targets, at) is None,
    ensures
        schedule(ins, more, inputs, targets, upto) is None,
    decreases upto,
{
    if at < upto {
        lemma_schedule_fails_on(ins, more, inputs, targets, at, upto - 1);
    }
}

/// The place of a node in `kept`.
pub open spec fn place(kept: Seq<usize>) -> spec_fn(usize) -> usize {
    |x: usize| kept.index_of(x) as usize
}

/// An outlet, with its node under the node's place in `kept`.
pub open spec fn place_outlet(kept: Seq<usize>) -> spec_fn(OutletId) -> OutletId {
    |o: OutletId| OutletId { node: kept.index_of(o.node) as usize, slot: o.slot }
}

/// A frame of a walk, with its node under the node's place in `kept`.
pub open spec fn place_frame(kept: Seq<usize>) -> spec_fn((usize, usize)) -> (usize, usize) {
    |f: (usize, usize)| (kept.index_of(f.0) as usize, f.1)
}

/// `ins2` and `inputs2` are the tables `ins` and `inputs` over the nodes
/// of `kept` alone, each node under its place in `kept`: `kept` names no
/// node twice and holds the producers of the inputs of its nodes.
#[verifier::opaque]
pub open spec fn renumbered(
    ins: Seq<Seq<OutletId>>,
    inputs: Seq<usize>,
    kept: Seq<usize>,
    ins2: Seq<Seq<OutletId>>,
    inputs2: Seq<usize>,
) -> bool {
    &&& kept.no_duplicates()
    &&& forall|k: int| 0 <= k < kept.len() ==> #[trigger] kept[k] < ins.len()
    &&& ins.len() <= usize::MAX
    &&& ins2.len() == kept.len()
    &&& table_ok(ins, Seq::empty())
    &&& table_ok(ins2, Seq::empty())
    &&& forall|k: int|
        0 <= k < kept.len() ==> #[trigger] ins2[k] == ins[kept[k] as int].map_values(
            place_outlet(kept),
        )
    &&& forall|k: int, j: int|
        0 <= k < kept.len() && 0 <= j < ins[kept[k] as int].len() ==> kept.contains(
            (#[trigger] ins[kept[k] as int][j]).node,
        )
    &&& forall|k: int|
        0 <= k < kept.len() ==> (inputs2.contains(k as usize) <==> inputs.contains(
            #[trigger] kept[k],
        ))
}

/// A node of `kept` stands at its place.
proof fn lemma_place(kept: Seq<usize>, x: usize)
    requires
        kept.no_duplicates(),
        kept.contains(x),
    ensures
        0 <= kept.index_of(x) < kept.len(),
        kept[kept.index_of(x)] == x,
{
}

/// Distinct nodes of `kept` have distinct places, so a run of nodes of
/// `kept` holds a node exactly where the run of their places holds its
/// place.
proof fn lemma_placed_contains(kept: Seq<usize>, s: Seq<usize>, x: usize)
    requires
        kept.no_duplicates(),
        kept.len() <= usize::MAX,
        kept.contains(x),
        forall|i: int| 0 <= i < s.len() ==> kept.contains(#[trigger] s[i]),
    ensures
        s.map_values(place(kept)).contains(place(kept)(x)) == s.contains(x),
{
    let t = s.map_values(place(kept));
    lemma_place(kept, x);
    if s.contains(x) {
        let w = choose|w: int| 0 <= w < s.len() && s[w] == x;
        assert(t[w] == place(kept)(x));
    }
    if t.contains(place(kept)(x)) {
        let w = choose|w: int| 0 <= w < t.len() && t[w] == place(kept)(x);
        assert(kept.contains(s[w]));
        lemma_place(kept, s[w]);
        assert(t[w] == place(kept)(s[w]));
        assert(kept.index_of(s[w]) == kept.index_of(x));
        assert(s[w] == x);
    }
}

/// Picking the outlets of a row by `p` and placing their nodes gives what
/// picking the placed outlets by `q` gives, where `q` says of a placed
/// outlet what `p` says of the outlet.
proof fn lemma_filter_placed(
    row: Seq<OutletId>,
    kept: Seq<usize>,
    p: spec_fn(OutletId) -> bool,
    q: spec_fn(OutletId) -> bool,
)
    requires
        forall|j: int| 0 <= j < row.len() ==> q(place_outlet(kept)(#[trigger] row[j])) == p(row[j]),
    ensures
        row.map_values(place_outlet(kept)).filter(q).map_values(producer()) == row.filter(
            p,
        ).map_values(producer()).map_values(place(kept)),
    decreases row.len(),
{
    let f = place_outlet(kept);
    if row.len() == 0 {
        row.map_values(f).lemma_filter_len(q);
        row.lemma_filter_len(p);
        assert(row.map_values(f).filter(q).map_values(producer()) =~= row.filter(p).map_values(
            producer(),
        ).map_values(place(kept)));
    } else {
        let rest = row.drop_last();
        let x = row.last();
        assert forall|j: int| 0 <= j < rest.len() implies q(f(#[trigger] rest[j])) == p(
            rest[j],
        ) by {
            assert(rest[j] == row[j]);
        }
        lemma_filter_placed(rest, kept, p, q);
        assert(row =~= rest.push(x));
        rest.lemma_push_map_commute(f, x);
        assert(row.map_values(f) =~= rest.map_values(f).push(f(x)));
        rest.map_values(f).lemma_filter_push(f(x), q);
        rest.lemma_filter_push(x, p);
        assert(q(f(x)) == p(x)) by {
            assert(row[row.len() - 1] == x);
        }
        if p(x) {
            rest.map_values(f).filter(q).lemma_push_map_commute(producer(), f(x));
            rest.filter(p).lemma_push_map_commute(producer(), x);
            rest.filter(p).map_values(producer()).lemma_push_map_commute(place(kept), x.node);
            assert(producer()(f(x)) == place(kept)(x.node));
        }
    }
}

/// What a node of the renumbered table waits for is what the node it
/// stands for waits for, each under its place.
proof fn lemma_dependencies_placed(
    ins: Seq<Seq<OutletId>>,
    inputs: Seq<usize>,
    kept: Seq<usize>,
    ins2: Seq<Seq<OutletId>>,
    inputs2: Seq<usize>,
    k: int,
)
    requires
        renumbered(ins, inputs, kept, ins2, inputs2),
        0 <= k < kept.len(),
    ensures
        dependencies(ins2, Seq::empty(), k as usize) == dependencies(
            ins,
            Seq::empty(),
            kept[k],
        ).map_values(place(kept)),
        forall|c: int|
            0 <= c < dependencies(ins, Seq::empty(), kept[k]).len() ==> kept.contains(
                #[trigger] dependencies(ins, Seq::empty(), kept[k])[c],
            ),
{
    broadcast use Seq::lemma_filter_contains_rev;

    reveal(renumbered);
    let row = ins[kept[k] as int];
    let row2 = ins2[k];
    let none = Seq::<(usize, usize)>::empty();
    lemma_distinct_below(kept, ins.len());
    assert forall|j: int| 0 <= j < row.len() implies is_inner(ins2)(
        place_outlet(kept)(#[trigger] row[j]),
    ) == is_inner(ins)(row[j]) && is_leaf(ins2)(place_outlet(kept)(row[j])) == is_leaf(ins)(
        row[j],
    ) by {
        let x = row[j].node;
        assert(kept.contains(x));
        lemma_place(kept, x);
        let q = kept.index_of(x);
        assert(ins2[q] == ins[kept[q] as int].map_values(place_outlet(kept)));
    }
    lemma_filter_placed(row, kept, is_inner(ins), is_inner(ins2));
    lemma_filter_placed(row, kept, is_leaf(ins), is_leaf(ins2));
    none.lemma_filter_len(is_forced_on(k as usize));
    none.lemma_filter_len(is_forced_on(kept[k]));
    let a = row.filter(is_inner(ins)).map_values(producer());
    let c = row.filter(is_leaf(ins)).map_values(producer());
    let e = none.filter(is_forced_on(kept[k])).map_values(forced_target());
    let e2 = none.filter(is_forced_on(k as usize)).map_values(forced_target());
    assert(e.len() == 0 && e2.len() == 0);
    let deps = dependencies(ins, none, kept[k]);
    let deps2 = dependencies(ins2, none, k as usize);
    assert(deps == a + e + c);
    assert(deps2 == a.map_values(place(kept)) + e2 + c.map_values(place(kept)));
    assert(deps2 =~= deps.map_values(place(kept)));
    assert forall|w: int| 0 <= w < deps.len() implies kept.contains(#[trigger] deps[w]) by {
        if w < a.len() {
            let o = row.filter(is_inner(ins))[w];
            assert(row.filter(is_inner(ins)).contains(o));
            assert(row.contains(o));
            let j = choose|j: int| 0 <= j < row.len() && row[j] == o;
            assert(kept.contains(row[j].node));
        } else {
            let v = w - a.len() - e.len();
            let o = row.filter(is_leaf(ins))[v];
            assert(row.filter(is_leaf(ins)).contains(o));
            assert(row.contains(o));
            let j = choose|j: int| 0 <= j < row.len() && row[j] == o;
            assert(kept.contains(row[j].node));
        }
    }
}

/// The places of distinct nodes of `kept` are distinct places of the
/// renumbered table.
proof fn lemma_bounded_placed(
    kept: Seq<usize>,
    ins2: Seq<Seq<OutletId>>,
    order: Seq<usize>,
    stack: Seq<(usize, usize)>,
)
    requires
        kept.no_duplicates(),
        kept.len() <= usize::MAX,
        ins2.len() == kept.len(),
        (order + frame_nodes(stack)).no_duplicates(),
        forall|i: int| 0 <= i < order.len() ==> kept.contains(#[trigger] order[i]),
        forall|i: int| 0 <= i < stack.len() ==> kept.contains((#[trigger] stack[i]).0),
    ensures
        walk_bounded(
            ins2,
            order.map_values(place(kept)),
            stack.map_values(place_frame(kept)),
        ),
        frame_nodes(stack.map_values(place_frame(kept))) == frame_nodes(stack).map_values(
            place(kept),
        ),
{
    let all = order + frame_nodes(stack);
    let order2 = order.map_values(place(kept));
    let stack2 = stack.map_values(place_frame(kept));
    let all2 = order2 + frame_nodes(stack2);
    assert(frame_nodes(stack2) =~= frame_nodes(stack).map_values(place(kept)));
    assert(all2 =~= all.map_values(place(kept)));
    assert forall|i: int| 0 <= i < all.len() implies kept.contains(#[trigger] all[i]) by {
        if i < order.len() {
            assert(all[i] == order[i]);
        } else {
            assert(all[i] == stack[i - order.len()].0);
        }
    }
    assert forall|i: int, j: int|
        0 <= i < all2.len() && 0 <= j < all2.len() && i != j implies all2[i] != all2[j] by {
        lemma_place(kept, all[i]);
        lemma_place(kept, all[j]);
        assert(all[i] != all[j]);
    }
    assert forall|i: int| 0 <= i < all2.len() implies #[trigger] all2[i] < ins2.len() by {
        lemma_place(kept, all[i]);
    }
}

/// The walk towards `target` is in a sound state.
#[verifier::opaque]
spec fn walking(
    ins: Seq<Seq<OutletId>>,
    inputs: Seq<usize>,
    needed: Seq<usize>,
    target: usize,
    order: Seq<usize>,
    stack: Seq<(usize, usize)>,
) -> bool {
    &&& walk_inv(ins, Seq::empty(), inputs, target, order, stack)
    &&& order_inv(ins, Seq::empty(), inputs, needed, order, stack)
}

/// A walk in a sound state can take its next step, into a sound state.
proof fn lemma_walking_step(
    ins: Seq<Seq<OutletId>>,
    inputs: Seq<usize>,
    targets: Seq<usize>,
    needed: Seq<usize>,
    target: usize,
    order: Seq<usize>,
    stack: Seq<(usize, usize)>,
)
    requires
        tables_in_range(ins, Seq::empty(), targets),
        targets.contains(target),
        needed.contains(target),
        walking(ins, inputs, needed, target, order, stack),
    ensures
        walk_bounded(ins, order, stack),
        order.len() + stack.len() <= ins.len(),
        stack.len() > 0 ==> {
            let (node, cursor) = stack.last();
            let deps = dependencies(ins, Seq::empty(), node);
            &&& node < ins.len()
            &&& if inputs.contains(node) || cursor >= deps.len() {
                walking(ins, inputs, needed, target, order.push(node), stack.drop_last())
            } else {
                let d = deps[cursor as int];
                &&& order.contains(d) ==> walking(
                    ins,
                    inputs,
                    needed,
                    target,
                    order,
                    stack.drop_last().push((node, (cursor + 1) as usize)),
                )
                &&& !order.contains(d) && !frame_nodes(stack).contains(d) ==> walking(
                    ins,
                    inputs,
                    needed,
                    target,
                    order,
                    stack.push((d, 0usize)),
                )
            }
        },
{
    reveal(walking);
    let none = Seq::<(usize, usize)>::empty();
    lemma_walk_bounded(ins, none, inputs, needed, target, order, stack);
    if stack.len() > 0 {
        let (node, cursor) = stack.last();
        let deps = dependencies(ins, none, node);
        assert(stack[stack.len() - 1].0 < ins.len());
        lemma_dependencies_in_range(ins, none, targets, node);
        if inputs.contains(node) || cursor >= deps.len() {
            lemma_emit(ins, none, inputs, needed, target, order, stack);
        } else {
            let d = deps[cursor as int];
            if order.contains(d) {
                lemma_advance(ins, none, inputs, needed, target, order, stack);
            } else if !frame_nodes(stack).contains(d) {
                lemma_descend(ins, none, inputs, needed, target, order, stack, d);
            }
        }
    }
}

/// What the top frame of a walk looks like over the renumbered tables.
proof fn lemma_placed_step(
    ins: Seq<Seq<OutletId>>,
    inputs: Seq<usize>,
    kept: Seq<usize>,
    ins2: Seq<Seq<OutletId>>,
    inputs2: Seq<usize>,
    order: Seq<usize>,
    stack: Seq<(usize, usize)>,
)
    requires
        renumbered(ins, inputs, kept, ins2, inputs2),
        walk_bounded(ins, order, stack),
        forall|i: int| 0 <= i < order.len() ==> kept.contains(#[trigger] order[i]),
        forall|i: int| 0 <= i < stack.len() ==> kept.contains((#[trigger] stack[i]).0),
    ensures
        table_ok(ins2, Seq::empty()),
        walk_bounded(ins2, order.map_values(place(kept)), stack.map_values(place_frame(kept))),
        stack.len() > 0 ==> {
            let (node, cursor) = stack.last();
            let deps = dependencies(ins, Seq::empty(), node);
            let top = stack.map_values(place_frame(kept)).last();
            &&& kept.contains(node)
            &&& top == (place(kept)(node), cursor)
            &&& inputs2.contains(top.0) == inputs.contains(node)
            &&& dependencies(ins2, Seq::empty(), top.0) == deps.map_values(place(kept))
            &&& cursor < deps.len() ==> {
                let d = deps[cursor as int];
                &&& kept.contains(d)
                &&& order.map_values(place(kept)).contains(place(kept)(d)) == order.contains(d)
                &&& frame_nodes(stack.map_values(place_frame(kept))).contains(place(kept)(d))
                    == frame_nodes(stack).contains(d)
            }
        },
{
    let none = Seq::<(usize, usize)>::empty();
    assert(kept.no_duplicates() && ins2.len() == kept.len() && table_ok(ins2, none)
        && kept.len() <= usize::MAX) by {
        reveal(renumbered);
        lemma_distinct_below(kept, ins.len());
    }
    lemma_bounded_placed(kept, ins2, order, stack);
    if stack.len() > 0 {
        let (node, cursor) = stack.last();
        assert(kept.contains(stack[stack.len() - 1].0));
        lemma_place(kept, node);
        let k = kept.index_of(node);
        let deps = dependencies(ins, none, node);
        lemma_dependencies_placed(ins, inputs, kept, ins2, inputs2, k);
        assert(inputs2.contains(k as usize) == inputs.contains(kept[k])) by {
            reveal(renumbered);
        }
        if cursor < deps.len() {
            let d = deps[cursor as int];
            assert(kept.contains(d));
            lemma_placed_contains(kept, order, d);
            assert forall|i: int| 0 <= i < frame_nodes(stack).len() implies kept.contains(
                #[trigger] frame_nodes(stack)[i],
            ) by {
                assert(frame_nodes(stack)[i] == stack[i].0);
            }
            lemma_placed_contains(kept, frame_nodes(stack), d);
        }
    }
}

/// A walk over the renumbered tables passes the places of the nodes that
/// the walk over the tables passes, in the same order.
proof fn lemma_walk_renumbered(
    ins: Seq<Seq<OutletId>>,
    inputs: Seq<usize>,
    kept: Seq<usize>,
    ins2: Seq<Seq<OutletId>>,
    inputs2: Seq<usize>,
    targets: Seq<usize>,
    needed: Seq<usize>,
    target: usize,
    order: Seq<usize>,
    stack: Seq<(usize, usize)>,
)
    requires
        renumbered(ins, inputs, kept, ins2, inputs2),
        tables_in_range(ins, Seq::empty(), targets),
        targets.contains(target),
        needed.contains(target),
        walking(ins, inputs, needed, target, order, stack),
        forall|i: int| 0 <= i < order.len() ==> kept.contains(#[trigger] order[i]),
        forall|i: int| 0 <= i < stack.len() ==> kept.contains((#[trigger] stack[i]).0),
    ensures
        match walk(ins, Seq::empty(), inputs, order, stack) {
            Some(o) => {
                &&& walk(
                    ins2,
                    Seq::empty(),
                    inputs2,
                    order.map_values(place(kept)),
                    stack.map_values(place_frame(kept)),
                ) == Some(o.map_values(place(kept)))
                &&& forall|i: int| 0 <= i < o.len() ==> kept.contains(#[trigger] o[i])
            },
            None => walk(
                ins2,
                Seq::empty(),
                inputs2,
                order.map_values(place(kept)),
                stack.map_values(place_frame(kept)),
            ) is None,
        },
    decreases ins.len() - order.len(), ins.len() - stack.len(), remaining(ins, Seq::empty(), stack),
{
    let none = Seq::<(usize, usize)>::empty();
    let order2 = order.map_values(place(kept));
    let stack2 = stack.map_values(place_frame(kept));
    lemma_walking_step(ins, inputs, targets, needed, target, order, stack);
    lemma_placed_step(ins, inputs, kept, ins2, inputs2, order, stack);
    if stack.len() == 0 {
        assert(stack2.len() == 0);
        assert(walk(ins, none, inputs, order, stack) == Some(order));
        assert(walk(ins2, none, inputs2, order2, stack2) == Some(order2));
    } else {
        let (node, cursor) = stack.last();
        let deps = dependencies(ins, none, node);
        if inputs.contains(node) || cursor >= deps.len() {
            let next_order = order.push(node);
            let next_stack = stack.drop_last();
            assert(next_order.map_values(place(kept)) =~= order2.push(stack2.last().0));
            assert(next_stack.map_values(place_frame(kept)) =~= stack2.drop_last());
            assert forall|i: int| 0 <= i < next_order.len() implies kept.contains(
                #[trigger] next_order[i],
            ) by {
                if i < order.len() {
                    assert(next_order[i] == order[i]);
                }
            }
            assert forall|i: int| 0 <= i < next_stack.len() implies kept.contains(
                (#[trigger] next_stack[i]).0,
            ) by {
                assert(next_stack[i] == stack[i]);
            }
            lemma_walking_step(ins, inputs, targets, needed, target, next_order, next_stack);
            lemma_placed_step(ins, inputs, kept, ins2, inputs2, next_order, next_stack);
            lemma_walk_renumbered(
                ins,
                inputs,
                kept,
                ins2,
                inputs2,
                targets,
                needed,
                target,
                next_order,
                next_stack,
            );
            assert(walk(ins, none, inputs, order, stack) == walk(
                ins,
                none,
                inputs,
                next_order,
                next_stack,
            ));
            assert(walk(ins2, none, inputs2, order2, stack2) == walk(
                ins2,
                none,
                inputs2,
                order2.push(stack2.last().0),
                stack2.drop_last(),
            ));
        } else {
            let d = deps[cursor as int];
            if order.contains(d) {
                let next_stack = stack.drop_last().push((node, (cursor + 1) as usize));
                assert(next_stack.map_values(place_frame(kept)) =~= stack2.drop_last().push(
                    (stack2.last().0, (cursor + 1) as usize),
                ));
                assert forall|i: int| 0 <= i < next_stack.len() implies kept.contains(
                    (#[trigger] next_stack[i]).0,
                ) by {
                    if i < stack.len() - 1 {
                        assert(next_stack[i] == stack[i]);
                    }
                }
                lemma_walking_step(ins, inputs, targets, needed, target, order, next_stack);
                lemma_placed_step(ins, inputs, kept, ins2, inputs2, order, next_stack);
                lemma_walk_renumbered(
                    ins,
                    inputs,
                    kept,
                    ins2,
                    inputs2,
                    targets,
                    needed,
                    target,
                    order,
                    next_stack,
                );
                assert(walk(ins, none, inputs, order, stack) == walk(
                    ins,
                    none,
                    inputs,
                    order,
                    next_stack,
                ));
                assert(walk(ins2, none, inputs2, order2, stack2) == walk(
                    ins2,
                    none,
                    inputs2,
                    order2,
                    stack2.drop_last().push((stack2.last().0, (cursor + 1) as usize)),
                ));
            } else if frame_nodes(stack).contains(d) {
                assert(walk(ins, none, inputs, order, stack) is None);
                assert(walk(ins2, none, inputs2, order2, stack2) is None);
            } else {
                let next_stack = stack.push((d, 0usize));
                assert(next_stack.map_values(place_frame(kept)) =~= stack2.push(
                    (place(kept)(d), 0usize),
                ));
                assert forall|i: int| 0 <= i < next_stack.len() implies kept.contains(
                    (#[trigger] next_stack[i]).0,
                ) by {
                    if i < stack.len() {
                        assert(next_stack[i] == stack[i]);
                    }
                }
                lemma_walking_step(ins, inputs, targets, needed, target, order, next_stack);
                lemma_placed_step(ins, inputs, kept, ins2, inputs2, order, next_stack);
                lemma_walk_renumbered(
                    ins,
                    inputs,
                    kept,
                    ins2,
                    inputs2,
                    targets,
                    needed,
                    target,
                    order,
                    next_stack,
                );
                assert(walk(ins, none, inputs, order, stack) == walk(
                    ins,
                    none,
                    inputs,
                    order,
                    next_stack,
                ));
                assert(walk(ins2, none, inputs2, order2, stack2) == walk(
                    ins2,
                    none,
                    inputs2,
                    order2,
                    stack2.push((place(kept)(d), 0usize)),
                ));
            }
        }
    }
}

/// The schedule over the renumbered tables is the schedule over the
/// tables, each node under its place.
pub proof fn lemma_schedule_renumbered(
    ins: Seq<Seq<OutletId>>,
    inputs: Seq<usize>,
    kept: Seq<usize>,
    ins2: Seq<Seq<OutletId>>,
    inputs2: Seq<usize>,
    targets: Seq<usize>,
    upto: int,
)
    requires
        renumbered(ins, inputs, kept, ins2, inputs2),
        tables_in_range(ins, Seq::empty(), targets),
        forall|j: int| 0 <= j < targets.len() ==> kept.contains(#[trigger] targets[j]),
        0 <= upto <= targets.len(),
    ensures
        match schedule(ins, Seq::empty(), inputs, targets, upto) {
            Some(o) => {
                &&& schedule(
                    ins2,
                    Seq::empty(),
                    inputs2,
                    targets.map_values(place(kept)),
                    upto,
                ) == Some(o.map_values(place(kept)))
                &&& forall|i: int| 0 <= i < o.len() ==> kept.contains(#[trigger] o[i])
            },
            None => schedule(
                ins2,
                Seq::empty(),
                inputs2,
                targets.map_values(place(kept)),
                upto,
            ) is None,
        },
    decreases upto,
{
    let none = Seq::<(usize, usize)>::empty();
    let targets2 = targets.map_values(place(kept));
    if upto <= 0 {
        assert(Seq::<usize>::empty().map_values(place(kept)) =~= Seq::<usize>::empty());
    } else {
        lemma_schedule_renumbered(ins, inputs, kept, ins2, inputs2, targets, upto - 1);
        lemma_schedule(ins, none, inputs, targets, upto - 1);
        assert(kept.no_duplicates() && kept.len() <= usize::MAX) by {
            reveal(renumbered);
            lemma_distinct_below(kept, ins.len());
        }
        let before = targets.take(upto - 1);
        let needed = targets.take(upto);
        let target = targets[upto - 1];
        assert(needed[upto - 1] == target);
        assert(targets2[upto - 1] == place(kept)(target));
        assert forall|x: usize| before.contains(x) implies needed.contains(x) by {
            let w = choose|w: int| 0 <= w < before.len() && before[w] == x;
            assert(needed[w] == x);
        }
        match schedule(ins, none, inputs, targets, upto - 1) {
            None => {},
            Some(order) => {
                assert(order_inv(ins, none, inputs, before, order, Seq::empty()));
                lemma_placed_contains(kept, order, target);
                if !order.contains(target) {
                    lemma_walk_start(ins, none, inputs, before, needed, target, order);
                    let stack = seq![(target, 0usize)];
                    assert(stack.map_values(place_frame(kept)) =~= seq![
                        (place(kept)(target), 0usize),
                    ]);
                    assert(walking(ins, inputs, needed, target, order, stack)) by {
                        reveal(walking);
                    }
                    assert(kept.contains(stack[0].0));
                    lemma_walk_renumbered(
                        ins,
                        inputs,
                        kept,
                        ins2,
                        inputs2,
                        targets,
                        needed,
                        target,
                        order,
                        stack,
                    );
                }
            },
        }
    }
}

/// Schedules the nodes that the targets `model_outputs` depend on, each
/// behind everything it waits for. A node waits for the producers of its
/// inputs and for the second entry of each pair of `more_dependencies`
/// whose first entry it is; a node of `model_inputs` waits for nothing.
/// The walk from each target is depth first, over an explicit stack.
#[verifier::rlimit(60)]
#[verifier::spinoff_prover]
pub fn eval_order_for_nodes<U>(
    nodes: &[Node<U>],
    model_inputs: &[usize],
    model_outputs: &[usize],
    more_dependencies: &[(usize, usize)],
) -> (r: TractResult<Vec<usize>>)
    requires
        tables_in_range(inputs_table(nodes@), more_dependencies@, model_outputs@),
    ensures
        match r {
            Ok(order) => {
                &&& schedule(
                    inputs_table(nodes@),
                    more_dependencies@,
                    model_inputs@,
                    model_outputs@,
                    model_outputs@.len() as int,
                ) == Some(order@)
                &&& valid_order(
                    inputs_table(nodes@),
                    more_dependencies@,
                    model_inputs@,
                    model_outputs@,
                    order@,
                )
                &&& !has_cycle(
                    inputs_table(nodes@),
                    more_dependencies@,
                    model_inputs@,
                    model_outputs@,
                )
            },
            Err(e) => {
                &&& e == TractError::CyclicGraphError
                &&& schedule(
                    inputs_table(nodes@),
                    more_dependencies@,
                    model_inputs@,
                    model_outputs@,
                    model_outputs@.len() as int,
                ) is None
                &&& has_cycle(
                    inputs_table(nodes@),
                    more_dependencies@,
                    model_inputs@,
                    model_outputs@,
                )
            },
        },
{
    broadcast use group_hash_axioms;

    let ghost ins = inputs_table(nodes@);
    let ghost more = more_dependencies@;
    let ghost inputs = model_inputs@;
    let ghost targets = model_outputs@;
    let mut done: HashSet<usize> = HashSet::new();
    let mut order: Vec<usize> = Vec::new();
    let mut t: usize = 0;
    assert(targets.take(0) =~= Seq::<usize>::empty());
    while t < model_outputs.len()
        invariant
            t <= model_outputs.len(),
            ins == inputs_table(nodes@),
            more == more_dependencies@,
            inputs == model_inputs@,
            targets == model_outputs@,
            tables_in_range(ins, more, targets),
            order@.no_duplicates(),
            forall|x: usize| done@.contains(x) <==> order@.contains(x),
            forall|j: int| 0 <= j < t ==> order@.contains(#[trigger] targets[j]),
            order_inv(ins, more, inputs, targets.take(t as int), order@, Seq::empty()),
            schedule(ins, more, inputs, targets, t as int) == Some(order@),
        decreases model_outputs.len() - t,
    {
        let model_target = model_outputs[t];
        let ghost needed = targets.take(t as int + 1);
        assert(needed.contains(model_target)) by {
            assert(needed[t as int] == model_target);
        }
        assert forall|x: usize| targets.take(t as int).contains(x) implies needed.contains(x) by {
            let w = choose|w: int|
                0 <= w < targets.take(t as int).len() && targets.take(t as int)[w] == x;
            assert(needed[w] == x);
        }
        if !done.contains(&model_target) {
            let mut current_stack: Vec<(usize, usize)> = Vec::new();
            current_stack.push((model_target, 0));
            let mut pending: HashSet<usize> = HashSet::new();
            pending.insert(model_target);
            let ghost start = order@;
            proof {
                let stack = current_stack@;
                assert(stack =~= seq![(model_target, 0usize)]);
                assert(frame_nodes(stack) =~= seq![model_target]);
                assert((order@ + frame_nodes(stack)) =~= order@.push(model_target));
                assert(targets[t as int] < ins.len());
                assert forall|x: usize|
                    pending@.contains(x) <==> frame_nodes(stack).contains(x) by {
                    if x == model_target {
                        assert(frame_nodes(stack)[0] == x);
                    }
                }
            }
            while current_stack.len() > 0
                invariant
                    ins == inputs_table(nodes@),
                    more == more_dependencies@,
                    inputs == model_inputs@,
                    targets == model_outputs@,
                    tables_in_range(ins, more, targets),
                    t < targets.len(),
                    model_target == targets[t as int],
                    needed == targets.take(t as int + 1),
                    needed.contains(model_target),
                    forall|x: usize| done@.contains(x) <==> order@.contains(x),
                    forall|x: usize|
                        pending@.contains(x) <==> frame_nodes(current_stack@).contains(x),
                    forall|j: int| 0 <= j < t ==> order@.contains(#[trigger] targets[j]),
                    walk_inv(ins, more, inputs, model_target, order@, current_stack@),
                    order_inv(ins, more, inputs, needed, order@, current_stack@),
                    schedule(ins, more, inputs, targets, t as int + 1) == walk(
                        ins,
                        more,
                        inputs,
                        order@,
                        current_stack@,
                    ),
                decreases
                        nodes@.len() - order@.len(),
                        nodes@.len() - current_stack@.len(),
                        if current_stack@.len() > 0 {
                            dependencies(ins, more, current_stack@.last().0).len()
                                - current_stack@.last().1
                        } else {
                            0
                        },
            {
                let ghost stack = current_stack@;
                let ghost before = order@;
                proof {
                    lemma_distinct_below(order@ + frame_nodes(stack), nodes@.len());
                    lemma_dependencies_in_range(ins, more, targets, stack.last().0);
                    lemma_walk_bounded(ins, more, inputs, needed, model_target, order@, stack);
                }
                let (current_node, current_input) = current_stack.pop().unwrap();
                assert(current_stack@ == stack.drop_last());
                assert(stack.last() == (current_node, current_input));
                assert(current_node < nodes@.len());
                assert forall|k: int|
                    0 <= k < nodes@[current_node as int].inputs@.len() implies (
                #[trigger] nodes@[current_node as int].inputs@[k]).node < nodes@.len() by {
                    assert(ins[current_node as int][k].node < ins.len());
                }
                let deps = dependencies_of(nodes, more_dependencies, current_node);
                if contains_node(model_inputs, current_node) || current_input == deps.len() {
                    proof {
                        lemma_emit(ins, more, inputs, needed, model_target, order@, stack);
                    }
                    order.push(current_node);
                    done.insert(current_node);
                    pending.remove(&current_node);
                    proof {
                        assert forall|x: usize| done@.contains(x) <==> order@.contains(x) by {
                            if order@.contains(x) {
                                let w = choose|w: int| 0 <= w < order@.len() && order@[w] == x;
                                if w < before.len() {
                                    assert(before[w] == x);
                                }
                            }
                            if before.contains(x) {
                                let w = choose|w: int| 0 <= w < before.len() && before[w] == x;
                                assert(order@[w] == x);
                            }
                            if x == current_node {
                                assert(order@[before.len() as int] == x);
                            }
                        }
                        assert forall|x: usize|
                            pending@.contains(x) <==> frame_nodes(current_stack@).contains(x) by {
                            let nodes_before = frame_nodes(stack);
                            let nodes_after = frame_nodes(current_stack@);
                            let all = before + nodes_before;
                            if nodes_after.contains(x) {
                                let w = choose|w: int|
                                    0 <= w < nodes_after.len() && nodes_after[w] == x;
                                assert(nodes_before[w] == x);
                                assert(all[before.len() + w] == x);
                                assert(all[before.len() + stack.len() - 1] == current_node);
                                assert(x != current_node);
                            }
                            if nodes_before.contains(x) && x != current_node {
                                let w = choose|w: int|
                                    0 <= w < nodes_before.len() && nodes_before[w] == x;
                                assert(nodes_after[w] == x);
                            }
                        }
                        assert forall|j: int| 0 <= j < t implies order@.contains(
                            #[trigger] targets[j],
                        ) by {
                            assert(before.contains(targets[j]));
                            let w = choose|w: int| 0 <= w < before.len() && before[w] == targets[j];
                            assert(order@[w] == targets[j]);
                        }
                    }
                } else {
                    let precursor = deps[current_input];
                    assert(precursor < nodes@.len());
                    if done.contains(&precursor) {
                        proof {
                            lemma_advance(ins, more, inputs, needed, model_target, order@, stack);
                        }
                        current_stack.push((current_node, current_input + 1));
                        assert(frame_nodes(current_stack@) =~= frame_nodes(stack));
                    } else if pending.contains(&precursor) {
                        proof {
                            lemma_pending_is_cycle(
                                ins,
                                more,
                                inputs,
                                targets,
                                model_target,
                                order@,
                                stack,
                                precursor,
                            );
                            lemma_schedule_fails_on(
                                ins,
                                more,
                                inputs,
                                targets,
                                t as int + 1,
                                targets.len() as int,
                            );
                        }
                        return Err(TractError::CyclicGraphError);
                    } else {
                        proof {
                            lemma_descend(
                                ins,
                                more,
                                inputs,
                                needed,
                                model_target,
                                order@,
                                stack,
                                precursor,
                            );
                        }
                        pending.insert(precursor);
                        current_stack.push((current_node, current_input));
                        current_stack.push((precursor, 0));
                        proof {
                            assert(current_stack@ =~= stack.push((precursor, 0)));
                            assert(frame_nodes(current_stack@) =~= frame_nodes(stack).push(
                                precursor,
                            ));
                            assert forall|x: usize|
                                pending@.contains(x) <==> frame_nodes(current_stack@).contains(
                                    x,
                                ) by {
                                let fa = frame_nodes(stack);
                                let fb = frame_nodes(current_stack@);
                                if fb.contains(x) {
                                    let w = choose|w: int| 0 <= w < fb.len() && fb[w] == x;
                                    if w < fa.len() {
                                        assert(fa[w] == x);
                                    }
                                }
                                if fa.contains(x) {
                                    let w = choose|w: int| 0 <= w < fa.len() && fa[w] == x;
                                    assert(fb[w] == x);
                                }
                                if x == precursor {
                                    assert(fb[fa.len() as int] == x);
                                }
                            }
                            lemma_distinct_below(
                                order@ + frame_nodes(current_stack@),
                                nodes@.len(),
                            );
                        }
                    }
                }
            }
            proof {
                assert(order_inv(ins, more, inputs, needed, order@, Seq::empty()));
            }
        } else {
            proof {
                assert forall|k: int| 0 <= k < order@.len() implies {
                    ||| needed.contains(#[trigger] order@[k])
                    ||| exists|j: int|
                        k < j < order@.len() && traversed(
                            ins,
                            more,
                            inputs,
                            #[trigger] order@[j],
                            order@[k],
                        )
                    ||| exists|i: int|
                        0 <= i < Seq::<(usize, usize)>::empty().len() && traversed(
                            ins,
                            more,
                            inputs,
                            (#[trigger] Seq::<(usize, usize)>::empty()[i]).0,
                            order@[k],
                        )
                } by {
                    if targets.take(t as int).contains(order@[k]) {
                    }
                }
            }
        }
        t += 1;
    }
    proof {
        assert(targets.take(t as int) =~= targets);
        assert(valid_order(ins, more, inputs, targets, order@));
        lemma_valid_order_excludes_cycle(ins, more, inputs, targets, order@);
    }
    Ok(order)
}

impl<V> GraphView<V> {
    /// For each node, the outlets it consumes.
    pub open spec fn inputs_table(self) -> Seq<Seq<OutletId>> {
        Seq::new(self.nodes.len(), |i: int| self.nodes[i].inputs)
    }

    /// The nodes of the declared graph inputs.
    pub open spec fn input_nodes(self) -> Seq<usize> {
        self.inputs.map_values(producer())
    }

    /// The nodes of the declared graph outputs.
    pub open spec fn output_nodes(self) -> Seq<usize> {
        self.outputs.map_values(producer())
    }

    /// `order` schedules what the declared outputs need.
    pub open spec fn is_eval_order(self, order: Seq<usize>) -> bool {
        valid_order(
            self.inputs_table(),
            Seq::empty(),
            self.input_nodes(),
            self.output_nodes(),
            order,
        )
    }

    /// A declared output depends on a node that depends on itself.
    pub open spec fn is_cyclic(self) -> bool {
        has_cycle(self.inputs_table(), Seq::empty(), self.input_nodes(), self.output_nodes())
    }

    /// The evaluation order of the graph: the schedule of the nodes of its
    /// declared outputs, where there is one.
    pub open spec fn scheduled(self) -> Option<Seq<usize>> {
        schedule(
            self.inputs_table(),
            Seq::empty(),
            self.input_nodes(),
            self.output_nodes(),
            self.outputs.len() as int,
        )
    }

    /// The tables of a well-formed graph are in order.
    pub proof fn lemma_tables(self)
        requires
            self.wf(),
        ensures
            tables_in_range(self.inputs_table(), Seq::empty(), self.output_nodes()),
            tables_in_range(
                self.inputs_table(),
                Seq::empty(),
                self.output_nodes() + self.input_nodes(),
            ),
    {
        let ins = self.inputs_table();
        assert forall|i: int, k: int| 0 <= i < ins.len() && 0 <= k < ins[i].len() implies (
        #[trigger] ins[i][k]).node < ins.len() by {
            assert(self.input_ok(i, k));
        }
        assert forall|n: usize| n < ins.len() implies (#[trigger] dependencies(
            ins,
            Seq::empty(),
            n,
        )).len() <= usize::MAX by {
            lemma_dependencies_len(ins, n);
            if ins[n as int].len() > 0 {
                assert(self.input_ok(n as int, ins[n as int].len() - 1));
            }
        }
        let all = self.output_nodes() + self.input_nodes();
        assert forall|j: int| 0 <= j < all.len() implies #[trigger] all[j] < ins.len() by {
            if j < self.outputs.len() {
                assert(self.has_outlet(self.outputs[j]));
            } else {
                assert(self.has_outlet(self.inputs[j - self.outputs.len()]));
            }
        }
        assert forall|j: int| 0 <= j < self.output_nodes().len() implies #[trigger] self.output_nodes()[j]
            < ins.len() by {
            assert(self.has_outlet(self.outputs[j]));
        }
    }

    /// Every node of the evaluation order comes behind the producers of
    /// its inputs, unless it is a declared graph input; and there is an
    /// evaluation order exactly where no declared output depends on a
    /// cycle.
    pub proof fn lemma_scheduled(self)
        requires
            self.wf(),
        ensures
            match self.scheduled() {
                Some(order) => self.is_eval_order(order) && !self.is_cyclic(),
                None => self.is_cyclic(),
            },
    {
        self.lemma_tables();
        let targets = self.output_nodes();
        lemma_schedule(
            self.inputs_table(),
            Seq::empty(),
            self.input_nodes(),
            targets,
            targets.len() as int,
        );
        assert(targets.take(targets.len() as int) =~= targets);
        if self.scheduled() is Some {
            lemma_valid_order_excludes_cycle(
                self.inputs_table(),
                Seq::empty(),
                self.input_nodes(),
                targets,
                self.scheduled()->0,
            );
        }
    }
}

fn producers_of(outlets: &Vec<OutletId>) -> (r: Vec<usize>)
    ensures
        r@ == outlets@.map_values(producer()),
{
    let mut r: Vec<usize> = Vec::new();
    let mut i: usize = 0;
    while i < outlets.len()
        invariant
            i <= outlets.len(),
            r@.len() == i,
            forall|j: int| 0 <= j < i ==> r@[j] == outlets@[j].node,
        decreases outlets.len() - i,
    {
        r.push(outlets[i].node);
        i += 1;
    }
    assert(r@ =~= outlets@.map_values(producer()));
    r
}

/// Schedules the nodes that the declared outputs of `model` need, each
/// behind the producers of its inputs. Declared graph inputs wait for
/// nothing.
pub fn eval_order<U: View>(model: &Graph<U>) -> (r: TractResult<Vec<usize>>)
    requires
        model.wf(),
    ensures
        match r {
            Ok(order) => {
                &&& model@.scheduled() == Some(order@)
                &&& model@.is_eval_order(order@)
                &&& !model@.is_cyclic()
            },
            Err(e) => {
                &&& e == TractError::CyclicGraphError
                &&& model@.scheduled() is None
                &&& model@.is_cyclic()
            },
        },
{
    let inputs = producers_of(&model.inputs);
    let targets = producers_of(&model.outputs);
    let more: Vec<(usize, usize)> = Vec::new();
    proof {
        let ins = inputs_table(model.nodes@);
        assert(ins =~= model@.inputs_table());
        assert(more@ =~= Seq::<(usize, usize)>::empty());
        model@.lemma_tables();
    }
    eval_order_for_nodes(model.nodes.as_slice(), inputs.as_slice(), targets.as_slice(), more.as_slice())
}

impl<U: View> Graph<U> {
    /// Schedules the nodes that the declared outputs need.
    pub fn eval_order(&self) -> (r: TractResult<Vec<usize>>)
        requires
            self.wf(),
        ensures
            match r {
                Ok(order) => {
                    &&& self@.scheduled() == Some(order@)
                    &&& self@.is_eval_order(order@)
                    &&& !self@.is_cyclic()
                },
                Err(e) => {
                    &&& e == TractError::CyclicGraphError
                    &&& self@.scheduled() is None
                    &&& self@.is_cyclic()
                },
            },
    {
        eval_order(self)
    }
}

} // verus!
