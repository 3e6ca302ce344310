//! Properties that relate several operations of the graph, or hold of every graph.

use crate::graph::{
    added_connection, added_node, mixed_input, prepared, removed_connection, removed_node,
    rendered, summed_inputs, EdgeIndex, Graph, NodeIndex,
};
use crate::node::Node;
use crate::sample::{Sample, EQUILIBRIUM, UNITY};
use crate::topology::{
    acyclic, edges_within, is_isolated, is_topological_order, lemma_edge_against_path_cycles,
    reaches, relabel_edges, swap_removed,
};
use vstd::prelude::*;

verus! {

/// Every graph that the API hands out has no cycle; its visit order lists each node exactly
/// once with the input of every connection before its output; and its master, if set, is a
/// node of the graph.
pub proof fn lemma_graph_invariants<N>(g: Graph<N>)
    requires
        g.wf(),
    ensures
        acyclic(g.spec_edges()),
        edges_within(g.spec_edges(), g.spec_node_count()),
        g.spec_visit_order().len() == g.spec_node_count(),
        g.spec_visit_order().no_duplicates(),
        is_topological_order(g.spec_visit_order(), g.spec_edges(), g.spec_node_count()),
        g.spec_master() matches Some(m) ==> m < g.spec_node_count(),
{
}

/// Adding a connection and then removing it at the index it was given yields the nodes,
/// connections and buffers that the graph had before.
pub proof fn lemma_add_then_remove_connection<N>(
    before: Graph<N>,
    added: Graph<N>,
    removed: Graph<N>,
    src: NodeIndex,
    dest: NodeIndex,
    e: EdgeIndex,
)
    requires
        before.wf(),
        added_connection(before, added, src, dest, e),
        removed_connection(added, removed, e),
    ensures
        removed.spec_nodes() == before.spec_nodes(),
        removed.spec_edges() == before.spec_edges(),
        removed.spec_buffers() == before.spec_buffers(),
{
    assert(swap_removed(before.spec_edges().push((src, dest)), e as int) =~= before.spec_edges());
    assert(swap_removed(before.spec_buffers().push(Seq::empty()), e as int)
        =~= before.spec_buffers());
}

/// Adding a node and then removing it at the index it was given yields the nodes, connections,
/// buffers and master that the graph had before.
pub proof fn lemma_add_then_remove_node<N>(
    before: Graph<N>,
    added: Graph<N>,
    removed: Graph<N>,
    node: N,
    idx: NodeIndex,
)
    requires
        before.wf(),
        added_node(before, added, node, idx),
        removed_node(added, removed, idx),
    ensures
        removed.spec_nodes() == before.spec_nodes(),
        removed.spec_edges() == before.spec_edges(),
        removed.spec_buffers() == before.spec_buffers(),
        removed.spec_master() == before.spec_master(),
{
    let edges = before.spec_edges();
    assert(swap_removed(before.spec_nodes().push(node), idx as int) =~= before.spec_nodes());
    assert forall|e: int| 0 <= e < edges.len() implies (#[trigger] edges[e]).0 != idx
        && edges[e].1 != idx by {
        assert(edges[e].0 < idx && edges[e].1 < idx);
    }
    assert(is_isolated(added.spec_edges(), idx));
    assert(relabel_edges(edges, idx, idx) =~= edges);
}

/// The plain sum of sample `i` of the buffers of the connections `order`.
pub open spec fn plain_sum(buffers: Seq<Seq<Sample>>, order: Seq<EdgeIndex>, i: int) -> int
    decreases order.len(),
{
    if order.len() == 0 {
        0
    } else {
        plain_sum(buffers, order.drop_last(), i) + buffers[order.last() as int][i]
    }
}

/// Summing the inputs gives, sample by sample, the sum of the input buffers, as long as no
/// partial sum leaves the sample range (beyond it, each addition saturates).
pub proof fn lemma_mixed_input_is_sum(buffers: Seq<Seq<Sample>>, order: Seq<EdgeIndex>, i: int)
    requires
        forall|k: int|
            0 <= k <= order.len() ==> i32::MIN <= #[trigger] plain_sum(
                buffers,
                order.subrange(0, k),
                i,
            ) <= i32::MAX,
    ensures
        mixed_input(buffers, order, i) == plain_sum(buffers, order, i),
    decreases order.len(),
{
    if order.len() > 0 {
        let shorter = order.drop_last();
        assert forall|k: int| 0 <= k <= shorter.len() implies i32::MIN <= #[trigger] plain_sum(
            buffers,
            shorter.subrange(0, k),
            i,
        ) <= i32::MAX by {
            assert(shorter.subrange(0, k) =~= order.subrange(0, k));
        }
        lemma_mixed_input_is_sum(buffers, shorter, i);
        assert(order.subrange(0, order.len() as int) =~= order);
    }
}

/// A node without inputs starts from silence.
pub proof fn lemma_no_inputs_is_silence(buffers: Seq<Seq<Sample>>, i: int)
    ensures
        mixed_input(buffers, Seq::empty(), i) == EQUILIBRIUM,
{
}

/// Preparing the buffers twice for the same size leaves every buffer as the first
/// preparation left it.
pub proof fn lemma_prepare_idempotent<N>(
    before: Graph<N>,
    once: Graph<N>,
    twice: Graph<N>,
    len: nat,
)
    requires
        prepared(before, once, len),
        prepared(once, twice, len),
    ensures
        twice.spec_buffers() == once.spec_buffers(),
        twice.spec_dry_len() == once.spec_dry_len(),
{
    assert forall|e: int| 0 <= e < twice.spec_buffers().len() implies
        #[trigger] twice.spec_buffers()[e] == once.spec_buffers()[e] by {
        assert(twice.spec_buffers()[e] =~= once.spec_buffers()[e]);
    }
    assert(twice.spec_buffers() =~= once.spec_buffers());
}

/// When `v` already reaches `u`, a connection from `u` to `v` would close a cycle, so
/// `add_connection(u, v)` returns `WouldCycle` and leaves the connections as they were.
pub proof fn lemma_cycle_rejection<N>(g: Graph<N>, u: NodeIndex, v: NodeIndex)
    requires
        g.wf(),
        reaches(g.spec_edges(), v, u),
    ensures
        !acyclic(g.spec_edges().push((u, v))),
{
    lemma_edge_against_path_cycles(g.spec_edges(), u, v);
}

/// A graph of one node that renders silence, keeping all of its wet signal and none of its
/// dry signal, renders silence.
pub proof fn lemma_silent_single_node<N: Node>(
    before: Graph<N>,
    after: Graph<N>,
    output: Seq<Sample>,
    len: nat,
    sample_hz: u32,
)
    requires
        before.wf(),
        before.spec_node_count() == 1,
        rendered(before, after, 0, output, len, sample_hz),
        forall|input: Seq<Sample>|
            #[trigger] before.spec_nodes()[0].spec_render(input, sample_hz) == Seq::new(
                input.len(),
                |i: int| EQUILIBRIUM,
            ),
        before.spec_nodes()[0].spec_wet() == UNITY,
        before.spec_nodes()[0].spec_dry() == 0,
    ensures
        output.len() == len,
        forall|i: int| 0 <= i < len ==> #[trigger] output[i] == EQUILIBRIUM,
{
    let input = summed_inputs(after, 0, len);
    assert(before.spec_nodes()[0].spec_render(input, sample_hz) == Seq::new(
        input.len(),
        |i: int| EQUILIBRIUM,
    ));
}

} // verus!
