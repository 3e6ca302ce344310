//! The graph's structure (nodes, edges and their adjacency lists), kept by daggy.
//!
//! The structure carries no weights: node data and connection buffers live beside it in
//! vectors that follow its indices, so that verified code can read and write them. Each
//! function here makes one call into daggy (or into petgraph through daggy) and states what
//! that call does to the edge list and node count.

use crate::graph::WouldCycle;
use crate::topology::{
    acyclic, edges_into, edges_out_of, edges_within, has_edge, is_isolated, is_topological_order,
    relabel_edges, swap_removed,
};
use daggy::Walker;
use vstd::prelude::*;

verus! {

/// The structure of a graph: daggy's `Dag` without node or edge weights.
///
/// Verus cannot take daggy's own types (their index parameter is bound by a petgraph trait),
/// so the structure and its walkers are held in private fields that only the functions of
/// this module touch.
#[verifier::external_body]
pub struct Structure {
    dag: daggy::Dag<(), (), usize>,
}

/// A walker over the incoming edges of one node; it holds a cursor, not a borrow.
#[verifier::external_body]
pub struct ParentWalker {
    walker: daggy::Parents<(), (), usize>,
}

/// A walker over the outgoing edges of one node; it holds a cursor, not a borrow.
#[verifier::external_body]
pub struct ChildWalker {
    walker: daggy::Children<(), (), usize>,
}

/// The edges of a structure, by edge index, as `(source, target)` pairs.
pub uninterp spec fn dag_edges(d: Structure) -> Seq<(usize, usize)>;

/// The number of nodes of a structure.
pub uninterp spec fn dag_node_count(d: Structure) -> nat;

/// The incoming edges that a walker has yet to yield, in the order it yields them.
pub uninterp spec fn parents_left(
    w: ParentWalker,
    d: Structure,
) -> Seq<usize>;

/// The order in which a walker over the incoming edges of `n` yields them.
pub uninterp spec fn parents_order(d: Structure, n: usize) -> Seq<usize>;

/// The outgoing edges that a walker has yet to yield, in the order it yields them.
pub uninterp spec fn children_left(
    w: ChildWalker,
    d: Structure,
) -> Seq<usize>;

/// Relies on `daggy::Dag::with_capacity`: the new structure has no nodes and no edges.
#[verifier::external_body]
pub(crate) fn structure_with_capacity(nodes: usize, edges: usize) -> (d: Structure)
    ensures
        dag_node_count(d) == 0,
        dag_edges(d) == Seq::<(usize, usize)>::empty(),
{
    Structure { dag: daggy::Dag::with_capacity(nodes, edges) }
}

/// Relies on `daggy::Dag::clear`: all nodes and edges are removed.
#[verifier::external_body]
pub(crate) fn structure_clear(d: &mut Structure)
    ensures
        dag_node_count(*final(d)) == 0,
        dag_edges(*final(d)) == Seq::<(usize, usize)>::empty(),
{
    d.dag.clear()
}

/// Relies on `daggy::Dag::add_node`: the new node takes the next index and no edge changes.
#[verifier::external_body]
pub(crate) fn structure_add_node(d: &mut Structure) -> (r: usize)
    requires
        dag_node_count(*old(d)) < usize::MAX,
    ensures
        r == dag_node_count(*old(d)),
        dag_node_count(*final(d)) == dag_node_count(*old(d)) + 1,
        dag_edges(*final(d)) == dag_edges(*old(d)),
{
    d.dag.add_node(()).index()
}

/// Relies on `daggy::Dag::add_edge`: in a structure without cycles, the edge `a -> b` is
/// refused exactly when it would close a cycle (daggy then leaves the structure as it was);
/// an accepted edge takes the next edge index.
#[verifier::external_body]
pub(crate) fn structure_add_edge(d: &mut Structure, a: usize, b: usize) -> (r: Result<
    usize,
    WouldCycle,
>)
    requires
        a < dag_node_count(*old(d)),
        b < dag_node_count(*old(d)),
        acyclic(dag_edges(*old(d))),
        dag_edges(*old(d)).len() < usize::MAX,
    ensures
        dag_node_count(*final(d)) == dag_node_count(*old(d)),
        r is Err <==> !acyclic(dag_edges(*old(d)).push((a, b))),
        r is Err ==> dag_edges(*final(d)) == dag_edges(*old(d)),
        r matches Ok(e) ==> e == dag_edges(*old(d)).len() && dag_edges(*final(d)) == dag_edges(
            *old(d),
        ).push((a, b)),
{
    d.dag.add_edge(daggy::NodeIndex::new(a), daggy::NodeIndex::new(b), ())
        .map(|e| e.index())
        .map_err(|_| WouldCycle)
}

/// Relies on `daggy::Dag::add_parent`: a new node takes the next index, with a new edge from
/// it to `child` at the next edge index.
#[verifier::external_body]
pub(crate) fn structure_add_parent(d: &mut Structure, child: usize) -> (r: (usize, usize))
    requires
        child < dag_node_count(*old(d)),
        dag_node_count(*old(d)) < usize::MAX,
        dag_edges(*old(d)).len() < usize::MAX,
    ensures
        r.0 == dag_edges(*old(d)).len(),
        r.1 == dag_node_count(*old(d)),
        dag_node_count(*final(d)) == dag_node_count(*old(d)) + 1,
        dag_edges(*final(d)) == dag_edges(*old(d)).push((r.1, child)),
{
    let (e, n) = d.dag.add_parent(daggy::NodeIndex::new(child), (), ());
    (e.index(), n.index())
}

/// Relies on `daggy::Dag::add_child`: a new node takes the next index, with a new edge from
/// `parent` to it at the next edge index.
#[verifier::external_body]
pub(crate) fn structure_add_child(d: &mut Structure, parent: usize) -> (r: (usize, usize))
    requires
        parent < dag_node_count(*old(d)),
        dag_node_count(*old(d)) < usize::MAX,
        dag_edges(*old(d)).len() < usize::MAX,
    ensures
        r.0 == dag_edges(*old(d)).len(),
        r.1 == dag_node_count(*old(d)),
        dag_node_count(*final(d)) == dag_node_count(*old(d)) + 1,
        dag_edges(*final(d)) == dag_edges(*old(d)).push((parent, r.1)),
{
    let (e, n) = d.dag.add_child(daggy::NodeIndex::new(parent), (), ());
    (e.index(), n.index())
}

/// Relies on `daggy::Dag::add_edges`: in a structure without cycles, the edges `pairs` are
/// added after the existing ones, in order, unless together they would close a cycle, in
/// which case daggy takes them all out again and leaves the structure as it was.
#[verifier::external_body]
pub(crate) fn structure_add_edges(d: &mut Structure, pairs: &Vec<(usize, usize)>) -> (r: Result<
    (),
    WouldCycle,
>)
    requires
        forall|i: int|
            0 <= i < pairs@.len() ==> (#[trigger] pairs@[i]).0 < dag_node_count(*old(d))
                && pairs@[i].1 < dag_node_count(*old(d)),
        acyclic(dag_edges(*old(d))),
        dag_edges(*old(d)).len() + pairs@.len() <= usize::MAX,
    ensures
        dag_node_count(*final(d)) == dag_node_count(*old(d)),
        r is Err <==> !acyclic(dag_edges(*old(d)) + pairs@),
        r is Err ==> dag_edges(*final(d)) == dag_edges(*old(d)),
        r is Ok ==> dag_edges(*final(d)) == dag_edges(*old(d)) + pairs@,
{
    d.dag.add_edges(
        pairs.iter().map(|&(a, b)| (daggy::NodeIndex::new(a), daggy::NodeIndex::new(b), ())),
    ).map(|_| ()).map_err(|_| WouldCycle)
}

/// Relies on `daggy::Dag::find_edge`: some edge `a -> b` if there is one.
#[verifier::external_body]
pub(crate) fn structure_find_edge(d: &Structure, a: usize, b: usize) -> (r: Option<usize>)
    ensures
        r matches Some(e) ==> 0 <= e < dag_edges(*d).len() && dag_edges(*d)[e as int] == (a, b),
        r is None ==> !has_edge(dag_edges(*d), a, b),
{
    d.dag.find_edge(daggy::NodeIndex::new(a), daggy::NodeIndex::new(b)).map(|e| e.index())
}

/// Relies on `daggy::Dag::remove_edge`: the edge at `e` is removed and the last edge takes
/// its index; nothing happens when there is no edge at `e`.
#[verifier::external_body]
pub(crate) fn structure_remove_edge(d: &mut Structure, e: usize) -> (r: bool)
    ensures
        r == (e < dag_edges(*old(d)).len()),
        dag_node_count(*final(d)) == dag_node_count(*old(d)),
        r ==> dag_edges(*final(d)) == swap_removed(dag_edges(*old(d)), e as int),
        !r ==> dag_edges(*final(d)) == dag_edges(*old(d)),
{
    d.dag.remove_edge(daggy::EdgeIndex::new(e)).is_some()
}

/// Relies on `daggy::Dag::remove_node`, here on a node without edges: the last node takes
/// its index, so every edge endpoint at the last index moves to `a`.
#[verifier::external_body]
pub(crate) fn structure_remove_node(d: &mut Structure, a: usize)
    requires
        a < dag_node_count(*old(d)),
        is_isolated(dag_edges(*old(d)), a),
    ensures
        dag_node_count(*final(d)) == dag_node_count(*old(d)) - 1,
        dag_edges(*final(d)) == relabel_edges(
            dag_edges(*old(d)),
            (dag_node_count(*old(d)) - 1) as usize,
            a,
        ),
{
    d.dag.remove_node(daggy::NodeIndex::new(a));
}

/// Relies on `daggy::Dag::parents`: a walker over every edge into `n`, each yielded once, in
/// an order that depends on the structure alone.
#[verifier::external_body]
pub(crate) fn structure_parents(d: &Structure, n: usize) -> (r: ParentWalker)
    ensures
        parents_left(r, *d) == parents_order(*d, n),
        parents_left(r, *d).no_duplicates(),
        parents_left(r, *d).to_set() == edges_into(dag_edges(*d), n),
{
    ParentWalker { walker: d.dag.parents(daggy::NodeIndex::new(n)) }
}

/// Relies on `daggy::Dag::children`: a walker over every edge out of `n`, each yielded once.
#[verifier::external_body]
pub(crate) fn structure_children(d: &Structure, n: usize) -> (r: ChildWalker)
    ensures
        children_left(r, *d).no_duplicates(),
        children_left(r, *d).to_set() == edges_out_of(dag_edges(*d), n),
{
    ChildWalker { walker: d.dag.children(daggy::NodeIndex::new(n)) }
}

/// Relies on daggy's `Walker::walk_next` for `Parents`: the next incoming edge and its source.
#[verifier::external_body]
pub(crate) fn parents_next(w: &mut ParentWalker, d: &Structure) -> (r: Option<(usize, usize)>)
    ensures
        parents_left(*old(w), *d).len() == 0 ==> r is None,
        parents_left(*old(w), *d).len() > 0 ==> {
            let e = parents_left(*old(w), *d)[0];
            &&& r == Some((e, dag_edges(*d)[e as int].0))
            &&& parents_left(*final(w), *d) == parents_left(*old(w), *d).drop_first()
        },
{
    w.walker.walk_next(&d.dag).map(|(e, n)| (e.index(), n.index()))
}

/// Relies on daggy's `Walker::walk_next` for `Children`: the next outgoing edge and its
/// target.
#[verifier::external_body]
pub(crate) fn children_next(w: &mut ChildWalker, d: &Structure) -> (r: Option<(usize, usize)>)
    ensures
        children_left(*old(w), *d).len() == 0 ==> r is None,
        children_left(*old(w), *d).len() > 0 ==> {
            let e = children_left(*old(w), *d)[0];
            &&& r == Some((e, dag_edges(*d)[e as int].1))
            &&& children_left(*final(w), *d) == children_left(*old(w), *d).drop_first()
        },
{
    w.walker.walk_next(&d.dag).map(|(e, n)| (e.index(), n.index()))
}

/// Relies on `petgraph::algo::toposort` over daggy's inner graph: it succeeds exactly on a
/// graph without cycles, and then lists every node once, each before the targets of its
/// edges.
#[verifier::external_body]
pub(crate) fn structure_toposort(d: &Structure) -> (r: Option<Vec<usize>>)
    requires
        edges_within(dag_edges(*d), dag_node_count(*d)),
    ensures
        r is Some <==> acyclic(dag_edges(*d)),
        r matches Some(v) ==> is_topological_order(v@, dag_edges(*d), dag_node_count(*d)),
{
    daggy::petgraph::algo::toposort(d.dag.graph(), None).ok().map(
        |v| v.into_iter().map(|n| n.index()).collect(),
    )
}

} // verus!
