//! The DSP graph: nodes joined by connections that carry audio from an input node to an
//! output node, without cycles.
//!
//! Adding a node or a connection keeps every index stable. Removing a node or a connection
//! moves the last node (or connection) into the freed index, which invalidates the index that
//! the moved item had.

use crate::node::Node;
use crate::sample::{
    add_spec, blend_into, blend_spec, fill_equilibrium, resize_buffer_to, sum_into, write_into,
    Sample,
    EQUILIBRIUM,
};
use crate::store::{
    children_left, children_next, dag_edges, dag_node_count, parents_left, parents_next,
    parents_order,
    structure_add_child, structure_add_edge, structure_add_edges, structure_add_node,
    structure_add_parent, structure_children, structure_clear, structure_find_edge,
    structure_parents, structure_remove_edge, structure_remove_node, structure_toposort,
    structure_with_capacity, ChildWalker, ParentWalker, Structure,
};
use crate::topology::{
    acyclic, edges_into, edges_out_of, edges_within, has_edge, is_isolated, is_topological_order,
    lemma_acyclic_relabel, lemma_acyclic_subset, lemma_edge_against_path_cycles,
    lemma_last_is_sink, lemma_new_leaf_acyclic, lemma_no_edge_counts, lemma_order_extends,
    lemma_swap_removed_edges, lemma_swap_removed_multiset, reaches, relabel, relabel_edges,
    swap_removed,
};
use vstd::prelude::*;

verus! {

/// The index of a node within a [`Graph`].
pub type NodeIndex = usize;

/// The index of a connection within a [`Graph`].
pub type EdgeIndex = usize;

/// A connection between two nodes: *input -> connection -> output*.
///
/// After a render its buffer holds the audio last rendered by its input node.
#[derive(Clone, Debug)]
pub struct Connection {
    /// The buffer used to pass audio from the input node to the output node.
    pub buffer: Vec<Sample>,
}

/// The error returned when adding a connection would create a cycle.
#[derive(Copy, Clone, Debug, PartialEq, Eq, Structural)]
pub struct WouldCycle;

/// A directed, acyclic DSP graph.
///
/// An *input -> output* connection is an edge *src -> dest* of the graph's structure. Audio is
/// rendered by visiting the nodes in a cached topological order: each node's inputs are summed,
/// the node renders, its dry and wet signals are blended, and the result is written to every
/// outgoing connection.
pub struct Graph<N> {
    structure: Structure,
    nodes: Vec<N>,
    connections: Vec<Connection>,
    visit_order: Vec<NodeIndex>,
    maybe_master: Option<NodeIndex>,
    dry_buffer: Vec<Sample>,
}

impl<N> Graph<N> {
    /// The node data, by node index.
    pub closed spec fn spec_nodes(&self) -> Seq<N> {
        self.nodes@
    }

    /// The connections as `(input, output)` pairs, by connection index.
    pub closed spec fn spec_edges(&self) -> Seq<(usize, usize)> {
        dag_edges(self.structure)
    }

    /// The connection buffers, by connection index.
    pub closed spec fn spec_buffers(&self) -> Seq<Seq<Sample>> {
        self.connections@.map_values(|c: Connection| c.buffer@)
    }

    /// The order in which the inputs of `n` are walked, and so summed.
    pub closed spec fn spec_input_order(&self, n: NodeIndex) -> Seq<EdgeIndex> {
        parents_order(self.structure, n)
    }

    /// The order in which nodes are visited when audio is rendered.
    pub closed spec fn spec_visit_order(&self) -> Seq<NodeIndex> {
        self.visit_order@
    }

    /// The node from which audio is rendered by default.
    pub closed spec fn spec_master(&self) -> Option<NodeIndex> {
        self.maybe_master
    }

    /// The length of the scratch buffer that holds the dry signal.
    pub closed spec fn spec_dry_len(&self) -> nat {
        self.dry_buffer@.len()
    }

    /// The structure, the node data and the connection buffers agree on their counts.
    pub closed spec fn consistent(&self) -> bool {
        &&& dag_node_count(self.structure) == self.nodes@.len()
        &&& self.connections@.len() == dag_edges(self.structure).len()
    }

    /// The number of nodes.
    pub open spec fn spec_node_count(&self) -> nat {
        self.spec_nodes().len()
    }

    /// What holds of every graph between calls: the connections form no cycle, the visit
    /// order is a topological order of all nodes, and the master, if any, is a node.
    pub open spec fn wf(&self) -> bool {
        &&& self.consistent()
        &&& self.spec_buffers().len() == self.spec_edges().len()
        &&& edges_within(self.spec_edges(), self.spec_node_count())
        &&& acyclic(self.spec_edges())
        &&& is_topological_order(
            self.spec_visit_order(),
            self.spec_edges(),
            self.spec_node_count(),
        )
        &&& match self.spec_master() {
            Some(m) => m < self.spec_node_count(),
            None => true,
        }
    }

    /// The number of connections fits in a `usize`.
    proof fn lemma_edge_count_fits(&self)
        requires
            self.consistent(),
        ensures
            self.spec_edges().len() <= usize::MAX,
    {
        assert(self.connections@.len() == self.connections.len());
    }

    /// Recomputes the visit order after the connections changed.
    fn prepare_visit_order(&mut self)
        requires
            edges_within(dag_edges(old(self).structure), dag_node_count(old(self).structure)),
            acyclic(dag_edges(old(self).structure)),
        ensures
            final(self).structure == old(self).structure,
            final(self).nodes == old(self).nodes,
            final(self).connections == old(self).connections,
            final(self).maybe_master == old(self).maybe_master,
            final(self).dry_buffer == old(self).dry_buffer,
            is_topological_order(
                final(self).visit_order@,
                dag_edges(final(self).structure),
                dag_node_count(final(self).structure),
            ),
    {
        match structure_toposort(&self.structure) {
            Some(order) => {
                self.visit_order = order;
            },
            None => {},
        }
    }
}

impl<N: Node> Graph<N> {
    /// A new, empty graph.
    pub fn new() -> (r: Self)
        ensures
            r.wf(),
            r.spec_nodes() == Seq::<N>::empty(),
            r.spec_edges() == Seq::<(usize, usize)>::empty(),
            r.spec_master() is None,
            r.spec_dry_len() == 0,
    {
        Self::with_capacity(0, 0, 0)
    }

    /// A new, empty graph with room for `nodes` nodes, `connections` connections and a dry
    /// buffer of `frames_per_buffer` samples.
    pub fn with_capacity(nodes: usize, connections: usize, frames_per_buffer: usize) -> (r: Self)
        ensures
            r.wf(),
            r.spec_nodes() == Seq::<N>::empty(),
            r.spec_edges() == Seq::<(usize, usize)>::empty(),
            r.spec_master() is None,
            r.spec_dry_len() == 0,
    {
        let g = Graph {
            structure: structure_with_capacity(nodes, connections),
            nodes: Vec::with_capacity(nodes),
            connections: Vec::with_capacity(connections),
            visit_order: Vec::with_capacity(nodes),
            maybe_master: None,
            dry_buffer: Vec::with_capacity(frames_per_buffer),
        };
        assert(g.spec_buffers() =~= Seq::<Seq<Sample>>::empty());
        assert(g.visit_order@ =~= Seq::<usize>::empty());
        g
    }

    /// The number of nodes.
    pub fn node_count(&self) -> (r: usize)
        requires
            self.wf(),
        ensures
            r == self.spec_node_count(),
    {
        self.nodes.len()
    }

    /// The number of connections.
    pub fn connection_count(&self) -> (r: usize)
        requires
            self.wf(),
        ensures
            r == self.spec_edges().len(),
    {
        self.connections.len()
    }

    /// The master node, if one is set.
    pub fn master_index(&self) -> (r: Option<NodeIndex>)
        ensures
            r == self.spec_master(),
    {
        self.maybe_master
    }

    /// Sets the master node; an index with no node clears it.
    pub fn set_master(&mut self, maybe_index: Option<NodeIndex>)
        requires
            old(self).wf(),
        ensures
            final(self).wf(),
            final(self).spec_master() == match maybe_index {
                Some(i) => if i < old(self).spec_node_count() {
                    Some(i)
                } else {
                    None
                },
                None => None,
            },
            final(self).spec_nodes() == old(self).spec_nodes(),
            final(self).spec_edges() == old(self).spec_edges(),
            final(self).spec_buffers() == old(self).spec_buffers(),
            final(self).spec_visit_order() == old(self).spec_visit_order(),
            final(self).spec_dry_len() == old(self).spec_dry_len(),
    {
        self.maybe_master = match maybe_index {
            Some(i) => if i < self.nodes.len() {
                Some(i)
            } else {
                None
            },
            None => None,
        };
    }

    /// Adds a node; no connection changes.
    pub fn add_node(&mut self, node: N) -> (r: NodeIndex)
        requires
            old(self).wf(),
            old(self).spec_node_count() < usize::MAX,
        ensures
            final(self).wf(),
            added_node(*old(self), *final(self), node, r),
    {
        let idx = structure_add_node(&mut self.structure);
        self.nodes.push(node);
        proof {
            lemma_order_extends(self.visit_order@, dag_edges(self.structure), idx);
        }
        self.visit_order.push(idx);
        idx
    }

    /// A reference to the node at `idx`, or `None` if there is none.
    pub fn node(&self, idx: NodeIndex) -> (r: Option<&N>)
        ensures
            idx < self.spec_node_count() ==> r == Some(&self.spec_nodes()[idx as int]),
            idx >= self.spec_node_count() ==> r is None,
    {
        if idx < self.nodes.len() {
            Some(&self.nodes[idx])
        } else {
            None
        }
    }

    /// A mutable reference to the node at `idx`, or `None` if there is none.
    pub fn node_mut(&mut self, idx: NodeIndex) -> (r: Option<&mut N>)
        ensures
            idx < old(self).spec_node_count() ==> (r matches Some(n) && *n == old(
                self,
            ).spec_nodes()[idx as int] && final(self).spec_nodes() == old(self).spec_nodes().update(
                idx as int,
                *final(n),
            )),
            idx >= old(self).spec_node_count() ==> r is None && final(self).spec_nodes() == old(
                self,
            ).spec_nodes(),
            final(self).spec_edges() == old(self).spec_edges(),
            final(self).spec_buffers() == old(self).spec_buffers(),
            final(self).spec_visit_order() == old(self).spec_visit_order(),
            final(self).spec_master() == old(self).spec_master(),
            final(self).spec_dry_len() == old(self).spec_dry_len(),
            final(self).consistent() == old(self).consistent(),
    {
        if idx < self.nodes.len() {
            Some(&mut self.nodes[idx])
        } else {
            None
        }
    }

    /// A reference to the connection at `edge`, or `None` if there is none.
    pub fn connection(&self, edge: EdgeIndex) -> (r: Option<&Connection>)
        requires
            self.wf(),
        ensures
            edge < self.spec_edges().len() ==> (r matches Some(c) && c.buffer@
                == self.spec_buffers()[edge as int]),
            edge >= self.spec_edges().len() ==> r is None,
    {
        if edge < self.connections.len() {
            Some(&self.connections[edge])
        } else {
            None
        }
    }

    /// Adds a connection from `src` to `dest`, so that `src` becomes an input of `dest`.
    ///
    /// Returns `WouldCycle`, and leaves the graph as it was, if the connection would create a
    /// cycle.
    pub fn add_connection(&mut self, src: NodeIndex, dest: NodeIndex) -> (r: Result<
        EdgeIndex,
        WouldCycle,
    >)
        requires
            old(self).wf(),
            src < old(self).spec_node_count(),
            dest < old(self).spec_node_count(),
            old(self).spec_edges().len() < usize::MAX,
        ensures
            final(self).wf(),
            r is Err <==> !acyclic(old(self).spec_edges().push((src, dest))),
            reaches(old(self).spec_edges(), dest, src) ==> r is Err,
            r matches Ok(e) ==> added_connection(*old(self), *final(self), src, dest, e),
            r is Err ==> unchanged(*old(self), *final(self)),
    {
        proof {
            if reaches(self.spec_edges(), dest, src) {
                lemma_edge_against_path_cycles(self.spec_edges(), src, dest);
            }
        }
        let r = structure_add_edge(&mut self.structure, src, dest);
        match r {
            Ok(e) => {
                self.connections.push(Connection { buffer: Vec::new() });
                self.prepare_visit_order();
                assert(self.spec_buffers() =~= old(self).spec_buffers().push(Seq::empty()));
                Ok(e)
            },
            Err(err) => Err(err),
        }
    }

    /// Adds the connections `connections`, each from its first node to its second, checking
    /// for cycles and recomputing the visit order once for all of them.
    ///
    /// Returns the range of the new connections' indices, or `WouldCycle`, leaving the graph
    /// as it was, if together they would create a cycle.
    pub fn add_connections(&mut self, connections: Vec<(NodeIndex, NodeIndex)>) -> (r: Result<
        std::ops::Range<EdgeIndex>,
        WouldCycle,
    >)
        requires
            old(self).wf(),
            forall|i: int|
                0 <= i < connections@.len() ==> (#[trigger] connections@[i]).0 < old(
                    self,
                ).spec_node_count() && connections@[i].1 < old(self).spec_node_count(),
            old(self).spec_edges().len() + connections@.len() <= usize::MAX,
        ensures
            final(self).wf(),
            r is Err <==> !acyclic(old(self).spec_edges() + connections@),
            r is Err ==> unchanged(*old(self), *final(self)),
            r matches Ok(range) ==> {
                &&& range.start == old(self).spec_edges().len()
                &&& range.end == final(self).spec_edges().len()
                &&& final(self).spec_edges() == old(self).spec_edges() + connections@
                &&& final(self).spec_buffers() == old(self).spec_buffers() + Seq::new(
                    connections@.len(),
                    |i: int| Seq::<Sample>::empty(),
                )
                &&& final(self).spec_nodes() == old(self).spec_nodes()
                &&& final(self).spec_master() == old(self).spec_master()
                &&& final(self).spec_dry_len() == old(self).spec_dry_len()
            },
    {
        let start = self.connections.len();
        match structure_add_edges(&mut self.structure, &connections) {
            Ok(()) => {
                let n = connections.len();
                let mut k: usize = 0;
                let ghost added = *self;
                while k < n
                    invariant
                        0 <= k <= n,
                        n == connections@.len(),
                        start == old(self).connections@.len(),
                        self.structure == added.structure,
                        self.nodes == added.nodes,
                        self.visit_order == added.visit_order,
                        self.maybe_master == added.maybe_master,
                        self.dry_buffer == added.dry_buffer,
                        self.connections@.len() == start + k,
                        self.spec_buffers() == old(self).spec_buffers() + Seq::new(
                            k as nat,
                            |i: int| Seq::<Sample>::empty(),
                        ),
                    decreases n - k,
                {
                    let ghost prev = self.spec_buffers();
                    self.connections.push(Connection { buffer: Vec::new() });
                    assert(self.spec_buffers() =~= prev.push(Seq::empty()));
                    k = k + 1;
                    assert(self.spec_buffers() =~= old(self).spec_buffers() + Seq::new(
                        k as nat,
                        |i: int| Seq::<Sample>::empty(),
                    ));
                }
                proof {
                    assert forall|e: int| 0 <= e < self.spec_edges().len() implies
                        (#[trigger] self.spec_edges()[e]).0 < self.spec_node_count()
                        && self.spec_edges()[e].1 < self.spec_node_count() by {
                        if e >= start {
                            assert(self.spec_edges()[e] == connections@[e - start]);
                        } else {
                            assert(self.spec_edges()[e] == old(self).spec_edges()[e]);
                        }
                    }
                }
                self.prepare_visit_order();
                Ok(start..self.connections.len())
            },
            Err(err) => Err(err),
        }
    }

    /// Mutable references to the two different nodes at `a` and `b`.
    pub fn index_twice_mut(&mut self, a: NodeIndex, b: NodeIndex) -> (r: (&mut N, &mut N))
        requires
            old(self).wf(),
            a != b,
            a < old(self).spec_node_count(),
            b < old(self).spec_node_count(),
        ensures
            final(self).wf(),
            *r.0 == old(self).spec_nodes()[a as int],
            *r.1 == old(self).spec_nodes()[b as int],
            final(self).spec_nodes() == old(self).spec_nodes().update(a as int, *final(r.0)).update(
                b as int,
                *final(r.1),
            ),
            final(self).spec_edges() == old(self).spec_edges(),
            final(self).spec_buffers() == old(self).spec_buffers(),
            final(self).spec_visit_order() == old(self).spec_visit_order(),
            final(self).spec_master() == old(self).spec_master(),
            final(self).spec_dry_len() == old(self).spec_dry_len(),
    {
        let nodes = self.nodes.as_mut_slice();
        if a < b {
            let (low, high) = nodes.split_at_mut(b);
            (&mut low[a], &mut high[0])
        } else {
            let (low, high) = nodes.split_at_mut(a);
            (&mut high[0], &mut low[b])
        }
    }

    /// Mutable access to all node data at once, by node index.
    ///
    /// A slice keeps its length, so the graph stays well formed.
    pub fn nodes_mut(&mut self) -> (r: &mut [N])
        requires
            old(self).wf(),
        ensures
            final(r)@.len() == r@.len() ==> final(self).wf(),
            r@ == old(self).spec_nodes(),
            final(self).spec_nodes() == final(r)@,
            final(self).spec_edges() == old(self).spec_edges(),
            final(self).spec_buffers() == old(self).spec_buffers(),
            final(self).spec_visit_order() == old(self).spec_visit_order(),
            final(self).spec_master() == old(self).spec_master(),
            final(self).spec_dry_len() == old(self).spec_dry_len(),
    {
        self.nodes.as_mut_slice()
    }

    /// Read-only access to the node data, by node index.
    pub fn raw_nodes(&self) -> (r: &[N])
        ensures
            r@ == self.spec_nodes(),
    {
        self.nodes.as_slice()
    }

    /// Read-only access to the connections, by connection index.
    pub fn raw_edges(&self) -> (r: &[Connection])
        ensures
            r@.map_values(|c: Connection| c.buffer@) == self.spec_buffers(),
    {
        self.connections.as_slice()
    }

    /// The index of a connection from `src` to `dest`, if there is one.
    pub fn find_connection(&self, src: NodeIndex, dest: NodeIndex) -> (r: Option<EdgeIndex>)
        requires
            self.wf(),
        ensures
            r matches Some(e) ==> e < self.spec_edges().len() && self.spec_edges()[e as int] == (
                src,
                dest,
            ),
            r is None ==> !has_edge(self.spec_edges(), src, dest),
    {
        structure_find_edge(&self.structure, src, dest)
    }

    /// Removes the connection at `edge`; the last connection takes its index.
    ///
    /// Returns whether there was a connection at `edge`.
    pub fn remove_edge(&mut self, edge: EdgeIndex) -> (r: bool)
        requires
            old(self).wf(),
        ensures
            final(self).wf(),
            r == (edge < old(self).spec_edges().len()),
            r ==> removed_connection(*old(self), *final(self), edge),
            !r ==> unchanged(*old(self), *final(self)),
    {
        let removed = structure_remove_edge(&mut self.structure, edge);
        if removed {
            proof {
                lemma_swap_removed_edges(old(self).spec_edges(), edge as int);
                lemma_acyclic_subset(old(self).spec_edges(), self.spec_edges());
            }
            self.connections.swap_remove(edge);
            assert(edges_within(self.spec_edges(), self.spec_node_count())) by {
                assert forall|e: int| 0 <= e < self.spec_edges().len() implies
                    (#[trigger] self.spec_edges()[e]).0 < self.spec_node_count()
                    && self.spec_edges()[e].1 < self.spec_node_count() by {
                    if e == edge {
                        let l = old(self).spec_edges().len() - 1;
                        assert(old(self).spec_edges()[l] == self.spec_edges()[e]);
                    } else {
                        assert(old(self).spec_edges()[e] == self.spec_edges()[e]);
                    }
                }
            }
            self.prepare_visit_order();
            assert(self.spec_buffers() =~= swap_removed(old(self).spec_buffers(), edge as int));
        }
        removed
    }

    /// Removes a connection between `a` and `b`, whichever way it points.
    ///
    /// Returns whether a connection was removed.
    pub fn remove_connection(&mut self, a: NodeIndex, b: NodeIndex) -> (r: bool)
        requires
            old(self).wf(),
        ensures
            final(self).wf(),
            r == (has_edge(old(self).spec_edges(), a, b) || has_edge(old(self).spec_edges(), b, a)),
            r ==> exists|e: EdgeIndex|
                (old(self).spec_edges()[e as int] == (a, b) || old(self).spec_edges()[e as int] == (
                    b,
                    a,
                )) && #[trigger] removed_connection(*old(self), *final(self), e),
            !r ==> unchanged(*old(self), *final(self)),
    {
        let found = match structure_find_edge(&self.structure, a, b) {
            Some(e) => Some(e),
            None => structure_find_edge(&self.structure, b, a),
        };
        match found {
            Some(e) => self.remove_edge(e),
            None => false,
        }
    }

    /// Adds the node `src` as a new input of `dest`: *src -> new connection -> dest*.
    ///
    /// Returns the index of the new connection and of the new node.
    pub fn add_input(&mut self, src: N, dest: NodeIndex) -> (r: (EdgeIndex, NodeIndex))
        requires
            old(self).wf(),
            dest < old(self).spec_node_count(),
            old(self).spec_node_count() < usize::MAX,
            old(self).spec_edges().len() < usize::MAX,
        ensures
            final(self).wf(),
            final(self).spec_nodes() == old(self).spec_nodes().push(src),
            r.1 == old(self).spec_node_count(),
            r.0 == old(self).spec_edges().len(),
            final(self).spec_edges() == old(self).spec_edges().push((r.1, dest)),
            final(self).spec_buffers() == old(self).spec_buffers().push(Seq::empty()),
            final(self).spec_master() == old(self).spec_master(),
            final(self).spec_dry_len() == old(self).spec_dry_len(),
    {
        let indices = structure_add_parent(&mut self.structure, dest);
        self.nodes.push(src);
        self.connections.push(Connection { buffer: Vec::new() });
        proof {
            lemma_new_leaf_acyclic(old(self).spec_edges(), indices.1, dest, true);
        }
        self.prepare_visit_order();
        assert(self.spec_buffers() =~= old(self).spec_buffers().push(Seq::empty()));
        indices
    }

    /// Adds the node `dest` as a new output of `src`: *src -> new connection -> dest*.
    ///
    /// Returns the index of the new connection and of the new node.
    pub fn add_output(&mut self, src: NodeIndex, dest: N) -> (r: (EdgeIndex, NodeIndex))
        requires
            old(self).wf(),
            src < old(self).spec_node_count(),
            old(self).spec_node_count() < usize::MAX,
            old(self).spec_edges().len() < usize::MAX,
        ensures
            final(self).wf(),
            final(self).spec_nodes() == old(self).spec_nodes().push(dest),
            r.1 == old(self).spec_node_count(),
            r.0 == old(self).spec_edges().len(),
            final(self).spec_edges() == old(self).spec_edges().push((src, r.1)),
            final(self).spec_buffers() == old(self).spec_buffers().push(Seq::empty()),
            final(self).spec_master() == old(self).spec_master(),
            final(self).spec_dry_len() == old(self).spec_dry_len(),
    {
        let indices = structure_add_child(&mut self.structure, src);
        self.nodes.push(dest);
        self.connections.push(Connection { buffer: Vec::new() });
        proof {
            lemma_new_leaf_acyclic(old(self).spec_edges(), indices.1, src, false);
        }
        self.prepare_visit_order();
        assert(self.spec_buffers() =~= old(self).spec_buffers().push(Seq::empty()));
        indices
    }

    /// A walker over the inputs of the node at `idx`.
    pub fn inputs(&self, idx: NodeIndex) -> (r: Inputs)
        requires
            self.wf(),
        ensures
            r.spec_left(self) == self.spec_input_order(idx),
            self.spec_input_order(idx).no_duplicates(),
            self.spec_input_order(idx).to_set() == edges_into(self.spec_edges(), idx),
    {
        Inputs { parents: structure_parents(&self.structure, idx) }
    }

    /// A walker over the outputs of the node at `idx`.
    pub fn outputs(&self, idx: NodeIndex) -> (r: Outputs)
        requires
            self.wf(),
        ensures
            r.spec_left(self).no_duplicates(),
            r.spec_left(self).to_set() == edges_out_of(self.spec_edges(), idx),
    {
        Outputs { children: structure_children(&self.structure, idx) }
    }

    /// A walker over the nodes in the order in which they are visited when audio is rendered.
    pub fn visit_order(&self) -> (r: VisitOrder)
        ensures
            r.spec_position() == 0,
    {
        VisitOrder { current_visit_order_idx: 0 }
    }

    /// A walker over the nodes in the reverse of the order in which they are visited.
    pub fn visit_order_rev(&self) -> (r: VisitOrderReverse)
        ensures
            r.spec_position() == self.spec_visit_order().len(),
    {
        VisitOrderReverse { current_visit_order_idx: self.visit_order.len() }
    }

    /// Removes every connection into the node at `idx`.
    ///
    /// Returns the number of connections removed.
    pub fn remove_all_input_connections(&mut self, idx: NodeIndex) -> (r: usize)
        requires
            old(self).wf(),
        ensures
            final(self).wf(),
            final(self).spec_nodes() == old(self).spec_nodes(),
            final(self).spec_master() == old(self).spec_master(),
            final(self).spec_dry_len() == old(self).spec_dry_len(),
            r == old(self).spec_edges().len() - final(self).spec_edges().len(),
            (forall|e: int|
                0 <= e < old(self).spec_edges().len() ==> #[trigger] old(self).spec_edges()[e].1
                    != idx) ==> unchanged(*old(self), *final(self)),
            forall|p: (usize, usize)|
                #[trigger] final(self).spec_edges().to_multiset().count(p) == if p.1 == idx {
                    0
                } else {
                    old(self).spec_edges().to_multiset().count(p)
                },
    {
        let mut num: usize = 0;
        proof {
            self.lemma_edge_count_fits();
        }
        loop
            invariant
                self.wf(),
                old(self).spec_edges().len() <= usize::MAX,
                num == 0 ==> unchanged(*old(self), *self),
                self.spec_nodes() == old(self).spec_nodes(),
                self.spec_master() == old(self).spec_master(),
                self.spec_dry_len() == old(self).spec_dry_len(),
                num == old(self).spec_edges().len() - self.spec_edges().len(),
                forall|p: (usize, usize)|
                    p.1 != idx ==> #[trigger] self.spec_edges().to_multiset().count(p) == old(
                        self,
                    ).spec_edges().to_multiset().count(p),
                forall|p: (usize, usize)|
                    #[trigger] self.spec_edges().to_multiset().count(p) <= old(
                        self,
                    ).spec_edges().to_multiset().count(p),
            ensures
                self.wf(),
                num == 0 ==> unchanged(*old(self), *self),
                self.spec_nodes() == old(self).spec_nodes(),
                self.spec_master() == old(self).spec_master(),
                self.spec_dry_len() == old(self).spec_dry_len(),
                num == old(self).spec_edges().len() - self.spec_edges().len(),
                forall|p: (usize, usize)|
                    #[trigger] self.spec_edges().to_multiset().count(p) == if p.1 == idx {
                        0
                    } else {
                        old(self).spec_edges().to_multiset().count(p)
                    },
            decreases self.spec_edges().len(),
        {
            let mut walker = self.inputs(idx);
            let ghost left = walker.spec_left(self);
            match walker.next_edge(self) {
                Some(e) => {
                    proof {
                        assert(left.to_set().contains(left[0]));
                        lemma_swap_removed_multiset(self.spec_edges(), e as int);
                    }
                    self.remove_edge(e);
                    num = num + 1;
                },
                None => {
                    proof {
                        self.lemma_edge_count_fits();
                        assert(left.to_set() =~= Set::<usize>::empty());
                        lemma_no_edge_counts(self.spec_edges(), idx, true);
                    }
                    break ;
                },
            }
        }
        proof {
            broadcast use vstd::seq_lib::group_to_multiset_ensures;

            if forall|e: int|
                0 <= e < old(self).spec_edges().len() ==> #[trigger] old(self).spec_edges()[e].1
                    != idx {
                assert forall|p: (usize, usize)| #[trigger] self.spec_edges().to_multiset().count(p)
                    == old(self).spec_edges().to_multiset().count(p) by {
                    if p.1 == idx && old(self).spec_edges().contains(p) {
                        let k = choose|k: int|
                            0 <= k < old(self).spec_edges().len() && old(self).spec_edges()[k] == p;
                        assert(old(self).spec_edges()[k].1 != idx);
                    }
                }
                assert(self.spec_edges().to_multiset() =~= old(self).spec_edges().to_multiset());
                assert(self.spec_edges().len() == self.spec_edges().to_multiset().len());
                assert(old(self).spec_edges().len() == old(self).spec_edges().to_multiset().len());
            }
        }
        num
    }

    /// Removes every connection out of the node at `idx`.
    ///
    /// Returns the number of connections removed.
    pub fn remove_all_output_connections(&mut self, idx: NodeIndex) -> (r: usize)
        requires
            old(self).wf(),
        ensures
            final(self).wf(),
            final(self).spec_nodes() == old(self).spec_nodes(),
            final(self).spec_master() == old(self).spec_master(),
            final(self).spec_dry_len() == old(self).spec_dry_len(),
            r == old(self).spec_edges().len() - final(self).spec_edges().len(),
            (forall|e: int|
                0 <= e < old(self).spec_edges().len() ==> #[trigger] old(self).spec_edges()[e].0
                    != idx) ==> unchanged(*old(self), *final(self)),
            forall|p: (usize, usize)|
                #[trigger] final(self).spec_edges().to_multiset().count(p) == if p.0 == idx {
                    0
                } else {
                    old(self).spec_edges().to_multiset().count(p)
                },
    {
        let mut num: usize = 0;
        proof {
            self.lemma_edge_count_fits();
        }
        loop
            invariant
                self.wf(),
                old(self).spec_edges().len() <= usize::MAX,
                num == 0 ==> unchanged(*old(self), *self),
                self.spec_nodes() == old(self).spec_nodes(),
                self.spec_master() == old(self).spec_master(),
                self.spec_dry_len() == old(self).spec_dry_len(),
                num == old(self).spec_edges().len() - self.spec_edges().len(),
                forall|p: (usize, usize)|
                    p.0 != idx ==> #[trigger] self.spec_edges().to_multiset().count(p) == old(
                        self,
                    ).spec_edges().to_multiset().count(p),
            ensures
                self.wf(),
                num == 0 ==> unchanged(*old(self), *self),
                self.spec_nodes() == old(self).spec_nodes(),
                self.spec_master() == old(self).spec_master(),
                self.spec_dry_len() == old(self).spec_dry_len(),
                num == old(self).spec_edges().len() - self.spec_edges().len(),
                forall|p: (usize, usize)|
                    #[trigger] self.spec_edges().to_multiset().count(p) == if p.0 == idx {
                        0
                    } else {
                        old(self).spec_edges().to_multiset().count(p)
                    },
            decreases self.spec_edges().len(),
        {
            let mut walker = self.outputs(idx);
            let ghost left = walker.spec_left(self);
            match walker.next_edge(self) {
                Some(e) => {
                    proof {
                        assert(left.to_set().contains(left[0]));
                        lemma_swap_removed_multiset(self.spec_edges(), e as int);
                    }
                    self.remove_edge(e);
                    num = num + 1;
                },
                None => {
                    proof {
                        self.lemma_edge_count_fits();
                        assert(left.to_set() =~= Set::<usize>::empty());
                        lemma_no_edge_counts(self.spec_edges(), idx, false);
                    }
                    break ;
                },
            }
        }
        proof {
            broadcast use vstd::seq_lib::group_to_multiset_ensures;

            if forall|e: int|
                0 <= e < old(self).spec_edges().len() ==> #[trigger] old(self).spec_edges()[e].0
                    != idx {
                assert forall|p: (usize, usize)| #[trigger] self.spec_edges().to_multiset().count(p)
                    == old(self).spec_edges().to_multiset().count(p) by {
                    if p.0 == idx && old(self).spec_edges().contains(p) {
                        let k = choose|k: int|
                            0 <= k < old(self).spec_edges().len() && old(self).spec_edges()[k] == p;
                        assert(old(self).spec_edges()[k].0 != idx);
                    }
                }
                assert(self.spec_edges().to_multiset() =~= old(self).spec_edges().to_multiset());
                assert(self.spec_edges().len() == self.spec_edges().to_multiset().len());
                assert(old(self).spec_edges().len() == old(self).spec_edges().to_multiset().len());
            }
        }
        num
    }

    /// Removes the node at `idx` together with every connection into or out of it.
    ///
    /// The last node takes the freed index (and keeps its role as master, if it had it);
    /// removing the master clears it. Returns the removed node, or `None` if there was none.
    pub fn remove_node(&mut self, idx: NodeIndex) -> (r: Option<N>)
        requires
            old(self).wf(),
        ensures
            final(self).wf(),
            idx >= old(self).spec_node_count() ==> r is None && unchanged(*old(self), *final(self)),
            idx < old(self).spec_node_count() ==> r == Some(old(self).spec_nodes()[idx as int])
                && removed_node(*old(self), *final(self), idx),
    {
        if idx >= self.nodes.len() {
            return None;
        }
        self.remove_all_input_connections(idx);
        let ghost mid = self.spec_edges();
        let ghost mid_buffers = self.spec_buffers();
        self.remove_all_output_connections(idx);
        let ghost kept = self.spec_edges();
        proof {
            if is_isolated(old(self).spec_edges(), idx) {
                assert(mid == old(self).spec_edges());
                assert(mid_buffers == old(self).spec_buffers());
                assert(kept == old(self).spec_edges());
                assert(self.spec_buffers() == old(self).spec_buffers());
            }
        }
        proof {
            broadcast use vstd::seq_lib::group_to_multiset_ensures;

            assert forall|e: int| 0 <= e < kept.len() implies (#[trigger] kept[e]).0 != idx
                && kept[e].1 != idx by {
                assert(kept.contains(kept[e]));
                assert(kept.to_multiset().count(kept[e]) > 0);
                assert(mid.to_multiset().count(kept[e]) > 0);
            }
            assert(without_node_edges(kept, old(self).spec_edges(), idx)) by {
                assert forall|p: (usize, usize)| #[trigger] kept.to_multiset().count(p) == if p.0
                    == idx || p.1 == idx {
                    0
                } else {
                    old(self).spec_edges().to_multiset().count(p)
                } by {
                    assert(mid.to_multiset().count(p) == if p.1 == idx {
                        0
                    } else {
                        old(self).spec_edges().to_multiset().count(p)
                    });
                }
            }
        }
        let last = self.nodes.len() - 1;
        structure_remove_node(&mut self.structure, idx);
        let node = self.nodes.swap_remove(idx);
        self.maybe_master = match self.maybe_master {
            Some(m) => if m == idx {
                None
            } else if m == last {
                Some(idx)
            } else {
                Some(m)
            },
            None => None,
        };
        proof {
            lemma_acyclic_relabel(kept, last, idx);
            assert forall|e: int| 0 <= e < self.spec_edges().len() implies
                (#[trigger] self.spec_edges()[e]).0 < self.spec_node_count()
                && self.spec_edges()[e].1 < self.spec_node_count() by {
                assert(kept[e].0 != idx && kept[e].1 != idx);
                assert(kept[e].0 < last + 1 && kept[e].1 < last + 1);
            }
        }
        self.prepare_visit_order();
        Some(node)
    }

    /// Removes every node that has no inputs and no outputs.
    ///
    /// Returns the number of nodes removed. Removing nodes moves others into the freed
    /// indices, as `remove_node` does; connections keep their indices and buffers.
    pub fn clear_disconnected(&mut self) -> (r: usize)
        requires
            old(self).wf(),
        ensures
            final(self).wf(),
            exists|kept: Seq<NodeIndex>|
                #[trigger] kept_nodes(*old(self), *final(self), kept) && kept.to_set()
                    == connected_nodes(*old(self)),
            r == old(self).spec_node_count() - connected_nodes(*old(self)).len(),
            forall|n: usize| n < final(self).spec_node_count() ==> !is_isolated(
                final(self).spec_edges(),
                n,
            ),
    {
        let mut num_removed: usize = 0;
        let mut i: usize = 0;
        let ghost mut kept: Seq<NodeIndex> = Seq::new(
            self.spec_node_count(),
            |j: int| j as usize,
        );
        proof {
            assert(self.nodes@.len() == self.nodes.len());
            lemma_kept_start(*self, kept);
        }
        while i < self.nodes.len()
            invariant
                self.wf(),
                old(self).wf(),
                old(self).spec_node_count() <= usize::MAX,
                num_removed == old(self).spec_node_count() - self.spec_node_count(),
                kept_nodes(*old(self), *self, kept),
                forall|x: usize|
                    x < old(self).spec_node_count() ==> kept.contains(x) || is_isolated(
                        old(self).spec_edges(),
                        x,
                    ),
                forall|n: usize| n < i && n < self.spec_node_count() ==> !is_isolated(
                    self.spec_edges(),
                    n,
                ),
            decreases self.spec_node_count() + self.spec_node_count() - i,
        {
            let mut inputs = self.inputs(i);
            let mut outputs = self.outputs(i);
            let ghost ins = inputs.spec_left(self);
            let ghost outs = outputs.spec_left(self);
            let first_input = inputs.next_edge(self);
            let first_output = outputs.next_edge(self);
            if first_input.is_none() && first_output.is_none() {
                proof {
                    self.lemma_edge_count_fits();
                    assert(ins.to_set() =~= Set::<usize>::empty());
                    assert(outs.to_set() =~= Set::<usize>::empty());
                    assert forall|e: int| 0 <= e < self.spec_edges().len() implies
                        (#[trigger] self.spec_edges()[e]).0 != i && self.spec_edges()[e].1 != i by {
                        if self.spec_edges()[e].1 == i {
                            assert(edges_into(self.spec_edges(), i).contains(e as usize));
                        }
                        if self.spec_edges()[e].0 == i {
                            assert(edges_out_of(self.spec_edges(), i).contains(e as usize));
                        }
                    }
                }
                let ghost before = *self;
                self.remove_node(i);
                proof {
                    lemma_removed_isolated_keeps_edges(before, *self, i);
                    lemma_kept_step(*old(self), before, *self, kept, i);
                    let next = swap_removed(kept, i as int);
                    assert forall|x: usize| x < old(self).spec_node_count() implies next.contains(
                        x,
                    ) || is_isolated(old(self).spec_edges(), x) by {
                        if kept.contains(x) && x != kept[i as int] {
                            let j = choose|j: int| 0 <= j < kept.len() && kept[j] == x;
                            if j == kept.len() - 1 {
                                assert(next[i as int] == x);
                            } else {
                                assert(next[j] == x);
                            }
                        }
                    }
                    kept = next;
                }
                num_removed = num_removed + 1;
            } else {
                proof {
                    if first_input.is_some() {
                        assert(ins.to_set().contains(ins[0]));
                    } else {
                        assert(outs.to_set().contains(outs[0]));
                    }
                }
                i = i + 1;
            }
        }
        proof {
            lemma_kept_connected(*old(self), *self, kept);
            kept.unique_seq_to_set();
        }
        num_removed
    }

    /// Removes every node and connection, and clears the master.
    pub fn clear(&mut self)
        requires
            old(self).wf(),
        ensures
            final(self).wf(),
            final(self).spec_nodes() == Seq::<N>::empty(),
            final(self).spec_edges() == Seq::<(usize, usize)>::empty(),
            final(self).spec_master() is None,
            final(self).spec_dry_len() == old(self).spec_dry_len(),
    {
        structure_clear(&mut self.structure);
        self.nodes.clear();
        self.connections.clear();
        self.visit_order.clear();
        self.maybe_master = None;
        assert(self.spec_buffers() =~= Seq::<Seq<Sample>>::empty());
    }

    /// Resizes the dry buffer and every connection buffer to `buffer_size` samples, so that
    /// rendering buffers of that size allocates nothing.
    pub fn prepare_buffers(&mut self, buffer_size: usize)
        requires
            old(self).wf(),
        ensures
            final(self).wf(),
            prepared(*old(self), *final(self), buffer_size as nat),
    {
        resize_buffer_to(&mut self.dry_buffer, buffer_size);
        let n = self.connections.len();
        let mut i: usize = 0;
        while i < n
            invariant
                n == self.connections@.len(),
                n == old(self).connections@.len(),
                0 <= i <= n,
                self.structure == old(self).structure,
                self.nodes == old(self).nodes,
                self.visit_order == old(self).visit_order,
                self.maybe_master == old(self).maybe_master,
                self.dry_buffer@.len() == buffer_size,
                forall|e: int| 0 <= e < i ==> resized(
                    #[trigger] self.connections@[e].buffer@,
                    old(self).connections@[e].buffer@,
                    buffer_size as nat,
                ),
                forall|e: int|
                    i <= e < n ==> #[trigger] self.connections@[e] == old(self).connections@[e],
            decreases n - i,
        {
            resize_buffer_to(&mut self.connections[i].buffer, buffer_size);
            i = i + 1;
        }
        assert(self.spec_buffers().len() == old(self).spec_buffers().len());
    }

    /// Sets `output` to the sum of the buffers of every connection into `node`.
    ///
    /// The buffers are added in the order in which the inputs are walked, each sample
    /// saturating at the bounds of the sample range.
    pub fn sum_inputs(&self, node: NodeIndex, output: &mut [Sample])
        requires
            self.wf(),
            forall|e: int|
                0 <= e < self.spec_edges().len() && self.spec_edges()[e].1 == node
                    ==> #[trigger] self.spec_buffers()[e].len() == old(output)@.len(),
        ensures
            final(output)@.len() == old(output)@.len(),
            self.spec_input_order(node).no_duplicates(),
            self.spec_input_order(node).to_set() == edges_into(self.spec_edges(), node),
            forall|i: int|
                0 <= i < final(output)@.len() ==> #[trigger] final(output)@[i] == mixed_input(
                    self.spec_buffers(),
                    self.spec_input_order(node),
                    i,
                ),
    {
        fill_equilibrium(output);
        let mut inputs = self.inputs(node);
        let ghost init = inputs.spec_left(self);
        let ghost mut seen: Seq<EdgeIndex> = Seq::empty();
        proof {
            self.lemma_edge_count_fits();
        }
        loop
            invariant_except_break
                init == seen + inputs.spec_left(self),
            invariant
                self.wf(),
                self.spec_edges().len() <= usize::MAX,
                init.no_duplicates(),
                init.to_set() == edges_into(self.spec_edges(), node),
                output@.len() == old(output)@.len(),
                forall|e: int|
                    0 <= e < self.spec_edges().len() && self.spec_edges()[e].1 == node
                        ==> #[trigger] self.spec_buffers()[e].len() == old(output)@.len(),
                forall|i: int|
                    0 <= i < output@.len() ==> #[trigger] output@[i] == mixed_input(
                        self.spec_buffers(),
                        seen,
                        i,
                    ),
            ensures
                output@.len() == old(output)@.len(),
                init == seen,
                forall|i: int|
                    0 <= i < output@.len() ==> #[trigger] output@[i] == mixed_input(
                        self.spec_buffers(),
                        seen,
                        i,
                    ),
            decreases inputs.spec_left(self).len(),
        {
            let ghost left = inputs.spec_left(self);
            match inputs.next_edge(self) {
                Some(e) => {
                    proof {
                        assert(init[seen.len() as int] == e);
                        assert(init.contains(e));
                        assert(init.to_set().contains(e));
                        assert(edges_into(self.spec_edges(), node).contains(e));
                        assert(self.spec_buffers()[e as int].len() == output@.len());
                    }
                    let ghost before = output@;
                    sum_into(output, self.connections[e].buffer.as_slice());
                    proof {
                        assert(self.spec_buffers()[e as int]
                            == self.connections@[e as int].buffer@);
                        let next = seen.push(e);
                        assert(next.drop_last() =~= seen);
                        assert forall|i: int| 0 <= i < output@.len() implies #[trigger] output@[i]
                            == mixed_input(self.spec_buffers(), next, i) by {
                            assert(before[i] == mixed_input(self.spec_buffers(), seen, i));
                        }
                        assert(seen.push(e) + left.drop_first() =~= seen + left);
                        seen = next;
                    }
                },
                None => {
                    proof {
                        assert(seen + left =~= seen);
                    }
                    break ;
                },
            }
        }
    }

    /// Writes `output` to the buffer of every connection out of `node`, resizing each buffer
    /// to the length of `output`.
    fn write_outputs(&mut self, node: NodeIndex, output: &[Sample])
        requires
            old(self).wf(),
        ensures
            final(self).wf(),
            final(self).structure == old(self).structure,
            final(self).nodes == old(self).nodes,
            final(self).visit_order == old(self).visit_order,
            final(self).maybe_master == old(self).maybe_master,
            final(self).dry_buffer == old(self).dry_buffer,
            forall|e: int|
                0 <= e < old(self).spec_edges().len() ==> #[trigger] final(self).spec_buffers()[e]
                    == if old(self).spec_edges()[e].0 == node {
                    output@
                } else {
                    old(self).spec_buffers()[e]
                },
    {
        let mut outputs = self.outputs(node);
        let ghost init = outputs.spec_left(self);
        let ghost mut seen: Seq<EdgeIndex> = Seq::empty();
        proof {
            self.lemma_edge_count_fits();
        }
        loop
            invariant_except_break
                init == seen + outputs.spec_left(self),
            invariant
                self.wf(),
                self.spec_edges().len() <= usize::MAX,
                self.structure == old(self).structure,
                self.nodes == old(self).nodes,
                self.visit_order == old(self).visit_order,
                self.maybe_master == old(self).maybe_master,
                self.dry_buffer == old(self).dry_buffer,
                init.no_duplicates(),
                init.to_set() == edges_out_of(self.spec_edges(), node),
                forall|e: int|
                    0 <= e < self.spec_edges().len() ==> #[trigger] self.spec_buffers()[e]
                        == if seen.contains(e as usize) {
                        output@
                    } else {
                        old(self).spec_buffers()[e]
                    },
            ensures
                self.wf(),
                self.structure == old(self).structure,
                self.nodes == old(self).nodes,
                self.visit_order == old(self).visit_order,
                self.maybe_master == old(self).maybe_master,
                self.dry_buffer == old(self).dry_buffer,
                init == seen,
                init.to_set() == edges_out_of(self.spec_edges(), node),
                forall|e: int|
                    0 <= e < self.spec_edges().len() ==> #[trigger] self.spec_buffers()[e]
                        == if seen.contains(e as usize) {
                        output@
                    } else {
                        old(self).spec_buffers()[e]
                    },
            decreases outputs.spec_left(self).len(),
        {
            let ghost left = outputs.spec_left(self);
            match outputs.next_edge(self) {
                Some(e) => {
                    proof {
                        assert(init[seen.len() as int] == e);
                        assert(init.contains(e));
                        assert(init.to_set().contains(e));
                    }
                    let ghost pre = self.connections@;
                    let ghost pre_buffers = self.spec_buffers();
                    let len = output.len();
                    if self.connections[e].buffer.len() != len {
                        resize_buffer_to(&mut self.connections[e].buffer, len);
                    }
                    write_into(self.connections[e].buffer.as_mut_slice(), output);
                    proof {
                        let next = seen.push(e);
                        assert forall|f: int| 0 <= f < self.spec_edges().len() implies
                            #[trigger] self.spec_buffers()[f] == if next.contains(f as usize) {
                            output@
                        } else {
                            old(self).spec_buffers()[f]
                        } by {
                            assert(self.spec_buffers()[f] == self.connections@[f].buffer@);
                            if f != e {
                                assert(self.connections@[f] == pre[f]);
                                assert(pre_buffers[f] == pre[f].buffer@);
                                if next.contains(f as usize) {
                                    let k = choose|k: int|
                                        0 <= k < next.len() && next[k] == f as usize;
                                    assert(k < seen.len());
                                    assert(seen[k] == f as usize);
                                }
                                if seen.contains(f as usize) {
                                    let k = choose|k: int|
                                        0 <= k < seen.len() && seen[k] == f as usize;
                                    assert(next[k] == seen[k]);
                                }
                            } else {
                                assert(next[seen.len() as int] == e);
                            }
                        }
                        assert(seen.push(e) + left.drop_first() =~= seen + left);
                        seen = next;
                        assert(self.spec_buffers().len() == self.spec_edges().len());
                    }
                },
                None => {
                    proof {
                        assert(seen + left =~= seen);
                    }
                    break ;
                },
            }
        }
        proof {
            assert forall|e: int| 0 <= e < old(self).spec_edges().len() implies
                #[trigger] self.spec_buffers()[e] == if old(self).spec_edges()[e].0 == node {
                output@
            } else {
                old(self).spec_buffers()[e]
            } by {
                assert(seen.contains(e as usize) == seen.to_set().contains(e as usize));
            }
        }
    }

    /// Renders audio from the node at `out_node` into `output`, at the sample rate
    /// `sample_hz`.
    ///
    /// Nodes are visited in the visit order. For each, `output` is set to the sum of its
    /// inputs, which is also kept as the dry signal; the node's dry and wet shares are read,
    /// and it renders into `output`; the rendered (wet) and dry signals are blended by those
    /// shares. Rendering stops at `out_node`; any other node's result is written to each of
    /// its outgoing connections.
    pub fn audio_requested_from(
        &mut self,
        out_node: NodeIndex,
        output: &mut [Sample],
        sample_hz: u32,
    )
        requires
            old(self).wf(),
            out_node < old(self).spec_node_count(),
        ensures
            final(self).wf(),
            rendered(
                *old(self),
                *final(self),
                out_node,
                final(output)@,
                old(output)@.len(),
                sample_hz,
            ),
    {
        let buffer_size = output.len();
        if self.dry_buffer.len() != buffer_size {
            resize_buffer_to(&mut self.dry_buffer, buffer_size);
        }
        let count = self.visit_order.len();
        let ghost order = self.visit_order@;
        let ghost edges = self.spec_edges();
        let ghost len = buffer_size as nat;
        let mut i: usize = 0;
        while i < count
            invariant
                self.wf(),
                old(self).wf(),
                count == order.len(),
                order == self.visit_order@,
                order == old(self).visit_order@,
                edges == self.spec_edges(),
                edges == old(self).spec_edges(),
                self.structure == old(self).structure,
                self.nodes@.len() == old(self).nodes@.len(),
                self.maybe_master == old(self).maybe_master,
                self.dry_buffer@.len() == buffer_size,
                output@.len() == buffer_size,
                buffer_size == old(output)@.len(),
                len == buffer_size,
                out_node < self.spec_node_count(),
                0 <= i <= count,
                forall|k: int| 0 <= k < i ==> order[k] != out_node,
                forall|k: int|
                    0 <= k < i ==> #[trigger] old(self).spec_input_order(order[k]).to_set()
                        == edges_into(edges, order[k]),
                published_through(*old(self), *self, i as int, len, sample_hz),
                edges_untouched_from(*old(self), *self, i as int),
                nodes_untouched_from(*old(self), *self, i as int),
            decreases count - i,
        {
            let node_idx = self.visit_order[i];
            let ghost cur = *self;
            proof {
                lemma_inputs_ready(*old(self), cur, i as int, len, sample_hz);
            }
            self.sum_inputs(node_idx, output);
            write_into(self.dry_buffer.as_mut_slice(), output);
            proof {
                assert forall|j: int| 0 <= j < len implies #[trigger] output@[j] == summed_inputs(
                    cur,
                    node_idx,
                    len,
                )[j] by {
                    lemma_mixed_input_in_range(
                        cur.spec_buffers(),
                        cur.spec_input_order(node_idx),
                        j,
                    );
                }
                assert(output@ =~= summed_inputs(cur, node_idx, len));
                assert(cur.spec_nodes()[node_idx as int]
                    == old(self).spec_nodes()[node_idx as int]);
            }
            let dry = self.nodes[node_idx].dry();
            let wet = self.nodes[node_idx].wet();
            self.nodes[node_idx].audio_requested(output, sample_hz);
            blend_into(output, self.dry_buffer.as_slice(), wet, dry);
            let ghost rendered_state = *self;
            proof {
                assert(old(self).spec_input_order(node_idx) == cur.spec_input_order(node_idx));
                assert(old(self).spec_input_order(order[i as int]).to_set() == edges_into(
                    edges,
                    order[i as int],
                ));
                assert(rendered_state.spec_buffers() == cur.spec_buffers());
                assert(summed_inputs(rendered_state, node_idx, len)
                    == summed_inputs(cur, node_idx, len));
                assert(output@ =~= node_output(
                    *old(self),
                    rendered_state,
                    node_idx,
                    len,
                    sample_hz,
                ));
                lemma_published_frame(
                    *old(self),
                    cur,
                    rendered_state,
                    i as int,
                    len,
                    sample_hz,
                    node_idx,
                    i as int,
                );
            }
            if node_idx == out_node {
                proof {
                    assert forall|p: int|
                        0 <= p < order.len() && #[trigger] order[p] == out_node implies p == i by {
                    }
                }
                return ;
            }
            self.write_outputs(node_idx, output);
            proof {
                lemma_published_frame(
                    *old(self),
                    rendered_state,
                    *self,
                    i as int,
                    len,
                    sample_hz,
                    node_idx,
                    i as int,
                );
                lemma_publish_node(
                    *old(self),
                    rendered_state,
                    *self,
                    i as int,
                    len,
                    sample_hz,
                    output@,
                );
            }
            i = i + 1;
        }
        proof {
            assert(order.contains(out_node));
            let k = choose|k: int| 0 <= k < order.len() && order[k] == out_node;
            assert(order[k] != out_node);
        }
    }

    /// Renders audio into `output` at the sample rate `sample_hz`, from the master node if
    /// one is set, and otherwise from the last node of the visit order, which has no outputs.
    /// A graph without nodes renders silence.
    pub fn audio_requested(&mut self, output: &mut [Sample], sample_hz: u32)
        requires
            old(self).wf(),
        ensures
            final(self).wf(),
            old(self).spec_master() matches Some(m) ==> rendered(
                *old(self),
                *final(self),
                m,
                final(output)@,
                old(output)@.len(),
                sample_hz,
            ),
            old(self).spec_master() is None && old(self).spec_node_count() > 0 ==> {
                let sink = old(self).spec_visit_order().last();
                &&& edges_out_of(old(self).spec_edges(), sink) == Set::<usize>::empty()
                &&& rendered(
                    *old(self),
                    *final(self),
                    sink,
                    final(output)@,
                    old(output)@.len(),
                    sample_hz,
                )
            },
            old(self).spec_node_count() == 0 ==> {
                &&& unchanged(*old(self), *final(self))
                &&& final(output)@.len() == old(output)@.len()
                &&& forall|i: int|
                    0 <= i < final(output)@.len() ==> #[trigger] final(output)@[i] == EQUILIBRIUM
            },
    {
        match self.maybe_master {
            Some(master) => {
                self.audio_requested_from(master, output, sample_hz);
            },
            None => {
                // The last node of a topological order never has outputs, so the first node
                // walked back from the end is the sink.
                let mut rev = self.visit_order_rev();
                proof {
                    if self.spec_node_count() > 0 {
                        lemma_last_is_sink(
                            self.spec_visit_order(),
                            self.spec_edges(),
                            self.spec_node_count(),
                        );
                    }
                }
                match rev.next(self) {
                    Some(node) => {
                        let mut outputs = self.outputs(node);
                        let ghost left = outputs.spec_left(self);
                        proof {
                            assert(left.to_set() =~= Set::<usize>::empty());
                            if left.len() > 0 {
                                assert(left.to_set().contains(left[0]));
                            }
                        }
                        match outputs.next_edge(self) {
                            None => {
                                self.audio_requested_from(node, output, sample_hz);
                            },
                            Some(_) => {},
                        }
                    },
                    None => {
                        fill_equilibrium(output);
                    },
                }
            },
        }
    }
}

/// `after` is `before` with the node `node` added at index `idx`: the node takes the next
/// index and nothing else changes.
pub open spec fn added_node<N>(before: Graph<N>, after: Graph<N>, node: N, idx: NodeIndex) -> bool {
    &&& idx == before.spec_node_count()
    &&& after.spec_nodes() == before.spec_nodes().push(node)
    &&& after.spec_edges() == before.spec_edges()
    &&& after.spec_buffers() == before.spec_buffers()
    &&& after.spec_master() == before.spec_master()
    &&& after.spec_dry_len() == before.spec_dry_len()
}

/// `after` is `before` with a connection from `src` to `dest` added at index `e`: the
/// connection takes the next index, its buffer starts empty, and no node changes.
pub open spec fn added_connection<N>(
    before: Graph<N>,
    after: Graph<N>,
    src: NodeIndex,
    dest: NodeIndex,
    e: EdgeIndex,
) -> bool {
    &&& e == before.spec_edges().len()
    &&& after.spec_edges() == before.spec_edges().push((src, dest))
    &&& after.spec_buffers() == before.spec_buffers().push(Seq::empty())
    &&& after.spec_nodes() == before.spec_nodes()
    &&& after.spec_master() == before.spec_master()
    &&& after.spec_dry_len() == before.spec_dry_len()
}

/// `after` is `before` without the connection at index `e`: the last connection takes its
/// index, and no node changes.
pub open spec fn removed_connection<N>(before: Graph<N>, after: Graph<N>, e: EdgeIndex) -> bool {
    &&& e < before.spec_edges().len()
    &&& after.spec_edges() == swap_removed(before.spec_edges(), e as int)
    &&& after.spec_buffers() == swap_removed(before.spec_buffers(), e as int)
    &&& after.spec_nodes() == before.spec_nodes()
    &&& after.spec_master() == before.spec_master()
    &&& after.spec_dry_len() == before.spec_dry_len()
}

/// `after` is `before` without the node at `idx` and without every connection into or out of
/// it: the last node takes its index, so the remaining connections that touched the last node
/// now touch `idx`. The master moves with its node, and is cleared if it was the removed one.
/// The remaining connections keep their count; when the removed node had no connections, they
/// also keep their indices and buffers.
pub open spec fn removed_node<N>(before: Graph<N>, after: Graph<N>, idx: NodeIndex) -> bool {
    let last = (before.spec_node_count() - 1) as usize;
    &&& idx < before.spec_node_count()
    &&& after.spec_nodes() == swap_removed(before.spec_nodes(), idx as int)
    &&& after.spec_master() == match before.spec_master() {
        Some(m) => if m == idx {
            None
        } else if m == last {
            Some(idx)
        } else {
            Some(m)
        },
        None => None,
    }
    &&& exists|kept: Seq<(usize, usize)>|
        #[trigger] without_node_edges(kept, before.spec_edges(), idx) && after.spec_edges()
            == relabel_edges(kept, last, idx)
    &&& is_isolated(before.spec_edges(), idx) ==> {
        &&& after.spec_edges() == relabel_edges(before.spec_edges(), last, idx)
        &&& after.spec_buffers() == before.spec_buffers()
    }
    &&& after.spec_dry_len() == before.spec_dry_len()
}

/// `kept` holds the entries of `edges` that neither start nor end at `idx`, each as many times
/// as `edges` does, in some order.
pub open spec fn without_node_edges(
    kept: Seq<(usize, usize)>,
    edges: Seq<(usize, usize)>,
    idx: usize,
) -> bool {
    forall|p: (usize, usize)|
        #[trigger] kept.to_multiset().count(p) == if p.0 == idx || p.1 == idx {
            0
        } else {
            edges.to_multiset().count(p)
        }
}

/// Removing a node that has no connections leaves the connections as they were, up to the
/// renaming of the last node.
proof fn lemma_removed_isolated_keeps_edges<N>(
    before: Graph<N>,
    after: Graph<N>,
    idx: NodeIndex,
)
    requires
        before.wf(),
        after.wf(),
        before.spec_node_count() <= usize::MAX,
        is_isolated(before.spec_edges(), idx),
        removed_node(before, after, idx),
    ensures
        after.spec_edges().len() == before.spec_edges().len(),
        forall|n: usize|
            n < after.spec_node_count() && n != idx && !is_isolated(before.spec_edges(), n)
                ==> !is_isolated(after.spec_edges(), n),
{
    broadcast use vstd::seq_lib::group_to_multiset_ensures;

    let last = (before.spec_node_count() - 1) as usize;
    let old_edges = before.spec_edges();
    let kept = choose|kept: Seq<(usize, usize)>|
        #[trigger] without_node_edges(kept, old_edges, idx) && after.spec_edges() == relabel_edges(
            kept,
            last,
            idx,
        );
    assert forall|p: (usize, usize)| #[trigger] kept.to_multiset().count(p)
        == old_edges.to_multiset().count(p) by {
        if p.0 == idx || p.1 == idx {
            if old_edges.contains(p) {
                let k = choose|k: int| 0 <= k < old_edges.len() && old_edges[k] == p;
                assert(old_edges[k].0 != idx && old_edges[k].1 != idx);
            }
        }
    }
    assert(kept.to_multiset() =~= old_edges.to_multiset());
    assert(kept.len() == kept.to_multiset().len());
    assert forall|n: usize|
        n < after.spec_node_count() && n != idx && !is_isolated(old_edges, n) implies !is_isolated(
        after.spec_edges(),
        n,
    ) by {
        let k = choose|k: int|
            0 <= k < old_edges.len() && ((#[trigger] old_edges[k]).0 == n || old_edges[k].1 == n);
        assert(old_edges.contains(old_edges[k]));
        assert(old_edges.to_multiset().count(old_edges[k]) > 0);
        assert(kept.to_multiset().count(old_edges[k]) > 0);
        assert(kept.contains(old_edges[k]));
        let j = choose|j: int| 0 <= j < kept.len() && kept[j] == old_edges[k];
        assert(after.spec_nodes().len() == before.spec_nodes().len() - 1);
        assert(n != last);
        assert(after.spec_edges()[j] == (
            relabel(kept[j].0, last, idx),
            relabel(kept[j].1, last, idx),
        ));
    }
}

/// `buffer` is `old` resized to `len` samples: kept up to `len`, extended with silence.
pub open spec fn resized(buffer: Seq<Sample>, old: Seq<Sample>, len: nat) -> bool {
    &&& buffer.len() == len
    &&& forall|i: int|
        0 <= i < len ==> #[trigger] buffer[i] == if i < old.len() {
            old[i]
        } else {
            EQUILIBRIUM
        }
}

/// `after` is `before` with the dry buffer and every connection buffer resized to `len`.
pub open spec fn prepared<N>(before: Graph<N>, after: Graph<N>, len: nat) -> bool {
    &&& after.spec_nodes() == before.spec_nodes()
    &&& after.spec_edges() == before.spec_edges()
    &&& after.spec_visit_order() == before.spec_visit_order()
    &&& after.spec_master() == before.spec_master()
    &&& after.spec_dry_len() == len
    &&& after.spec_buffers().len() == before.spec_buffers().len()
    &&& forall|e: int|
        0 <= e < after.spec_buffers().len() ==> resized(
            #[trigger] after.spec_buffers()[e],
            before.spec_buffers()[e],
            len,
        )
}

/// Sample `i` of the sum of the buffers of the connections `order`, added one after another
/// from silence, each addition saturating at the bounds of the sample range.
pub open spec fn mixed_input(buffers: Seq<Seq<Sample>>, order: Seq<EdgeIndex>, i: int) -> int
    decreases order.len(),
{
    if order.len() == 0 {
        EQUILIBRIUM as int
    } else {
        add_spec(mixed_input(buffers, order.drop_last(), i), buffers[order.last() as int][i] as int)
    }
}

/// The summed inputs of `v` in `g`, `len` samples long: what `v` is handed to render.
pub open spec fn summed_inputs<N>(g: Graph<N>, v: NodeIndex, len: nat) -> Seq<Sample> {
    Seq::new(len, |i: int| mixed_input(g.spec_buffers(), g.spec_input_order(v), i) as Sample)
}

/// What `v` produces in a render pass that starts from `before` and reaches `after`: the node
/// as it was in `before` renders its summed inputs (read from the connection buffers of
/// `after`), and the result is blended with those inputs by the node's dry and wet shares,
/// which are read before it renders.
pub open spec fn node_output<N: Node>(
    before: Graph<N>,
    after: Graph<N>,
    v: NodeIndex,
    len: nat,
    sample_hz: u32,
) -> Seq<Sample> {
    let input = summed_inputs(after, v, len);
    let node = before.spec_nodes()[v as int];
    let wet_signal = node.spec_render(input, sample_hz);
    Seq::new(
        len,
        |i: int|
            blend_spec(
                wet_signal[i] as int,
                input[i] as int,
                node.spec_wet() as int,
                node.spec_dry() as int,
            ) as Sample,
    )
}

/// Every connection out of a node at positions `0..upto` of the visit order holds that node's
/// output for the pass.
pub open spec fn published_through<N: Node>(
    before: Graph<N>,
    after: Graph<N>,
    upto: int,
    len: nat,
    sample_hz: u32,
) -> bool {
    let order = before.spec_visit_order();
    let edges = before.spec_edges();
    forall|e: int, k: int|
        #![trigger after.spec_buffers()[e], order[k]]
        0 <= e < edges.len() && 0 <= k < upto && k < order.len() && order[k] == edges[e].0
            ==> after.spec_buffers()[e] == node_output(before, after, edges[e].0, len, sample_hz)
}

/// Every connection out of a node at position `from` or later of the visit order holds the
/// buffer it held in `before`.
pub open spec fn edges_untouched_from<N>(before: Graph<N>, after: Graph<N>, from: int) -> bool {
    let order = before.spec_visit_order();
    let edges = before.spec_edges();
    &&& after.spec_buffers().len() == before.spec_buffers().len()
    &&& forall|e: int, k: int|
        #![trigger after.spec_buffers()[e], order[k]]
        0 <= e < edges.len() && from <= k < order.len() && order[k] == edges[e].0
            ==> after.spec_buffers()[e] == before.spec_buffers()[e]
}

/// Every node at position `from` or later of the visit order is as it was in `before`.
pub open spec fn nodes_untouched_from<N>(before: Graph<N>, after: Graph<N>, from: int) -> bool {
    let order = before.spec_visit_order();
    &&& after.spec_nodes().len() == before.spec_nodes().len()
    &&& forall|k: int|
        from <= k < order.len() ==> after.spec_nodes()[#[trigger] order[k] as int]
            == before.spec_nodes()[order[k] as int]
}

/// `after` and `output` are the result of rendering `before` up to the node `out`, for
/// buffers of `len` samples: `output` holds the output of `out`; every node before `out` in the
/// visit order has written its output to each of its connections; every other connection and
/// every node after `out` is untouched; the structure, the visit order and the master are
/// unchanged; and the dry buffer has `len` samples.
pub open spec fn rendered<N: Node>(
    before: Graph<N>,
    after: Graph<N>,
    out: NodeIndex,
    output: Seq<Sample>,
    len: nat,
    sample_hz: u32,
) -> bool {
    &&& after.spec_node_count() == before.spec_node_count()
    &&& after.spec_edges() == before.spec_edges()
    &&& after.spec_visit_order() == before.spec_visit_order()
    &&& after.spec_master() == before.spec_master()
    &&& after.spec_dry_len() == len
    &&& output == node_output(before, after, out, len, sample_hz)
    &&& forall|p: int|
        0 <= p < before.spec_visit_order().len() && #[trigger] before.spec_visit_order()[p] == out
            ==> {
            &&& published_through(before, after, p, len, sample_hz)
            &&& edges_untouched_from(before, after, p)
            &&& nodes_untouched_from(before, after, p + 1)
        }
}

/// A sum of inputs stays within the sample range.
proof fn lemma_mixed_input_in_range(buffers: Seq<Seq<Sample>>, order: Seq<EdgeIndex>, i: int)
    ensures
        i32::MIN <= mixed_input(buffers, order, i) <= i32::MAX,
    decreases order.len(),
{
    if order.len() > 0 {
        lemma_mixed_input_in_range(buffers, order.drop_last(), i);
    }
}

/// The sum of inputs reads only the buffers of the connections summed.
proof fn lemma_mixed_input_frame(
    a: Seq<Seq<Sample>>,
    b: Seq<Seq<Sample>>,
    order: Seq<EdgeIndex>,
    i: int,
)
    requires
        forall|j: int| 0 <= j < order.len() ==> a[#[trigger] order[j] as int] == b[order[j] as int],
    ensures
        mixed_input(a, order, i) == mixed_input(b, order, i),
    decreases order.len(),
{
    if order.len() > 0 {
        let shorter = order.drop_last();
        assert forall|j: int| 0 <= j < shorter.len() implies a[#[trigger] shorter[j] as int]
            == b[shorter[j] as int] by {
            assert(shorter[j] == order[j]);
        }
        lemma_mixed_input_frame(a, b, shorter, i);
        assert(order.last() == order[order.len() - 1]);
    }
}

/// A node's output reads only the node itself and the buffers of its inputs.
proof fn lemma_node_output_frame<N: Node>(
    before: Graph<N>,
    a: Graph<N>,
    b: Graph<N>,
    v: NodeIndex,
    len: nat,
    sample_hz: u32,
)
    requires
        a.structure == b.structure,
        a.spec_nodes()[v as int] == b.spec_nodes()[v as int],
        forall|j: int|
            0 <= j < a.spec_input_order(v).len() ==> a.spec_buffers()[#[trigger] a.spec_input_order(
                v,
            )[j] as int] == b.spec_buffers()[a.spec_input_order(v)[j] as int],
    ensures
        node_output(before, a, v, len, sample_hz) == node_output(before, b, v, len, sample_hz),
{
    assert forall|i: int| 0 <= i < len implies #[trigger] summed_inputs(a, v, len)[i]
        == summed_inputs(b, v, len)[i] by {
        lemma_mixed_input_frame(a.spec_buffers(), b.spec_buffers(), a.spec_input_order(v), i);
    }
    assert(summed_inputs(a, v, len) =~= summed_inputs(b, v, len));
    assert(node_output(before, a, v, len, sample_hz) =~= node_output(before, b, v, len, sample_hz));
}

/// The inputs of the node at position `i` come from nodes at earlier positions, so they hold
/// `len` samples each.
proof fn lemma_inputs_ready<N: Node>(
    before: Graph<N>,
    cur: Graph<N>,
    i: int,
    len: nat,
    sample_hz: u32,
)
    requires
        before.wf(),
        0 <= i < before.spec_visit_order().len(),
        cur.spec_edges() == before.spec_edges(),
        published_through(before, cur, i, len, sample_hz),
    ensures
        forall|e: int|
            0 <= e < cur.spec_edges().len() && cur.spec_edges()[e].1 == before.spec_visit_order()[i]
                ==> #[trigger] cur.spec_buffers()[e].len() == len,
{
    let order = before.spec_visit_order();
    let edges = before.spec_edges();
    assert forall|e: int|
        0 <= e < cur.spec_edges().len() && cur.spec_edges()[e].1 == order[i] implies
        #[trigger] cur.spec_buffers()[e].len() == len by {
        assert(order.contains(edges[e].0));
        let k = choose|k: int| 0 <= k < order.len() && order[k] == edges[e].0;
        assert(k < i);
        assert(cur.spec_buffers()[e] == node_output(before, cur, edges[e].0, len, sample_hz));
    }
}

/// Changing only the node `c` at position `pc`, and only the connections out of it, leaves the
/// outputs of the nodes before position `upto <= pc` as they were.
proof fn lemma_published_frame<N: Node>(
    before: Graph<N>,
    a: Graph<N>,
    b: Graph<N>,
    upto: int,
    len: nat,
    sample_hz: u32,
    c: NodeIndex,
    pc: int,
)
    requires
        before.wf(),
        a.structure == before.structure,
        b.structure == before.structure,
        upto <= pc < before.spec_visit_order().len(),
        before.spec_visit_order()[pc] == c,
        forall|k: int|
            0 <= k < upto ==> #[trigger] before.spec_input_order(
                before.spec_visit_order()[k],
            ).to_set() == edges_into(before.spec_edges(), before.spec_visit_order()[k]),
        published_through(before, a, upto, len, sample_hz),
        a.spec_nodes().len() == before.spec_nodes().len(),
        a.spec_buffers().len() == before.spec_edges().len(),
        b.spec_nodes().len() == a.spec_nodes().len(),
        forall|x: int|
            0 <= x < a.spec_nodes().len() && x != c ==> #[trigger] b.spec_nodes()[x]
                == a.spec_nodes()[x],
        b.spec_buffers().len() == a.spec_buffers().len(),
        forall|e: int|
            0 <= e < a.spec_buffers().len() && before.spec_edges()[e].0 != c
                ==> #[trigger] b.spec_buffers()[e] == a.spec_buffers()[e],
    ensures
        published_through(before, b, upto, len, sample_hz),
{
    let order = before.spec_visit_order();
    let edges = before.spec_edges();
    assert forall|e: int, k: int|
        #![trigger b.spec_buffers()[e], order[k]]
        0 <= e < edges.len() && 0 <= k < upto && k < order.len() && order[k] == edges[e].0 implies
        b.spec_buffers()[e] == node_output(before, b, edges[e].0, len, sample_hz) by {
        let s = edges[e].0;
        assert(order[k] != order[pc]);
        assert(a.spec_buffers()[e] == node_output(before, a, s, len, sample_hz));
        let ins = a.spec_input_order(s);
        assert(ins == before.spec_input_order(order[k]));
        assert(ins.to_set() == edges_into(edges, order[k]));
        assert forall|j: int| 0 <= j < ins.len() implies a.spec_buffers()[#[trigger] ins[j] as int]
            == b.spec_buffers()[ins[j] as int] by {
            assert(ins.to_set().contains(ins[j]));
            let f = ins[j] as int;
            assert(edges[f].1 == s);
            assert(order.contains(edges[f].0));
            let kf = choose|kf: int| 0 <= kf < order.len() && order[kf] == edges[f].0;
            assert(kf < k);
            assert(order[kf] != order[pc]);
        }
        lemma_node_output_frame(before, a, b, s, len, sample_hz);
    }
}

/// Writing the output of the node at position `i` to its connections extends what is
/// published to position `i + 1`.
proof fn lemma_publish_node<N: Node>(
    before: Graph<N>,
    a: Graph<N>,
    b: Graph<N>,
    i: int,
    len: nat,
    sample_hz: u32,
    output: Seq<Sample>,
)
    requires
        before.wf(),
        a.structure == before.structure,
        b.structure == before.structure,
        0 <= i < before.spec_visit_order().len(),
        before.spec_input_order(before.spec_visit_order()[i]).to_set() == edges_into(
            before.spec_edges(),
            before.spec_visit_order()[i],
        ),
        a.spec_buffers().len() == before.spec_edges().len(),
        output == node_output(before, a, before.spec_visit_order()[i], len, sample_hz),
        published_through(before, b, i, len, sample_hz),
        edges_untouched_from(before, a, i),
        b.spec_nodes() == a.spec_nodes(),
        b.spec_buffers().len() == a.spec_buffers().len(),
        forall|e: int|
            0 <= e < before.spec_edges().len() ==> #[trigger] b.spec_buffers()[e]
                == if before.spec_edges()[e].0 == before.spec_visit_order()[i] {
                output
            } else {
                a.spec_buffers()[e]
            },
    ensures
        published_through(before, b, i + 1, len, sample_hz),
        edges_untouched_from(before, b, i + 1),
{
    let order = before.spec_visit_order();
    let edges = before.spec_edges();
    let v = order[i];
    let ins = a.spec_input_order(v);
    assert(ins == before.spec_input_order(v));
    assert forall|j: int| 0 <= j < ins.len() implies a.spec_buffers()[#[trigger] ins[j] as int]
        == b.spec_buffers()[ins[j] as int] by {
        assert(ins.to_set().contains(ins[j]));
        let f = ins[j] as int;
        assert(edges[f].1 == v);
        assert(order.contains(edges[f].0));
        let kf = choose|kf: int| 0 <= kf < order.len() && order[kf] == edges[f].0;
        assert(kf < i);
        assert(order[kf] != order[i]);
    }
    lemma_node_output_frame(before, a, b, v, len, sample_hz);
    assert forall|e: int, k: int|
        #![trigger b.spec_buffers()[e], order[k]]
        0 <= e < edges.len() && 0 <= k < i + 1 && k < order.len() && order[k] == edges[e].0 implies
        b.spec_buffers()[e] == node_output(before, b, edges[e].0, len, sample_hz) by {
        if k == i {
        } else {
            assert(b.spec_buffers()[e] == node_output(before, b, edges[e].0, len, sample_hz));
        }
    }
    assert forall|e: int, k: int|
        #![trigger b.spec_buffers()[e], order[k]]
        0 <= e < edges.len() && i + 1 <= k < order.len() && order[k] == edges[e].0 implies
        b.spec_buffers()[e] == before.spec_buffers()[e] by {
        assert(order[k] != order[i]);
        assert(a.spec_buffers()[e] == before.spec_buffers()[e]);
    }
}

/// The nodes of `g` that have at least one input or output.
pub open spec fn connected_nodes<N>(g: Graph<N>) -> Set<NodeIndex> {
    Set::new(|x: NodeIndex| x < g.spec_node_count() && !is_isolated(g.spec_edges(), x))
}

/// Node `j` of `after` is node `kept[j]` of `before`, with the same data; each connection
/// keeps its index and buffer, its endpoints renamed the same way; and the master, if still
/// set, is the same node.
pub open spec fn kept_nodes<N>(before: Graph<N>, after: Graph<N>, kept: Seq<NodeIndex>) -> bool {
    &&& kept.len() == after.spec_node_count()
    &&& kept.no_duplicates()
    &&& forall|j: int|
        0 <= j < kept.len() ==> #[trigger] kept[j] < before.spec_node_count()
            && after.spec_nodes()[j] == before.spec_nodes()[kept[j] as int]
    &&& after.spec_edges().len() == before.spec_edges().len()
    &&& forall|e: int|
        0 <= e < after.spec_edges().len() ==> kept[(#[trigger] after.spec_edges()[e]).0 as int]
            == before.spec_edges()[e].0 && kept[after.spec_edges()[e].1 as int]
            == before.spec_edges()[e].1
    &&& after.spec_buffers() == before.spec_buffers()
    &&& after.spec_master() matches Some(j) ==> before.spec_master() == Some(kept[j as int])
    &&& forall|m: NodeIndex|
        before.spec_master() == Some(m) && #[trigger] kept.contains(m)
            ==> after.spec_master() is Some
}

/// Every node of a graph is kept by the identity.
proof fn lemma_kept_start<N>(g: Graph<N>, kept: Seq<NodeIndex>)
    requires
        g.wf(),
        g.spec_node_count() <= usize::MAX,
        kept == Seq::new(g.spec_node_count(), |j: int| j as usize),
    ensures
        kept_nodes(g, g, kept),
        forall|x: usize| x < g.spec_node_count() ==> kept.contains(x),
{
    assert forall|x: usize| x < g.spec_node_count() implies kept.contains(x) by {
        assert(kept[x as int] == x);
    }
    assert forall|e: int| 0 <= e < g.spec_edges().len() implies
        kept[(#[trigger] g.spec_edges()[e]).0 as int]
        == g.spec_edges()[e].0 && kept[g.spec_edges()[e].1 as int] == g.spec_edges()[e].1 by {
    }
    match g.spec_master() {
        Some(m) => {
            assert(kept[m as int] == m);
        },
        None => {},
    }
}

/// A node of `after` has a connection exactly when the node of `before` it stands for has one.
proof fn lemma_kept_isolation<N>(before: Graph<N>, after: Graph<N>, kept: Seq<NodeIndex>, j: int)
    requires
        after.wf(),
        kept_nodes(before, after, kept),
        kept.len() <= usize::MAX,
        0 <= j < kept.len(),
    ensures
        is_isolated(after.spec_edges(), j as usize) == is_isolated(before.spec_edges(), kept[j]),
{
    let a = after.spec_edges();
    let b = before.spec_edges();
    let n = j as usize;
    if !is_isolated(a, n) {
        let e = choose|e: int| 0 <= e < a.len() && ((#[trigger] a[e]).0 == n || a[e].1 == n);
        assert(kept[a[e].0 as int] == b[e].0);
        assert(kept[a[e].1 as int] == b[e].1);
        assert(b[e].0 == kept[j] || b[e].1 == kept[j]);
    }
    if !is_isolated(b, kept[j]) {
        let e = choose|e: int|
            0 <= e < b.len() && ((#[trigger] b[e]).0 == kept[j] || b[e].1 == kept[j]);
        assert(kept[a[e].0 as int] == b[e].0);
        assert(kept[a[e].1 as int] == b[e].1);
        assert(a[e].0 < kept.len() && a[e].1 < kept.len());
        assert(a[e].0 == n || a[e].1 == n);
    }
}

/// Removing the node `i` of `cur`, which has no connections, keeps the correspondence with
/// `before` once `kept` loses its entry `i` the way the nodes do.
proof fn lemma_kept_step<N>(
    before: Graph<N>,
    cur: Graph<N>,
    next: Graph<N>,
    kept: Seq<NodeIndex>,
    i: NodeIndex,
)
    requires
        cur.wf(),
        next.wf(),
        cur.spec_node_count() <= usize::MAX,
        kept_nodes(before, cur, kept),
        i < cur.spec_node_count(),
        is_isolated(cur.spec_edges(), i),
        removed_node(cur, next, i),
    ensures
        kept_nodes(before, next, swap_removed(kept, i as int)),
        is_isolated(before.spec_edges(), kept[i as int]),
{
    lemma_kept_isolation(before, cur, kept, i as int);
    let last = (cur.spec_node_count() - 1) as usize;
    let k2 = swap_removed(kept, i as int);
    assert forall|a: int, b: int| 0 <= a < k2.len() && 0 <= b < k2.len() && a != b implies k2[a]
        != k2[b] by {
        let sa = if a == i {
            last as int
        } else {
            a
        };
        let sb = if b == i {
            last as int
        } else {
            b
        };
        assert(k2[a] == kept[sa] && k2[b] == kept[sb]);
    }
    assert forall|j: int| 0 <= j < k2.len() implies #[trigger] k2[j] < before.spec_node_count()
        && next.spec_nodes()[j] == before.spec_nodes()[k2[j] as int] by {
        if j == i {
            assert(k2[j] == kept[last as int]);
        } else {
            assert(k2[j] == kept[j]);
        }
    }
    assert forall|e: int| 0 <= e < next.spec_edges().len() implies
        k2[(#[trigger] next.spec_edges()[e]).0 as int]
        == before.spec_edges()[e].0 && k2[next.spec_edges()[e].1 as int]
        == before.spec_edges()[e].1 by {
        let c = cur.spec_edges()[e];
        assert(c.0 != i && c.1 != i);
        assert(next.spec_edges()[e] == (relabel(c.0, last, i), relabel(c.1, last, i)));
        assert(kept[c.0 as int] == before.spec_edges()[e].0);
        assert(kept[c.1 as int] == before.spec_edges()[e].1);
        assert(c.0 < cur.spec_node_count() && c.1 < cur.spec_node_count());
    }
    assert forall|m: NodeIndex|
        before.spec_master() == Some(m) && #[trigger] k2.contains(m) implies
        next.spec_master() is Some by {
        let j = choose|j: int| 0 <= j < k2.len() && k2[j] == m;
        let sj = if j == i {
            last as int
        } else {
            j
        };
        assert(kept[sj] == m);
        assert(kept.contains(m));
    }
    match next.spec_master() {
        Some(j) => {
            if j == i {
                assert(k2[j as int] == kept[last as int]);
            } else {
                assert(k2[j as int] == kept[j as int]);
            }
        },
        None => {},
    }
}

/// Once no node of `after` is isolated, and every node of `before` is kept or isolated, the
/// kept nodes are exactly the connected nodes of `before`.
proof fn lemma_kept_connected<N>(before: Graph<N>, after: Graph<N>, kept: Seq<NodeIndex>)
    requires
        after.wf(),
        after.spec_node_count() <= usize::MAX,
        kept_nodes(before, after, kept),
        forall|x: usize|
            x < before.spec_node_count() ==> kept.contains(x) || is_isolated(
                before.spec_edges(),
                x,
            ),
        forall|n: usize| n < after.spec_node_count() ==> !is_isolated(after.spec_edges(), n),
    ensures
        kept.to_set() == connected_nodes(before),
{
    assert forall|x: usize| kept.to_set().contains(x) <==> #[trigger] connected_nodes(
        before,
    ).contains(x) by {
        if kept.contains(x) {
            let j = choose|j: int| 0 <= j < kept.len() && kept[j] == x;
            lemma_kept_isolation(before, after, kept, j);
            assert(!is_isolated(after.spec_edges(), j as usize));
        }
    }
    assert(kept.to_set() =~= connected_nodes(before));
}

/// `after` holds the same nodes, connections, buffers and master as `before`.
pub open spec fn unchanged<N>(before: Graph<N>, after: Graph<N>) -> bool {
    &&& after.spec_nodes() == before.spec_nodes()
    &&& after.spec_edges() == before.spec_edges()
    &&& after.spec_buffers() == before.spec_buffers()
    &&& after.spec_master() == before.spec_master()
    &&& after.spec_visit_order() == before.spec_visit_order()
    &&& after.spec_dry_len() == before.spec_dry_len()
}

/// A walker over the inputs of one node. It holds a cursor rather than a borrow of the
/// graph, so the graph may be mutated between steps.
pub struct Inputs {
    parents: ParentWalker,
}

/// A walker over the outputs of one node. It holds a cursor rather than a borrow of the
/// graph, so the graph may be mutated between steps.
pub struct Outputs {
    children: ChildWalker,
}

impl Inputs {
    /// The input connections this walker has yet to yield from `graph`, in order.
    pub closed spec fn spec_left<N>(&self, graph: &Graph<N>) -> Seq<EdgeIndex> {
        parents_left(self.parents, graph.structure)
    }

    /// The next input connection and its input node.
    pub fn next<N>(&mut self, graph: &Graph<N>) -> (r: Option<(EdgeIndex, NodeIndex)>)
        ensures
            old(self).spec_left(graph).len() == 0 ==> r is None,
            old(self).spec_left(graph).len() > 0 ==> {
                let e = old(self).spec_left(graph)[0];
                &&& r == Some((e, graph.spec_edges()[e as int].0))
                &&& final(self).spec_left(graph) == old(self).spec_left(graph).drop_first()
            },
    {
        parents_next(&mut self.parents, &graph.structure)
    }

    /// The next input connection.
    pub fn next_edge<N>(&mut self, graph: &Graph<N>) -> (r: Option<EdgeIndex>)
        ensures
            old(self).spec_left(graph).len() == 0 ==> r is None,
            old(self).spec_left(graph).len() > 0 ==> {
                &&& r == Some(old(self).spec_left(graph)[0])
                &&& final(self).spec_left(graph) == old(self).spec_left(graph).drop_first()
            },
    {
        match self.next(graph) {
            Some((e, _)) => Some(e),
            None => None,
        }
    }

    /// The next input node.
    pub fn next_node<N>(&mut self, graph: &Graph<N>) -> (r: Option<NodeIndex>)
        ensures
            old(self).spec_left(graph).len() == 0 ==> r is None,
            old(self).spec_left(graph).len() > 0 ==> {
                &&& r == Some(graph.spec_edges()[old(self).spec_left(graph)[0] as int].0)
                &&& final(self).spec_left(graph) == old(self).spec_left(graph).drop_first()
            },
    {
        match self.next(graph) {
            Some((_, n)) => Some(n),
            None => None,
        }
    }
}

impl Outputs {
    /// The output connections this walker has yet to yield from `graph`, in order.
    pub closed spec fn spec_left<N>(&self, graph: &Graph<N>) -> Seq<EdgeIndex> {
        children_left(self.children, graph.structure)
    }

    /// The next output connection and its output node.
    pub fn next<N>(&mut self, graph: &Graph<N>) -> (r: Option<(EdgeIndex, NodeIndex)>)
        ensures
            old(self).spec_left(graph).len() == 0 ==> r is None,
            old(self).spec_left(graph).len() > 0 ==> {
                let e = old(self).spec_left(graph)[0];
                &&& r == Some((e, graph.spec_edges()[e as int].1))
                &&& final(self).spec_left(graph) == old(self).spec_left(graph).drop_first()
            },
    {
        children_next(&mut self.children, &graph.structure)
    }

    /// The next output connection.
    pub fn next_edge<N>(&mut self, graph: &Graph<N>) -> (r: Option<EdgeIndex>)
        ensures
            old(self).spec_left(graph).len() == 0 ==> r is None,
            old(self).spec_left(graph).len() > 0 ==> {
                &&& r == Some(old(self).spec_left(graph)[0])
                &&& final(self).spec_left(graph) == old(self).spec_left(graph).drop_first()
            },
    {
        match self.next(graph) {
            Some((e, _)) => Some(e),
            None => None,
        }
    }

    /// The next output node.
    pub fn next_node<N>(&mut self, graph: &Graph<N>) -> (r: Option<NodeIndex>)
        ensures
            old(self).spec_left(graph).len() == 0 ==> r is None,
            old(self).spec_left(graph).len() > 0 ==> {
                &&& r == Some(graph.spec_edges()[old(self).spec_left(graph)[0] as int].1)
                &&& final(self).spec_left(graph) == old(self).spec_left(graph).drop_first()
            },
    {
        match self.next(graph) {
            Some((_, n)) => Some(n),
            None => None,
        }
    }
}

/// A walker over a graph's nodes in the order in which they are visited when audio is
/// rendered. It holds a position rather than a borrow of the graph.
pub struct VisitOrder {
    current_visit_order_idx: usize,
}

/// A walker over a graph's nodes in the reverse of the order in which they are visited when
/// audio is rendered. It holds a position rather than a borrow of the graph.
pub struct VisitOrderReverse {
    current_visit_order_idx: usize,
}

impl VisitOrder {
    /// The position in the visit order of the next node to yield.
    pub closed spec fn spec_position(&self) -> nat {
        self.current_visit_order_idx as nat
    }

    /// The next node in `graph`'s visit order.
    pub fn next<N>(&mut self, graph: &Graph<N>) -> (r: Option<NodeIndex>)
        ensures
            old(self).spec_position() < graph.spec_visit_order().len() ==> {
                &&& r == Some(graph.spec_visit_order()[old(self).spec_position() as int])
                &&& final(self).spec_position() == old(self).spec_position() + 1
            },
            old(self).spec_position() >= graph.spec_visit_order().len() ==> {
                &&& r is None
                &&& final(self).spec_position() == old(self).spec_position()
            },
    {
        if self.current_visit_order_idx < graph.visit_order.len() {
            let idx = graph.visit_order[self.current_visit_order_idx];
            self.current_visit_order_idx = self.current_visit_order_idx + 1;
            Some(idx)
        } else {
            None
        }
    }
}

impl VisitOrderReverse {
    /// The number of nodes of the visit order this walker has yet to yield.
    pub closed spec fn spec_position(&self) -> nat {
        self.current_visit_order_idx as nat
    }

    /// The next node in the reverse of `graph`'s visit order.
    pub fn next<N>(&mut self, graph: &Graph<N>) -> (r: Option<NodeIndex>)
        ensures
            old(self).spec_position() > 0 ==> {
                &&& final(self).spec_position() == old(self).spec_position() - 1
                &&& final(self).spec_position() < graph.spec_visit_order().len() ==> r == Some(
                    graph.spec_visit_order()[final(self).spec_position() as int],
                )
                &&& final(self).spec_position() >= graph.spec_visit_order().len() ==> r is None
            },
            old(self).spec_position() == 0 ==> r is None && final(self).spec_position() == 0,
    {
        if self.current_visit_order_idx > 0 {
            self.current_visit_order_idx = self.current_visit_order_idx - 1;
            if self.current_visit_order_idx < graph.visit_order.len() {
                Some(graph.visit_order[self.current_visit_order_idx])
            } else {
                None
            }
        } else {
            None
        }
    }
}

} // verus!
