//! Directed graphs as lists of edges: walks, reachability, acyclicity and topological orders.
//!
//! An edge is a `(source, target)` pair of node indices; a list of edges may hold the same pair
//! more than once. These definitions are the model in which the graph's contracts are stated.

use vstd::prelude::*;

verus! {

/// An edge list, each entry a `(source, target)` pair.
pub type Edges = Seq<(usize, usize)>;

/// Some entry of `edges` goes from `a` to `b`.
pub open spec fn has_edge(edges: Edges, a: usize, b: usize) -> bool {
    exists|e: int| 0 <= e < edges.len() && edges[e] == (a, b)
}

/// `p` is a non-empty sequence of nodes in which each node has an edge to the next.
pub open spec fn is_walk(edges: Edges, p: Seq<usize>) -> bool {
    &&& p.len() >= 1
    &&& forall|i: int| 0 <= i < p.len() - 1 ==> #[trigger] has_edge(edges, p[i], p[i + 1])
}

/// There is a walk from `a` to `b`; every node reaches itself.
pub open spec fn reaches(edges: Edges, a: usize, b: usize) -> bool {
    exists|p: Seq<usize>| #[trigger] is_walk(edges, p) && p[0] == a && p.last() == b
}

/// No edge closes a cycle: the target of an edge never reaches its source.
pub open spec fn acyclic(edges: Edges) -> bool {
    forall|e: int| 0 <= e < edges.len() ==> !reaches(edges, #[trigger] edges[e].1, edges[e].0)
}

/// Every endpoint is a node index below `n`.
pub open spec fn edges_within(edges: Edges, n: nat) -> bool {
    forall|e: int| 0 <= e < edges.len() ==> (#[trigger] edges[e]).0 < n && edges[e].1 < n
}

/// `order` lists each of the nodes `0..n` exactly once, and the source of every edge comes
/// before its target.
pub open spec fn is_topological_order(order: Seq<usize>, edges: Edges, n: nat) -> bool {
    &&& order.len() == n
    &&& order.no_duplicates()
    &&& forall|i: int| 0 <= i < order.len() ==> #[trigger] order[i] < n
    &&& forall|v: usize| v < n ==> #[trigger] order.contains(v)
    &&& forall|e: int, i: int, j: int|
        #![trigger edges[e], order[i], order[j]]
        0 <= e < edges.len() && 0 <= i < order.len() && 0 <= j < order.len() && order[i]
            == edges[e].0 && order[j] == edges[e].1 ==> i < j
}

/// The indices of the edges whose target is `n`.
pub open spec fn edges_into(edges: Edges, n: usize) -> Set<usize> {
    Set::new(|e: usize| e < edges.len() && edges[e as int].1 == n)
}

/// The indices of the edges whose source is `n`.
pub open spec fn edges_out_of(edges: Edges, n: usize) -> Set<usize> {
    Set::new(|e: usize| e < edges.len() && edges[e as int].0 == n)
}

/// The node `n` has no incoming and no outgoing edge.
pub open spec fn is_isolated(edges: Edges, n: usize) -> bool {
    forall|e: int| 0 <= e < edges.len() ==> (#[trigger] edges[e]).0 != n && edges[e].1 != n
}

/// The edge list after removing entry `e` the way a swap-remove does: the last entry takes its
/// place.
pub open spec fn swap_removed<T>(s: Seq<T>, e: int) -> Seq<T> {
    s.update(e, s.last()).drop_last()
}

/// Node `from` renamed to `to`; other nodes keep their index.
pub open spec fn relabel(x: usize, from: usize, to: usize) -> usize {
    if x == from {
        to
    } else {
        x
    }
}

/// Every endpoint `from` renamed to `to`.
pub open spec fn relabel_edges(edges: Edges, from: usize, to: usize) -> Edges {
    edges.map_values(|p: (usize, usize)| (relabel(p.0, from, to), relabel(p.1, from, to)))
}

/// A walk over `edges` is a walk over any edge list that holds all of its edges.
pub proof fn lemma_walk_in_superset(small: Edges, big: Edges, p: Seq<usize>)
    requires
        is_walk(small, p),
        forall|a: usize, b: usize| has_edge(small, a, b) ==> #[trigger] has_edge(big, a, b),
    ensures
        is_walk(big, p),
{
    assert forall|i: int| 0 <= i < p.len() - 1 implies #[trigger] has_edge(big, p[i], p[i + 1]) by {
        assert(has_edge(small, p[i], p[i + 1]));
    }
}

/// Reachability over `small` carries over to an edge list that holds all of its edges.
pub proof fn lemma_reaches_in_superset(small: Edges, big: Edges, a: usize, b: usize)
    requires
        reaches(small, a, b),
        forall|x: usize, y: usize| has_edge(small, x, y) ==> #[trigger] has_edge(big, x, y),
    ensures
        reaches(big, a, b),
{
    let p = choose|p: Seq<usize>| #[trigger] is_walk(small, p) && p[0] == a && p.last() == b;
    lemma_walk_in_superset(small, big, p);
}

/// Removing edges keeps a graph acyclic.
pub proof fn lemma_acyclic_subset(big: Edges, small: Edges)
    requires
        acyclic(big),
        forall|x: usize, y: usize| has_edge(small, x, y) ==> #[trigger] has_edge(big, x, y),
    ensures
        acyclic(small),
{
    assert forall|e: int| 0 <= e < small.len() implies !reaches(
        small,
        #[trigger] small[e].1,
        small[e].0,
    ) by {
        if reaches(small, small[e].1, small[e].0) {
            lemma_reaches_in_superset(small, big, small[e].1, small[e].0);
            assert(has_edge(small, small[e].0, small[e].1));
            assert(has_edge(big, small[e].0, small[e].1));
            let f = choose|f: int| 0 <= f < big.len() && big[f] == (small[e].0, small[e].1);
            assert(!reaches(big, big[f].1, big[f].0));
        }
    }
}

/// Every edge left after a swap-remove was an edge before.
pub proof fn lemma_swap_removed_edges(edges: Edges, e: int)
    requires
        0 <= e < edges.len(),
    ensures
        forall|x: usize, y: usize|
            has_edge(swap_removed(edges, e), x, y) ==> #[trigger] has_edge(edges, x, y),
        swap_removed(edges, e).len() == edges.len() - 1,
{
    let s = swap_removed(edges, e);
    assert forall|x: usize, y: usize| has_edge(s, x, y) implies
        #[trigger] has_edge(edges, x, y) by {
        let f = choose|f: int| 0 <= f < s.len() && s[f] == (x, y);
        if f == e {
            assert(edges[edges.len() - 1] == (x, y));
        } else {
            assert(edges[f] == (x, y));
        }
    }
}

/// A swap-remove takes exactly one copy of the removed entry out of the multiset of entries.
pub proof fn lemma_swap_removed_multiset<T>(s: Seq<T>, e: int)
    requires
        0 <= e < s.len(),
    ensures
        swap_removed(s, e).to_multiset() =~= s.to_multiset().remove(s[e]),
{
    broadcast use vstd::seq_lib::group_to_multiset_ensures;
    broadcast use vstd::multiset::group_multiset_axioms;

    let l = s.len() - 1;
    let t = s.update(e, s.last());
    assert(t.len() == s.len());
    let d = t.drop_last();
    assert(d.push(t.last()) =~= t);
    vstd::seq_lib::to_multiset_build(d, t.last());
    if e == l {
        assert(t =~= s);
        assert(s[e] == s.last());
    } else {
        assert(t.last() == s.last());
        vstd::seq_lib::to_multiset_update(s, e, s.last());
    }
    assert(s.contains(s[e]));
    assert(s.to_multiset().count(s[e]) > 0);
    assert forall|x: T| #[trigger] d.to_multiset().count(x) == s.to_multiset().remove(s[e]).count(
        x,
    ) by {
        assert(t.to_multiset().count(x) == d.to_multiset().count(x) + if x == t.last() {
            1int
        } else {
            0int
        });
    }
    assert(d.to_multiset() =~= s.to_multiset().remove(s[e]));
}

/// Renaming the last node `m` to the index of a removed node `a` that had no edges keeps a
/// graph acyclic.
pub proof fn lemma_acyclic_relabel(edges: Edges, m: usize, a: usize)
    requires
        acyclic(edges),
        is_isolated(edges, a),
    ensures
        acyclic(relabel_edges(edges, m, a)),
{
    let r = relabel_edges(edges, m, a);
    let back = |x: usize| relabel(x, a, m);
    assert forall|x: usize, y: usize| has_edge(r, x, y) implies #[trigger] has_edge(
        edges,
        back(x),
        back(y),
    ) by {
        let f = choose|f: int| 0 <= f < r.len() && r[f] == (x, y);
        assert(edges[f].0 != a && edges[f].1 != a);
        assert(edges[f] == (back(x), back(y)));
    }
    assert forall|e: int| 0 <= e < r.len() implies !reaches(r, #[trigger] r[e].1, r[e].0) by {
        if reaches(r, r[e].1, r[e].0) {
            let p = choose|p: Seq<usize>| #[trigger] is_walk(r, p) && p[0] == r[e].1 && p.last()
                == r[e].0;
            let q = p.map_values(back);
            assert forall|i: int| 0 <= i < q.len() - 1 implies #[trigger] has_edge(
                edges,
                q[i],
                q[i + 1],
            ) by {
                assert(has_edge(r, p[i], p[i + 1]));
            }
            assert(is_walk(edges, q));
            assert(edges[e].0 != a && edges[e].1 != a);
            assert(q[0] == edges[e].1);
            assert(q.last() == edges[e].0);
            assert(reaches(edges, edges[e].1, edges[e].0));
        }
    }
}

/// An edge from `u` to `v` closes a cycle when `v` already reaches `u`.
pub proof fn lemma_edge_against_path_cycles(edges: Edges, u: usize, v: usize)
    requires
        reaches(edges, v, u),
    ensures
        !acyclic(edges.push((u, v))),
{
    let big = edges.push((u, v));
    assert forall|x: usize, y: usize| has_edge(edges, x, y) implies
        #[trigger] has_edge(big, x, y) by {
        let f = choose|f: int| 0 <= f < edges.len() && edges[f] == (x, y);
        assert(big[f] == (x, y));
    }
    lemma_reaches_in_superset(edges, big, v, u);
    let last = edges.len() as int;
    assert(big[last] == (u, v));
    if acyclic(big) {
        assert(!reaches(big, big[last].1, big[last].0));
    }
}

/// The last node of a topological order has no outgoing edge.
pub proof fn lemma_last_is_sink(order: Seq<usize>, edges: Edges, n: nat)
    requires
        n > 0,
        is_topological_order(order, edges, n),
        edges_within(edges, n),
    ensures
        edges_out_of(edges, order.last()) =~= Set::<usize>::empty(),
{
    assert forall|e: usize| !#[trigger] edges_out_of(edges, order.last()).contains(e) by {
        if edges_out_of(edges, order.last()).contains(e) {
            let ei = e as int;
            assert(order.contains(edges[ei].1));
            let j = choose|j: int| 0 <= j < order.len() && order[j] == edges[ei].1;
            let l = order.len() - 1;
            assert(order[l] == edges[ei].0);
            assert(l < j);
        }
    }
}

/// With no edge into (or out of) `n` left, no pair with that target (or source) is counted.
pub proof fn lemma_no_edge_counts(edges: Edges, n: usize, into: bool)
    requires
        edges.len() <= usize::MAX,
        into ==> edges_into(edges, n) =~= Set::<usize>::empty(),
        !into ==> edges_out_of(edges, n) =~= Set::<usize>::empty(),
    ensures
        forall|p: (usize, usize)|
            (if into {
                p.1 == n
            } else {
                p.0 == n
            }) ==> #[trigger] edges.to_multiset().count(p) == 0,
{
    broadcast use vstd::seq_lib::group_to_multiset_ensures;

    assert forall|p: (usize, usize)|
        (if into {
            p.1 == n
        } else {
            p.0 == n
        }) implies #[trigger] edges.to_multiset().count(p) == 0 by {
        if edges.contains(p) {
            let k = choose|k: int| 0 <= k < edges.len() && edges[k] == p;
            if into {
                assert(edges_into(edges, n).contains(k as usize));
            } else {
                assert(edges_out_of(edges, n).contains(k as usize));
            }
        }
    }
}

/// A new node joined to an existing one by a single edge cannot be on a cycle.
pub proof fn lemma_new_leaf_acyclic(
    edges: Edges,
    fresh: usize,
    other: usize,
    fresh_is_source: bool,
)
    requires
        acyclic(edges),
        edges_within(edges, fresh as nat),
        other < fresh,
    ensures
        acyclic(
            edges.push(
                if fresh_is_source {
                    (fresh, other)
                } else {
                    (other, fresh)
                },
            ),
        ),
{
    let new_edge = if fresh_is_source {
        (fresh, other)
    } else {
        (other, fresh)
    };
    let big = edges.push(new_edge);
    assert forall|e: int| 0 <= e < big.len() implies !reaches(
        big,
        #[trigger] big[e].1,
        big[e].0,
    ) by {
        if reaches(big, big[e].1, big[e].0) {
            let p = choose|p: Seq<usize>| #[trigger] is_walk(big, p) && p[0] == big[e].1 && p.last()
                == big[e].0;
            lemma_walk_avoids_leaf(edges, fresh, other, fresh_is_source, p);
            let l = p.len() - 1;
            if e == edges.len() {
                if l > 0 {
                    if fresh_is_source {
                        assert(p[l] != fresh);
                    } else {
                        assert(p[0] != fresh);
                    }
                }
            } else {
                assert(big[e] == edges[e]);
                assert(edges[e].0 < fresh && edges[e].1 < fresh);
                assert forall|i: int| 0 <= i < p.len() implies p[i] != fresh by {
                    if fresh_is_source && i == 0 {
                    } else if !fresh_is_source && i == l {
                    }
                }
                assert(reaches(edges, edges[e].1, edges[e].0));
            }
        }
    }
}

/// In a walk over `edges` plus one edge between the new node `fresh` and `other`, `fresh`
/// can only start the walk (when the new edge leaves it) or end it (when the edge enters it);
/// a walk that avoids `fresh` uses old edges only.
pub proof fn lemma_walk_avoids_leaf(
    edges: Edges,
    fresh: usize,
    other: usize,
    fresh_is_source: bool,
    p: Seq<usize>,
)
    requires
        edges_within(edges, fresh as nat),
        other < fresh,
        is_walk(
            edges.push(
                if fresh_is_source {
                    (fresh, other)
                } else {
                    (other, fresh)
                },
            ),
            p,
        ),
    ensures
        fresh_is_source ==> forall|i: int| 0 < i < p.len() ==> p[i] != fresh,
        !fresh_is_source ==> forall|i: int| 0 <= i < p.len() - 1 ==> p[i] != fresh,
        (forall|i: int| 0 <= i < p.len() ==> p[i] != fresh) ==> is_walk(edges, p),
{
    let new_edge = if fresh_is_source {
        (fresh, other)
    } else {
        (other, fresh)
    };
    let big = edges.push(new_edge);
    assert forall|i: int| 0 < i < p.len() && fresh_is_source implies #[trigger] p[i] != fresh by {
        assert(has_edge(big, p[i - 1], p[i - 1 + 1]));
        assert(p[i - 1 + 1] == p[i]);
        let f = choose|f: int| 0 <= f < big.len() && big[f] == (p[i - 1], p[i]);
        if f < edges.len() {
            assert(edges[f] == big[f]);
        }
    }
    assert forall|i: int| 0 <= i < p.len() - 1 && !fresh_is_source implies
        #[trigger] p[i] != fresh by {
        assert(has_edge(big, p[i], p[i + 1]));
        let f = choose|f: int| 0 <= f < big.len() && big[f] == (p[i], p[i + 1]);
        if f < edges.len() {
            assert(edges[f] == big[f]);
        }
    }
    if forall|i: int| 0 <= i < p.len() ==> p[i] != fresh {
        assert forall|i: int| 0 <= i < p.len() - 1 implies #[trigger] has_edge(
            edges,
            p[i],
            p[i + 1],
        ) by {
            assert(has_edge(big, p[i], p[i + 1]));
            let f = choose|f: int| 0 <= f < big.len() && big[f] == (p[i], p[i + 1]);
            assert(f < edges.len());
            assert(edges[f] == big[f]);
        }
    }
}

/// Appending a node without edges to a topological order keeps it one.
pub proof fn lemma_order_extends(order: Seq<usize>, edges: Edges, n: usize)
    requires
        is_topological_order(order, edges, n as nat),
        edges_within(edges, n as nat),
    ensures
        is_topological_order(order.push(n), edges, (n + 1) as nat),
{
    let o = order.push(n);
    assert forall|v: usize| v < n + 1 implies #[trigger] o.contains(v) by {
        if v < n {
            assert(order.contains(v));
            let k = choose|k: int| 0 <= k < order.len() && order[k] == v;
            assert(o[k] == v);
        } else {
            assert(o[order.len() as int] == v);
        }
    }
    assert forall|e: int, i: int, j: int|
        #![trigger edges[e], o[i], o[j]]
        0 <= e < edges.len() && 0 <= i < o.len() && 0 <= j < o.len() && o[i] == edges[e].0 && o[j]
            == edges[e].1 implies i < j by {
        assert(edges[e].0 < n && edges[e].1 < n);
        assert(i < order.len() && j < order.len());
        assert(order[i] == edges[e].0 && order[j] == edges[e].1);
    }
}

} // verus!
