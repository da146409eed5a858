//! The directed-graph abstraction consumed by the reachability oracle:
//! a finite, zero-indexed node set and an edge list, with the
//! specification of what it means for one node to reach another.

use vstd::prelude::*;

verus! {

/// A finite directed graph over nodes `0 .. node_count()`. Self-loops
/// and larger cycles are permitted; the graph need not be connected.
pub struct Graph {
    num_nodes: usize,
    edges: Vec<(usize, usize)>,
}

impl Graph {
    /// The number of nodes; nodes are the integers `0 .. node_count()`.
    pub closed spec fn node_count(self) -> nat {
        self.num_nodes as nat
    }

    /// The edge list, in insertion order.
    pub closed spec fn edge_list(self) -> Seq<(usize, usize)> {
        self.edges@
    }

    /// Is there a direct edge from `u` to `v`?
    pub open spec fn has_edge(self, u: int, v: int) -> bool {
        exists|k: int|
            0 <= k < self.edge_list().len() && (#[trigger] self.edge_list()[k]).0 == u
                && self.edge_list()[k].1 == v
    }

    /// Every edge endpoint is a node of the graph.
    pub open spec fn wf(self) -> bool {
        forall|k: int|
            0 <= k < self.edge_list().len() ==> (#[trigger] self.edge_list()[k]).0
                < self.node_count() && self.edge_list()[k].1 < self.node_count()
    }

    /// Builds a graph from a node count and an edge list.
    pub fn new(num_nodes: usize, edges: Vec<(usize, usize)>) -> (g: Graph)
        requires
            forall|k: int|
                0 <= k < edges@.len() ==> (#[trigger] edges@[k]).0 < num_nodes && edges@[k].1
                    < num_nodes,
        ensures
            g.wf(),
            g.node_count() == num_nodes,
            g.edge_list() == edges@,
    {
        Graph { num_nodes, edges }
    }

    /// The number of nodes, as a run-time value.
    pub fn num_nodes(&self) -> (n: usize)
        ensures
            n == self.node_count(),
    {
        self.num_nodes
    }

    /// The number of edges, as a run-time value.
    pub fn num_edges(&self) -> (n: usize)
        ensures
            n == self.edge_list().len(),
    {
        self.edges.len()
    }

    /// The `k`-th edge of the edge list.
    pub fn edge(&self, k: usize) -> (e: (usize, usize))
        requires
            k < self.edge_list().len(),
        ensures
            e == self.edge_list()[k as int],
            self.has_edge(e.0 as int, e.1 as int),
    {
        self.edges[k]
    }
}

/// Is `p` a directed path in `g`: a non-empty sequence of nodes in which
/// each consecutive pair is joined by an edge?
pub open spec fn is_path(g: Graph, p: Seq<int>) -> bool {
    &&& p.len() >= 1
    &&& forall|k: int| 0 <= k < p.len() ==> 0 <= #[trigger] p[k] < g.node_count()
    &&& forall|k: int| 0 <= k < p.len() - 1 ==> g.has_edge(#[trigger] p[k], p[k + 1])
}

/// Does a directed path (possibly of length zero, possibly through
/// cycles) lead from node `a` to node `b` in `g`?
pub open spec fn reaches(g: Graph, a: int, b: int) -> bool {
    exists|p: Seq<int>| is_path(g, p) && p.first() == a && p.last() == b
}

/// Reflexivity: every node of a graph reaches itself, even a node with
/// no outgoing edges.
pub proof fn lemma_reaches_reflexive(g: Graph, n: int)
    requires
        0 <= n < g.node_count(),
    ensures
        reaches(g, n, n),
{
    let p = seq![n];
    assert(is_path(g, p));
    assert(p.first() == n && p.last() == n);
}

/// An edge followed by a path is a path: if `u -> v` is an edge and `v`
/// reaches `b`, then `u` reaches `b`.
pub proof fn lemma_reaches_step(g: Graph, u: int, v: int, b: int)
    requires
        0 <= u < g.node_count(),
        g.has_edge(u, v),
        reaches(g, v, b),
    ensures
        reaches(g, u, b),
{
    let p = choose|p: Seq<int>| is_path(g, p) && p.first() == v && p.last() == b;
    let q = seq![u] + p;
    assert forall|k: int| 0 <= k < q.len() - 1 implies g.has_edge(#[trigger] q[k], q[k + 1]) by {
        if k == 0 {
            assert(q[0] == u && q[1] == p[0]);
        } else {
            assert(q[k] == p[k - 1] && q[k + 1] == p[k]);
            assert(g.has_edge(p[k - 1], p[k - 1 + 1]));
        }
    }
    assert(is_path(g, q));
    assert(q.first() == u && q.last() == b);
}

/// Are `a` and `b` in the same strongly connected component: each
/// reaches the other?
pub open spec fn in_same_scc(g: Graph, a: int, b: int) -> bool {
    reaches(g, a, b) && reaches(g, b, a)
}

/// Cycle closure: two nodes of one strongly connected component reach
/// each other in both directions, so an oracle answering the
/// reachability relation answers true for both queries.
pub proof fn lemma_cycle_closure(g: Graph, a: int, b: int)
    requires
        in_same_scc(g, a, b),
    ensures
        reaches(g, a, b),
        reaches(g, b, a),
{
}

} // verus!
