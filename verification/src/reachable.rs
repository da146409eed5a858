//! The reachability oracle: consumes a directed graph (cycles allowed)
//! and precomputes, once, for every node the set of nodes reachable from
//! it, reflexively. After construction the oracle is immutable and
//! answers `can_reach(a, b)` queries by one membership test.
//!
//! The per-node reachable-sets are computed as a monotone fixed point:
//! every node starts reaching itself, and each edge `u -> v` forces
//! `u`'s reachable-set to absorb `v`'s until a full pass changes
//! nothing. Cycles are handled by the fixed point itself: mutually
//! reachable nodes end with equal reachable-sets.

use vstd::prelude::*;
use vstd::seq_lib::*;
use crate::graph::{Graph, is_path, reaches, lemma_reaches_reflexive, lemma_reaches_step};
use crate::region::{Point, Region, total_size, lemma_total_size_update, lemma_total_size_bound,
    lemma_region_size_bounded};

verus! {

/// The points standing for the nodes `0 .. n`.
pub open spec fn node_points(n: nat) -> Seq<Point> {
    Seq::new(n, |i: int| Point { index: i as usize })
}

/// The set of points standing for nodes is finite, has at most `n`
/// elements, and holds exactly the points with index below `n`.
proof fn lemma_node_points(n: nat)
    ensures
        node_points(n).to_set().finite(),
        node_points(n).to_set().len() <= n,
        forall|p: Point| node_points(n).to_set().contains(p) <==> p.index < n,
{
    broadcast use seq_to_set_is_finite;

    node_points(n).lemma_cardinality_of_set();
    assert forall|p: Point| p.index < n implies node_points(n).to_set().contains(p) by {
        assert(node_points(n)[p.index as int] == p);
    }
}

/// Does every node of every edge's target-set already lie in its
/// source-set? When this holds, one more propagation pass changes
/// nothing.
pub open spec fn edges_closed(g: Graph, sets: Seq<Region>) -> bool {
    forall|j: int|
        0 <= j < g.edge_list().len() ==> (#[trigger] sets[g.edge_list()[j].1 as int])@
            <= sets[g.edge_list()[j].0 as int]@
}

/// Every point of every reachable-set stands for a node the set's owner
/// really reaches.
pub open spec fn sets_sound(g: Graph, sets: Seq<Region>) -> bool {
    forall|k: int, p: Point|
        0 <= k < sets.len() && (#[trigger] sets[k]@.contains(p)) ==> p.index < g.node_count()
            && reaches(g, k, p.index as int)
}

/// Every node lies in its own reachable-set.
pub open spec fn sets_reflexive(g: Graph, sets: Seq<Region>) -> bool {
    forall|k: int|
        0 <= k < sets.len() ==> (#[trigger] sets[k]@).contains(Point { index: k as usize })
}

/// In a reflexive, edge-closed table, the set of a path's start holds
/// the point of the path's end: closure under single edges extends to
/// whole paths.
proof fn lemma_closed_complete(g: Graph, sets: Seq<Region>, p: Seq<int>, k: int)
    requires
        g.wf(),
        sets.len() == g.node_count(),
        sets_reflexive(g, sets),
        edges_closed(g, sets),
        is_path(g, p),
        0 <= k < p.len(),
    ensures
        sets[p[k]]@.contains(Point { index: p.last() as usize }),
    decreases p.len() - k,
{
    if k == p.len() - 1 {
        assert(sets[p[k]]@.contains(Point { index: p[k] as usize }));
    } else {
        lemma_closed_complete(g, sets, p, k + 1);
        assert(g.has_edge(p[k], p[k + 1]));
        let j = choose|j: int|
            0 <= j < g.edge_list().len() && (#[trigger] g.edge_list()[j]).0 == p[k]
                && g.edge_list()[j].1 == p[k + 1];
        assert(sets[g.edge_list()[j].1 as int]@ <= sets[g.edge_list()[j].0 as int]@);
    }
}

/// Precomputed reachability answers for one graph: per node, the set of
/// nodes it reaches. Immutable once built.
pub struct Reachable {
    num_nodes: usize,
    sets: Vec<Region>,
    g: Ghost<Graph>,
}

impl Reachable {
    /// The graph this oracle was built from.
    pub closed spec fn graph(self) -> Graph {
        self.g@
    }

    /// The number of nodes of that graph.
    pub open spec fn node_count(self) -> nat {
        self.graph().node_count()
    }

    /// The oracle answers exactly the reachability relation of its graph.
    pub closed spec fn wf(self) -> bool {
        &&& self.g@.wf()
        &&& self.num_nodes == self.g@.node_count()
        &&& self.sets@.len() == self.num_nodes
        &&& forall|a: int, b: int|
            0 <= a < self.num_nodes && 0 <= b < self.num_nodes ==> ((#[trigger] self.sets@[a]@.contains(
                Point { index: b as usize },
            )) <==> reaches(self.g@, a, b))
    }

    /// Can node `a` reach node `b` along directed edges? Constant-time:
    /// one membership test against the precomputed set.
    pub fn can_reach(&self, a: usize, b: usize) -> (r: bool)
        requires
            self.wf(),
            a < self.node_count(),
            b < self.node_count(),
        ensures
            r == reaches(self.graph(), a as int, b as int),
    {
        let r = self.sets[a].contains(Point { index: b });
        proof {
            let bi = b as int;
            assert(Point { index: bi as usize } == Point { index: b });
            assert(self.sets@[a as int]@.contains(Point { index: bi as usize }) <==> reaches(
                self.g@,
                a as int,
                bi,
            ));
        }
        r
    }
}

/// Builds the reachability oracle for `g`: seeds every node's set with
/// the node itself, then unions each edge's target-set into its
/// source-set until a full pass over the edges changes no set.
pub fn reachable(g: &Graph) -> (r: Reachable)
    requires
        g.wf(),
        g.node_count() * g.node_count() <= usize::MAX,
    ensures
        r.wf(),
        r.graph() == *g,
{
    let n = g.num_nodes();
    let m = g.num_edges();
    let ghost allowed = node_points(n as nat).to_set();
    let mut sets: Vec<Region> = Vec::new();
    for i in 0..n
        invariant
            sets@.len() == i,
            forall|k: int| 0 <= k < i ==> (#[trigger] sets@[k]).wf(),
            forall|k: int| 0 <= k < i ==> (#[trigger] sets@[k]).size() == 1,
            forall|k: int|
                0 <= k < i ==> (#[trigger] sets@[k])@ == Set::<Point>::empty().insert(
                    Point { index: k as usize },
                ),
    {
        let mut r = Region::new();
        r.add_point(Point { index: i });
        sets.push(r);
    }
    proof {
        lemma_node_points(n as nat);
        assert forall|k: int, p: Point| 0 <= k < n && (#[trigger] sets@[k]@.contains(p)) implies p.index
            < g.node_count() && reaches(*g, k, p.index as int) by {
            assert(p == Point { index: k as usize });
            lemma_reaches_reflexive(*g, k);
        }
        assert forall|k: int| 0 <= k < n implies (#[trigger] sets@[k].size()) <= n as nat by {}
        lemma_total_size_bound(sets@, n as nat);
    }
    let mut changed = true;
    while changed
        invariant
            n == g.node_count(),
            m == g.edge_list().len(),
            g.wf(),
            sets@.len() == n,
            forall|k: int| 0 <= k < n ==> (#[trigger] sets@[k]).wf(),
            sets_sound(*g, sets@),
            sets_reflexive(*g, sets@),
            total_size(sets@) <= n as nat * n as nat,
            !changed ==> edges_closed(*g, sets@),
        decreases n as nat * n as nat - total_size(sets@), (if changed { 1int } else { 0int }),
    {
        changed = false;
        let ghost m0 = sets@;
        for e in 0..m
            invariant
                n == g.node_count(),
                m == g.edge_list().len(),
                g.wf(),
                sets@.len() == n,
                forall|k: int| 0 <= k < n ==> (#[trigger] sets@[k]).wf(),
                sets_sound(*g, sets@),
                sets_reflexive(*g, sets@),
                total_size(sets@) <= n as nat * n as nat,
                total_size(sets@) >= total_size(m0),
                changed ==> total_size(sets@) > total_size(m0),
                !changed ==> sets@ == m0,
                !changed ==> forall|j: int|
                    0 <= j < e ==> (#[trigger] sets@[g.edge_list()[j].1 as int])@
                        <= sets@[g.edge_list()[j].0 as int]@,
        {
            let (u, v) = g.edge(e);
            let dup = sets[v].duplicate();
            let ghost pre = sets@;
            let grew = sets[u].add_region(&dup);
            proof {
                let nu = sets@[u as int];
                assert(sets@ == pre.update(u as int, nu));
                lemma_total_size_update(pre, u as int, nu);
                assert forall|k: int, p: Point| 0 <= k < n && (#[trigger] sets@[k]@.contains(p)) implies p.index
                    < g.node_count() && reaches(*g, k, p.index as int) by {
                    if k == u as int && !pre[k]@.contains(p) {
                        assert(pre[v as int]@.contains(p));
                        lemma_reaches_step(*g, u as int, v as int, p.index as int);
                    } else {
                        assert(pre[k]@.contains(p));
                    }
                }
                assert forall|k: int| 0 <= k < n implies (#[trigger] sets@[k].size()) <= n as nat by {
                    lemma_node_points(n as nat);
                    assert(sets@[k]@ <= node_points(n as nat).to_set());
                    lemma_region_size_bounded(sets@[k], node_points(n as nat).to_set(), n as nat);
                }
                lemma_total_size_bound(sets@, n as nat);
                if !grew {
                    assert(sets@ =~= pre);
                }
            }
            changed = changed || grew;
        }
    }
    proof {
        assert forall|a: int, b: int|
            0 <= a < n && 0 <= b < n && reaches(*g, a, b) implies sets@[a]@.contains(
            Point { index: b as usize },
        ) by {
            let p = choose|p: Seq<int>| is_path(*g, p) && p.first() == a && p.last() == b;
            lemma_closed_complete(*g, sets@, p, 0);
        }
    }
    Reachable { num_nodes: n, sets, g: Ghost(*g) }
}

} // verus!
