//! Mathematical model of the adjacency-list graphs the searches run on.
//!
//! A graph is a vector indexed by node identifier: entry `u` lists the
//! outgoing edges of node `u`. An identifier at or past the end of the vector
//! names a leaf: a node that may appear as a neighbour but has no outgoing
//! edges of its own.
use vstd::prelude::*;

verus! {

/// The adjacency lists of `graph` as sequences.
pub open spec fn adjacency(graph: &Vec<Vec<usize>>) -> Seq<Seq<usize>> {
    graph@.map_values(|r: Vec<usize>| r@)
}

/// Outgoing neighbours of `u`; empty for a node that is not a key.
pub open spec fn neighbors(g: Seq<Seq<usize>>, u: usize) -> Seq<usize> {
    if u < g.len() {
        g[u as int]
    } else {
        Seq::empty()
    }
}

/// There is an edge from `u` to `v`.
pub open spec fn is_edge(g: Seq<Seq<usize>>, u: usize, v: usize) -> bool {
    neighbors(g, u).contains(v)
}

/// `w` is a non-empty walk: each consecutive pair is joined by an edge.
pub open spec fn is_walk(g: Seq<Seq<usize>>, w: Seq<usize>) -> bool {
    &&& w.len() >= 1
    &&& forall|i: int| 0 <= i < w.len() - 1 ==> #[trigger] is_edge(g, w[i], w[i + 1])
}

/// `v` can be reached from `s` along at most `k` edges.
pub open spec fn reachable_within(g: Seq<Seq<usize>>, s: usize, v: usize, k: nat) -> bool {
    exists|w: Seq<usize>|
        #[trigger] is_walk(g, w) && w[0] == s && w.last() == v && w.len() <= k + 1
}

/// `v` can be reached from `s` along some walk.
pub open spec fn reachable(g: Seq<Seq<usize>>, s: usize, v: usize) -> bool {
    exists|k: nat| #[trigger] reachable_within(g, s, v, k)
}

/// Every node reaches itself along zero edges.
pub proof fn lemma_reach_self(g: Seq<Seq<usize>>, s: usize)
    ensures
        reachable_within(g, s, s, 0),
{
    let w = seq![s];
    assert(is_walk(g, w));
}

/// One more edge after a walk of at most `k` edges gives one of at most `k + 1`.
pub proof fn lemma_reach_step(g: Seq<Seq<usize>>, s: usize, u: usize, v: usize, k: nat)
    requires
        reachable_within(g, s, u, k),
        is_edge(g, u, v),
    ensures
        reachable_within(g, s, v, k + 1),
{
    let w = choose|w: Seq<usize>|
        #[trigger] is_walk(g, w) && w[0] == s && w.last() == u && w.len() <= k + 1;
    let w2 = w.push(v);
    assert forall|i: int| 0 <= i < w2.len() - 1 implies #[trigger] is_edge(g, w2[i], w2[i + 1]) by {
        if i < w.len() - 1 {
            assert(is_edge(g, w[i], w[i + 1]));
        }
    }
    assert(is_walk(g, w2));
}

/// A bound on the number of edges can always be loosened.
pub proof fn lemma_reach_mono(g: Seq<Seq<usize>>, s: usize, v: usize, k: nat, m: nat)
    requires
        reachable_within(g, s, v, k),
        k <= m,
    ensures
        reachable_within(g, s, v, m),
{
    let w = choose|w: Seq<usize>|
        #[trigger] is_walk(g, w) && w[0] == s && w.last() == v && w.len() <= k + 1;
    assert(is_walk(g, w) && w[0] == s && w.last() == v && w.len() <= m + 1);
}

/// A walk from `s` to a node whose edges all lead to nodes at most one
/// level further ends at a node of level at most its number of edges.
pub proof fn lemma_walk_levels(g: Seq<Seq<usize>>, s: usize, lv: Map<usize, int>, w: Seq<usize>)
    requires
        is_walk(g, w),
        w[0] == s,
        lv.dom().contains(s),
        lv[s] == 0,
        forall|u: usize, v: usize|
            lv.dom().contains(u) && #[trigger] is_edge(g, u, v) ==> lv.dom().contains(v) && lv[v]
                <= lv[u] + 1,
    ensures
        lv.dom().contains(w.last()),
        lv[w.last()] <= w.len() - 1,
    decreases w.len(),
{
    if w.len() > 1 {
        let w0 = w.drop_last();
        assert forall|i: int| 0 <= i < w0.len() - 1 implies #[trigger] is_edge(g, w0[i], w0[i + 1]) by {
            assert(is_edge(g, w[i], w[i + 1]));
        }
        lemma_walk_levels(g, s, lv, w0);
        let i = w.len() - 2;
        assert(is_edge(g, w[i], w[i + 1]));
    }
}

} // verus!
