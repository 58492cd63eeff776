//! Breadth-first traversal that reports the order in which nodes are expanded.
use std::collections::VecDeque;
use vstd::prelude::*;

use crate::graph::{
    adjacency, is_edge, is_walk, lemma_reach_mono, lemma_reach_self, lemma_reach_step, lemma_walk_levels,
    neighbors, reachable, reachable_within,
};

verus! {

/// Sum of the out-degrees of the keys below `i` that `vis` does not mark.
pub open spec fn unexpanded_degree(g: Seq<Seq<usize>>, vis: Seq<bool>, i: int) -> nat
    decreases i,
{
    if i <= 0 {
        0
    } else {
        unexpanded_degree(g, vis, i - 1) + if vis[i - 1] {
            0nat
        } else {
            g[i - 1].len()
        }
    }
}

/// `v` has been expanded at a level of at most `bound`, or waits in the queue
/// at such a level.
pub open spec fn settled(
    queue: Seq<usize>,
    qlev: Seq<int>,
    lv: Map<usize, int>,
    v: usize,
    bound: int,
) -> bool {
    ||| lv.dom().contains(v) && lv[v] <= bound
    ||| exists|a: int| 0 <= a < queue.len() && queue[a] == v && #[trigger] qlev[a] <= bound
}

/// Lexicographic order on (expanded position, adjacency position) pairs.
pub open spec fn lex_lt(a: (int, int), b: (int, int)) -> bool {
    a.0 < b.0 || (a.0 == b.0 && a.1 < b.1)
}

/// Entry `k` of the adjacency list of the `p`-th expanded node is `v`.
pub open spec fn pair_reaches(g: Seq<Seq<usize>>, order: Seq<usize>, p: int, k: int, v: usize) -> bool {
    &&& 0 <= p < order.len()
    &&& 0 <= k < neighbors(g, order[p]).len()
    &&& neighbors(g, order[p])[k] == v
}

/// Some entry that comes lexicographically before `(p, k)` among the
/// adjacency lists of the expanded nodes leads to `order[i]`.
pub open spec fn reached_before(g: Seq<Seq<usize>>, order: Seq<usize>, i: int, p: int, k: int) -> bool {
    exists|p1: int, k1: int| #[trigger] pair_reaches(g, order, p1, k1, order[i]) && lex_lt((p1, k1), (p, k))
}

/// Bookkeeping of where each queued and each expanded node was discovered:
/// `qsrc[a]` is the pair that queued entry `a`, `ek[i]` the pair that queued
/// the entry that expanded `order[i]`; the pairs of the adjacency lists of the
/// expanded nodes are handled up to `(m, kk)`.
pub open spec fn discovery_ok(
    g: Seq<Seq<usize>>,
    start: usize,
    order: Seq<usize>,
    ek: Seq<(int, int)>,
    queue: Seq<usize>,
    qsrc: Seq<(int, int)>,
    m: int,
    kk: int,
) -> bool {
    &&& qsrc.len() == queue.len()
    &&& ek.len() == order.len()
    &&& order.len() == 0 ==> queue == seq![start] && qsrc == seq![(-1int, 0int)]
    &&& order.len() > 0 ==> forall|a: int|
        0 <= a < qsrc.len() ==> #[trigger] pair_reaches(g, order, qsrc[a].0, qsrc[a].1, queue[a])
    &&& forall|a: int| 0 <= a < qsrc.len() ==> lex_lt(#[trigger] qsrc[a], (m, kk))
    &&& forall|a: int, b: int| 0 <= a < b < qsrc.len() ==> lex_lt(qsrc[a], qsrc[b])
    &&& forall|i: int|
        1 <= i < order.len() ==> #[trigger] ek[i].0 < i && pair_reaches(
            g,
            order,
            ek[i].0,
            ek[i].1,
            order[i],
        )
    &&& forall|i: int, j: int| 1 <= i < j < order.len() ==> lex_lt(ek[i], ek[j])
    &&& forall|i: int, a: int| 1 <= i < order.len() && 0 <= a < qsrc.len() ==> lex_lt(ek[i], qsrc[a])
    &&& forall|i: int, p: int, k: int|
        1 <= i < order.len() && #[trigger] pair_reaches(g, order, p, k, order[i]) ==> !lex_lt(
            (p, k),
            ek[i],
        )
    &&& forall|p: int, k: int|
        0 <= p < order.len() && 0 <= k < neighbors(g, order[p]).len() && (p < m || (p == m && k
            < kk)) ==> order.contains(#[trigger] neighbors(g, order[p])[k]) || exists|a: int|
            0 <= a < qsrc.len() && #[trigger] qsrc[a] == (p, k)
}

proof fn lemma_discovery_skip_front(
    g: Seq<Seq<usize>>,
    start: usize,
    order: Seq<usize>,
    ek: Seq<(int, int)>,
    queue: Seq<usize>,
    qsrc: Seq<(int, int)>,
)
    requires
        discovery_ok(g, start, order, ek, queue, qsrc, order.len() as int, 0),
        queue.len() > 0,
        order.contains(queue[0]),
    ensures
        discovery_ok(
            g,
            start,
            order,
            ek,
            queue.drop_first(),
            qsrc.drop_first(),
            order.len() as int,
            0,
        ),
{
    let q2 = queue.drop_first();
    let s2 = qsrc.drop_first();
    assert(order.len() > 0);
    assert forall|p: int, k: int|
        0 <= p < order.len() && 0 <= k < neighbors(g, order[p]).len() && (p < order.len() || (p
            == order.len() && k < 0)) implies order.contains(#[trigger] neighbors(g, order[p])[k])
        || exists|a: int| 0 <= a < s2.len() && #[trigger] s2[a] == (p, k) by {
        if !order.contains(neighbors(g, order[p])[k]) {
            let a = choose|a: int| 0 <= a < qsrc.len() && #[trigger] qsrc[a] == (p, k);
            if a == 0 {
                assert(pair_reaches(g, order, qsrc[0].0, qsrc[0].1, queue[0]));
            } else {
                assert(s2[a - 1] == (p, k));
            }
        }
    }
    assert forall|a: int| 0 <= a < s2.len() implies #[trigger] pair_reaches(
        g,
        order,
        s2[a].0,
        s2[a].1,
        q2[a],
    ) by {
        assert(pair_reaches(g, order, qsrc[a + 1].0, qsrc[a + 1].1, queue[a + 1]));
    }
    assert forall|a: int| 0 <= a < s2.len() implies lex_lt(#[trigger] s2[a], (order.len() as int, 0)) by {
        assert(lex_lt(qsrc[a + 1], (order.len() as int, 0)));
    }
}

proof fn lemma_discovery_expand(
    g: Seq<Seq<usize>>,
    start: usize,
    order: Seq<usize>,
    ek: Seq<(int, int)>,
    queue: Seq<usize>,
    qsrc: Seq<(int, int)>,
)
    requires
        discovery_ok(g, start, order, ek, queue, qsrc, order.len() as int, 0),
        queue.len() > 0,
        !order.contains(queue[0]),
    ensures
        discovery_ok(
            g,
            start,
            order.push(queue[0]),
            ek.push(qsrc[0]),
            queue.drop_first(),
            qsrc.drop_first(),
            order.len() as int,
            0,
        ),
{
    let m = order.len() as int;
    let x = queue[0];
    let s0 = qsrc[0];
    let o2 = order.push(x);
    let e2 = ek.push(s0);
    let q2 = queue.drop_first();
    let s2 = qsrc.drop_first();
    assert forall|p: int, k: int, v: usize|
        0 <= p < m implies pair_reaches(g, o2, p, k, v) == pair_reaches(g, order, p, k, v) by {
        assert(o2[p] == order[p]);
    }
    if m > 0 {
        assert(pair_reaches(g, order, qsrc[0].0, qsrc[0].1, queue[0]));
        assert forall|a: int| 0 <= a < s2.len() implies #[trigger] pair_reaches(
            g,
            o2,
            s2[a].0,
            s2[a].1,
            q2[a],
        ) by {
            assert(pair_reaches(g, order, qsrc[a + 1].0, qsrc[a + 1].1, queue[a + 1]));
            assert(o2[s2[a].0] == order[s2[a].0]);
        }
        assert forall|i: int| 1 <= i < o2.len() implies #[trigger] e2[i].0 < i && pair_reaches(
            g,
            o2,
            e2[i].0,
            e2[i].1,
            o2[i],
        ) by {
            if i < m {
                assert(ek[i].0 < i && pair_reaches(g, order, ek[i].0, ek[i].1, order[i]));
            }
        }
        assert forall|i: int, p: int, k: int|
            1 <= i < o2.len() && #[trigger] pair_reaches(g, o2, p, k, o2[i]) implies !lex_lt(
            (p, k),
            e2[i],
        ) by {
            if p < m {
                assert(pair_reaches(g, order, p, k, o2[i]));
                if i == m {
                    assert(neighbors(g, order[p])[k] == x);
                    let a = choose|a: int| 0 <= a < qsrc.len() && #[trigger] qsrc[a] == (p, k);
                    if a > 0 {
                        assert(lex_lt(qsrc[0], qsrc[a]));
                    }
                } else {
                    assert(order[i] == o2[i]);
                }
            } else {
                if i < m {
                    assert(ek[i].0 < i);
                }
            }
        }
    }
    assert forall|p: int, k: int|
        0 <= p < o2.len() && 0 <= k < neighbors(g, o2[p]).len() && (p < m || (p == m && k < 0))
            implies o2.contains(#[trigger] neighbors(g, o2[p])[k]) || exists|a: int|
        0 <= a < s2.len() && #[trigger] s2[a] == (p, k) by {
        assert(o2[p] == order[p]);
        let v = neighbors(g, order[p])[k];
        if order.contains(v) {
            let t = choose|t: int| 0 <= t < order.len() && order[t] == v;
            assert(o2[t] == v);
        } else {
            let a = choose|a: int| 0 <= a < qsrc.len() && #[trigger] qsrc[a] == (p, k);
            if a == 0 {
                assert(pair_reaches(g, order, qsrc[0].0, qsrc[0].1, queue[0]));
                assert(o2[m] == v);
            } else {
                assert(s2[a - 1] == (p, k));
            }
        }
    }
    assert forall|a: int| 0 <= a < s2.len() implies lex_lt(#[trigger] s2[a], (m, 0)) by {
        assert(lex_lt(qsrc[a + 1], (m, 0)));
    }
    assert forall|i: int, a: int| 1 <= i < o2.len() && 0 <= a < s2.len() implies lex_lt(e2[i], s2[a]) by {
        assert(lex_lt(qsrc[0], qsrc[a + 1]));
    }
    assert forall|i: int, j: int| 1 <= i < j < o2.len() implies lex_lt(e2[i], e2[j]) by {
        if j == m {
            assert(lex_lt(ek[i], qsrc[0]));
        }
    }
}

proof fn lemma_discovery_push(
    g: Seq<Seq<usize>>,
    start: usize,
    order: Seq<usize>,
    ek: Seq<(int, int)>,
    queue: Seq<usize>,
    qsrc: Seq<(int, int)>,
    kk: int,
)
    requires
        order.len() > 0,
        discovery_ok(g, start, order, ek, queue, qsrc, order.len() - 1, kk),
        0 <= kk < neighbors(g, order.last()).len(),
    ensures
        discovery_ok(
            g,
            start,
            order,
            ek,
            queue.push(neighbors(g, order.last())[kk]),
            qsrc.push((order.len() - 1, kk)),
            order.len() - 1,
            kk + 1,
        ),
{
    let m = order.len() - 1;
    let v = neighbors(g, order.last())[kk];
    let q2 = queue.push(v);
    let s2 = qsrc.push((m, kk));
    assert(pair_reaches(g, order, m, kk, v));
    assert forall|a: int| 0 <= a < s2.len() implies #[trigger] pair_reaches(
        g,
        order,
        s2[a].0,
        s2[a].1,
        q2[a],
    ) by {
        if a < qsrc.len() {
            assert(pair_reaches(g, order, qsrc[a].0, qsrc[a].1, queue[a]));
        }
    }
    assert forall|a: int| 0 <= a < s2.len() implies lex_lt(#[trigger] s2[a], (m, kk + 1)) by {
        if a < qsrc.len() {
            assert(lex_lt(qsrc[a], (m, kk)));
        }
    }
    assert forall|a: int, b: int| 0 <= a < b < s2.len() implies lex_lt(s2[a], s2[b]) by {
        if b == qsrc.len() {
            assert(lex_lt(qsrc[a], (m, kk)));
        }
    }
    assert forall|i: int, a: int| 1 <= i < order.len() && 0 <= a < s2.len() implies lex_lt(ek[i], s2[a]) by {
        assert(ek[i].0 < i);
    }
    assert forall|p: int, k: int|
        0 <= p < order.len() && 0 <= k < neighbors(g, order[p]).len() && (p < m || (p == m && k
            < kk + 1)) implies order.contains(#[trigger] neighbors(g, order[p])[k]) || exists|a: int|
        0 <= a < s2.len() && #[trigger] s2[a] == (p, k) by {
        if p == m && k == kk {
            assert(s2[qsrc.len() as int] == (p, k));
        } else if !order.contains(neighbors(g, order[p])[k]) {
            let a = choose|a: int| 0 <= a < qsrc.len() && #[trigger] qsrc[a] == (p, k);
            assert(s2[a] == (p, k));
        }
    }
}

proof fn lemma_discovery_skip(
    g: Seq<Seq<usize>>,
    start: usize,
    order: Seq<usize>,
    ek: Seq<(int, int)>,
    queue: Seq<usize>,
    qsrc: Seq<(int, int)>,
    kk: int,
)
    requires
        order.len() > 0,
        discovery_ok(g, start, order, ek, queue, qsrc, order.len() - 1, kk),
        0 <= kk < neighbors(g, order.last()).len(),
        order.contains(neighbors(g, order.last())[kk]),
    ensures
        discovery_ok(g, start, order, ek, queue, qsrc, order.len() - 1, kk + 1),
{
    let m = order.len() - 1;
    assert forall|a: int| 0 <= a < qsrc.len() implies lex_lt(#[trigger] qsrc[a], (m, kk + 1)) by {
        assert(lex_lt(qsrc[a], (m, kk)));
    }
}

proof fn lemma_discovery_close(
    g: Seq<Seq<usize>>,
    start: usize,
    order: Seq<usize>,
    ek: Seq<(int, int)>,
    queue: Seq<usize>,
    qsrc: Seq<(int, int)>,
)
    requires
        order.len() > 0,
        discovery_ok(
            g,
            start,
            order,
            ek,
            queue,
            qsrc,
            order.len() - 1,
            neighbors(g, order.last()).len() as int,
        ),
    ensures
        discovery_ok(g, start, order, ek, queue, qsrc, order.len() as int, 0),
{
    let m = order.len() - 1;
    assert forall|a: int| 0 <= a < qsrc.len() implies lex_lt(#[trigger] qsrc[a], (m + 1, 0)) by {
        assert(lex_lt(qsrc[a], (m, neighbors(g, order.last()).len() as int)));
    }
}

/// Once the queue is empty, each node after the start was reached, from an
/// expanded node's adjacency list, strictly before any later node was.
proof fn lemma_discovery_order(
    g: Seq<Seq<usize>>,
    start: usize,
    order: Seq<usize>,
    ek: Seq<(int, int)>,
    i: int,
    j: int,
    p: int,
    k: int,
)
    requires
        discovery_ok(g, start, order, ek, Seq::empty(), Seq::empty(), order.len() as int, 0),
        1 <= i < j < order.len(),
        pair_reaches(g, order, p, k, order[j]),
    ensures
        reached_before(g, order, i, p, k),
{
    assert(ek[i].0 < i && pair_reaches(g, order, ek[i].0, ek[i].1, order[i]));
    assert(lex_lt(ek[i], ek[j]));
    assert(!lex_lt((p, k), ek[j]));
    assert(lex_lt((ek[i].0, ek[i].1), (p, k)));
}

proof fn lemma_discovery_complete(
    g: Seq<Seq<usize>>,
    start: usize,
    order: Seq<usize>,
    ek: Seq<(int, int)>,
)
    requires
        discovery_ok(g, start, order, ek, Seq::empty(), Seq::empty(), order.len() as int, 0),
    ensures
        forall|i: int, j: int, p: int, k: int|
            1 <= i < j < order.len() && #[trigger] pair_reaches(g, order, p, k, order[j])
                ==> #[trigger] reached_before(g, order, i, p, k),
{
    assert forall|i: int, j: int, p: int, k: int|
        1 <= i < j < order.len() && #[trigger] pair_reaches(g, order, p, k, order[j]) implies #[trigger] reached_before(
        g,
        order,
        i,
        p,
        k,
    ) by {
        lemma_discovery_order(g, start, order, ek, i, j, p, k);
    }
}

proof fn lemma_unexpanded_mark(g: Seq<Seq<usize>>, vis: Seq<bool>, u: int, i: int)
    requires
        0 <= u < vis.len(),
        !vis[u],
        0 <= i <= vis.len(),
    ensures
        unexpanded_degree(g, vis.update(u, true), i) + (if u < i {
            g[u].len()
        } else {
            0nat
        }) == unexpanded_degree(g, vis, i),
    decreases i,
{
    if i > 0 {
        lemma_unexpanded_mark(g, vis, u, i - 1);
    }
}

/// Whether `x` already occurs in `order`; keys are looked up in `visited`,
/// leaves by a scan.
fn seen(visited: &Vec<bool>, order: &Vec<usize>, x: usize) -> (r: bool)
    requires
        forall|v: usize| v < visited@.len() ==> (visited@[v as int] <==> order@.contains(v)),
    ensures
        r == order@.contains(x),
{
    if x < visited.len() {
        visited[x]
    } else {
        let mut i: usize = 0;
        while i < order.len()
            invariant
                i <= order@.len(),
                forall|k: int| 0 <= k < i ==> order@[k] != x,
            decreases order@.len() - i,
        {
            if order[i] == x {
                return true;
            }
            i += 1;
        }
        false
    }
}

/// Explores every node reachable from `start`, level by level, expanding each
/// one exactly once, and returns the nodes in the order they were expanded.
///
/// A node is dequeued; if it was expanded before it is skipped, otherwise it
/// is expanded and each neighbour not yet expanded is queued. A `start` that
/// is not a key is expanded alone.
///
/// The result starts with `start` and holds each node reachable from it once
/// and nothing else. A node within `k` edges of `start` comes no later than
/// any node that is not. Past `start`, nodes come in the order in which they
/// were first found: for a later node, every place at which it stands in the
/// adjacency list of an expanded node comes after (by expansion position, then
/// by list position) some place at which the earlier node stands.
pub fn breadth_first_search(graph: &Vec<Vec<usize>>, start: usize) -> (order: Vec<usize>)
    ensures
        order@.len() >= 1,
        order@[0] == start,
        order@.no_duplicates(),
        forall|v: usize| order@.contains(v) <==> reachable(adjacency(graph), start, v),
        forall|i: int, j: int, k: nat|
            0 <= i < j < order@.len() && reachable_within(adjacency(graph), start, order@[j], k)
                ==> reachable_within(adjacency(graph), start, order@[i], k),
        forall|i: int, j: int, p: int, k: int|
            1 <= i < j < order@.len() && #[trigger] pair_reaches(adjacency(graph), order@, p, k, order@[j])
                ==> #[trigger] reached_before(adjacency(graph), order@, i, p, k),
{
    let ghost g = adjacency(graph);
    let n = graph.len();
    let mut visited: Vec<bool> = Vec::new();
    let mut i: usize = 0;
    while i < n
        invariant
            i <= n,
            visited@.len() == i,
            forall|k: int| 0 <= k < i ==> !visited@[k],
        decreases n - i,
    {
        visited.push(false);
        i += 1;
    }
    let mut order: Vec<usize> = Vec::new();
    let mut queue: VecDeque<usize> = VecDeque::new();
    queue.push_back(start);
    let ghost mut qlev: Seq<int> = seq![0int];
    let ghost mut lv: Map<usize, int> = Map::empty();
    let ghost mut cur: int = 0;
    let ghost mut qsrc: Seq<(int, int)> = seq![(-1int, 0int)];
    let ghost mut ek: Seq<(int, int)> = Seq::empty();
    proof {
        lemma_reach_self(g, start);
    }
    loop
        invariant
            g == adjacency(graph),
            n == g.len(),
            visited@.len() == n,
            qlev.len() == queue@.len(),
            order@.no_duplicates(),
            forall|v: usize| order@.contains(v) <==> lv.dom().contains(v),
            forall|v: usize| v < visited@.len() ==> (visited@[v as int] <==> order@.contains(v)),
            forall|a: int, b: int| 0 <= a < b < order@.len() ==> lv[order@[a]] <= lv[order@[b]],
            cur >= 0,
            forall|v: usize| lv.dom().contains(v) ==> 0 <= #[trigger] lv[v] <= cur,
            forall|a: int| 0 <= a < qlev.len() ==> cur <= #[trigger] qlev[a] <= cur + 1,
            forall|a: int, b: int| 0 <= a < b < qlev.len() ==> qlev[a] <= qlev[b],
            forall|v: usize|
                lv.dom().contains(v) ==> reachable_within(g, start, v, #[trigger] lv[v] as nat),
            forall|a: int|
                0 <= a < qlev.len() ==> reachable_within(g, start, queue@[a], #[trigger] qlev[a] as nat),
            forall|u: usize, j: int|
                lv.dom().contains(u) && 0 <= j < neighbors(g, u).len() ==> #[trigger] settled(
                    queue@,
                    qlev,
                    lv,
                    neighbors(g, u)[j],
                    lv[u] + 1,
                ),
            order@.len() == 0 ==> queue@ == seq![start] && qlev == seq![0int],
            order@.len() > 0 ==> order@[0] == start && lv.dom().contains(start) && lv[start] == 0,
            discovery_ok(g, start, order@, ek, queue@, qsrc, order@.len() as int, 0),
        ensures
            queue@.len() == 0,
        decreases queue@.len() + unexpanded_degree(g, visited@, n as int),
    {
        let ghost q0 = queue@;
        let ghost qs0 = qsrc;
        let ghost ql0 = qlev;
        let ghost lv0 = lv;
        let ghost measure0 = queue@.len() + unexpanded_degree(g, visited@, n as int);
        let x = match queue.pop_front() {
            Some(x) => x,
            None => break,
        };
        let ghost p = ql0[0];
        proof {
            assert(queue@ =~= q0.drop_first());
            qsrc = qs0.drop_first();
            qlev = ql0.drop_first();
            assert forall|u: usize, j: int|
                lv0.dom().contains(u) && 0 <= j < neighbors(g, u).len() implies #[trigger] settled(
                queue@,
                qlev,
                lv0,
                neighbors(g, u)[j],
                lv0[u] + 1,
            ) || neighbors(g, u)[j] == x && p <= lv0[u] + 1 by {
                let v = neighbors(g, u)[j];
                assert(settled(q0, ql0, lv0, v, lv0[u] + 1));
                if !(lv0.dom().contains(v) && lv0[v] <= lv0[u] + 1) {
                    let a = choose|a: int|
                        0 <= a < q0.len() && q0[a] == v && #[trigger] ql0[a] <= lv0[u] + 1;
                    if a > 0 {
                        assert(queue@[a - 1] == v && qlev[a - 1] <= lv0[u] + 1);
                    }
                }
            }
        }
        if seen(&visited, &order, x) {
            proof {
                lemma_discovery_skip_front(g, start, order@, ek, q0, qs0);
                assert forall|u: usize, j: int|
                    lv.dom().contains(u) && 0 <= j < neighbors(g, u).len() implies #[trigger] settled(
                    queue@,
                    qlev,
                    lv,
                    neighbors(g, u)[j],
                    lv[u] + 1,
                ) by {
                    let v = neighbors(g, u)[j];
                    if v == x && p <= lv0[u] + 1 {
                        assert(lv[x] <= cur);
                    }
                }
                assert(measure0 > queue@.len() + unexpanded_degree(g, visited@, n as int));
            }
            continue;
        }
        proof {
            cur = p;
            lv = lv0.insert(x, p);
            assert forall|u: usize, j: int|
                lv.dom().contains(u) && u != x && 0 <= j < neighbors(g, u).len() implies #[trigger] settled(
                queue@,
                qlev,
                lv,
                neighbors(g, u)[j],
                lv[u] + 1,
            ) by {
                let v = neighbors(g, u)[j];
                assert(lv0.dom().contains(u));
                if v == x && p <= lv0[u] + 1 {
                } else {
                    assert(settled(queue@, qlev, lv0, v, lv0[u] + 1));
                    if lv0.dom().contains(v) && lv0[v] <= lv0[u] + 1 {
                        assert(v != x);
                    } else {
                        let a = choose|a: int|
                            0 <= a < queue@.len() && queue@[a] == v && #[trigger] qlev[a] <= lv0[u] + 1;
                    }
                }
            }
            if order@.len() == 0 {
                assert(x == start);
            }
            assert forall|a: int, b: int|
                0 <= a < b < order@.len() + 1 implies lv[order@.push(x)[a]] <= lv[order@.push(x)[b]] by {
                if b == order@.len() {
                    assert(lv0.dom().contains(order@[a]));
                }
            }
        }
        let ghost o0 = order@;
        proof {
            lemma_discovery_expand(g, start, o0, ek, q0, qs0);
            ek = ek.push(qs0[0]);
        }
        order.push(x);
        proof {
            assert forall|v: usize| order@.contains(v) <==> (o0.contains(v) || v == x) by {
                if o0.contains(v) {
                    let k = choose|k: int| 0 <= k < o0.len() && o0[k] == v;
                    assert(order@[k] == v);
                }
                if v == x {
                    assert(order@[o0.len() as int] == x);
                }
                if order@.contains(v) {
                    let k = choose|k: int| 0 <= k < order@.len() && order@[k] == v;
                    if k < o0.len() {
                        assert(o0[k] == v);
                    }
                }
            }
        }
        let ghost vis0 = visited@;
        if x < n {
            visited.set(x, true);
            proof {
                lemma_unexpanded_mark(g, vis0, x as int, n as int);
            }
        }
        let ghost qlen1 = queue@.len();
        let ghost rest = unexpanded_degree(g, visited@, n as int);
        proof {
            assert(measure0 == qlen1 + 1 + rest + neighbors(g, x).len());
        }
        if x < n {
            let nb = &graph[x];
            assert(nb@ == neighbors(g, x));
            let mut jj: usize = 0;
            while jj < nb.len()
                invariant
                    g == adjacency(graph),
                    nb@ == neighbors(g, x),
                    jj <= nb@.len(),
                    visited@.len() == n,
                    qlev.len() == queue@.len(),
                    queue@.len() <= qlen1 + jj,
                    forall|v: usize| order@.contains(v) <==> lv.dom().contains(v),
                    forall|v: usize| v < visited@.len() ==> (visited@[v as int] <==> order@.contains(v)),
                    lv.dom().contains(x),
                    lv[x] == cur,
                    cur >= 0,
                    order@.len() > 0,
                    order@.last() == x,
                    discovery_ok(g, start, order@, ek, queue@, qsrc, order@.len() - 1, jj as int),
                    forall|v: usize| lv.dom().contains(v) ==> 0 <= #[trigger] lv[v] <= cur,
                    forall|a: int| 0 <= a < qlev.len() ==> cur <= #[trigger] qlev[a] <= cur + 1,
                    forall|a: int, b: int| 0 <= a < b < qlev.len() ==> qlev[a] <= qlev[b],
                    forall|v: usize|
                        lv.dom().contains(v) ==> reachable_within(g, start, v, #[trigger] lv[v] as nat),
                    forall|a: int|
                        0 <= a < qlev.len() ==> reachable_within(
                            g,
                            start,
                            queue@[a],
                            #[trigger] qlev[a] as nat,
                        ),
                    forall|u: usize, j: int|
                        lv.dom().contains(u) && (u != x || j < jj) && 0 <= j < neighbors(g, u).len()
                            ==> #[trigger] settled(queue@, qlev, lv, neighbors(g, u)[j], lv[u] + 1),
                decreases nb@.len() - jj,
            {
                let v = nb[jj];
                if !seen(&visited, &order, v) {
                    let ghost q1 = queue@;
                    let ghost ql1 = qlev;
                    proof {
                        lemma_discovery_push(g, start, order@, ek, q1, qsrc, jj as int);
                        qsrc = qsrc.push(((order@.len() - 1) as int, jj as int));
                    }
                    queue.push_back(v);
                    proof {
                        qlev = ql1.push(cur + 1);
                        assert(is_edge(g, x, v)) by {
                            assert(neighbors(g, x)[jj as int] == v);
                        }
                        lemma_reach_step(g, start, x, v, cur as nat);
                        assert forall|u: usize, j: int|
                            lv.dom().contains(u) && (u != x || j < jj + 1) && 0 <= j < neighbors(
                                g,
                                u,
                            ).len() implies #[trigger] settled(
                            queue@,
                            qlev,
                            lv,
                            neighbors(g, u)[j],
                            lv[u] + 1,
                        ) by {
                            let w = neighbors(g, u)[j];
                            if u == x && j == jj {
                                assert(queue@[q1.len() as int] == w);
                                assert(qlev[q1.len() as int] <= lv[u] + 1);
                            } else {
                                assert(settled(q1, ql1, lv, w, lv[u] + 1));
                                if !(lv.dom().contains(w) && lv[w] <= lv[u] + 1) {
                                    let a = choose|a: int|
                                        0 <= a < q1.len() && q1[a] == w && #[trigger] ql1[a] <= lv[u]
                                            + 1;
                                    assert(queue@[a] == w && qlev[a] <= lv[u] + 1);
                                }
                            }
                        }
                    }
                } else {
                    proof {
                        assert(lv.dom().contains(v));
                        lemma_discovery_skip(g, start, order@, ek, queue@, qsrc, jj as int);
                    }
                }
                jj += 1;
            }
        }
        proof {
            lemma_discovery_close(g, start, order@, ek, queue@, qsrc);
        }
    }
    proof {
        assert(order@.len() > 0);
        assert(queue@ =~= Seq::<usize>::empty());
        assert(qsrc =~= Seq::<(int, int)>::empty());
        lemma_discovery_complete(g, start, order@, ek);
        assert forall|u: usize, v: usize|
            lv.dom().contains(u) && #[trigger] is_edge(g, u, v) implies lv.dom().contains(v) && lv[v]
                <= lv[u] + 1 by {
            let j = choose|j: int| 0 <= j < neighbors(g, u).len() && neighbors(g, u)[j] == v;
            assert(settled(queue@, qlev, lv, neighbors(g, u)[j], lv[u] + 1));
        }
        assert forall|v: usize| order@.contains(v) <==> reachable(g, start, v) by {
            if order@.contains(v) {
                assert(reachable_within(g, start, v, lv[v] as nat));
            }
            if reachable(g, start, v) {
                let k = choose|k: nat| #[trigger] reachable_within(g, start, v, k);
                let w = choose|w: Seq<usize>|
                    #[trigger] is_walk(g, w) && w[0] == start && w.last() == v && w.len() <= k + 1;
                lemma_walk_levels(g, start, lv, w);
            }
        }
        assert forall|i: int, j: int, k: nat|
            0 <= i < j < order@.len() && reachable_within(g, start, order@[j], k) implies reachable_within(
            g,
            start,
            order@[i],
            k,
        ) by {
            let w = choose|w: Seq<usize>|
                #[trigger] is_walk(g, w) && w[0] == start && w.last() == order@[j] && w.len() <= k + 1;
            lemma_walk_levels(g, start, lv, w);
            assert(lv.dom().contains(order@[i]));
            lemma_reach_mono(g, start, order@[i], lv[order@[i]] as nat, k);
        }
    }
    order
}

} // verus!
