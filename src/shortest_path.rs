//! Minimum-cost paths over graphs with non-negative integer edge weights.
//!
//! The search settles nodes in order of increasing cost, always taking next
//! the unsettled node with the cheapest known cost, and records for each node
//! the node it was most cheaply reached from; the path is read back along
//! those records. Each key is settled at most once and its edges relaxed
//! then, instead of re-exploring a node every time its cost improves. A
//! target that is not a key is reached, if at all, through its cheapest
//! incoming edge from a settled node.
use vstd::prelude::*;

verus! {

/// Total cost of a route: a finite amount, or positive infinity when the
/// target cannot be reached.
#[derive(Clone, Copy, Debug, PartialEq, Eq, Structural)]
pub enum Cost {
    Finite(u128),
    Infinity,
}

/// The weighted adjacency lists of `graph` as sequences.
pub open spec fn weighted_adjacency(graph: &Vec<Vec<(usize, u64)>>) -> Seq<Seq<(usize, u64)>> {
    graph@.map_values(|r: Vec<(usize, u64)>| r@)
}

/// Outgoing `(neighbour, weight)` edges of `u`; empty for a node that is not a key.
pub open spec fn out_edges(g: Seq<Seq<(usize, u64)>>, u: usize) -> Seq<(usize, u64)> {
    if u < g.len() {
        g[u as int]
    } else {
        Seq::empty()
    }
}

/// `p` is a non-empty sequence of nodes joined by edges whose weights,
/// one edge chosen between each consecutive pair, add up to `c`.
pub open spec fn path_cost(g: Seq<Seq<(usize, u64)>>, p: Seq<usize>, c: int) -> bool
    decreases p.len(),
{
    if p.len() <= 1 {
        p.len() == 1 && c == 0
    } else {
        exists|w: u64|
            #[trigger] out_edges(g, p[p.len() - 2]).contains((p.last(), w)) && path_cost(
                g,
                p.drop_last(),
                c - w,
            )
    }
}

/// `p` leads from `s` to `t` at total cost `c`.
pub open spec fn is_route(g: Seq<Seq<(usize, u64)>>, s: usize, t: usize, p: Seq<usize>, c: int) -> bool {
    &&& p.len() >= 1
    &&& p[0] == s
    &&& p.last() == t
    &&& path_cost(g, p, c)
}

/// Some route leads from `s` to `t`.
pub open spec fn connected(g: Seq<Seq<(usize, u64)>>, s: usize, t: usize) -> bool {
    exists|p: Seq<usize>, c: int| #[trigger] is_route(g, s, t, p, c)
}

/// The finite amount held in `o`, zero for none.
pub open spec fn amount(o: Option<u128>) -> int {
    match o {
        Some(x) => x as int,
        None => 0,
    }
}

/// Number of entries of `s` that are not set.
pub open spec fn num_open(s: Seq<bool>) -> nat
    decreases s.len(),
{
    if s.len() == 0 {
        0
    } else {
        num_open(s.drop_last()) + if s.last() {
            0nat
        } else {
            1nat
        }
    }
}

proof fn lemma_num_open_set(s: Seq<bool>, i: int)
    requires
        0 <= i < s.len(),
        !s[i],
    ensures
        num_open(s.update(i, true)) + 1 == num_open(s),
    decreases s.len(),
{
    let t = s.update(i, true);
    if i < s.len() - 1 {
        assert(t.drop_last() =~= s.drop_last().update(i, true));
        lemma_num_open_set(s.drop_last(), i);
    } else {
        assert(t.drop_last() =~= s.drop_last());
    }
}

proof fn lemma_num_open_bound(s: Seq<bool>)
    ensures
        num_open(s) <= s.len(),
    decreases s.len(),
{
    if s.len() > 0 {
        lemma_num_open_bound(s.drop_last());
    }
}

/// A path cost is never negative, and a path of two or more nodes starts at a key.
pub proof fn lemma_path_first(g: Seq<Seq<(usize, u64)>>, p: Seq<usize>, c: int)
    requires
        path_cost(g, p, c),
    ensures
        c >= 0,
        p.len() >= 2 ==> p[0] < g.len(),
    decreases p.len(),
{
    if p.len() > 1 {
        let w = choose|w: u64|
            #[trigger] out_edges(g, p[p.len() - 2]).contains((p.last(), w)) && path_cost(
                g,
                p.drop_last(),
                c - w,
            );
        lemma_path_first(g, p.drop_last(), c - w);
    }
}

/// An edge after the last node extends a path by its weight.
pub proof fn lemma_path_append(g: Seq<Seq<(usize, u64)>>, p: Seq<usize>, c: int, t: usize, w: u64)
    requires
        path_cost(g, p, c),
        out_edges(g, p.last()).contains((t, w)),
    ensures
        path_cost(g, p.push(t), c + w),
{
    let q = p.push(t);
    assert(q.drop_last() =~= p);
    assert(out_edges(g, q[q.len() - 2]).contains((q.last(), w)));
}

/// An edge before the first node extends a path by its weight.
pub proof fn lemma_path_prepend(g: Seq<Seq<(usize, u64)>>, u: usize, p: Seq<usize>, c: int, w: u64)
    requires
        path_cost(g, p, c),
        out_edges(g, u).contains((p[0], w)),
    ensures
        path_cost(g, seq![u] + p, c + w),
    decreases p.len(),
{
    let q = seq![u] + p;
    if p.len() == 1 {
        assert(q.drop_last() =~= seq![u]);
        assert(path_cost(g, seq![u], 0));
        assert(path_cost(g, q.drop_last(), (c + w) - w));
        assert(out_edges(g, q[q.len() - 2]).contains((q.last(), w)));
    } else {
        let w2 = choose|w2: u64|
            #[trigger] out_edges(g, p[p.len() - 2]).contains((p.last(), w2)) && path_cost(
                g,
                p.drop_last(),
                c - w2,
            );
        lemma_path_prepend(g, u, p.drop_last(), c - w2, w);
        assert(q.drop_last() =~= seq![u] + p.drop_last());
        assert(path_cost(g, q.drop_last(), (c + w) - w2));
        assert(out_edges(g, q[q.len() - 2]).contains((q.last(), w2)));
    }
}

/// The record for `v`, if any, names a settled node `u` and an edge from `u`
/// to `v` whose weight added to the cost of `u` gives the cost of `v`; when
/// `v` is settled too, `u` was settled before it.
pub open spec fn link_ok(
    g: Seq<Seq<(usize, u64)>>,
    dist: Seq<Option<u128>>,
    pred: Seq<Option<usize>>,
    pw: Seq<u64>,
    done: Seq<bool>,
    rank: Seq<int>,
    v: int,
) -> bool {
    match pred[v] {
        Some(u) => {
            &&& u < g.len()
            &&& done[u as int]
            &&& dist[u as int] is Some
            &&& dist[v] is Some
            &&& (done[v] ==> rank[u as int] < rank[v])
            &&& out_edges(g, u).contains((v as usize, pw[v]))
            &&& amount(dist[v]) == amount(dist[u as int]) + pw[v]
        },
        None => true,
    }
}

/// The first `k` edges out of `a` that lead to keys lead to nodes whose known
/// cost is at most the cost of `a` plus the edge's weight.
pub open spec fn relaxed(g: Seq<Seq<(usize, u64)>>, dist: Seq<Option<u128>>, a: int, k: int) -> bool {
    forall|j: int|
        0 <= j < k && #[trigger] g[a][j].0 < g.len() ==> dist[g[a][j].0 as int] is Some && amount(
            dist[g[a][j].0 as int],
        ) <= amount(dist[a]) + g[a][j].1
}

/// What holds of the search state between two settlements.
pub open spec fn search_ok(
    g: Seq<Seq<(usize, u64)>>,
    s: usize,
    dist: Seq<Option<u128>>,
    pred: Seq<Option<usize>>,
    pw: Seq<u64>,
    done: Seq<bool>,
    rank: Seq<int>,
    count: int,
) -> bool {
    let n = g.len();
    &&& s < n
    &&& dist.len() == n
    &&& pred.len() == n
    &&& pw.len() == n
    &&& done.len() == n
    &&& rank.len() == n
    &&& dist[s as int] == Some(0u128)
    &&& forall|v: int| 0 <= v < n && dist[v] is Some && pred[v] is None ==> v == s
    &&& forall|v: int| 0 <= v < n ==> #[trigger] link_ok(g, dist, pred, pw, done, rank, v)
    &&& forall|v: int| 0 <= v < n && #[trigger] done[v] ==> dist[v] is Some && 0 <= rank[v] < count
    &&& forall|a: int, b: int|
        0 <= a < n && 0 <= b < n && #[trigger] done[a] && !#[trigger] done[b] && dist[b] is Some
            ==> amount(dist[a]) <= amount(dist[b])
    &&& forall|v: int|
        0 <= v < n && #[trigger] dist[v] is Some ==> amount(dist[v]) <= count * (u64::MAX as int)
    &&& count + num_open(done) == n
}

/// Among the unsettled nodes with a known cost, one of least cost.
fn select_min(dist: &Vec<Option<u128>>, done: &Vec<bool>) -> (r: Option<usize>)
    requires
        dist@.len() == done@.len(),
    ensures
        r is None ==> forall|i: int| 0 <= i < dist@.len() ==> done@[i] || dist@[i] is None,
        r matches Some(u) ==> {
            &&& u < dist@.len()
            &&& !done@[u as int]
            &&& dist@[u as int] is Some
            &&& forall|i: int|
                0 <= i < dist@.len() && !done@[i] && dist@[i] is Some ==> amount(dist@[u as int])
                    <= amount(dist@[i])
        },
{
    let mut best: Option<usize> = None;
    let mut i: usize = 0;
    while i < dist.len()
        invariant
            dist@.len() == done@.len(),
            i <= dist@.len(),
            best is None ==> forall|k: int| 0 <= k < i ==> done@[k] || dist@[k] is None,
            best matches Some(u) ==> {
                &&& u < i
                &&& !done@[u as int]
                &&& dist@[u as int] is Some
                &&& forall|k: int|
                    0 <= k < i && !done@[k] && dist@[k] is Some ==> amount(dist@[u as int])
                        <= amount(dist@[k])
            },
        decreases dist@.len() - i,
    {
        if !done[i] {
            if let Some(d) = dist[i] {
                let take = match best {
                    None => true,
                    Some(b) => match dist[b] {
                        Some(db) => d < db,
                        None => true,
                    },
                };
                if take {
                    best = Some(i);
                }
            }
        }
        i += 1;
    }
    best
}

/// Once every node with a known cost is settled and every settled node is
/// relaxed, the known cost of a key bounds from below every path to it from `s`.
proof fn lemma_lower_bound(
    g: Seq<Seq<(usize, u64)>>,
    s: usize,
    dist: Seq<Option<u128>>,
    done: Seq<bool>,
    p: Seq<usize>,
    c: int,
)
    requires
        s < g.len(),
        dist.len() == g.len(),
        done.len() == g.len(),
        dist[s as int] == Some(0u128),
        forall|i: int| 0 <= i < g.len() ==> done[i] || dist[i] is None,
        forall|a: int| 0 <= a < g.len() && done[a] ==> #[trigger] relaxed(g, dist, a, g[a].len() as int),
        path_cost(g, p, c),
        p.len() >= 1,
        p[0] == s,
        p.last() < g.len(),
    ensures
        dist[p.last() as int] is Some,
        amount(dist[p.last() as int]) <= c,
    decreases p.len(),
{
    if p.len() > 1 {
        let x = p[p.len() - 2];
        let w = choose|w: u64|
            #[trigger] out_edges(g, x).contains((p.last(), w)) && path_cost(g, p.drop_last(), c - w);
        assert(x < g.len());
        lemma_lower_bound(g, s, dist, done, p.drop_last(), c - w);
        let j = choose|j: int| 0 <= j < out_edges(g, x).len() && out_edges(g, x)[j] == (p.last(), w);
        assert(relaxed(g, dist, x as int, g[x as int].len() as int));
        assert(g[x as int][j].0 < g.len());
    }
}

/// Reads the records back from the settled node `node` to `s`.
fn trace_back(
    pred: &Vec<Option<usize>>,
    node: usize,
    Ghost(g): Ghost<Seq<Seq<(usize, u64)>>>,
    Ghost(s): Ghost<usize>,
    Ghost(dist): Ghost<Seq<Option<u128>>>,
    Ghost(pw): Ghost<Seq<u64>>,
    Ghost(done): Ghost<Seq<bool>>,
    Ghost(rank): Ghost<Seq<int>>,
    Ghost(count): Ghost<int>,
) -> (path: Vec<usize>)
    requires
        search_ok(g, s, dist, pred@, pw, done, rank, count),
        node < g.len(),
        done[node as int],
    ensures
        is_route(g, s, node, path@, amount(dist[node as int])),
{
    let mut back: Vec<usize> = Vec::new();
    let mut cur = node;
    let ghost mut suffix = seq![node];
    loop
        invariant_except_break
            back@.len() + 1 == suffix.len(),
        invariant
            search_ok(g, s, dist, pred@, pw, done, rank, count),
            cur < g.len(),
            done[cur as int],
            suffix.len() >= 1,
            suffix[0] == cur,
            suffix.last() == node,
            path_cost(g, suffix, amount(dist[node as int]) - amount(dist[cur as int])),
            forall|k: int| 0 <= k < back@.len() ==> back@[k] == suffix[suffix.len() - 1 - k],
        ensures
            back@.len() == suffix.len(),
            forall|k: int| 0 <= k < back@.len() ==> back@[k] == suffix[suffix.len() - 1 - k],
            suffix[0] == s,
            suffix.last() == node,
            path_cost(g, suffix, amount(dist[node as int])),
        decreases rank[cur as int],
    {
        back.push(cur);
        match pred[cur] {
            None => {
                break;
            },
            Some(u) => {
                proof {
                    assert(link_ok(g, dist, pred@, pw, done, rank, cur as int));
                    lemma_path_prepend(
                        g,
                        u,
                        suffix,
                        amount(dist[node as int]) - amount(dist[cur as int]),
                        pw[cur as int],
                    );
                    suffix = seq![u] + suffix;
                }
                cur = u;
            },
        }
    }
    let mut path: Vec<usize> = Vec::new();
    let mut i: usize = back.len();
    while i > 0
        invariant
            i <= back@.len(),
            back@.len() == suffix.len(),
            path@.len() + i == back@.len(),
            forall|k: int| 0 <= k < back@.len() ==> back@[k] == suffix[suffix.len() - 1 - k],
            forall|k: int| 0 <= k < path@.len() ==> path@[k] == suffix[k],
        decreases i,
    {
        i -= 1;
        path.push(back[i]);
    }
    assert(path@ =~= suffix);
    path
}

/// The cheapest entry into `t` from a node with a known cost: that cost plus
/// the edge's weight, the node, and the weight.
fn cheapest_entry(graph: &Vec<Vec<(usize, u64)>>, dist: &Vec<Option<u128>>, t: usize) -> (r: Option<
    (u128, usize, u64),
>)
    requires
        dist@.len() == graph@.len(),
        forall|v: int|
            0 <= v < dist@.len() && #[trigger] dist@[v] is Some ==> amount(dist@[v]) <= graph@.len()
                * (u64::MAX as int),
    ensures
        r is None ==> forall|u: int, j: int|
            0 <= u < graph@.len() && dist@[u] is Some && 0 <= j < weighted_adjacency(graph)[u].len()
                ==> #[trigger] weighted_adjacency(graph)[u][j].0 != t,
        r matches Some((c, b, w)) ==> {
            &&& b < graph@.len()
            &&& dist@[b as int] is Some
            &&& out_edges(weighted_adjacency(graph), b).contains((t, w))
            &&& c == amount(dist@[b as int]) + w
            &&& forall|u: int, j: int|
                0 <= u < graph@.len() && dist@[u] is Some && 0 <= j < weighted_adjacency(graph)[u].len()
                    && #[trigger] weighted_adjacency(graph)[u][j].0 == t ==> c <= amount(dist@[u])
                    + weighted_adjacency(graph)[u][j].1
        },
{
    let ghost g = weighted_adjacency(graph);
    let n = graph.len();
    let mut best: Option<(u128, usize, u64)> = None;
    let mut u: usize = 0;
    while u < n
        invariant
            g == weighted_adjacency(graph),
            n == graph@.len(),
            dist@.len() == n,
            u <= n,
            forall|v: int|
                0 <= v < dist@.len() && #[trigger] dist@[v] is Some ==> amount(dist@[v]) <= n * (
                u64::MAX as int),
            best is None ==> forall|x: int, j: int|
                0 <= x < u && dist@[x] is Some && 0 <= j < g[x].len() ==> #[trigger] g[x][j].0 != t,
            best matches Some((c, b, w)) ==> {
                &&& b < n
                &&& dist@[b as int] is Some
                &&& out_edges(g, b).contains((t, w))
                &&& c == amount(dist@[b as int]) + w
                &&& forall|x: int, j: int|
                    0 <= x < u && dist@[x] is Some && 0 <= j < g[x].len() && #[trigger] g[x][j].0 == t
                        ==> c <= amount(dist@[x]) + g[x][j].1
            },
        decreases n - u,
    {
        if let Some(du) = dist[u] {
            let edges = &graph[u];
            assert(edges@ == g[u as int]);
            let mut j: usize = 0;
            while j < edges.len()
                invariant
                    g == weighted_adjacency(graph),
                    n == graph@.len(),
                    dist@.len() == n,
                    u < n,
                    dist@[u as int] == Some(du),
                    du <= n * (u64::MAX as int),
                    edges@ == g[u as int],
                    j <= edges@.len(),
                    best is None ==> forall|x: int, k: int|
                        (0 <= x < u || (x == u && k < j)) && dist@[x] is Some && 0 <= k < g[x].len()
                            ==> #[trigger] g[x][k].0 != t,
                    best matches Some((c, b, w)) ==> {
                        &&& b < n
                        &&& dist@[b as int] is Some
                        &&& out_edges(g, b).contains((t, w))
                        &&& c == amount(dist@[b as int]) + w
                        &&& forall|x: int, k: int|
                            (0 <= x < u || (x == u && k < j)) && dist@[x] is Some && 0 <= k < g[x].len()
                                && #[trigger] g[x][k].0 == t ==> c <= amount(dist@[x]) + g[x][k].1
                    },
                decreases edges@.len() - j,
            {
                let (v, w) = edges[j];
                if v == t {
                    assert(du + w <= u128::MAX) by (nonlinear_arith)
                        requires
                            du <= n * (u64::MAX as int),
                            n <= usize::MAX,
                            usize::MAX <= u64::MAX,
                            w <= u64::MAX,
                    ;
                    let cand: u128 = du + w as u128;
                    let take = match best {
                        None => true,
                        Some((c, _, _)) => cand < c,
                    };
                    if take {
                        best = Some((cand, u, w));
                        assert(out_edges(g, u)[j as int] == (t, w));
                    }
                }
                j += 1;
            }
        }
        u += 1;
    }
    best
}

/// Cheapest route from `start_node` to `target_node` over non-negative
/// integer weights, with its total cost.
///
/// When some route exists the result is one of least cost, listed from
/// `start_node` to `target_node`, with that cost. When none exists the cost is
/// `Infinity` and the path is the single node `target_node`. Nodes that are
/// not keys have no outgoing edges, and may be either end of the query.
pub fn dijkstras_algorithm(
    weighted_graph: Vec<Vec<(usize, u64)>>,
    start_node: usize,
    target_node: usize,
) -> (res: (Vec<usize>, Cost))
    ensures
        res.1 == Cost::Infinity <==> !connected(
            weighted_adjacency(&weighted_graph),
            start_node,
            target_node,
        ),
        res.1 == Cost::Infinity ==> res.0@ == seq![target_node],
        res.1 matches Cost::Finite(c) ==> {
            &&& is_route(weighted_adjacency(&weighted_graph), start_node, target_node, res.0@, c as int)
            &&& forall|p: Seq<usize>, c2: int|
                is_route(weighted_adjacency(&weighted_graph), start_node, target_node, p, c2) ==> c
                    <= c2
        },
{
    let graph = &weighted_graph;
    let ghost g = weighted_adjacency(graph);
    let n = graph.len();
    if start_node >= n {
        proof {
            assert forall|p: Seq<usize>, c2: int| is_route(g, start_node, target_node, p, c2) implies p.len()
                == 1 && c2 == 0 && target_node == start_node by {
                lemma_path_first(g, p, c2);
            }
        }
        if target_node == start_node {
            proof {
                assert(is_route(g, start_node, target_node, seq![start_node], 0));
            }
            return (vec![start_node], Cost::Finite(0));
        } else {
            return (vec![target_node], Cost::Infinity);
        }
    }
    let mut dist: Vec<Option<u128>> = Vec::new();
    let mut pred: Vec<Option<usize>> = Vec::new();
    let mut done: Vec<bool> = Vec::new();
    let mut i: usize = 0;
    while i < n
        invariant
            i <= n,
            start_node < n,
            dist@.len() == i,
            pred@.len() == i,
            done@.len() == i,
            forall|k: int| 0 <= k < i ==> dist@[k] == (if k == start_node {
                Some(0u128)
            } else {
                None
            }),
            forall|k: int| 0 <= k < i ==> pred@[k] is None,
            forall|k: int| 0 <= k < i ==> !done@[k],
            num_open(done@) == i,
        decreases n - i,
    {
        dist.push(if i == start_node {
            Some(0u128)
        } else {
            None
        });
        pred.push(None);
        let ghost d0 = done@;
        done.push(false);
        proof {
            assert(done@.drop_last() =~= d0);
        }
        i += 1;
    }
    let ghost mut pw: Seq<u64> = Seq::new(n as nat, |k: int| 0u64);
    let ghost mut rank: Seq<int> = Seq::new(n as nat, |k: int| 0int);
    let mut count: usize = 0;
    proof {
        assert forall|v: int| 0 <= v < n implies #[trigger] link_ok(
            g,
            dist@,
            pred@,
            pw,
            done@,
            rank,
            v,
        ) by {
            assert(pred@[v] is None);
        }
        assert(search_ok(g, start_node, dist@, pred@, pw, done@, rank, count as int));
    }
    loop
        invariant
            g == weighted_adjacency(graph),
            n == g.len(),
            search_ok(g, start_node, dist@, pred@, pw, done@, rank, count as int),
            forall|a: int| 0 <= a < n && done@[a] ==> #[trigger] relaxed(g, dist@, a, g[a].len() as int),
        ensures
            forall|k: int| 0 <= k < n ==> done@[k] || dist@[k] is None,
        decreases n - count,
    {
        let u = match select_min(&dist, &done) {
            Some(u) => u,
            None => break,
        };
        let du: u128 = match dist[u] {
            Some(d) => d,
            None => 0,
        };
        proof {
            lemma_num_open_set(done@, u as int);
            lemma_num_open_bound(done@.update(u as int, true));
        }
        let ghost old_dist = dist@;
        let ghost old_done = done@;
        let ghost old_rank = rank;
        done.set(u, true);
        proof {
            rank = old_rank.update(u as int, count as int);
            assert forall|v: int| 0 <= v < n implies #[trigger] link_ok(
                g,
                dist@,
                pred@,
                pw,
                done@,
                rank,
                v,
            ) by {
                assert(link_ok(g, old_dist, pred@, pw, old_done, old_rank, v));
            }
        }
        count += 1;
        let edges = &graph[u];
        assert(edges@ == g[u as int]);
        let mut j: usize = 0;
        while j < edges.len()
            invariant
                g == weighted_adjacency(graph),
                n == g.len(),
                u < n,
                edges@ == g[u as int],
                j <= edges@.len(),
                search_ok(g, start_node, dist@, pred@, pw, done@, rank, count as int),
                done@[u as int],
                dist@[u as int] == Some(du),
                du + u64::MAX <= count * (u64::MAX as int),
                count <= n,
                forall|a: int| 0 <= a < n && done@[a] ==> amount(#[trigger] dist@[a]) <= du,
                forall|a: int|
                    0 <= a < n && a != u && done@[a] ==> #[trigger] relaxed(
                        g,
                        dist@,
                        a,
                        g[a].len() as int,
                    ),
                relaxed(g, dist@, u as int, j as int),
            decreases edges@.len() - j,
        {
            let (v, w) = edges[j];
            if v < n && !done[v] {
                assert(du + w <= u128::MAX) by (nonlinear_arith)
                    requires
                        du + u64::MAX <= count * (u64::MAX as int),
                        count <= n,
                        n <= usize::MAX,
                        usize::MAX <= u64::MAX,
                        w <= u64::MAX,
                ;
                let cand: u128 = du + w as u128;
                let better = match dist[v] {
                    None => true,
                    Some(dv) => cand < dv,
                };
                if better {
                    let ghost d1 = dist@;
                    let ghost p1 = pred@;
                    let ghost pw1 = pw;
                    dist.set(v, Some(cand));
                    pred.set(v, Some(u));
                    proof {
                        pw = pw1.update(v as int, w);
                        assert(out_edges(g, u)[j as int] == (v, w));
                        assert forall|x: int| 0 <= x < n implies #[trigger] link_ok(
                            g,
                            dist@,
                            pred@,
                            pw,
                            done@,
                            rank,
                            x,
                        ) by {
                            assert(link_ok(g, d1, p1, pw1, done@, rank, x));
                        }
                        assert forall|a: int|
                            0 <= a < n && a != u && done@[a] implies #[trigger] relaxed(
                            g,
                            dist@,
                            a,
                            g[a].len() as int,
                        ) by {
                            assert(relaxed(g, d1, a, g[a].len() as int));
                        }
                        assert(relaxed(g, d1, u as int, j as int));
                    }
                }
            }
            j += 1;
        }
    }
    let ghost fd = dist@;
    let ghost fdone = done@;
    if target_node < n {
        match dist[target_node] {
            Some(c) => {
                let path = trace_back(
                    &pred,
                    target_node,
                    Ghost(g),
                    Ghost(start_node),
                    Ghost(dist@),
                    Ghost(pw),
                    Ghost(done@),
                    Ghost(rank),
                    Ghost(count as int),
                );
                proof {
                    assert forall|p: Seq<usize>, c2: int|
                        is_route(g, start_node, target_node, p, c2) implies c <= c2 by {
                        lemma_lower_bound(g, start_node, fd, fdone, p, c2);
                    }
                    assert(is_route(g, start_node, target_node, path@, c as int));
                }
                (path, Cost::Finite(c))
            },
            None => {
                proof {
                    if connected(g, start_node, target_node) {
                        let (p, c2) = choose|p: Seq<usize>, c2: int|
                            #[trigger] is_route(g, start_node, target_node, p, c2);
                        lemma_lower_bound(g, start_node, fd, fdone, p, c2);
                    }
                }
                (vec![target_node], Cost::Infinity)
            },
        }
    } else {
        proof {
            lemma_num_open_bound(done@);
        }
        match cheapest_entry(graph, &dist, target_node) {
            Some((c, b, w)) => {
                let mut path = trace_back(
                    &pred,
                    b,
                    Ghost(g),
                    Ghost(start_node),
                    Ghost(dist@),
                    Ghost(pw),
                    Ghost(done@),
                    Ghost(rank),
                    Ghost(count as int),
                );
                let ghost p0 = path@;
                path.push(target_node);
                proof {
                    lemma_path_append(g, p0, amount(fd[b as int]), target_node, w);
                    assert forall|p: Seq<usize>, c2: int|
                        is_route(g, start_node, target_node, p, c2) implies c <= c2 by {
                        let x = p[p.len() - 2];
                        let w2 = choose|w2: u64|
                            #[trigger] out_edges(g, x).contains((p.last(), w2)) && path_cost(
                                g,
                                p.drop_last(),
                                c2 - w2,
                            );
                        assert(x < n);
                        lemma_lower_bound(g, start_node, fd, fdone, p.drop_last(), c2 - w2);
                        let k = choose|k: int|
                            0 <= k < out_edges(g, x).len() && out_edges(g, x)[k] == (p.last(), w2);
                        assert(g[x as int][k].0 == target_node);
                    }
                    assert(is_route(g, start_node, target_node, path@, c as int));
                }
                (path, Cost::Finite(c))
            },
            None => {
                proof {
                    if connected(g, start_node, target_node) {
                        let (p, c2) = choose|p: Seq<usize>, c2: int|
                            #[trigger] is_route(g, start_node, target_node, p, c2);
                        let x = p[p.len() - 2];
                        let w2 = choose|w2: u64|
                            #[trigger] out_edges(g, x).contains((p.last(), w2)) && path_cost(
                                g,
                                p.drop_last(),
                                c2 - w2,
                            );
                        assert(x < n);
                        lemma_lower_bound(g, start_node, fd, fdone, p.drop_last(), c2 - w2);
                        let k = choose|k: int|
                            0 <= k < out_edges(g, x).len() && out_edges(g, x)[k] == (p.last(), w2);
                        assert(g[x as int][k].0 == target_node);
                    }
                }
                (vec![target_node], Cost::Infinity)
            },
        }
    }
}

} // verus!
