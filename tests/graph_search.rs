use algorithms::bfs::breadth_first_search;
use algorithms::shortest_path::{dijkstras_algorithm, Cost};

fn route_cost(graph: &Vec<Vec<(usize, u64)>>, path: &[usize]) -> u128 {
    let mut total: u128 = 0;
    for pair in path.windows(2) {
        let best = graph[pair[0]]
            .iter()
            .filter(|e| e.0 == pair[1])
            .map(|e| e.1)
            .min()
            .expect("consecutive nodes must be joined by an edge");
        total += best as u128;
    }
    total
}

// Brute force: cheapest cost over all simple paths from s to t.
fn brute_force(graph: &Vec<Vec<(usize, u64)>>, s: usize, t: usize) -> Option<u128> {
    fn go(g: &Vec<Vec<(usize, u64)>>, u: usize, t: usize, on: &mut Vec<usize>, acc: u128, best: &mut Option<u128>) {
        if u == t {
            if best.map_or(true, |b| acc < b) {
                *best = Some(acc);
            }
            return;
        }
        if u >= g.len() {
            return;
        }
        for &(v, w) in &g[u] {
            if !on.contains(&v) {
                on.push(v);
                go(g, v, t, on, acc + w as u128, best);
                on.pop();
            }
        }
    }
    let mut best = None;
    let mut on = vec![s];
    go(graph, s, t, &mut on, 0, &mut best);
    best
}

#[test]
fn weighted_example_takes_cheaper_detour() {
    // A = 0, B = 1, C = 2
    let g = vec![vec![(1, 1), (2, 4)], vec![(2, 1)], vec![]];
    let (path, cost) = dijkstras_algorithm(g, 0, 2);
    assert_eq!(path, vec![0, 1, 2]);
    assert_eq!(cost, Cost::Finite(2));
}

#[test]
fn bfs_example_expands_by_level() {
    // A = 0, B = 1, C = 2, D = 3
    let g = vec![vec![1, 2], vec![3], vec![3], vec![]];
    assert_eq!(breadth_first_search(&g, 0), vec![0, 1, 2, 3]);
}

#[test]
fn bfs_siblings_follow_adjacency_order() {
    let g = vec![vec![2, 1], vec![3], vec![3], vec![]];
    assert_eq!(breadth_first_search(&g, 0), vec![0, 2, 1, 3]);
}

#[test]
fn absent_target_is_unreachable() {
    let g = vec![vec![(1, 1), (2, 4)], vec![(2, 1)], vec![]];
    let (path, cost) = dijkstras_algorithm(g, 0, 7);
    assert_eq!(path, vec![7]);
    assert_eq!(cost, Cost::Infinity);
}

#[test]
fn bfs_visits_each_reachable_node_once() {
    // 0 -> 1 -> 2 -> 0 is a cycle; 3 -> 0 but nothing reaches 3.
    let g = vec![vec![1, 2, 1], vec![2, 0], vec![0, 1], vec![0]];
    let order = breadth_first_search(&g, 0);
    assert_eq!(order, vec![0, 1, 2]);
    assert!(!order.contains(&3));
}

#[test]
fn bfs_nearer_nodes_come_first() {
    // Distances from 0: 1 -> 1, 4 -> 1, 2 -> 2, 3 -> 3.
    let g = vec![vec![1, 4], vec![2], vec![3], vec![], vec![2]];
    let order = breadth_first_search(&g, 0);
    assert_eq!(order, vec![0, 1, 4, 2, 3]);
}

#[test]
fn bfs_leaf_neighbours_expanded_once() {
    let g = vec![vec![5, 5, 1], vec![5]];
    assert_eq!(breadth_first_search(&g, 0), vec![0, 5, 1]);
}

#[test]
fn bfs_start_not_a_key() {
    let g = vec![vec![1], vec![0]];
    assert_eq!(breadth_first_search(&g, 9), vec![9]);
    let empty: Vec<Vec<usize>> = vec![];
    assert_eq!(breadth_first_search(&empty, 0), vec![0]);
}

#[test]
fn shortest_cost_matches_brute_force() {
    let g = vec![
        vec![(1, 7), (2, 9), (5, 14)],
        vec![(0, 7), (2, 10), (3, 15)],
        vec![(0, 9), (1, 10), (3, 11), (5, 2)],
        vec![(1, 15), (2, 11), (4, 6)],
        vec![(3, 6), (5, 9)],
        vec![(0, 14), (2, 2), (4, 9)],
    ];
    for t in 0..6 {
        let (path, cost) = dijkstras_algorithm(g.clone(), 0, t);
        let expected = brute_force(&g, 0, t).unwrap();
        assert_eq!(cost, Cost::Finite(expected));
        assert_eq!(route_cost(&g, &path), expected);
    }
    let (path, cost) = dijkstras_algorithm(g.clone(), 0, 4);
    assert_eq!(path, vec![0, 2, 5, 4]);
    assert_eq!(cost, Cost::Finite(20));
}

#[test]
fn path_runs_from_start_to_target_at_reported_cost() {
    let g = vec![vec![(1, 0), (2, 5)], vec![(2, 0), (3, 9)], vec![(3, 1)], vec![]];
    let (path, cost) = dijkstras_algorithm(g.clone(), 0, 3);
    assert_eq!(path.first(), Some(&0));
    assert_eq!(path.last(), Some(&3));
    assert_eq!(cost, Cost::Finite(route_cost(&g, &path)));
    assert_eq!(cost, Cost::Finite(1));
    assert_eq!(path, vec![0, 1, 2, 3]);
}

#[test]
fn unreachable_key_gives_infinity() {
    let g = vec![vec![(1, 3)], vec![], vec![(0, 1)]];
    let (path, cost) = dijkstras_algorithm(g, 0, 2);
    assert_eq!(path, vec![2]);
    assert_eq!(cost, Cost::Infinity);
}

#[test]
fn leaf_target_reached_through_cheapest_edge() {
    let g = vec![vec![(1, 1), (9, 10)], vec![(9, 3), (9, 2)]];
    let (path, cost) = dijkstras_algorithm(g, 0, 9);
    assert_eq!(path, vec![0, 1, 9]);
    assert_eq!(cost, Cost::Finite(3));
}

#[test]
fn start_equals_target() {
    let g = vec![vec![(1, 4)], vec![(0, 4)]];
    assert_eq!(dijkstras_algorithm(g.clone(), 1, 1), (vec![1], Cost::Finite(0)));
    assert_eq!(dijkstras_algorithm(g.clone(), 8, 8), (vec![8], Cost::Finite(0)));
    assert_eq!(dijkstras_algorithm(g, 8, 0), (vec![0], Cost::Infinity));
}

#[test]
fn largest_weights_do_not_overflow() {
    let m = u64::MAX;
    let g = vec![vec![(1, m)], vec![(2, m)], vec![]];
    let (path, cost) = dijkstras_algorithm(g, 0, 2);
    assert_eq!(path, vec![0, 1, 2]);
    assert_eq!(cost, Cost::Finite(2 * m as u128));
}

#[test]
fn empty_graph_queries() {
    let g: Vec<Vec<(usize, u64)>> = vec![];
    assert_eq!(dijkstras_algorithm(g, 0, 1), (vec![1], Cost::Infinity));
}

#[test]
fn bfs_first_discovery_decides_sibling_order() {
    // 2 is expanded before 1, so its list order (4, then 3) decides.
    let g = vec![vec![2, 1], vec![3, 4], vec![4, 3], vec![], vec![]];
    assert_eq!(breadth_first_search(&g, 0), vec![0, 2, 1, 4, 3]);
}

#[test]
fn bfs_self_loops_and_repeated_edges() {
    let g = vec![vec![0, 1, 1], vec![1, 0]];
    assert_eq!(breadth_first_search(&g, 1), vec![1, 0]);
}
