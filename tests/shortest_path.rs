use algo_examples::dijkstra::{dejkstras_alg, Edge, Graph};

const START: usize = 0;
const FINISH: usize = 1;
const A: usize = 2;
const B: usize = 3;
const C: usize = 4;
const D: usize = 5;

fn graph_of(node_count: usize, edges: &[(usize, usize, u32)]) -> Graph {
    let mut g = Graph::new(node_count);
    for &(from, to, weight) in edges {
        assert!(g.add_edge(from, to, weight));
    }
    g
}

/// The least cost over every simple path, and every walk back to `start`
/// that repeats no other node, found by trying them all.
fn brute_force(g: &Graph, start: usize, finish: usize) -> Option<u64> {
    fn go(g: &Graph, node: usize, finish: usize, cost: u64, seen: &mut Vec<bool>, best: &mut Option<u64>) {
        for e in &g.adj[node] {
            let c = cost + e.weight as u64;
            if e.to == finish && best.map_or(true, |b| c < b) {
                *best = Some(c);
            }
            if !seen[e.to] {
                seen[e.to] = true;
                go(g, e.to, finish, c, seen, best);
                seen[e.to] = false;
            }
        }
    }
    let mut seen = vec![false; g.adj.len()];
    seen[start] = true;
    let mut best = None;
    go(g, start, finish, 0, &mut seen, &mut best);
    best
}

fn book_graph() -> Graph {
    graph_of(
        4,
        &[(START, A, 6), (START, B, 2), (B, A, 3), (B, FINISH, 5), (A, FINISH, 1)],
    )
}

fn seven_edge_graph() -> Graph {
    graph_of(
        6,
        &[
            (START, A, 5),
            (START, B, 2),
            (A, C, 4),
            (A, D, 2),
            (B, A, 8),
            (B, D, 7),
            (C, FINISH, 3),
            (C, D, 6),
            (D, FINISH, 1),
        ],
    )
}

#[test]
fn dejkstras_algorithm_test() {
    let graph = book_graph();
    let res = dejkstras_alg(&graph, START, FINISH);
    assert_eq!(res, Some(6));

    let graph = seven_edge_graph();
    let res = dejkstras_alg(&graph, START, FINISH);
    assert!(res <= Some(8));

    let graph = graph_of(
        5,
        &[(START, A, 10), (A, C, 20), (B, A, 1), (C, B, 1), (C, FINISH, 30)],
    );
    let res = dejkstras_alg(&graph, START, FINISH);
    assert!(res <= Some(60));
    assert_eq!(res, Some(60));
}

#[test]
fn book_example_costs_six() {
    assert_eq!(dejkstras_alg(&book_graph(), START, FINISH), Some(6));
}

#[test]
fn scenario_matches_brute_force() {
    let g = seven_edge_graph();
    let res = dejkstras_alg(&g, START, FINISH);
    assert_eq!(res, brute_force(&g, START, FINISH));
    assert_eq!(res, Some(8));
}

#[test]
fn never_above_any_simple_path() {
    let g = graph_of(
        5,
        &[(START, A, 1), (A, B, 1), (B, FINISH, 1), (START, FINISH, 5), (A, C, 0), (C, FINISH, 1)],
    );
    let res = dejkstras_alg(&g, START, FINISH);
    assert_eq!(res, Some(2));
    assert_eq!(res, brute_force(&g, START, FINISH));
    // The three simple paths cost 5, 3 and 2.
    assert!(res.unwrap() <= 5 && res.unwrap() <= 3);
}

#[test]
fn unreachable_finish_is_none() {
    let g = graph_of(4, &[(START, A, 1), (B, FINISH, 1)]);
    assert_eq!(dejkstras_alg(&g, START, FINISH), None);
    let g = graph_of(2, &[]);
    assert_eq!(dejkstras_alg(&g, START, FINISH), None);
}

#[test]
fn unknown_start_is_none() {
    let g = book_graph();
    assert_eq!(dejkstras_alg(&g, 4, FINISH), None);
    assert_eq!(dejkstras_alg(&g, usize::MAX, FINISH), None);
}

#[test]
fn unknown_finish_is_none() {
    assert_eq!(dejkstras_alg(&book_graph(), START, 9), None);
}

#[test]
fn missing_adjacency_entry_is_none() {
    // Node 7 is the target of an edge but has no adjacency list.
    let mut g = book_graph();
    assert!(g.add_edge(A, 7, 1));
    assert_eq!(dejkstras_alg(&g, START, FINISH), None);
    // Out of reach of the start, it does no harm.
    let mut g = graph_of(5, &[(START, FINISH, 4)]);
    assert!(g.add_edge(C, 9, 1));
    assert_eq!(dejkstras_alg(&g, START, FINISH), Some(4));
    // A graph built by hand from the lists.
    let g = Graph {
        adj: vec![vec![Edge { to: 1, weight: 2 }], vec![Edge { to: 5, weight: 1 }]],
    };
    assert_eq!(dejkstras_alg(&g, 0, 1), None);
}

#[test]
fn same_answer_twice() {
    let g = seven_edge_graph();
    let first = dejkstras_alg(&g, START, FINISH);
    let second = dejkstras_alg(&g, START, FINISH);
    assert_eq!(first, second);
    assert_eq!(g.adj.len(), 6);
    assert_eq!(g.adj[START].len(), 2);
}

#[test]
fn added_edge_never_raises_cost() {
    let mut g = seven_edge_graph();
    let before = dejkstras_alg(&g, START, FINISH);
    assert!(g.add_edge(B, FINISH, 100));
    assert_eq!(dejkstras_alg(&g, START, FINISH), before);
    assert!(g.add_edge(START, D, 1));
    assert_eq!(dejkstras_alg(&g, START, FINISH), Some(2));
    let mut g = graph_of(3, &[(START, A, 1)]);
    assert_eq!(dejkstras_alg(&g, START, FINISH), None);
    assert!(g.add_edge(A, FINISH, 3));
    assert_eq!(dejkstras_alg(&g, START, FINISH), Some(4));
}

#[test]
fn finish_equal_to_start_needs_a_cycle() {
    let g = book_graph();
    assert_eq!(dejkstras_alg(&g, START, START), None);
    let g = graph_of(3, &[(START, A, 2), (A, START, 3), (START, START, 9)]);
    assert_eq!(dejkstras_alg(&g, START, START), Some(5));
}

#[test]
fn zero_weights_and_parallel_edges() {
    let g = graph_of(2, &[(START, FINISH, 7), (START, FINISH, 0), (START, FINISH, 3)]);
    assert_eq!(dejkstras_alg(&g, START, FINISH), Some(0));
}

#[test]
fn largest_weights_do_not_overflow() {
    let m = u32::MAX;
    let g = graph_of(4, &[(START, A, m), (A, B, m), (B, FINISH, m)]);
    assert_eq!(dejkstras_alg(&g, START, FINISH), Some(3 * m as u64));
}

#[test]
fn add_edge_rejects_unknown_node() {
    let mut g = Graph::new(2);
    assert_eq!(g.node_count(), 2);
    assert!(!g.add_edge(2, 0, 1));
    assert!(g.adj[0].is_empty() && g.adj[1].is_empty());
    assert!(g.add_edge(1, 0, 1));
    assert_eq!(g.adj[1].len(), 1);
    assert_eq!(g.adj[1][0].to, 0);
    assert_eq!(g.adj[1][0].weight, 1);
}
