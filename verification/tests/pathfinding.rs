use luxembourg_rs::contexts::pathfinding::{
    heuristic, priority, run_pathfinding_algorithm, PathError, RunOutput, MULTIPLICITY_BASE,
    WEIGHT_ONE,
};
use luxembourg_rs::contexts::AlgorithmType;
use luxembourg_rs::models::edge::pack_key;
use luxembourg_rs::models::{Edge, Node, Position};
use std::collections::HashMap;

const A: u32 = 1;
const B: u32 = 2;
const C: u32 = 3;
const D: u32 = 4;
const E: u32 = 5;

const ALGORITHMS: [AlgorithmType; 3] =
    [AlgorithmType::AStar, AlgorithmType::HybridAStar, AlgorithmType::Dijkstra];

fn node(id: u32) -> Node {
    // the nodes lie on a line, 10 apart
    Node::new(id, Position::new(10 * id as i32, 0))
}

fn one_way(neighbors: &mut HashMap<u32, Vec<Edge>>, from: Node, to: Node, length: u32) {
    neighbors.entry(from.id).or_default().push(Edge::new(from, to, length));
}

fn road(neighbors: &mut HashMap<u32, Vec<Edge>>, a: u32, b: u32, length: u32) {
    one_way(neighbors, node(a), node(b), length);
    one_way(neighbors, node(b), node(a), length);
}

/// A-B (1), B-C (1), A-C (3), C-D (1), each in both directions.
fn four_nodes() -> HashMap<u32, Vec<Edge>> {
    let mut neighbors = HashMap::new();
    road(&mut neighbors, A, B, 1);
    road(&mut neighbors, B, C, 1);
    road(&mut neighbors, A, C, 3);
    road(&mut neighbors, C, D, 1);
    neighbors
}

fn dijkstra(
    neighbors: &HashMap<u32, Vec<Edge>>,
    from: u32,
    to: u32,
) -> Result<RunOutput, PathError> {
    run_pathfinding_algorithm(
        &node(from),
        &node(to),
        neighbors,
        false,
        AlgorithmType::Dijkstra,
        WEIGHT_ONE,
        true,
    )
}

/// The least cost of a walk between every two nodes, by trying all ways.
fn least_costs(neighbors: &HashMap<u32, Vec<Edge>>, ids: &[u32]) -> HashMap<(u32, u32), u64> {
    let mut best: HashMap<(u32, u32), u64> = HashMap::new();
    for &id in ids {
        best.insert((id, id), 0);
    }
    for _ in 0..ids.len() {
        for (&from, edges) in neighbors {
            for edge in edges {
                for &origin in ids {
                    if let Some(&so_far) = best.get(&(origin, from)) {
                        let through = so_far + edge.length as u64;
                        let known = best.get(&(origin, edge.to.id)).copied();
                        if known.map_or(true, |known| through < known) {
                            best.insert((origin, edge.to.id), through);
                        }
                    }
                }
            }
        }
    }
    best
}

/// Follows the selected edges from `start` as far as they lead, and
/// returns the nodes passed, `start` first.
fn chain(out: &RunOutput, start: u32, ids: &[u32]) -> Vec<u32> {
    let mut nodes = vec![start];
    let mut current = start;
    for _ in 0..out.selected_edges.len() {
        let next: Vec<u32> = ids
            .iter()
            .copied()
            .filter(|&to| out.selected_edges.contains(&pack_key(current, to)))
            .collect();
        assert_eq!(next.len(), 1, "one selected edge leaves each node of the path");
        current = next[0];
        nodes.push(current);
    }
    nodes
}

#[test]
fn dijkstra_takes_the_cheaper_way_round() {
    let neighbors = four_nodes();
    let out = dijkstra(&neighbors, A, D).unwrap();
    assert_eq!(out.total_cost, 3);
    assert_eq!(out.selected_edges.len(), 3);
    assert!(out.selected_edges.contains(&pack_key(A, B)));
    assert!(out.selected_edges.contains(&pack_key(B, C)));
    assert!(out.selected_edges.contains(&pack_key(C, D)));
    assert!(!out.selected_edges.contains(&pack_key(A, C)));
    assert!(out.passed_edges.is_empty());
}

#[test]
fn absent_goal_is_no_path() {
    let neighbors = four_nodes();
    for algorithm in ALGORITHMS {
        let result = run_pathfinding_algorithm(
            &node(A),
            &node(E),
            &neighbors,
            true,
            algorithm,
            WEIGHT_ONE,
            false,
        );
        assert!(matches!(result, Err(PathError::NoPath)));
    }
}

#[test]
fn absent_start_is_missing_neighbors() {
    let neighbors = four_nodes();
    let result = dijkstra(&neighbors, E, A);
    assert!(matches!(result, Err(PathError::MissingNeighbors { node: E })));
}

#[test]
fn node_without_entry_ends_the_search() {
    // A -> B -> C, and B has no entry
    let mut neighbors = HashMap::new();
    one_way(&mut neighbors, node(A), node(B), 1);
    let result = dijkstra(&neighbors, A, C);
    assert!(matches!(result, Err(PathError::MissingNeighbors { node: B })));
}

#[test]
fn goal_needs_no_entry() {
    let mut neighbors = HashMap::new();
    one_way(&mut neighbors, node(A), node(B), 7);
    let out = dijkstra(&neighbors, A, B).unwrap();
    assert_eq!(out.total_cost, 7);
    assert_eq!(out.selected_edges.len(), 1);
    assert!(out.selected_edges.contains(&pack_key(A, B)));
}

#[test]
fn start_is_goal_gives_the_empty_path() {
    let neighbors = four_nodes();
    for algorithm in ALGORITHMS {
        let out = run_pathfinding_algorithm(
            &node(B),
            &node(B),
            &neighbors,
            true,
            algorithm,
            WEIGHT_ONE,
            true,
        )
        .unwrap();
        assert_eq!(out.total_cost, 0);
        assert!(out.selected_edges.is_empty());
        assert!(out.passed_edges.is_empty());
    }
    // not even the start needs an entry then
    let out = dijkstra(&HashMap::new(), A, A).unwrap();
    assert_eq!(out.total_cost, 0);
}

#[test]
fn dijkstra_cost_is_the_least_of_all_ways() {
    let ids = [A, B, C, D, E];
    let mut graphs = vec![four_nodes()];
    // a ring with a shortcut and a dead end
    let mut ring = HashMap::new();
    road(&mut ring, A, B, 4);
    road(&mut ring, B, C, 4);
    road(&mut ring, C, D, 4);
    road(&mut ring, D, A, 4);
    road(&mut ring, A, C, 7);
    road(&mut ring, D, E, 0);
    graphs.push(ring);
    // one-way streets, a loop at a node, two edges between the same nodes
    let mut one_ways = HashMap::new();
    one_way(&mut one_ways, node(A), node(B), 5);
    one_way(&mut one_ways, node(A), node(B), 2);
    one_way(&mut one_ways, node(B), node(B), 0);
    one_way(&mut one_ways, node(B), node(C), 9);
    one_way(&mut one_ways, node(C), node(A), 1);
    one_way(&mut one_ways, node(C), node(D), 3);
    one_way(&mut one_ways, node(D), node(E), 6);
    one_way(&mut one_ways, node(E), node(A), 2);
    graphs.push(one_ways);

    for neighbors in &graphs {
        let best = least_costs(neighbors, &ids);
        for &from in &ids {
            for &to in &ids {
                if !neighbors.contains_key(&from) && from != to {
                    continue;
                }
                match best.get(&(from, to)) {
                    Some(&cost) => {
                        let out = dijkstra(neighbors, from, to).unwrap();
                        assert_eq!(out.total_cost, cost, "from {} to {}", from, to);
                    }
                    None => assert!(dijkstra(neighbors, from, to).is_err()),
                }
            }
        }
    }
}

#[test]
fn hybrid_without_weight_is_dijkstra() {
    let ids = [A, B, C, D];
    let neighbors = four_nodes();
    for &from in &ids {
        for &to in &ids {
            let plain = dijkstra(&neighbors, from, to).unwrap();
            let hybrid = run_pathfinding_algorithm(
                &node(from),
                &node(to),
                &neighbors,
                false,
                AlgorithmType::HybridAStar,
                0,
                true,
            )
            .unwrap();
            assert_eq!(hybrid.total_cost, plain.total_cost);
            assert_eq!(hybrid.selected_edges.len(), plain.selected_edges.len());
        }
    }
    let hybrid = run_pathfinding_algorithm(
        &node(A),
        &node(D),
        &neighbors,
        false,
        AlgorithmType::HybridAStar,
        0,
        false,
    )
    .unwrap();
    assert_eq!(hybrid.selected_edges, dijkstra(&neighbors, A, D).unwrap().selected_edges);
}

#[test]
fn selected_edges_chain_from_start_to_end() {
    let ids = [A, B, C, D];
    let neighbors = four_nodes();
    for algorithm in ALGORITHMS {
        for &from in &ids {
            for &to in &ids {
                let out = run_pathfinding_algorithm(
                    &node(from),
                    &node(to),
                    &neighbors,
                    false,
                    algorithm,
                    WEIGHT_ONE,
                    true,
                )
                .unwrap();
                let nodes = chain(&out, from, &ids);
                assert_eq!(nodes.len(), out.selected_edges.len() + 1);
                assert_eq!(nodes[0], from);
                assert_eq!(*nodes.last().unwrap(), to);
                let mut seen = nodes.clone();
                seen.sort();
                seen.dedup();
                assert_eq!(seen.len(), nodes.len(), "no node comes twice");
            }
        }
    }
}

#[test]
fn unmarked_search_passes_no_edges() {
    let neighbors = four_nodes();
    for algorithm in ALGORITHMS {
        for use_manhattan in [false, true] {
            let out = run_pathfinding_algorithm(
                &node(A),
                &node(D),
                &neighbors,
                false,
                algorithm,
                WEIGHT_ONE,
                use_manhattan,
            )
            .unwrap();
            assert!(out.passed_edges.is_empty());
        }
    }
}

#[test]
fn marked_search_passes_the_edges_of_expanded_nodes() {
    let neighbors = four_nodes();
    let out = run_pathfinding_algorithm(
        &node(A),
        &node(D),
        &neighbors,
        true,
        AlgorithmType::Dijkstra,
        WEIGHT_ONE,
        true,
    )
    .unwrap();
    // A, B and C are expanded before D is taken off the frontier
    let expected = [(A, B), (A, C), (B, A), (B, C), (C, B), (C, A), (C, D)];
    assert_eq!(out.passed_edges.len(), expected.len());
    for (from, to) in expected {
        assert!(out.passed_edges.contains(&pack_key(from, to)));
    }
    assert!(!out.passed_edges.contains(&pack_key(D, C)));
    for key in &out.selected_edges {
        assert!(out.passed_edges.contains(key));
    }
}

#[test]
fn passed_edges_go_by_the_endpoints_an_edge_names() {
    // the edge listed under A names B as its origin
    let mut neighbors = HashMap::new();
    neighbors.insert(A, vec![Edge::new(node(B), node(C), 2)]);
    let out = run_pathfinding_algorithm(
        &node(A),
        &node(C),
        &neighbors,
        true,
        AlgorithmType::Dijkstra,
        WEIGHT_ONE,
        true,
    )
    .unwrap();
    assert_eq!(out.total_cost, 2);
    assert!(out.selected_edges.contains(&pack_key(A, C)));
    assert!(out.passed_edges.contains(&pack_key(B, C)));
    assert_eq!(out.passed_edges.len(), 1);
}

/// S and G lie 10 apart, N half way between them and F far off. The way
/// through F is short, the way through N long.
fn detour() -> (HashMap<u32, Vec<Edge>>, Node, Node) {
    let s = Node::new(1, Position::new(0, 0));
    let g = Node::new(2, Position::new(10, 0));
    let n = Node::new(3, Position::new(5, 0));
    let f = Node::new(4, Position::new(5, 100));
    let mut neighbors = HashMap::new();
    one_way(&mut neighbors, s, n, 100);
    one_way(&mut neighbors, n, g, 100);
    one_way(&mut neighbors, s, f, 1);
    one_way(&mut neighbors, f, g, 1);
    (neighbors, s, g)
}

#[test]
fn a_star_goes_by_the_heuristic_alone() {
    let (neighbors, s, g) = detour();
    let out = run_pathfinding_algorithm(&s, &g, &neighbors, false, AlgorithmType::AStar, 0, true)
        .unwrap();
    assert_eq!(out.total_cost, 200);
    assert!(out.selected_edges.contains(&pack_key(1, 3)));
    assert!(out.selected_edges.contains(&pack_key(3, 2)));
    assert_eq!(out.selected_edges.len(), 2);
}

#[test]
fn dijkstra_goes_by_the_cost_alone() {
    let (neighbors, s, g) = detour();
    let out =
        run_pathfinding_algorithm(&s, &g, &neighbors, false, AlgorithmType::Dijkstra, 20, true)
            .unwrap();
    assert_eq!(out.total_cost, 2);
    assert!(out.selected_edges.contains(&pack_key(1, 4)));
    assert!(out.selected_edges.contains(&pack_key(4, 2)));
}

#[test]
fn hybrid_weighs_cost_against_heuristic() {
    let (neighbors, s, g) = detour();
    // with weight 1.0 the heuristic outweighs the lengths
    let hybrid = AlgorithmType::HybridAStar;
    let out = run_pathfinding_algorithm(&s, &g, &neighbors, false, hybrid, 10, true).unwrap();
    assert_eq!(out.total_cost, 200);
    // without weight the lengths decide
    let out = run_pathfinding_algorithm(&s, &g, &neighbors, false, hybrid, 0, true).unwrap();
    assert_eq!(out.total_cost, 2);
}

#[test]
fn hybrid_with_weight_may_miss_the_cheapest_path() {
    let neighbors = four_nodes();
    let out = run_pathfinding_algorithm(
        &node(A),
        &node(D),
        &neighbors,
        false,
        AlgorithmType::HybridAStar,
        WEIGHT_ONE,
        true,
    )
    .unwrap();
    assert_eq!(out.total_cost, 4);
    assert!(out.selected_edges.contains(&pack_key(A, C)));
    assert!(out.selected_edges.contains(&pack_key(C, D)));
    assert_eq!(out.selected_edges.len(), 2);
}

#[test]
fn a_cheaper_way_found_later_replaces_the_first() {
    // B is reached first over the long edge, then over C
    let mut neighbors = HashMap::new();
    one_way(&mut neighbors, node(A), node(B), 10);
    one_way(&mut neighbors, node(A), node(C), 1);
    one_way(&mut neighbors, node(C), node(B), 1);
    one_way(&mut neighbors, node(B), node(D), 1);
    let out = dijkstra(&neighbors, A, D).unwrap();
    assert_eq!(out.total_cost, 3);
    assert!(out.selected_edges.contains(&pack_key(A, C)));
    assert!(out.selected_edges.contains(&pack_key(C, B)));
    assert!(out.selected_edges.contains(&pack_key(B, D)));
    assert!(!out.selected_edges.contains(&pack_key(A, B)));
}

#[test]
fn longest_edges_do_not_overflow() {
    let mut neighbors = HashMap::new();
    one_way(&mut neighbors, node(A), node(B), u32::MAX);
    one_way(&mut neighbors, node(B), node(C), u32::MAX);
    one_way(&mut neighbors, node(C), node(D), u32::MAX);
    let out = dijkstra(&neighbors, A, D).unwrap();
    assert_eq!(out.total_cost, 3 * u32::MAX as u64);
}

#[test]
fn heuristic_scales_the_distance() {
    let a = Node::new(1, Position::new(0, 0));
    let b = Node::new(2, Position::new(3, 4));
    assert_eq!(MULTIPLICITY_BASE, 13_000);
    assert_eq!(WEIGHT_ONE, 10);
    // without a multiplier the weight is 1.0
    assert_eq!(heuristic(&a, &b, None, true), 91_000);
    assert_eq!(heuristic(&a, &b, None, false), 65_000);
    assert_eq!(heuristic(&a, &b, Some(10), false), 65_000);
    assert_eq!(heuristic(&a, &b, Some(15), false), 97_500);
    assert_eq!(heuristic(&a, &b, Some(5), true), 45_500);
    assert_eq!(heuristic(&a, &b, Some(0), true), 0);
    assert_eq!(heuristic(&b, &a, Some(20), true), 182_000);
    assert_eq!(heuristic(&a, &a, Some(20), true), 0);
}

#[test]
fn heuristic_of_the_farthest_nodes() {
    let a = Node::new(1, Position::new(i32::MIN, i32::MIN));
    let b = Node::new(2, Position::new(i32::MAX, i32::MAX));
    let side = u32::MAX as u128;
    assert_eq!(heuristic(&a, &b, Some(u32::MAX), true), 13_000 * side * (2 * side) / 10);
    // the diagonal of a square of side 2^32 - 1, rounded down
    assert_eq!(heuristic(&a, &b, Some(10), false), 13_000 * 6_074_000_998);
}

#[test]
fn priority_of_each_algorithm() {
    let next = Node::new(1, Position::new(0, 0));
    let end = Node::new(2, Position::new(3, 4));
    assert_eq!(priority(AlgorithmType::Dijkstra, 42, &next, &end, 15, true), 42);
    assert_eq!(priority(AlgorithmType::AStar, 42, &next, &end, 15, true), 91_000);
    assert_eq!(priority(AlgorithmType::AStar, 42, &next, &end, 15, false), 65_000);
    assert_eq!(priority(AlgorithmType::HybridAStar, 42, &next, &end, 15, true), 42 + 136_500);
    assert_eq!(priority(AlgorithmType::HybridAStar, 42, &next, &end, 15, false), 42 + 97_500);
    assert_eq!(priority(AlgorithmType::HybridAStar, 42, &next, &end, 0, false), 42);
    assert_eq!(
        priority(AlgorithmType::HybridAStar, u64::MAX, &next, &end, 10, true),
        u64::MAX as u128 + 91_000
    );
}
