use luxembourg_rs::contexts::pathfinding::PathError;
use luxembourg_rs::contexts::{AlgorithmContext, AlgorithmType};
use luxembourg_rs::models::{Edge, Node, Position};
use luxembourg_rs::selection::{classify_edge, sort_edges, EdgeClass, Selection, SelectionChange};
use std::collections::HashMap;

fn spot(id: u32) -> Node {
    Node::new(id, Position::new(10 * id as i32, 0))
}

fn lane(a: u32, b: u32, length: u32) -> Edge {
    Edge::new(spot(a), spot(b), length)
}

/// 1-2 (1), 2-3 (1), 1-3 (3), 3-4 (1), each in both directions.
fn lanes() -> Vec<Edge> {
    let mut edges = Vec::new();
    for (a, b, length) in [(1, 2, 1), (2, 3, 1), (1, 3, 3), (3, 4, 1)] {
        edges.push(lane(a, b, length));
        edges.push(lane(b, a, length));
    }
    edges
}

fn adjacency(edges: &[Edge]) -> HashMap<u32, Vec<Edge>> {
    let mut neighbors: HashMap<u32, Vec<Edge>> = HashMap::new();
    for edge in edges {
        neighbors.entry(edge.from.id).or_default().push(*edge);
    }
    neighbors
}

fn picked(selection: &Selection) -> (Option<u32>, Option<u32>) {
    (selection.start_node.map(|node| node.id), selection.end_node.map(|node| node.id))
}

#[test]
fn first_click_picks_the_start() {
    let mut selection = Selection::new();
    assert_eq!(picked(&selection), (None, None));
    assert!(!selection.is_start_and_end_set());
    assert_eq!(selection.select_node(spot(1)), SelectionChange::SelectedStart);
    assert_eq!(picked(&selection), (Some(1), None));
    assert!(selection.is_selected(1));
    assert!(!selection.is_selected(2));
    assert!(!selection.is_start_and_end_set());
}

#[test]
fn second_click_picks_the_end() {
    let mut selection = Selection::new();
    selection.select_node(spot(1));
    assert_eq!(selection.select_node(spot(2)), SelectionChange::SelectedEnd);
    assert_eq!(picked(&selection), (Some(1), Some(2)));
    assert!(selection.is_selected(1));
    assert!(selection.is_selected(2));
    assert!(!selection.is_selected(3));
    assert!(selection.is_start_and_end_set());
}

#[test]
fn click_on_an_end_drops_it() {
    let mut selection = Selection::new();
    selection.select_node(spot(1));
    assert_eq!(selection.select_node(spot(1)), SelectionChange::Unselected);
    assert_eq!(picked(&selection), (None, None));

    selection.select_node(spot(1));
    selection.select_node(spot(2));
    assert_eq!(selection.select_node(spot(2)), SelectionChange::Unselected);
    assert_eq!(picked(&selection), (Some(1), None));

    selection.select_node(spot(2));
    assert_eq!(selection.select_node(spot(1)), SelectionChange::Unselected);
    assert_eq!(picked(&selection), (None, Some(2)));
    // the start is picked first even where an end is left
    assert_eq!(selection.select_node(spot(3)), SelectionChange::SelectedStart);
    assert_eq!(picked(&selection), (Some(3), Some(2)));
}

#[test]
fn third_click_starts_anew() {
    let mut selection = Selection::new();
    selection.select_node(spot(1));
    selection.select_node(spot(2));
    selection.is_drawing_path = true;
    assert_eq!(selection.select_node(spot(3)), SelectionChange::SelectedStart);
    assert_eq!(picked(&selection), (Some(3), None));
    assert!(!selection.is_drawing_path);
}

#[test]
fn every_click_hides_the_path() {
    let mut selection = Selection::new();
    for id in [1, 2, 2, 1, 5] {
        selection.is_drawing_path = true;
        selection.select_node(spot(id));
        assert!(!selection.is_drawing_path);
    }
}

#[test]
fn update_path_waits_for_both_ends() {
    let neighbors = adjacency(&lanes());
    let mut context = AlgorithmContext::new();
    let mut selection = Selection::new();
    assert_eq!(selection.update_path(&mut context, &neighbors), None);
    selection.select_node(spot(1));
    assert_eq!(selection.update_path(&mut context, &neighbors), None);
    assert_eq!(context.searches(), 0);
    assert!(!selection.is_drawing_path);
}

#[test]
fn update_path_computes_once() {
    let neighbors = adjacency(&lanes());
    let mut context = AlgorithmContext::new();
    context.algorithm_type = AlgorithmType::Dijkstra;
    let mut selection = Selection::new();
    selection.select_node(spot(1));
    selection.select_node(spot(4));
    assert_eq!(selection.update_path(&mut context, &neighbors), Some(Ok(())));
    assert!(selection.is_drawing_path);
    assert_eq!(context.total_cost, 3);
    assert_eq!(context.searches(), 1);
    assert_eq!(selection.update_path(&mut context, &neighbors), None);
    assert!(selection.is_drawing_path);
    assert_eq!(context.searches(), 1);
    assert_eq!(picked(&selection), (Some(1), Some(4)));
}

#[test]
fn update_path_shows_no_path_where_there_is_none() {
    let neighbors = adjacency(&lanes());
    let mut context = AlgorithmContext::new();
    let mut selection = Selection::new();
    selection.select_node(spot(1));
    selection.select_node(spot(9));
    selection.is_drawing_path = true;
    assert_eq!(selection.update_path(&mut context, &neighbors), Some(Err(PathError::NoPath)));
    assert!(!selection.is_drawing_path);
    assert_eq!(selection.update_path(&mut context, &neighbors), None);
    assert_eq!(context.searches(), 1);
}

#[test]
fn sort_nodes_parts_the_ends_from_the_rest() {
    let nodes = vec![spot(1), spot(2), spot(3), spot(4), spot(2)];
    let mut selection = Selection::new();
    let (ends, rest) = selection.sort_nodes(&nodes);
    assert!(ends.is_empty());
    assert_eq!(rest.len(), 5);
    selection.select_node(spot(2));
    selection.select_node(spot(4));
    let (ends, rest) = selection.sort_nodes(&nodes);
    let ends: Vec<u32> = ends.iter().map(|node| node.id).collect();
    let rest: Vec<u32> = rest.iter().map(|node| node.id).collect();
    assert_eq!(ends, vec![2, 4, 2]);
    assert_eq!(rest, vec![1, 3]);
}

#[test]
fn edges_are_plain_while_no_path_is_drawn() {
    let edges = lanes();
    let neighbors = adjacency(&edges);
    let mut context = AlgorithmContext::new();
    context.algorithm_type = AlgorithmType::Dijkstra;
    context.is_marking_passed_edges = true;
    context.compute_path(&spot(1), &spot(4), &neighbors).unwrap();
    let (selected, passed, plain) = sort_edges(&context, false, &edges);
    assert!(selected.is_empty());
    assert!(passed.is_empty());
    assert_eq!(plain.len(), edges.len());
    assert_eq!(classify_edge(&context, false, &lane(1, 2, 1)), EdgeClass::Plain);
}

#[test]
fn edges_are_sorted_by_what_the_search_did() {
    let edges = lanes();
    let neighbors = adjacency(&edges);
    let mut context = AlgorithmContext::new();
    context.algorithm_type = AlgorithmType::Dijkstra;
    context.is_marking_passed_edges = true;
    context.compute_path(&spot(1), &spot(4), &neighbors).unwrap();

    assert_eq!(classify_edge(&context, true, &lane(1, 2, 1)), EdgeClass::Selected);
    assert_eq!(classify_edge(&context, true, &lane(1, 3, 3)), EdgeClass::Passed);
    assert_eq!(classify_edge(&context, true, &lane(4, 3, 1)), EdgeClass::Plain);

    let ends = |edges: &Vec<Edge>| -> Vec<(u32, u32)> {
        edges.iter().map(|edge| (edge.from.id, edge.to.id)).collect()
    };
    let (selected, passed, plain) = sort_edges(&context, true, &edges);
    assert_eq!(ends(&selected), vec![(1, 2), (2, 3), (3, 4)]);
    assert_eq!(ends(&passed), vec![(2, 1), (3, 2), (1, 3), (3, 1)]);
    assert_eq!(ends(&plain), vec![(4, 3)]);
    assert_eq!(selected.len() + passed.len() + plain.len(), edges.len());

    // passed edges are drawn only while they are marked
    context.is_marking_passed_edges = false;
    let (selected, passed, plain) = sort_edges(&context, true, &edges);
    assert_eq!(selected.len(), 3);
    assert!(passed.is_empty());
    assert_eq!(plain.len(), 5);
}
