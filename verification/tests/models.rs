use luxembourg_rs::models::edge::pack_key;
use luxembourg_rs::models::{Edge, Node, Position};
use luxembourg_rs::utils::{euclidean_distance, manhattan_distance};

#[test]
fn nodes_are_equal_by_id() {
    let here = Node::new(7, Position::new(1, 2));
    let drifted = Node::new(7, Position::new(100, -2));
    let other = Node::new(8, Position::new(1, 2));
    assert!(here == drifted);
    assert!(here != other);
    assert_eq!(here.id, 7);
    assert_eq!(here.position, Position::new(1, 2));
}

#[test]
fn edges_are_equal_by_endpoints() {
    let a = Node::new(1, Position::new(0, 0));
    let b = Node::new(2, Position::new(5, 5));
    let graph_edge = Edge::new(a, b, 17);
    let path_edge = Edge::new(a, b, 0);
    let back = Edge::new(b, a, 17);
    assert!(graph_edge == path_edge);
    assert!(graph_edge != back);
    assert_eq!(graph_edge.key(), path_edge.key());
    assert_ne!(graph_edge.key(), back.key());
    assert_eq!(graph_edge.length, 17);
}

#[test]
fn edge_key_holds_both_endpoints() {
    assert_eq!(pack_key(0, 0), 0);
    assert_eq!(pack_key(0, 1), 1);
    assert_eq!(pack_key(1, 0), 1 << 32);
    assert_eq!(pack_key(3, 5), (3 << 32) + 5);
    assert_eq!(pack_key(u32::MAX, u32::MAX), u64::MAX);
    assert_eq!(pack_key(u32::MAX, 0), 0xffff_ffff_0000_0000);
    let a = Node::new(3, Position::new(0, 0));
    let b = Node::new(5, Position::new(0, 0));
    assert_eq!(Edge::new(a, b, 9).key(), pack_key(3, 5));
}

#[test]
fn manhattan_distance_adds_the_differences() {
    let a = Position::new(1, 2);
    let b = Position::new(4, -2);
    assert_eq!(manhattan_distance(&a, &b), 7);
    assert_eq!(manhattan_distance(&b, &a), 7);
    assert_eq!(manhattan_distance(&a, &a), 0);
    let low = Position::new(i32::MIN, i32::MIN);
    let high = Position::new(i32::MAX, i32::MAX);
    assert_eq!(manhattan_distance(&low, &high), 2 * u32::MAX as u64);
}

#[test]
fn euclidean_distance_rounds_down() {
    let origin = Position::new(0, 0);
    assert_eq!(euclidean_distance(&origin, &Position::new(3, 4)), 5);
    assert_eq!(euclidean_distance(&Position::new(3, 4), &origin), 5);
    assert_eq!(euclidean_distance(&origin, &Position::new(1, 1)), 1);
    assert_eq!(euclidean_distance(&origin, &Position::new(2, 2)), 2);
    assert_eq!(euclidean_distance(&origin, &Position::new(-5, 0)), 5);
    assert_eq!(euclidean_distance(&origin, &Position::new(0, 0)), 0);
    assert_eq!(euclidean_distance(&origin, &Position::new(1, 0)), 1);
    assert_eq!(euclidean_distance(&origin, &Position::new(7, 7)), 9);
    let low = Position::new(i32::MIN, i32::MIN);
    let high = Position::new(i32::MAX, i32::MAX);
    // (2^32 - 1) * sqrt(2)
    assert_eq!(euclidean_distance(&low, &high), 6_074_000_998);
    assert_eq!(euclidean_distance(&low, &Position::new(i32::MAX, i32::MIN)), u32::MAX as u64);
}

#[test]
fn nodes_are_ordered_by_id() {
    let low = Node::new(3, Position::new(50, 50));
    let high = Node::new(4, Position::new(0, 0));
    let same = Node::new(3, Position::new(-1, 7));
    assert!(low < high);
    assert!(high > low);
    assert!(low <= same && low >= same);
    assert_eq!(low.partial_cmp(&same), Some(std::cmp::Ordering::Equal));
    assert_eq!(low.partial_cmp(&high), Some(std::cmp::Ordering::Less));
    assert_eq!(high.partial_cmp(&low), Some(std::cmp::Ordering::Greater));
}

#[test]
fn edges_are_ordered_by_their_endpoints() {
    let a = Node::new(1, Position::new(0, 0));
    let b = Node::new(2, Position::new(0, 0));
    let c = Node::new(3, Position::new(0, 0));
    assert!(Edge::new(a, c, 1) < Edge::new(b, a, 1));
    assert!(Edge::new(a, b, 9) < Edge::new(a, c, 1));
    assert!(Edge::new(b, a, 0) > Edge::new(a, c, 5));
    assert_eq!(
        Edge::new(a, b, 9).partial_cmp(&Edge::new(a, b, 1)),
        Some(std::cmp::Ordering::Equal)
    );
}
