use luxembourg_rs::contexts::{DataContext, DataFile};
use luxembourg_rs::models::{Edge, Node, Position};
use luxembourg_rs::utils::hashable_float::integer_decode;
use luxembourg_rs::utils::{Assertion, WindowSize, HF64};
use std::collections::HashMap;

#[test]
fn assertion_is_true_or_false() {
    let holds: Assertion<u8, &str> = Assertion::True(3);
    let fails: Assertion<u8, &str> = Assertion::False("too small");
    assert!(holds.is_true());
    assert!(!holds.is_false());
    assert!(!fails.is_true());
    assert!(fails.is_false());
}

#[test]
fn window_size_keeps_width_and_height() {
    let size = WindowSize::new(1366, 900);
    assert_eq!(size.width, 1366);
    assert_eq!(size.height, 900);
    assert_eq!(size, WindowSize { width: 1366, height: 900 });
    assert_ne!(size, WindowSize::new(900, 1366));
}

#[test]
fn integer_decode_of_one() {
    assert_eq!(integer_decode(1.0f64.to_bits()), (1 << 52, -52, 1));
}

#[test]
fn integer_decode_of_some_numbers() {
    assert_eq!(integer_decode(2.0f64.to_bits()), (1 << 52, -51, 1));
    assert_eq!(integer_decode(0.5f64.to_bits()), (1 << 52, -53, 1));
    assert_eq!(integer_decode((-2.5f64).to_bits()), (5 << 50, -51, -1));
    assert_eq!(integer_decode(3.0f64.to_bits()), (3 << 51, -51, 1));
    assert_eq!(integer_decode(f64::MAX.to_bits()), ((1 << 53) - 1, 971, 1));
    assert_eq!(integer_decode(49.63454f64.to_bits()).2, 1);
}

#[test]
fn integer_decode_of_zero_and_subnormals() {
    assert_eq!(integer_decode(0.0f64.to_bits()), (0, -1075, 1));
    assert_eq!(integer_decode((-0.0f64).to_bits()), (0, -1075, -1));
    // the smallest positive number
    assert_eq!(integer_decode(1), (2, -1075, 1));
    assert_eq!(integer_decode(f64::MIN_POSITIVE.to_bits()), (1 << 52, -1074, 1));
}

#[test]
fn integer_decode_of_infinity() {
    assert_eq!(integer_decode(f64::INFINITY.to_bits()), (1 << 52, 972, 1));
    assert_eq!(integer_decode(f64::NEG_INFINITY.to_bits()), (1 << 52, 972, -1));
    assert_eq!(integer_decode(u64::MAX), ((1 << 53) - 1, 972, -1));
}

#[test]
fn decoded_parts_give_the_number_back() {
    for value in [1.0f64, 6.21476, 49.59247, -0.75, 1e-300, 123456789.125] {
        let (mantissa, exponent, sign) = integer_decode(value.to_bits());
        let back = sign as f64 * mantissa as f64 * 2f64.powi(exponent as i32);
        assert_eq!(back, value);
    }
}

#[test]
fn hf64_is_a_key() {
    let a = HF64::new(49.63454f64.to_bits());
    let b = HF64::new(49.63454f64.to_bits());
    let c = HF64::new(49.63455f64.to_bits());
    assert_eq!(a, b);
    assert_ne!(a, c);
    assert_eq!(a.0, integer_decode(49.63454f64.to_bits()));
    let mut cache = HashMap::new();
    cache.insert((a, c), 1);
    assert_eq!(cache.get(&(b, c)), Some(&1));
    assert_eq!(cache.get(&(c, b)), None);
}

#[test]
fn data_files_switch_back_and_forth() {
    assert_eq!(DataFile::Map2.name(), "map2.xml");
    assert_eq!(DataFile::Test.name(), "test.xml");
    assert_eq!(DataFile::Map2.other(), DataFile::Test);
    assert_eq!(DataFile::Test.other(), DataFile::Map2);
    let mut context = DataContext::default();
    assert_eq!(context.data_name(), "map2.xml");
    context.switch_data_file();
    assert_eq!(context.data_name(), "test.xml");
    assert_eq!(context.data_file, DataFile::Test);
    context.switch_data_file();
    assert_eq!(context.data_name(), "map2.xml");
}

#[test]
fn first_load_is_true_once() {
    let mut context = DataContext::empty();
    assert!(context.first_load());
    assert!(!context.first_load());
    assert!(!context.first_load());
}

#[test]
fn data_context_has_data_with_nodes_and_edges() {
    let a = Node::new(1, Position::new(0, 0));
    let b = Node::new(2, Position::new(1, 0));
    let mut context = DataContext::empty();
    assert!(!context.has_data());
    assert!(context.nodes.is_empty() && context.edges.is_empty() && context.neighbors.is_empty());
    context.start_loading();
    assert!(context.nodes_loading && context.edges_loading);
    context.receive_nodes(vec![a, b]);
    assert!(!context.nodes_loading && context.edges_loading);
    assert!(!context.has_data());
    context.receive_edges(vec![Edge::new(a, b, 5)]);
    assert!(!context.edges_loading);
    assert!(context.has_data());
    let mut neighbors = HashMap::new();
    neighbors.insert(1, vec![Edge::new(a, b, 5)]);
    context.receive_neighbors(neighbors);
    assert_eq!(context.neighbors[&1].len(), 1);

    let context = DataContext::new(vec![a], Vec::new(), HashMap::new());
    assert!(!context.has_data());
    assert_eq!(context.nodes.len(), 1);
}
