use luxembourg_rs::contexts::pathfinding::run_pathfinding_algorithm;
use luxembourg_rs::contexts::AlgorithmType;
use luxembourg_rs::map_file::{
    attribute, find_element, read_map, Element, MapAttribute, MapFileError,
};
use luxembourg_rs::models::{Edge, Node, Position};
use luxembourg_rs::parser::{
    find_node, group_edges, link_edges, place_nodes, ArcRecord, GraphError, NodeRecord,
};

fn crossing(id: u32) -> Node {
    Node::new(id, Position::new(id as i32, 2 * id as i32))
}

fn record(name: &str, x: i32) -> NodeRecord {
    NodeRecord { name: name.to_string(), position: Position::new(x, 2 * x) }
}

fn arc(from: &str, to: &str, length: u32) -> ArcRecord {
    ArcRecord { from: from.to_string(), to: to.to_string(), length }
}

fn element(name: &str, attributes: &[(&str, &str)], parent: Option<usize>) -> Element {
    Element {
        name: name.to_string(),
        attributes: attributes
            .iter()
            .map(|(name, value)| (name.to_string(), value.to_string()))
            .collect(),
        parent,
    }
}

/// <map><nodes><node/><node/></nodes><arcs><arc/></arcs></map>
fn small_map() -> Vec<Element> {
    vec![
        element("map", &[("description", "two crossings")], None),
        element("nodes", &[], Some(0)),
        element("node", &[("id", "a"), ("longitude", "621476"), ("latitude", "4963454")], Some(1)),
        element("node", &[("id", "b"), ("longitude", "614350"), ("latitude", "4959493")], Some(1)),
        element("arcs", &[], Some(0)),
        element("arc", &[("from", "a"), ("to", "b"), ("length", "117")], Some(4)),
    ]
}

#[test]
fn attribute_takes_the_first_with_the_name() {
    let node = element("node", &[("id", "7"), ("latitude", "1"), ("id", "8")], None);
    assert_eq!(attribute(&node, &"id".to_string()), Some(&"7".to_string()));
    assert_eq!(attribute(&node, &"latitude".to_string()), Some(&"1".to_string()));
    assert_eq!(attribute(&node, &"longitude".to_string()), None);
    assert_eq!(attribute(&element("node", &[], None), &"id".to_string()), None);
}

#[test]
fn find_element_goes_by_name_and_parent() {
    let document = small_map();
    assert_eq!(find_element(&document, None, &"map".to_string()), Some(0));
    assert_eq!(find_element(&document, None, &"node".to_string()), Some(2));
    assert_eq!(find_element(&document, Some(0), &"arcs".to_string()), Some(4));
    assert_eq!(find_element(&document, Some(1), &"node".to_string()), Some(2));
    assert_eq!(find_element(&document, Some(0), &"node".to_string()), None);
    assert_eq!(find_element(&document, Some(4), &"node".to_string()), None);
    assert_eq!(find_element(&document, None, &"way".to_string()), None);
    assert_eq!(find_element(&Vec::new(), None, &"map".to_string()), None);
}

#[test]
fn read_map_gives_the_texts_of_nodes_and_arcs() {
    let texts = read_map(&small_map()).unwrap();
    assert_eq!(texts.nodes.len(), 2);
    assert_eq!(texts.nodes[0].id, "a");
    assert_eq!(texts.nodes[0].latitude, "4963454");
    assert_eq!(texts.nodes[0].longitude, "621476");
    assert_eq!(texts.nodes[1].id, "b");
    assert_eq!(texts.nodes[1].latitude, "4959493");
    assert_eq!(texts.arcs.len(), 1);
    assert_eq!(texts.arcs[0].from, "a");
    assert_eq!(texts.arcs[0].to, "b");
    assert_eq!(texts.arcs[0].length, "117");
}

#[test]
fn read_map_reads_the_first_map_only() {
    let mut document = vec![element("maps", &[], None), element("nodes", &[], Some(0))];
    let offset = document.len();
    for mut part in small_map() {
        part.parent = Some(part.parent.map_or(0, |place| place + offset));
        document.push(part);
    }
    // a second map, and elements of the right names in the wrong places
    document.push(element("map", &[], Some(0)));
    document.push(element("node", &[("id", "stray")], Some(0)));
    document.push(element("nodes", &[], Some(offset)));
    document.push(element("node", &[("id", "late")], Some(document.len() - 1)));
    document.push(element("way", &[("id", "c")], Some(offset + 1)));
    document.push(element("arc", &[("from", "a")], Some(offset + 1)));
    let texts = read_map(&document).unwrap();
    let ids: Vec<&str> = texts.nodes.iter().map(|node| node.id.as_str()).collect();
    assert_eq!(ids, vec!["a", "b"]);
    assert_eq!(texts.arcs.len(), 1);
}

#[test]
fn read_map_of_an_empty_map() {
    let document = vec![
        element("map", &[], None),
        element("arcs", &[], Some(0)),
        element("nodes", &[], Some(0)),
    ];
    let texts = read_map(&document).unwrap();
    assert!(texts.nodes.is_empty());
    assert!(texts.arcs.is_empty());
}

#[test]
fn read_map_names_what_is_missing() {
    assert!(matches!(read_map(&Vec::new()), Err(MapFileError::NoMap)));
    let document = vec![element("nodes", &[], None), element("arcs", &[], None)];
    assert!(matches!(read_map(&document), Err(MapFileError::NoMap)));
    let document = vec![element("map", &[], None), element("arcs", &[], Some(0))];
    assert!(matches!(read_map(&document), Err(MapFileError::NoNodes)));
    let document = vec![
        element("map", &[], None),
        element("group", &[], Some(0)),
        element("nodes", &[], Some(1)),
        element("arcs", &[], Some(0)),
    ];
    assert!(matches!(read_map(&document), Err(MapFileError::NoNodes)));
    let document = vec![element("map", &[], None), element("nodes", &[], Some(0))];
    assert!(matches!(read_map(&document), Err(MapFileError::NoArcs)));
}

#[test]
fn read_map_names_the_first_missing_attribute() {
    let missing = |at: usize, attributes: &[(&str, &str)]| {
        let mut document = small_map();
        document[at] = element(&document[at].name.clone(), attributes, document[at].parent);
        match read_map(&document) {
            Err(error) => error,
            Ok(_) => panic!("an attribute is missing"),
        }
    };
    assert_eq!(
        missing(3, &[("longitude", "1"), ("latitude", "2")]),
        MapFileError::NoAttribute { element: 3, attribute: MapAttribute::Id }
    );
    assert_eq!(
        missing(2, &[("id", "a")]),
        MapFileError::NoAttribute { element: 2, attribute: MapAttribute::Latitude }
    );
    assert_eq!(
        missing(2, &[("id", "a"), ("latitude", "2")]),
        MapFileError::NoAttribute { element: 2, attribute: MapAttribute::Longitude }
    );
    assert_eq!(
        missing(5, &[("to", "b"), ("length", "1")]),
        MapFileError::NoAttribute { element: 5, attribute: MapAttribute::From }
    );
    assert_eq!(
        missing(5, &[("from", "a"), ("length", "1")]),
        MapFileError::NoAttribute { element: 5, attribute: MapAttribute::To }
    );
    assert_eq!(
        missing(5, &[("from", "a"), ("to", "b")]),
        MapFileError::NoAttribute { element: 5, attribute: MapAttribute::Length }
    );
    // a node is read before an arc
    let mut document = small_map();
    document[5] = element("arc", &[], Some(4));
    document[3] = element("node", &[("id", "b")], Some(1));
    assert_eq!(
        read_map(&document).err(),
        Some(MapFileError::NoAttribute { element: 3, attribute: MapAttribute::Latitude })
    );
}

#[test]
fn find_node_takes_the_first_with_the_name() {
    let records = vec![record("a", 4), record("b", 1), record("b", 2)];
    assert_eq!(find_node(&records, &"a".to_string()), Some(0));
    assert_eq!(find_node(&records, &"b".to_string()), Some(1));
    assert_eq!(find_node(&records, &"c".to_string()), None);
    assert_eq!(find_node(&Vec::new(), &"a".to_string()), None);
}

#[test]
fn place_nodes_numbers_the_nodes() {
    let records = vec![record("a", 4), record("b", 1), record("b", 2)];
    let nodes = place_nodes(&records).unwrap();
    assert_eq!(nodes.len(), 3);
    for (place, node) in nodes.iter().enumerate() {
        assert_eq!(node.id, place as u32);
        assert_eq!(node.position, records[place].position);
    }
    assert!(place_nodes(&Vec::new()).unwrap().is_empty());
}

#[test]
fn link_edges_joins_arcs_to_nodes() {
    let records = vec![record("a", 1), record("b", 2), record("c", 3), record("b", 9)];
    let arcs = vec![arc("a", "b", 10), arc("c", "a", 20), arc("b", "b", 0)];
    let edges = link_edges(&records, &arcs).unwrap();
    assert_eq!(edges.len(), 3);
    assert_eq!(edges[0].from.id, 0);
    assert_eq!(edges[0].to.id, 1);
    assert_eq!(edges[0].length, 10);
    assert_eq!(edges[0].to.position, Position::new(2, 4));
    assert_eq!(edges[1].from.position, Position::new(3, 6));
    assert_eq!(edges[1].from.id, 2);
    assert_eq!(edges[1].to.id, 0);
    assert_eq!(edges[1].length, 20);
    assert_eq!(edges[2].from.id, 1);
    assert_eq!(edges[2].to.id, 1);
    assert!(link_edges(&records, &Vec::new()).unwrap().is_empty());
}

#[test]
fn link_edges_names_the_first_unknown_node() {
    let records = vec![record("a", 1), record("b", 2)];
    let arcs = vec![arc("a", "b", 10), arc("a", "x", 1), arc("y", "z", 1)];
    assert_eq!(link_edges(&records, &arcs), Err(GraphError::UnknownTarget { arc: 1 }));
    let arcs = vec![arc("y", "z", 1)];
    assert_eq!(link_edges(&records, &arcs), Err(GraphError::UnknownOrigin { arc: 0 }));
    let arcs = vec![arc("a", "a", 1), arc("b", "a", 1), arc("b", "z", 1), arc("y", "a", 1)];
    assert_eq!(link_edges(&records, &arcs), Err(GraphError::UnknownTarget { arc: 2 }));
    assert!(matches!(
        link_edges(&Vec::new(), &vec![arc("a", "b", 3)]),
        Err(GraphError::UnknownOrigin { arc: 0 })
    ));
}

#[test]
fn group_edges_lists_each_nodes_edges_in_order() {
    let edges = vec![
        Edge::new(crossing(1), crossing(2), 10),
        Edge::new(crossing(2), crossing(3), 20),
        Edge::new(crossing(1), crossing(3), 30),
        Edge::new(crossing(1), crossing(2), 40),
    ];
    let neighbors = group_edges(&edges);
    assert_eq!(neighbors.len(), 2);
    let of_one: Vec<u32> = neighbors[&1].iter().map(|edge| edge.length).collect();
    assert_eq!(of_one, vec![10, 30, 40]);
    let of_two: Vec<u32> = neighbors[&2].iter().map(|edge| edge.length).collect();
    assert_eq!(of_two, vec![20]);
    assert!(!neighbors.contains_key(&3));
    assert!(group_edges(&Vec::new()).is_empty());
}

#[test]
fn a_linked_and_grouped_map_can_be_searched() {
    let records = vec![record("a", 1), record("b", 2), record("c", 3), record("d", 4)];
    let arcs = vec![
        arc("a", "b", 1),
        arc("b", "a", 1),
        arc("b", "c", 1),
        arc("c", "b", 1),
        arc("a", "c", 3),
        arc("c", "a", 3),
        arc("c", "d", 1),
        arc("d", "c", 1),
    ];
    let nodes = place_nodes(&records).unwrap();
    let edges = link_edges(&records, &arcs).unwrap();
    let neighbors = group_edges(&edges);
    let out = run_pathfinding_algorithm(
        &nodes[0],
        &nodes[3],
        &neighbors,
        false,
        AlgorithmType::Dijkstra,
        10,
        true,
    )
    .unwrap();
    assert_eq!(out.total_cost, 3);
    assert_eq!(out.selected_edges.len(), 3);
}
