//! Reading a map file: where in a document the nodes and the arcs of a map
//! stand, and what they say of themselves.
//!
//! A document is a list of its elements in the order in which they begin,
//! each with its name, its attributes and the place of the element that
//! holds it. The map is the first element named `map`; its nodes are the
//! `node` elements in its first `nodes` element, its arcs the `arc` elements
//! in its first `arcs` element.

use vstd::prelude::*;

verus! {

/// An element of a document.
pub struct Element {
    pub name: String,
    /// The attributes as pairs of name and value, in their order.
    pub attributes: Vec<(String, String)>,
    /// The place in the document of the element that holds this one.
    pub parent: Option<usize>,
}

/// What a `node` element says of itself, as it is written.
pub struct NodeTexts {
    pub id: String,
    pub latitude: String,
    pub longitude: String,
}

/// What an `arc` element says of itself, as it is written.
pub struct ArcTexts {
    pub from: String,
    pub to: String,
    pub length: String,
}

/// The nodes and the arcs of a map file, as they are written.
pub struct MapTexts {
    pub nodes: Vec<NodeTexts>,
    pub arcs: Vec<ArcTexts>,
}

/// The attributes that the elements of a map must have.
#[derive(Clone, Copy, Debug, PartialEq, Eq, Structural)]
pub enum MapAttribute {
    Id,
    Latitude,
    Longitude,
    From,
    To,
    Length,
}

/// Why a document is no map file.
#[derive(Clone, Copy, Debug, PartialEq, Eq, Structural)]
pub enum MapFileError {
    /// No element is named `map`.
    NoMap,
    /// The map holds no element named `nodes`.
    NoNodes,
    /// The map holds no element named `arcs`.
    NoArcs,
    /// The element at the place `element` lacks the attribute `attribute`.
    NoAttribute { element: usize, attribute: MapAttribute },
}

/// The texts of a node as sequences of characters.
pub struct NodeTextsView {
    pub id: Seq<char>,
    pub latitude: Seq<char>,
    pub longitude: Seq<char>,
}

/// The texts of an arc as sequences of characters.
pub struct ArcTextsView {
    pub from: Seq<char>,
    pub to: Seq<char>,
    pub length: Seq<char>,
}

/// The texts of a map as sequences of characters.
pub struct MapTextsView {
    pub nodes: Seq<NodeTextsView>,
    pub arcs: Seq<ArcTextsView>,
}

impl View for NodeTexts {
    type V = NodeTextsView;

    open spec fn view(&self) -> NodeTextsView {
        NodeTextsView { id: self.id@, latitude: self.latitude@, longitude: self.longitude@ }
    }
}

impl View for ArcTexts {
    type V = ArcTextsView;

    open spec fn view(&self) -> ArcTextsView {
        ArcTextsView { from: self.from@, to: self.to@, length: self.length@ }
    }
}

impl View for MapTexts {
    type V = MapTextsView;

    open spec fn view(&self) -> MapTextsView {
        MapTextsView {
            nodes: node_views(self.nodes@),
            arcs: arc_views(self.arcs@),
        }
    }
}

/// The name of an attribute as it is written.
pub open spec fn attribute_name(attribute: MapAttribute) -> Seq<char> {
    match attribute {
        MapAttribute::Id => "id"@,
        MapAttribute::Latitude => "latitude"@,
        MapAttribute::Longitude => "longitude"@,
        MapAttribute::From => "from"@,
        MapAttribute::To => "to"@,
        MapAttribute::Length => "length"@,
    }
}

/// The value of the first of `attributes` that has the name `name`.
pub open spec fn value_of(attributes: Seq<(String, String)>, name: Seq<char>) -> Option<Seq<char>>
    decreases attributes.len(),
{
    if attributes.len() == 0 {
        None
    } else if attributes[0].0@ == name {
        Some(attributes[0].1@)
    } else {
        value_of(attributes.drop_first(), name)
    }
}

/// `element` has the name `name` and, where `parent` is given, is held by
/// the element at that place.
pub open spec fn fits(element: Element, parent: Option<usize>, name: Seq<char>) -> bool {
    element.name@ == name && (parent is Some ==> element.parent == parent)
}

/// The place of the first element at or after `from` that fits.
pub open spec fn first_from(
    document: Seq<Element>,
    parent: Option<usize>,
    name: Seq<char>,
    from: int,
) -> Option<usize>
    decreases document.len() - from,
{
    if from < 0 || from >= document.len() {
        None
    } else if fits(document[from], parent, name) {
        Some(from as usize)
    } else {
        first_from(document, parent, name, from + 1)
    }
}

/// The place of the first element of the document that fits.
pub open spec fn first_fit(
    document: Seq<Element>,
    parent: Option<usize>,
    name: Seq<char>,
) -> Option<usize> {
    first_from(document, parent, name, 0)
}

/// What the `node` element at `place` says of itself, or which attribute
/// it lacks: the first of id, latitude and longitude.
pub open spec fn node_texts(element: Element, place: usize) -> Result<NodeTextsView, MapFileError> {
    let id = value_of(element.attributes@, "id"@);
    let latitude = value_of(element.attributes@, "latitude"@);
    let longitude = value_of(element.attributes@, "longitude"@);
    if id is None {
        Err(MapFileError::NoAttribute { element: place, attribute: MapAttribute::Id })
    } else if latitude is None {
        Err(MapFileError::NoAttribute { element: place, attribute: MapAttribute::Latitude })
    } else if longitude is None {
        Err(MapFileError::NoAttribute { element: place, attribute: MapAttribute::Longitude })
    } else {
        Ok(NodeTextsView { id: id->0, latitude: latitude->0, longitude: longitude->0 })
    }
}

/// What the `arc` element at `place` says of itself, or which attribute it
/// lacks: the first of from, to and length.
pub open spec fn arc_texts(element: Element, place: usize) -> Result<ArcTextsView, MapFileError> {
    let from = value_of(element.attributes@, "from"@);
    let to = value_of(element.attributes@, "to"@);
    let length = value_of(element.attributes@, "length"@);
    if from is None {
        Err(MapFileError::NoAttribute { element: place, attribute: MapAttribute::From })
    } else if to is None {
        Err(MapFileError::NoAttribute { element: place, attribute: MapAttribute::To })
    } else if length is None {
        Err(MapFileError::NoAttribute { element: place, attribute: MapAttribute::Length })
    } else {
        Ok(ArcTextsView { from: from->0, to: to->0, length: length->0 })
    }
}

/// The texts of the `node` elements held by the element at `parent`, among
/// the first `count` elements of the document and in their order, or the
/// first failure to read one of them.
pub open spec fn nodes_in(document: Seq<Element>, parent: usize, count: int) -> Result<
    Seq<NodeTextsView>,
    MapFileError,
>
    decreases count,
{
    if count <= 0 {
        Ok(Seq::<NodeTextsView>::empty())
    } else {
        match nodes_in(document, parent, count - 1) {
            Err(error) => Err(error),
            Ok(texts) => if !fits(document[count - 1], Some(parent), "node"@) {
                Ok(texts)
            } else {
                match node_texts(document[count - 1], (count - 1) as usize) {
                    Err(error) => Err(error),
                    Ok(text) => Ok(texts.push(text)),
                }
            },
        }
    }
}

/// The texts of the `arc` elements held by the element at `parent`, among
/// the first `count` elements of the document and in their order, or the
/// first failure to read one of them.
pub open spec fn arcs_in(document: Seq<Element>, parent: usize, count: int) -> Result<
    Seq<ArcTextsView>,
    MapFileError,
>
    decreases count,
{
    if count <= 0 {
        Ok(Seq::<ArcTextsView>::empty())
    } else {
        match arcs_in(document, parent, count - 1) {
            Err(error) => Err(error),
            Ok(texts) => if !fits(document[count - 1], Some(parent), "arc"@) {
                Ok(texts)
            } else {
                match arc_texts(document[count - 1], (count - 1) as usize) {
                    Err(error) => Err(error),
                    Ok(text) => Ok(texts.push(text)),
                }
            },
        }
    }
}

/// What a document holds as a map file: the texts of its nodes and arcs,
/// or why it is none. A missing element is found before a missing
/// attribute, and a missing attribute of a node before one of an arc.
pub open spec fn map_of(document: Seq<Element>) -> Result<MapTextsView, MapFileError> {
    match first_fit(document, None, "map"@) {
        None => Err(MapFileError::NoMap),
        Some(map) => match first_fit(document, Some(map), "nodes"@) {
            None => Err(MapFileError::NoNodes),
            Some(nodes) => match first_fit(document, Some(map), "arcs"@) {
                None => Err(MapFileError::NoArcs),
                Some(arcs) => match nodes_in(document, nodes, document.len() as int) {
                    Err(error) => Err(error),
                    Ok(node_texts) => match arcs_in(document, arcs, document.len() as int) {
                        Err(error) => Err(error),
                        Ok(arc_texts) => Ok(MapTextsView { nodes: node_texts, arcs: arc_texts }),
                    },
                },
            },
        },
    }
}

/// What was read, with the texts as sequences of characters.
pub open spec fn read_view(read: Result<MapTexts, MapFileError>) -> Result<
    MapTextsView,
    MapFileError,
> {
    match read {
        Ok(texts) => Ok(texts@),
        Err(error) => Err(error),
    }
}

/// The value of the first attribute of `element` that has the name `name`.
pub fn attribute<'a>(element: &'a Element, name: &String) -> (value: Option<&'a String>)
    ensures
        match value {
            Some(text) => value_of(element.attributes@, name@) == Some(text@),
            None => value_of(element.attributes@, name@) is None,
        },
{
    let mut i: usize = 0;
    assert(element.attributes@.skip(0) == element.attributes@);
    while i < element.attributes.len()
        invariant
            i <= element.attributes.len(),
            value_of(element.attributes@, name@) == value_of(
                element.attributes@.skip(i as int),
                name@,
            ),
        decreases element.attributes.len() - i,
    {
        proof {
            let rest = element.attributes@.skip(i as int);
            assert(rest[0] == element.attributes@[i as int]);
            assert(rest.drop_first() == element.attributes@.skip(i + 1));
        }
        if element.attributes[i].0 == *name {
            return Some(&element.attributes[i].1);
        }
        i += 1;
    }
    None
}

/// The place of the first element of `document` that has the name `name`
/// and, where `parent` is given, is held by the element at that place.
pub fn find_element(document: &Vec<Element>, parent: Option<usize>, name: &String) -> (place:
    Option<usize>)
    ensures
        place == first_fit(document@, parent, name@),
        place matches Some(i) ==> i < document@.len(),
{
    let mut i: usize = 0;
    while i < document.len()
        invariant
            i <= document.len(),
            first_fit(document@, parent, name@) == first_from(document@, parent, name@, i as int),
        decreases document.len() - i,
    {
        let held = match parent {
            Some(place) => match document[i].parent {
                Some(holder) => holder == place,
                None => false,
            },
            None => true,
        };
        if held && document[i].name == *name {
            return Some(i);
        }
        i += 1;
    }
    None
}

/// The texts of nodes as sequences of characters.
pub open spec fn node_views(nodes: Seq<NodeTexts>) -> Seq<NodeTextsView> {
    Seq::new(nodes.len(), |i: int| nodes[i]@)
}

/// The texts of arcs as sequences of characters.
pub open spec fn arc_views(arcs: Seq<ArcTexts>) -> Seq<ArcTextsView> {
    Seq::new(arcs.len(), |i: int| arcs[i]@)
}

/// A failure to read a node is the failure to read the nodes.
proof fn lemma_nodes_in_fails(document: Seq<Element>, parent: usize, count: int, later: int)
    requires
        nodes_in(document, parent, count) is Err,
        count <= later,
    ensures
        nodes_in(document, parent, later) == nodes_in(document, parent, count),
    decreases later - count,
{
    if count < later {
        lemma_nodes_in_fails(document, parent, count, later - 1);
    }
}

/// A failure to read an arc is the failure to read the arcs.
proof fn lemma_arcs_in_fails(document: Seq<Element>, parent: usize, count: int, later: int)
    requires
        arcs_in(document, parent, count) is Err,
        count <= later,
    ensures
        arcs_in(document, parent, later) == arcs_in(document, parent, count),
    decreases later - count,
{
    if count < later {
        lemma_arcs_in_fails(document, parent, count, later - 1);
    }
}

/// Reads what the `node` element at `place` says of itself.
fn read_node(element: &Element, place: usize) -> (read: Result<NodeTexts, MapFileError>)
    ensures
        match read {
            Ok(texts) => node_texts(*element, place) == Ok::<NodeTextsView, MapFileError>(texts@),
            Err(error) => node_texts(*element, place) == Err::<NodeTextsView, MapFileError>(error),
        },
{
    let id = match attribute(element, &"id".to_owned()) {
        Some(id) => id.clone(),
        None => {
            return Err(MapFileError::NoAttribute { element: place, attribute: MapAttribute::Id });
        },
    };
    let latitude = match attribute(element, &"latitude".to_owned()) {
        Some(latitude) => latitude.clone(),
        None => {
            return Err(
                MapFileError::NoAttribute { element: place, attribute: MapAttribute::Latitude },
            );
        },
    };
    let longitude = match attribute(element, &"longitude".to_owned()) {
        Some(longitude) => longitude.clone(),
        None => {
            return Err(
                MapFileError::NoAttribute { element: place, attribute: MapAttribute::Longitude },
            );
        },
    };
    Ok(NodeTexts { id, latitude, longitude })
}

/// Reads what the `arc` element at `place` says of itself.
fn read_arc(element: &Element, place: usize) -> (read: Result<ArcTexts, MapFileError>)
    ensures
        match read {
            Ok(texts) => arc_texts(*element, place) == Ok::<ArcTextsView, MapFileError>(texts@),
            Err(error) => arc_texts(*element, place) == Err::<ArcTextsView, MapFileError>(error),
        },
{
    let from = match attribute(element, &"from".to_owned()) {
        Some(from) => from.clone(),
        None => {
            return Err(MapFileError::NoAttribute { element: place, attribute: MapAttribute::From });
        },
    };
    let to = match attribute(element, &"to".to_owned()) {
        Some(to) => to.clone(),
        None => {
            return Err(MapFileError::NoAttribute { element: place, attribute: MapAttribute::To });
        },
    };
    let length = match attribute(element, &"length".to_owned()) {
        Some(length) => length.clone(),
        None => {
            return Err(
                MapFileError::NoAttribute { element: place, attribute: MapAttribute::Length },
            );
        },
    };
    Ok(ArcTexts { from, to, length })
}

/// Whether `element` has the name `name` and is held by the element at
/// `parent`.
fn is_child(element: &Element, parent: usize, name: &String) -> (is: bool)
    ensures
        is == fits(*element, Some(parent), name@),
{
    let held = match element.parent {
        Some(holder) => holder == parent,
        None => false,
    };
    held && element.name == *name
}

/// Reads the `node` elements held by the element at `parent`.
fn read_nodes(document: &Vec<Element>, parent: usize) -> (read: Result<
    Vec<NodeTexts>,
    MapFileError,
>)
    ensures
        match read {
            Ok(nodes) => nodes_in(document@, parent, document@.len() as int) == Ok::<
                Seq<NodeTextsView>,
                MapFileError,
            >(node_views(nodes@)),
            Err(error) => nodes_in(document@, parent, document@.len() as int) == Err::<
                Seq<NodeTextsView>,
                MapFileError,
            >(error),
        },
{
    let node_name = "node".to_owned();
    let mut nodes: Vec<NodeTexts> = Vec::new();
    let mut i: usize = 0;
    assert(node_views(nodes@) =~= Seq::<NodeTextsView>::empty());
    while i < document.len()
        invariant
            i <= document.len(),
            node_name@ == "node"@,
            nodes_in(document@, parent, i as int) == Ok::<Seq<NodeTextsView>, MapFileError>(
                node_views(nodes@),
            ),
        decreases document.len() - i,
    {
        if is_child(&document[i], parent, &node_name) {
            match read_node(&document[i], i) {
                Ok(texts) => {
                    let ghost before = node_views(nodes@);
                    let ghost text = texts@;
                    nodes.push(texts);
                    assert(node_views(nodes@) =~= before.push(text));
                },
                Err(error) => {
                    proof {
                        lemma_nodes_in_fails(document@, parent, i + 1, document@.len() as int);
                    }
                    return Err(error);
                },
            }
        }
        i += 1;
    }
    Ok(nodes)
}

/// Reads the `arc` elements held by the element at `parent`.
fn read_arcs(document: &Vec<Element>, parent: usize) -> (read: Result<Vec<ArcTexts>, MapFileError>)
    ensures
        match read {
            Ok(arcs) => arcs_in(document@, parent, document@.len() as int) == Ok::<
                Seq<ArcTextsView>,
                MapFileError,
            >(arc_views(arcs@)),
            Err(error) => arcs_in(document@, parent, document@.len() as int) == Err::<
                Seq<ArcTextsView>,
                MapFileError,
            >(error),
        },
{
    let arc_name = "arc".to_owned();
    let mut arcs: Vec<ArcTexts> = Vec::new();
    let mut i: usize = 0;
    assert(arc_views(arcs@) =~= Seq::<ArcTextsView>::empty());
    while i < document.len()
        invariant
            i <= document.len(),
            arc_name@ == "arc"@,
            arcs_in(document@, parent, i as int) == Ok::<Seq<ArcTextsView>, MapFileError>(
                arc_views(arcs@),
            ),
        decreases document.len() - i,
    {
        if is_child(&document[i], parent, &arc_name) {
            match read_arc(&document[i], i) {
                Ok(texts) => {
                    let ghost before = arc_views(arcs@);
                    let ghost text = texts@;
                    arcs.push(texts);
                    assert(arc_views(arcs@) =~= before.push(text));
                },
                Err(error) => {
                    proof {
                        lemma_arcs_in_fails(document@, parent, i + 1, document@.len() as int);
                    }
                    return Err(error);
                },
            }
        }
        i += 1;
    }
    Ok(arcs)
}

/// Reads the nodes and the arcs of a map out of a document.
pub fn read_map(document: &Vec<Element>) -> (read: Result<MapTexts, MapFileError>)
    ensures
        read_view(read) == map_of(document@),
{
    let map = match find_element(document, None, &"map".to_owned()) {
        Some(map) => map,
        None => {
            return Err(MapFileError::NoMap);
        },
    };
    let nodes_elem = match find_element(document, Some(map), &"nodes".to_owned()) {
        Some(nodes_elem) => nodes_elem,
        None => {
            return Err(MapFileError::NoNodes);
        },
    };
    let arcs_elem = match find_element(document, Some(map), &"arcs".to_owned()) {
        Some(arcs_elem) => arcs_elem,
        None => {
            return Err(MapFileError::NoArcs);
        },
    };
    let nodes = match read_nodes(document, nodes_elem) {
        Ok(nodes) => nodes,
        Err(error) => {
            return Err(error);
        },
    };
    let arcs = match read_arcs(document, arcs_elem) {
        Ok(arcs) => arcs,
        Err(error) => {
            return Err(error);
        },
    };
    Ok(MapTexts { nodes, arcs })
}

} // verus!
