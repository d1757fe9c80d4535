//! Building the road network from the records of a map file: nodes with
//! their places as ids, edges from arcs that name their endpoints, and the
//! adjacency mapping from the edges.

use crate::graph::{graph_of, Graph};
use crate::models::edge::Edge;
use crate::models::node::{Node, Position};
use std::collections::HashMap;
use vstd::prelude::*;
use vstd::std_specs::hash::*;

verus! {

/// A node as a map file gives it: its name, and where it lies.
pub struct NodeRecord {
    pub name: String,
    pub position: Position,
}

/// An arc as a map file gives it: the names of its two endpoints and its
/// length.
pub struct ArcRecord {
    pub from: String,
    pub to: String,
    pub length: u32,
}

/// Why a set of records is no road network.
#[derive(Clone, Copy, Debug, PartialEq, Eq, Structural)]
pub enum GraphError {
    /// There are more nodes than there are node ids.
    TooManyNodes,
    /// The arc at the place `arc` leaves a node that no record names.
    UnknownOrigin { arc: usize },
    /// The arc at the place `arc` leads to a node that no record names.
    UnknownTarget { arc: usize },
}

/// The greatest number of nodes that a road network can have.
pub open spec fn max_nodes() -> int {
    0x1_0000_0000
}

/// Some record of `records` has the name `name`.
pub open spec fn has_node(records: Seq<NodeRecord>, name: Seq<char>) -> bool {
    exists|i: int| 0 <= i < records.len() && (#[trigger] records[i]).name@ == name
}

/// `place` is where the first record with the name `name` stands.
pub open spec fn is_first_place(records: Seq<NodeRecord>, name: Seq<char>, place: int) -> bool {
    &&& 0 <= place < records.len()
    &&& records[place].name@ == name
    &&& forall|j: int| 0 <= j < place ==> (#[trigger] records[j]).name@ != name
}

/// The place of the first record of `records` that has the name `name`.
pub open spec fn first_place(records: Seq<NodeRecord>, name: Seq<char>) -> int {
    choose|place: int| is_first_place(records, name, place)
}

/// There is one first place only.
pub proof fn lemma_first_place(records: Seq<NodeRecord>, name: Seq<char>, place: int)
    requires
        is_first_place(records, name, place),
    ensures
        first_place(records, name) == place,
        has_node(records, name),
{
    let chosen = first_place(records, name);
    assert(records[place].name@ == name);
    assert(is_first_place(records, name, chosen));
    if chosen < place {
        assert(records[chosen].name@ != name);
    } else if place < chosen {
        assert(records[place].name@ != name);
    }
}

/// The node that the record at `place` stands for: its id is its place.
pub open spec fn node_at(records: Seq<NodeRecord>, place: int) -> Node {
    Node { id: place as u32, position: records[place].position }
}

/// The nodes that the records stand for.
pub open spec fn nodes_of(records: Seq<NodeRecord>) -> Seq<Node> {
    Seq::new(records.len(), |place: int| node_at(records, place))
}

/// The edge that `arc` stands for: between the nodes of the first records
/// that have the names it gives.
pub open spec fn edge_of(records: Seq<NodeRecord>, arc: ArcRecord) -> Edge {
    Edge {
        from: node_at(records, first_place(records, arc.from@)),
        to: node_at(records, first_place(records, arc.to@)),
        length: arc.length,
    }
}

/// What is wrong with the first of the arcs at or after `from` that names
/// a node that no record names: its origin before its target.
pub open spec fn first_unknown(records: Seq<NodeRecord>, arcs: Seq<ArcRecord>, from: int) -> Option<
    GraphError,
>
    decreases arcs.len() - from,
{
    if from < 0 || from >= arcs.len() {
        None
    } else if !has_node(records, arcs[from].from@) {
        Some(GraphError::UnknownOrigin { arc: from as usize })
    } else if !has_node(records, arcs[from].to@) {
        Some(GraphError::UnknownTarget { arc: from as usize })
    } else {
        first_unknown(records, arcs, from + 1)
    }
}

/// The edges that the arcs stand for, or why they stand for none: too many
/// nodes, or else the first arc with an unknown node.
pub open spec fn linked(records: Seq<NodeRecord>, arcs: Seq<ArcRecord>) -> Result<
    Seq<Edge>,
    GraphError,
> {
    if records.len() > max_nodes() {
        Err(GraphError::TooManyNodes)
    } else {
        match first_unknown(records, arcs, 0) {
            Some(error) => Err(error),
            None => Ok(Seq::new(arcs.len(), |i: int| edge_of(records, arcs[i]))),
        }
    }
}

/// What was linked, as a sequence.
pub open spec fn linked_view(linked: Result<Vec<Edge>, GraphError>) -> Result<
    Seq<Edge>,
    GraphError,
> {
    match linked {
        Ok(edges) => Ok(edges@),
        Err(error) => Err(error),
    }
}

/// The edges of `edges` that leave `from`, in their order.
pub open spec fn outgoing(edges: Seq<Edge>, from: u32) -> Seq<Edge>
    decreases edges.len(),
{
    if edges.len() == 0 {
        Seq::<Edge>::empty()
    } else if edges.last().from.id == from {
        outgoing(edges.drop_last(), from).push(edges.last())
    } else {
        outgoing(edges.drop_last(), from)
    }
}

/// Some edge of `edges` leaves `from`.
pub open spec fn leaves(edges: Seq<Edge>, from: u32) -> bool {
    exists|i: int| 0 <= i < edges.len() && (#[trigger] edges[i]).from.id == from
}

/// The adjacency view of a list of edges: each node that an edge leaves,
/// with the edges that leave it, in the order of the list.
pub open spec fn grouped(edges: Seq<Edge>) -> Graph {
    Map::new(|from: u32| leaves(edges, from), |from: u32| outgoing(edges, from))
}

/// The place of the first record of `records` that has the name `name`.
pub fn find_node(records: &Vec<NodeRecord>, name: &String) -> (found: Option<usize>)
    ensures
        found is Some <==> has_node(records@, name@),
        found matches Some(place) ==> place == first_place(records@, name@) && place
            < records@.len(),
{
    let mut i: usize = 0;
    while i < records.len()
        invariant
            i <= records.len(),
            forall|j: int| 0 <= j < i ==> (#[trigger] records@[j]).name@ != name@,
        decreases records.len() - i,
    {
        if records[i].name == *name {
            proof {
                lemma_first_place(records@, name@, i as int);
            }
            return Some(i);
        }
        i += 1;
    }
    None
}

/// Whether there are no more records than node ids.
fn few_enough(records: &Vec<NodeRecord>) -> (few: bool)
    ensures
        few == (records@.len() <= max_nodes()),
{
    let limit: u64 = 0x1_0000_0000;
    records.len() as u64 <= limit
}

/// Gives each record's node its place as its id.
///
/// Fails where there are more records than ids.
pub fn place_nodes(records: &Vec<NodeRecord>) -> (placed: Result<Vec<Node>, GraphError>)
    ensures
        match placed {
            Ok(nodes) => records@.len() <= max_nodes() && nodes@ == nodes_of(records@),
            Err(error) => records@.len() > max_nodes() && error == GraphError::TooManyNodes,
        },
{
    if !few_enough(records) {
        return Err(GraphError::TooManyNodes);
    }
    let mut nodes: Vec<Node> = Vec::new();
    let mut i: usize = 0;
    while i < records.len()
        invariant
            i <= records.len(),
            records@.len() <= max_nodes(),
            nodes@.len() == i,
            forall|j: int| 0 <= j < i ==> #[trigger] nodes@[j] == node_at(records@, j),
        decreases records.len() - i,
    {
        nodes.push(Node::new(i as u32, records[i].position));
        i += 1;
    }
    proof {
        assert(nodes@ =~= nodes_of(records@));
    }
    Ok(nodes)
}

/// Turns arcs into edges between the nodes that they name.
///
/// Fails where there are more records than ids, and else on the first arc
/// that names a node which no record names.
pub fn link_edges(records: &Vec<NodeRecord>, arcs: &Vec<ArcRecord>) -> (edges: Result<
    Vec<Edge>,
    GraphError,
>)
    ensures
        linked_view(edges) == linked(records@, arcs@),
{
    if !few_enough(records) {
        return Err(GraphError::TooManyNodes);
    }
    let mut edges: Vec<Edge> = Vec::new();
    let mut i: usize = 0;
    while i < arcs.len()
        invariant
            i <= arcs.len(),
            records@.len() <= max_nodes(),
            edges@.len() == i,
            forall|j: int| 0 <= j < i ==> #[trigger] edges@[j] == edge_of(records@, arcs@[j]),
            first_unknown(records@, arcs@, 0) == first_unknown(records@, arcs@, i as int),
        decreases arcs.len() - i,
    {
        let from = match find_node(records, &arcs[i].from) {
            Some(place) => Node::new(place as u32, records[place].position),
            None => {
                return Err(GraphError::UnknownOrigin { arc: i });
            },
        };
        let to = match find_node(records, &arcs[i].to) {
            Some(place) => Node::new(place as u32, records[place].position),
            None => {
                return Err(GraphError::UnknownTarget { arc: i });
            },
        };
        edges.push(Edge::new(from, to, arcs[i].length));
        i += 1;
    }
    proof {
        assert(edges@ =~= Seq::new(arcs@.len(), |k: int| edge_of(records@, arcs@[k])));
    }
    Ok(edges)
}

/// The edges that leave a node are those of the list without its last
/// edge, and that edge if it leaves the node.
proof fn lemma_grouped_push(edges: Seq<Edge>, count: int, from: u32)
    requires
        0 <= count < edges.len(),
    ensures
        outgoing(edges.take(count + 1), from) == if edges[count].from.id == from {
            outgoing(edges.take(count), from).push(edges[count])
        } else {
            outgoing(edges.take(count), from)
        },
        leaves(edges.take(count + 1), from) <==> leaves(edges.take(count), from)
            || edges[count].from.id == from,
{
    let longer = edges.take(count + 1);
    let shorter = edges.take(count);
    assert(longer.drop_last() == shorter);
    assert(longer.last() == edges[count]);
    if leaves(longer, from) {
        let i = choose|i: int| 0 <= i < longer.len() && (#[trigger] longer[i]).from.id == from;
        if i < count {
            assert(shorter[i] == longer[i]);
        }
    }
    if leaves(shorter, from) {
        let i = choose|i: int| 0 <= i < shorter.len() && (#[trigger] shorter[i]).from.id == from;
        assert(longer[i] == shorter[i]);
    }
    if edges[count].from.id == from {
        assert(longer[count].from.id == from);
    }
}

/// Groups edges by the node that they leave.
///
/// A node that no edge leaves gets no entry.
pub fn group_edges(edges: &Vec<Edge>) -> (neighbors: HashMap<u32, Vec<Edge>>)
    ensures
        graph_of(neighbors@) == grouped(edges@),
{
    broadcast use group_hash_axioms;

    let mut neighbors: HashMap<u32, Vec<Edge>> = HashMap::new();
    let mut i: usize = 0;
    while i < edges.len()
        invariant
            i <= edges.len(),
            forall|from: u32| #[trigger]
                neighbors@.contains_key(from) <==> leaves(edges@.take(i as int), from),
            forall|from: u32| #[trigger]
                neighbors@.contains_key(from) ==> neighbors@[from]@ == outgoing(
                    edges@.take(i as int),
                    from,
                ),
        decreases edges.len() - i,
    {
        let edge = edges[i];
        let ghost earlier = neighbors@;
        let mut listed: Vec<Edge> = match neighbors.remove(&edge.from.id) {
            Some(listed) => listed,
            None => Vec::new(),
        };
        listed.push(edge);
        neighbors.insert(edge.from.id, listed);
        proof {
            assert forall|from: u32| #[trigger]
                neighbors@.contains_key(from) <==> leaves(edges@.take(i + 1), from) by {
                lemma_grouped_push(edges@, i as int, from);
                assert(earlier.contains_key(from) <==> leaves(edges@.take(i as int), from));
            }
            assert forall|from: u32| #[trigger]
                neighbors@.contains_key(from) implies neighbors@[from]@ == outgoing(
                edges@.take(i + 1),
                from,
            ) by {
                lemma_grouped_push(edges@, i as int, from);
                if from != edge.from.id {
                    assert(earlier.contains_key(from));
                } else if !earlier.contains_key(from) {
                    lemma_outgoing_none(edges@.take(i as int), from);
                }
            }
        }
        i += 1;
    }
    proof {
        assert(edges@.take(edges@.len() as int) == edges@);
        assert(graph_of(neighbors@) =~= grouped(edges@));
    }
    neighbors
}

/// No edge leaves a node that none leaves.
proof fn lemma_outgoing_none(edges: Seq<Edge>, from: u32)
    requires
        !leaves(edges, from),
    ensures
        outgoing(edges, from) == Seq::<Edge>::empty(),
    decreases edges.len(),
{
    if edges.len() > 0 {
        let shorter = edges.drop_last();
        assert(edges[edges.len() - 1].from.id != from);
        if leaves(shorter, from) {
            let i = choose|i: int|
                0 <= i < shorter.len() && (#[trigger] shorter[i]).from.id == from;
            assert(edges[i] == shorter[i]);
        }
        lemma_outgoing_none(shorter, from);
    }
}

} // verus!
