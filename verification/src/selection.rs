//! What the viewer decides between two frames: which nodes are picked as
//! the ends of a path, how each edge and node is to be drawn, and when a
//! path is to be computed.

use crate::contexts::algorithm_context::{computed, AlgorithmContext, ContextView};
use crate::contexts::pathfinding::PathError;
use crate::models::edge::Edge;
use crate::models::node::Node;
use std::collections::HashMap;
use vstd::prelude::*;

verus! {

/// The nodes picked as the two ends of a path.
#[derive(Clone, Copy, Debug)]
pub struct Selection {
    pub start_node: Option<Node>,
    pub end_node: Option<Node>,
    /// Whether the path between the two is shown.
    pub is_drawing_path: bool,
}

/// What a click on a node did to the selection.
#[derive(Clone, Copy, Debug, PartialEq, Eq, Structural)]
pub enum SelectionChange {
    /// The node is now the start.
    SelectedStart,
    /// The node is now the end.
    SelectedEnd,
    /// The node was an end and is none now.
    Unselected,
}

/// How an edge is drawn.
#[derive(Clone, Copy, Debug, PartialEq, Eq, Structural)]
pub enum EdgeClass {
    /// On the path shown.
    Selected,
    /// Examined by the search, and not on the path.
    Passed,
    /// Neither.
    Plain,
}

/// Whether `picked` is the node with the id `id`.
pub open spec fn holds(picked: Option<Node>, id: u32) -> bool {
    picked matches Some(node) && node.id == id
}

/// The selection after a click on `node`, and what the click did.
pub open spec fn clicked(before: Selection, node: Node) -> (Selection, SelectionChange) {
    if before.start_node is None {
        (
            Selection { start_node: Some(node), end_node: before.end_node, is_drawing_path: false },
            SelectionChange::SelectedStart,
        )
    } else if holds(before.start_node, node.id) {
        (
            Selection { start_node: None, end_node: before.end_node, is_drawing_path: false },
            SelectionChange::Unselected,
        )
    } else if before.end_node is None {
        (
            Selection {
                start_node: before.start_node,
                end_node: Some(node),
                is_drawing_path: false,
            },
            SelectionChange::SelectedEnd,
        )
    } else if holds(before.end_node, node.id) {
        (
            Selection { start_node: before.start_node, end_node: None, is_drawing_path: false },
            SelectionChange::Unselected,
        )
    } else {
        (
            Selection { start_node: Some(node), end_node: None, is_drawing_path: false },
            SelectionChange::SelectedStart,
        )
    }
}

/// How `edge` is drawn when the context shows `context`.
pub open spec fn class_of(context: ContextView, is_drawing_path: bool, edge: Edge) -> EdgeClass {
    if is_drawing_path && context.current.selected_edges.contains(edge.spec_key()) {
        EdgeClass::Selected
    } else if is_drawing_path && context.is_marking_passed_edges
        && context.current.passed_edges.contains(edge.spec_key()) {
        EdgeClass::Passed
    } else {
        EdgeClass::Plain
    }
}

/// The edges of `edges` that are drawn as `class`, in their order.
pub open spec fn drawn_as(
    context: ContextView,
    is_drawing_path: bool,
    edges: Seq<Edge>,
    class: EdgeClass,
) -> Seq<Edge>
    decreases edges.len(),
{
    if edges.len() == 0 {
        Seq::<Edge>::empty()
    } else if class_of(context, is_drawing_path, edges.last()) == class {
        drawn_as(context, is_drawing_path, edges.drop_last(), class).push(edges.last())
    } else {
        drawn_as(context, is_drawing_path, edges.drop_last(), class)
    }
}

/// The nodes of `nodes` that are an end of the selection, if `picked`, or
/// that are none, if not, in their order.
pub open spec fn nodes_where(selection: Selection, nodes: Seq<Node>, picked: bool) -> Seq<Node>
    decreases nodes.len(),
{
    if nodes.len() == 0 {
        Seq::<Node>::empty()
    } else if selection.spec_is_selected(nodes.last().id) == picked {
        nodes_where(selection, nodes.drop_last(), picked).push(nodes.last())
    } else {
        nodes_where(selection, nodes.drop_last(), picked)
    }
}

/// Every edge is drawn in exactly one way.
pub proof fn lemma_every_edge_drawn_once(
    context: ContextView,
    is_drawing_path: bool,
    edges: Seq<Edge>,
)
    ensures
        drawn_as(context, is_drawing_path, edges, EdgeClass::Selected).len() + drawn_as(
            context,
            is_drawing_path,
            edges,
            EdgeClass::Passed,
        ).len() + drawn_as(context, is_drawing_path, edges, EdgeClass::Plain).len()
            == edges.len(),
    decreases edges.len(),
{
    if edges.len() > 0 {
        lemma_every_edge_drawn_once(context, is_drawing_path, edges.drop_last());
    }
}

/// Every node is an end of the selection or none.
pub proof fn lemma_every_node_drawn_once(selection: Selection, nodes: Seq<Node>)
    ensures
        nodes_where(selection, nodes, true).len() + nodes_where(selection, nodes, false).len()
            == nodes.len(),
    decreases nodes.len(),
{
    if nodes.len() > 0 {
        lemma_every_node_drawn_once(selection, nodes.drop_last());
    }
}

impl Selection {
    /// Whether the node with the id `node_id` is one of the two ends.
    pub open spec fn spec_is_selected(&self, node_id: u32) -> bool {
        holds(self.start_node, node_id) || holds(self.end_node, node_id)
    }

    /// Nothing is picked, no path is shown.
    pub fn new() -> (selection: Selection)
        ensures
            selection.start_node is None,
            selection.end_node is None,
            !selection.is_drawing_path,
    {
        Selection { start_node: None, end_node: None, is_drawing_path: false }
    }

    /// Whether the node with the id `node_id` is one of the two ends.
    #[verifier::when_used_as_spec(spec_is_selected)]
    pub fn is_selected(&self, node_id: u32) -> (selected: bool)
        ensures
            selected == self.spec_is_selected(node_id),
    {
        if let Some(start_node) = &self.start_node {
            if start_node.id == node_id {
                return true;
            }
        }
        if let Some(end_node) = &self.end_node {
            if end_node.id == node_id {
                return true;
            }
        }
        false
    }

    /// Whether both ends are picked.
    pub fn is_start_and_end_set(&self) -> (set: bool)
        ensures
            set == (self.start_node is Some && self.end_node is Some),
    {
        self.start_node.is_some() && self.end_node.is_some()
    }

    /// Takes a click on `node`: a node that is no end becomes one, the
    /// start first; an end is dropped. The path is no longer shown.
    pub fn select_node(&mut self, node: Node) -> (change: SelectionChange)
        ensures
            (*final(self), change) == clicked(*old(self), node),
    {
        self.is_drawing_path = false;

        match (self.start_node, self.end_node) {
            (None, _) => {
                // start node is not set
                self.start_node = Some(node);
                SelectionChange::SelectedStart
            },
            (Some(start_node), None) => {
                // end node is not set
                if start_node.id == node.id {
                    // user clicked on the start node
                    self.start_node = None;
                    SelectionChange::Unselected
                } else {
                    // user clicked on a new node
                    self.end_node = Some(node);
                    SelectionChange::SelectedEnd
                }
            },
            (Some(start_node), Some(end_node)) => {
                if start_node.id == node.id {
                    // user clicked on the start node
                    self.start_node = None;
                    SelectionChange::Unselected
                } else if end_node.id == node.id {
                    // user clicked on the end node
                    self.end_node = None;
                    SelectionChange::Unselected
                } else {
                    // user clicked on a new node
                    self.start_node = Some(node);
                    self.end_node = None;
                    SelectionChange::SelectedStart
                }
            },
        }
    }

    /// Computes the path between the two ends where both are picked and
    /// make a query that is not the one last answered, and shows it if
    /// there is one. Returns what the computation returned, if there was
    /// one.
    pub fn update_path(
        &mut self,
        context: &mut AlgorithmContext,
        neighbors: &HashMap<u32, Vec<Edge>>,
    ) -> (outcome: Option<Result<(), PathError>>)
        requires
            old(context).wf(),
        ensures
            final(context).wf(),
            final(self).start_node == old(self).start_node,
            final(self).end_node == old(self).end_node,
            match (old(self).start_node, old(self).end_node) {
                (Some(start), Some(end)) if old(context)@.is_new_query(start.id, end.id) => {
                    &&& outcome matches Some(result)
                    &&& computed(old(context)@, final(context)@, start, end, neighbors@, result)
                    &&& final(self).is_drawing_path == (result is Ok)
                },
                _ => {
                    &&& outcome is None
                    &&& final(context)@ == old(context)@
                    &&& final(self).is_drawing_path == old(self).is_drawing_path
                },
            },
    {
        match (self.start_node, self.end_node) {
            (Some(start), Some(end)) => {
                if context.is_new_args(&start, &end) {
                    let result = context.compute_path(&start, &end, neighbors);
                    self.is_drawing_path = result.is_ok();
                    Some(result)
                } else {
                    None
                }
            },
            _ => None,
        }
    }

    /// Parts `nodes` into the ends of the selection and the others.
    pub fn sort_nodes(&self, nodes: &Vec<Node>) -> (sorted: (Vec<Node>, Vec<Node>))
        ensures
            sorted.0@ == nodes_where(*self, nodes@, true),
            sorted.1@ == nodes_where(*self, nodes@, false),
            sorted.0@.len() + sorted.1@.len() == nodes@.len(),
    {
        let mut selected_to_draw: Vec<Node> = Vec::new();
        let mut nodes_to_draw: Vec<Node> = Vec::new();
        let mut i: usize = 0;
        while i < nodes.len()
            invariant
                i <= nodes.len(),
                selected_to_draw@ == nodes_where(*self, nodes@.take(i as int), true),
                nodes_to_draw@ == nodes_where(*self, nodes@.take(i as int), false),
            decreases nodes.len() - i,
        {
            proof {
                assert(nodes@.take(i + 1).drop_last() == nodes@.take(i as int));
            }
            let node = nodes[i];
            if self.is_selected(node.id) {
                selected_to_draw.push(node);
            } else {
                nodes_to_draw.push(node);
            }
            i += 1;
        }
        proof {
            assert(nodes@.take(nodes@.len() as int) == nodes@);
            lemma_every_node_drawn_once(*self, nodes@);
        }
        (selected_to_draw, nodes_to_draw)
    }
}

/// How `edge` is drawn.
pub fn classify_edge(context: &AlgorithmContext, is_drawing_path: bool, edge: &Edge) -> (class:
    EdgeClass)
    ensures
        class == class_of(context@, is_drawing_path, *edge),
{
    if is_drawing_path {
        if context.is_edge_selected(edge) {
            return EdgeClass::Selected;
        } else if context.is_marking() && context.is_edge_passed(edge) {
            return EdgeClass::Passed;
        }
    }
    EdgeClass::Plain
}

/// Parts `edges` into those on the path shown, those that the search
/// examined besides, and the rest.
pub fn sort_edges(context: &AlgorithmContext, is_drawing_path: bool, edges: &Vec<Edge>) -> (sorted:
    (Vec<Edge>, Vec<Edge>, Vec<Edge>))
    ensures
        sorted.0@ == drawn_as(context@, is_drawing_path, edges@, EdgeClass::Selected),
        sorted.1@ == drawn_as(context@, is_drawing_path, edges@, EdgeClass::Passed),
        sorted.2@ == drawn_as(context@, is_drawing_path, edges@, EdgeClass::Plain),
        sorted.0@.len() + sorted.1@.len() + sorted.2@.len() == edges@.len(),
{
    let mut selected_to_draw: Vec<Edge> = Vec::new();
    let mut passed_to_draw: Vec<Edge> = Vec::new();
    let mut edges_to_draw: Vec<Edge> = Vec::new();
    let mut i: usize = 0;
    while i < edges.len()
        invariant
            i <= edges.len(),
            selected_to_draw@ == drawn_as(
                context@,
                is_drawing_path,
                edges@.take(i as int),
                EdgeClass::Selected,
            ),
            passed_to_draw@ == drawn_as(
                context@,
                is_drawing_path,
                edges@.take(i as int),
                EdgeClass::Passed,
            ),
            edges_to_draw@ == drawn_as(
                context@,
                is_drawing_path,
                edges@.take(i as int),
                EdgeClass::Plain,
            ),
        decreases edges.len() - i,
    {
        proof {
            assert(edges@.take(i + 1).drop_last() == edges@.take(i as int));
        }
        let edge = edges[i];
        match classify_edge(context, is_drawing_path, &edge) {
            EdgeClass::Selected => selected_to_draw.push(edge),
            EdgeClass::Passed => passed_to_draw.push(edge),
            EdgeClass::Plain => edges_to_draw.push(edge),
        }
        i += 1;
    }
    proof {
        assert(edges@.take(edges@.len() as int) == edges@);
        lemma_every_edge_drawn_once(context@, is_drawing_path, edges@);
    }
    (selected_to_draw, passed_to_draw, edges_to_draw)
}

} // verus!
