//! The road network as it is loaded, and which map file it comes from.

use crate::models::edge::Edge;
use crate::models::node::Node;
use std::collections::HashMap;
use vstd::prelude::*;

verus! {

/// The map files that the viewer can show.
#[derive(Clone, Copy, Debug, PartialEq, Eq, Structural)]
pub enum DataFile {
    /// The whole map.
    Map2,
    /// A small map to try things on.
    Test,
}

impl DataFile {
    /// The file's name.
    pub fn name(&self) -> (name: &'static str)
        ensures
            name@ == (match *self {
                DataFile::Map2 => "map2.xml"@,
                DataFile::Test => "test.xml"@,
            }),
    {
        match self {
            DataFile::Map2 => "map2.xml",
            DataFile::Test => "test.xml",
        }
    }

    /// The other of the two files.
    pub open spec fn spec_other(self) -> DataFile {
        match self {
            DataFile::Map2 => DataFile::Test,
            DataFile::Test => DataFile::Map2,
        }
    }

    /// The other of the two files.
    #[verifier::when_used_as_spec(spec_other)]
    pub fn other(self) -> (other: DataFile)
        ensures
            other == self.spec_other(),
    {
        match self {
            DataFile::Map2 => DataFile::Test,
            DataFile::Test => DataFile::Map2,
        }
    }
}

/// Switching the file twice gives the file one started with.
pub proof fn lemma_switching_twice(file: DataFile)
    ensures
        file.spec_other().spec_other() == file,
        file.spec_other() != file,
{
}

/// The road network as far as it is loaded.
pub struct DataContext {
    pub nodes: Vec<Node>,
    pub edges: Vec<Edge>,
    pub neighbors: HashMap<u32, Vec<Edge>>,
    pub nodes_loading: bool,
    pub edges_loading: bool,
    pub data_file: DataFile,
    pub is_first_load: bool,
}

impl DataContext {
    /// A context that holds `nodes`, `edges` and `neighbors`, of the whole
    /// map, before its first load.
    pub fn new(nodes: Vec<Node>, edges: Vec<Edge>, neighbors: HashMap<u32, Vec<Edge>>) -> (context:
        DataContext)
        ensures
            context.nodes == nodes,
            context.edges == edges,
            context.neighbors == neighbors,
            !context.nodes_loading,
            !context.edges_loading,
            context.data_file == DataFile::Map2,
            context.is_first_load,
    {
        DataContext {
            nodes,
            edges,
            neighbors,
            nodes_loading: false,
            edges_loading: false,
            data_file: DataFile::Map2,
            is_first_load: true,
        }
    }

    /// A context without nodes and edges.
    pub fn empty() -> (context: DataContext)
        ensures
            context.nodes@.len() == 0,
            context.edges@.len() == 0,
            context.neighbors@ == (Map::<u32, Vec<Edge>>::empty()),
            !context.nodes_loading,
            !context.edges_loading,
            context.data_file == DataFile::Map2,
            context.is_first_load,
    {
        Self::new(Vec::new(), Vec::new(), HashMap::new())
    }

    /// The name of the map file in use.
    pub fn data_name(&self) -> (name: &'static str)
        ensures
            name@ == (match self.data_file {
                DataFile::Map2 => "map2.xml"@,
                DataFile::Test => "test.xml"@,
            }),
    {
        self.data_file.name()
    }

    /// Takes the other map file into use.
    pub fn switch_data_file(&mut self)
        ensures
            *final(self) == (DataContext {
                data_file: old(self).data_file.spec_other(),
                ..*old(self)
            }),
    {
        self.data_file = self.data_file.other();
    }

    /// Whether there are both nodes and edges.
    pub fn has_data(&self) -> (has: bool)
        ensures
            has == (self.nodes@.len() > 0 && self.edges@.len() > 0),
    {
        !self.nodes.is_empty() && !self.edges.is_empty()
    }

    /// Whether this is the first call: true once, false ever after.
    pub fn first_load(&mut self) -> (first: bool)
        ensures
            first == old(self).is_first_load,
            *final(self) == (DataContext { is_first_load: false, ..*old(self) }),
    {
        // short circuit after first load
        if self.is_first_load {
            self.is_first_load = false;
            true
        } else {
            false
        }
    }

    /// Marks nodes and edges as being loaded.
    pub fn start_loading(&mut self)
        ensures
            *final(self) == (DataContext {
                nodes_loading: true,
                edges_loading: true,
                ..*old(self)
            }),
    {
        self.nodes_loading = true;
        self.edges_loading = true;
    }

    /// Takes the nodes that were loaded.
    pub fn receive_nodes(&mut self, nodes: Vec<Node>)
        ensures
            *final(self) == (DataContext { nodes, nodes_loading: false, ..*old(self) }),
    {
        self.nodes = nodes;
        self.nodes_loading = false;
    }

    /// Takes the edges that were loaded.
    pub fn receive_edges(&mut self, edges: Vec<Edge>)
        ensures
            *final(self) == (DataContext { edges, edges_loading: false, ..*old(self) }),
    {
        self.edges = edges;
        self.edges_loading = false;
    }

    /// Takes the adjacency mapping that was built.
    pub fn receive_neighbors(&mut self, neighbors: HashMap<u32, Vec<Edge>>)
        ensures
            *final(self) == (DataContext { neighbors, ..*old(self) }),
    {
        self.neighbors = neighbors;
    }
}

impl Default for DataContext {
    fn default() -> (context: DataContext)
        ensures
            context.nodes@.len() == 0,
            context.edges@.len() == 0,
            context.data_file == DataFile::Map2,
            context.is_first_load,
    {
        Self::empty()
    }
}

} // verus!
