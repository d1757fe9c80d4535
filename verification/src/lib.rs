//! Shortest paths on a road network, for a viewer that draws the map.
//!
//! The core is a uniform-cost search that can order its frontier in three
//! ways ([`contexts::pathfinding`]), and a query context that shows the
//! result of the last query and keeps the outcome of every query it has
//! answered ([`contexts::algorithm_context`]). Around it stand the graph's
//! value types ([`models`]), the mathematical model of the graph
//! ([`graph`]), the reading of a map file from the elements of a document
//! ([`map_file`]), the building of a graph from its records ([`parser`]),
//! and what the viewer decides between two frames ([`selection`]).
//!
//! Everything is in whole numbers: a node is known by a 32-bit id, a
//! position has 32-bit coordinates, an edge a 32-bit length, a path a 64-bit
//! cost, and a heuristic weight is given in tenths. With these widths no
//! sum in a search can overflow.
//!
//! The search frontier is the priority queue of the `priority_queue` crate
//! ([`frontier`]). What is stated of it there is taken on trust, as is
//! that a copy of a hash set holds what the set holds; everything else is
//! proved.

pub mod contexts;
pub mod frontier;
pub mod graph;
pub mod map_file;
pub mod models;
pub mod parser;
pub mod selection;
pub mod utils;
