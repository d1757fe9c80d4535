use super::node::Node;
use std::cmp::Ordering;
use vstd::prelude::*;

verus! {

/// A directed edge of the road network.
///
/// An edge is identified by the ids of its two endpoints; its length takes
/// no part in its identity, so an edge of a found path, which carries no
/// length, equals the graph's edge between the same endpoints.
#[derive(Clone, Copy, Debug)]
pub struct Edge {
    pub from: Node,
    pub to: Node,
    pub length: u32,
}

/// The number that stands for the pair of endpoints `(from, to)` in a set of
/// edges: `from` in the upper 32 bits, `to` in the lower.
pub open spec fn edge_key(from: u32, to: u32) -> u64 {
    (from * 0x1_0000_0000 + to) as u64
}

/// Different pairs of endpoints have different keys.
pub proof fn lemma_edge_key_injective(from1: u32, to1: u32, from2: u32, to2: u32)
    ensures
        edge_key(from1, to1) == edge_key(from2, to2) <==> from1 == from2 && to1 == to2,
{
}

/// The key of the pair of endpoints `(from, to)`.
pub fn pack_key(from: u32, to: u32) -> (key: u64)
    ensures
        key == edge_key(from, to),
{
    let upper: u64 = from as u64;
    let lower: u64 = to as u64;
    upper * 0x1_0000_0000 + lower
}

impl Edge {
    pub fn new(from: Node, to: Node, length: u32) -> (edge: Edge)
        ensures
            edge.from == from,
            edge.to == to,
            edge.length == length,
    {
        Edge { from, to, length }
    }

    /// The key of this edge's endpoints.
    pub open spec fn spec_key(&self) -> u64 {
        edge_key(self.from.id, self.to.id)
    }

    #[verifier::when_used_as_spec(spec_key)]
    pub fn key(&self) -> (key: u64)
        ensures
            key == self.spec_key(),
    {
        pack_key(self.from.id, self.to.id)
    }
}

impl PartialEq for Edge {
    fn eq(&self, other: &Self) -> (equal: bool) {
        self.from.id == other.from.id && self.to.id == other.to.id
    }
}

impl Eq for Edge {

}

impl vstd::std_specs::cmp::PartialEqSpecImpl for Edge {
    open spec fn obeys_eq_spec() -> bool {
        true
    }

    open spec fn eq_spec(&self, other: &Self) -> bool {
        self.from.id == other.from.id && self.to.id == other.to.id
    }
}

impl PartialOrd for Edge {
    fn partial_cmp(&self, other: &Self) -> (order: Option<Ordering>) {
        if self.from.id < other.from.id {
            Some(Ordering::Less)
        } else if self.from.id > other.from.id {
            Some(Ordering::Greater)
        } else if self.to.id < other.to.id {
            Some(Ordering::Less)
        } else if self.to.id > other.to.id {
            Some(Ordering::Greater)
        } else {
            Some(Ordering::Equal)
        }
    }
}

impl vstd::std_specs::cmp::PartialOrdSpecImpl for Edge {
    open spec fn obeys_partial_cmp_spec() -> bool {
        true
    }

    open spec fn partial_cmp_spec(&self, other: &Self) -> Option<Ordering> {
        if self.from.id != other.from.id {
            if self.from.id < other.from.id {
                Some(Ordering::Less)
            } else {
                Some(Ordering::Greater)
            }
        } else if self.to.id < other.to.id {
            Some(Ordering::Less)
        } else if self.to.id > other.to.id {
            Some(Ordering::Greater)
        } else {
            Some(Ordering::Equal)
        }
    }
}

} // verus!
