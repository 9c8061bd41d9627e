use crate::weight::Weight;
use vstd::prelude::*;

pub mod bellman_ford;
pub mod components;
pub mod generators;
pub mod reader;
pub mod repr;
pub mod tarjan;
pub mod writer;

verus! {

/// Node of a graph
pub type Node = usize;

/// Largest magnitude of an edge weight that a graph accepts: `2^32`. Weights are 64-bit
/// integers, and the searches add them up without checks. With this limit the weight of a
/// walk of at most `NODE_LIMIT` edges has a magnitude of at most `2^60`, and a weight
/// together with two potentials, a reduced weight, stays within `DISTANCE_LIMIT`.
pub const WEIGHT_LIMIT: Weight = 0x1_0000_0000;

/// Largest magnitude of a node potential that a graph accepts: `2^59`. It leaves room for a
/// reduced weight, for two of them, and for a distance bound added to one, in 64 bits.
pub const POTENTIAL_LIMIT: Weight = 0x0800_0000_0000_0000;

/// Largest magnitude of a reduced weight: `WEIGHT_LIMIT + 2 * POTENTIAL_LIMIT`. The searches
/// on reduced weights accept no larger distance bound: a distance below the bound plus one
/// reduced weight is then less than `2^62`.
pub const DISTANCE_LIMIT: Weight = 0x1000_0001_0000_0000;

/// Largest number of nodes for which the searches on raw weights are free of overflow:
/// `2^28`. A distance that such a search records is the weight of a walk of fewer edges
/// than the graph has nodes, so its magnitude stays below `NODE_LIMIT * WEIGHT_LIMIT`.
pub const NODE_LIMIT: usize = 0x1000_0000;

/// A weighted directed edge consists of a `source`, `target`, and `weight`
#[derive(Debug, Clone, Copy, PartialEq, Eq, Structural)]
pub struct Edge {
    pub source: Node,
    pub target: Node,
    pub weight: Weight,
}

impl From<(Node, Node, Weight)> for Edge {
    fn from(value: (Node, Node, Weight)) -> (e: Edge) {
        Edge { source: value.0, target: value.1, weight: value.2 }
    }
}

impl vstd::std_specs::convert::FromSpecImpl<(Node, Node, Weight)> for Edge {
    open spec fn obeys_from_spec() -> bool {
        true
    }

    open spec fn from_spec(value: (Node, Node, Weight)) -> Edge {
        Edge { source: value.0, target: value.1, weight: value.2 }
    }
}

impl Edge {
    /// The edge from `source` to `target` with the given weight.
    pub fn new(source: Node, target: Node, weight: Weight) -> (e: Edge)
        ensures
            e == (Edge { source, target, weight }),
    {
        Edge { source, target, weight }
    }

    /// The edge as a triple `(source, target, weight)`.
    pub fn into_tuple(self) -> (t: (Node, Node, Weight))
        ensures
            t == (self.source, self.target, self.weight),
    {
        (self.source, self.target, self.weight)
    }
}

} // verus!
