//! Graph representations and algorithms.
//!
//! Every algorithm reads a graph through the [`Graph`] capability alone: the
//! edges that leave a node, the node an edge points to, and the cost of an
//! edge. [`AdjacencyMap`] is the storage that comes with the library. What each
//! operation computes is stated in its contract and proved.

use vstd::prelude::*;

pub mod adjacency_map;
pub mod frontier;
pub mod minimum_spanning_tree;
pub mod shortest_path;
pub mod traversal;
pub mod tree_weight;
pub mod walk;

pub use adjacency_map::AdjacencyMap;

verus! {

/// Identifier of a vertex.
pub type NodeId = usize;

/// Cost of traversing one edge.
pub type Weight = u64;

/// Accumulated cost of a sequence of edges.
pub type Cost = u128;

/// What a caller did wrong when an operation on a graph is refused.
#[derive(Clone, Copy, Debug, PartialEq, Eq, Structural)]
pub enum GraphError {
    /// The node that the operation starts from is not part of the graph.
    UnknownNode,
    /// No such edge leaves any node of the graph.
    UnknownEdge,
}

/// The capability that the algorithms of this library need from a graph.
///
/// The four spec functions are the mathematical graph that an implementation
/// stands for; the three operations read it.
pub trait Graph {
    /// A directed arc. All that is ever done with one is to resolve its target
    /// and its weight.
    type Edge;

    /// Whether `node` is a vertex of the graph.
    spec fn has_node(&self, node: NodeId) -> bool;

    /// The edges that leave `node`.
    spec fn edges_from(&self, node: NodeId) -> Set<Self::Edge>;

    /// The node that `edge` points to, absent where that node is not part of
    /// the graph (a dangling edge).
    spec fn target_of(&self, edge: Self::Edge) -> Option<NodeId>;

    /// The cost of traversing `edge`.
    spec fn weight_of(&self, edge: Self::Edge) -> Weight;

    /// Resolves the node that `edge` points to. A dangling edge gives `None`.
    fn target(&self, edge: &Self::Edge) -> (target: Option<NodeId>)
        ensures
            target == self.target_of(*edge),
            target matches Some(n) ==> self.has_node(n),
    ;

    /// The cost of traversing `edge`, for an edge that leaves a node of the
    /// graph; any other edge is refused.
    fn weight(&self, edge: &Self::Edge) -> (weight: Result<Weight, GraphError>)
        ensures
            (exists|node: NodeId|
                self.has_node(node) && #[trigger] self.edges_from(node).contains(*edge))
                ==> weight == Ok::<Weight, GraphError>(self.weight_of(*edge)),
            !(exists|node: NodeId|
                self.has_node(node) && #[trigger] self.edges_from(node).contains(*edge))
                ==> weight is Err,
    ;

    /// All edges that leave `node`, each once, in an order that the
    /// implementation chooses.
    fn outgoing_edges(&self, node: &NodeId) -> (edges: Vec<Self::Edge>)
        requires
            self.has_node(*node),
        ensures
            edges@.no_duplicates(),
            edges@.to_set() == self.edges_from(*node),
    ;
}

/// Whether `edge` leaves some node of the graph.
pub open spec fn has_edge<G: Graph>(graph: &G, edge: G::Edge) -> bool {
    exists|node: NodeId| graph.has_node(node) && #[trigger] graph.edges_from(node).contains(edge)
}

} // verus!
