//! Storage for a directed, weighted graph: one record per node, each holding
//! the node's payload and its outgoing arcs.

use vstd::prelude::*;
use vstd::std_specs::iter::IteratorSpec;
use std::collections::HashMap;
use crate::{Graph, GraphError, NodeId, Weight};

verus! {

broadcast use vstd::std_specs::hash::group_hash_axioms;

/// The record of one node: its payload and, for each arc that leaves it, the
/// arc's target and weight.
pub struct AdjacencyMapNode<V, W> {
    pub value: V,
    pub outgoing: HashMap<NodeId, W>,
}

/// A graph stored as a dense list of node records and an index from node
/// identifiers to positions in that list.
pub struct AdjacencyMap<V, W> {
    nodes: Vec<AdjacencyMapNode<V, W>>,
    map: HashMap<NodeId, usize>,
}

impl<V, W> View for AdjacencyMap<V, W> {
    type V = Map<NodeId, (V, Map<NodeId, W>)>;

    /// For each node identifier, the payload and the outgoing arcs of the
    /// record that the identifier currently stands for.
    closed spec fn view(&self) -> Map<NodeId, (V, Map<NodeId, W>)> {
        Map::new(
            |id: NodeId| self.map@.contains_key(id),
            |id: NodeId|
                (self.nodes@[self.map@[id] as int].value, self.nodes@[self.map@[id] as int].outgoing@),
        )
    }
}

/// Every identifier has a record of its own among the first `records`.
spec fn index_fits(index: Map<NodeId, usize>, records: nat) -> bool {
    &&& forall|id: NodeId| #[trigger] index.contains_key(id) ==> index[id] < records
    &&& forall|a: NodeId, b: NodeId|
        #[trigger] index.contains_key(a) && #[trigger] index.contains_key(b) && index[a] == index[b]
            ==> a == b
}

impl<V, W> AdjacencyMap<V, W> {
    #[verifier::type_invariant]
    spec fn indexed(&self) -> bool {
        index_fits(self.map@, self.nodes@.len())
    }

    /// The number of records held, those that a later record with the same
    /// identifier has shadowed included.
    pub closed spec fn record_count(&self) -> nat {
        self.nodes@.len()
    }

    /// A graph without nodes.
    pub fn new() -> (graph: AdjacencyMap<V, W>)
        ensures
            graph@ == Map::<NodeId, (V, Map<NodeId, W>)>::empty(),
            graph.record_count() == 0,
    {
        let graph = AdjacencyMap { nodes: Vec::new(), map: HashMap::new() };
        assert(graph@ =~= Map::<NodeId, (V, Map<NodeId, W>)>::empty());
        graph
    }

    /// Registers a node without outgoing arcs. Where `node_id` is already
    /// known, the new record takes its place and the old one stays behind,
    /// unreachable.
    pub fn add_node(&mut self, node_id: NodeId, value: V)
        ensures
            final(self)@ == old(self)@.insert(node_id, (value, Map::<NodeId, W>::empty())),
            final(self).record_count() == old(self).record_count() + 1,
    {
        let (mut nodes, mut map) = self.take_apart();
        let list_id: usize = nodes.len();
        nodes.push(AdjacencyMapNode { value: value, outgoing: HashMap::new() });
        map.insert(node_id, list_id);
        *self = AdjacencyMap { nodes, map };
        assert(self@ =~= old(self)@.insert(node_id, (value, Map::<NodeId, W>::empty())));
    }

    /// Moves the record list and the index out and leaves an empty graph
    /// behind, so that both can be changed before they are put together
    /// again.
    fn take_apart(&mut self) -> (parts: (Vec<AdjacencyMapNode<V, W>>, HashMap<NodeId, usize>))
        ensures
            parts.0 == old(self).nodes,
            parts.1 == old(self).map,
            index_fits(parts.1@, parts.0@.len()),
    {
        proof {
            use_type_invariant(&*self);
        }
        let mut taken = AdjacencyMap { nodes: Vec::new(), map: HashMap::new() };
        core::mem::swap(self, &mut taken);
        let AdjacencyMap { nodes, map } = taken;
        (nodes, map)
    }

    /// Inserts the arc from `from` to `to`, or replaces its weight. An
    /// unknown `from` is refused and leaves the graph as it was; `to` need
    /// not be known.
    pub fn add_arc(&mut self, from: NodeId, to: NodeId, weight: W) -> (done: Result<(), GraphError>)
        ensures
            old(self)@.contains_key(from) ==> done is Ok && final(self)@ == with_arc(
                old(self)@,
                from,
                to,
                weight,
            ),
            !old(self)@.contains_key(from) ==> done == Err::<(), GraphError>(GraphError::UnknownNode)
                && final(self)@ == old(self)@,
            final(self).record_count() == old(self).record_count(),
    {
        proof {
            use_type_invariant(&*self);
        }
        let list_id: usize = match self.map.get(&from) {
            Some(slot) => *slot,
            None => {
                return Err(GraphError::UnknownNode);
            },
        };
        let (mut nodes, map) = self.take_apart();
        nodes[list_id].outgoing.insert(to, weight);
        *self = AdjacencyMap { nodes, map };
        assert(self@ =~= with_arc(old(self)@, from, to, weight));
        Ok(())
    }

    /// Inserts the arc from `a` to `b` and then the arc from `b` to `a`, both
    /// with `weight`: an undirected edge. Each arc is refused where its
    /// source is unknown; an unknown `b` leaves the first arc in place.
    pub fn add_edge(&mut self, a: NodeId, b: NodeId, weight: W) -> (done: Result<(), GraphError>)
        where W: Copy,
        ensures
            done is Ok <==> old(self)@.contains_key(a) && old(self)@.contains_key(b),
            done is Err ==> done == Err::<(), GraphError>(GraphError::UnknownNode),
            !old(self)@.contains_key(a) ==> final(self)@ == old(self)@,
            old(self)@.contains_key(a) && !old(self)@.contains_key(b) ==> final(self)@ == with_arc(
                old(self)@,
                a,
                b,
                weight,
            ),
            old(self)@.contains_key(a) && old(self)@.contains_key(b) ==> final(self)@ == with_arc(
                with_arc(old(self)@, a, b, weight),
                b,
                a,
                weight,
            ),
            final(self).record_count() == old(self).record_count(),
    {
        match self.add_arc(a, b, weight) {
            Ok(()) => self.add_arc(b, a, weight),
            Err(e) => Err(e),
        }
    }

    /// The record of `index`: its payload and its outgoing arcs. An unknown
    /// identifier is refused.
    pub fn index(&self, index: NodeId) -> (found: Result<&AdjacencyMapNode<V, W>, GraphError>)
        ensures
            self@.contains_key(index) ==> found is Ok && found->Ok_0.value == self@[index].0
                && found->Ok_0.outgoing@ == self@[index].1,
            !self@.contains_key(index) ==> found == Err::<&AdjacencyMapNode<V, W>, GraphError>(
                GraphError::UnknownNode,
            ),
    {
        proof {
            use_type_invariant(self);
        }
        match self.map.get(&index) {
            Some(slot) => Ok(&self.nodes[*slot]),
            None => Err(GraphError::UnknownNode),
        }
    }
}

/// `graph` with the arc from `from` to `to` set to `weight`.
pub open spec fn with_arc<V, W>(
    graph: Map<NodeId, (V, Map<NodeId, W>)>,
    from: NodeId,
    to: NodeId,
    weight: W,
) -> Map<NodeId, (V, Map<NodeId, W>)> {
    graph.insert(from, (graph[from].0, graph[from].1.insert(to, weight)))
}

/// An adjacency map with integer weights is a graph whose edges are pairs of
/// a source and a target identifier.
impl<'a, V> Graph for &'a AdjacencyMap<V, Weight> {
    type Edge = (NodeId, NodeId);

    open spec fn has_node(&self, node: NodeId) -> bool {
        self@.contains_key(node)
    }

    open spec fn edges_from(&self, node: NodeId) -> Set<(NodeId, NodeId)> {
        Set::new(
            |edge: (NodeId, NodeId)|
                edge.0 == node && self@.contains_key(node) && self@[node].1.contains_key(edge.1),
        )
    }

    open spec fn target_of(&self, edge: (NodeId, NodeId)) -> Option<NodeId> {
        if self@.contains_key(edge.1) {
            Some(edge.1)
        } else {
            None
        }
    }

    open spec fn weight_of(&self, edge: (NodeId, NodeId)) -> Weight {
        self@[edge.0].1[edge.1]
    }

    fn target(&self, edge: &(NodeId, NodeId)) -> (target: Option<NodeId>) {
        if self.map.contains_key(&edge.1) {
            Some(edge.1)
        } else {
            None
        }
    }

    /// An edge whose source is unknown is refused as `UnknownNode`, one that
    /// is not among the arcs of a known source as `UnknownEdge`.
    fn weight(&self, edge: &(NodeId, NodeId)) -> (weight: Result<Weight, GraphError>)
        ensures
            self@.contains_key(edge.0) && self@[edge.0].1.contains_key(edge.1) ==> weight == Ok::<
                Weight,
                GraphError,
            >(self@[edge.0].1[edge.1]),
            !self@.contains_key(edge.0) ==> weight == Err::<Weight, GraphError>(
                GraphError::UnknownNode,
            ),
            self@.contains_key(edge.0) && !self@[edge.0].1.contains_key(edge.1) ==> weight == Err::<
                Weight,
                GraphError,
            >(GraphError::UnknownEdge),
    {
        proof {
            use_type_invariant(*self);
            if self@.contains_key(edge.0) && self@[edge.0].1.contains_key(edge.1) {
                assert(self.has_node(edge.0) && self.edges_from(edge.0).contains(*edge));
            }
        }
        match self.map.get(&edge.0) {
            Some(slot) => match self.nodes[*slot].outgoing.get(&edge.1) {
                Some(weight) => Ok(*weight),
                None => Err(GraphError::UnknownEdge),
            },
            None => Err(GraphError::UnknownNode),
        }
    }

    fn outgoing_edges(&self, node: &NodeId) -> (edges: Vec<(NodeId, NodeId)>) {
        proof {
            use_type_invariant(*self);
        }
        let mut edges: Vec<(NodeId, NodeId)> = Vec::new();
        let slot: usize = *self.map.get(node).unwrap();
        let outgoing = &self.nodes[slot].outgoing;
        for to in targets: outgoing.keys()
            invariant
                edges@.len() == targets.index(),
                forall|i: int| 0 <= i < edges@.len() ==> edges@[i] == (*node, *targets.seq()[i]),
        {
            edges.push((*node, *to));
        }
        proof {
            let keys = outgoing.keys().remaining().unref();
            assert(edges@ =~= keys.map_values(|to: NodeId| (*node, to)));
            assert forall|edge: (NodeId, NodeId)| self.edges_from(*node).contains(edge) implies edges@.contains(
                edge,
            ) by {
                assert(keys.to_set().contains(edge.1));
                let i = choose|i: int| 0 <= i < keys.len() && keys[i] == edge.1;
                assert(edges@[i] == edge);
            }
            assert(edges@.to_set() =~= self.edges_from(*node));
        }
        edges
    }
}

/// An edge of an adjacency map names its source, so it leaves no other
/// node.
pub proof fn lemma_edges_have_one_source<'a, V>(graph: &&'a AdjacencyMap<V, Weight>)
    ensures
        crate::tree_weight::edges_have_one_source(graph),
{
}

} // verus!
