//! The mathematical vocabulary of the algorithms: arcs, walks and their cost.

use vstd::prelude::*;
use crate::{Graph, NodeId};

verus! {

/// `edge` leaves `from` and points to `to`, both nodes of the graph.
pub open spec fn is_arc<G: Graph>(graph: &G, from: NodeId, edge: G::Edge, to: NodeId) -> bool {
    &&& graph.has_node(from)
    &&& graph.edges_from(from).contains(edge)
    &&& graph.target_of(edge) == Some(to)
    &&& graph.has_node(to)
}

/// Some edge of the graph leads from `from` to `to`.
pub open spec fn adjacent<G: Graph>(graph: &G, from: NodeId, to: NodeId) -> bool {
    exists|edge: G::Edge| is_arc(graph, from, edge, to)
}

/// `edges` can be followed one after the other through `nodes`: edge `i` leads
/// from node `i` to node `i + 1`.
pub open spec fn is_walk<G: Graph>(graph: &G, nodes: Seq<NodeId>, edges: Seq<G::Edge>) -> bool {
    &&& nodes.len() == edges.len() + 1
    &&& graph.has_node(nodes[0])
    &&& forall|i: int| 0 <= i < edges.len() ==> is_arc(graph, nodes[i], #[trigger] edges[i], nodes[i + 1])
}

/// A walk that starts at `from` and ends at `to`.
pub open spec fn connects<G: Graph>(
    graph: &G,
    from: NodeId,
    to: NodeId,
    nodes: Seq<NodeId>,
    edges: Seq<G::Edge>,
) -> bool {
    &&& is_walk(graph, nodes, edges)
    &&& nodes.first() == from
    &&& nodes.last() == to
}

/// Some walk leads from `from` to `to`.
pub open spec fn reachable<G: Graph>(graph: &G, from: NodeId, to: NodeId) -> bool {
    exists|nodes: Seq<NodeId>, edges: Seq<G::Edge>| connects(graph, from, to, nodes, edges)
}

/// The sum of the weights of `edges`.
pub open spec fn walk_cost<G: Graph>(graph: &G, edges: Seq<G::Edge>) -> nat
    decreases edges.len(),
{
    if edges.len() == 0 {
        0
    } else {
        walk_cost(graph, edges.drop_last()) + graph.weight_of(edges.last()) as nat
    }
}

/// A node of the graph reaches itself, by the walk without edges.
pub proof fn lemma_reachable_self<G: Graph>(graph: &G, node: NodeId)
    requires
        graph.has_node(node),
    ensures
        reachable(graph, node, node),
{
    assert(connects(graph, node, node, seq![node], Seq::<G::Edge>::empty()));
}

/// A walk can be made longer by an arc that leaves its last node.
pub proof fn lemma_walk_push<G: Graph>(
    graph: &G,
    nodes: Seq<NodeId>,
    edges: Seq<G::Edge>,
    edge: G::Edge,
    to: NodeId,
)
    requires
        is_walk(graph, nodes, edges),
        is_arc(graph, nodes.last(), edge, to),
    ensures
        is_walk(graph, nodes.push(to), edges.push(edge)),
        walk_cost(graph, edges.push(edge)) == walk_cost(graph, edges) + graph.weight_of(edge),
{
    assert(edges.push(edge).drop_last() =~= edges);
}

/// What is reached stays reached when one more arc is followed.
pub proof fn lemma_reachable_step<G: Graph>(
    graph: &G,
    from: NodeId,
    via: NodeId,
    edge: G::Edge,
    to: NodeId,
)
    requires
        reachable(graph, from, via),
        is_arc(graph, via, edge, to),
    ensures
        reachable(graph, from, to),
{
    let (nodes, edges) = choose|nodes: Seq<NodeId>, edges: Seq<G::Edge>|
        connects(graph, from, via, nodes, edges);
    lemma_walk_push(graph, nodes, edges, edge, to);
    assert(connects(graph, from, to, nodes.push(to), edges.push(edge)));
}

/// A walk can be made longer by an arc that leads to its first node.
pub proof fn lemma_walk_prepend<G: Graph>(
    graph: &G,
    from: NodeId,
    edge: G::Edge,
    nodes: Seq<NodeId>,
    edges: Seq<G::Edge>,
)
    requires
        is_walk(graph, nodes, edges),
        is_arc(graph, from, edge, nodes.first()),
    ensures
        is_walk(graph, seq![from] + nodes, seq![edge] + edges),
        walk_cost(graph, seq![edge] + edges) == graph.weight_of(edge) + walk_cost(graph, edges),
{
    let longer = seq![edge] + edges;
    let through = seq![from] + nodes;
    assert forall|i: int| 0 <= i < longer.len() implies is_arc(
        graph,
        through[i],
        #[trigger] longer[i],
        through[i + 1],
    ) by {
        if i > 0 {
            assert(is_arc(graph, nodes[i - 1], edges[i - 1], nodes[i - 1 + 1]));
        }
    }
    lemma_walk_cost_concat(graph, seq![edge], edges);
    assert(seq![edge].drop_last() =~= Seq::<G::Edge>::empty());
    assert(walk_cost(graph, seq![edge]) == graph.weight_of(edge)) by {
        assert(walk_cost(graph, seq![edge].drop_last()) == 0);
    }
}

/// The cost of two sequences of edges, one after the other, is the sum of
/// their costs.
pub proof fn lemma_walk_cost_concat<G: Graph>(graph: &G, first: Seq<G::Edge>, second: Seq<G::Edge>)
    ensures
        walk_cost(graph, first + second) == walk_cost(graph, first) + walk_cost(graph, second),
    decreases second.len(),
{
    if second.len() == 0 {
        assert(first + second =~= first);
    } else {
        lemma_walk_cost_concat(graph, first, second.drop_last());
        assert((first + second).drop_last() =~= first + second.drop_last());
    }
}

/// Any stretch of a walk is a walk.
pub proof fn lemma_subwalk<G: Graph>(
    graph: &G,
    nodes: Seq<NodeId>,
    edges: Seq<G::Edge>,
    from: int,
    to: int,
)
    requires
        is_walk(graph, nodes, edges),
        0 <= from <= to < nodes.len(),
    ensures
        is_walk(graph, nodes.subrange(from, to + 1), edges.subrange(from, to)),
{
    let part_nodes = nodes.subrange(from, to + 1);
    let part_edges = edges.subrange(from, to);
    if from > 0 {
        assert(is_arc(graph, nodes[from - 1], edges[from - 1], nodes[from - 1 + 1]));
    }
    assert forall|i: int| 0 <= i < part_edges.len() implies is_arc(
        graph,
        part_nodes[i],
        #[trigger] part_edges[i],
        part_nodes[i + 1],
    ) by {
        assert(is_arc(graph, nodes[from + i], edges[from + i], nodes[from + i + 1]));
    }
}

/// A walk that begins inside a set of nodes and ends outside it leaves the
/// set somewhere: the result is a position whose node is inside while the
/// next one is outside.
pub proof fn lemma_walk_leaves<G: Graph>(
    graph: &G,
    inside: Set<NodeId>,
    nodes: Seq<NodeId>,
    edges: Seq<G::Edge>,
) -> (at: int)
    requires
        is_walk(graph, nodes, edges),
        inside.contains(nodes.first()),
        !inside.contains(nodes.last()),
    ensures
        0 <= at < edges.len(),
        inside.contains(nodes[at]),
        !inside.contains(nodes[at + 1]),
    decreases nodes.len(),
{
    let before_last = nodes.len() - 2;
    if inside.contains(nodes[before_last]) {
        before_last
    } else {
        lemma_subwalk(graph, nodes, edges, 0, before_last);
        let at = lemma_walk_leaves(
            graph,
            inside,
            nodes.subrange(0, before_last + 1),
            edges.subrange(0, before_last),
        );
        at
    }
}

/// A set of nodes that no arc leaves holds every node that a walk reaches
/// from one of its members.
pub proof fn lemma_closed_set_holds_walk<G: Graph>(
    graph: &G,
    closed: Set<NodeId>,
    nodes: Seq<NodeId>,
    edges: Seq<G::Edge>,
    upto: int,
)
    requires
        is_walk(graph, nodes, edges),
        closed.contains(nodes.first()),
        forall|from: NodeId, edge: G::Edge, to: NodeId|
            closed.contains(from) && #[trigger] is_arc(graph, from, edge, to) ==> closed.contains(to),
        0 <= upto < nodes.len(),
    ensures
        closed.contains(nodes[upto]),
    decreases upto,
{
    if upto > 0 {
        lemma_closed_set_holds_walk(graph, closed, nodes, edges, upto - 1);
        assert(is_arc(graph, nodes[upto - 1], edges[upto - 1], nodes[upto - 1 + 1]));
    }
}

/// A set of nodes that no arc leaves holds every node that is reachable from
/// one of its members.
pub proof fn lemma_closed_set_holds_reachable<G: Graph>(
    graph: &G,
    closed: Set<NodeId>,
    from: NodeId,
    to: NodeId,
)
    requires
        closed.contains(from),
        forall|a: NodeId, edge: G::Edge, b: NodeId|
            closed.contains(a) && #[trigger] is_arc(graph, a, edge, b) ==> closed.contains(b),
        reachable(graph, from, to),
    ensures
        closed.contains(to),
{
    let (nodes, edges) = choose|nodes: Seq<NodeId>, edges: Seq<G::Edge>|
        connects(graph, from, to, nodes, edges);
    lemma_closed_set_holds_walk(graph, closed, nodes, edges, nodes.len() - 1);
}

} // verus!
