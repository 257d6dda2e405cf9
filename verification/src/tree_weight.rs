//! Why the tree that Prim's algorithm grows is a minimum spanning tree: in an
//! undirected graph no set of edges that holds the component of the start
//! node together weighs less.

use vstd::prelude::*;
use crate::minimum_spanning_tree::{grows_from, joins, picks_cheapest, tree_nodes};
use crate::walk::{is_arc, lemma_reachable_self, lemma_reachable_step, reachable, walk_cost};
use crate::{Graph, NodeId};

verus! {

/// `edge` leads from `a` to `b` or from `b` to `a`.
pub open spec fn links<G: Graph>(graph: &G, edge: G::Edge, a: NodeId, b: NodeId) -> bool {
    is_arc(graph, a, edge, b) || is_arc(graph, b, edge, a)
}

/// One of `edges` links `a` and `b`.
pub open spec fn linked_by<G: Graph>(graph: &G, edges: Seq<G::Edge>, a: NodeId, b: NodeId) -> bool {
    exists|k: int| 0 <= k < edges.len() && links(graph, #[trigger] edges[k], a, b)
}

/// One of `edges` links node `at` of `nodes` and the next one.
pub open spec fn chain_step<G: Graph>(
    graph: &G,
    edges: Seq<G::Edge>,
    nodes: Seq<NodeId>,
    at: int,
) -> bool {
    linked_by(graph, edges, nodes[at], nodes[at + 1])
}

/// Each node of `nodes` is linked to the next by one of `edges`, followed in
/// either direction.
pub open spec fn is_chain<G: Graph>(graph: &G, edges: Seq<G::Edge>, nodes: Seq<NodeId>) -> bool {
    &&& nodes.len() >= 1
    &&& forall|at: int| 0 <= at < nodes.len() - 1 ==> #[trigger] chain_step(graph, edges, nodes, at)
}

/// `edges` hold the component of `start` together: a chain of them leads
/// from `start` to every node that can be reached from it.
pub open spec fn connects_all<G: Graph>(graph: &G, start: NodeId, edges: Seq<G::Edge>) -> bool {
    forall|node: NodeId| #[trigger]
        reachable(graph, start, node) ==> exists|nodes: Seq<NodeId>| #[trigger]
            is_chain(graph, edges, nodes) && nodes.first() == start && nodes.last() == node
}

/// Every edge has one that leads back, at the same weight.
pub open spec fn is_symmetric<G: Graph>(graph: &G) -> bool {
    forall|from: NodeId, edge: G::Edge, to: NodeId| #[trigger]
        is_arc(graph, from, edge, to) ==> exists|back: G::Edge| #[trigger]
            is_arc(graph, to, back, from) && graph.weight_of(back) == graph.weight_of(edge)
}

/// No edge leaves two nodes.
pub open spec fn edges_have_one_source<G: Graph>(graph: &G) -> bool {
    forall|edge: G::Edge, a: NodeId, b: NodeId|
        graph.has_node(a) && #[trigger] graph.edges_from(a).contains(edge) && graph.has_node(b)
            && #[trigger] graph.edges_from(b).contains(edge) ==> a == b
}

/// No edge of `bag` leads out of `region`, in either direction.
spec fn closed_under<G: Graph>(graph: &G, bag: Seq<G::Edge>, region: Set<NodeId>) -> bool {
    forall|k: int, a: NodeId, b: NodeId|
        0 <= k < bag.len() && #[trigger] links(graph, bag[k], a, b) && region.contains(a)
            ==> region.contains(b)
}

/// Every region that holds `start` and that no edge of `bag` leads out of
/// holds the whole component of `start`.
spec fn holds_component<G: Graph>(graph: &G, start: NodeId, bag: Seq<G::Edge>) -> bool {
    forall|region: Set<NodeId>, node: NodeId|
        region.contains(start) && #[trigger] closed_under(graph, bag, region) && #[trigger] reachable(
            graph,
            start,
            node,
        ) ==> region.contains(node)
}

/// No edge of `bag` that links two nodes outside `inside` leads out of
/// `region`.
spec fn closed_outside<G: Graph>(
    graph: &G,
    bag: Seq<G::Edge>,
    inside: Set<NodeId>,
    region: Set<NodeId>,
) -> bool {
    forall|k: int, a: NodeId, b: NodeId|
        0 <= k < bag.len() && #[trigger] links(graph, bag[k], a, b) && !inside.contains(a)
            && !inside.contains(b) && region.contains(a) ==> region.contains(b)
}

/// The nodes that edges of `bag` join to `from` without touching `inside`.
spec fn outside_part<G: Graph>(
    graph: &G,
    bag: Seq<G::Edge>,
    inside: Set<NodeId>,
    from: NodeId,
) -> Set<NodeId> {
    Set::new(
        |node: NodeId|
            forall|region: Set<NodeId>|
                region.contains(from) && #[trigger] closed_outside(graph, bag, inside, region)
                    ==> region.contains(node),
    )
}

/// A region that no edge leads out of holds every node of a chain that
/// begins in it.
proof fn lemma_chain_stays<G: Graph>(
    graph: &G,
    bag: Seq<G::Edge>,
    region: Set<NodeId>,
    nodes: Seq<NodeId>,
    at: int,
)
    requires
        is_chain(graph, bag, nodes),
        closed_under(graph, bag, region),
        region.contains(nodes.first()),
        0 <= at < nodes.len(),
    ensures
        region.contains(nodes[at]),
    decreases at,
{
    if at > 0 {
        lemma_chain_stays(graph, bag, region, nodes, at - 1);
        assert(chain_step(graph, bag, nodes, at - 1));
        let k = choose|k: int|
            0 <= k < bag.len() && links(graph, #[trigger] bag[k], nodes[at - 1], nodes[at - 1 + 1]);
        assert(links(graph, bag[k], nodes[at - 1], nodes[at]));
    }
}

/// Edges that connect a component hold it together.
proof fn lemma_connected_holds<G: Graph>(graph: &G, start: NodeId, bag: Seq<G::Edge>)
    requires
        connects_all(graph, start, bag),
    ensures
        holds_component(graph, start, bag),
{
    assert forall|region: Set<NodeId>, node: NodeId|
        region.contains(start) && #[trigger] closed_under(graph, bag, region) && #[trigger] reachable(
            graph,
            start,
            node,
        ) implies region.contains(node) by {
        let nodes = choose|nodes: Seq<NodeId>| #[trigger]
            is_chain(graph, bag, nodes) && nodes.first() == start && nodes.last() == node;
        lemma_chain_stays(graph, bag, region, nodes, nodes.len() - 1);
    }
}

/// An edge that leaves one node only links one pair of nodes.
proof fn lemma_one_pair<G: Graph>(
    graph: &G,
    edge: G::Edge,
    a: NodeId,
    b: NodeId,
    x: NodeId,
    y: NodeId,
)
    requires
        edges_have_one_source(graph),
        links(graph, edge, a, b),
        links(graph, edge, x, y),
    ensures
        (a == x && b == y) || (a == y && b == x),
{
    let from = if is_arc(graph, a, edge, b) {
        a
    } else {
        b
    };
    let other = if is_arc(graph, x, edge, y) {
        x
    } else {
        y
    };
    assert(graph.edges_from(from).contains(edge) && graph.edges_from(other).contains(edge));
}

/// The weight of a bag of edges is that of one of them plus that of the
/// rest.
proof fn lemma_cost_without<G: Graph>(graph: &G, bag: Seq<G::Edge>, at: int)
    requires
        0 <= at < bag.len(),
    ensures
        walk_cost(graph, bag) == walk_cost(graph, bag.remove(at)) + graph.weight_of(bag[at]),
    decreases bag.len(),
{
    if at == bag.len() - 1 {
        assert(bag.remove(at) =~= bag.drop_last());
    } else {
        lemma_cost_without(graph, bag.drop_last(), at);
        assert(bag.remove(at).drop_last() =~= bag.drop_last().remove(at));
        assert(bag.remove(at).last() == bag.last());
    }
}

/// Edges that all occur in a bag, none of them twice, weigh no more than the
/// bag.
proof fn lemma_part_weighs_less<G: Graph>(graph: &G, part: Seq<G::Edge>, bag: Seq<G::Edge>)
    requires
        part.no_duplicates(),
        forall|k: int| 0 <= k < part.len() ==> bag.contains(#[trigger] part[k]),
    ensures
        walk_cost(graph, part) <= walk_cost(graph, bag),
    decreases part.len(),
{
    if part.len() > 0 {
        let last = part.last();
        assert(bag.contains(part[part.len() - 1]));
        let at = choose|at: int| 0 <= at < bag.len() && bag[at] == last;
        let rest = bag.remove(at);
        assert forall|k: int| 0 <= k < part.drop_last().len() implies rest.contains(
            #[trigger] part.drop_last()[k],
        ) by {
            assert(bag.contains(part[k]));
            let p = choose|p: int| 0 <= p < bag.len() && bag[p] == part[k];
            assert(part[k] != part[part.len() - 1]);
            if p < at {
                assert(rest[p] == bag[p]);
            } else {
                assert(rest[p - 1] == bag[p]);
            }
        }
        lemma_part_weighs_less(graph, part.drop_last(), rest);
        lemma_cost_without(graph, bag, at);
    }
}

/// The edges of a tree that grows from `start` are all different.
proof fn lemma_tree_edges_differ<G: Graph>(graph: &G, start: NodeId, tree: Seq<G::Edge>)
    requires
        grows_from(graph, start, tree),
    ensures
        tree.no_duplicates(),
{
    let nodes = tree_nodes(graph, start, tree);
    assert forall|a: int, b: int| 0 <= a < tree.len() && 0 <= b < tree.len() && a != b implies tree[a]
        != tree[b] by {
        let (low, high) = if a < b {
            (a, b)
        } else {
            (b, a)
        };
        assert(joins(graph, start, tree, high));
        assert(nodes[low + 1] != nodes[high + 1]);
    }
}

/// Every node of a tree that grows from `start` can be reached from `start`.
proof fn lemma_tree_nodes_reachable<G: Graph>(graph: &G, start: NodeId, tree: Seq<G::Edge>, at: int)
    requires
        graph.has_node(start),
        grows_from(graph, start, tree),
        0 <= at <= tree.len(),
    ensures
        reachable(graph, start, tree_nodes(graph, start, tree)[at]),
    decreases at,
{
    let nodes = tree_nodes(graph, start, tree);
    if at == 0 {
        lemma_reachable_self(graph, start);
    } else {
        assert(joins(graph, start, tree, at - 1));
        let j = choose|j: int|
            0 <= j <= at - 1 && is_arc(graph, #[trigger] nodes[j], tree[at - 1], nodes[at - 1 + 1]);
        lemma_tree_nodes_reachable(graph, start, tree, j);
        lemma_reachable_step(graph, start, nodes[j], tree[at - 1], nodes[at]);
    }
}

/// A region that holds `start` and that no edge of `bag` leads out of holds
/// the nodes that the first `upto` edges of the tree connect, where `bag`
/// has those edges.
proof fn lemma_tree_in_region<G: Graph>(
    graph: &G,
    start: NodeId,
    tree: Seq<G::Edge>,
    bag: Seq<G::Edge>,
    region: Set<NodeId>,
    upto: int,
    at: int,
)
    requires
        grows_from(graph, start, tree),
        closed_under(graph, bag, region),
        region.contains(start),
        0 <= at <= upto <= tree.len(),
        forall|k: int| 0 <= k < upto ==> bag.contains(#[trigger] tree[k]),
    ensures
        region.contains(tree_nodes(graph, start, tree)[at]),
    decreases at,
{
    let nodes = tree_nodes(graph, start, tree);
    if at > 0 {
        assert(joins(graph, start, tree, at - 1));
        let j = choose|j: int|
            0 <= j <= at - 1 && is_arc(graph, #[trigger] nodes[j], tree[at - 1], nodes[at - 1 + 1]);
        lemma_tree_in_region(graph, start, tree, bag, region, upto, j);
        assert(bag.contains(tree[at - 1]));
        let k = choose|k: int| 0 <= k < bag.len() && bag[k] == tree[at - 1];
        assert(links(graph, bag[k], nodes[j], nodes[at]));
    }
}

/// Edges that hold a component together cross every border inside it: where
/// `inside` has `start` but not the reachable node `to`, one of the edges
/// links a node inside to a node outside that is joined to `to` outside.
proof fn lemma_crossing<G: Graph>(
    graph: &G,
    start: NodeId,
    bag: Seq<G::Edge>,
    inside: Set<NodeId>,
    to: NodeId,
) -> (found: (int, NodeId, NodeId))
    requires
        holds_component(graph, start, bag),
        inside.contains(start),
        !inside.contains(to),
        reachable(graph, start, to),
    ensures
        0 <= found.0 < bag.len(),
        links(graph, bag[found.0], found.1, found.2),
        inside.contains(found.1),
        !inside.contains(found.2),
        outside_part(graph, bag, inside, to).contains(found.2),
{
    let part = outside_part(graph, bag, inside, to);
    let outside = Set::new(|node: NodeId| !inside.contains(node));
    assert(closed_outside(graph, bag, inside, outside));
    assert forall|node: NodeId| part.contains(node) implies !inside.contains(node) by {
        assert(outside.contains(node));
    }
    assert(part.contains(to));
    if exists|k: int, x: NodeId, y: NodeId|
        0 <= k < bag.len() && #[trigger] links(graph, bag[k], x, y) && inside.contains(x) && part.contains(
            y,
        ) {
        let (k, x, y) = choose|k: int, x: NodeId, y: NodeId|
            0 <= k < bag.len() && #[trigger] links(graph, bag[k], x, y) && inside.contains(x)
                && part.contains(y);
        (k, x, y)
    } else {
        let region = Set::new(|node: NodeId| !part.contains(node));
        assert forall|k: int, a: NodeId, b: NodeId|
            0 <= k < bag.len() && #[trigger] links(graph, bag[k], a, b) && region.contains(
                a,
            ) implies region.contains(b) by {
            if part.contains(b) {
                if !inside.contains(a) {
                    assert forall|other: Set<NodeId>|
                        other.contains(to) && #[trigger] closed_outside(
                            graph,
                            bag,
                            inside,
                            other,
                        ) implies other.contains(a) by {
                        assert(other.contains(b));
                        assert(links(graph, bag[k], b, a));
                    }
                    assert(part.contains(a));
                }
            }
        }
        assert(closed_under(graph, bag, region));
        assert(region.contains(start));
        assert(region.contains(to));
        (0, start, start)
    }
}

/// Putting the next edge of the tree in the place of an edge that crosses
/// the border of the tree leaves the component held together.
proof fn lemma_swap_holds<G: Graph>(
    graph: &G,
    start: NodeId,
    tree: Seq<G::Edge>,
    bag: Seq<G::Edge>,
    upto: int,
    at: int,
    x: NodeId,
    y: NodeId,
)
    requires
        edges_have_one_source(graph),
        grows_from(graph, start, tree),
        holds_component(graph, start, bag),
        0 <= upto < tree.len(),
        forall|k: int| 0 <= k <= upto ==> bag.update(at, tree[upto]).contains(#[trigger] tree[k]),
        0 <= at < bag.len(),
        links(graph, bag[at], x, y),
        tree_nodes(graph, start, tree).take(upto + 1).contains(x),
        outside_part(
            graph,
            bag,
            Set::new(|node: NodeId| tree_nodes(graph, start, tree).take(upto + 1).contains(node)),
            tree_nodes(graph, start, tree)[upto + 1],
        ).contains(y),
    ensures
        holds_component(graph, start, bag.update(at, tree[upto])),
{
    let nodes = tree_nodes(graph, start, tree);
    let inside = Set::new(|node: NodeId| nodes.take(upto + 1).contains(node));
    let to = nodes[upto + 1];
    let swapped = bag.update(at, tree[upto]);
    assert forall|region: Set<NodeId>, node: NodeId|
        region.contains(start) && #[trigger] closed_under(graph, swapped, region) && #[trigger] reachable(
            graph,
            start,
            node,
        ) implies region.contains(node) by {
        let joined = nodes.take(upto + 1);
        let j = choose|j: int| 0 <= j < joined.len() && joined[j] == x;
        lemma_tree_in_region(graph, start, tree, swapped, region, upto + 1, j);
        lemma_tree_in_region(graph, start, tree, swapped, region, upto + 1, upto + 1);
        assert(region.contains(x));
        assert(region.contains(to));
        assert forall|k: int, a: NodeId, b: NodeId|
            0 <= k < bag.len() && #[trigger] links(graph, bag[k], a, b) && !inside.contains(a)
                && !inside.contains(b) && region.contains(a) implies region.contains(b) by {
            if k == at {
                lemma_one_pair(graph, bag[at], a, b, x, y);
            } else {
                assert(swapped[k] == bag[k]);
            }
        }
        assert(closed_outside(graph, bag, inside, region));
        assert(region.contains(y));
        assert forall|k: int, a: NodeId, b: NodeId|
            0 <= k < bag.len() && #[trigger] links(graph, bag[k], a, b) && region.contains(
                a,
            ) implies region.contains(b) by {
            if k == at {
                lemma_one_pair(graph, bag[at], a, b, x, y);
            } else {
                assert(swapped[k] == bag[k]);
            }
        }
        assert(closed_under(graph, bag, region));
    }
}

/// Edges that hold the component together can be exchanged, one by one and
/// without gaining weight, for the first `upto` edges of the tree.
proof fn lemma_exchange<G: Graph>(
    graph: &G,
    start: NodeId,
    tree: Seq<G::Edge>,
    other: Seq<G::Edge>,
    upto: int,
) -> (bag: Seq<G::Edge>)
    requires
        is_symmetric(graph),
        edges_have_one_source(graph),
        graph.has_node(start),
        grows_from(graph, start, tree),
        picks_cheapest(graph, start, tree),
        holds_component(graph, start, other),
        0 <= upto <= tree.len(),
    ensures
        walk_cost(graph, bag) <= walk_cost(graph, other),
        holds_component(graph, start, bag),
        forall|k: int| 0 <= k < upto ==> bag.contains(#[trigger] tree[k]),
    decreases upto,
{
    if upto == 0 {
        other
    } else {
        let before = lemma_exchange(graph, start, tree, other, upto - 1);
        let i = upto - 1;
        let edge = tree[i];
        if before.contains(edge) {
            before
        } else {
            let nodes = tree_nodes(graph, start, tree);
            let inside = Set::new(|node: NodeId| nodes.take(i + 1).contains(node));
            let to = nodes[i + 1];
            assert(joins(graph, start, tree, i));
            let j = choose|j: int| 0 <= j <= i && is_arc(graph, #[trigger] nodes[j], tree[i], nodes[i + 1]);
            let from = nodes[j];
            let joined = nodes.take(i + 1);
            assert(joined[j] == from);
            assert(joined[0] == start);
            assert forall|m: int| 0 <= m < joined.len() implies #[trigger] joined[m] != to by {
                assert(nodes[m] != nodes[i + 1]);
            }
            lemma_tree_nodes_reachable(graph, start, tree, i + 1);
            let (at, x, y) = lemma_crossing(graph, start, before, inside, to);
            let crossing = before[at];
            assert(graph.weight_of(edge) <= graph.weight_of(crossing)) by {
                if is_arc(graph, x, crossing, y) {
                    assert(joined.contains(x) && !joined.contains(y));
                } else {
                    let back = choose|back: G::Edge| #[trigger]
                        is_arc(graph, x, back, y) && graph.weight_of(back) == graph.weight_of(crossing);
                    assert(is_arc(graph, x, back, y));
                    assert(joined.contains(x) && !joined.contains(y));
                }
            }
            let after = before.update(at, edge);
            lemma_cost_without(graph, before, at);
            lemma_cost_without(graph, after, at);
            assert(after.remove(at) =~= before.remove(at));
            assert forall|k: int| 0 <= k < upto implies after.contains(#[trigger] tree[k]) by {
                if k == i {
                    assert(after[at] == edge);
                } else {
                    assert(before.contains(tree[k]));
                    let p = choose|p: int| 0 <= p < before.len() && before[p] == tree[k];
                    if p == at {
                        assert(joins(graph, start, tree, k));
                        let s = choose|s: int|
                            0 <= s <= k && is_arc(graph, #[trigger] nodes[s], tree[k], nodes[k + 1]);
                        assert(links(graph, crossing, nodes[s], nodes[k + 1]));
                        lemma_one_pair(graph, crossing, nodes[s], nodes[k + 1], x, y);
                        assert(joined[s] == nodes[s]);
                        assert(joined[k + 1] == nodes[k + 1]);
                    }
                    assert(after[p] == before[p]);
                }
            }
            lemma_swap_holds(graph, start, tree, before, i, at, x, y);
            after
        }
    }
}

/// In an undirected graph the tree that is grown from `start` by taking,
/// each time, a cheapest edge that leads out of it weighs no more than any
/// edges that hold the component of `start` together: it is a minimum
/// spanning tree of that component.
pub proof fn lemma_tree_is_minimum<G: Graph>(
    graph: &G,
    start: NodeId,
    tree: Seq<G::Edge>,
    other: Seq<G::Edge>,
)
    requires
        is_symmetric(graph),
        edges_have_one_source(graph),
        graph.has_node(start),
        grows_from(graph, start, tree),
        picks_cheapest(graph, start, tree),
        connects_all(graph, start, other),
    ensures
        walk_cost(graph, tree) <= walk_cost(graph, other),
{
    lemma_connected_holds(graph, start, other);
    let bag = lemma_exchange(graph, start, tree, other, tree.len() as int);
    lemma_tree_edges_differ(graph, start, tree);
    lemma_part_weighs_less(graph, tree, bag);
}

} // verus!
