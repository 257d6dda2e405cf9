//! Minimum spanning trees by Prim's algorithm: a tree grows from a start node,
//! one cheapest edge at a time, until it holds every node that can be reached.

use vstd::prelude::*;
use std::collections::HashSet;
use crate::frontier::{first_minimum, Frontier};
use crate::tree_weight::{connects_all, edges_have_one_source, is_symmetric, lemma_tree_is_minimum};
use crate::walk::{
    is_arc, lemma_closed_set_holds_reachable, lemma_reachable_self, lemma_reachable_step, reachable,
    walk_cost,
};
use crate::{Cost, Graph, NodeId};

verus! {

broadcast use vstd::std_specs::hash::group_hash_axioms;

/// The nodes of a tree in the order in which they joined it: `start`, then
/// the target of each edge of `tree`.
pub open spec fn tree_nodes<G: Graph>(graph: &G, start: NodeId, tree: Seq<G::Edge>) -> Seq<NodeId> {
    Seq::new(
        tree.len() + 1,
        |i: int|
            if i == 0 {
                start
            } else {
                match graph.target_of(tree[i - 1]) {
                    Some(node) => node,
                    None => start,
                }
            },
    )
}

/// Each edge of `tree` leads from a node that joined before it to a node
/// that had not joined yet.
pub open spec fn grows_from<G: Graph>(graph: &G, start: NodeId, tree: Seq<G::Edge>) -> bool {
    forall|i: int| 0 <= i < tree.len() ==> #[trigger] joins(graph, start, tree, i)
}

/// Edge `i` of `tree` leads from a node that joined before it to a node that
/// had not joined yet.
pub open spec fn joins<G: Graph>(graph: &G, start: NodeId, tree: Seq<G::Edge>, i: int) -> bool {
    let nodes = tree_nodes(graph, start, tree);
    &&& exists|j: int| 0 <= j <= i && is_arc(graph, #[trigger] nodes[j], tree[i], nodes[i + 1])
    &&& forall|j: int| 0 <= j <= i ==> #[trigger] nodes[j] != nodes[i + 1]
}

/// Every node that can be reached from `start` has joined `tree`.
pub open spec fn spans<G: Graph>(graph: &G, start: NodeId, tree: Seq<G::Edge>) -> bool {
    forall|node: NodeId| #[trigger]
        reachable(graph, start, node) ==> tree_nodes(graph, start, tree).contains(node)
}

/// Each edge of `tree` was, when it joined, as cheap as any edge of the graph
/// that led from a node of the tree to a node outside it.
pub open spec fn picks_cheapest<G: Graph>(graph: &G, start: NodeId, tree: Seq<G::Edge>) -> bool {
    let nodes = tree_nodes(graph, start, tree);
    forall|i: int, from: NodeId, edge: G::Edge, to: NodeId|
        0 <= i < tree.len() && #[trigger] is_arc(graph, from, edge, to) && nodes.take(i + 1).contains(
            from,
        ) && !nodes.take(i + 1).contains(to) ==> graph.weight_of(#[trigger] tree[i])
            <= graph.weight_of(edge)
}

/// No edges that hold the component of `start` together weigh less than
/// `tree`.
pub open spec fn is_minimum<G: Graph>(graph: &G, start: NodeId, tree: Seq<G::Edge>) -> bool {
    forall|other: Seq<G::Edge>| #[trigger]
        connects_all(graph, start, other) ==> walk_cost(graph, tree) <= walk_cost(graph, other)
}

/// The nodes that can be reached from `start`.
pub open spec fn component<G: Graph>(graph: &G, start: NodeId) -> Set<NodeId> {
    Set::new(|node: NodeId| reachable(graph, start, node))
}

/// What holds of a candidate edge that waits in the frontier: it leaves a
/// node of the tree and waits with its weight.
spec fn candidate_ok<G: Graph>(graph: &G, connected: Set<NodeId>, entry: (Cost, G::Edge)) -> bool {
    &&& entry.0 == graph.weight_of(entry.1)
    &&& exists|from: NodeId|
        connected.contains(from) && graph.has_node(from) && #[trigger] graph.edges_from(from).contains(
            entry.1,
        )
}

/// Every edge that leads from `from` out of the tree waits in the frontier.
spec fn offered<G: Graph>(
    graph: &G,
    connected: Set<NodeId>,
    frontier: Seq<(Cost, G::Edge)>,
    from: NodeId,
) -> bool {
    forall|edge: G::Edge, to: NodeId| #[trigger]
        is_arc(graph, from, edge, to) && !connected.contains(to) ==> exists|j: int|
            0 <= j < frontier.len() && (#[trigger] frontier[j]).1 == edge
}

/// Lets every edge that leaves `node` for a node outside the tree wait in the
/// frontier, with its weight as priority.
fn offer_edges<G: Graph>(
    graph: &G,
    node: NodeId,
    connected_nodes: &HashSet<NodeId>,
    active_edges: &mut Frontier<G::Edge>,
) where G::Edge: Copy
    requires
        graph.has_node(node),
        connected_nodes@.contains(node),
        forall|j: int|
            0 <= j < old(active_edges)@.len() ==> candidate_ok(
                graph,
                connected_nodes@,
                #[trigger] old(active_edges)@[j],
            ),
    ensures
        old(active_edges)@.len() <= final(active_edges)@.len(),
        final(active_edges)@.take(old(active_edges)@.len() as int) == old(active_edges)@,
        forall|j: int|
            0 <= j < final(active_edges)@.len() ==> candidate_ok(
                graph,
                connected_nodes@,
                #[trigger] final(active_edges)@[j],
            ),
        offered(graph, connected_nodes@, final(active_edges)@, node),
{
    let edges = graph.outgoing_edges(&node);
    let ghost waiting = active_edges@;
    let mut i: usize = 0;
    while i < edges.len()
        invariant
            0 <= i <= edges@.len(),
            graph.has_node(node),
            connected_nodes@.contains(node),
            edges@.to_set() == graph.edges_from(node),
            waiting.len() <= active_edges@.len(),
            active_edges@.take(waiting.len() as int) == waiting,
            forall|j: int|
                0 <= j < active_edges@.len() ==> candidate_ok(
                    graph,
                    connected_nodes@,
                    #[trigger] active_edges@[j],
                ),
            forall|k: int, to: NodeId|
                0 <= k < i && #[trigger] is_arc(graph, node, edges@[k], to) && !connected_nodes@.contains(to)
                    ==> exists|j: int|
                    0 <= j < active_edges@.len() && (#[trigger] active_edges@[j]).1 == edges@[k],
        decreases edges@.len() - i,
    {
        let edge = edges[i];
        proof {
            assert(edges@.to_set().contains(edges@[i as int]));
        }
        match graph.weight(&edge) {
            Ok(cost) => match graph.target(&edge) {
                Some(target) => {
                    if !connected_nodes.contains(&target) {
                        let ghost before = active_edges@;
                        active_edges.push(cost as Cost, edge);
                        proof {
                            assert(active_edges@.take(waiting.len() as int) =~= before.take(
                                waiting.len() as int,
                            ));
                            assert forall|j: int| 0 <= j < active_edges@.len() implies candidate_ok(
                                graph,
                                connected_nodes@,
                                #[trigger] active_edges@[j],
                            ) by {
                                if j < before.len() {
                                    assert(active_edges@[j] == before[j]);
                                }
                            }
                            assert forall|k: int, to: NodeId|
                                0 <= k < i + 1 && #[trigger] is_arc(graph, node, edges@[k], to)
                                    && !connected_nodes@.contains(to) implies exists|j: int|
                                0 <= j < active_edges@.len() && (#[trigger] active_edges@[j]).1
                                    == edges@[k] by {
                                if k < i {
                                    let j = choose|j: int|
                                        0 <= j < before.len() && (#[trigger] before[j]).1 == edges@[k];
                                    assert(active_edges@[j] == before[j]);
                                } else {
                                    assert(active_edges@[before.len() as int].1 == edge);
                                }
                            }
                        }
                    }
                },
                None => {},
            },
            Err(_) => {
                proof {
                    assert(crate::has_edge(graph, edge));
                }
            },
        }
        i += 1;
    }
    proof {
        assert forall|edge: G::Edge, to: NodeId| #[trigger]
            is_arc(graph, node, edge, to) && !connected_nodes@.contains(to) implies exists|j: int|
            0 <= j < active_edges@.len() && (#[trigger] active_edges@[j]).1 == edge by {
            assert(edges@.to_set().contains(edge));
            let k = choose|k: int| 0 <= k < edges@.len() && edges@[k] == edge;
            assert(is_arc(graph, node, edges@[k], to));
        }
    }
}

/// Grows a spanning tree from `start` over every node that can be reached
/// from it, and gives its edges in the order in which they joined. Among the
/// edges that lead out of the tree the cheapest joins next; among equally
/// cheap ones, the one that was met first. In an undirected graph the tree
/// is a minimum spanning tree of the component of `start`.
pub fn prims<G: Graph>(graph: &G, start: NodeId) -> (tree: Vec<G::Edge>) where G::Edge: Copy
    requires
        graph.has_node(start),
    ensures
        grows_from(graph, start, tree@),
        spans(graph, start, tree@),
        picks_cheapest(graph, start, tree@),
        component(graph, start).finite(),
        component(graph, start).len() == tree@.len() + 1,
        is_symmetric(graph) && edges_have_one_source(graph) ==> is_minimum(graph, start, tree@),
{
    let mut edges: Vec<G::Edge> = Vec::new();
    let mut connected_nodes: HashSet<NodeId> = HashSet::new();
    connected_nodes.insert(start);
    let mut active_edges: Frontier<G::Edge> = Frontier::new();
    offer_edges(graph, start, &connected_nodes, &mut active_edges);
    proof {
        assert(tree_nodes(graph, start, edges@) =~= seq![start]);
        assert(connected_nodes@ =~= seq![start].to_set()) by {
            assert(seq![start][0] == start);
        }
        lemma_reachable_self(graph, start);
    }
    loop
        invariant
            graph.has_node(start),
            connected_nodes@ == tree_nodes(graph, start, edges@).to_set(),
            connected_nodes@.len() == edges@.len() + 1,
            forall|node: NodeId| #[trigger]
                connected_nodes@.contains(node) ==> reachable(graph, start, node),
            grows_from(graph, start, edges@),
            picks_cheapest(graph, start, edges@),
            forall|j: int|
                0 <= j < active_edges@.len() ==> candidate_ok(
                    graph,
                    connected_nodes@,
                    #[trigger] active_edges@[j],
                ),
            forall|from: NodeId| #[trigger]
                connected_nodes@.contains(from) ==> offered(graph, connected_nodes@, active_edges@, from),
        decreases usize::MAX - connected_nodes@.len(), active_edges@.len(),
    {
        let ghost waiting = active_edges@;
        let ghost connected = connected_nodes@;
        let ghost old_tree = edges@;
        let ghost joined = tree_nodes(graph, start, old_tree);
        proof {
            assert(joined[0] == start);
            assert(joined.contains(start));
        }
        let edge = match active_edges.pop() {
            Some(entry) => entry.1,
            None => {
                proof {
                    assert forall|a: NodeId, e: G::Edge, b: NodeId|
                        connected.contains(a) && #[trigger] is_arc(graph, a, e, b) implies connected.contains(
                        b,
                    ) by {
                        assert(offered(graph, connected, waiting, a));
                    }
                    assert forall|node: NodeId| #[trigger]
                        reachable(graph, start, node) implies joined.contains(node) by {
                        lemma_closed_set_holds_reachable(graph, connected, start, node);
                    }
                    assert(component(graph, start) =~= connected);
                    if is_symmetric(graph) && edges_have_one_source(graph) {
                        assert forall|other: Seq<G::Edge>| #[trigger]
                            connects_all(graph, start, other) implies walk_cost(graph, edges@)
                            <= walk_cost(graph, other) by {
                            lemma_tree_is_minimum(graph, start, edges@, other);
                        }
                    }
                }
                return edges;
            },
        };
        let ghost taken = first_minimum(waiting);
        proof {
            assert(connected_nodes@.len() == connected_nodes.len());
            assert(candidate_ok(graph, connected, waiting[taken]));
            assert forall|j: int| 0 <= j < active_edges@.len() implies candidate_ok(
                graph,
                connected,
                #[trigger] active_edges@[j],
            ) by {
                if j < taken {
                    assert(active_edges@[j] == waiting[j]);
                } else {
                    assert(active_edges@[j] == waiting[j + 1]);
                }
            }
        }
        match graph.target(&edge) {
            Some(current_node) => {
                if connected_nodes.insert(current_node) {
                    edges.push(edge);
                    let ghost grown = tree_nodes(graph, start, edges@);
                    proof {
                        assert(edges@ == old_tree.push(edge));
                        assert(grown =~= joined.push(current_node));
                        assert(grown.take(joined.len() as int) =~= joined);
                        assert(connected_nodes@ =~= grown.to_set()) by {
                            assert forall|node: NodeId| connected_nodes@.contains(node) implies grown.contains(
                                node,
                            ) by {
                                if node == current_node {
                                    assert(grown[joined.len() as int] == node);
                                } else {
                                    let j = choose|j: int| 0 <= j < joined.len() && joined[j] == node;
                                    assert(grown[j] == node);
                                }
                            }
                            assert forall|node: NodeId| grown.contains(node) implies connected_nodes@.contains(
                                node,
                            ) by {
                                let j = choose|j: int| 0 <= j < grown.len() && grown[j] == node;
                                if j < joined.len() {
                                    assert(joined[j] == node);
                                    assert(joined.contains(node));
                                }
                            }
                        }
                        let from = choose|from: NodeId|
                            connected.contains(from) && graph.has_node(from) && #[trigger] graph.edges_from(
                                from,
                            ).contains(edge);
                        assert(is_arc(graph, from, edge, current_node));
                        lemma_reachable_step(graph, start, from, edge, current_node);
                        assert forall|i: int| 0 <= i < edges@.len() implies #[trigger] joins(
                            graph,
                            start,
                            edges@,
                            i,
                        ) by {
                            if i < old_tree.len() {
                                assert(joins(graph, start, old_tree, i));
                                assert(edges@[i] == old_tree[i]);
                                let j = choose|j: int|
                                    0 <= j <= i && is_arc(
                                        graph,
                                        #[trigger] joined[j],
                                        old_tree[i],
                                        joined[i + 1],
                                    );
                                assert(is_arc(graph, grown[j], edges@[i], grown[i + 1]));
                                assert forall|j: int| 0 <= j <= i implies #[trigger] grown[j] != grown[i
                                    + 1] by {
                                    assert(joined[j] != joined[i + 1]);
                                }
                            } else {
                                assert(joined.contains(from));
                                let j = choose|j: int| 0 <= j < joined.len() && joined[j] == from;
                                assert(is_arc(graph, grown[j], edges@[i], grown[i + 1]));
                                assert forall|j: int| 0 <= j <= i implies #[trigger] grown[j] != grown[i
                                    + 1] by {
                                    assert(joined.contains(joined[j]));
                                }
                            }
                        }
                        assert forall|i: int, a: NodeId, e: G::Edge, b: NodeId|
                            0 <= i < edges@.len() && #[trigger] is_arc(graph, a, e, b) && grown.take(
                                i + 1,
                            ).contains(a) && !grown.take(i + 1).contains(b) implies graph.weight_of(
                            #[trigger] edges@[i],
                        ) <= graph.weight_of(e) by {
                            if i < old_tree.len() {
                                assert(grown.take(i + 1) =~= joined.take(i + 1));
                                assert(edges@[i] == old_tree[i]);
                            } else {
                                assert(grown.take(i + 1) =~= joined);
                                assert(connected.contains(a));
                                assert(!connected.contains(b));
                                assert(offered(graph, connected, waiting, a));
                                let j = choose|j: int|
                                    0 <= j < waiting.len() && (#[trigger] waiting[j]).1 == e;
                                assert(candidate_ok(graph, connected, waiting[j]));
                                assert(waiting[taken].0 <= waiting[j].0);
                            }
                        }
                        assert forall|j: int| 0 <= j < active_edges@.len() implies candidate_ok(
                            graph,
                            connected_nodes@,
                            #[trigger] active_edges@[j],
                        ) by {
                            assert(candidate_ok(graph, connected, active_edges@[j]));
                            let from = choose|from: NodeId|
                                connected.contains(from) && graph.has_node(from)
                                    && #[trigger] graph.edges_from(from).contains(active_edges@[j].1);
                            assert(connected_nodes@.contains(from));
                        }
                    }
                    let ghost remaining = active_edges@;
                    offer_edges(graph, current_node, &connected_nodes, &mut active_edges);
                    proof {
                        assert(connected_nodes@.len() == connected_nodes.len());
                        assert forall|a: NodeId| #[trigger] connected_nodes@.contains(a) implies offered(
                            graph,
                            connected_nodes@,
                            active_edges@,
                            a,
                        ) by {
                            if a != current_node {
                                assert forall|e: G::Edge, b: NodeId| #[trigger]
                                    is_arc(graph, a, e, b) && !connected_nodes@.contains(
                                        b,
                                    ) implies exists|j: int|
                                    0 <= j < active_edges@.len() && (#[trigger] active_edges@[j]).1
                                        == e by {
                                    assert(offered(graph, connected, waiting, a));
                                    let j = choose|j: int|
                                        0 <= j < waiting.len() && (#[trigger] waiting[j]).1 == e;
                                    assert(j != taken);
                                    let k = if j < taken {
                                        j
                                    } else {
                                        j - 1
                                    };
                                    assert(remaining[k] == waiting[j]);
                                    assert(active_edges@.take(remaining.len() as int)[k] == remaining[k]);
                                    assert(active_edges@[k].1 == e);
                                }
                            }
                        }
                    }
                } else {
                    proof {
                        assert(connected_nodes@ =~= connected);
                        lemma_keeps_offers(graph, connected, waiting, taken);
                    }
                }
            },
            None => {
                proof {
                    lemma_keeps_offers(graph, connected, waiting, taken);
                }
            },
        }
    }
}

/// An edge that does not lead out of the tree can leave the frontier: every
/// edge that does lead out still waits.
proof fn lemma_keeps_offers<G: Graph>(
    graph: &G,
    connected: Set<NodeId>,
    waiting: Seq<(Cost, G::Edge)>,
    taken: int,
)
    requires
        0 <= taken < waiting.len(),
        forall|from: NodeId| #[trigger]
            connected.contains(from) ==> offered(graph, connected, waiting, from),
        graph.target_of(waiting[taken].1) matches Some(to) ==> connected.contains(to),
    ensures
        forall|from: NodeId| #[trigger]
            connected.contains(from) ==> offered(graph, connected, waiting.remove(taken), from),
{
    let remaining = waiting.remove(taken);
    assert forall|from: NodeId| #[trigger] connected.contains(from) implies offered(
        graph,
        connected,
        remaining,
        from,
    ) by {
        assert forall|edge: G::Edge, to: NodeId| #[trigger]
            is_arc(graph, from, edge, to) && !connected.contains(to) implies exists|j: int|
            0 <= j < remaining.len() && (#[trigger] remaining[j]).1 == edge by {
            assert(offered(graph, connected, waiting, from));
            let j = choose|j: int| 0 <= j < waiting.len() && (#[trigger] waiting[j]).1 == edge;
            assert(j != taken);
            let k = if j < taken {
                j
            } else {
                j - 1
            };
            assert(remaining[k] == waiting[j]);
        }
    }
}

} // verus!
