//! Breadth-first traversal: nodes are visited level by level, each with a
//! pointer to the node it was discovered from, and a visitor that watches the
//! visit order grow can end the traversal.

use vstd::prelude::*;
use std::collections::HashSet;
use std::collections::VecDeque;
use crate::walk::{
    adjacent, connects, is_arc, is_walk, lemma_closed_set_holds_reachable, lemma_walk_push, reachable,
};
use crate::{Graph, NodeId};

verus! {

broadcast use {
    vstd::std_specs::hash::group_hash_axioms,
    vstd::function::group_function_axioms,
    vstd::slice::group_slice_axioms,
};

/// One visited node: its identifier and the position, in the visit order, of
/// the node it was discovered from. The start node is its own parent.
#[derive(Clone, Copy)]
pub struct BfsNode {
    pub value: NodeId,
    pub parent: usize,
}

impl BfsNode {
    /// The identifier of the node.
    pub fn value(&self) -> (value: NodeId)
        ensures
            value == self.value,
    {
        self.value
    }

    /// The position in the visit order of the node that this one was
    /// discovered from.
    pub fn parent(&self) -> (parent: usize)
        ensures
            parent == self.parent,
    {
        self.parent
    }
}

/// Entry `i` of `order` is a node of the graph; the first entry is `start`,
/// and every other one was discovered over an edge from an earlier entry.
pub open spec fn visit_ok<G: Graph>(graph: &G, start: NodeId, order: Seq<BfsNode>, i: int) -> bool {
    &&& graph.has_node(order[i].value)
    &&& if i == 0 {
        order[0].value == start && order[0].parent == 0
    } else {
        order[i].parent < i && adjacent(graph, order[order[i].parent as int].value, order[i].value)
    }
}

/// `order` is a tree of discoveries that is rooted at `start`.
pub open spec fn is_search_tree<G: Graph>(graph: &G, start: NodeId, order: Seq<BfsNode>) -> bool {
    forall|i: int| 0 <= i < order.len() ==> #[trigger] visit_ok(graph, start, order, i)
}

/// No node occurs twice in `order`.
pub open spec fn visits_once(order: Seq<BfsNode>) -> bool {
    forall|i: int, j: int|
        0 <= i < j < order.len() ==> (#[trigger] order[i]).value != (#[trigger] order[j]).value
}

/// Nodes are visited in the order in which their parents were.
pub open spec fn parents_in_order(order: Seq<BfsNode>) -> bool {
    forall|i: int, j: int|
        0 <= i <= j < order.len() ==> (#[trigger] order[i]).parent <= (#[trigger] order[j]).parent
}

/// Every node that can be reached from `start` occurs in `order`.
pub open spec fn visits_all<G: Graph>(graph: &G, start: NodeId, order: Seq<BfsNode>) -> bool {
    forall|node: NodeId| #[trigger]
        reachable(graph, start, node) ==> exists|i: int|
            0 <= i < order.len() && (#[trigger] order[i]).value == node
}

/// The level of entry `i` of `order`: the number of steps from `start` to it
/// along the parents.
pub open spec fn depth(order: Seq<BfsNode>, i: int) -> nat
    decreases i,
{
    if 0 < i < order.len() && order[i].parent < i {
        depth(order, order[i].parent as int) + 1
    } else {
        0
    }
}

/// The levels never fall along `order`.
pub open spec fn levels_in_order(order: Seq<BfsNode>) -> bool {
    forall|i: int, j: int|
        0 <= i <= j < order.len() ==> #[trigger] depth(order, i) <= #[trigger] depth(order, j)
}

/// No walk from `start` to a node of `order` has fewer edges than the level
/// of the node.
pub open spec fn hops_are_shortest<G: Graph>(graph: &G, start: NodeId, order: Seq<BfsNode>) -> bool {
    forall|i: int, nodes: Seq<NodeId>, edges: Seq<G::Edge>|
        0 <= i < order.len() && #[trigger] connects(graph, start, order[i].value, nodes, edges)
            ==> depth(order, i) <= edges.len()
}

/// In a search tree whose parents come in order, the levels never fall.
pub proof fn lemma_levels_in_order<G: Graph>(
    graph: &G,
    start: NodeId,
    order: Seq<BfsNode>,
    i: int,
    j: int,
)
    requires
        is_search_tree(graph, start, order),
        parents_in_order(order),
        0 <= i <= j < order.len(),
    ensures
        depth(order, i) <= depth(order, j),
    decreases j,
{
    if i > 0 {
        assert(visit_ok(graph, start, order, i));
        assert(visit_ok(graph, start, order, j));
        assert(order[i].parent <= order[j].parent);
        lemma_levels_in_order(graph, start, order, order[i].parent as int, order[j].parent as int);
    }
}

/// In a search tree every node but the first is one level below its parent.
pub proof fn lemma_parent_is_one_level_up<G: Graph>(
    graph: &G,
    start: NodeId,
    order: Seq<BfsNode>,
    i: int,
)
    requires
        is_search_tree(graph, start, order),
        0 < i < order.len(),
    ensures
        order[i].parent < i,
        depth(order, i) == depth(order, order[i].parent as int) + 1,
{
    assert(visit_ok(graph, start, order, i));
}

/// A node of a search tree is reached from `start` by a walk of as many
/// edges as its level says.
pub proof fn lemma_level_is_walked<G: Graph>(graph: &G, start: NodeId, order: Seq<BfsNode>, i: int)
    requires
        is_search_tree(graph, start, order),
        0 <= i < order.len(),
    ensures
        exists|nodes: Seq<NodeId>, edges: Seq<G::Edge>| #[trigger]
            connects(graph, start, order[i].value, nodes, edges) && edges.len() == depth(order, i),
    decreases i,
{
    assert(visit_ok(graph, start, order, i));
    if i == 0 {
        assert(connects(graph, start, start, seq![start], Seq::<G::Edge>::empty()));
    } else {
        let parent = order[i].parent as int;
        lemma_level_is_walked(graph, start, order, parent);
        let (nodes, edges) = choose|nodes: Seq<NodeId>, edges: Seq<G::Edge>| #[trigger]
            connects(graph, start, order[parent].value, nodes, edges) && edges.len() == depth(
                order,
                parent,
            );
        let edge = choose|edge: G::Edge| is_arc(graph, order[parent].value, edge, order[i].value);
        lemma_walk_push(graph, nodes, edges, edge, order[i].value);
        assert(connects(graph, start, order[i].value, nodes.push(order[i].value), edges.push(edge)));
    }
}

/// The level of an entry depends on nothing behind it.
proof fn lemma_depth_of_prefix(order: Seq<BfsNode>, seen: Seq<BfsNode>, i: int)
    requires
        order.len() <= seen.len(),
        forall|k: int| 0 <= k < order.len() ==> order[k] == seen[k],
        0 <= i < order.len(),
    ensures
        depth(order, i) == depth(seen, i),
    decreases i,
{
    if 0 < i && order[i].parent < i {
        lemma_depth_of_prefix(order, seen, order[i].parent as int);
    }
}

/// The visitor `apply`, shown `visited`, answers `go_on`.
pub open spec fn answered<F: FnMut(&[BfsNode]) -> bool>(
    apply: F,
    visited: Seq<BfsNode>,
    go_on: bool,
) -> bool {
    exists|shown: &[BfsNode]| shown@ == visited && #[trigger] apply.ensures((shown,), go_on)
}

/// What the traversal knows between two steps. `seen` is the visit order so
/// far followed by the nodes that wait to be visited.
spec fn search_ok<G: Graph>(
    graph: &G,
    start: NodeId,
    visited: Set<NodeId>,
    seen: Seq<BfsNode>,
    done: int,
) -> bool {
    &&& 0 <= done <= seen.len()
    &&& seen.len() >= 1
    &&& is_search_tree(graph, start, seen)
    &&& visits_once(seen)
    &&& parents_in_order(seen)
    &&& forall|i: int| 1 <= i < seen.len() ==> (#[trigger] seen[i]).parent < done
    &&& forall|i: int| 0 <= i < seen.len() ==> visited.contains((#[trigger] seen[i]).value)
    &&& forall|node: NodeId| #[trigger]
        visited.contains(node) ==> exists|i: int|
            0 <= i < seen.len() && (#[trigger] seen[i]).value == node
    &&& visited.finite()
    &&& visited.len() == seen.len()
}

/// The node `to` has been seen, and was discovered from entry `by` or from
/// an earlier one, unless it is the start.
spec fn found_early(seen: Seq<BfsNode>, to: NodeId, by: int) -> bool {
    exists|j: int|
        0 <= j < seen.len() && (#[trigger] seen[j]).value == to && (j == 0 || seen[j].parent <= by)
}

/// Every edge that leaves entry `i` of `seen` leads to a node that has been
/// seen, and that was discovered from that entry or before.
spec fn expanded<G: Graph>(graph: &G, visited: Set<NodeId>, seen: Seq<BfsNode>, i: int) -> bool {
    forall|edge: G::Edge, to: NodeId| #[trigger]
        is_arc(graph, seen[i].value, edge, to) ==> visited.contains(to) && found_early(seen, to, i)
}

/// What was found early stays so when one more node is seen.
proof fn lemma_found_early_grows(seen: Seq<BfsNode>, next: BfsNode, to: NodeId, by: int)
    requires
        found_early(seen, to, by),
    ensures
        found_early(seen.push(next), to, by),
{
    let j = choose|j: int|
        0 <= j < seen.len() && (#[trigger] seen[j]).value == to && (j == 0 || seen[j].parent <= by);
    assert(seen.push(next)[j] == seen[j]);
}

/// Follows a walk that is shorter than the level of entry `target`, and
/// finds each of its nodes among the entries, at a level no higher than its
/// position in the walk.
proof fn lemma_hops<G: Graph>(
    graph: &G,
    start: NodeId,
    visited: Set<NodeId>,
    seen: Seq<BfsNode>,
    done: int,
    nodes: Seq<NodeId>,
    edges: Seq<G::Edge>,
    target: int,
    upto: int,
) -> (at: int)
    requires
        search_ok(graph, start, visited, seen, done),
        forall|i: int| 0 <= i < done ==> #[trigger] expanded(graph, visited, seen, i),
        is_walk(graph, nodes, edges),
        nodes.first() == start,
        0 <= target < seen.len(),
        edges.len() < depth(seen, target),
        0 <= upto <= edges.len(),
    ensures
        0 <= at < seen.len(),
        seen[at].value == nodes[upto],
        depth(seen, at) <= upto,
    decreases upto,
{
    if upto == 0 {
        assert(visit_ok(graph, start, seen, 0));
        0
    } else {
        let prev = lemma_hops(graph, start, visited, seen, done, nodes, edges, target, upto - 1);
        let parent = seen[target].parent as int;
        assert(seen[target].parent < done);
        if parent <= prev {
            lemma_levels_in_order(graph, start, seen, parent, prev);
        }
        assert(is_arc(graph, nodes[upto - 1], edges[upto - 1], nodes[upto - 1 + 1]));
        assert(expanded(graph, visited, seen, prev));
        assert(found_early(seen, nodes[upto], prev));
        let j = choose|j: int|
            0 <= j < seen.len() && (#[trigger] seen[j]).value == nodes[upto] && (j == 0
                || seen[j].parent <= prev);
        if j != 0 {
            assert(visit_ok(graph, start, seen, j));
            lemma_levels_in_order(graph, start, seen, seen[j].parent as int, prev);
        }
        j
    }
}

/// The levels of the nodes that were visited are their distances from the
/// start, counted in edges.
proof fn lemma_hops_of_visited<G: Graph>(
    graph: &G,
    start: NodeId,
    visited: Set<NodeId>,
    seen: Seq<BfsNode>,
    done: int,
    order: Seq<BfsNode>,
)
    requires
        search_ok(graph, start, visited, seen, done),
        forall|i: int| 0 <= i < done ==> #[trigger] expanded(graph, visited, seen, i),
        order.len() <= seen.len(),
        forall|k: int| 0 <= k < order.len() ==> order[k] == seen[k],
    ensures
        hops_are_shortest(graph, start, order),
        levels_in_order(order),
{
    assert forall|i: int, nodes: Seq<NodeId>, edges: Seq<G::Edge>|
        0 <= i < order.len() && #[trigger] connects(
            graph,
            start,
            order[i].value,
            nodes,
            edges,
        ) implies depth(order, i) <= edges.len() by {
        lemma_depth_of_prefix(order, seen, i);
        if edges.len() < depth(seen, i) {
            let at = lemma_hops(
                graph,
                start,
                visited,
                seen,
                done,
                nodes,
                edges,
                i,
                edges.len() as int,
            );
            if at < i {
                assert(seen[at].value != seen[i].value);
            } else if i < at {
                assert(seen[i].value != seen[at].value);
            }
        }
    }
    assert forall|i: int, j: int| 0 <= i <= j < order.len() implies #[trigger] depth(order, i)
        <= #[trigger] depth(order, j) by {
        lemma_depth_of_prefix(order, seen, i);
        lemma_depth_of_prefix(order, seen, j);
        lemma_levels_in_order(graph, start, seen, i, j);
    }
}

/// Walks the graph breadth first from `start` and returns the visit order.
/// After each visit `apply` is shown the order so far; when it answers
/// `false` the traversal ends at once, with the node just visited as the
/// last. Each node is visited once at most.
pub fn breadth_first_search<F, G: Graph>(graph: &G, start: NodeId, apply: F) -> (visit_order: Vec<
    BfsNode,
>) where F: FnMut(&[BfsNode]) -> bool
    requires
        graph.has_node(start),
        forall|shown: &[BfsNode]| apply.requires((shown,)),
    ensures
        visit_order@.len() >= 1,
        is_search_tree(graph, start, visit_order@),
        visits_once(visit_order@),
        parents_in_order(visit_order@),
        levels_in_order(visit_order@),
        hops_are_shortest(graph, start, visit_order@),
        forall|k: int| 1 <= k < visit_order@.len() ==> answered(apply, #[trigger] visit_order@.take(k), true),
        answered(apply, visit_order@, false) || (answered(apply, visit_order@, true) && visits_all(
            graph,
            start,
            visit_order@,
        )),
{
    let mut visitor = apply;
    let mut visited: HashSet<NodeId> = HashSet::new();
    visited.insert(start);
    let mut visit_order: Vec<BfsNode> = Vec::new();
    let mut frontier: VecDeque<BfsNode> = VecDeque::new();
    frontier.push_back(BfsNode { value: start, parent: 0 });
    proof {
        let seen = visit_order@ + frontier@;
        assert(seen =~= seq![BfsNode { value: start, parent: 0 }]);
        assert(visit_ok(graph, start, seen, 0));
        assert(visited@ =~= set![start]);
        assert(search_ok(graph, start, visited@, seen, 0));
    }
    loop
        invariant
            visitor == apply,
            forall|shown: &[BfsNode]| apply.requires((shown,)),
            search_ok(graph, start, visited@, visit_order@ + frontier@, visit_order@.len() as int),
            forall|i: int|
                0 <= i < visit_order@.len() ==> #[trigger] expanded(
                    graph,
                    visited@,
                    visit_order@ + frontier@,
                    i,
                ),
            forall|k: int|
                1 <= k <= visit_order@.len() ==> answered(apply, #[trigger] visit_order@.take(k), true),
        decreases 2 * (usize::MAX - visited@.len()) + frontier@.len(),
    {
        let ghost seen = visit_order@ + frontier@;
        let ghost order = visit_order@;
        proof {
            assert(visited@.len() == visited.len());
        }
        let node = match frontier.pop_front() {
            Some(node) => node,
            None => {
                proof {
                    assert(seen =~= visit_order@);
                    lemma_hops_of_visited(
                        graph,
                        start,
                        visited@,
                        seen,
                        visit_order@.len() as int,
                        visit_order@,
                    );
                    assert(visit_order@.take(visit_order@.len() as int) =~= visit_order@);
                    assert(visited@.contains(seen[0].value));
                    assert forall|a: NodeId, edge: G::Edge, b: NodeId|
                        visited@.contains(a) && #[trigger] is_arc(graph, a, edge, b) implies visited@.contains(
                        b,
                    ) by {
                        let i = choose|i: int| 0 <= i < seen.len() && (#[trigger] seen[i]).value == a;
                        assert(expanded(graph, visited@, seen, i));
                    }
                    assert forall|target: NodeId| #[trigger]
                        reachable(graph, start, target) implies exists|i: int|
                        0 <= i < visit_order@.len() && (#[trigger] visit_order@[i]).value == target by {
                        assert(visit_ok(graph, start, seen, 0));
                        lemma_closed_set_holds_reachable(graph, visited@, start, target);
                    }
                }
                return visit_order;
            },
        };
        let node_id: usize = visit_order.len();
        visit_order.push(node);
        proof {
            assert(visit_order@ + frontier@ =~= seen);
            assert(visit_order@.take(order.len() as int) =~= order);
            assert forall|k: int| 1 <= k < visit_order@.len() implies answered(
                apply,
                #[trigger] visit_order@.take(k),
                true,
            ) by {
                assert(visit_order@.take(k) =~= order.take(k));
            }
            assert(visit_order@.take(visit_order@.len() as int) =~= visit_order@);
            assert forall|i: int| 0 <= i < visit_order@.len() implies #[trigger] visit_ok(
                graph,
                start,
                visit_order@,
                i,
            ) by {
                assert(visit_ok(graph, start, seen, i));
                assert(seen[i] == visit_order@[i]);
                if i > 0 {
                    assert(seen[seen[i].parent as int] == visit_order@[seen[i].parent as int]);
                }
            }
            assert(visits_once(visit_order@)) by {
                assert forall|i: int, j: int| 0 <= i < j < visit_order@.len() implies (
                #[trigger] visit_order@[i]).value != (#[trigger] visit_order@[j]).value by {
                    assert(seen[i].value != seen[j].value);
                }
            }
            assert(parents_in_order(visit_order@)) by {
                assert forall|i: int, j: int| 0 <= i <= j < visit_order@.len() implies (
                #[trigger] visit_order@[i]).parent <= (#[trigger] visit_order@[j]).parent by {
                    assert(seen[i].parent <= seen[j].parent);
                }
            }
        }
        let so_far = visit_order.as_slice();
        let go_on = visitor(so_far);
        proof {
            assert(so_far@ == visit_order@ && apply.ensures((so_far,), go_on));
            assert(answered(apply, visit_order@, go_on));
        }
        if !go_on {
            proof {
                lemma_hops_of_visited(graph, start, visited@, seen, node_id as int, visit_order@);
            }
            return visit_order;
        }
        proof {
            assert(seen[node_id as int] == node);
            assert(visit_ok(graph, start, seen, node_id as int));
        }
        let edges = graph.outgoing_edges(&node.value);
        let mut i: usize = 0;
        while i < edges.len()
            invariant
                0 <= i <= edges@.len(),
                visitor == apply,
                node_id + 1 == visit_order@.len(),
                visit_order@[node_id as int] == node,
                edges@.to_set() == graph.edges_from(node.value),
                graph.has_node(node.value),
                search_ok(graph, start, visited@, visit_order@ + frontier@, node_id as int + 1),
                forall|j: int|
                    0 <= j < node_id ==> #[trigger] expanded(graph, visited@, visit_order@ + frontier@, j),
                forall|k: int, to: NodeId|
                    0 <= k < i && #[trigger] is_arc(graph, node.value, edges@[k], to) ==> visited@.contains(
                        to,
                    ) && found_early(visit_order@ + frontier@, to, node_id as int),
                2 * (usize::MAX - visited@.len()) + frontier@.len() < 2 * (usize::MAX - seen.len())
                    + seen.len() - order.len(),
            decreases edges@.len() - i,
        {
            let ghost seen_now = visit_order@ + frontier@;
            let ghost visited_now = visited@;
            match graph.target(&edges[i]) {
                Some(target) => {
                    proof {
                        assert(edges@.to_set().contains(edges@[i as int]));
                        assert(is_arc(graph, node.value, edges@[i as int], target));
                    }
                    if visited.insert(target) {
                        frontier.push_back(BfsNode { value: target, parent: node_id });
                        proof {
                            let grown = visit_order@ + frontier@;
                            assert(grown =~= seen_now.push(BfsNode { value: target, parent: node_id }));
                            assert(visited@.len() == visited.len());
                            assert forall|j: int| 0 <= j < grown.len() implies #[trigger] visit_ok(
                                graph,
                                start,
                                grown,
                                j,
                            ) by {
                                if j < seen_now.len() {
                                    assert(visit_ok(graph, start, seen_now, j));
                                } else {
                                    assert(grown[node_id as int] == node);
                                }
                            }
                            assert(visits_once(grown)) by {
                                assert forall|a: int, b: int| 0 <= a < b < grown.len() implies (
                                #[trigger] grown[a]).value != (#[trigger] grown[b]).value by {
                                    if b < seen_now.len() {
                                        assert(seen_now[a].value != seen_now[b].value);
                                    } else {
                                        assert(visited_now.contains(seen_now[a].value));
                                    }
                                }
                            }
                            assert(parents_in_order(grown)) by {
                                assert forall|a: int, b: int| 0 <= a <= b < grown.len() implies (
                                #[trigger] grown[a]).parent <= (#[trigger] grown[b]).parent by {
                                    if b < seen_now.len() {
                                        assert(seen_now[a].parent <= seen_now[b].parent);
                                    } else if a < seen_now.len() {
                                        assert(visit_ok(graph, start, seen_now, a));
                                        assert(a >= 1 ==> seen_now[a].parent < node_id + 1);
                                    }
                                }
                            }
                            assert forall|v: NodeId| #[trigger] visited@.contains(v) implies exists|j: int|
                                0 <= j < grown.len() && (#[trigger] grown[j]).value == v by {
                                if v == target {
                                    assert(grown[seen_now.len() as int].value == v);
                                } else {
                                    let j = choose|j: int|
                                        0 <= j < seen_now.len() && (#[trigger] seen_now[j]).value == v;
                                    assert(grown[j].value == v);
                                }
                            }
                            assert forall|j: int| 0 <= j < grown.len() implies visited@.contains(
                                (#[trigger] grown[j]).value,
                            ) by {
                                if j < seen_now.len() {
                                    assert(visited_now.contains(seen_now[j].value));
                                }
                            }
                            assert forall|j: int| 1 <= j < grown.len() implies (#[trigger] grown[j]).parent
                                < node_id + 1 by {
                                if j < seen_now.len() {
                                    assert(seen_now[j].parent < node_id + 1);
                                }
                            }
                            let next = BfsNode { value: target, parent: node_id };
                            assert forall|j: int| 0 <= j < node_id implies #[trigger] expanded(
                                graph,
                                visited@,
                                grown,
                                j,
                            ) by {
                                assert(expanded(graph, visited_now, seen_now, j));
                                assert(grown[j] == seen_now[j]);
                                assert forall|edge: G::Edge, to: NodeId| #[trigger]
                                    is_arc(graph, grown[j].value, edge, to) implies visited@.contains(to)
                                    && found_early(grown, to, j) by {
                                    lemma_found_early_grows(seen_now, next, to, j);
                                }
                            }
                            assert forall|k: int, to: NodeId|
                                0 <= k < i + 1 && #[trigger] is_arc(
                                    graph,
                                    node.value,
                                    edges@[k],
                                    to,
                                ) implies visited@.contains(to) && found_early(
                                grown,
                                to,
                                node_id as int,
                            ) by {
                                if k < i {
                                    lemma_found_early_grows(seen_now, next, to, node_id as int);
                                } else {
                                    assert(grown[seen_now.len() as int] == next);
                                }
                            }
                        }
                    } else {
                        proof {
                            assert(visited@ =~= visited_now);
                            let j = choose|j: int|
                                0 <= j < seen_now.len() && (#[trigger] seen_now[j]).value == target;
                            assert(j == 0 || seen_now[j].parent < node_id + 1);
                            assert(found_early(seen_now, target, node_id as int));
                        }
                    }
                },
                None => {},
            }
            i += 1;
        }
        proof {
            let all = visit_order@ + frontier@;
            assert(visited@.len() == visited.len());
            assert forall|j: int| 0 <= j < visit_order@.len() implies #[trigger] expanded(
                graph,
                visited@,
                all,
                j,
            ) by {
                if j == node_id {
                    assert forall|edge: G::Edge, to: NodeId| #[trigger]
                        is_arc(graph, all[j].value, edge, to) implies visited@.contains(to) by {
                        assert(edges@.to_set().contains(edge));
                        let k = choose|k: int| 0 <= k < edges@.len() && edges@[k] == edge;
                        assert(is_arc(graph, node.value, edges@[k], to));
                    }
                }
            }
        }
    }
}

} // verus!
