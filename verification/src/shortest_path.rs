//! Shortest paths by best-first search: a frontier of candidates ordered by
//! the cost paid so far plus an estimate of the cost still to pay, and a map
//! of the best record known for each node that has left the frontier.

use vstd::prelude::*;
use std::collections::HashMap;
use crate::frontier::{first_minimum, is_first_minimum, Frontier};
use crate::walk::{
    adjacent, connects, is_arc, is_walk, lemma_closed_set_holds_reachable, lemma_subwalk,
    lemma_walk_cost_concat, lemma_walk_leaves, lemma_walk_prepend, reachable, walk_cost,
};
use crate::{Cost, Graph, NodeId, Weight};

verus! {

broadcast use vstd::std_specs::hash::group_hash_axioms;

/// `num_traits::zero` at the type of accumulated costs: the additive
/// identity, which for an unsigned integer is 0.
#[verifier::external_body]
fn zero_cost() -> (zero: Cost)
    ensures
        zero == 0,
{
    num_traits::zero()
}

/// A candidate of the search: a node, the node it was reached from, the cost
/// of the path that reached it and the estimate of what is left to the goal.
#[derive(Clone, Copy)]
pub struct PathNode {
    pub node: NodeId,
    pub parent: Option<NodeId>,
    pub path_cost: Cost,
    pub heuristic_cost: Cost,
}

impl PathNode {
    /// A candidate for `node`, reached from `parent`, with both costs zero.
    pub fn new(node: NodeId, parent: Option<NodeId>) -> (candidate: PathNode)
        ensures
            candidate.node == node,
            candidate.parent == parent,
            candidate.path_cost == 0,
            candidate.heuristic_cost == 0,
    {
        PathNode { node, parent, path_cost: zero_cost(), heuristic_cost: zero_cost() }
    }

    /// The priority of the candidate: what its path costs plus what is
    /// estimated to be left.
    pub fn total_cost(&self) -> (total: Cost)
        requires
            self.path_cost + self.heuristic_cost <= Cost::MAX,
        ensures
            total == self.path_cost + self.heuristic_cost,
    {
        self.heuristic_cost + self.path_cost
    }
}

/// `route` leads from `end` back to `start`: it begins with `end`, ends with
/// `start`, and an edge of the graph leads from each of its nodes to the one
/// before it.
pub open spec fn is_route<G: Graph>(graph: &G, start: NodeId, end: NodeId, route: Seq<NodeId>) -> bool {
    &&& route.len() >= 1
    &&& route.first() == end
    &&& route.last() == start
    &&& forall|i: int| 0 <= i < route.len() - 1 ==> adjacent(graph, #[trigger] route[i + 1], route[i])
}

/// `heuristic` answers, for the way from each node to `end`, what `potential`
/// says of the node, and along no edge does `potential` fall by more than the
/// weight of the edge.
pub open spec fn follows_potential<G: Graph, H: Fn(&NodeId, &NodeId) -> Weight>(
    graph: &G,
    heuristic: H,
    end: NodeId,
    potential: spec_fn(NodeId) -> nat,
) -> bool {
    &&& forall|node: NodeId, value: Weight| #[trigger]
        heuristic.ensures((&node, &end), value) ==> value == potential(node)
    &&& forall|from: NodeId, edge: G::Edge, to: NodeId| #[trigger]
        is_arc(graph, from, edge, to) ==> potential(from) <= graph.weight_of(edge) + potential(to)
}

/// The estimates of `heuristic` for the way to `end` are consistent: each
/// node has one estimate, and along no edge does the estimate fall by more
/// than the weight of the edge.
pub open spec fn is_consistent<G: Graph, H: Fn(&NodeId, &NodeId) -> Weight>(
    graph: &G,
    heuristic: H,
    end: NodeId,
) -> bool {
    exists|potential: spec_fn(NodeId) -> nat| #[trigger]
        follows_potential(graph, heuristic, end, potential)
}

/// `edges` lead through `nodes` from `start` to `end`, and no walk from
/// `start` to `end` costs less.
pub open spec fn cheapest_walk<G: Graph>(
    graph: &G,
    start: NodeId,
    end: NodeId,
    nodes: Seq<NodeId>,
    edges: Seq<G::Edge>,
) -> bool {
    &&& connects(graph, start, end, nodes, edges)
    &&& forall|other_nodes: Seq<NodeId>, other_edges: Seq<G::Edge>| #[trigger]
        connects(graph, start, end, other_nodes, other_edges) ==> walk_cost(graph, edges)
            <= walk_cost(graph, other_edges)
}

/// `route`, read from its last node to its first, is a cheapest walk from
/// `start` to `end`.
pub open spec fn is_cheapest_route<G: Graph>(
    graph: &G,
    start: NodeId,
    end: NodeId,
    route: Seq<NodeId>,
) -> bool {
    exists|edges: Seq<G::Edge>| cheapest_walk(graph, start, end, route.reverse(), edges)
}

/// An edge leads from `from` to `to`, and with it a path that reaches `from`
/// at `from_cost` reaches `to` at `to_cost` or less.
spec fn linked<G: Graph>(graph: &G, from: NodeId, to: NodeId, from_cost: Cost, to_cost: Cost) -> bool {
    exists|edge: G::Edge| #[trigger]
        is_arc(graph, from, edge, to) && from_cost + graph.weight_of(edge) <= to_cost
}

/// The cost of the record of `node` is what its parent's record costs plus an
/// edge from the parent, or more; the record without a parent costs nothing.
spec fn record_linked<G: Graph>(graph: &G, settled: Map<NodeId, PathNode>, node: NodeId) -> bool {
    match settled[node].parent {
        Some(parent) => settled.contains_key(parent) && linked(
            graph,
            parent,
            node,
            settled[parent].path_cost,
            settled[node].path_cost,
        ),
        None => settled[node].path_cost == 0,
    }
}

/// Every record is linked to its parent's.
spec fn costs_linked<G: Graph>(graph: &G, settled: Map<NodeId, PathNode>) -> bool {
    forall|node: NodeId| settled.contains_key(node) ==> #[trigger] record_linked(graph, settled, node)
}

/// The same of the candidates that wait, each with the estimate that the
/// heuristic gave for its node.
spec fn waiting_linked<G: Graph, H: Fn(&NodeId, &NodeId) -> Weight>(
    graph: &G,
    heuristic: H,
    end: NodeId,
    settled: Map<NodeId, PathNode>,
    frontier: Seq<(Cost, PathNode)>,
) -> bool {
    forall|i: int|
        0 <= i < frontier.len() ==> match (#[trigger] frontier[i]).1.parent {
            Some(parent) => {
                &&& settled.contains_key(parent)
                &&& linked(
                    graph,
                    parent,
                    frontier[i].1.node,
                    settled[parent].path_cost,
                    frontier[i].1.path_cost,
                )
                &&& frontier[i].1.heuristic_cost <= u64::MAX
                &&& heuristic.ensures(
                    (&frontier[i].1.node, &end),
                    frontier[i].1.heuristic_cost as Weight,
                )
            },
            None => true,
        }
}

/// For every edge that leads from the settled node `from` to a node that is
/// not settled, a candidate for that node waits, at the cost of the way over
/// `from` or less.
spec fn offers_from<G: Graph>(
    graph: &G,
    settled: Map<NodeId, PathNode>,
    frontier: Seq<(Cost, PathNode)>,
    from: NodeId,
) -> bool {
    forall|edge: G::Edge, to: NodeId| #[trigger]
        is_arc(graph, from, edge, to) && !settled.contains_key(to) ==> offers_over(
            graph,
            settled,
            frontier,
            from,
            edge,
            to,
        )
}

/// A candidate for `to` waits, at the cost of the way over `from` and `edge`
/// or less.
spec fn offers_over<G: Graph>(
    graph: &G,
    settled: Map<NodeId, PathNode>,
    frontier: Seq<(Cost, PathNode)>,
    from: NodeId,
    edge: G::Edge,
    to: NodeId,
) -> bool {
    exists|j: int|
        0 <= j < frontier.len() && (#[trigger] frontier[j]).1.node == to && frontier[j].1.path_cost
            <= settled[from].path_cost + graph.weight_of(edge)
}

/// No walk from `start` to a settled node costs less than the node's record
/// says.
spec fn lower_bounds<G: Graph>(graph: &G, start: NodeId, settled: Map<NodeId, PathNode>) -> bool {
    forall|node: NodeId, nodes: Seq<NodeId>, edges: Seq<G::Edge>|
        settled.contains_key(node) && #[trigger] connects(graph, start, node, nodes, edges)
            ==> settled[node].path_cost <= walk_cost(graph, edges)
}

/// Along a walk a consistent estimate falls by no more than the walk costs.
proof fn lemma_estimate_along<G: Graph, H: Fn(&NodeId, &NodeId) -> Weight>(
    graph: &G,
    heuristic: H,
    end: NodeId,
    potential: spec_fn(NodeId) -> nat,
    nodes: Seq<NodeId>,
    edges: Seq<G::Edge>,
)
    requires
        follows_potential(graph, heuristic, end, potential),
        is_walk(graph, nodes, edges),
    ensures
        potential(nodes.first()) <= walk_cost(graph, edges) + potential(nodes.last()),
    decreases edges.len(),
{
    if edges.len() > 0 {
        let last = edges.len() - 1;
        lemma_subwalk(graph, nodes, edges, 0, last);
        assert(nodes.subrange(0, last + 1) =~= nodes.drop_last());
        assert(edges.subrange(0, last) =~= edges.drop_last());
        lemma_estimate_along(graph, heuristic, end, potential, nodes.drop_last(), edges.drop_last());
        assert(is_arc(graph, nodes[last], edges[last], nodes[last + 1]));
    }
}

/// With a consistent heuristic the candidate that leaves the frontier first
/// has the cost of a cheapest walk to its node, unless the node is settled
/// already.
proof fn lemma_cheapest_leaves_first<G: Graph, H: Fn(&NodeId, &NodeId) -> Weight>(
    graph: &G,
    heuristic: H,
    start: NodeId,
    end: NodeId,
    settled: Map<NodeId, PathNode>,
    frontier: Seq<(Cost, PathNode)>,
    taken: int,
    nodes: Seq<NodeId>,
    edges: Seq<G::Edge>,
)
    requires
        is_consistent(graph, heuristic, end),
        lower_bounds(graph, start, settled),
        waiting_linked(graph, heuristic, end, settled, frontier),
        forall|from: NodeId|
            settled.contains_key(from) ==> #[trigger] offers_from(graph, settled, frontier, from),
        forall|node: NodeId| #[trigger] settled.contains_key(node) ==> settled.contains_key(start),
        forall|i: int|
            0 <= i < frontier.len() ==> {
                &&& (#[trigger] frontier[i]).0 == frontier[i].1.path_cost + frontier[i].1.heuristic_cost
                &&& frontier[i].1.parent is None ==> frontier[i].1.node == start
                    && frontier[i].1.path_cost == 0
            },
        is_first_minimum(frontier, taken),
        !settled.contains_key(frontier[taken].1.node),
        connects(graph, start, frontier[taken].1.node, nodes, edges),
    ensures
        frontier[taken].1.path_cost <= walk_cost(graph, edges),
{
    let first = frontier[taken].1;
    let potential = choose|potential: spec_fn(NodeId) -> nat| #[trigger]
        follows_potential(graph, heuristic, end, potential);
    if let Some(parent) = first.parent {
        assert(settled.contains_key(parent));
        assert(settled.contains_key(start));
        let at = lemma_walk_leaves(graph, settled.dom(), nodes, edges);
        let inside = nodes[at];
        let outside = nodes[at + 1];
        assert(is_arc(graph, inside, edges[at], outside));
        lemma_subwalk(graph, nodes, edges, 0, at);
        assert(connects(graph, start, inside, nodes.subrange(0, at + 1), edges.subrange(0, at)));
        assert(offers_from(graph, settled, frontier, inside));
        assert(offers_over(graph, settled, frontier, inside, edges[at], outside));
        let j = choose|j: int|
            0 <= j < frontier.len() && (#[trigger] frontier[j]).1.node == outside
                && frontier[j].1.path_cost <= settled[inside].path_cost + graph.weight_of(edges[at]);
        let other = frontier[j].1;
        assert(other.parent is Some);
        assert(frontier[taken].0 <= frontier[j].0);
        lemma_subwalk(graph, nodes, edges, at + 1, nodes.len() - 1);
        lemma_estimate_along(
            graph,
            heuristic,
            end,
            potential,
            nodes.subrange(at + 1, nodes.len() as int),
            edges.subrange(at + 1, edges.len() as int),
        );
        assert(edges =~= edges.subrange(0, at) + seq![edges[at]] + edges.subrange(
            at + 1,
            edges.len() as int,
        ));
        lemma_walk_cost_concat(graph, edges.subrange(0, at), seq![edges[at]]);
        lemma_walk_cost_concat(
            graph,
            edges.subrange(0, at) + seq![edges[at]],
            edges.subrange(at + 1, edges.len() as int),
        );
        assert(walk_cost(graph, seq![edges[at]]) == graph.weight_of(edges[at])) by {
            assert(seq![edges[at]].drop_last() =~= Seq::<G::Edge>::empty());
            assert(walk_cost(graph, seq![edges[at]].drop_last()) == 0);
        }
    }
}

/// The most that a path of `steps` edges can cost.
spec fn cost_bound(steps: nat) -> nat {
    steps * 0xffff_ffff_ffff_ffff
}

proof fn lemma_cost_bound(a: nat, b: nat)
    requires
        a <= b,
    ensures
        cost_bound(a) <= cost_bound(b),
        cost_bound(a + 1) == cost_bound(a) + 0xffff_ffff_ffff_ffff,
        b <= usize::MAX ==> cost_bound(b) + 0xffff_ffff_ffff_ffff <= Cost::MAX,
{
    assert(a * 0xffff_ffff_ffff_ffff <= b * 0xffff_ffff_ffff_ffff) by (nonlinear_arith)
        requires
            a <= b,
    ;
    assert((a + 1) * 0xffff_ffff_ffff_ffff == a * 0xffff_ffff_ffff_ffff + 0xffff_ffff_ffff_ffff)
        by (nonlinear_arith);
    if b <= usize::MAX {
        assert(b * 0xffff_ffff_ffff_ffff <= 0xffff_ffff_ffff_ffff * 0xffff_ffff_ffff_ffff)
            by (nonlinear_arith)
            requires
                b <= 0xffff_ffff_ffff_ffff,
        ;
    }
}

/// What holds of the record kept for the settled node `node`. `rank` numbers
/// the settled nodes in the order in which they were settled first.
spec fn settled_ok<G: Graph>(
    graph: &G,
    start: NodeId,
    settled: Map<NodeId, PathNode>,
    rank: Map<NodeId, nat>,
    node: NodeId,
) -> bool {
    let record = settled[node];
    &&& record.node == node
    &&& graph.has_node(node)
    &&& rank.contains_key(node)
    &&& rank[node] < settled.len()
    &&& record.path_cost <= cost_bound(rank[node])
    &&& record.heuristic_cost <= u64::MAX
    &&& match record.parent {
        Some(parent) => settled.contains_key(parent) && rank.contains_key(parent) && rank[parent]
            < rank[node] && adjacent(graph, parent, node),
        None => node == start,
    }
}

/// What holds of a candidate that waits in the frontier.
spec fn waiting_ok<G: Graph>(
    graph: &G,
    start: NodeId,
    settled: Map<NodeId, PathNode>,
    rank: Map<NodeId, nat>,
    waiting: nat,
    entry: (Cost, PathNode),
) -> bool {
    let candidate = entry.1;
    &&& entry.0 == candidate.path_cost + candidate.heuristic_cost
    &&& graph.has_node(candidate.node)
    &&& candidate.heuristic_cost <= u64::MAX
    &&& match candidate.parent {
        Some(parent) => {
            &&& settled.contains_key(parent)
            &&& rank.contains_key(parent)
            &&& candidate.path_cost <= cost_bound(rank[parent] + 1)
            &&& adjacent(graph, parent, candidate.node)
            &&& settled.contains_key(candidate.node) ==> rank[parent] < rank[candidate.node]
        },
        None => candidate.node == start && candidate.path_cost == 0 && settled.len() == 0 && waiting
            == 1,
    }
}

/// The state of the search between two steps.
spec fn search_ok<G: Graph>(
    graph: &G,
    start: NodeId,
    end: NodeId,
    settled: Map<NodeId, PathNode>,
    rank: Map<NodeId, nat>,
    frontier: Seq<(Cost, PathNode)>,
) -> bool {
    &&& settled.dom().finite()
    &&& settled.len() <= usize::MAX
    &&& !settled.contains_key(end)
    &&& forall|node: NodeId|
        settled.contains_key(node) ==> #[trigger] settled_ok(graph, start, settled, rank, node)
    &&& forall|i: int|
        0 <= i < frontier.len() ==> waiting_ok(
            graph,
            start,
            settled,
            rank,
            frontier.len(),
            #[trigger] frontier[i],
        )
}

/// How many candidates of the frontier are for a node that is settled.
spec fn settled_waiting(frontier: Seq<(Cost, PathNode)>, settled: Set<NodeId>) -> nat
    decreases frontier.len(),
{
    if frontier.len() == 0 {
        0
    } else {
        settled_waiting(frontier.drop_last(), settled) + if settled.contains(frontier.last().1.node) {
            1nat
        } else {
            0nat
        }
    }
}

proof fn lemma_settled_waiting_remove(
    frontier: Seq<(Cost, PathNode)>,
    settled: Set<NodeId>,
    i: int,
)
    requires
        0 <= i < frontier.len(),
    ensures
        settled_waiting(frontier, settled) == settled_waiting(frontier.remove(i), settled) + if settled.contains(
            frontier[i].1.node,
        ) {
            1nat
        } else {
            0nat
        },
    decreases frontier.len(),
{
    if i == frontier.len() - 1 {
        assert(frontier.remove(i) =~= frontier.drop_last());
    } else {
        lemma_settled_waiting_remove(frontier.drop_last(), settled, i);
        assert(frontier.remove(i).drop_last() =~= frontier.drop_last().remove(i));
        assert(frontier.remove(i).last() == frontier.last());
    }
}

proof fn lemma_settled_waiting_push(
    frontier: Seq<(Cost, PathNode)>,
    settled: Set<NodeId>,
    entry: (Cost, PathNode),
)
    ensures
        settled_waiting(frontier.push(entry), settled) == settled_waiting(frontier, settled) + if settled.contains(
            entry.1.node,
        ) {
            1nat
        } else {
            0nat
        },
{
    assert(frontier.push(entry).drop_last() =~= frontier);
}

/// What the search knows of the costs between two steps.
spec fn costs_ok<G: Graph, H: Fn(&NodeId, &NodeId) -> Weight>(
    graph: &G,
    heuristic: H,
    start: NodeId,
    end: NodeId,
    settled: Map<NodeId, PathNode>,
    frontier: Seq<(Cost, PathNode)>,
) -> bool {
    &&& costs_linked(graph, settled)
    &&& waiting_linked(graph, heuristic, end, settled, frontier)
    &&& forall|node: NodeId| #[trigger] settled.contains_key(node) ==> settled.contains_key(start)
    &&& is_consistent(graph, heuristic, end) ==> lower_bounds(graph, start, settled)
}

/// A candidate that leaves the frontier takes no offer with it that is still
/// needed, where its node is settled by then.
proof fn lemma_offers_survive<G: Graph>(
    graph: &G,
    settled: Map<NodeId, PathNode>,
    grown: Map<NodeId, PathNode>,
    before: Seq<(Cost, PathNode)>,
    taken: int,
    from: NodeId,
)
    requires
        0 <= taken < before.len(),
        offers_from(graph, settled, before, from),
        grown[from] == settled[from],
        forall|node: NodeId| settled.contains_key(node) ==> grown.contains_key(node),
        grown.contains_key(before[taken].1.node),
    ensures
        offers_from(graph, grown, before.remove(taken), from),
{
    let after = before.remove(taken);
    assert forall|edge: G::Edge, to: NodeId| #[trigger]
        is_arc(graph, from, edge, to) && !grown.contains_key(to) implies offers_over(
        graph,
        grown,
        after,
        from,
        edge,
        to,
    ) by {
        assert(offers_over(graph, settled, before, from, edge, to));
        let j = choose|j: int|
            0 <= j < before.len() && (#[trigger] before[j]).1.node == to && before[j].1.path_cost
                <= settled[from].path_cost + graph.weight_of(edge);
        let k = if j < taken {
            j
        } else {
            j - 1
        };
        assert(after[k] == before[j]);
    }
}

/// A candidate that joins the frontier leaves every offer in place.
proof fn lemma_offers_grow<G: Graph>(
    graph: &G,
    settled: Map<NodeId, PathNode>,
    before: Seq<(Cost, PathNode)>,
    entry: (Cost, PathNode),
    from: NodeId,
)
    requires
        offers_from(graph, settled, before, from),
    ensures
        offers_from(graph, settled, before.push(entry), from),
{
    let after = before.push(entry);
    assert forall|edge: G::Edge, to: NodeId| #[trigger]
        is_arc(graph, from, edge, to) && !settled.contains_key(to) implies offers_over(
        graph,
        settled,
        after,
        from,
        edge,
        to,
    ) by {
        assert(offers_over(graph, settled, before, from, edge, to));
        let j = choose|j: int|
            0 <= j < before.len() && (#[trigger] before[j]).1.node == to && before[j].1.path_cost
                <= settled[from].path_cost + graph.weight_of(edge);
        assert(after[j] == before[j]);
    }
}

/// The costs stay linked when a candidate is settled whose own cost is
/// linked to its parent's and is no higher than what was known of its node.
proof fn lemma_settle_keeps_costs<G: Graph, H: Fn(&NodeId, &NodeId) -> Weight>(
    graph: &G,
    heuristic: H,
    end: NodeId,
    settled: Map<NodeId, PathNode>,
    frontier: Seq<(Cost, PathNode)>,
    active: PathNode,
)
    requires
        costs_linked(graph, settled),
        waiting_linked(graph, heuristic, end, settled, frontier),
        match active.parent {
            Some(parent) => settled.contains_key(parent) && parent != active.node && linked(
                graph,
                parent,
                active.node,
                settled[parent].path_cost,
                active.path_cost,
            ),
            None => active.path_cost == 0,
        },
        settled.contains_key(active.node) ==> active.path_cost <= settled[active.node].path_cost,
    ensures
        costs_linked(graph, settled.insert(active.node, active)),
        waiting_linked(graph, heuristic, end, settled.insert(active.node, active), frontier),
{
    let grown = settled.insert(active.node, active);
    assert forall|node: NodeId| grown.contains_key(node) implies #[trigger] record_linked(
        graph,
        grown,
        node,
    ) by {
        if node != active.node {
            assert(record_linked(graph, settled, node));
        }
        if let Some(parent) = grown[node].parent {
            let edge = choose|edge: G::Edge| #[trigger]
                is_arc(graph, parent, edge, node) && settled[parent].path_cost + graph.weight_of(edge)
                    <= grown[node].path_cost;
            assert(is_arc(graph, parent, edge, node) && grown[parent].path_cost + graph.weight_of(edge)
                <= grown[node].path_cost);
        }
    }
    assert forall|i: int| 0 <= i < frontier.len() implies match (#[trigger] frontier[i]).1.parent {
        Some(parent) => {
            &&& grown.contains_key(parent)
            &&& linked(graph, parent, frontier[i].1.node, grown[parent].path_cost, frontier[i].1.path_cost)
            &&& frontier[i].1.heuristic_cost <= u64::MAX
            &&& heuristic.ensures((&frontier[i].1.node, &end), frontier[i].1.heuristic_cost as Weight)
        },
        None => true,
    } by {
        if let Some(parent) = frontier[i].1.parent {
            let node = frontier[i].1.node;
            let edge = choose|edge: G::Edge| #[trigger]
                is_arc(graph, parent, edge, node) && settled[parent].path_cost + graph.weight_of(edge)
                    <= frontier[i].1.path_cost;
            assert(is_arc(graph, parent, edge, node) && grown[parent].path_cost + graph.weight_of(edge)
                <= frontier[i].1.path_cost);
        }
    }
}

/// A route is a walk read backwards, so its first node can be reached from
/// its last.
pub proof fn lemma_route_reaches<G: Graph>(graph: &G, start: NodeId, end: NodeId, route: Seq<NodeId>)
    requires
        is_route(graph, start, end, route),
        graph.has_node(end),
    ensures
        reachable(graph, start, end),
    decreases route.len(),
{
    if route.len() == 1 {
        crate::walk::lemma_reachable_self(graph, end);
    } else {
        let rest = route.drop_last();
        let via = rest.last();
        assert(adjacent(graph, route[route.len() - 2 + 1], route[route.len() - 2]));
        let edge = choose|edge: G::Edge| is_arc(graph, start, edge, via);
        assert forall|i: int| 0 <= i < rest.len() - 1 implies adjacent(
            graph,
            #[trigger] rest[i + 1],
            rest[i],
        ) by {
            assert(adjacent(graph, route[i + 1], route[i]));
        }
        lemma_route_reaches(graph, via, end, rest);
        let (nodes, edges) = choose|nodes: Seq<NodeId>, edges: Seq<G::Edge>|
            connects(graph, via, end, nodes, edges);
        lemma_walk_prepend(graph, start, edge, nodes, edges);
        assert(connects(graph, start, end, seq![start] + nodes, seq![edge] + edges));
    }
}

/// Every settled node offers its edges.
spec fn offers_all<G: Graph>(
    graph: &G,
    settled: Map<NodeId, PathNode>,
    frontier: Seq<(Cost, PathNode)>,
) -> bool {
    forall|from: NodeId|
        settled.contains_key(from) ==> #[trigger] offers_from(graph, settled, frontier, from)
}

/// Every settled node but `active` offers its edges.
spec fn others_offer<G: Graph>(
    graph: &G,
    settled: Map<NodeId, PathNode>,
    frontier: Seq<(Cost, PathNode)>,
    active: NodeId,
) -> bool {
    forall|from: NodeId|
        settled.contains_key(from) && from != active ==> #[trigger] offers_from(
            graph,
            settled,
            frontier,
            from,
        )
}

/// The ranks after `node` was settled: a node that is settled for the first
/// time gets the next rank.
spec fn rank_after(rank: Map<NodeId, nat>, settled: Map<NodeId, PathNode>, node: NodeId) -> Map<
    NodeId,
    nat,
> {
    if settled.contains_key(node) {
        rank
    } else {
        rank.insert(node, settled.len())
    }
}

/// What is known of the candidate that has just left the frontier, where
/// `waiting` candidates are left in it.
spec fn taken_ok<G: Graph>(
    graph: &G,
    start: NodeId,
    settled: Map<NodeId, PathNode>,
    rank: Map<NodeId, nat>,
    waiting: nat,
    active: PathNode,
) -> bool {
    &&& graph.has_node(active.node)
    &&& match active.parent {
        Some(parent) => {
            &&& settled.contains_key(parent)
            &&& rank.contains_key(parent)
            &&& active.path_cost <= cost_bound(rank[parent] + 1)
            &&& linked(graph, parent, active.node, settled[parent].path_cost, active.path_cost)
            &&& settled.contains_key(active.node) ==> rank[parent] < rank[active.node]
        },
        None => active.node == start && active.path_cost == 0 && settled.len() == 0 && waiting == 0,
    }
    &&& active.heuristic_cost <= u64::MAX
}

/// No walk from `start` to the node of `active` costs less than the path of
/// `active`.
spec fn taken_is_cheapest<G: Graph>(graph: &G, start: NodeId, active: PathNode) -> bool {
    forall|nodes: Seq<NodeId>, edges: Seq<G::Edge>| #[trigger]
        connects(graph, start, active.node, nodes, edges) ==> active.path_cost <= walk_cost(
            graph,
            edges,
        )
}

/// Taking the first candidate out of the frontier leaves the search in
/// order.
proof fn lemma_take<G: Graph, H: Fn(&NodeId, &NodeId) -> Weight>(
    graph: &G,
    heuristic: H,
    start: NodeId,
    end: NodeId,
    settled: Map<NodeId, PathNode>,
    rank: Map<NodeId, nat>,
    before: Seq<(Cost, PathNode)>,
    taken: int,
)
    requires
        search_ok(graph, start, end, settled, rank, before),
        costs_ok(graph, heuristic, start, end, settled, before),
        offers_all(graph, settled, before),
        is_first_minimum(before, taken),
    ensures
        search_ok(graph, start, end, settled, rank, before.remove(taken)),
        costs_ok(graph, heuristic, start, end, settled, before.remove(taken)),
        taken_ok(graph, start, settled, rank, (before.len() - 1) as nat, before[taken].1),
        is_consistent(graph, heuristic, end) && !settled.contains_key(before[taken].1.node)
            ==> taken_is_cheapest(graph, start, before[taken].1),
        settled_waiting(before, settled.dom()) == settled_waiting(
            before.remove(taken),
            settled.dom(),
        ) + if settled.contains_key(before[taken].1.node) {
            1nat
        } else {
            0nat
        },
{
    let rest = before.remove(taken);
    let active = before[taken].1;
    lemma_settled_waiting_remove(before, settled.dom(), taken);
    assert(waiting_ok(graph, start, settled, rank, before.len(), before[taken]));
    assert forall|j: int| 0 <= j < rest.len() implies waiting_ok(
        graph,
        start,
        settled,
        rank,
        rest.len(),
        #[trigger] rest[j],
    ) by {
        if j < taken {
            assert(rest[j] == before[j]);
        } else {
            assert(rest[j] == before[j + 1]);
        }
    }
    assert forall|j: int| 0 <= j < rest.len() implies match (#[trigger] rest[j]).1.parent {
        Some(parent) => {
            &&& settled.contains_key(parent)
            &&& linked(graph, parent, rest[j].1.node, settled[parent].path_cost, rest[j].1.path_cost)
            &&& rest[j].1.heuristic_cost <= u64::MAX
            &&& heuristic.ensures((&rest[j].1.node, &end), rest[j].1.heuristic_cost as Weight)
        },
        None => true,
    } by {
        if j < taken {
            assert(rest[j] == before[j]);
        } else {
            assert(rest[j] == before[j + 1]);
        }
    }
    if is_consistent(graph, heuristic, end) && !settled.contains_key(active.node) {
        assert forall|nodes: Seq<NodeId>, edges: Seq<G::Edge>| #[trigger]
            connects(graph, start, active.node, nodes, edges) implies active.path_cost <= walk_cost(
            graph,
            edges,
        ) by {
            assert forall|i: int| 0 <= i < before.len() implies {
                &&& (#[trigger] before[i]).0 == before[i].1.path_cost + before[i].1.heuristic_cost
                &&& before[i].1.parent is None ==> before[i].1.node == start && before[i].1.path_cost
                    == 0
            } by {
                assert(waiting_ok(graph, start, settled, rank, before.len(), before[i]));
            }
            lemma_cheapest_leaves_first(
                graph,
                heuristic,
                start,
                end,
                settled,
                before,
                taken,
                nodes,
                edges,
            );
        }
    }
}

/// Settling the candidate that was taken, where no better record is known
/// for its node, leaves the search in order; only the edges of its node
/// have yet to be offered.
proof fn lemma_settle<G: Graph, H: Fn(&NodeId, &NodeId) -> Weight>(
    graph: &G,
    heuristic: H,
    start: NodeId,
    end: NodeId,
    settled: Map<NodeId, PathNode>,
    rank: Map<NodeId, nat>,
    before: Seq<(Cost, PathNode)>,
    taken: int,
)
    requires
        0 <= taken < before.len(),
        search_ok(graph, start, end, settled, rank, before.remove(taken)),
        costs_ok(graph, heuristic, start, end, settled, before.remove(taken)),
        offers_all(graph, settled, before),
        taken_ok(graph, start, settled, rank, (before.len() - 1) as nat, before[taken].1),
        is_consistent(graph, heuristic, end) && !settled.contains_key(before[taken].1.node)
            ==> taken_is_cheapest(graph, start, before[taken].1),
        before[taken].1.node != end,
        settled.len() < usize::MAX || settled.contains_key(before[taken].1.node),
        settled.contains_key(before[taken].1.node) ==> before[taken].1.path_cost
            < settled[before[taken].1.node].path_cost,
    ensures
        ({
            let active = before[taken].1;
            let grown = settled.insert(active.node, active);
            let ranks = rank_after(rank, settled, active.node);
            &&& search_ok(graph, start, end, grown, ranks, before.remove(taken))
            &&& costs_ok(graph, heuristic, start, end, grown, before.remove(taken))
            &&& others_offer(graph, grown, before.remove(taken), active.node)
            &&& grown.contains_key(start)
            &&& settled.contains_key(active.node) ==> grown.dom() == settled.dom()
            &&& !settled.contains_key(active.node) ==> grown.len() == settled.len() + 1
        }),
{
    let active = before[taken].1;
    let rest = before.remove(taken);
    let grown = settled.insert(active.node, active);
    let ranks = rank_after(rank, settled, active.node);
    if settled.contains_key(active.node) {
        assert(settled_ok(graph, start, settled, rank, active.node));
        assert(grown.dom() =~= settled.dom());
    }
    if let Some(p) = active.parent {
        assert(settled_ok(graph, start, settled, rank, p));
        lemma_cost_bound(rank[p] + 1, ranks[active.node]);
    }
    lemma_settle_keeps_costs(graph, heuristic, end, settled, rest, active);
    assert(grown.dom() =~= settled.dom().insert(active.node));
    assert forall|node: NodeId| grown.contains_key(node) implies #[trigger] settled_ok(
        graph,
        start,
        grown,
        ranks,
        node,
    ) by {
        if node != active.node {
            assert(settled_ok(graph, start, settled, rank, node));
            if let Some(p) = settled[node].parent {
                assert(settled_ok(graph, start, settled, rank, p));
            }
        }
    }
    assert forall|j: int| 0 <= j < rest.len() implies waiting_ok(
        graph,
        start,
        grown,
        ranks,
        rest.len(),
        #[trigger] rest[j],
    ) by {
        assert(waiting_ok(graph, start, settled, rank, rest.len(), rest[j]));
        if let Some(p) = rest[j].1.parent {
            assert(settled_ok(graph, start, settled, rank, p));
        } else {
            assert(settled.len() == 0);
            if let Some(q) = active.parent {
                assert(settled.dom().contains(q));
                settled.dom().lemma_len0_is_empty();
            }
        }
    }
    if is_consistent(graph, heuristic, end) {
        assert forall|node: NodeId, nodes: Seq<NodeId>, edges: Seq<G::Edge>|
            grown.contains_key(node) && #[trigger] connects(
                graph,
                start,
                node,
                nodes,
                edges,
            ) implies grown[node].path_cost <= walk_cost(graph, edges) by {
            if node != active.node {
                assert(settled.contains_key(node));
            } else if settled.contains_key(node) {
                assert(settled[node].path_cost <= walk_cost(graph, edges));
            }
        }
    }
    assert forall|from: NodeId|
        grown.contains_key(from) && from != active.node implies #[trigger] offers_from(
        graph,
        grown,
        rest,
        from,
    ) by {
        lemma_offers_survive(graph, settled, grown, before, taken, from);
    }
}

/// A candidate for the target of an edge of the settled node `active` can
/// join the frontier.
proof fn lemma_offer<G: Graph, H: Fn(&NodeId, &NodeId) -> Weight>(
    graph: &G,
    heuristic: H,
    start: NodeId,
    end: NodeId,
    settled: Map<NodeId, PathNode>,
    rank: Map<NodeId, nat>,
    waiting: Seq<(Cost, PathNode)>,
    edge: G::Edge,
    next: PathNode,
)
    requires
        search_ok(graph, start, end, settled, rank, waiting),
        costs_ok(graph, heuristic, start, end, settled, waiting),
        next.parent matches Some(active) && settled.contains_key(active) && is_arc(
            graph,
            active,
            edge,
            next.node,
        ) && next.path_cost == settled[active].path_cost + graph.weight_of(edge),
        !settled.contains_key(next.node),
        next.heuristic_cost <= u64::MAX,
        heuristic.ensures((&next.node, &end), next.heuristic_cost as Weight),
    ensures
        search_ok(
            graph,
            start,
            end,
            settled,
            rank,
            waiting.push(((next.path_cost + next.heuristic_cost) as Cost, next)),
        ),
        costs_ok(
            graph,
            heuristic,
            start,
            end,
            settled,
            waiting.push(((next.path_cost + next.heuristic_cost) as Cost, next)),
        ),
        next.path_cost + next.heuristic_cost <= Cost::MAX,
        others_offer(graph, settled, waiting, next.parent->Some_0) ==> others_offer(
            graph,
            settled,
            waiting.push(((next.path_cost + next.heuristic_cost) as Cost, next)),
            next.parent->Some_0,
        ),
        settled_waiting(
            waiting.push(((next.path_cost + next.heuristic_cost) as Cost, next)),
            settled.dom(),
        ) == settled_waiting(waiting, settled.dom()),
{
    let active = next.parent->Some_0;
    let entry = ((next.path_cost + next.heuristic_cost) as Cost, next);
    let grown = waiting.push(entry);
    assert(settled_ok(graph, start, settled, rank, active));
    lemma_cost_bound(rank[active], rank[active]);
    lemma_cost_bound(rank[active] + 1, usize::MAX as nat);
    lemma_cost_bound(usize::MAX as nat, usize::MAX as nat);
    lemma_settled_waiting_push(waiting, settled.dom(), entry);
    assert forall|j: int| 0 <= j < grown.len() implies waiting_ok(
        graph,
        start,
        settled,
        rank,
        grown.len(),
        #[trigger] grown[j],
    ) by {
        if j < waiting.len() {
            assert(grown[j] == waiting[j]);
            assert(waiting_ok(graph, start, settled, rank, waiting.len(), waiting[j]));
        }
    }
    assert forall|j: int| 0 <= j < grown.len() implies match (#[trigger] grown[j]).1.parent {
        Some(parent) => {
            &&& settled.contains_key(parent)
            &&& linked(graph, parent, grown[j].1.node, settled[parent].path_cost, grown[j].1.path_cost)
            &&& grown[j].1.heuristic_cost <= u64::MAX
            &&& heuristic.ensures((&grown[j].1.node, &end), grown[j].1.heuristic_cost as Weight)
        },
        None => true,
    } by {
        if j < waiting.len() {
            assert(grown[j] == waiting[j]);
        }
    }
    if others_offer(graph, settled, waiting, active) {
        assert forall|from: NodeId|
            settled.contains_key(from) && from != active implies #[trigger] offers_from(
            graph,
            settled,
            grown,
            from,
        ) by {
            lemma_offers_grow(graph, settled, waiting, entry, from);
        }
    }
}

/// Where the frontier is empty, the settled nodes are all that can be
/// reached.
proof fn lemma_exhausted<G: Graph>(
    graph: &G,
    start: NodeId,
    end: NodeId,
    settled: Map<NodeId, PathNode>,
)
    requires
        settled.contains_key(start),
        !settled.contains_key(end),
        offers_all(graph, settled, Seq::<(Cost, PathNode)>::empty()),
    ensures
        !reachable(graph, start, end),
{
    if reachable(graph, start, end) {
        assert forall|a: NodeId, edge: G::Edge, b: NodeId|
            settled.dom().contains(a) && #[trigger] is_arc(graph, a, edge, b) implies settled.dom().contains(
            b,
        ) by {
            assert(offers_from(graph, settled, Seq::<(Cost, PathNode)>::empty(), a));
            if !settled.contains_key(b) {
                assert(offers_over(graph, settled, Seq::<(Cost, PathNode)>::empty(), a, edge, b));
            }
        }
        lemma_closed_set_holds_reachable(graph, settled.dom(), start, end);
    }
}

/// Follows the parents of the candidate `active`, which is for `end`, back
/// to `start`.
fn walk_back<G: Graph>(
    graph: &G,
    start: NodeId,
    end: NodeId,
    dist_map: &HashMap<NodeId, PathNode>,
    Ghost(rank): Ghost<Map<NodeId, nat>>,
    Ghost(frontier): Ghost<Seq<(Cost, PathNode)>>,
    active: PathNode,
) -> (path: Vec<NodeId>)
    requires
        search_ok(graph, start, end, dist_map@, rank, frontier),
        costs_linked(graph, dist_map@),
        taken_ok(graph, start, dist_map@, rank, frontier.len(), active),
        active.node == end,
    ensures
        is_route(graph, start, end, path@),
        reachable(graph, start, end),
        taken_is_cheapest(graph, start, active) ==> is_cheapest_route(graph, start, end, path@),
{
    let mut path: Vec<NodeId> = Vec::new();
    path.push(active.node);
    let mut parent: Option<NodeId> = active.parent;
    let ghost mut bound: nat = dist_map@.len();
    let ghost mut along: Seq<G::Edge> = Seq::empty();
    let ghost mut owed: Cost = active.path_cost;
    proof {
        assert(path@.reverse() =~= seq![end]);
        if let Some(p) = parent {
            assert(settled_ok(graph, start, dist_map@, rank, p));
        }
    }
    loop
        invariant
            search_ok(graph, start, end, dist_map@, rank, frontier),
            costs_linked(graph, dist_map@),
            taken_ok(graph, start, dist_map@, rank, frontier.len(), active),
            active.node == end,
            path@.len() >= 1,
            path@.first() == end,
            forall|i: int| 0 <= i < path@.len() - 1 ==> adjacent(graph, #[trigger] path@[i + 1], path@[i]),
            is_walk(graph, path@.reverse(), along),
            walk_cost(graph, along) + owed <= active.path_cost,
            match parent {
                Some(p) => dist_map@.contains_key(p) && rank.contains_key(p) && rank[p] < bound
                    && linked(graph, p, path@.last(), dist_map@[p].path_cost, owed),
                None => path@.last() == start,
            },
        decreases bound,
    {
        match parent {
            Some(p) => {
                let ghost walked = path@;
                assert(settled_ok(graph, start, dist_map@, rank, p));
                assert(record_linked(graph, dist_map@, p));
                let record = *dist_map.get(&p).unwrap();
                proof {
                    let edge = choose|edge: G::Edge| #[trigger]
                        is_arc(graph, p, edge, walked.last()) && dist_map@[p].path_cost
                            + graph.weight_of(edge) <= owed;
                    assert(walked.reverse().first() == walked.last());
                    lemma_walk_prepend(graph, p, edge, walked.reverse(), along);
                    along = seq![edge] + along;
                    owed = record.path_cost;
                    bound = rank[p];
                }
                path.push(p);
                parent = record.parent;
                proof {
                    assert(path@.reverse() =~= seq![p] + walked.reverse());
                    assert forall|i: int| 0 <= i < path@.len() - 1 implies adjacent(
                        graph,
                        #[trigger] path@[i + 1],
                        path@[i],
                    ) by {
                        if i < walked.len() - 1 {
                            assert(adjacent(graph, walked[i + 1], walked[i]));
                        }
                    }
                }
            },
            None => {
                proof {
                    assert(path@.reverse().first() == start);
                    assert(path@.reverse().last() == end);
                    assert(connects(graph, start, end, path@.reverse(), along));
                    if taken_is_cheapest(graph, start, active) {
                        assert(cheapest_walk(graph, start, end, path@.reverse(), along));
                    }
                }
                return path;
            },
        }
    }
}

/// Lets a candidate wait for the target of every edge of the node that
/// `active` has just settled, unless the target is settled itself or the
/// edge dangles.
fn expand<G: Graph, H: Fn(&NodeId, &NodeId) -> Weight>(
    graph: &G,
    heuristic: &H,
    Ghost(start): Ghost<NodeId>,
    end: NodeId,
    dist_map: &HashMap<NodeId, PathNode>,
    Ghost(rank): Ghost<Map<NodeId, nat>>,
    frontier: &mut Frontier<PathNode>,
    active: PathNode,
)
    requires
        forall|from: &NodeId, to: &NodeId| heuristic.requires((from, to)),
        search_ok(graph, start, end, dist_map@, rank, old(frontier)@),
        costs_ok(graph, *heuristic, start, end, dist_map@, old(frontier)@),
        others_offer(graph, dist_map@, old(frontier)@, active.node),
        dist_map@.contains_key(active.node),
        dist_map@[active.node] == active,
    ensures
        search_ok(graph, start, end, dist_map@, rank, final(frontier)@),
        costs_ok(graph, *heuristic, start, end, dist_map@, final(frontier)@),
        offers_all(graph, dist_map@, final(frontier)@),
        settled_waiting(final(frontier)@, dist_map@.dom()) == settled_waiting(
            old(frontier)@,
            dist_map@.dom(),
        ),
{
    proof {
        assert(settled_ok(graph, start, dist_map@, rank, active.node));
    }
    let edges = graph.outgoing_edges(&active.node);
    let mut i: usize = 0;
    while i < edges.len()
        invariant
            0 <= i <= edges@.len(),
            forall|from: &NodeId, to: &NodeId| heuristic.requires((from, to)),
            search_ok(graph, start, end, dist_map@, rank, frontier@),
            costs_ok(graph, *heuristic, start, end, dist_map@, frontier@),
            others_offer(graph, dist_map@, frontier@, active.node),
            dist_map@.contains_key(active.node),
            dist_map@[active.node] == active,
            edges@.to_set() == graph.edges_from(active.node),
            settled_waiting(frontier@, dist_map@.dom()) == settled_waiting(
                old(frontier)@,
                dist_map@.dom(),
            ),
            forall|k: int, to: NodeId|
                0 <= k < i && #[trigger] is_arc(graph, active.node, edges@[k], to)
                    && !dist_map@.contains_key(to) ==> offers_over(
                    graph,
                    dist_map@,
                    frontier@,
                    active.node,
                    edges@[k],
                    to,
                ),
        decreases edges@.len() - i,
    {
        let edge = &edges[i];
        match graph.target(edge) {
            Some(target) => {
                if !dist_map.contains_key(&target) {
                    proof {
                        assert(settled_ok(graph, start, dist_map@, rank, active.node));
                        assert(edges@.to_set().contains(edges@[i as int]));
                        assert(is_arc(graph, active.node, *edge, target));
                        assert(crate::has_edge(graph, *edge));
                    }
                    match graph.weight(edge) {
                        Ok(weight) => {
                            proof {
                                assert(settled_ok(graph, start, dist_map@, rank, active.node));
                                lemma_cost_bound(rank[active.node], rank[active.node]);
                                lemma_cost_bound(rank[active.node] + 1, usize::MAX as nat);
                                lemma_cost_bound(usize::MAX as nat, usize::MAX as nat);
                            }
                            let estimate: Weight = heuristic(&target, &end);
                            let next = PathNode {
                                node: target,
                                parent: Some(active.node),
                                path_cost: active.path_cost + weight as Cost,
                                heuristic_cost: estimate as Cost,
                            };
                            let ghost waiting = frontier@;
                            proof {
                                lemma_offer(
                                    graph,
                                    *heuristic,
                                    start,
                                    end,
                                    dist_map@,
                                    rank,
                                    waiting,
                                    *edge,
                                    next,
                                );
                            }
                            let priority: Cost = next.total_cost();
                            frontier.push(priority, next);
                            proof {
                                assert forall|k: int, to: NodeId|
                                    0 <= k < i + 1 && #[trigger] is_arc(
                                        graph,
                                        active.node,
                                        edges@[k],
                                        to,
                                    ) && !dist_map@.contains_key(to) implies offers_over(
                                    graph,
                                    dist_map@,
                                    frontier@,
                                    active.node,
                                    edges@[k],
                                    to,
                                ) by {
                                    if k < i {
                                        assert(offers_over(
                                            graph,
                                            dist_map@,
                                            waiting,
                                            active.node,
                                            edges@[k],
                                            to,
                                        ));
                                        let j = choose|j: int|
                                            0 <= j < waiting.len() && (#[trigger] waiting[j]).1.node
                                                == to && waiting[j].1.path_cost
                                                <= dist_map@[active.node].path_cost
                                                + graph.weight_of(edges@[k]);
                                        assert(frontier@[j] == waiting[j]);
                                    } else {
                                        assert(frontier@[waiting.len() as int].1 == next);
                                    }
                                }
                            }
                        },
                        Err(_) => {},
                    }
                }
            },
            None => {},
        }
        i += 1;
    }
    proof {
        assert forall|edge: G::Edge, to: NodeId| #[trigger]
            is_arc(graph, active.node, edge, to) && !dist_map@.contains_key(to) implies offers_over(
            graph,
            dist_map@,
            frontier@,
            active.node,
            edge,
            to,
        ) by {
            assert(edges@.to_set().contains(edge));
            let k = choose|k: int| 0 <= k < edges@.len() && edges@[k] == edge;
            assert(is_arc(graph, active.node, edges@[k], to));
        }
        assert(offers_from(graph, dist_map@, frontier@, active.node));
    }
}

/// `heavy` has the nodes and edges of `light`, and no edge weighs less in it.
pub open spec fn weighs_more<G: Graph>(light: &G, heavy: &G) -> bool {
    &&& forall|node: NodeId| #[trigger] light.has_node(node) == heavy.has_node(node)
    &&& forall|node: NodeId| #[trigger] light.edges_from(node) == heavy.edges_from(node)
    &&& forall|edge: G::Edge| #[trigger] light.target_of(edge) == heavy.target_of(edge)
    &&& forall|edge: G::Edge| #[trigger] light.weight_of(edge) <= heavy.weight_of(edge)
}

/// A walk of the heavier graph is a walk of the lighter one, and costs no
/// more there.
pub proof fn lemma_walk_in_lighter_graph<G: Graph>(
    light: &G,
    heavy: &G,
    nodes: Seq<NodeId>,
    edges: Seq<G::Edge>,
)
    requires
        weighs_more(light, heavy),
        is_walk(heavy, nodes, edges),
    ensures
        is_walk(light, nodes, edges),
        walk_cost(light, edges) <= walk_cost(heavy, edges),
    decreases edges.len(),
{
    assert(light.has_node(nodes[0]) == heavy.has_node(nodes[0]));
    assert forall|i: int| 0 <= i < edges.len() implies is_arc(
        light,
        nodes[i],
        #[trigger] edges[i],
        nodes[i + 1],
    ) by {
        assert(is_arc(heavy, nodes[i], edges[i], nodes[i + 1]));
        assert(light.has_node(nodes[i]) == heavy.has_node(nodes[i]));
        assert(light.has_node(nodes[i + 1]) == heavy.has_node(nodes[i + 1]));
        assert(light.edges_from(nodes[i]) == heavy.edges_from(nodes[i]));
        assert(light.target_of(edges[i]) == heavy.target_of(edges[i]));
    }
    if edges.len() > 0 {
        let last = edges.len() - 1;
        lemma_subwalk(heavy, nodes, edges, 0, last);
        assert(nodes.subrange(0, last + 1) =~= nodes.drop_last());
        assert(edges.subrange(0, last) =~= edges.drop_last());
        lemma_walk_in_lighter_graph(light, heavy, nodes.drop_last(), edges.drop_last());
        assert(light.weight_of(edges.last()) <= heavy.weight_of(edges.last()));
    }
}

/// The cost of a cheapest walk between two nodes does not fall when weights
/// of the graph rise: a cheapest walk of the lighter graph costs no more than
/// a cheapest walk of the heavier one.
pub proof fn lemma_cheapest_cost_is_monotone<G: Graph>(
    light: &G,
    heavy: &G,
    start: NodeId,
    end: NodeId,
    light_nodes: Seq<NodeId>,
    light_edges: Seq<G::Edge>,
    heavy_nodes: Seq<NodeId>,
    heavy_edges: Seq<G::Edge>,
)
    requires
        weighs_more(light, heavy),
        cheapest_walk(light, start, end, light_nodes, light_edges),
        cheapest_walk(heavy, start, end, heavy_nodes, heavy_edges),
    ensures
        walk_cost(light, light_edges) <= walk_cost(heavy, heavy_edges),
{
    lemma_walk_in_lighter_graph(light, heavy, heavy_nodes, heavy_edges);
    assert(connects(light, start, end, heavy_nodes, heavy_edges));
}

/// An estimate that is always zero is consistent, whatever the graph.
pub proof fn lemma_zero_estimate_is_consistent<G: Graph, H: Fn(&NodeId, &NodeId) -> Weight>(
    graph: &G,
    heuristic: H,
    end: NodeId,
)
    requires
        forall|from: NodeId, to: NodeId, value: Weight| #[trigger]
            heuristic.ensures((&from, &to), value) ==> value == 0,
    ensures
        is_consistent(graph, heuristic, end),
{
    let zero = |node: NodeId| 0nat;
    assert(follows_potential(graph, heuristic, end, zero));
}

/// Searches a path from `start` to `end`, guided by `heuristic`, which
/// estimates the cost from its first argument to its second. The path is
/// given from `end` back to `start`; there is one exactly where `end` can be
/// reached. With a consistent estimate no path is cheaper than the one
/// found; an estimate that is always zero is consistent, and the search is
/// then Dijkstra's.
pub fn a_star<G: Graph, H: Fn(&NodeId, &NodeId) -> Weight>(
    graph: &G,
    start: NodeId,
    end: NodeId,
    heuristic: H,
) -> (path: Option<Vec<NodeId>>)
    requires
        graph.has_node(start),
        forall|from: &NodeId, to: &NodeId| heuristic.requires((from, to)),
    ensures
        path is Some <==> reachable(graph, start, end),
        path matches Some(route) ==> is_route(graph, start, end, route@),
        path matches Some(route) ==> (is_consistent(graph, heuristic, end) ==> is_cheapest_route(
            graph,
            start,
            end,
            route@,
        )),
{
    let mut dist_map: HashMap<NodeId, PathNode> = HashMap::new();
    let mut frontier: Frontier<PathNode> = Frontier::new();
    let first = PathNode::new(start, None);
    frontier.push(first.total_cost(), first);
    let ghost mut rank: Map<NodeId, nat> = Map::empty();
    proof {
        assert(frontier@[0] == (0u128, first));
    }
    loop
        invariant
            graph.has_node(start),
            forall|from: &NodeId, to: &NodeId| heuristic.requires((from, to)),
            search_ok(graph, start, end, dist_map@, rank, frontier@),
            costs_ok(graph, heuristic, start, end, dist_map@, frontier@),
            frontier@.len() == 0 ==> dist_map@.contains_key(start),
            offers_all(graph, dist_map@, frontier@),
        decreases usize::MAX - dist_map@.len(), settled_waiting(frontier@, dist_map@.dom()),
    {
        let ghost before = frontier@;
        let ghost settled = dist_map@;
        let active = match frontier.pop() {
            Some(entry) => entry.1,
            None => {
                proof {
                    assert(before =~= Seq::<(Cost, PathNode)>::empty());
                    lemma_exhausted(graph, start, end, settled);
                }
                return None;
            },
        };
        let ghost taken = first_minimum(before);
        proof {
            lemma_take(graph, heuristic, start, end, settled, rank, before, taken);
        }
        if active.node == end {
            let path = walk_back(
                graph,
                start,
                end,
                &dist_map,
                Ghost(rank),
                Ghost(frontier@),
                active,
            );
            return Some(path);
        }
        let better = match dist_map.get(&active.node) {
            Some(previous) => active.path_cost < previous.path_cost,
            None => true,
        };
        if better {
            dist_map.insert(active.node, active);
            proof {
                assert(dist_map@.len() == dist_map.len());
                assert(dist_map@.dom() =~= settled.dom().insert(active.node));
                lemma_settle(graph, heuristic, start, end, settled, rank, before, taken);
                rank = rank_after(rank, settled, active.node);
            }
            expand(graph, &heuristic, Ghost(start), end, &dist_map, Ghost(rank), &mut frontier, active);
        } else {
            proof {
                assert forall|from: NodeId| #[trigger] dist_map@.contains_key(from) implies offers_from(
                    graph,
                    dist_map@,
                    frontier@,
                    from,
                ) by {
                    lemma_offers_survive(graph, dist_map@, dist_map@, before, taken, from);
                }
            }
        }
    }
}

} // verus!
