use graph::shortest_path::{a_star, PathNode};
use graph::AdjacencyMap;

fn no_heuristic(_: &usize, _: &usize) -> u64 {
    0
}

fn fixture() -> AdjacencyMap<(), u64> {
    let mut graph = AdjacencyMap::new();

    graph.add_node(1, ());
    graph.add_node(2, ());
    graph.add_node(3, ());
    graph.add_node(4, ());
    graph.add_node(5, ());
    graph.add_node(6, ());

    graph.add_edge(1, 2, 7).unwrap();
    graph.add_edge(1, 3, 9).unwrap();
    graph.add_edge(1, 6, 14).unwrap();
    graph.add_edge(2, 3, 10).unwrap();
    graph.add_edge(2, 4, 15).unwrap();
    graph.add_edge(3, 4, 11).unwrap();
    graph.add_edge(3, 6, 2).unwrap();
    graph.add_edge(4, 5, 6).unwrap();
    graph.add_edge(5, 6, 14).unwrap();
    graph
}

fn route_cost(graph: &AdjacencyMap<(), u64>, route: &[usize]) -> u64 {
    let mut total = 0;
    for pair in route.windows(2) {
        total += graph.index(pair[1]).unwrap().outgoing[&pair[0]];
    }
    total
}

#[test]
fn shortest_path_test_simple() {
    let graph = fixture();

    let (start, end) = (1, 5);
    let path = a_star(&&graph, start, end, no_heuristic);
    assert!(path.is_some());
    assert_eq!(path.unwrap(), vec![5, 6, 3, 1]);
}

#[test]
fn test_simple_no_path() {
    let mut graph = AdjacencyMap::new();

    graph.add_node(1, ());
    graph.add_node(2, ());
    graph.add_node(3, ());

    graph.add_edge(1, 2, 1).unwrap();
    let (start, end) = (1, 3);
    let path = a_star(&&graph, start, end, no_heuristic);
    assert!(path.is_none());
}

#[test]
fn shortest_path_costs_twenty_five_on_the_fixture() {
    let graph = fixture();
    let path = a_star(&&graph, 1, 5, no_heuristic).unwrap();
    assert_eq!(route_cost(&graph, &path), 9 + 2 + 14);
}

#[test]
fn path_to_the_start_itself_is_the_start_alone() {
    let graph = fixture();
    assert_eq!(a_star(&&graph, 4, 4, no_heuristic), Some(vec![4]));
}

#[test]
fn path_runs_from_end_back_to_start_over_existing_arcs() {
    let graph = fixture();
    for end in 1..=6 {
        let path = a_star(&&graph, 2, end, no_heuristic).unwrap();
        assert_eq!(path[0], end);
        assert_eq!(*path.last().unwrap(), 2);
        for pair in path.windows(2) {
            assert!(graph.index(pair[1]).unwrap().outgoing.contains_key(&pair[0]));
        }
    }
}

#[test]
fn shortest_costs_from_node_one_are_those_of_dijkstra() {
    let graph = fixture();
    let expected = [(1, 0), (2, 7), (3, 9), (4, 20), (5, 25), (6, 11)];
    for (end, cost) in expected {
        let path = a_star(&&graph, 1, end, no_heuristic).unwrap();
        assert_eq!(route_cost(&graph, &path), cost);
    }
}

#[test]
fn directed_arcs_are_followed_forwards_only() {
    let mut graph = AdjacencyMap::new();
    graph.add_node(1, ());
    graph.add_node(2, ());
    graph.add_arc(1, 2, 5).unwrap();
    assert_eq!(a_star(&&graph, 1, 2, no_heuristic), Some(vec![2, 1]));
    assert_eq!(a_star(&&graph, 2, 1, no_heuristic), None);
}

#[test]
fn dangling_arcs_are_skipped() {
    let mut graph = AdjacencyMap::new();
    graph.add_node(1, ());
    graph.add_node(2, ());
    graph.add_arc(1, 9, 1).unwrap();
    graph.add_arc(1, 2, 4).unwrap();
    assert_eq!(a_star(&&graph, 1, 2, no_heuristic), Some(vec![2, 1]));
    assert_eq!(a_star(&&graph, 1, 9, no_heuristic), None);
}

#[test]
fn cheaper_detour_beats_direct_arc() {
    let mut graph = AdjacencyMap::new();
    for id in 0..4 {
        graph.add_node(id, ());
    }
    graph.add_arc(0, 3, 10).unwrap();
    graph.add_arc(0, 1, 2).unwrap();
    graph.add_arc(1, 2, 3).unwrap();
    graph.add_arc(2, 3, 4).unwrap();
    assert_eq!(a_star(&&graph, 0, 3, no_heuristic), Some(vec![3, 2, 1, 0]));
}

fn line_distance(from: &usize, to: &usize) -> u64 {
    (if from > to { from - to } else { to - from }) as u64
}

#[test]
fn consistent_heuristic_finds_the_same_cost_as_none() {
    let mut graph = AdjacencyMap::new();
    for id in 0..8 {
        graph.add_node(id, ());
    }
    for id in 0..7 {
        graph.add_edge(id, id + 1, 1 + (id as u64 % 3)).unwrap();
    }
    graph.add_edge(0, 4, 7).unwrap();
    graph.add_edge(2, 7, 9).unwrap();
    let plain = a_star(&&graph, 0, 7, no_heuristic).unwrap();
    let guided = a_star(&&graph, 0, 7, line_distance).unwrap();
    let cost = |route: &[usize]| -> u64 {
        route.windows(2).map(|pair| graph.index(pair[1]).unwrap().outgoing[&pair[0]]).sum()
    };
    assert_eq!(cost(&plain), cost(&guided));
    assert_eq!(cost(&plain), 1 + 2 + 9);
}

#[test]
fn raising_a_weight_never_lowers_the_shortest_cost() {
    let base = fixture();
    let before = route_cost(&base, &a_star(&&base, 1, 5, no_heuristic).unwrap());
    let mut raised = fixture();
    raised.add_edge(3, 6, 5).unwrap();
    let after = route_cost(&raised, &a_star(&&raised, 1, 5, no_heuristic).unwrap());
    assert_eq!(before, 25);
    assert_eq!(after, 26);
    assert!(before <= after);
}

#[test]
fn new_path_node_has_zero_costs() {
    let candidate = PathNode::new(7, Some(3));
    assert_eq!(candidate.node, 7);
    assert_eq!(candidate.parent, Some(3));
    assert_eq!(candidate.path_cost, 0);
    assert_eq!(candidate.heuristic_cost, 0);
    assert_eq!(candidate.total_cost(), 0);
}

#[test]
fn total_cost_adds_path_and_estimate() {
    let mut candidate = PathNode::new(1, None);
    candidate.path_cost = 40;
    candidate.heuristic_cost = 2;
    assert_eq!(candidate.total_cost(), 42);
}

fn all_pairs(graph: &AdjacencyMap<(), u64>, nodes: usize) -> Vec<Vec<Option<u64>>> {
    let mut best = vec![vec![None; nodes]; nodes];
    for from in 0..nodes {
        if graph.index(from).is_ok() {
            best[from][from] = Some(0);
        }
    }
    for from in 0..nodes {
        if let Ok(record) = graph.index(from) {
            for (to, weight) in record.outgoing.iter() {
                if graph.index(*to).is_ok() && from != *to {
                    let known: Option<u64> = best[from][*to];
                    if known.map_or(true, |k| *weight < k) {
                        best[from][*to] = Some(*weight);
                    }
                }
            }
        }
    }
    for via in 0..nodes {
        for from in 0..nodes {
            for to in 0..nodes {
                if let (Some(a), Some(b)) = (best[from][via], best[via][to]) {
                    if best[from][to].map_or(true, |k| a + b < k) {
                        best[from][to] = Some(a + b);
                    }
                }
            }
        }
    }
    best
}

fn scattered_graph() -> AdjacencyMap<(), u64> {
    let mut graph = AdjacencyMap::new();
    for id in 0..9 {
        graph.add_node(id, ());
    }
    let mut seed: u64 = 12345;
    for from in 0..9usize {
        for to in 0..9usize {
            seed = seed.wrapping_mul(6364136223846793005).wrapping_add(1442695040888963407);
            if from != to && (seed >> 33) % 4 == 0 {
                graph.add_arc(from, to, 1 + (seed >> 40) % 20).unwrap();
            }
        }
    }
    graph
}

#[test]
fn found_cost_is_the_minimum_over_all_paths() {
    let graph = scattered_graph();
    let best = all_pairs(&graph, 9);
    let mut reached = 0;
    for start in 0..9 {
        for end in 0..9 {
            let path = a_star(&&graph, start, end, no_heuristic);
            match best[start][end] {
                Some(cost) => {
                    reached += 1;
                    assert_eq!(route_cost(&graph, &path.unwrap()), cost);
                }
                None => assert_eq!(path, None),
            }
        }
    }
    assert!(reached > 9);
}

#[test]
fn inconsistent_estimate_may_miss_the_cheapest_path() {
    // 0 -1-> 1 -1-> 2 -10-> 3 and 0 -3-> 2; node 1 is estimated far too high
    // for the step to node 2, so node 2 is settled over the dearer arc.
    fn skewed(from: &usize, _: &usize) -> u64 {
        if *from == 1 {
            11
        } else {
            0
        }
    }
    let mut graph = AdjacencyMap::new();
    for id in 0..4 {
        graph.add_node(id, ());
    }
    graph.add_arc(0, 1, 1).unwrap();
    graph.add_arc(1, 2, 1).unwrap();
    graph.add_arc(0, 2, 3).unwrap();
    graph.add_arc(2, 3, 10).unwrap();
    assert_eq!(a_star(&&graph, 0, 3, skewed), Some(vec![3, 2, 0]));
    assert_eq!(a_star(&&graph, 0, 3, no_heuristic), Some(vec![3, 2, 1, 0]));
}

#[test]
fn weights_near_the_limit_do_not_overflow() {
    let mut graph = AdjacencyMap::new();
    for id in 0..4 {
        graph.add_node(id, ());
    }
    graph.add_arc(0, 1, u64::MAX).unwrap();
    graph.add_arc(1, 2, u64::MAX).unwrap();
    graph.add_arc(2, 3, u64::MAX).unwrap();
    fn huge(_: &usize, _: &usize) -> u64 {
        u64::MAX
    }
    assert_eq!(a_star(&&graph, 0, 3, huge), Some(vec![3, 2, 1, 0]));
}
