use graph::minimum_spanning_tree::prims;
use graph::AdjacencyMap;
use graph::Graph;

#[test]
fn minimum_spanning_tree_test_simple() {
    //  [1] --2-- [2]
    //      \      |
    //        1    2
    //          \  |
    //  [3] --3-- [4]
    let mut graph = AdjacencyMap::new();

    graph.add_node(1, ());
    graph.add_node(2, ());
    graph.add_node(3, ());
    graph.add_node(4, ());

    graph.add_edge(1, 2, 2).unwrap();
    graph.add_edge(1, 4, 1).unwrap();
    graph.add_edge(2, 4, 2).unwrap();
    graph.add_edge(3, 4, 3).unwrap();

    let mst = prims(&&graph, 1);
    let total = mst.iter().map(|e| (&graph).weight(&e).unwrap()).fold(0, |acc, x| acc + x);
    assert_eq!(total, 3 + 1 + 2);
}

#[test]
fn tree_has_one_edge_less_than_reachable_nodes() {
    let mut graph = AdjacencyMap::new();
    for id in 1..=6 {
        graph.add_node(id, ());
    }
    graph.add_edge(1, 2, 4).unwrap();
    graph.add_edge(2, 3, 1).unwrap();
    graph.add_edge(1, 3, 3).unwrap();
    graph.add_edge(3, 4, 2).unwrap();
    // 5 and 6 are cut off from 1
    graph.add_edge(5, 6, 1).unwrap();
    let tree = prims(&&graph, 1);
    assert_eq!(tree.len(), 3);
    let total: u64 = tree.iter().map(|e| (&graph).weight(e).unwrap()).sum();
    assert_eq!(total, 3 + 1 + 2);
    let other = prims(&&graph, 5);
    assert_eq!(other, vec![(5, 6)]);
}

#[test]
fn tree_of_a_lonely_node_is_empty() {
    let mut graph: AdjacencyMap<(), u64> = AdjacencyMap::new();
    graph.add_node(3, ());
    assert_eq!(prims(&&graph, 3), vec![]);
}

#[test]
fn tree_edges_come_in_the_order_in_which_they_join() {
    let mut graph = AdjacencyMap::new();
    for id in 1..=4 {
        graph.add_node(id, ());
    }
    graph.add_edge(1, 2, 5).unwrap();
    graph.add_edge(2, 3, 1).unwrap();
    graph.add_edge(1, 4, 7).unwrap();
    assert_eq!(prims(&&graph, 1), vec![(1, 2), (2, 3), (1, 4)]);
}

#[test]
fn tree_skips_dangling_and_looping_arcs() {
    let mut graph = AdjacencyMap::new();
    graph.add_node(1, ());
    graph.add_node(2, ());
    graph.add_arc(1, 1, 0).unwrap();
    graph.add_arc(1, 8, 0).unwrap();
    graph.add_arc(1, 2, 6).unwrap();
    assert_eq!(prims(&&graph, 1), vec![(1, 2)]);
}

#[test]
fn tree_weight_is_minimal_on_the_shared_fixture() {
    let mut graph = AdjacencyMap::new();
    for id in 1..=6 {
        graph.add_node(id, ());
    }
    graph.add_edge(1, 2, 7).unwrap();
    graph.add_edge(1, 3, 9).unwrap();
    graph.add_edge(1, 6, 14).unwrap();
    graph.add_edge(2, 3, 10).unwrap();
    graph.add_edge(2, 4, 15).unwrap();
    graph.add_edge(3, 4, 11).unwrap();
    graph.add_edge(3, 6, 2).unwrap();
    graph.add_edge(4, 5, 6).unwrap();
    graph.add_edge(5, 6, 14).unwrap();
    for start in 1..=6 {
        let tree = prims(&&graph, start);
        assert_eq!(tree.len(), 5);
        let total: u64 = tree.iter().map(|e| (&graph).weight(e).unwrap()).sum();
        assert_eq!(total, 7 + 9 + 2 + 11 + 6);
    }
}

fn connected(nodes: usize, chosen: &[(usize, usize, u64)]) -> bool {
    let mut group: Vec<usize> = (0..nodes).collect();
    for _ in 0..nodes {
        for (a, b, _) in chosen {
            let low = group[*a].min(group[*b]);
            group[*a] = low;
            group[*b] = low;
        }
    }
    group.iter().all(|g| *g == 0)
}

#[test]
fn no_spanning_edge_set_weighs_less_than_the_tree() {
    let edges: Vec<(usize, usize, u64)> = vec![
        (0, 1, 7),
        (0, 2, 9),
        (0, 5, 14),
        (1, 2, 10),
        (1, 3, 15),
        (2, 3, 11),
        (2, 5, 2),
        (3, 4, 6),
        (4, 5, 14),
    ];
    let mut graph = AdjacencyMap::new();
    for id in 0..6 {
        graph.add_node(id, ());
    }
    for (a, b, w) in &edges {
        graph.add_edge(*a, *b, *w).unwrap();
    }
    let mut least = u64::MAX;
    for mask in 0u32..(1 << edges.len()) {
        let chosen: Vec<(usize, usize, u64)> =
            (0..edges.len()).filter(|i| mask & (1 << i) != 0).map(|i| edges[i]).collect();
        if connected(6, &chosen) {
            least = least.min(chosen.iter().map(|e| e.2).sum());
        }
    }
    let tree = prims(&&graph, 0);
    let total: u64 = tree.iter().map(|e| (&graph).weight(e).unwrap()).sum();
    assert_eq!(total, least);
    assert_eq!(least, 7 + 9 + 2 + 11 + 6);
}

#[test]
fn each_tree_edge_leaves_a_node_that_joined_before() {
    let mut graph = AdjacencyMap::new();
    for id in 0..7 {
        graph.add_node(id, ());
    }
    for id in 0..6usize {
        graph.add_edge(id, id + 1, 10 - id as u64).unwrap();
        graph.add_edge(id, (id + 3) % 7, 3 + id as u64).unwrap();
    }
    let tree = prims(&&graph, 3);
    let mut joined = vec![3];
    for (from, to) in &tree {
        assert!(joined.contains(from));
        assert!(!joined.contains(to));
        joined.push(*to);
    }
    assert_eq!(joined.len(), 7);
}

#[test]
fn on_directed_arcs_the_cheapest_arc_out_is_taken_each_time() {
    // 0 -2-> 1, 0 -3-> 2, 1 -10-> 2, 2 -1-> 1
    let mut graph = AdjacencyMap::new();
    for id in 0..3 {
        graph.add_node(id, ());
    }
    graph.add_arc(0, 1, 2).unwrap();
    graph.add_arc(0, 2, 3).unwrap();
    graph.add_arc(1, 2, 10).unwrap();
    graph.add_arc(2, 1, 1).unwrap();
    assert_eq!(prims(&&graph, 0), vec![(0, 1), (0, 2)]);
}
