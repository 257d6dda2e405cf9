use graph::traversal::{breadth_first_search, BfsNode};
use graph::AdjacencyMap;

#[test]
pub fn basic_test() {
    // [1] -> [2] -> [3] -> [4] -> [5]
    let mut graph = AdjacencyMap::new();

    graph.add_node(1, ());
    graph.add_node(2, ());
    graph.add_node(3, ());
    graph.add_node(4, ());
    graph.add_node(5, ());

    graph.add_arc(1, 2, 0).unwrap();
    graph.add_arc(2, 3, 0).unwrap();
    graph.add_arc(3, 4, 0).unwrap();
    graph.add_arc(4, 5, 0).unwrap();

    let mut index = 1;
    breadth_first_search(&&graph, 1, |visited| {
        assert_eq!(visited.last().map(|n| n.value()), Some(index));
        index += 1;
        true
    });
}

fn chain() -> AdjacencyMap<(), u64> {
    let mut graph = AdjacencyMap::new();
    for id in 1..=5 {
        graph.add_node(id, ());
    }
    for id in 1..5 {
        graph.add_arc(id, id + 1, 0).unwrap();
    }
    graph
}

fn values(order: &[BfsNode]) -> Vec<usize> {
    order.iter().map(|n| n.value()).collect()
}

#[test]
fn chain_is_visited_in_order() {
    let graph = chain();
    let order = breadth_first_search(&&graph, 1, |_| true);
    assert_eq!(values(&order), vec![1, 2, 3, 4, 5]);
    let parents: Vec<usize> = order.iter().map(|n| n.parent()).collect();
    assert_eq!(parents, vec![0, 0, 1, 2, 3]);
}

#[test]
fn visitor_stop_ends_the_traversal_at_once() {
    let graph = chain();
    let mut calls = 0;
    let order = breadth_first_search(&&graph, 1, |visited| {
        calls += 1;
        visited.len() < 3
    });
    assert_eq!(values(&order), vec![1, 2, 3]);
    assert_eq!(calls, 3);
}

#[test]
fn visitor_sees_every_prefix_once() {
    let graph = chain();
    let mut lengths = Vec::new();
    breadth_first_search(&&graph, 2, |visited| {
        lengths.push(visited.len());
        true
    });
    assert_eq!(lengths, vec![1, 2, 3, 4]);
}

#[test]
fn start_is_not_visited_again_on_a_cycle() {
    let mut graph = AdjacencyMap::new();
    for id in 1..=3 {
        graph.add_node(id, ());
    }
    graph.add_arc(1, 2, 0).unwrap();
    graph.add_arc(2, 3, 0).unwrap();
    graph.add_arc(3, 1, 0).unwrap();
    let order = breadth_first_search(&&graph, 1, |_| true);
    assert_eq!(values(&order), vec![1, 2, 3]);
}

#[test]
fn levels_come_one_after_the_other() {
    //        1
    //      /   \
    //     2     3
    //    / \     \
    //   4   5     6
    let mut graph = AdjacencyMap::new();
    for id in 1..=6 {
        graph.add_node(id, ());
    }
    graph.add_edge(1, 2, 1).unwrap();
    graph.add_edge(1, 3, 1).unwrap();
    graph.add_edge(2, 4, 1).unwrap();
    graph.add_edge(2, 5, 1).unwrap();
    graph.add_edge(3, 6, 1).unwrap();
    let order = breadth_first_search(&&graph, 1, |_| true);
    assert_eq!(order.len(), 6);
    let mut depth = vec![0usize; order.len()];
    for i in 1..order.len() {
        assert!(order[i].parent() < i);
        depth[i] = depth[order[i].parent()] + 1;
        assert!(depth[i - 1] <= depth[i]);
    }
    let mut by_node = vec![0usize; 7];
    for (i, node) in order.iter().enumerate() {
        by_node[node.value()] = depth[i];
    }
    assert_eq!(&by_node[1..], &[0, 1, 1, 2, 2, 2]);
}

#[test]
fn dangling_targets_are_not_visited() {
    let mut graph = AdjacencyMap::new();
    graph.add_node(1, ());
    graph.add_node(2, ());
    graph.add_arc(1, 7, 0).unwrap();
    graph.add_arc(1, 2, 0).unwrap();
    let order = breadth_first_search(&&graph, 1, |_| true);
    assert_eq!(values(&order), vec![1, 2]);
}

#[test]
fn levels_are_the_distances_in_edges() {
    let mut graph = AdjacencyMap::new();
    for id in 0..10 {
        graph.add_node(id, ());
    }
    let arcs = [
        (0, 1), (0, 2), (1, 3), (2, 3), (3, 4), (4, 0), (2, 5), (5, 6), (6, 4), (1, 6), (7, 8), (8, 0),
    ];
    for (from, to) in arcs {
        graph.add_arc(from, to, 1).unwrap();
    }
    let mut hops = vec![None; 10];
    hops[0] = Some(0usize);
    for _ in 0..10 {
        for (from, to) in arcs {
            if let Some(d) = hops[from] {
                if hops[to].map_or(true, |k| d + 1 < k) {
                    hops[to] = Some(d + 1);
                }
            }
        }
    }
    let order = breadth_first_search(&&graph, 0, |_| true);
    let mut depth = vec![0usize; order.len()];
    for i in 1..order.len() {
        depth[i] = depth[order[i].parent()] + 1;
        assert!(depth[i - 1] <= depth[i]);
    }
    for (i, node) in order.iter().enumerate() {
        assert_eq!(hops[node.value()], Some(depth[i]));
    }
    assert_eq!(order.len(), hops.iter().filter(|h| h.is_some()).count());
    assert_eq!(order.len(), 7);
}

#[test]
fn stop_at_the_first_node_records_the_start_alone() {
    let graph = chain();
    let order = breadth_first_search(&&graph, 1, |_| false);
    assert_eq!(values(&order), vec![1]);
    assert_eq!(order[0].parent(), 0);
}
