use graph::{AdjacencyMap, Graph, GraphError};

#[test]
fn new_map_knows_no_node() {
    let graph: AdjacencyMap<u8, u64> = AdjacencyMap::new();
    assert_eq!(graph.index(0).err(), Some(GraphError::UnknownNode));
    assert_eq!((&graph).target(&(0, 0)), None);
}

#[test]
fn added_node_has_its_payload_and_no_arcs() {
    let mut graph: AdjacencyMap<&str, u64> = AdjacencyMap::new();
    graph.add_node(4, "four");
    let node = graph.index(4).unwrap();
    assert_eq!(node.value, "four");
    assert!(node.outgoing.is_empty());
    assert_eq!((&graph).outgoing_edges(&4), vec![]);
}

#[test]
fn readded_node_shadows_the_old_record() {
    let mut graph: AdjacencyMap<&str, u64> = AdjacencyMap::new();
    graph.add_node(4, "old");
    graph.add_arc(4, 4, 1).unwrap();
    graph.add_node(4, "new");
    let node = graph.index(4).unwrap();
    assert_eq!(node.value, "new");
    assert!(node.outgoing.is_empty());
}

#[test]
fn arc_is_kept_with_its_weight_and_overwritten() {
    let mut graph = AdjacencyMap::new();
    graph.add_node(1, ());
    graph.add_node(2, ());
    assert_eq!(graph.add_arc(1, 2, 5), Ok(()));
    assert_eq!((&graph).weight(&(1, 2)), Ok(5));
    assert_eq!((&graph).weight(&(2, 1)), Err(GraphError::UnknownEdge));
    assert_eq!(graph.add_arc(1, 2, 8), Ok(()));
    assert_eq!((&graph).weight(&(1, 2)), Ok(8));
    assert_eq!((&graph).outgoing_edges(&1), vec![(1, 2)]);
}

#[test]
fn arc_from_unknown_node_is_refused() {
    let mut graph = AdjacencyMap::new();
    graph.add_node(1, ());
    assert_eq!(graph.add_arc(2, 1, 5), Err(GraphError::UnknownNode));
    assert_eq!((&graph).weight(&(2, 1)), Err(GraphError::UnknownNode));
    assert_eq!((&graph).outgoing_edges(&1), vec![]);
}

#[test]
fn arc_to_unknown_node_dangles() {
    let mut graph = AdjacencyMap::new();
    graph.add_node(1, ());
    assert_eq!(graph.add_arc(1, 2, 5), Ok(()));
    assert_eq!((&graph).target(&(1, 2)), None);
    assert_eq!((&graph).weight(&(1, 2)), Ok(5));
    graph.add_node(2, ());
    assert_eq!((&graph).target(&(1, 2)), Some(2));
}

#[test]
fn edge_is_two_arcs_of_one_weight() {
    let mut graph = AdjacencyMap::new();
    graph.add_node(1, ());
    graph.add_node(2, ());
    assert_eq!(graph.add_edge(1, 2, 3), Ok(()));
    assert_eq!((&graph).weight(&(1, 2)), Ok(3));
    assert_eq!((&graph).weight(&(2, 1)), Ok(3));
}

#[test]
fn edge_to_unknown_node_leaves_the_first_arc() {
    let mut graph = AdjacencyMap::new();
    graph.add_node(1, ());
    assert_eq!(graph.add_edge(1, 2, 3), Err(GraphError::UnknownNode));
    assert_eq!((&graph).weight(&(1, 2)), Ok(3));
    assert_eq!(graph.add_edge(2, 1, 3), Err(GraphError::UnknownNode));
    assert_eq!((&graph).weight(&(2, 1)), Err(GraphError::UnknownNode));
}

#[test]
fn outgoing_edges_are_all_arcs_of_the_node() {
    let mut graph = AdjacencyMap::new();
    for id in 0..5 {
        graph.add_node(id, ());
    }
    for to in 1..5 {
        graph.add_arc(0, to, to as u64).unwrap();
    }
    graph.add_arc(1, 0, 9).unwrap();
    let mut edges = (&graph).outgoing_edges(&0);
    edges.sort();
    assert_eq!(edges, vec![(0, 1), (0, 2), (0, 3), (0, 4)]);
}

#[test]
fn storage_takes_any_weight_type() {
    let mut graph: AdjacencyMap<u8, i16> = AdjacencyMap::new();
    graph.add_node(1, 10);
    graph.add_node(2, 20);
    graph.add_edge(1, 2, -4).unwrap();
    assert_eq!(graph.index(2).unwrap().outgoing[&1], -4);
    assert_eq!(graph.index(1).unwrap().value, 10);
}
