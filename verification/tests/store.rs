use simple_graph::Graph;
use simple_graph::GraphError;
use std::collections::HashMap;

#[test]
fn test_add_vertex() {
    let mut graph: Graph<&str, &str, &str> = Graph::new();
    graph.add_vertex("A", "node");
    let vertices = HashMap::from([("A", "node")]);
    assert_eq!(*graph.get_vertices(), vertices);
    assert_eq!(*graph.get_edges(), HashMap::new());
}

#[test]
fn test_remove_vertex() {
    let mut graph: Graph<&str, &str, &str> = Graph::new();
    graph.add_vertex("A", "node");
    graph.remove_vertex("A");
    assert_eq!(*graph.get_vertices(), HashMap::new());
    assert_eq!(*graph.get_edges(), HashMap::new());
}

#[test]
fn test_add_edge() {
    let mut graph: Graph<&str, &str, &str> = Graph::new();
    graph.add_vertex("A", "node");
    graph.add_vertex("B", "node");
    graph.add_edge("A", "B", "edge");
    let vertices = HashMap::from([("A", "node"), ("B", "node")]);
    let adjacency = HashMap::from([("A", vec![("B", "edge")])]);
    assert_eq!(*graph.get_vertices(), vertices);
    assert_eq!(*graph.get_edges(), adjacency);
}

#[test]
fn test_remove_edge() {
    let mut graph: Graph<&str, &str, &str> = Graph::new();
    graph.add_vertex("A", "node");
    graph.add_vertex("B", "node");
    graph.add_edge("A", "B", "edge");
    graph.remove_edge("A", "B").unwrap();
    let vertices = HashMap::from([("A", "node"), ("B", "node")]);
    assert_eq!(*graph.get_vertices(), vertices);
    assert_eq!(*graph.get_edges(), HashMap::from([("A", vec![])]));
}

#[test]
fn new_graph_is_empty() {
    let graph: Graph<u32, u32, u32> = Graph::new();
    assert!(graph.get_vertices().is_empty());
    assert!(graph.get_edges().is_empty());
    assert_eq!(graph.get_neighbors(1), None);
    assert_eq!(graph.get_vertex_value(1), Err(GraphError::NotFound));
}

#[test]
fn added_vertex_is_found_with_its_value() {
    let mut graph: Graph<u32, &str, u32> = Graph::new();
    graph.add_vertex(7, "seven");
    graph.add_vertex(8, "eight");
    assert_eq!(graph.get_vertex_value(7), Ok(&"seven"));
    assert_eq!(graph.get_vertex_value(8), Ok(&"eight"));
    assert_eq!(graph.get_vertex_value(9), Err(GraphError::NotFound));
}

#[test]
fn adding_a_vertex_again_replaces_its_value_only() {
    let mut graph: Graph<u32, &str, &str> = Graph::new();
    graph.add_vertex(1, "old");
    graph.add_edge(1, 2, "arc");
    graph.add_vertex(1, "new");
    assert_eq!(graph.get_vertex_value(1), Ok(&"new"));
    assert_eq!(graph.get_vertices().len(), 1);
    assert_eq!(graph.get_neighbors(1), Some(&vec![(2, "arc")]));
}

#[test]
fn edges_need_no_vertices_and_keep_their_order() {
    let mut graph: Graph<u32, u32, &str> = Graph::new();
    graph.add_edge(1, 2, "first");
    graph.add_edge(1, 3, "second");
    graph.add_edge(1, 2, "third");
    assert!(graph.get_vertices().is_empty());
    assert_eq!(
        graph.get_neighbors(1),
        Some(&vec![(2, "first"), (3, "second"), (2, "third")])
    );
    assert_eq!(graph.get_neighbors(2), None);
}

#[test]
fn neighbors_tell_no_list_from_an_empty_list() {
    let mut graph: Graph<u32, u32, u32> = Graph::new();
    assert_eq!(graph.get_neighbors(1), None);
    graph.add_edge(1, 2, 10);
    graph.remove_edge(1, 2).unwrap();
    assert_eq!(graph.get_neighbors(1), Some(&vec![]));
}

#[test]
fn remove_edge_takes_the_first_match_only() {
    let mut graph: Graph<u32, u32, &str> = Graph::new();
    graph.add_edge(1, 2, "first");
    graph.add_edge(1, 3, "other");
    graph.add_edge(1, 2, "second");
    assert_eq!(graph.remove_edge(1, 2), Ok(()));
    assert_eq!(
        graph.get_neighbors(1),
        Some(&vec![(3, "other"), (2, "second")])
    );
    assert_eq!(graph.remove_edge(1, 2), Ok(()));
    assert_eq!(graph.get_neighbors(1), Some(&vec![(3, "other")]));
    assert_eq!(graph.remove_edge(1, 2), Err(GraphError::NotFound));
    assert_eq!(graph.get_neighbors(1), Some(&vec![(3, "other")]));
}

#[test]
fn remove_edge_without_a_list_is_not_found() {
    let mut graph: Graph<u32, u32, u32> = Graph::new();
    graph.add_vertex(1, 1);
    graph.add_edge(2, 1, 5);
    assert_eq!(graph.remove_edge(1, 2), Err(GraphError::NotFound));
    assert_eq!(graph.get_neighbors(1), None);
    assert_eq!(graph.get_neighbors(2), Some(&vec![(1, 5)]));
}

#[test]
fn add_then_remove_edge_restores_the_list() {
    let mut graph: Graph<u32, u32, &str> = Graph::new();
    graph.add_edge(1, 3, "kept");
    graph.add_edge(1, 2, "new");
    assert_eq!(graph.remove_edge(1, 2), Ok(()));
    assert_eq!(graph.get_neighbors(1), Some(&vec![(3, "kept")]));
}

#[test]
fn add_then_remove_edge_with_an_older_arc_removes_the_older() {
    let mut graph: Graph<u32, u32, &str> = Graph::new();
    graph.add_edge(1, 2, "old");
    graph.add_edge(1, 3, "kept");
    graph.add_edge(1, 2, "new");
    assert_eq!(graph.remove_edge(1, 2), Ok(()));
    assert_eq!(
        graph.get_neighbors(1),
        Some(&vec![(3, "kept"), (2, "new")])
    );
}

#[test]
fn remove_vertex_drops_its_list_and_every_arc_to_it() {
    let mut graph: Graph<u32, &str, &str> = Graph::new();
    graph.add_vertex(1, "one");
    graph.add_vertex(2, "two");
    graph.add_vertex(3, "three");
    graph.add_edge(1, 2, "a");
    graph.add_edge(1, 3, "b");
    graph.add_edge(1, 2, "c");
    graph.add_edge(1, 2, "d");
    graph.add_edge(2, 1, "e");
    graph.add_edge(3, 2, "f");
    graph.add_edge(3, 3, "g");
    graph.remove_vertex(2);
    assert_eq!(graph.get_vertex_value(2), Err(GraphError::NotFound));
    assert_eq!(graph.get_vertex_value(1), Ok(&"one"));
    assert_eq!(graph.get_vertex_value(3), Ok(&"three"));
    assert_eq!(graph.get_neighbors(2), None);
    assert_eq!(graph.get_neighbors(1), Some(&vec![(3, "b")]));
    assert_eq!(graph.get_neighbors(3), Some(&vec![(3, "g")]));
    assert_eq!(graph.get_edges().len(), 2);
}

#[test]
fn remove_vertex_leaves_an_emptied_list_in_place() {
    let mut graph: Graph<u32, u32, u32> = Graph::new();
    graph.add_edge(1, 2, 0);
    graph.add_edge(1, 2, 1);
    graph.remove_vertex(2);
    assert_eq!(graph.get_neighbors(1), Some(&vec![]));
}

#[test]
fn remove_vertex_that_is_absent_changes_nothing() {
    let mut graph: Graph<u32, u32, u32> = Graph::new();
    graph.add_vertex(1, 10);
    graph.add_edge(1, 3, 30);
    graph.remove_vertex(2);
    graph.remove_vertex(2);
    assert_eq!(*graph.get_vertices(), HashMap::from([(1, 10)]));
    assert_eq!(*graph.get_edges(), HashMap::from([(1, vec![(3, 30)])]));
}

#[test]
fn remove_vertex_keeps_many_lists() {
    let mut graph: Graph<u32, u32, u32> = Graph::new();
    for from in 0..50u32 {
        graph.add_vertex(from, from);
        graph.add_edge(from, 1000, from);
        graph.add_edge(from, from + 1, from);
    }
    graph.remove_vertex(1000);
    assert_eq!(graph.get_edges().len(), 50);
    assert_eq!(graph.get_vertices().len(), 50);
    for from in 0..50u32 {
        assert_eq!(graph.get_neighbors(from), Some(&vec![(from + 1, from)]));
    }
}

#[test]
fn string_ids_work_as_keys() {
    let mut graph: Graph<String, i32, i32> = Graph::new();
    graph.add_vertex("a".to_string(), 1);
    graph.add_edge("a".to_string(), "b".to_string(), 2);
    assert_eq!(graph.get_vertex_value("a".to_string()), Ok(&1));
    assert_eq!(
        graph.get_neighbors("a".to_string()),
        Some(&vec![("b".to_string(), 2)])
    );
}
