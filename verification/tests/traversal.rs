use simple_graph::Graph;

#[test]
fn test_bfs() {
    let mut graph: Graph<&str, &str, &str> = Graph::new();
    graph.add_vertex("A", "node");
    graph.add_vertex("B", "node");
    graph.add_vertex("C", "node");
    graph.add_vertex("D", "node");
    graph.add_vertex("E", "node");
    graph.add_edge("A", "B", "edge");
    graph.add_edge("B", "C", "edge");
    graph.add_edge("B", "D", "edge");
    graph.add_edge("C", "B", "edge");
    graph.add_edge("C", "D", "edge");
    graph.add_edge("C", "E", "edge");
    graph.add_edge("D", "B", "edge");
    graph.add_edge("D", "C", "edge");
    assert!(graph.bfs("A", "E"));
    assert!(graph.bfs("A", "D"));
    assert!(!graph.bfs("E", "A"));
    assert!(!graph.bfs("E", "Uh no"));
}

#[test]
fn bfs_from_a_vertex_to_itself_is_false() {
    let mut graph: Graph<u32, u32, u32> = Graph::new();
    assert!(!graph.bfs(1, 1));
    graph.add_edge(1, 1, 0);
    assert!(!graph.bfs(1, 1));
    graph.add_edge(1, 2, 0);
    graph.add_edge(2, 1, 0);
    assert!(!graph.bfs(1, 1));
    assert!(graph.bfs(1, 2));
    assert!(graph.bfs(2, 1));
}

#[test]
fn bfs_follows_arcs_forward_only() {
    let mut graph: Graph<u32, u32, u32> = Graph::new();
    graph.add_edge(1, 2, 0);
    graph.add_edge(2, 3, 0);
    graph.add_edge(3, 4, 0);
    assert!(graph.bfs(1, 4));
    assert!(graph.bfs(2, 4));
    assert!(!graph.bfs(4, 1));
    assert!(!graph.bfs(3, 2));
}

#[test]
fn bfs_needs_no_vertex_table_entries() {
    let mut graph: Graph<u32, u32, u32> = Graph::new();
    graph.add_vertex(9, 9);
    graph.add_edge(1, 2, 0);
    assert!(graph.bfs(1, 2));
    assert!(!graph.bfs(9, 2));
    assert!(!graph.bfs(5, 6));
}

#[test]
fn bfs_ends_on_a_cycle() {
    let mut graph: Graph<u32, u32, u32> = Graph::new();
    for i in 0..20u32 {
        graph.add_edge(i, (i + 1) % 20, 0);
        graph.add_edge(i, (i + 7) % 20, 0);
    }
    assert!(graph.bfs(0, 19));
    assert!(!graph.bfs(0, 20));
    assert!(!graph.bfs(0, 0));
}

#[test]
fn bfs_after_removals() {
    let mut graph: Graph<u32, u32, u32> = Graph::new();
    graph.add_edge(1, 2, 0);
    graph.add_edge(2, 3, 0);
    graph.add_edge(1, 3, 0);
    graph.remove_edge(1, 3).unwrap();
    assert!(graph.bfs(1, 3));
    graph.remove_vertex(2);
    assert!(!graph.bfs(1, 3));
}
