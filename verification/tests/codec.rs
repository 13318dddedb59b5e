use simple_graph::codec::chars_of;
use simple_graph::codec::text_of;
use simple_graph::Graph;
use simple_graph::GraphError;
use std::collections::HashMap;

#[test]
fn test_serialize() {
    let mut graph: Graph<&str, &str, &str> = Graph::new();
    graph.add_vertex("A", "node");
    graph.add_vertex("B", "node");
    graph.add_vertex("C", "node");
    graph.add_edge("A", "B", "edge");
    graph.add_edge("B", "C", "edge");
    let graph_string = graph.serialize();
    let result_string = "\"A\" \"node\"\n\"B\" \"node\"\n\"C\" \"node\"\n#\n\"A\" \"B\" \"edge\"\n\"B\" \"C\" \"edge\"\n";
    let mut graph_vec = graph_string.split("\n").collect::<Vec<&str>>();
    let mut result_vec = result_string.split("\n").collect::<Vec<&str>>();
    graph_vec.sort();
    result_vec.sort();
    assert_eq!(graph_vec, result_vec);
}

#[test]
fn test_from() {
    let mut graph = Graph::new();
    graph.add_vertex(1, "ha ha".to_string());
    graph.add_vertex(2, "haha".to_string());
    graph.add_edge(1, 2, 2.2);
    let graph_from_str: Graph<i32, String, f64> =
        Graph::from("2 \"haha\"\n1 \"ha ha\"\n#\n1 2 2.2\n").unwrap();
    assert_eq!(graph.get_vertices(), graph_from_str.get_vertices());
    assert_eq!(graph.get_edges(), graph_from_str.get_edges());
}

#[test]
fn characters_and_text_convert_both_ways() {
    assert_eq!(chars_of("a\u{e9}\n#"), vec!['a', '\u{e9}', '\n', '#']);
    assert_eq!(chars_of(""), Vec::<char>::new());
    assert_eq!(text_of(&vec!['h', 'a', ' ', '\u{1F600}']), "ha \u{1F600}");
    assert_eq!(text_of(&Vec::new()), "");
    assert_eq!(text_of(&chars_of("round trip")), "round trip");
}

#[test]
fn serialize_of_the_empty_graph_is_the_separator() {
    let graph: Graph<i32, i32, i32> = Graph::new();
    assert_eq!(graph.serialize(), "#\n");
}

#[test]
fn serialize_writes_vertices_then_separator_then_edges() {
    let mut graph: Graph<i32, i32, i32> = Graph::new();
    graph.add_vertex(1, 10);
    graph.add_edge(1, 2, 12);
    graph.add_edge(1, 3, 13);
    assert_eq!(graph.serialize(), "1 10\n#\n1 2 12\n1 3 13\n");
}

#[test]
fn serialize_quotes_a_value_that_prints_with_a_blank() {
    let mut graph: Graph<i32, (i32, i32), i32> = Graph::new();
    graph.add_vertex(1, (2, 3));
    assert_eq!(graph.serialize(), "1 \"(2, 3)\"\n#\n");
}

#[test]
fn serialize_leaves_a_quoted_text_as_it_is() {
    let mut graph: Graph<i32, String, String> = Graph::new();
    graph.add_vertex(1, "ha ha".to_string());
    graph.add_edge(1, 1, "x".to_string());
    assert_eq!(graph.serialize(), "1 \"ha ha\"\n#\n1 1 \"x\"\n");
}

#[test]
fn round_trip_keeps_both_tables() {
    let mut graph: Graph<i32, String, i64> = Graph::new();
    graph.add_vertex(1, "ha ha".to_string());
    graph.add_vertex(2, "haha".to_string());
    graph.add_vertex(-3, "three little words".to_string());
    graph.add_edge(1, 2, 12);
    graph.add_edge(1, -3, 13);
    graph.add_edge(1, 2, 14);
    graph.add_edge(2, 1, 21);
    graph.add_edge(5, 6, -56);
    let text = graph.serialize();
    let back: Graph<i32, String, i64> = Graph::from(&text).unwrap();
    assert_eq!(graph.get_vertices(), back.get_vertices());
    assert_eq!(graph.get_edges(), back.get_edges());
}

#[test]
fn round_trip_with_lines_in_another_order() {
    let first: Graph<i32, String, i32> =
        Graph::from("1 one\n2 two\n#\n1 2 12\n2 1 21\n").unwrap();
    let second: Graph<i32, String, i32> =
        Graph::from("2 two\n1 one\n#\n2 1 21\n1 2 12\n").unwrap();
    assert_eq!(first.get_vertices(), second.get_vertices());
    assert_eq!(first.get_edges(), second.get_edges());
}

#[test]
fn from_reads_quoted_and_unquoted_last_fields() {
    let graph: Graph<i32, String, String> =
        Graph::from("1 \"ha ha\"\n2 ha   ha\n#\n1 2 a long label\n").unwrap();
    assert_eq!(graph.get_vertex_value(1), Ok(&"ha ha".to_string()));
    assert_eq!(graph.get_vertex_value(2), Ok(&"ha ha".to_string()));
    assert_eq!(
        graph.get_neighbors(1),
        Some(&vec![(2, "a long label".to_string())])
    );
}

#[test]
fn from_strips_quotes_of_every_field() {
    let graph: Graph<i32, i32, i32> = Graph::from("\"1\" \"10\"\n#\n\"1\" \"2\" \"12\"\n").unwrap();
    assert_eq!(*graph.get_vertices(), HashMap::from([(1, 10)]));
    assert_eq!(*graph.get_edges(), HashMap::from([(1, vec![(2, 12)])]));
}

#[test]
fn from_keeps_mismatched_quotes() {
    let graph: Graph<i32, String, i32> = Graph::from("1 \"open\n2 close\"\n#\n").unwrap();
    assert_eq!(graph.get_vertex_value(1), Ok(&"\"open".to_string()));
    assert_eq!(graph.get_vertex_value(2), Ok(&"close\"".to_string()));
}

#[test]
fn from_a_lone_separator_is_the_empty_graph() {
    let graph: Graph<i32, i32, i32> = Graph::from("#").unwrap();
    assert!(graph.get_vertices().is_empty());
    assert!(graph.get_edges().is_empty());
    let graph: Graph<i32, i32, i32> = Graph::from("#\r\n").unwrap();
    assert!(graph.get_vertices().is_empty());
}

#[test]
fn from_a_later_vertex_line_replaces_an_earlier_one() {
    let graph: Graph<i32, i32, i32> = Graph::from("1 10\n1 11\n#\n1 2 3\n1 2 3\n").unwrap();
    assert_eq!(*graph.get_vertices(), HashMap::from([(1, 11)]));
    assert_eq!(
        *graph.get_edges(),
        HashMap::from([(1, vec![(2, 3), (2, 3)])])
    );
}

#[test]
fn from_uses_the_first_separator() {
    let decoded: Result<Graph<i32, i32, i32>, GraphError> = Graph::from("1 10\n#\n#\n");
    assert_eq!(decoded.err(), Some(GraphError::MalformedLine));
}

#[test]
fn from_without_a_separator_is_corrupt() {
    let decoded: Result<Graph<i32, i32, i32>, GraphError> = Graph::from("1 10\n2 20\n");
    assert_eq!(decoded.err(), Some(GraphError::CorruptData));
    let decoded: Result<Graph<i32, i32, i32>, GraphError> = Graph::from("");
    assert_eq!(decoded.err(), Some(GraphError::CorruptData));
    let decoded: Result<Graph<i32, i32, i32>, GraphError> = Graph::from("1 10\n # \n");
    assert_eq!(decoded.err(), Some(GraphError::CorruptData));
    let decoded: Result<Graph<i32, i32, i32>, GraphError> = Graph::from("x\n");
    assert_eq!(decoded.err(), Some(GraphError::CorruptData));
}

#[test]
fn from_a_vertex_line_with_one_word_is_malformed() {
    let decoded: Result<Graph<i32, i32, i32>, GraphError> = Graph::from("1\n#\n");
    assert_eq!(decoded.err(), Some(GraphError::MalformedLine));
}

#[test]
fn from_an_edge_line_with_two_words_is_malformed() {
    let decoded: Result<Graph<i32, i32, i32>, GraphError> = Graph::from("1 10\n#\n1 2\n");
    assert_eq!(decoded.err(), Some(GraphError::MalformedLine));
}

#[test]
fn from_an_empty_line_is_malformed() {
    let decoded: Result<Graph<i32, i32, i32>, GraphError> = Graph::from("1 10\n\n#\n");
    assert_eq!(decoded.err(), Some(GraphError::MalformedLine));
    let decoded: Result<Graph<i32, i32, i32>, GraphError> = Graph::from("#\n\n");
    assert_eq!(decoded.err(), Some(GraphError::MalformedLine));
}

#[test]
fn from_a_field_of_the_wrong_type_is_a_parse_error() {
    let decoded: Result<Graph<i32, i32, i32>, GraphError> = Graph::from("one 10\n#\n");
    assert_eq!(decoded.err(), Some(GraphError::ParseError));
    let decoded: Result<Graph<i32, i32, i32>, GraphError> = Graph::from("1 ten\n#\n");
    assert_eq!(decoded.err(), Some(GraphError::ParseError));
    let decoded: Result<Graph<i32, i32, i32>, GraphError> = Graph::from("1 10\n#\n1 2 x\n");
    assert_eq!(decoded.err(), Some(GraphError::ParseError));
    let decoded: Result<Graph<i32, i32, i32>, GraphError> = Graph::from("1 10\n#\n1 b 3\n");
    assert_eq!(decoded.err(), Some(GraphError::ParseError));
    let decoded: Result<Graph<i32, i32, i32>, GraphError> = Graph::from("1 10 11\n#\n");
    assert_eq!(decoded.err(), Some(GraphError::ParseError));
}

#[test]
fn from_reports_the_first_line_that_fails() {
    let decoded: Result<Graph<i32, i32, i32>, GraphError> = Graph::from("x 10\n2\n#\n");
    assert_eq!(decoded.err(), Some(GraphError::ParseError));
    let decoded: Result<Graph<i32, i32, i32>, GraphError> = Graph::from("2\nx 10\n#\n");
    assert_eq!(decoded.err(), Some(GraphError::MalformedLine));
}

#[test]
fn parsed_vertices_are_added_only_when_complete() {
    let mut graph: Graph<i32, i32, i32> = Graph::new();
    assert_eq!(graph.add_parsed_vertex(Some(1), Some(10)), Ok(()));
    assert_eq!(graph.add_parsed_vertex(None, Some(20)), Err(GraphError::ParseError));
    assert_eq!(graph.add_parsed_vertex(Some(3), None), Err(GraphError::ParseError));
    assert_eq!(graph.add_parsed_vertex(None, None), Err(GraphError::ParseError));
    assert_eq!(*graph.get_vertices(), HashMap::from([(1, 10)]));
}

#[test]
fn parsed_edges_are_added_only_when_complete() {
    let mut graph: Graph<i32, i32, i32> = Graph::new();
    assert_eq!(graph.add_parsed_edge(Some(1), Some(2), Some(12)), Ok(()));
    assert_eq!(graph.add_parsed_edge(None, Some(2), Some(12)), Err(GraphError::ParseError));
    assert_eq!(graph.add_parsed_edge(Some(1), None, Some(12)), Err(GraphError::ParseError));
    assert_eq!(graph.add_parsed_edge(Some(1), Some(2), None), Err(GraphError::ParseError));
    assert_eq!(*graph.get_edges(), HashMap::from([(1, vec![(2, 12)])]));
}

#[test]
fn round_trip_loses_an_emptied_adjacency_list() {
    let mut graph: Graph<i32, i32, i32> = Graph::new();
    graph.add_vertex(1, 10);
    graph.add_edge(1, 2, 12);
    graph.remove_edge(1, 2).unwrap();
    assert_eq!(graph.get_neighbors(1), Some(&vec![]));
    let text = graph.serialize();
    assert_eq!(text, "1 10\n#\n");
    let back: Graph<i32, i32, i32> = Graph::from(&text).unwrap();
    assert_eq!(graph.get_vertices(), back.get_vertices());
    assert_eq!(back.get_neighbors(1), None);
}

#[test]
fn serialized_text_has_a_line_for_each_vertex_and_arc() {
    let mut graph: Graph<u32, u32, u32> = Graph::new();
    for id in 0..30u32 {
        graph.add_vertex(id, id * 2);
        graph.add_edge(id % 7, id, id);
    }
    let text = graph.serialize();
    let lines: Vec<&str> = text.lines().collect();
    assert_eq!(lines.len(), 30 + 1 + 30);
    assert_eq!(lines[30], "#");
    let back: Graph<u32, u32, u32> = Graph::from(&text).unwrap();
    assert_eq!(graph.get_vertices(), back.get_vertices());
    assert_eq!(graph.get_edges(), back.get_edges());
}
