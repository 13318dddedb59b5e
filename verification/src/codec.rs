//! Graphs as text: writing a graph in the Trivial Graph Format and reading one back.
//!
//! Ids and values are written as `Debug` prints them and read as `FromStr`
//! reads them. What those print and accept is theirs to say; the lines, the
//! fields and the quotes are this module's.

use vstd::prelude::*;
use std::fmt::Debug;
use std::hash::Hash;
use std::str::FromStr;
use crate::error::GraphError;
use crate::graph::Graph;
use crate::graph::lawful_id;
use crate::model::GraphView;
use crate::tgf::document;
use crate::tgf::vertex_block;
use crate::tgf::push_vertex_line;
use crate::tgf::push_edge_line;
use crate::tgf::push_separator;
use crate::tgf::lines_of;
use crate::tgf::views;
use crate::tgf::has_separator;
use crate::tgf::separator_of;
use crate::tgf::lemma_first_separator;
use crate::tgf::is_malformed_at;
use crate::tgf::first_data_line;
use crate::tgf::split_lines;
use crate::tgf::find_separator;
use crate::tgf::split_line_into_vec_with_len;
use crate::tgf::delete_quotes;

verus! {

/// What `Debug` prints for `value`.
///
/// Calls `format!` with `{:?}`. Trusted: nothing is claimed of the text.
#[verifier::external_body]
fn debug_text<T: Debug>(value: &T) -> (text: String) {
    format!("{:?}", value)
}

/// The value that `FromStr` reads from `text`, `None` where it refuses the text.
///
/// Calls `str::parse`. Trusted: nothing is claimed of the value.
#[verifier::external_body]
fn parse_text<T: FromStr>(text: &str) -> (value: Option<T>) {
    text.parse::<T>().ok()
}

/// Appends `c` to `text`.
///
/// Calls `String::push`. Trusted: the text afterwards is the text before, then `c`.
#[verifier::external_body]
fn push_char(text: &mut String, c: char)
    ensures
        final(text)@ == old(text)@.push(c),
{
    text.push(c)
}

/// The characters of `text`.
pub fn chars_of(text: &str) -> (chars: Vec<char>)
    ensures
        chars@ == text@,
{
    let mut chars: Vec<char> = Vec::new();
    for c in it: text.chars()
        invariant
            chars@ == it.seq().take(it.index() as int),
    {
        chars.push(c);
    }
    chars
}

/// The text that `chars` spell.
pub fn text_of(chars: &Vec<char>) -> (text: String)
    ensures
        text@ == chars@,
{
    let mut text = String::new();
    let mut i: usize = 0;
    while i < chars.len()
        invariant
            0 <= i <= chars.len(),
            text@ == chars@.take(i as int),
        decreases chars.len() - i,
    {
        push_char(&mut text, chars[i]);
        proof {
            assert(chars@.take(i + 1) =~= chars@.take(i as int).push(chars@[i as int]));
        }
        i += 1;
    }
    proof {
        assert(chars@.take(i as int) =~= chars@);
    }
    text
}

impl<VId, V, E> Graph<VId, V, E> where VId: Eq + Hash + Debug, V: Hash + Debug, E: Debug {
    /// Writes the graph in the Trivial Graph Format: a line for each vertex,
    /// the separator line, a line for each arc. The vertices come in the
    /// order of the vertex table, the arcs list by list in the order of the
    /// adjacency table, the arcs of a list in their own order.
    pub fn serialize(self: &Self) -> (text: String)
        requires
            lawful_id::<VId>(),
        ensures
            exists|
                vertices: Seq<(Seq<char>, Seq<char>)>,
                edges: Seq<(Seq<char>, Seq<char>, Seq<char>)>,
                order: Seq<VId>,
            |
                {
                    &&& text@ == document(vertices, edges)
                    &&& vertices.len() == self@.vertices.dom().len()
                    &&& self@.lists_in_order(order)
                    &&& edges.len() == self@.arcs_listed(order).len()
                },
    {
        let mut out: Vec<char> = Vec::new();
        let ghost vertices: Seq<(Seq<char>, Seq<char>)> = Seq::empty();
        let table = self.get_vertices();
        for entry in it: table.iter()
            invariant
                out@ == vertex_block(vertices),
                vertices.len() == it.index(),
        {
            let (vid, vertex) = entry;
            let id = chars_of(debug_text(vid).as_str());
            let value = chars_of(debug_text(vertex).as_str());
            push_vertex_line(&mut out, &id, &value);
            proof {
                let longer = vertices.push((id@, value@));
                assert(longer.drop_last() =~= vertices);
                vertices = longer;
            }
        }
        push_separator(&mut out);
        let ghost edges: Seq<(Seq<char>, Seq<char>, Seq<char>)> = Seq::empty();
        let ghost order: Seq<VId> = Seq::empty();
        let lists = self.get_edges();
        proof {
            assert(self@.arcs_listed(order) =~= Seq::<(VId, VId, E)>::empty());
        }
        for entry in it: lists.iter()
            invariant
                lists@.map_values(|list: Vec<(VId, E)>| list@) == self@.edges,
                out@ == document(vertices, edges),
                vertices.len() == self@.vertices.dom().len(),
                it.seq().no_duplicates(),
                it.seq().len() == lists@.dom().len(),
                forall|j: int|
                    0 <= j < it.seq().len() ==> lists@.contains_key(*(#[trigger] it.seq()[j]).0)
                        && lists@[*it.seq()[j].0] == *it.seq()[j].1,
                order.len() == it.index(),
                forall|j: int| 0 <= j < order.len() ==> #[trigger] order[j] == *it.seq()[j].0,
                order.no_duplicates(),
                forall|j: int| 0 <= j < order.len() ==> self@.edges.contains_key(#[trigger] order[j]),
                edges.len() == self@.arcs_listed(order).len(),
        {
            let (from, list) = entry;
            let ghost before = edges;
            let source = chars_of(debug_text(from).as_str());
            let mut i: usize = 0;
            while i < list.len()
                invariant
                    0 <= i <= list.len(),
                    out@ == document(vertices, edges),
                    edges.len() == before.len() + i,
                decreases list.len() - i,
            {
                let target = chars_of(debug_text(&list[i].0).as_str());
                let value = chars_of(debug_text(&list[i].1).as_str());
                push_edge_line(&mut out, &source, &target, &value);
                proof {
                    let longer = edges.push((source@, target@, value@));
                    assert(longer.drop_last() =~= edges);
                    assert(out@ =~= document(vertices, longer));
                    edges = longer;
                }
                i += 1;
            }
            proof {
                assert(self@.edges.contains_key(*from));
                assert(self@.arcs_from(*from) == list@);
                assert(order.push(*from).drop_last() =~= order);
                assert forall|j: int| 0 <= j < order.len() implies order[j] != *from by {
                    if order[j] == *from {
                        assert(it.seq()[j] == it.seq()[order.len() as int]);
                    }
                }
                order = order.push(*from);
            }
        }
        proof {
            assert(self@.edges.dom() =~= lists@.dom());
            assert(self@.lists_in_order(order));
        }
        text_of(&out)
    }
}

impl<VId, V, E> Graph<VId, V, E> where VId: Eq + Hash, V: Hash {
    /// Adds the vertex that was read from a vertex line. Fails with
    /// `ParseError`, and changes nothing, where the id or the value could not be read.
    pub fn add_parsed_vertex(self: &mut Self, vid: Option<VId>, vertex: Option<V>) -> (done: Result<
        (),
        GraphError,
    >)
        requires
            lawful_id::<VId>(),
        ensures
            match (vid, vertex) {
                (Some(id), Some(value)) => done is Ok && final(self)@ == old(self)@.add_vertex(
                    id,
                    value,
                ),
                _ => done == Err::<(), GraphError>(GraphError::ParseError) && final(self)@ == old(
                    self,
                )@,
            },
    {
        match (vid, vertex) {
            (Some(id), Some(value)) => {
                self.add_vertex(id, value);
                Ok(())
            },
            _ => Err(GraphError::ParseError),
        }
    }

    /// Adds the arc that was read from an edge line. Fails with
    /// `ParseError`, and changes nothing, where an id or the value could not be read.
    pub fn add_parsed_edge(
        self: &mut Self,
        from: Option<VId>,
        to: Option<VId>,
        edge: Option<E>,
    ) -> (done: Result<(), GraphError>)
        requires
            lawful_id::<VId>(),
        ensures
            match (from, to, edge) {
                (Some(a), Some(b), Some(value)) => done is Ok && final(self)@ == old(
                    self,
                )@.add_edge(a, b, value),
                _ => done == Err::<(), GraphError>(GraphError::ParseError) && final(self)@ == old(
                    self,
                )@,
            },
    {
        match (from, to, edge) {
            (Some(a), Some(b), Some(value)) => {
                self.add_edge(a, b, value);
                Ok(())
            },
            _ => Err(GraphError::ParseError),
        }
    }
}

impl<VId, V, E> Graph<VId, V, E> where
    VId: Eq + Hash + Debug + FromStr,
    V: Hash + Debug + FromStr,
    E: Debug + FromStr,
 {
    /// Reads a graph from text in the Trivial Graph Format.
    ///
    /// The lines before the first separator line are vertex lines, those
    /// after it are edge lines. They are read first to last, and the first
    /// line that cannot be read decides the error: `MalformedLine` where it
    /// has too few words, `ParseError` where a field is not a value of its
    /// type. An empty line is a line with too few words. A text without a
    /// separator line is `CorruptData`.
    ///
    /// What the fields are read as is for `FromStr` to say. So the result
    /// is stated as far as the text decides it: a text without a separator
    /// line fails, a text of nothing but the separator line gives the empty
    /// graph, a first data line with too few words is `MalformedLine`, and a
    /// graph that is read holds one vertex for each vertex line and one arc
    /// for each edge line, added first to last.
    pub fn from(data: &str) -> (decoded: Result<Self, GraphError>)
        requires
            lawful_id::<VId>(),
        ensures
            ({
                let lines = lines_of(data@);
                let separator = separator_of(lines);
                match decoded {
                    Ok(graph) => {
                        &&& has_separator(lines)
                        &&& forall|i: int| !#[trigger] is_malformed_at(lines, separator, i)
                        &&& exists|vertices: Seq<(VId, V)>, edges: Seq<(VId, VId, E)>|
                            {
                                &&& vertices.len() == separator
                                &&& edges.len() == lines.len() - separator - 1
                                &&& graph@ == #[trigger] GraphView::<VId, V, E>::empty().with_vertices(
                                    vertices,
                                ).with_edges(edges)
                            }
                    },
                    Err(GraphError::CorruptData) => !has_separator(lines),
                    Err(GraphError::MalformedLine) => {
                        &&& has_separator(lines)
                        &&& exists|i: int| #[trigger] is_malformed_at(lines, separator, i)
                    },
                    Err(GraphError::ParseError) => {
                        &&& has_separator(lines)
                        &&& lines.len() > 1
                        &&& !is_malformed_at(lines, separator, first_data_line(separator))
                    },
                    Err(_) => false,
                }
            }),
    {
        let text = chars_of(data);
        let lines = split_lines(&text);
        let separator = match find_separator(&lines) {
            Some(i) => i,
            None => {
                return Err(GraphError::CorruptData);
            },
        };
        proof {
            lemma_first_separator(views(lines@), separator as int);
        }
        let mut graph: Graph<VId, V, E> = Graph::new();
        let ghost vertices: Seq<(VId, V)> = Seq::empty();
        let ghost edges: Seq<(VId, VId, E)> = Seq::empty();
        let mut i: usize = 0;
        while i < lines.len()
            invariant
                lawful_id::<VId>(),
                0 <= i <= lines.len(),
                views(lines@) == lines_of(data@),
                has_separator(views(lines@)),
                separator_of(views(lines@)) == separator,
                separator < lines.len(),
                forall|j: int| 0 <= j < i ==> !#[trigger] is_malformed_at(views(lines@), separator as int, j),
                vertices.len() == (if i <= separator { i as int } else { separator as int }),
                edges.len() == (if i <= separator { 0 } else { i - separator - 1 }),
                graph@ == GraphView::<VId, V, E>::empty().with_vertices(vertices).with_edges(edges),
            decreases lines.len() - i,
        {
            proof {
                assert(views(lines@)[i as int] == lines@[i as int]@);
            }
            if i < separator {
                let fields = match split_line_into_vec_with_len(&lines[i], 2) {
                    Some(list) => list,
                    None => {
                        proof {
                            assert(is_malformed_at(views(lines@), separator as int, i as int));
                            if i as int != first_data_line(separator as int) {
                                assert(!is_malformed_at(views(lines@), separator as int, 0));
                            }
                        }
                        return Err(GraphError::MalformedLine);
                    },
                };
                proof {
                    assert(views(fields@).len() == 2);
                }
                let vid = parse_text::<VId>(text_of(&delete_quotes(&fields[0])).as_str());
                let vertex = parse_text::<V>(text_of(&delete_quotes(&fields[1])).as_str());
                let ghost read = (vid, vertex);
                match graph.add_parsed_vertex(vid, vertex) {
                    Ok(()) => {},
                    Err(e) => {
                        proof {
                            assert(!is_malformed_at(views(lines@), separator as int, i as int));
                        }
                        return Err(e);
                    },
                }
                proof {
                    let longer = vertices.push((read.0.unwrap(), read.1.unwrap()));
                    assert(longer.drop_last() =~= vertices);
                    vertices = longer;
                }
            } else if i > separator {
                let fields = match split_line_into_vec_with_len(&lines[i], 3) {
                    Some(list) => list,
                    None => {
                        proof {
                            assert(is_malformed_at(views(lines@), separator as int, i as int));
                            if i as int != first_data_line(separator as int) {
                                assert(!is_malformed_at(
                                    views(lines@),
                                    separator as int,
                                    first_data_line(separator as int),
                                ));
                            }
                        }
                        return Err(GraphError::MalformedLine);
                    },
                };
                proof {
                    assert(views(fields@).len() == 3);
                }
                let from = parse_text::<VId>(text_of(&delete_quotes(&fields[0])).as_str());
                let to = parse_text::<VId>(text_of(&delete_quotes(&fields[1])).as_str());
                let edge = parse_text::<E>(text_of(&delete_quotes(&fields[2])).as_str());
                let ghost read = (from, to, edge);
                match graph.add_parsed_edge(from, to, edge) {
                    Ok(()) => {},
                    Err(e) => {
                        return Err(e);
                    },
                }
                proof {
                    let longer = edges.push((read.0.unwrap(), read.1.unwrap(), read.2.unwrap()));
                    assert(longer.drop_last() =~= edges);
                    edges = longer;
                }
            }
            i += 1;
        }
        Ok(graph)
    }
}

} // verus!
