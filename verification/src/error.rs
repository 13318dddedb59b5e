//! The failures that graph operations report.

use vstd::prelude::*;

verus! {

/// Why an operation on a graph or on graph text failed.
#[derive(Debug, Clone, Copy, PartialEq, Eq, Structural)]
pub enum GraphError {
    /// A vertex or an edge that the operation needs is not in the graph.
    NotFound,
    /// The text has no separator line between vertices and edges.
    CorruptData,
    /// A data line has fewer whitespace-separated tokens than its section needs.
    MalformedLine,
    /// A field's text does not convert to a value of its type.
    ParseError,
    /// The file holding the text could not be opened or read.
    IoError,
}

} // verus!
