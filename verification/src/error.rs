use vstd::prelude::*;

verus! {

/// Everything that can go wrong while importing a graph, either from the
/// plain-text format or from a graph6/digraph6 string.
///
/// Import routines validate their whole input before any graph is touched, so
/// an error always means "nothing was changed".
#[derive(Debug, Clone, Copy, PartialEq, Eq, Structural)]
pub enum GraphError {
    /// Fewer whitespace-separated numbers than the header promised.
    InsufficientInput,
    /// Tokens left over after the declared edges were read.
    ExcessiveInput,
    /// An endpoint outside the declared range, or zero under 1-based indexing.
    InvalidEdge,
    /// A token that is not an unsigned integer.
    ParseFailure,
    /// A malformed graph6/digraph6 symbol stream.
    Graph6DecodeFailure,
}

impl GraphError {
    /// A short human-readable description, mirroring the import dialog's wording.
    pub fn describe(&self) -> (r: &'static str)
        ensures
            self is InsufficientInput ==> r@ == "Insufficient input"@,
            self is ExcessiveInput ==> r@ == "Excessive input"@,
            self is InvalidEdge ==> r@ == "Invalid edge"@,
            self is ParseFailure ==> r@ == "Parse failure"@,
            self is Graph6DecodeFailure ==> r@ == "Graph6 decode failure"@,
    {
        match self {
            GraphError::InsufficientInput => "Insufficient input",
            GraphError::ExcessiveInput => "Excessive input",
            GraphError::InvalidEdge => "Invalid edge",
            GraphError::ParseFailure => "Parse failure",
            GraphError::Graph6DecodeFailure => "Graph6 decode failure",
        }
    }
}

} // verus!
