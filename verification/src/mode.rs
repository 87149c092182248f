use vstd::prelude::*;

verus! {

/// The editor's interaction mode.
///
/// `AddEdge` remembers the vertex the next edge starts from (once one has been
/// picked) and whether the edge has just been confirmed.
#[derive(Debug, Clone, PartialEq)]
pub enum EditMode {
    Normal,
    AddVertex,
    AddEdge { from_vertex: Option<usize>, confirmed: bool },
    Delete,
}

impl EditMode {
    pub fn default_normal() -> (r: Self)
        ensures
            r is Normal,
    {
        Self::Normal
    }

    pub fn default_add_vertex() -> (r: Self)
        ensures
            r is AddVertex,
    {
        Self::AddVertex
    }

    /// The initial edge-adding state: no start vertex picked yet.
    pub fn default_add_edge() -> (r: Self)
        ensures
            r == (EditMode::AddEdge { from_vertex: None, confirmed: false }),
    {
        Self::AddEdge { from_vertex: None, confirmed: false }
    }

    pub fn default_delete() -> (r: Self)
        ensures
            r is Delete,
    {
        Self::Delete
    }

    pub fn is_add_vertex(&self) -> (r: bool)
        ensures
            r == (self is AddVertex),
    {
        matches!(self, Self::AddVertex)
    }

    pub fn is_add_edge(&self) -> (r: bool)
        ensures
            r == (self is AddEdge),
    {
        matches!(self, Self::AddEdge { .. })
    }

    pub fn is_delete(&self) -> (r: bool)
        ensures
            r == (self is Delete),
    {
        matches!(self, Self::Delete)
    }
}

} // verus!
