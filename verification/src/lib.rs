//! Core of a visual graph editor: the graph data model with soft deletion and
//! compaction, plain-text and graph6 serialization, and a crossing-minimizing
//! layout heuristic.
//!
//! Coordinates, pan/zoom transforms and the force simulator are floating-point
//! and belong to the embedding application; the model here carries per-vertex
//! visual data as an opaque payload so that the structural invariants can be
//! stated and checked exactly.

mod base;
mod error;
mod graph6;
mod mode;
mod panel;
mod structures;
mod text;
mod visualize;

pub use base::BaseGraph;
pub use error::GraphError;
pub use graph6::{ToGraph6, TryFromGraph6};
pub use mode::EditMode;
pub use panel::PanelTabState;
pub use structures::{Edge, Graph, Vertex};
pub use visualize::{count_edge_crossing, hill_climb_from, HillClimbing, Naive, Visualize, GRID_SIDE};
