//! An in-memory directed, labeled multigraph store.
//!
//! Nodes carry a bag of string properties and are identified by integer
//! ids that are allocated monotonically and never reused. At most one edge
//! exists per ordered pair of nodes; multiple relationships between the
//! same pair are labels on that one edge. A reverse-edge index mirrors the
//! forward adjacency and keeps cascading deletes cheap; the mirror
//! relation is part of the graph's well-formedness invariant and is
//! maintained by every mutation. The whole graph round-trips through a
//! deterministic JSON text form.

pub mod assoc;
pub mod errors;
pub mod graph;
pub mod text;
pub mod json;
pub mod codec;

pub use errors::GraphError;
pub use graph::{Edge, Graph, Node};
pub use json::JsonValue;
