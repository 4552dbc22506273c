//! The error kinds that the graph engine and its codec return.

use vstd::prelude::*;

verus! {

/// Everything that can go wrong inside the engine. Errors are always
/// returned to the caller, never swallowed and never turned into a panic.
#[derive(Debug, Clone, Copy, PartialEq, Eq, Structural)]
pub enum GraphError {
    /// An operation targeted a node id that does not exist.
    NotFound,
    /// An edge operation referenced an origin or destination id that is
    /// not a live node; the payload names the missing id.
    UnknownNode(usize),
    /// A graph document was not well-formed JSON text.
    ParseError,
    /// A graph document was well-formed JSON of the wrong shape.
    SchemaError,
}

} // verus!
