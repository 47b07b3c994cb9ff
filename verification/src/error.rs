//! Why a solve can be refused.

use vstd::prelude::*;

verus! {

/// The ways in which input can be unfit for a solve.
#[derive(Clone, Copy, Debug, PartialEq, Eq, Structural)]
pub enum SolveError {
    /// The graph has no node.
    InvalidSize,
    /// A shortcut names a node outside the graph, or a node has no shortcut.
    IndexOutOfRange,
}

} // verus!
