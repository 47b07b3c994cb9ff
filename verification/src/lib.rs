//! Shortest distances from the first node of a line of nodes in which every
//! node also has one extra outgoing edge, its shortcut. All edges cost one.
//!
//! - [`state`]: candidates, and the order in which they leave the queue.
//! - [`heap`]: the priority queue that keeps them in that order.
//! - [`model`]: the solver as a mathematical state machine, with its
//!   invariant and what follows from it.
//! - [`solver`]: the solver itself, which offers the line edges on its own and
//!   lets the caller propose paths along any further edges.
//! - [`graph`]: walks on the line with shortcuts, and what their shortest
//!   lengths satisfy.
//! - [`driver`]: the search that feeds the shortcuts to the solver.
//! - [`text`]: numbers as they are read from and written to a line of text.

pub mod driver;
pub mod error;
pub mod graph;
pub mod heap;
pub mod model;
pub mod solver;
pub mod state;
pub mod text;

pub use driver::{solve, validate, zero_based};
pub use error::SolveError;
pub use heap::MinHeap;
pub use model::{SolverModel, UNREACHED};
pub use solver::LinearDijkstra;
pub use state::State;
pub use text::{parse_number, parse_numbers, push_decimal, render};
