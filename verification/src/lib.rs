//! An incremental-computation engine: a graph of mutable input nodes and
//! derived (memoized) computations. After an input changes, only the
//! computations whose transitive dependencies actually changed are
//! re-evaluated, and every read returns a value consistent with the current
//! inputs.
//!
//! - [`expr`] defines the expression language in which a derived node's
//!   computation is written: it declares which other nodes it may read.
//! - [`semantics`] gives the mathematical meaning of a graph state: the
//!   from-scratch value of every node, the set of nodes a computation reads
//!   under the current inputs, and the well-formedness invariant tying the
//!   cached state to those meanings.
//! - [`graph`] holds the executable engine: the arena of cells, the
//!   evaluator, and the invalidation walk, with contracts proved against
//!   the semantics.

pub mod expr;
pub mod semantics;
pub mod graph;

pub use expr::Expr;
pub use graph::{EngineError, Graph, Node, SettableNode};
