//! A constraint-based region (lifetime) inference engine.
//!
//! Given a program's control-flow points and a set of declared uses,
//! dataflow edges, and subtyping obligations between symbolic region
//! variables, the engine computes the minimal set of control-flow points
//! each region variable must span, and evaluates user-declared assertions
//! against the computed regions.
//!
//! - [`region`] holds the `Point` and `Region` value types.
//! - [`graph`] holds the directed-graph abstraction and the path
//!   (reachability) specification.
//! - [`reachable`] holds the reachability oracle: precomputed
//!   "can node `a` reach node `b`" answers for a whole graph.
//! - [`region_map`] holds the constraint store built while walking a
//!   typed program representation, the fixed-point solver, and the
//!   assertion checker.

pub mod graph;
pub mod reachable;
pub mod region;
pub mod region_map;
