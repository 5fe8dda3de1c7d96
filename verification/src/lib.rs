//! Closest-arithmetic-expression solver: from a handful of numbers, build the
//! expression over `+ - * /` whose value comes nearest to a target, using
//! each number at most once.
//!
//! `expression` holds the nodes and the four guarded operations,
//! `fingerprint` the key by which an expression is remembered, `pairs` the
//! walk over two groups, `engine` the level-by-level construction, `solver`
//! the entry point, and `render` the text of a node. What is proved of all
//! that the engine builds stands in `inherit`, `sound`, `distinct`,
//! `complete` and `limits`.

pub mod complete;
pub mod distinct;
pub mod engine;
pub mod expression;
pub mod fingerprint;
pub mod inherit;
pub mod limits;
pub mod pairs;
pub mod render;
pub mod solver;
pub mod sound;

pub use crate::expression::Expression;
pub use crate::expression::SolveError;
pub use crate::expression::State;
pub use crate::solver::find_combination;
