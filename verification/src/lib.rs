//! A small library for resolving Secret Santa assignments under pairwise
//! exclusion constraints.
//!
//! Names are drawn as from a basket: participants are shuffled, an
//! eligibility matrix is built and the constraints are applied to it, then
//! each participant in turn draws a random still-eligible receiver. An
//! attempt that runs into a participant with no eligible receiver is
//! abandoned and retried from scratch, up to a fixed ceiling of attempts.

pub mod group;
pub mod matrix;
pub mod names;
mod rng;

pub use group::{AssignError, Constraint, Group};
pub use matrix::Matrix;
