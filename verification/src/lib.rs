//! Selection of heavy, pairwise compatible subsets of 28 items by simulated
//! annealing over subset masks, with the best subsets kept in an elite set
//! that holds no subset of another member.

use vstd::prelude::*;

pub mod anneal;
pub mod bits;
pub mod elite;
pub mod graph;
pub mod matrix;
pub mod parse;
pub mod report;
pub mod weights;

pub use crate::anneal::search;
pub use crate::matrix::CompatibilityMatrix;
pub use crate::parse::parse_input;

verus! {

/// Number of items in the universe.
pub const SIZE: usize = 28;

} // verus!
