//! Maximal-lottery solvers.
//!
//! [`LotterySolver`] is the extension point for algorithms that compute a
//! maximal lottery from a margin matrix; [`CentroidSolver`] computes the exact
//! centroid of all optimal strategies.
use vstd::prelude::*;

use crate::profile::{Lottery, MarginMatrix};

pub mod centroid;
pub mod extreme;
pub mod gauss;

pub use centroid::CentroidSolver;

verus! {

/// A solver that computes a maximal lottery from a margin matrix.
///
/// Implementations choose their numeric representation and tie-breaking
/// policy.
pub trait LotterySolver {
    /// Error type returned when solving fails.
    type Error;

    /// Compute a maximal lottery for the given margin matrix (of fewer than
    /// `usize::MAX / 2 - 1` candidates).
    fn solve(&self, margins: &MarginMatrix) -> Result<Lottery, Self::Error>
        requires
            2 * margins@.len() + 2 < usize::MAX,
    ;
}

} // verus!
