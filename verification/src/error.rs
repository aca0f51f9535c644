//! Error type of the crate.
use vstd::prelude::*;

use crate::profile::Candidate;

verus! {

/// Errors that can occur when constructing ballots, profiles, margins, or
/// solving for a maximal lottery.
#[derive(Debug, Clone, Copy, PartialEq, Eq, Structural)]
pub enum Error {
    /// A ballot declared contradictory preferences for the same unordered
    /// pair of candidates.
    ContradictoryPair(Candidate, Candidate),
    /// A ranked ballot listed the same candidate more than once.
    DuplicateCandidate(Candidate),
    /// A candidate index was outside the valid range `0..n`.
    InvalidCandidate(Candidate, usize),
    /// A ranked ballot did not list the expected number of candidates.
    InvalidRankingLength(usize, usize),
    /// A profile contained ballots with differing candidate counts.
    InconsistentCandidateCount,
    /// A margin matrix violated skew-symmetry or had a non-zero diagonal.
    InvalidMargins,
    /// An election had no candidates.
    NoCandidates,
    /// The maximal lottery program was infeasible.
    Infeasible,
}

} // verus!
