//! Plain data types over bit-packed ballots.
use vstd::prelude::*;

use crate::compact::CompactBallot;
use crate::rational::Rational;

verus! {

/// A candidate index.
pub type Candidate = usize;

/// Probabilities indexed by candidate.
pub type Lottery = Vec<Rational>;

/// Bit-packed ballots over `n` candidates.
#[derive(Debug, Clone)]
pub struct PreferenceProfile {
    /// Number of candidates.
    pub n: usize,
    /// The ballots.
    pub ballots: Vec<CompactBallot>,
}

impl PreferenceProfile {
    /// A profile of `ballots` over `n` candidates.
    pub fn new(n: usize, ballots: Vec<CompactBallot>) -> (r: PreferenceProfile)
        ensures
            r.n == n,
            r.ballots@ == ballots@,
    {
        PreferenceProfile { n, ballots }
    }
}

} // verus!
