//! The items most programs need.
pub use crate::ballot::{Ballot, PairPreference, PairwiseBallot, RankedBallot};
pub use crate::error::Error;
pub use crate::profile::{Candidate, Lottery, MarginMatrix, PreferenceProfile};
pub use crate::rational::Rational;
pub use crate::solver::{CentroidSolver, LotterySolver};
