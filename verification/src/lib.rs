//! Maximal lotteries from preference profiles.
//!
//! Voters express pairwise preferences between candidates, the profile is
//! tallied into a skew-symmetric margin matrix, and a maximal lottery (a
//! maximin strategy of the symmetric zero-sum game given by the margins) is
//! computed with exact rational arithmetic.
use vstd::prelude::*;

pub mod ballot;
pub mod bitstore;
pub mod compact;
pub mod error;
pub mod linear;
pub mod margins;
pub mod maximal_lottery;
pub mod prelude;
pub mod profile;
pub mod rational;
pub mod simplex;
pub mod solver;
pub mod types;

verus! {

} // verus!
