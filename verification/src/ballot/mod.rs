//! Ballot types and the [`Ballot`] trait.
//!
//! [`PairwiseBallot`] stores explicit pairwise preferences and
//! [`RankedBallot`] ranks candidates. Users may implement [`Ballot`] for
//! their own ballot types.
use vstd::prelude::*;

use crate::profile::Candidate;

pub mod pairwise;
pub mod ranked;

pub use pairwise::PairwiseBallot;
pub use ranked::RankedBallot;

verus! {

/// A voter's pairwise preference between two candidates.
#[derive(Debug, Clone, Copy, PartialEq, Eq, Structural)]
pub enum PairPreference {
    /// No preference expressed for this pair.
    Abstain,
    /// The first candidate in the ordered pair is preferred.
    Left,
    /// The second candidate in the ordered pair is preferred.
    Right,
}

impl PairPreference {
    /// The same preference seen from the other side of the pair.
    pub open spec fn flipped(self) -> PairPreference {
        match self {
            PairPreference::Left => PairPreference::Right,
            PairPreference::Right => PairPreference::Left,
            PairPreference::Abstain => PairPreference::Abstain,
        }
    }

    /// The two-bit code under which the preference is stored.
    pub open spec fn code(self) -> u8 {
        match self {
            PairPreference::Abstain => 0,
            PairPreference::Left => 1,
            PairPreference::Right => 2,
        }
    }

    /// The preference that a two-bit code stands for; the unused code 3 reads
    /// as an abstention.
    pub open spec fn from_code(code: u8) -> PairPreference {
        if code == 1 {
            PairPreference::Left
        } else if code == 2 {
            PairPreference::Right
        } else {
            PairPreference::Abstain
        }
    }

    /// Executable [`flipped`](PairPreference::flipped).
    pub fn reversed(self) -> (r: PairPreference)
        ensures
            r == self.flipped(),
    {
        match self {
            PairPreference::Left => PairPreference::Right,
            PairPreference::Right => PairPreference::Left,
            PairPreference::Abstain => PairPreference::Abstain,
        }
    }

    /// Executable [`code`](PairPreference::code).
    pub fn to_code(self) -> (r: u8)
        ensures
            r == self.code(),
    {
        match self {
            PairPreference::Abstain => 0,
            PairPreference::Left => 1,
            PairPreference::Right => 2,
        }
    }

    /// Executable [`from_code`](PairPreference::from_code).
    pub fn decode(code: u8) -> (r: PairPreference)
        ensures
            r == PairPreference::from_code(code),
    {
        if code == 1 {
            PairPreference::Left
        } else if code == 2 {
            PairPreference::Right
        } else {
            PairPreference::Abstain
        }
    }
}

/// Reading back the code of a preference gives the preference.
pub proof fn lemma_code_roundtrip(p: PairPreference)
    ensures
        PairPreference::from_code(p.code()) == p,
        p.code() <= 2,
        p.flipped().flipped() == p,
{
}

/// A ballot that can be queried for pairwise preferences.
///
/// Implementations define the number of candidates the ballot refers to and
/// the voter's preference for every ordered pair of candidates.
pub trait Ballot {
    /// Number of candidates, as the contracts see it.
    spec fn candidate_count(&self) -> nat;

    /// The preference for the ordered pair `(i, j)`, as the contracts see it.
    spec fn pref(&self, i: nat, j: nat) -> PairPreference;

    /// The internal consistency that queries rely on.
    spec fn well_formed(&self) -> bool;

    /// Pairs outside `0..candidate_count()` that `preference` answers too.
    spec fn accepts(&self, i: nat, j: nat) -> bool;

    /// Number of candidates this ballot refers to.
    fn n_candidates(&self) -> (r: usize)
        ensures
            r == self.candidate_count(),
    ;

    /// The voter's preference for the ordered pair `(i, j)`: `Left` if `i` is
    /// preferred, `Right` if `j` is preferred, `Abstain` otherwise.
    fn preference(&self, i: Candidate, j: Candidate) -> (r: PairPreference)
        requires
            self.well_formed(),
            (i.0 < self.candidate_count() && j.0 < self.candidate_count()) || self.accepts(
                i.0 as nat,
                j.0 as nat,
            ),
        ensures
            r == self.pref(i.0 as nat, j.0 as nat),
    ;
}

/// What a grid of a ballot's comparisons shows for an ordered pair: `-`
/// for a candidate against itself, `>` where the first candidate is
/// preferred, `<` where the second is, and `.` for an abstention.
pub open spec fn grid_symbol(p: PairPreference, diagonal: bool) -> char {
    if diagonal {
        '-'
    } else {
        match p {
            PairPreference::Left => '>',
            PairPreference::Right => '<',
            PairPreference::Abstain => '.',
        }
    }
}

/// The grid of a ballot's pairwise comparisons: row `i`, column `j` holds
/// the symbol for the ordered pair `(i, j)`.
pub fn preference_grid<B: Ballot>(ballot: &B) -> (r: Vec<Vec<char>>)
    requires
        ballot.well_formed(),
    ensures
        r@.len() == ballot.candidate_count(),
        forall|i: int| 0 <= i < r@.len() ==> #[trigger] r@[i]@.len() == ballot.candidate_count(),
        forall|i: int, j: int|
            0 <= i < ballot.candidate_count() && 0 <= j < ballot.candidate_count() ==> #[trigger] r@[i]@[j]
                == grid_symbol(ballot.pref(i as nat, j as nat), i == j),
{
    let n = ballot.n_candidates();
    let mut grid: Vec<Vec<char>> = Vec::new();
    let mut i: usize = 0;
    while i < n
        invariant
            n == ballot.candidate_count(),
            ballot.well_formed(),
            i <= n,
            grid@.len() == i,
            forall|a: int| 0 <= a < i ==> #[trigger] grid@[a]@.len() == n,
            forall|a: int, b: int|
                0 <= a < i && 0 <= b < n ==> #[trigger] grid@[a]@[b] == grid_symbol(
                    ballot.pref(a as nat, b as nat),
                    a == b,
                ),
        decreases n - i,
    {
        let mut line: Vec<char> = Vec::new();
        let mut j: usize = 0;
        while j < n
            invariant
                n == ballot.candidate_count(),
                ballot.well_formed(),
                i < n,
                j <= n,
                line@.len() == j,
                forall|b: int| 0 <= b < j ==> #[trigger] line@[b] == grid_symbol(
                    ballot.pref(i as nat, b as nat),
                    i == b,
                ),
            decreases n - j,
        {
            let symbol = if i == j {
                '-'
            } else {
                match ballot.preference(Candidate(i), Candidate(j)) {
                    PairPreference::Left => '>',
                    PairPreference::Right => '<',
                    PairPreference::Abstain => '.',
                }
            };
            line.push(symbol);
            j += 1;
        }
        grid.push(line);
        i += 1;
    }
    grid
}

} // verus!
