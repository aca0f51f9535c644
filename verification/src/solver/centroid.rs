//! Exact centroid maximal-lottery solver.
//!
//! The maximin strategies of the margin game are the points `p` with
//! `p >= 0`, `sum(p) = 1` and `sum_i M[i][j] * p[i] >= 0` for every `j`;
//! the solver returns the centroid of the extreme points of that polytope
//! (see [`crate::solver::extreme`]).
use vstd::prelude::*;

use crate::error::Error;
use crate::linear::vals;
use crate::margins::{beats_all, is_skew_symmetric, lemma_condorcet_winner_unique, lemma_square_scan_safe};
use crate::maximal_lottery::{
    is_maximal_lottery, is_unit_lottery, lottery_outcome, maximal_lottery, LotteryMethod, MaximalLotteryError,
};
use crate::rational::Rational;
use crate::profile::{Lottery, MarginMatrix};
use crate::solver::extreme::{centroid_of, extreme_points};
use crate::solver::gauss::all_wf;
use crate::solver::LotterySolver;

verus! {


/// A maximal-lottery solver that returns the centroid of all optimal
/// strategies: the uniform average over the extreme points of the optimal
/// polytope.
#[derive(Debug, Clone, Copy, Default)]
pub struct CentroidSolver;

impl LotterySolver for CentroidSolver {
    type Error = Error;

    fn solve(&self, margins: &MarginMatrix) -> (r: Result<Lottery, Error>)
        ensures
            centroid_outcome(margins@, r),
    {
        centroid(margins)
    }
}

/// What the centroid solver returns for a skew-symmetric matrix `m`.
pub open spec fn centroid_outcome(m: Seq<Seq<i64>>, r: Result<Lottery, Error>) -> bool {
    &&& (r == Err::<Lottery, Error>(Error::NoCandidates) <==> m.len() == 0)
    &&& r matches Err(e) ==> e == Error::NoCandidates || (e == Error::Infeasible && m.len() >= 2)
    &&& m.len() == 1 ==> (r matches Ok(p) && is_unit_lottery(p@, 1, 0))
    &&& forall|w: int| 0 <= w < m.len() && #[trigger] beats_all(m, w) ==> (r matches Ok(p)
        && is_unit_lottery(p@, m.len() as int, w))
    &&& r matches Ok(p) ==> p@.len() == m.len() && all_wf(p@)
    &&& r matches Ok(p) ==> is_maximal_lottery(m, vals(p@))
    &&& m.len() >= 2 && (forall|k: int| 0 <= k < m.len() ==> !#[trigger] beats_all(m, k)) ==> {
        &&& (r is Err <==> extreme_points(m).len() == 0)
        &&& r matches Ok(p) ==> vals(p@) == centroid_of(extreme_points(m), m.len() as int)
    }
}

/// On a valid margin matrix, `maximal_lottery` with the centroid method and
/// `CentroidSolver` agree: both give a lottery with the same probabilities,
/// or both fail with the same kind of error.
pub proof fn lemma_solvers_agree(
    m: Seq<Seq<i64>>,
    r1: Result<Vec<Rational>, MaximalLotteryError>,
    r2: Result<Lottery, Error>,
)
    requires
        is_skew_symmetric(m),
        lottery_outcome(m, r1),
        centroid_outcome(m, r2),
    ensures
        r1 is Ok <==> r2 is Ok,
        r1 matches Ok(p) ==> (r2 matches Ok(l) && vals(p@) == vals(l@)),
        r1 == Err::<Vec<Rational>, MaximalLotteryError>(MaximalLotteryError::NoCandidates) <==> r2
            == Err::<Lottery, Error>(Error::NoCandidates),
        r1 == Err::<Vec<Rational>, MaximalLotteryError>(MaximalLotteryError::Infeasible) <==> r2
            == Err::<Lottery, Error>(Error::Infeasible),
{
    let n = m.len() as int;
    if n == 1 {
        if let (Ok(p), Ok(l)) = (r1, r2) {
            assert(vals(p@) =~= vals(l@));
        }
    } else if n >= 2 {
        if exists|w: int| 0 <= w < n && #[trigger] beats_all(m, w) {
            let w = choose|w: int| 0 <= w < n && #[trigger] beats_all(m, w);
            assert forall|k: int| 0 <= k < w implies !#[trigger] beats_all(m, k) by {
                if beats_all(m, k) {
                    lemma_condorcet_winner_unique(m, k, w);
                }
            }
            if let (Ok(p), Ok(l)) = (r1, r2) {
                assert(vals(p@) =~= vals(l@));
            }
        } else {
            if let (Ok(p), Ok(l)) = (r1, r2) {
                assert(vals(p@) == vals(l@));
            }
        }
    }
}

/// The centroid maximal lottery of a margin matrix.
fn centroid(margins: &MarginMatrix) -> (r: Result<Lottery, Error>)
    requires
        2 * margins@.len() + 2 < usize::MAX,
    ensures
        centroid_outcome(margins@, r),
{
    let rows = margins.margins();
    let n = margins.n_candidates();
    proof {
        lemma_square_scan_safe(margins@);
        assert forall|w: int| 0 <= w < n && #[trigger] beats_all(margins@, w) implies forall|k: int|
            0 <= k < w ==> !#[trigger] beats_all(margins@, k) by {
            assert forall|k: int| 0 <= k < w implies !#[trigger] beats_all(margins@, k) by {
                if beats_all(margins@, k) {
                    lemma_condorcet_winner_unique(margins@, k, w);
                }
            }
        }
    }
    match maximal_lottery(rows, LotteryMethod::Centroid) {
        Ok(p) => Ok(Lottery::new(p)),
        Err(MaximalLotteryError::NoCandidates) => Err(Error::NoCandidates),
        Err(MaximalLotteryError::Infeasible) => Err(Error::Infeasible),
    }
}

} // verus!
