//! Maximal lotteries of raw margin matrices.
use vstd::prelude::*;

use crate::linear::{dot, lemma_dot_unit_right, lemma_sum_unit, sum, vals};
use crate::rational::Rational;
use crate::solver::extreme::{centroid_of, centroid_points, extreme_points};
use crate::solver::gauss::all_wf;
use crate::margins::is_skew_symmetric;
use crate::margins::{beats_all, condorcet_scan_safe, row_beats_before, row_scan_faults, rows_view, lemma_beats_all_from_prefix, lemma_positive_row_beats_all, cell_positive};

verus! {

/// Errors of [`maximal_lottery`].
#[derive(Debug, Clone, Copy, PartialEq, Eq, Structural)]
pub enum MaximalLotteryError {
    /// No candidates were provided.
    NoCandidates,
    /// The program had no solution.
    Infeasible,
}

/// How to choose among several optimal lotteries.
#[derive(Debug, Clone, Copy, PartialEq, Eq, Structural)]
pub enum LotteryMethod {
    /// The centroid (center of mass) of the set of all maximal lotteries: the
    /// uniform average over the extreme optimal strategies.
    Centroid,
}

/// Column `j` of the margin matrix, as reals: entry `i` is `m[i][j]`.
pub open spec fn column(m: Seq<Seq<i64>>, j: int) -> Seq<real> {
    Seq::new(m.len(), |i: int| m[i][j] as real)
}

/// The expected margin of the lottery `p` against candidate `j`:
/// `sum_i p[i] * m[i][j]`.
pub open spec fn payoff(m: Seq<Seq<i64>>, p: Seq<real>, j: int) -> real {
    dot(column(m, j), p, m.len() as int)
}

/// `p` is a maximal lottery of the margin matrix `m`: a probability
/// distribution over the candidates that no candidate beats in expectation,
/// that is a maximin strategy of the symmetric zero-sum game `m`.
pub open spec fn is_maximal_lottery(m: Seq<Seq<i64>>, p: Seq<real>) -> bool {
    &&& p.len() == m.len()
    &&& forall|i: int| 0 <= i < p.len() ==> #[trigger] p[i] >= 0real
    &&& sum(p, p.len() as int) == 1real
    &&& forall|j: int| 0 <= j < m.len() ==> #[trigger] payoff(m, p, j) >= 0real
}

/// In a skew-symmetric margin matrix, the lottery that puts all probability
/// on a candidate who beats every other candidate is a maximal lottery.
pub proof fn lemma_condorcet_unit_is_maximal(m: Seq<Seq<i64>>, p: Seq<real>, w: int)
    requires
        is_skew_symmetric(m),
        0 <= w < m.len(),
        beats_all(m, w),
        p.len() == m.len(),
        forall|k: int| 0 <= k < p.len() ==> #[trigger] p[k] == (if k == w { 1real } else { 0real }),
    ensures
        is_maximal_lottery(m, p),
{
    lemma_sum_unit(p, w, p.len() as int);
    assert forall|j: int| 0 <= j < m.len() implies #[trigger] payoff(m, p, j) >= 0real by {
        lemma_dot_unit_right(column(m, j), p, w, m.len() as int);
        if j != w {
            assert(cell_positive(m, w, j));
        } else {
            assert(m[w][w] == -m[w][w]);
        }
    }
}

/// The lottery that puts all probability on candidate `w` of `n`.
pub open spec fn is_unit_lottery(p: Seq<Rational>, n: int, w: int) -> bool {
    &&& p.len() == n
    &&& forall|k: int| 0 <= k < n ==> #[trigger] p[k].val() == (if k == w {
        1real
    } else {
        0real
    })
}

/// A margin matrix that a maximal lottery can be computed for without
/// reading past the end of a row: the scan for a Condorcet winner stays in
/// bounds, and where it finds none every row reaches column `n - 1`.
pub open spec fn solvable_shape(m: Seq<Seq<i64>>) -> bool {
    m.len() >= 2 ==> {
        &&& condorcet_scan_safe(m)
        &&& (forall|k: int| 0 <= k < m.len() ==> !#[trigger] beats_all(m, k)) ==> forall|i: int|
            0 <= i < m.len() ==> #[trigger] m[i].len() >= m.len()
    }
}

/// What `maximal_lottery` returns for the margin matrix `m`.
pub open spec fn lottery_outcome(m: Seq<Seq<i64>>, r: Result<Vec<Rational>, MaximalLotteryError>) -> bool {
    &&& (r == Err::<Vec<Rational>, MaximalLotteryError>(MaximalLotteryError::NoCandidates) <==> m.len() == 0)
    &&& r matches Err(e) ==> e == MaximalLotteryError::NoCandidates || (e == MaximalLotteryError::Infeasible
        && m.len() >= 2 && forall|k: int| 0 <= k < m.len() ==> !#[trigger] beats_all(m, k))
    &&& m.len() == 1 ==> (r matches Ok(p) && is_unit_lottery(p@, 1, 0))
    &&& forall|w: int|
        0 <= w < m.len() && #[trigger] beats_all(m, w) && (forall|k: int|
            0 <= k < w ==> !#[trigger] beats_all(m, k)) ==> (r matches Ok(p)
            && is_unit_lottery(p@, m.len() as int, w))
    &&& r matches Ok(p) ==> p@.len() == m.len() && all_wf(p@)
    &&& r matches Ok(p) ==> (m.len() >= 2 && (forall|k: int|
        0 <= k < m.len() ==> !#[trigger] beats_all(m, k)) ==> is_maximal_lottery(m, vals(p@)))
    &&& r matches Ok(p) ==> (is_skew_symmetric(m) ==> is_maximal_lottery(m, vals(p@)))
    &&& m.len() >= 2 && (forall|k: int| 0 <= k < m.len() ==> !#[trigger] beats_all(m, k)) ==> {
        &&& (r is Err <==> extreme_points(m).len() == 0)
        &&& r matches Ok(p) ==> vals(p@) == centroid_of(extreme_points(m), m.len() as int)
    }
}

/// A maximal lottery of the margin matrix `margins`.
///
/// No candidates give `NoCandidates`; a single candidate gets probability
/// one; so does a Condorcet winner. Otherwise `method` picks among the
/// optimal lotteries.
pub fn maximal_lottery(margins: &[Vec<i64>], method: LotteryMethod) -> (r: Result<
    Vec<Rational>,
    MaximalLotteryError,
>)
    requires
        solvable_shape(rows_view(margins@)),
        2 * margins@.len() + 2 < usize::MAX,
    ensures
        lottery_outcome(rows_view(margins@), r),
{
    let n = margins.len();
    if n == 0 {
        return Err(MaximalLotteryError::NoCandidates);
    }
    if n == 1 {
        let mut lottery: Vec<Rational> = Vec::new();
        lottery.push(Rational::one());
        proof {
            assert(lottery@[0].val() == 1real);
            assert forall|w: int| 0 <= w < margins@.len() && #[trigger] beats_all(rows_view(margins@), w)
                implies w == 0 by {}
            if is_skew_symmetric(rows_view(margins@)) {
                lemma_condorcet_unit_is_maximal(rows_view(margins@), vals(lottery@), 0);
            }
        }
        return Ok(lottery);
    }
    let ghost m = rows_view(margins@);
    assert(m.len() == n);
    if let Some(winner) = condorcet_winner(margins) {
        let mut lottery: Vec<Rational> = Vec::new();
        let mut i: usize = 0;
        while i < n
            invariant
                i <= n,
                lottery@.len() == i,
                forall|k: int| 0 <= k < i ==> #[trigger] lottery@[k].val() == 0real,
                all_wf(lottery@),
            decreases n - i,
        {
            lottery.push(Rational::zero());
            i += 1;
        }
        lottery[winner] = Rational::one();
        proof {
            assert forall|w: int|
                0 <= w < n && #[trigger] beats_all(m, w) && (forall|k: int|
                    0 <= k < w ==> !#[trigger] beats_all(m, k)) implies w == winner by {
                if w < winner {
                } else if winner < w {
                }
            }
            if is_skew_symmetric(m) {
                assert forall|k: int| 0 <= k < n implies #[trigger] vals(lottery@)[k] == (if k == winner {
                    1real
                } else {
                    0real
                }) by {}
                lemma_condorcet_unit_is_maximal(m, vals(lottery@), winner as int);
            }
        }
        return Ok(lottery);
    }
    proof {
        assert forall|i: int| 0 <= i < n implies #[trigger] margins@[i]@.len() >= n by {
            assert(m[i] == margins@[i]@);
        }
    }
    match method {
        LotteryMethod::Centroid => match centroid_points(margins) {
            Some(p) => Ok(p),
            None => Err(MaximalLotteryError::Infeasible),
        },
    }
}

/// A full row of positive margins over every other candidate beats all
/// others.
proof fn lemma_raw_positive_row(margins: Seq<Vec<i64>>, w: int)
    requires
        0 <= w < margins.len(),
        margins[w]@.len() == margins.len(),
        forall|j: int| 0 <= j < margins.len() && j != w ==> #[trigger] margins[w]@[j] > 0,
    ensures
        beats_all(rows_view(margins), w),
{
    let m = rows_view(margins);
    assert(m[w] == margins[w]@);
    assert forall|j: int| 0 <= j < m.len() && j != w implies #[trigger] cell_positive(m, w, j) by {
        assert(margins[w]@[j] > 0);
    }
}

/// Where no candidate before `i` beats all others, a candidate with a
/// positive margin over every other one in a square matrix comes at `i` or
/// later.
proof fn lemma_winner_not_before(margins: Seq<Vec<i64>>, i: int)
    requires
        forall|k: int| 0 <= k < i ==> !#[trigger] beats_all(rows_view(margins), k),
    ensures
        forall|w: int|
            #![trigger margins[w]]
            0 <= w < margins.len() && margins[w]@.len() == margins.len() && (forall|j: int|
                0 <= j < margins.len() && j != w ==> #[trigger] margins[w]@[j] > 0) ==> i <= w,
{
    assert forall|w: int|
        #![trigger margins[w]]
        0 <= w < margins.len() && margins[w]@.len() == margins.len() && (forall|j: int|
            0 <= j < margins.len() && j != w ==> #[trigger] margins[w]@[j] > 0) implies i <= w by {
        lemma_raw_positive_row(margins, w);
    }
}

/// The Condorcet winner, if one exists: the first candidate `i` with
/// `margins[i][j] > 0` for all `j != i`.
pub fn condorcet_winner(margins: &[Vec<i64>]) -> (r: Option<usize>)
    requires
        condorcet_scan_safe(rows_view(margins@)),
    ensures
        r matches Some(i) ==> i < margins@.len() && beats_all(rows_view(margins@), i as int)
            && forall|k: int| 0 <= k < i ==> !#[trigger] beats_all(rows_view(margins@), k),
        r is None ==> forall|k: int|
            0 <= k < margins@.len() ==> !#[trigger] beats_all(rows_view(margins@), k),
        forall|w: int|
            #![trigger margins@[w]]
            0 <= w < margins@.len() && margins@[w]@.len() == margins@.len() && (forall|j: int|
                0 <= j < margins@.len() && j != w ==> #[trigger] margins@[w]@[j] > 0) ==> (r is Some && r->0 <= w),
{
    let ghost m = rows_view(margins@);
    let n = margins.len();
    assert(m.len() == n);
    let mut i: usize = 0;
    while i < n
        invariant
            n == margins@.len(),
            m == rows_view(margins@),
            m.len() == n,
            condorcet_scan_safe(m),
            i <= n,
            forall|k: int| 0 <= k < i ==> !#[trigger] beats_all(m, k),
        decreases n - i,
    {
        let mut j: usize = 0;
        let mut all = true;
        while j < n
            invariant
                n == margins@.len(),
                m == rows_view(margins@),
                m.len() == n,
                condorcet_scan_safe(m),
                i < n,
                j <= n,
                forall|k: int| 0 <= k < i ==> !#[trigger] beats_all(m, k),
                all ==> row_beats_before(m, i as int, j as int),
                !all ==> !beats_all(m, i as int),
            decreases n - j,
        {
            assert(m[i as int] == margins@[i as int]@);
            if i != j {
                if all {
                    if j >= margins[i].len() {
                        assert(row_scan_faults(m, i as int));
                    }
                    if margins[i][j] <= 0 {
                        all = false;
                        assert(!cell_positive(m, i as int, j as int));
                    }
                }
            }
            proof {
                if all {
                    assert forall|q: int| 0 <= q < j + 1 && q != i implies #[trigger] cell_positive(
                        m,
                        i as int,
                        q,
                    ) by {
                        if q < j {
                            assert(row_beats_before(m, i as int, j as int));
                        }
                    }
                }
            }
            j += 1;
        }
        if all {
            proof {
                lemma_beats_all_from_prefix(m, i as int);
                lemma_winner_not_before(margins@, i as int);
            }
            return Some(i);
        }
        i += 1;
    }
    proof {
        lemma_winner_not_before(margins@, n as int);
    }
    None
}

} // verus!
