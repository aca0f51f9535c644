//! Margin matrices as raw rows, and tallying bit-packed ballots into them.
use vstd::prelude::*;

use crate::ballot::PairPreference;
use crate::compact::{lemma_pair_slot_bounds, CompactBallot};
use crate::profile::{add_to, vote, zero_matrix};

verus! {

/// The rows of a raw matrix, as sequences.
pub open spec fn rows_view(m: Seq<Vec<i64>>) -> Seq<Seq<i64>> {
    m.map_values(|r: Vec<i64>| r@)
}

/// The matrix is square, and `m[i][j] == -m[j][i]` for all `i, j` (so the
/// diagonal is zero).
pub open spec fn is_skew_symmetric(m: Seq<Seq<i64>>) -> bool {
    &&& forall|i: int| 0 <= i < m.len() ==> #[trigger] m[i].len() == m.len()
    &&& forall|i: int, j: int|
        0 <= i < m.len() && 0 <= j < m.len() ==> #[trigger] m[i][j] == -m[j][i]
}

/// Candidate `i` beats every other candidate: `m[i][j] > 0` for all `j != i`.
pub open spec fn beats_all(m: Seq<Seq<i64>>, i: int) -> bool {
    forall|j: int| 0 <= j < m.len() && j != i ==> #[trigger] cell_positive(m, i, j)
}

/// A candidate whose margin over every other candidate is positive beats
/// all of them, whatever its index.
pub proof fn lemma_positive_row_beats_all(m: Seq<Seq<i64>>, w: int)
    requires
        0 <= w < m.len(),
        m[w].len() == m.len(),
        forall|j: int| 0 <= j < m.len() && j != w ==> #[trigger] m[w][j] > 0,
    ensures
        beats_all(m, w),
{
    assert forall|j: int| 0 <= j < m.len() && j != w implies #[trigger] cell_positive(m, w, j) by {
        assert(m[w][j] > 0);
    }
}

/// Row `i` has a positive entry in column `j`.
pub open spec fn cell_positive(m: Seq<Seq<i64>>, i: int, j: int) -> bool {
    j < m[i].len() && m[i][j] > 0
}

/// Scanning row `i` for a Condorcet winner runs past the end of the row: the
/// first column `k != i` that the row lacks comes before any column that the
/// row fails.
pub open spec fn row_scan_faults(m: Seq<Seq<i64>>, i: int) -> bool {
    exists|k: int|
        0 <= k < m.len() && k != i && k >= m[i].len() && #[trigger] row_beats_before(m, i, k)
}

/// Row `i` has a positive entry in every column `j < k`, `j != i`.
pub open spec fn row_beats_before(m: Seq<Seq<i64>>, i: int, k: int) -> bool {
    forall|j: int| 0 <= j < k && j != i ==> #[trigger] cell_positive(m, i, j)
}

/// A row with a positive entry in every other column beats all.
pub proof fn lemma_beats_all_from_prefix(m: Seq<Seq<i64>>, i: int)
    requires
        row_beats_before(m, i, m.len() as int),
    ensures
        beats_all(m, i),
{
}

/// Scanning the rows in order for a Condorcet winner reads only entries that
/// exist.
pub open spec fn condorcet_scan_safe(m: Seq<Seq<i64>>) -> bool {
    forall|i: int|
        0 <= i < m.len() && (forall|k: int| 0 <= k < i ==> !#[trigger] beats_all(m, k))
            ==> !row_scan_faults(m, i)
}

/// A square matrix can always be scanned.
pub proof fn lemma_square_scan_safe(m: Seq<Seq<i64>>)
    requires
        forall|i: int| 0 <= i < m.len() ==> #[trigger] m[i].len() == m.len(),
    ensures
        condorcet_scan_safe(m),
{
}

/// In a skew-symmetric matrix at most one candidate beats all others.
pub proof fn lemma_condorcet_winner_unique(m: Seq<Seq<i64>>, a: int, b: int)
    requires
        is_skew_symmetric(m),
        0 <= a < m.len(),
        0 <= b < m.len(),
        beats_all(m, a),
        beats_all(m, b),
    ensures
        a == b,
{
    if a != b {
        assert(cell_positive(m, a, b));
        assert(cell_positive(m, b, a));
    }
}

/// Votes for `i` over `j` minus votes for `j` over `i` over bit-packed
/// ballots of `n` candidates.
pub open spec fn compact_pair_tally(ballots: Seq<CompactBallot>, i: int, j: int, n: int) -> int
    decreases ballots.len(),
{
    if ballots.len() == 0 {
        0
    } else {
        compact_pair_tally(ballots.drop_last(), i, j, n) + vote(ballots.last().pref_spec(i, j, n))
    }
}

/// A single bit-packed ballot counts its own vote for the pair.
pub proof fn lemma_compact_tally_single(b: CompactBallot, i: int, j: int, n: int)
    ensures
        compact_pair_tally(seq![b], i, j, n) == vote(b.pref_spec(i, j, n)),
{
    assert(seq![b].drop_last() =~= Seq::<CompactBallot>::empty());
    assert(seq![b].last() == b);
    assert(compact_pair_tally(Seq::<CompactBallot>::empty(), i, j, n) == 0);
    assert(compact_pair_tally(seq![b], i, j, n) == compact_pair_tally(seq![b].drop_last(), i, j, n) + vote(
        seq![b].last().pref_spec(i, j, n),
    ));
}

/// Tallies of bit-packed ballots add over concatenated lists, in either
/// order.
pub proof fn lemma_compact_tally_concat(b1: Seq<CompactBallot>, b2: Seq<CompactBallot>, i: int, j: int, n: int)
    ensures
        compact_pair_tally(b1 + b2, i, j, n) == compact_pair_tally(b1, i, j, n) + compact_pair_tally(b2, i, j, n),
        compact_pair_tally(b1 + b2, i, j, n) == compact_pair_tally(b2 + b1, i, j, n),
{
    lemma_compact_tally_concat_left(b1, b2, i, j, n);
    lemma_compact_tally_concat_left(b2, b1, i, j, n);
}

/// Tallies of bit-packed ballots add over concatenated lists.
proof fn lemma_compact_tally_concat_left(b1: Seq<CompactBallot>, b2: Seq<CompactBallot>, i: int, j: int, n: int)
    ensures
        compact_pair_tally(b1 + b2, i, j, n) == compact_pair_tally(b1, i, j, n) + compact_pair_tally(b2, i, j, n),
    decreases b2.len(),
{
    if b2.len() == 0 {
        assert(b1 + b2 =~= b1);
    } else {
        lemma_compact_tally_concat_left(b1, b2.drop_last(), i, j, n);
        assert((b1 + b2).drop_last() =~= b1 + b2.drop_last());
        assert((b1 + b2).last() == b2.last());
    }
}

/// Margin entry `(i, j)` of bit-packed ballots, tallied over the pairs
/// `i < j`.
pub open spec fn compact_margin_entry(ballots: Seq<CompactBallot>, i: int, j: int, n: int) -> int {
    if i < j {
        compact_pair_tally(ballots, i, j, n)
    } else if j < i {
        -compact_pair_tally(ballots, j, i, n)
    } else {
        0
    }
}

/// The margin of a single bit-packed ballot for the ordered pair `(i, j)`,
/// `i != j`, is its vote for that pair: `1` where it prefers `i`, `-1` where
/// it prefers `j`, `0` where it abstains.
pub proof fn lemma_compact_margin_single(b: CompactBallot, i: int, j: int, n: int)
    requires
        i != j,
    ensures
        compact_margin_entry(seq![b], i, j, n) == vote(b.pref_spec(i, j, n)),
{
    lemma_compact_tally_single(b, i, j, n);
    lemma_compact_tally_single(b, j, i, n);
    b.lemma_antisymmetric(i, j, n);
}

proof fn lemma_compact_tally_bounds(ballots: Seq<CompactBallot>, i: int, j: int, n: int)
    ensures
        -ballots.len() <= compact_pair_tally(ballots, i, j, n) <= ballots.len(),
    decreases ballots.len(),
{
    if ballots.len() > 0 {
        lemma_compact_tally_bounds(ballots.drop_last(), i, j, n);
    }
}

/// The `n × n` margin matrix of bit-packed ballots: entry `(i, j)`, `i < j`,
/// counts the ballots preferring `i` over `j` minus those preferring `j` over
/// `i`, and entry `(j, i)` is its negation.
pub fn tally_margins(ballots: &[CompactBallot], n: usize) -> (r: Vec<Vec<i64>>)
    requires
        forall|k: int| 0 <= k < ballots@.len() ==> #[trigger] ballots@[k].holds_all_pairs(n as int),
        ballots@.len() <= i64::MAX,
    ensures
        r@.len() == n,
        is_skew_symmetric(rows_view(r@)),
        forall|i: int, j: int|
            0 <= i < n && 0 <= j < n ==> #[trigger] r@[i]@[j] == compact_margin_entry(
                ballots@,
                i,
                j,
                n as int,
            ),
{
    let mut margins = zero_matrix(n);
    let mut k: usize = 0;
    while k < ballots.len()
        invariant
            k <= ballots@.len(),
            ballots@.len() <= i64::MAX,
            forall|q: int| 0 <= q < ballots@.len() ==> #[trigger] ballots@[q].holds_all_pairs(n as int),
            margins@.len() == n,
            forall|a: int| 0 <= a < n ==> #[trigger] margins@[a]@.len() == n,
            forall|a: int, b: int|
                0 <= a < n && 0 <= b < n ==> #[trigger] margins@[a]@[b] == compact_margin_entry(
                    ballots@.take(k as int),
                    a,
                    b,
                    n as int,
                ),
        decreases ballots@.len() - k,
    {
        let ballot = &ballots[k];
        let ghost done = ballots@.take(k as int);
        let ghost next = ballots@.take(k as int + 1);
        proof {
            assert(next.drop_last() =~= done);
            assert(next.last() == *ballot);
        }
        let mut i: usize = 0;
        while i < n
            invariant
                k < ballots@.len(),
                ballots@.len() <= i64::MAX,
                *ballot == ballots@[k as int],
                ballot.holds_all_pairs(n as int),
                done == ballots@.take(k as int),
                next == ballots@.take(k as int + 1),
                next.drop_last() == done,
                next.last() == *ballot,
                i <= n,
                margins@.len() == n,
                forall|a: int| 0 <= a < n ==> #[trigger] margins@[a]@.len() == n,
                forall|a: int, b: int|
                    0 <= a < n && 0 <= b < n ==> #[trigger] margins@[a]@[b] == compact_margin_entry(
                        if a < i || b < i { next } else { done },
                        a,
                        b,
                        n as int,
                    ),
            decreases n - i,
        {
            let mut j: usize = i + 1;
            while j < n
                invariant
                    k < ballots@.len(),
                    ballots@.len() <= i64::MAX,
                    ballot.holds_all_pairs(n as int),
                    done == ballots@.take(k as int),
                    next == ballots@.take(k as int + 1),
                    next.drop_last() == done,
                    next.last() == *ballot,
                    i < n,
                    i + 1 <= j <= n,
                    margins@.len() == n,
                    forall|a: int| 0 <= a < n ==> #[trigger] margins@[a]@.len() == n,
                    forall|a: int, b: int|
                        0 <= a < n && 0 <= b < n ==> #[trigger] margins@[a]@[b] == compact_margin_entry(
                            if a < i || b < i || (a == i && b < j) || (b == i && a < j) { next } else { done },
                            a,
                            b,
                            n as int,
                        ),
                decreases n - j,
            {
                proof {
                    lemma_compact_tally_bounds(done, i as int, j as int, n as int);
                    lemma_pair_slot_bounds(i as int, j as int, n as int);
                    assert(done.len() == k);
                }
                match ballot.preference(i, j, n) {
                    PairPreference::Left => {
                        add_to(&mut margins, i, j, 1);
                        add_to(&mut margins, j, i, -1);
                    },
                    PairPreference::Right => {
                        add_to(&mut margins, i, j, -1);
                        add_to(&mut margins, j, i, 1);
                    },
                    PairPreference::Abstain => {},
                }
                j += 1;
            }
            i += 1;
        }
        k += 1;
        proof {
            assert(next == ballots@.take(k as int));
        }
    }
    proof {
        assert(ballots@.take(ballots@.len() as int) =~= ballots@);
        assert forall|a: int, b: int| 0 <= a < n && 0 <= b < n implies #[trigger] rows_view(
            margins@,
        )[a][b] == -rows_view(margins@)[b][a] by {
            assert(rows_view(margins@)[a] == margins@[a]@);
            assert(rows_view(margins@)[b] == margins@[b]@);
        }
        assert forall|a: int| 0 <= a < n implies #[trigger] rows_view(margins@)[a].len() == n by {
            assert(rows_view(margins@)[a] == margins@[a]@);
        }
    }
    margins
}

} // verus!
