//! Core types: [`Candidate`], [`Lottery`], [`MarginMatrix`] and
//! [`PreferenceProfile`].
use vstd::prelude::*;

use crate::ballot::{Ballot, PairPreference};
use crate::compact::{
    lemma_pair_slot_bounds, lemma_pair_slot_injective, lemma_row_start_last, lemma_row_start_step, pair_count,
    pair_slot, row_start,
};
use crate::error::Error;
use crate::margins::{
    beats_all, is_skew_symmetric, lemma_condorcet_winner_unique, lemma_positive_row_beats_all, lemma_square_scan_safe,
    rows_view,
};
use crate::maximal_lottery::condorcet_winner as condorcet_index;
use crate::rational::Rational;

verus! {

/// A candidate, identified by its index into the candidate set `0..n`.
#[derive(Debug, Clone, Copy, PartialEq, Eq, PartialOrd, Ord, Hash, Structural)]
pub struct Candidate(pub usize);

impl From<usize> for Candidate {
    fn from(index: usize) -> (r: Candidate) {
        Candidate(index)
    }
}

impl vstd::std_specs::convert::FromSpecImpl<usize> for Candidate {
    open spec fn obeys_from_spec() -> bool {
        true
    }

    open spec fn from_spec(index: usize) -> Candidate {
        Candidate(index)
    }
}

impl From<Candidate> for usize {
    fn from(candidate: Candidate) -> (r: usize) {
        candidate.0
    }
}

impl vstd::std_specs::convert::FromSpecImpl<Candidate> for usize {
    open spec fn obeys_from_spec() -> bool {
        true
    }

    open spec fn from_spec(candidate: Candidate) -> usize {
        candidate.0
    }
}

/// A probability distribution over candidates, with exact rational
/// probabilities indexed by candidate.
#[derive(Debug, PartialEq, Eq)]
pub struct Lottery(Vec<Rational>);

impl View for Lottery {
    type V = Seq<Rational>;

    closed spec fn view(&self) -> Seq<Rational> {
        self.0@
    }
}

impl Clone for Lottery {
    fn clone(&self) -> (r: Lottery)
        ensures
            r@.len() == self@.len(),
            forall|k: int| 0 <= k < self@.len() ==> #[trigger] r@[k].val() == self@[k].val() && r@[k].wf() == self@[k].wf(),
    {
        let mut v: Vec<Rational> = Vec::new();
        let mut k: usize = 0;
        while k < self.0.len()
            invariant
                k <= self@.len(),
                v@.len() == k,
                forall|q: int| 0 <= q < k ==> #[trigger] v@[q].val() == self@[q].val() && v@[q].wf() == self@[q].wf(),
            decreases self@.len() - k,
        {
            v.push(self.0[k].clone());
            k += 1;
        }
        Lottery(v)
    }
}

impl Default for Lottery {
    fn default() -> (r: Lottery)
        ensures
            r@.len() == 0,
    {
        Lottery(Vec::new())
    }
}

impl Lottery {
    /// A lottery with the given probabilities, indexed by candidate.
    ///
    /// The caller is responsible for the probabilities being a distribution;
    /// the solvers of this crate return distributions.
    pub fn new(probabilities: Vec<Rational>) -> (r: Lottery)
        ensures
            r@ == probabilities@,
    {
        Lottery(probabilities)
    }

    /// Number of candidates in the lottery.
    pub fn len(&self) -> (r: usize)
        ensures
            r == self@.len(),
    {
        self.0.len()
    }

    /// The lottery has no candidates.
    pub fn is_empty(&self) -> (r: bool)
        ensures
            r == (self@.len() == 0),
    {
        self.0.len() == 0
    }

    /// Probability of `candidate`, if the candidate is in range.
    pub fn get(&self, candidate: Candidate) -> (r: Option<&Rational>)
        ensures
            candidate.0 < self@.len() ==> r == Some(&self@[candidate.0 as int]),
            candidate.0 >= self@.len() ==> r is None,
    {
        if candidate.0 < self.0.len() {
            Some(&self.0[candidate.0])
        } else {
            None
        }
    }

    /// All probabilities, indexed by candidate.
    pub fn probabilities(&self) -> (r: &[Rational])
        ensures
            r@ == self@,
    {
        self.0.as_slice()
    }

    /// The probability vector.
    pub fn into_inner(self) -> (r: Vec<Rational>)
        ensures
            r@ == self@,
    {
        self.0
    }
}

/// A skew-symmetric pairwise margin matrix.
///
/// For `n` candidates the matrix is `n × n` with `M[i][j] = -M[j][i]` (so
/// `M[i][i] = 0`). The entry `M[i][j]` is the number of voters preferring `i`
/// over `j` minus those preferring `j` over `i`.
#[derive(Debug, PartialEq, Eq)]
pub struct MarginMatrix(Vec<Vec<i64>>);

impl Clone for MarginMatrix {
    fn clone(&self) -> (r: MarginMatrix)
        ensures
            r@ == self@,
    {
        proof {
            use_type_invariant(self);
        }
        MarginMatrix(copy_rows(&self.0))
    }
}

/// A copy of the rows of a matrix.
fn copy_rows(m: &Vec<Vec<i64>>) -> (r: Vec<Vec<i64>>)
    ensures
        rows_view(r@) == rows_view(m@),
{
    let mut r: Vec<Vec<i64>> = Vec::new();
    let mut i: usize = 0;
    while i < m.len()
        invariant
            i <= m@.len(),
            r@.len() == i,
            forall|k: int| 0 <= k < i ==> #[trigger] r@[k]@ == m@[k]@,
        decreases m@.len() - i,
    {
        let row = &m[i];
        let mut copy: Vec<i64> = Vec::new();
        let mut j: usize = 0;
        while j < row.len()
            invariant
                j <= row@.len(),
                copy@ == row@.take(j as int),
            decreases row@.len() - j,
        {
            copy.push(row[j]);
            j += 1;
            assert(copy@ =~= row@.take(j as int));
        }
        assert(row@.take(row@.len() as int) =~= row@);
        r.push(copy);
        i += 1;
    }
    assert(rows_view(r@) =~= rows_view(m@));
    r
}

impl View for MarginMatrix {
    type V = Seq<Seq<i64>>;

    closed spec fn view(&self) -> Seq<Seq<i64>> {
        rows_view(self.0@)
    }
}

impl MarginMatrix {
    #[verifier::type_invariant]
    spec fn inv(self) -> bool {
        is_skew_symmetric(rows_view(self.0@))
    }

    /// A margin matrix with the given rows.
    ///
    /// Gives `InvalidMargins` exactly when the rows do not form a square,
    /// skew-symmetric matrix (so the diagonal is zero): the row lengths are
    /// checked first, then each entry against its mirror.
    pub fn from_vec(margins: Vec<Vec<i64>>) -> (r: Result<MarginMatrix, Error>)
        ensures
            r is Ok <==> is_skew_symmetric(rows_view(margins@)),
            r matches Ok(m) ==> m@ == rows_view(margins@),
            r matches Err(e) ==> e == Error::InvalidMargins,
    {
        let ghost m = rows_view(margins@);
        let n = margins.len();
        assert(m.len() == n);
        let mut i: usize = 0;
        while i < n
            invariant
                n == margins@.len(),
                m == rows_view(margins@),
                m.len() == n,
                i <= n,
                forall|k: int| 0 <= k < i ==> #[trigger] m[k].len() == n,
            decreases n - i,
        {
            assert(m[i as int] == margins@[i as int]@);
            if margins[i].len() != n {
                return Err(Error::InvalidMargins);
            }
            i += 1;
        }
        let mut i: usize = 0;
        while i < n
            invariant
                n == margins@.len(),
                m == rows_view(margins@),
                m.len() == n,
                i <= n,
                forall|k: int| 0 <= k < n ==> #[trigger] m[k].len() == n,
                forall|k: int, l: int| 0 <= k < i && 0 <= l < n ==> #[trigger] m[k][l] == -m[l][k],
            decreases n - i,
        {
            let row = &margins[i];
            assert(m[i as int] == row@);
            if row[i] != 0 {
                return Err(Error::InvalidMargins);
            }
            let mut j: usize = 0;
            while j < n
                invariant
                    n == margins@.len(),
                    m == rows_view(margins@),
                    m.len() == n,
                    i < n,
                    j <= n,
                    m[i as int] == row@,
                    forall|k: int| 0 <= k < n ==> #[trigger] m[k].len() == n,
                    forall|k: int, l: int| 0 <= k < i && 0 <= l < n ==> #[trigger] m[k][l] == -m[l][k],
                    forall|l: int| 0 <= l < j ==> #[trigger] m[i as int][l] == -m[l][i as int],
                decreases n - j,
            {
                let entry = row[j];
                assert(m[j as int] == margins@[j as int]@);
                if entry == i64::MIN || margins[j][i] != -entry {
                    return Err(Error::InvalidMargins);
                }
                j += 1;
            }
            i += 1;
        }
        Ok(MarginMatrix(margins))
    }

    /// Number of candidates.
    pub fn n_candidates(&self) -> (r: usize)
        ensures
            r == self@.len(),
            is_skew_symmetric(self@),
    {
        proof {
            use_type_invariant(self);
        }
        self.0.len()
    }

    /// The margin rows.
    pub fn margins(&self) -> (r: &[Vec<i64>])
        ensures
            rows_view(r@) == self@,
            is_skew_symmetric(self@),
    {
        proof {
            use_type_invariant(self);
        }
        self.0.as_slice()
    }

    /// Margin `M[i][j]`, if both indices are in range.
    pub fn get(&self, i: Candidate, j: Candidate) -> (r: Option<i64>)
        ensures
            r == (if i.0 < self@.len() && j.0 < self@.len() {
                Some(self@[i.0 as int][j.0 as int])
            } else {
                None::<i64>
            }),
    {
        proof {
            use_type_invariant(self);
        }
        if i.0 < self.0.len() {
            let row = &self.0[i.0];
            assert(self@[i.0 as int] == row@);
            if j.0 < row.len() {
                return Some(row[j.0]);
            }
        }
        None
    }

    /// The Condorcet winner, if one exists: the candidate that beats every
    /// other candidate pairwise (there is at most one).
    pub fn condorcet_winner(&self) -> (r: Option<Candidate>)
        ensures
            r matches Some(c) ==> c.0 < self@.len() && beats_all(self@, c.0 as int),
            r is None ==> forall|k: int| 0 <= k < self@.len() ==> !#[trigger] beats_all(self@, k),
            forall|w: int|
                #![trigger self@[w]]
                0 <= w < self@.len() && self@[w].len() == self@.len() && (forall|j: int|
                    0 <= j < self@.len() && j != w ==> #[trigger] self@[w][j] > 0) ==> r == Some(
                    Candidate(w as usize),
                ),
    {
        proof {
            use_type_invariant(self);
            lemma_square_scan_safe(self@);
        }
        let r = match condorcet_index(self.0.as_slice()) {
            Some(i) => Some(Candidate(i)),
            None => None,
        };
        proof {
            assert forall|w: int|
                #![trigger self@[w]]
                0 <= w < self@.len() && self@[w].len() == self@.len() && (forall|j: int|
                    0 <= j < self@.len() && j != w ==> #[trigger] self@[w][j] > 0) implies r == Some(
                    Candidate(w as usize),
                ) by {
                lemma_positive_row_beats_all(self@, w);
                if let Some(c) = r {
                    lemma_condorcet_winner_unique(self@, c.0 as int, w);
                }
            }
        }
        r
    }
}

/// How a preference counts towards the margin of its pair.
pub open spec fn vote(p: PairPreference) -> int {
    match p {
        PairPreference::Left => 1,
        PairPreference::Right => -1,
        PairPreference::Abstain => 0,
    }
}

/// Votes for `i` over `j` minus votes for `j` over `i`, as the ballots
/// report the ordered pair `(i, j)`.
pub open spec fn pair_tally<B: Ballot>(ballots: Seq<B>, i: nat, j: nat) -> int
    decreases ballots.len(),
{
    if ballots.len() == 0 {
        0
    } else {
        pair_tally(ballots.drop_last(), i, j) + vote(ballots.last().pref(i, j))
    }
}

/// The margin entry `(i, j)` of a profile, tallied over the pairs `i < j`:
/// `pair_tally(i, j)` above the diagonal, its negation below, zero on it.
pub open spec fn margin_entry<B: Ballot>(ballots: Seq<B>, i: nat, j: nat) -> int {
    if i < j {
        pair_tally(ballots, i, j)
    } else if j < i {
        -pair_tally(ballots, j, i)
    } else {
        0
    }
}

/// A tally over `k` ballots lies in `-k..=k`.
pub proof fn lemma_pair_tally_bounds<B: Ballot>(ballots: Seq<B>, i: nat, j: nat)
    ensures
        -ballots.len() <= pair_tally(ballots, i, j) <= ballots.len(),
    decreases ballots.len(),
{
    if ballots.len() > 0 {
        lemma_pair_tally_bounds(ballots.drop_last(), i, j);
    }
}

/// For ballots that read a reversed pair as the reversed preference, every
/// margin entry (below the diagonal too) is the number of ballots preferring
/// `i` over `j` minus those preferring `j` over `i`.
pub proof fn lemma_margin_is_pair_tally<B: Ballot>(ballots: Seq<B>, i: nat, j: nat)
    requires
        i != j,
        forall|k: int|
            0 <= k < ballots.len() ==> #[trigger] ballots[k].pref(j, i) == ballots[k].pref(
                i,
                j,
            ).flipped(),
    ensures
        margin_entry(ballots, i, j) == pair_tally(ballots, i, j),
    decreases ballots.len(),
{
    if ballots.len() > 0 {
        let rest = ballots.drop_last();
        assert forall|k: int| 0 <= k < rest.len() implies #[trigger] rest[k].pref(j, i)
            == rest[k].pref(i, j).flipped() by {
            assert(rest[k] == ballots[k]);
        }
        lemma_margin_is_pair_tally(rest, i, j);
        lemma_margin_is_pair_tally(rest, j, i);
        assert(ballots.last() == ballots[ballots.len() - 1]);
    }
}

/// A single ballot counts its own vote for the pair.
pub proof fn lemma_pair_tally_single<B: Ballot>(b: B, i: nat, j: nat)
    ensures
        pair_tally(seq![b], i, j) == vote(b.pref(i, j)),
{
    assert(seq![b].drop_last() =~= Seq::<B>::empty());
    assert(seq![b].last() == b);
    assert(pair_tally(Seq::<B>::empty(), i, j) == 0);
    assert(pair_tally(seq![b], i, j) == pair_tally(seq![b].drop_last(), i, j) + vote(seq![b].last().pref(i, j)));
}

/// The margin of a single ballot that reads a reversed pair as the reversed
/// preference is its vote for the ordered pair `(i, j)`, `i != j`.
pub proof fn lemma_margin_single<B: Ballot>(b: B, i: nat, j: nat)
    requires
        i != j,
        b.pref(j, i) == b.pref(i, j).flipped(),
    ensures
        margin_entry(seq![b], i, j) == vote(b.pref(i, j)),
{
    lemma_pair_tally_single(b, i, j);
    lemma_pair_tally_single(b, j, i);
}

/// Tallies add over concatenated ballot lists.
pub proof fn lemma_pair_tally_concat<B: Ballot>(b1: Seq<B>, b2: Seq<B>, i: nat, j: nat)
    ensures
        pair_tally(b1 + b2, i, j) == pair_tally(b1, i, j) + pair_tally(b2, i, j),
    decreases b2.len(),
{
    if b2.len() == 0 {
        assert(b1 + b2 =~= b1);
    } else {
        lemma_pair_tally_concat(b1, b2.drop_last(), i, j);
        assert((b1 + b2).drop_last() =~= b1 + b2.drop_last());
        assert((b1 + b2).last() == b2.last());
    }
}

/// The margins of two ballot lists taken together are the sums of their
/// margins, whichever list comes first.
pub proof fn lemma_margins_concat<B: Ballot>(b1: Seq<B>, b2: Seq<B>, i: nat, j: nat)
    ensures
        margin_entry(b1 + b2, i, j) == margin_entry(b1, i, j) + margin_entry(b2, i, j),
        margin_entry(b1 + b2, i, j) == margin_entry(b2 + b1, i, j),
{
    lemma_pair_tally_concat(b1, b2, i, j);
    lemma_pair_tally_concat(b1, b2, j, i);
    lemma_pair_tally_concat(b2, b1, i, j);
    lemma_pair_tally_concat(b2, b1, j, i);
}

/// A collection of ballots over the same set of candidates.
#[derive(Debug)]
pub struct PreferenceProfile<B: Ballot> {
    n: usize,
    ballots: Vec<B>,
}

impl<B: Ballot> PreferenceProfile<B> {
    #[verifier::type_invariant]
    spec fn inv(self) -> bool {
        forall|k: int| 0 <= k < self.ballots@.len() ==> #[trigger] self.ballots@[k].candidate_count() == self.n
    }

    /// Number of candidates, as the contracts see it.
    pub closed spec fn count(&self) -> nat {
        self.n as nat
    }

    /// The ballots, as the contracts see them.
    pub closed spec fn ballots_view(&self) -> Seq<B> {
        self.ballots@
    }

    /// A profile of the given ballots, over the candidate count of the first
    /// (zero for no ballots).
    ///
    /// Gives `InconsistentCandidateCount` exactly when two ballots disagree on
    /// the number of candidates.
    pub fn try_new(ballots: Vec<B>) -> (r: Result<PreferenceProfile<B>, Error>)
        ensures
            r is Ok <==> forall|k: int|
                0 <= k < ballots@.len() ==> #[trigger] ballots@[k].candidate_count()
                    == ballots@[0].candidate_count(),
            r matches Ok(p) ==> {
                &&& p.ballots_view() == ballots@
                &&& p.count() == (if ballots@.len() == 0 {
                    0
                } else {
                    ballots@[0].candidate_count()
                })
                &&& forall|k: int| 0 <= k < ballots@.len() ==> #[trigger] ballots@[k].candidate_count() == p.count()
            },
            r matches Err(e) ==> e == Error::InconsistentCandidateCount,
    {
        let n = if ballots.len() > 0 {
            ballots[0].n_candidates()
        } else {
            0
        };
        let mut k: usize = 0;
        while k < ballots.len()
            invariant
                k <= ballots@.len(),
                ballots@.len() > 0 ==> n == ballots@[0].candidate_count(),
                forall|m: int| 0 <= m < k ==> #[trigger] ballots@[m].candidate_count() == n,
            decreases ballots@.len() - k,
        {
            if ballots[k].n_candidates() != n {
                return Err(Error::InconsistentCandidateCount);
            }
            k += 1;
        }
        Ok(PreferenceProfile { n, ballots })
    }

    /// Number of candidates in the election.
    pub fn n_candidates(&self) -> (r: usize)
        ensures
            r == self.count(),
    {
        self.n
    }

    /// The ballots.
    pub fn ballots(&self) -> (r: &[B])
        ensures
            r@ == self.ballots_view(),
            forall|k: int| 0 <= k < r@.len() ==> #[trigger] r@[k].candidate_count() == self.count(),
    {
        proof {
            use_type_invariant(self);
        }
        self.ballots.as_slice()
    }

    /// The pairwise margins of all ballots: entry `(i, j)`, `i < j`, counts
    /// the ballots preferring `i` over `j` minus those preferring `j` over
    /// `i`, and entry `(j, i)` is its negation.
    pub fn tally_margins(&self) -> (r: MarginMatrix)
        requires
            forall|k: int| 0 <= k < self.ballots_view().len() ==> #[trigger] self.ballots_view()[k].well_formed(),
            self.ballots_view().len() <= i64::MAX,
        ensures
            r@.len() == self.count(),
            is_skew_symmetric(r@),
            forall|i: int, j: int|
                0 <= i < self.count() && 0 <= j < self.count() ==> #[trigger] r@[i][j] == margin_entry(
                    self.ballots_view(),
                    i as nat,
                    j as nat,
                ),
    {
        proof {
            use_type_invariant(self);
        }
        let n = self.n;
        let mut margins = zero_matrix(n);
        let pairs = unordered_pairs(n);
        let mut k: usize = 0;
        while k < self.ballots.len()
            invariant
                k <= self.ballots@.len(),
                self.ballots@.len() <= i64::MAX,
                n == self.n,
                pairs@.len() == pair_count(n as int),
                forall|p: int|
                    0 <= p < pairs@.len() ==> #[trigger] pairs@[p].0 < pairs@[p].1 < n && pair_slot(
                        pairs@[p].0 as int,
                        pairs@[p].1 as int,
                        n as int,
                    ) == p,
                forall|q: int| 0 <= q < self.ballots@.len() ==> #[trigger] self.ballots@[q].well_formed(),
                forall|q: int| 0 <= q < self.ballots@.len() ==> #[trigger] self.ballots@[q].candidate_count() == n,
                margins@.len() == n,
                forall|a: int| 0 <= a < n ==> #[trigger] margins@[a]@.len() == n,
                forall|a: int, b: int|
                    0 <= a < n && 0 <= b < n ==> #[trigger] margins@[a]@[b] == margin_entry(
                        self.ballots@.take(k as int),
                        a as nat,
                        b as nat,
                    ),
            decreases self.ballots@.len() - k,
        {
            let ballot = &self.ballots[k];
            let ghost done = self.ballots@.take(k as int);
            let ghost next = self.ballots@.take(k as int + 1);
            proof {
                assert(next.drop_last() =~= done);
                assert(next.last() == *ballot);
                assert forall|a: int, b: int| 0 <= a < n && 0 <= b < n implies #[trigger] margins@[a]@[b]
                    == margin_entry(
                    if (a < b && pair_slot(a, b, n as int) < 0) || (b < a && pair_slot(b, a, n as int) < 0) {
                        next
                    } else {
                        done
                    },
                    a as nat,
                    b as nat,
                ) by {
                    if a < b {
                        lemma_pair_slot_bounds(a, b, n as int);
                    } else if b < a {
                        lemma_pair_slot_bounds(b, a, n as int);
                    }
                }
            }
            let mut p: usize = 0;
            while p < pairs.len()
                invariant
                    k < self.ballots@.len(),
                    self.ballots@.len() <= i64::MAX,
                    n == self.n,
                    pairs@.len() == pair_count(n as int),
                    forall|q: int|
                        0 <= q < pairs@.len() ==> #[trigger] pairs@[q].0 < pairs@[q].1 < n && pair_slot(
                            pairs@[q].0 as int,
                            pairs@[q].1 as int,
                            n as int,
                        ) == q,
                    *ballot == self.ballots@[k as int],
                    ballot.well_formed(),
                    ballot.candidate_count() == n,
                    done == self.ballots@.take(k as int),
                    next == self.ballots@.take(k as int + 1),
                    next.drop_last() == done,
                    next.last() == *ballot,
                    p <= pairs@.len(),
                    margins@.len() == n,
                    forall|a: int| 0 <= a < n ==> #[trigger] margins@[a]@.len() == n,
                    forall|a: int, b: int|
                        0 <= a < n && 0 <= b < n ==> #[trigger] margins@[a]@[b] == margin_entry(
                            if (a < b && pair_slot(a, b, n as int) < p) || (b < a && pair_slot(b, a, n as int) < p) {
                                next
                            } else {
                                done
                            },
                            a as nat,
                            b as nat,
                        ),
                decreases pairs@.len() - p,
            {
                let (i, j) = pairs[p];
                proof {
                    lemma_pair_tally_bounds(done, i as nat, j as nat);
                    assert(done.len() == k);
                    assert forall|a: int, b: int| 0 <= a < b < n && pair_slot(a, b, n as int) == p implies a == i
                        && b == j by {
                        lemma_pair_slot_injective(a, b, i as int, j as int, n as int);
                    }
                }
                match ballot.preference(Candidate(i), Candidate(j)) {
                    PairPreference::Left => {
                        add_to(&mut margins, i, j, 1);
                        add_to(&mut margins, j, i, -1);
                    },
                    PairPreference::Right => {
                        add_to(&mut margins, i, j, -1);
                        add_to(&mut margins, j, i, 1);
                    },
                    PairPreference::Abstain => {},
                }
                p += 1;
            }
            proof {
                assert forall|a: int, b: int| 0 <= a < n && 0 <= b < n implies #[trigger] margins@[a]@[b]
                    == margin_entry(next, a as nat, b as nat) by {
                    if a < b {
                        lemma_pair_slot_bounds(a, b, n as int);
                    } else if b < a {
                        lemma_pair_slot_bounds(b, a, n as int);
                    }
                }
            }
            k += 1;
            proof {
                assert(next == self.ballots@.take(k as int));
            }
        }
        proof {
            assert(self.ballots@.take(self.ballots@.len() as int) =~= self.ballots@);
            assert forall|a: int, b: int| 0 <= a < n && 0 <= b < n implies #[trigger] rows_view(
                margins@,
            )[a][b] == -rows_view(margins@)[b][a] by {
                assert(rows_view(margins@)[a] == margins@[a]@);
                assert(rows_view(margins@)[b] == margins@[b]@);
            }
            assert forall|a: int| 0 <= a < n implies #[trigger] rows_view(margins@)[a].len() == n by {
                assert(rows_view(margins@)[a] == margins@[a]@);
            }
        }
        let r = MarginMatrix(margins);
        proof {
            assert forall|a: int, b: int| 0 <= a < n && 0 <= b < n implies #[trigger] r@[a][b]
                == margin_entry(self.ballots@, a as nat, b as nat) by {
                assert(r@[a] == margins@[a]@);
            }
        }
        r
    }
}

/// All unordered pairs `(i, j)` with `i < j < n`, in lexicographic order:
/// position `p` holds the pair whose slot is `p`.
fn unordered_pairs(n: usize) -> (r: Vec<(usize, usize)>)
    ensures
        r@.len() == pair_count(n as int),
        forall|p: int|
            0 <= p < r@.len() ==> #[trigger] r@[p].0 < r@[p].1 < n && pair_slot(r@[p].0 as int, r@[p].1 as int, n as int)
                == p,
{
    let mut r: Vec<(usize, usize)> = Vec::new();
    let mut i: usize = 0;
    while i < n
        invariant
            i <= n,
            r@.len() == row_start(i as int, n as int),
            forall|p: int|
                0 <= p < r@.len() ==> #[trigger] r@[p].0 < r@[p].1 < n && pair_slot(
                    r@[p].0 as int,
                    r@[p].1 as int,
                    n as int,
                ) == p,
        decreases n - i,
    {
        let mut j: usize = i + 1;
        while j < n
            invariant
                i < n,
                i + 1 <= j <= n,
                r@.len() == row_start(i as int, n as int) + (j - i - 1),
                forall|p: int|
                    0 <= p < r@.len() ==> #[trigger] r@[p].0 < r@[p].1 < n && pair_slot(
                        r@[p].0 as int,
                        r@[p].1 as int,
                        n as int,
                    ) == p,
            decreases n - j,
        {
            r.push((i, j));
            j += 1;
        }
        proof {
            lemma_row_start_step(i as int, n as int);
        }
        i += 1;
    }
    proof {
        if n >= 1 {
            lemma_row_start_step(n - 1, n as int);
            lemma_row_start_last(n as int);
        }
    }
    r
}

/// An `n × n` matrix of zeros.
pub(crate) fn zero_matrix(n: usize) -> (r: Vec<Vec<i64>>)
    ensures
        r@.len() == n,
        forall|a: int| 0 <= a < n ==> #[trigger] r@[a]@.len() == n,
        forall|a: int, b: int| 0 <= a < n && 0 <= b < n ==> #[trigger] r@[a]@[b] == 0,
{
    let mut r: Vec<Vec<i64>> = Vec::new();
    let mut i: usize = 0;
    while i < n
        invariant
            i <= n,
            r@.len() == i,
            forall|a: int| 0 <= a < i ==> #[trigger] r@[a]@.len() == n,
            forall|a: int, b: int| 0 <= a < i && 0 <= b < n ==> #[trigger] r@[a]@[b] == 0,
        decreases n - i,
    {
        let mut row: Vec<i64> = Vec::new();
        let mut j: usize = 0;
        while j < n
            invariant
                j <= n,
                row@.len() == j,
                forall|b: int| 0 <= b < j ==> #[trigger] row@[b] == 0,
            decreases n - j,
        {
            row.push(0);
            j += 1;
        }
        r.push(row);
        i += 1;
    }
    r
}

/// Adds `delta` to entry `(i, j)`.
pub(crate) fn add_to(m: &mut Vec<Vec<i64>>, i: usize, j: usize, delta: i64)
    requires
        i < old(m)@.len(),
        j < old(m)@[i as int]@.len(),
        i64::MIN <= old(m)@[i as int]@[j as int] + delta <= i64::MAX,
    ensures
        final(m)@.len() == old(m)@.len(),
        forall|a: int| 0 <= a < old(m)@.len() && a != i ==> #[trigger] final(m)@[a] == old(m)@[a],
        final(m)@[i as int]@ == old(m)@[i as int]@.update(j as int, (old(m)@[i as int]@[j as int] + delta) as i64),
{
    m[i][j] = m[i][j] + delta;
}

} // verus!
