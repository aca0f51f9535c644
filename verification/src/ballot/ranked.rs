//! Ranked ballot: candidates listed from most to least preferred.
use vstd::prelude::*;

use crate::ballot::{Ballot, PairPreference};
use crate::error::Error;
use crate::profile::Candidate;

verus! {

/// A ballot that ranks candidates from most preferred to least preferred.
///
/// Candidates left out of a partial ranking abstain against every other
/// candidate.
#[derive(Debug, Clone, PartialEq, Eq)]
pub struct RankedBallot {
    n: usize,
    ranking: Vec<Candidate>,
    unranked: Vec<Candidate>,
}

/// `ranking[k]` is valid against the entries before it: in range and not a
/// repeat.
pub open spec fn ranked_entry_ok(ranking: Seq<Candidate>, k: int, n: int) -> bool {
    &&& ranking[k].0 < n
    &&& !ranking.take(k).contains(ranking[k])
}

/// All entries before `k` are valid.
pub open spec fn ranked_prefix_ok(ranking: Seq<Candidate>, k: int, n: int) -> bool {
    forall|m: int| 0 <= m < k ==> #[trigger] ranked_entry_ok(ranking, m, n)
}

/// The error that the first invalid entry `c` causes.
pub open spec fn ranked_rejection(ranking: Seq<Candidate>, k: int, n: usize) -> Error {
    if ranking[k].0 >= n {
        Error::InvalidCandidate(ranking[k], n)
    } else {
        Error::DuplicateCandidate(ranking[k])
    }
}

/// `s` lists, in strictly increasing order, exactly the candidates of `0..n`
/// that `ranking` leaves out.
pub open spec fn lists_unranked(s: Seq<Candidate>, ranking: Seq<Candidate>, n: int) -> bool {
    &&& forall|a: int, b: int| 0 <= a < b < s.len() ==> s[a].0 < s[b].0
    &&& forall|c: Candidate| s.contains(c) <==> (c.0 < n && !ranking.contains(c))
}

/// The preference that a ranking with no repeats gives the ordered pair
/// `(i, j)`: the earlier of two ranked candidates is preferred; a pair with an
/// unranked candidate abstains.
pub open spec fn ranked_pref(ranking: Seq<Candidate>, i: Candidate, j: Candidate) -> PairPreference {
    if ranking.contains(i) && ranking.contains(j) {
        if ranking.index_of(i) < ranking.index_of(j) {
            PairPreference::Left
        } else if ranking.index_of(i) > ranking.index_of(j) {
            PairPreference::Right
        } else {
            PairPreference::Abstain
        }
    } else {
        PairPreference::Abstain
    }
}

/// What `RankedBallot::partial(ranking, n)` returns: a ballot exactly when
/// every entry is valid; otherwise the error of the first invalid entry.
pub open spec fn partial_outcome(ranking: Seq<Candidate>, n: usize, r: Result<RankedBallot, Error>) -> bool {
    &&& r is Ok <==> ranked_prefix_ok(ranking, ranking.len() as int, n as int)
    &&& r matches Ok(b) ==> b.wf() && b.count() == n && b.ranking_view() == ranking && lists_unranked(
        b.unranked_view(),
        ranking,
        n as int,
    )
    &&& r matches Err(e) ==> exists|k: int|
        0 <= k < ranking.len() && ranked_prefix_ok(ranking, k, n as int) && !ranked_entry_ok(
            ranking,
            k,
            n as int,
        ) && e == #[trigger] ranked_rejection(ranking, k, n)
}

impl RankedBallot {
    /// The candidate count.
    pub closed spec fn count(&self) -> nat {
        self.n as nat
    }

    /// The ranking, most preferred first.
    pub closed spec fn ranking_view(&self) -> Seq<Candidate> {
        self.ranking@
    }

    /// The candidates left out of the ranking, in increasing order.
    pub closed spec fn unranked_view(&self) -> Seq<Candidate> {
        self.unranked@
    }

    /// The ranking holds candidates of `0..n` without repeats, and the
    /// unranked list holds the others.
    pub closed spec fn wf(&self) -> bool {
        &&& ranked_prefix_ok(self.ranking@, self.ranking@.len() as int, self.n as int)
        &&& lists_unranked(self.unranked@, self.ranking@, self.n as int)
    }

    /// A well-formed ballot ranks candidates of `0..n` without repeats and
    /// lists the others, in increasing order, as unranked.
    pub proof fn lemma_wf_lists(&self)
        requires
            self.wf(),
        ensures
            ranked_prefix_ok(self.ranking_view(), self.ranking_view().len() as int, self.count() as int),
            lists_unranked(self.unranked_view(), self.ranking_view(), self.count() as int),
    {
    }

    /// A ballot that ranks all `n` candidates; `ranking` must list each of
    /// `0..n` once.
    ///
    /// A ranking whose length is not `n` gives `InvalidRankingLength`; the
    /// rest is checked as by [`partial`](RankedBallot::partial).
    pub fn total(ranking: &[Candidate], n: usize) -> (r: Result<RankedBallot, Error>)
        ensures
            ranking@.len() != n ==> r == Err::<RankedBallot, Error>(
                Error::InvalidRankingLength(ranking@.len() as usize, n),
            ),
            ranking@.len() == n ==> partial_outcome(ranking@, n, r),
            r matches Ok(b) ==> b.wf() && b.count() == n && b.ranking_view() == ranking@
                && b.unranked_view().len() == 0,
    {
        if ranking.len() != n {
            return Err(Error::InvalidRankingLength(ranking.len(), n));
        }
        let r = Self::partial(ranking, n);
        proof {
            if let Ok(b) = &r {
                if b.unranked@.len() > 0 {
                    let c = b.unranked@[0];
                    assert(b.unranked@.contains(c));
                    lemma_full_ranking_covers(ranking@, n as int, c);
                }
            }
        }
        r
    }

    /// A ballot that ranks some of the `n` candidates; the others abstain.
    ///
    /// The first entry outside `0..n` gives `InvalidCandidate`, the first
    /// repeated entry gives `DuplicateCandidate`.
    pub fn partial(ranking: &[Candidate], n: usize) -> (r: Result<RankedBallot, Error>)
        ensures
            partial_outcome(ranking@, n, r),
    {
        let mut seen: Vec<bool> = vec![false; n];
        let mut k: usize = 0;
        while k < ranking.len()
            invariant
                k <= ranking@.len(),
                seen@.len() == n,
                ranked_prefix_ok(ranking@, k as int, n as int),
                forall|c: int|
                    0 <= c < n ==> (#[trigger] seen@[c] <==> ranking@.take(k as int).contains(
                        Candidate(c as usize),
                    )),
            decreases ranking@.len() - k,
        {
            let c = ranking[k];
            if c.0 >= n {
                proof {
                    assert(!ranked_entry_ok(ranking@, k as int, n as int));
                    assert(ranked_rejection(ranking@, k as int, n) == Error::InvalidCandidate(c, n));
                }
                return Err(Error::InvalidCandidate(c, n));
            }
            if seen[c.0] {
                proof {
                    assert(ranking@.take(k as int).contains(Candidate(c.0)));
                    assert(!ranked_entry_ok(ranking@, k as int, n as int));
                    assert(ranked_rejection(ranking@, k as int, n) == Error::DuplicateCandidate(c));
                }
                return Err(Error::DuplicateCandidate(c));
            }
            seen.set(c.0, true);
            proof {
                let next = ranking@.take(k as int + 1);
                assert(next =~= ranking@.take(k as int).push(c));
                assert(!ranking@.take(k as int).contains(c));
                assert forall|m: int| 0 <= m < k + 1 implies #[trigger] ranked_entry_ok(
                    ranking@,
                    m,
                    n as int,
                ) by {
                    if m < k {
                        assert(ranked_prefix_ok(ranking@, k as int, n as int));
                    }
                }
                assert(next[k as int] == c);
                assert forall|d: int| 0 <= d < n implies (#[trigger] seen@[d] <==> next.contains(
                    Candidate(d as usize),
                )) by {
                    if next.contains(Candidate(d as usize)) {
                        let w = choose|w: int| 0 <= w < next.len() && next[w] == Candidate(d as usize);
                        if w < k {
                            assert(ranking@.take(k as int)[w] == Candidate(d as usize));
                        }
                    }
                    if ranking@.take(k as int).contains(Candidate(d as usize)) {
                        let w = choose|w: int|
                            0 <= w < k && ranking@.take(k as int)[w] == Candidate(d as usize);
                        assert(next[w] == Candidate(d as usize));
                    }
                }
            }
            k += 1;
        }
        assert(ranking@.take(ranking@.len() as int) =~= ranking@);
        let mut unranked: Vec<Candidate> = Vec::new();
        let mut c: usize = 0;
        while c < n
            invariant
                c <= n,
                seen@.len() == n,
                forall|d: int|
                    0 <= d < n ==> (#[trigger] seen@[d] <==> ranking@.contains(Candidate(d as usize))),
                forall|a: int, b: int| 0 <= a < b < unranked@.len() ==> unranked@[a].0 < unranked@[b].0,
                forall|a: int| 0 <= a < unranked@.len() ==> #[trigger] unranked@[a].0 < c,
                forall|d: Candidate|
                    unranked@.contains(d) <==> (d.0 < c && !ranking@.contains(d)),
            decreases n - c,
        {
            let ghost prev = unranked@;
            if !seen[c] {
                unranked.push(Candidate(c));
            }
            proof {
                assert forall|d: Candidate| unranked@.contains(d) <==> (d.0 < c + 1
                    && !ranking@.contains(d)) by {
                    if !seen@[c as int] {
                        vstd::seq_lib::lemma_seq_contains_after_push(prev, Candidate(c), d);
                    }
                    if prev.contains(d) {
                        let w = choose|w: int| 0 <= w < prev.len() && prev[w] == d;
                        assert(prev[w].0 < c);
                    }
                }
            }
            c += 1;
        }
        let r = RankedBallot { n, ranking: copy_candidates(ranking), unranked };
        Ok(r)
    }

    /// Candidates in rank order, most preferred first.
    pub fn ranking(&self) -> (r: &[Candidate])
        ensures
            r@ == self.ranking_view(),
    {
        self.ranking.as_slice()
    }

    /// Candidates left out of the ranking, in increasing order.
    pub fn unranked(&self) -> (r: &[Candidate])
        ensures
            r@ == self.unranked_view(),
    {
        self.unranked.as_slice()
    }
}

/// A valid ranking has no repeats.
proof fn lemma_ranking_distinct(ranking: Seq<Candidate>, n: int)
    requires
        ranked_prefix_ok(ranking, ranking.len() as int, n),
    ensures
        forall|a: int, b: int|
            0 <= a < ranking.len() && 0 <= b < ranking.len() && a != b ==> ranking[a] != ranking[b],
{
    assert forall|a: int, b: int|
        0 <= a < ranking.len() && 0 <= b < ranking.len() && a != b implies ranking[a]
        != ranking[b] by {
        let (lo, hi) = if a < b {
            (a, b)
        } else {
            (b, a)
        };
        assert(ranked_entry_ok(ranking, hi, n));
        assert(ranking.take(hi)[lo] == ranking[lo]);
    }
}

/// A ranking of `n` entries from `0..n` without repeats names every
/// candidate of `0..n`.
proof fn lemma_full_ranking_covers(ranking: Seq<Candidate>, n: int, c: Candidate)
    requires
        ranking.len() == n,
        ranked_prefix_ok(ranking, n, n),
        c.0 < n,
    ensures
        ranking.contains(c),
{
    let idx = ranking.map_values(|d: Candidate| d.0 as int);
    assert forall|a: int, b: int| 0 <= a < idx.len() && 0 <= b < idx.len() && a != b implies idx[a]
        != idx[b] by {
        let (lo, hi) = if a < b {
            (a, b)
        } else {
            (b, a)
        };
        assert(ranked_entry_ok(ranking, hi, n));
        assert(ranking.take(hi)[lo] == ranking[lo]);
    }
    idx.unique_seq_to_set();
    vstd::set_lib::lemma_int_range(0, n);
    assert forall|v: int| idx.to_set().contains(v) implies vstd::set_lib::set_int_range(0, n).contains(
        v,
    ) by {
        let w = choose|w: int| 0 <= w < idx.len() && idx[w] == v;
        assert(ranked_entry_ok(ranking, w, n));
    }
    vstd::set_lib::lemma_subset_equality(idx.to_set(), vstd::set_lib::set_int_range(0, n));
    assert(vstd::set_lib::set_int_range(0, n).contains(c.0 as int));
    assert(idx.to_set().contains(c.0 as int));
    let w = choose|w: int| 0 <= w < idx.len() && idx[w] == c.0 as int;
    assert(ranking[w] == c);
}

impl Ballot for RankedBallot {
    open spec fn candidate_count(&self) -> nat {
        self.count()
    }

    open spec fn pref(&self, i: nat, j: nat) -> PairPreference {
        ranked_pref(self.ranking_view(), Candidate(i as usize), Candidate(j as usize))
    }

    open spec fn well_formed(&self) -> bool {
        self.wf()
    }

    /// Every pair: a candidate outside the ranking abstains.
    open spec fn accepts(&self, i: nat, j: nat) -> bool {
        true
    }

    fn n_candidates(&self) -> (r: usize) {
        self.n
    }

    fn preference(&self, i: Candidate, j: Candidate) -> (r: PairPreference) {
        let pos_i = position(&self.ranking, i);
        let pos_j = position(&self.ranking, j);
        proof {
            lemma_ranking_distinct(self.ranking@, self.n as int);
            if let Some(p) = pos_i {
                let w = self.ranking@.index_of(i);
                assert(self.ranking@[w] == i);
            }
            if let Some(p) = pos_j {
                let w = self.ranking@.index_of(j);
                assert(self.ranking@[w] == j);
            }
        }
        match (pos_i, pos_j) {
            (Some(pi), Some(pj)) if pi < pj => PairPreference::Left,
            (Some(pi), Some(pj)) if pi > pj => PairPreference::Right,
            _ => PairPreference::Abstain,
        }
    }
}

/// A reversed pair reads as the reversed preference, and a candidate against
/// itself abstains, whatever the ranking.
pub proof fn lemma_ranked_antisymmetric(ranking: Seq<Candidate>, i: Candidate, j: Candidate)
    ensures
        ranked_pref(ranking, j, i) == ranked_pref(ranking, i, j).flipped(),
        ranked_pref(ranking, i, i) == PairPreference::Abstain,
{
}

/// A vector holding the candidates of `s`.
fn copy_candidates(s: &[Candidate]) -> (r: Vec<Candidate>)
    ensures
        r@ == s@,
{
    let mut r: Vec<Candidate> = Vec::new();
    let mut k: usize = 0;
    while k < s.len()
        invariant
            k <= s@.len(),
            r@ == s@.take(k as int),
        decreases s@.len() - k,
    {
        r.push(s[k]);
        k += 1;
        assert(r@ =~= s@.take(k as int));
    }
    assert(s@.take(s@.len() as int) =~= s@);
    r
}

/// Index of the first occurrence of `c` in `s`.
fn position(s: &Vec<Candidate>, c: Candidate) -> (r: Option<usize>)
    ensures
        r is None <==> !s@.contains(c),
        r matches Some(p) ==> p < s@.len() && s@[p as int] == c && forall|q: int|
            0 <= q < p ==> s@[q] != c,
{
    let mut k: usize = 0;
    while k < s.len()
        invariant
            k <= s@.len(),
            forall|q: int| 0 <= q < k ==> s@[q] != c,
        decreases s@.len() - k,
    {
        if s[k] == c {
            return Some(k);
        }
        k += 1;
    }
    None
}

} // verus!
