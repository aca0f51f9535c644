//! Pairwise ballot: explicit preferences for every pair of candidates.
use vstd::prelude::*;

use crate::ballot::{lemma_code_roundtrip, Ballot, PairPreference};
use crate::compact::{
    lemma_pair_slot_bounds, lemma_pair_slot_injective, pair_count, pair_slot, CompactBallot,
};
use crate::error::Error;
use crate::profile::Candidate;

pub use crate::compact::num_pairs;

verus! {

/// A ballot that stores an explicit preference for every pair of candidates.
///
/// Cycles within one ballot and abstentions are allowed. Preferences are kept
/// in the bit-packed form of [`CompactBallot`].
#[derive(Debug, Clone)]
pub struct PairwiseBallot {
    n: usize,
    inner: CompactBallot,
}

/// The preference for the ordered pair `(i, j)` after the entries of
/// `pairs` have been applied in order: the last entry that names the pair
/// decides, read from the side of `i`; `Abstain` where none names it.
pub open spec fn ordered_assignment(
    pairs: Seq<(Candidate, Candidate, PairPreference)>,
    i: int,
    j: int,
) -> PairPreference
    decreases pairs.len(),
{
    if pairs.len() == 0 {
        PairPreference::Abstain
    } else if pairs.last().0.0 == i && pairs.last().1.0 == j {
        pairs.last().2
    } else if pairs.last().0.0 == j && pairs.last().1.0 == i {
        pairs.last().2.flipped()
    } else {
        ordered_assignment(pairs.drop_last(), i, j)
    }
}

/// The preference that a ballot built from `pairs` reports for `(i, j)`.
pub open spec fn assigned_preference(
    pairs: Seq<(Candidate, Candidate, PairPreference)>,
    i: int,
    j: int,
) -> PairPreference {
    if i == j {
        PairPreference::Abstain
    } else {
        ordered_assignment(pairs, i, j)
    }
}

/// Both candidates of the entry lie in `0..n`.
pub open spec fn entry_in_range(e: (Candidate, Candidate, PairPreference), n: int) -> bool {
    e.0.0 < n && e.1.0 < n
}

/// Entry `k` of `pairs` is accepted: its candidates are in range and it does
/// not contradict a preference set by an earlier entry.
pub open spec fn entry_accepted(
    pairs: Seq<(Candidate, Candidate, PairPreference)>,
    k: int,
    n: int,
) -> bool {
    let e = pairs[k];
    let existing = assigned_preference(pairs.take(k), e.0.0 as int, e.1.0 as int);
    entry_in_range(e, n) && (existing == PairPreference::Abstain || existing == e.2)
}

/// All entries before `k` are accepted.
pub open spec fn accepted_before(
    pairs: Seq<(Candidate, Candidate, PairPreference)>,
    k: int,
    n: int,
) -> bool {
    forall|m: int| 0 <= m < k ==> #[trigger] entry_accepted(pairs, m, n)
}

/// The error that the rejected entry `e` causes.
pub open spec fn rejection(e: (Candidate, Candidate, PairPreference), n: usize) -> Error {
    let (lo, hi) = if e.0.0 <= e.1.0 {
        (e.0, e.1)
    } else {
        (e.1, e.0)
    };
    if !entry_in_range(e, n as int) {
        Error::InvalidCandidate(hi, n)
    } else {
        Error::ContradictoryPair(lo, hi)
    }
}

/// The two entries name the same unordered pair of candidates.
pub open spec fn same_pair(e: (Candidate, Candidate, PairPreference), f: (Candidate, Candidate, PairPreference)) -> bool {
    (e.0 == f.0 && e.1 == f.1) || (e.0 == f.1 && e.1 == f.0)
}

/// The preference of entry `f`, read in the order of the candidates of `e`.
pub open spec fn oriented_pref(f: (Candidate, Candidate, PairPreference), e: (Candidate, Candidate, PairPreference)) -> PairPreference {
    if f.0 == e.0 {
        f.2
    } else {
        f.2.flipped()
    }
}

/// The candidate that an entry prefers, if any.
pub open spec fn entry_winner(e: (Candidate, Candidate, PairPreference)) -> Option<Candidate> {
    match e.2 {
        PairPreference::Left => Some(e.0),
        PairPreference::Right => Some(e.1),
        PairPreference::Abstain => None,
    }
}

/// Reading a pair the other way round reads the reversed preference.
pub proof fn lemma_ordered_assignment_flips(pairs: Seq<(Candidate, Candidate, PairPreference)>, i: int, j: int)
    requires
        i != j,
    ensures
        ordered_assignment(pairs, j, i) == ordered_assignment(pairs, i, j).flipped(),
    decreases pairs.len(),
{
    if pairs.len() > 0 {
        lemma_ordered_assignment_flips(pairs.drop_last(), i, j);
        lemma_code_roundtrip(pairs.last().2);
    }
}

/// Once an accepted entry states a preference for a pair, every later
/// accepted entry keeps it: after the first `m` entries the pair still reads
/// that preference.
pub proof fn lemma_preference_persists(pairs: Seq<(Candidate, Candidate, PairPreference)>, n: int, k: int, m: int)
    requires
        0 <= k < m <= pairs.len(),
        accepted_before(pairs, m, n),
        pairs[k].2 != PairPreference::Abstain,
        pairs[k].0 != pairs[k].1,
    ensures
        ordered_assignment(pairs.take(m), pairs[k].0.0 as int, pairs[k].1.0 as int) == pairs[k].2,
    decreases m - k,
{
    let (a, b, p) = (pairs[k].0.0 as int, pairs[k].1.0 as int, pairs[k].2);
    assert(a != b);
    let t = pairs.take(m);
    assert(t.drop_last() =~= pairs.take(m - 1));
    assert(t.last() == pairs[m - 1]);
    if m > k + 1 {
        assert forall|q: int| 0 <= q < m - 1 implies #[trigger] entry_accepted(pairs, q, n) by {
            assert(entry_accepted(pairs, q, n));
        }
        lemma_preference_persists(pairs, n, k, m - 1);
        let e = pairs[m - 1];
        assert(entry_accepted(pairs, m - 1, n));
        if e.0.0 == a && e.1.0 == b {
            assert(assigned_preference(pairs.take(m - 1), a, b) == p);
        } else if e.0.0 == b && e.1.0 == a {
            lemma_ordered_assignment_flips(pairs.take(m - 1), a, b);
            assert(assigned_preference(pairs.take(m - 1), b, a) == p.flipped());
            lemma_code_roundtrip(p);
        }
    }
}

/// Entries that name the same pair never contradict each other in an
/// accepted list: after an entry states a preference, every later entry for
/// that pair states the same preference, read in the same order.
pub proof fn lemma_accepted_entries_agree(pairs: Seq<(Candidate, Candidate, PairPreference)>, n: int, k: int, l: int)
    requires
        0 <= k < l < pairs.len(),
        accepted_before(pairs, pairs.len() as int, n),
        same_pair(pairs[k], pairs[l]),
        pairs[k].2 != PairPreference::Abstain,
        pairs[k].0 != pairs[k].1,
    ensures
        oriented_pref(pairs[l], pairs[k]) == pairs[k].2,
        entry_winner(pairs[l]) == entry_winner(pairs[k]),
{
    let (a, b, p) = (pairs[k].0.0 as int, pairs[k].1.0 as int, pairs[k].2);
    assert forall|q: int| 0 <= q < l implies #[trigger] entry_accepted(pairs, q, n) by {
        assert(entry_accepted(pairs, q, n));
    }
    lemma_preference_persists(pairs, n, k, l);
    assert(entry_accepted(pairs, l, n));
    let e = pairs[l];
    if e.0 == pairs[k].0 {
        assert(assigned_preference(pairs.take(l), a, b) == p);
    } else {
        lemma_ordered_assignment_flips(pairs.take(l), a, b);
        assert(assigned_preference(pairs.take(l), b, a) == p.flipped());
        lemma_code_roundtrip(p);
    }
}

/// After entries applied in order, a pair reads the preference of the last
/// entry that names it, in that entry's order of candidates.
pub proof fn lemma_last_entry_decides(pairs: Seq<(Candidate, Candidate, PairPreference)>, k: int)
    requires
        0 <= k < pairs.len(),
        pairs[k].0 != pairs[k].1,
        forall|l: int| #![trigger pairs[l]] k < l < pairs.len() ==> !same_pair(pairs[l], pairs[k]),
    ensures
        ordered_assignment(pairs, pairs[k].0.0 as int, pairs[k].1.0 as int) == pairs[k].2,
    decreases pairs.len(),
{
    let last = pairs.last();
    assert(pairs[pairs.len() - 1] == last);
    if k < pairs.len() - 1 {
        assert(!same_pair(last, pairs[k]));
        let rest = pairs.drop_last();
        assert(rest[k] == pairs[k]);
        assert forall|l: int| #![trigger rest[l]] k < l < rest.len() implies !same_pair(rest[l], rest[k]) by {
            assert(rest[l] == pairs[l]);
        }
        if last.0.0 == pairs[k].0.0 && last.1.0 == pairs[k].1.0 {
            assert(last.0 == pairs[k].0 && last.1 == pairs[k].1);
        }
        if last.0.0 == pairs[k].1.0 && last.1.0 == pairs[k].0.0 {
            assert(last.0 == pairs[k].1 && last.1 == pairs[k].0);
        }
        lemma_last_entry_decides(rest, k);
    }
}

/// Every entry names candidates of `0..n`, and no entry contradicts an
/// earlier entry that stated a preference for the same pair.
pub open spec fn no_contradiction(pairs: Seq<(Candidate, Candidate, PairPreference)>, n: int) -> bool {
    &&& forall|k: int| 0 <= k < pairs.len() ==> #[trigger] pairs[k].0.0 < n && pairs[k].1.0 < n
    &&& forall|k: int, l: int|
        #![trigger pairs[k], pairs[l]]
        0 <= k < l < pairs.len() && same_pair(pairs[k], pairs[l]) && pairs[k].2 != PairPreference::Abstain
            ==> oriented_pref(pairs[l], pairs[k]) == pairs[k].2
}

/// A pair that reads a preference after some entries reads it because an
/// entry for that pair stated it.
proof fn lemma_assignment_source(s: Seq<(Candidate, Candidate, PairPreference)>, a: Candidate, b: Candidate)
    requires
        a != b,
        ordered_assignment(s, a.0 as int, b.0 as int) != PairPreference::Abstain,
    ensures
        exists|q: int|
            #![trigger s[q]]
            0 <= q < s.len() && s[q].2 != PairPreference::Abstain && ((s[q].0 == a && s[q].1 == b && s[q].2
                == ordered_assignment(s, a.0 as int, b.0 as int)) || (s[q].0 == b && s[q].1 == a && s[q].2.flipped()
                == ordered_assignment(s, a.0 as int, b.0 as int))),
    decreases s.len(),
{
    let last = s.last();
    let q = s.len() - 1;
    assert(s[q] == last);
    if last.0.0 == a.0 && last.1.0 == b.0 {
        assert(last.0 == a && last.1 == b);
    } else if last.0.0 == b.0 && last.1.0 == a.0 {
        assert(last.0 == b && last.1 == a);
        lemma_code_roundtrip(last.2);
    } else {
        lemma_assignment_source(s.drop_last(), a, b);
        let q2 = choose|q2: int|
            #![trigger s.drop_last()[q2]]
            0 <= q2 < s.drop_last().len() && s.drop_last()[q2].2 != PairPreference::Abstain && ((s.drop_last()[q2].0 == a
                && s.drop_last()[q2].1 == b && s.drop_last()[q2].2 == ordered_assignment(s.drop_last(), a.0 as int, b.0 as int))
                || (s.drop_last()[q2].0 == b && s.drop_last()[q2].1 == a && s.drop_last()[q2].2.flipped()
                == ordered_assignment(s.drop_last(), a.0 as int, b.0 as int)));
        assert(s[q2] == s.drop_last()[q2]);
    }
}

/// Entries that never contradict each other are all accepted.
proof fn lemma_consistent_accepted(pairs: Seq<(Candidate, Candidate, PairPreference)>, n: int, m: int)
    requires
        0 <= m <= pairs.len(),
        no_contradiction(pairs, n),
        forall|k: int|
            0 <= k < pairs.len() && accepted_before(pairs, k, n) && entry_in_range(#[trigger] pairs[k], n)
                ==> pairs[k].0.0 != pairs[k].1.0,
    ensures
        accepted_before(pairs, m, n),
    decreases m,
{
    if m > 0 {
        lemma_consistent_accepted(pairs, n, m - 1);
        let e = pairs[m - 1];
        assert(e.0.0 < n && e.1.0 < n);
        assert(entry_in_range(e, n));
        assert(e.0.0 != e.1.0);
        let t = pairs.take(m - 1);
        let existing = assigned_preference(t, e.0.0 as int, e.1.0 as int);
        if existing != PairPreference::Abstain {
            lemma_assignment_source(t, e.0, e.1);
            let q = choose|q: int|
                #![trigger t[q]]
                0 <= q < t.len() && t[q].2 != PairPreference::Abstain && ((t[q].0 == e.0 && t[q].1 == e.1 && t[q].2
                    == ordered_assignment(t, e.0.0 as int, e.1.0 as int)) || (t[q].0 == e.1 && t[q].1 == e.0
                    && t[q].2.flipped() == ordered_assignment(t, e.0.0 as int, e.1.0 as int)));
            assert(t[q] == pairs[q]);
            assert(same_pair(pairs[q], pairs[m - 1]));
            assert(oriented_pref(pairs[m - 1], pairs[q]) == pairs[q].2);
            lemma_code_roundtrip(e.2);
            lemma_code_roundtrip(pairs[q].2);
        }
        assert(entry_accepted(pairs, m - 1, n));
        assert forall|q: int| 0 <= q < m implies #[trigger] entry_accepted(pairs, q, n) by {
            if q < m - 1 {
                assert(accepted_before(pairs, m - 1, n));
            }
        }
    }
}

impl PairwiseBallot {
    /// The storage holds every pair, in the layout that `CompactBallot::new`
    /// picks for the candidate count.
    pub closed spec fn wf(&self) -> bool {
        &&& self.inner.holds_all_pairs(self.n as int)
        &&& self.inner.has_new_shape(self.n as int)
    }

    /// The candidate count.
    pub closed spec fn count(&self) -> nat {
        self.n as nat
    }

    /// The preference for the ordered pair `(i, j)`.
    pub closed spec fn pref_of(&self, i: int, j: int) -> PairPreference {
        self.inner.pref_spec(i, j, self.n as int)
    }

    /// The storage uses a `u32`.
    pub closed spec fn is_tiny(&self) -> bool {
        self.inner is Tiny
    }

    /// The storage uses a bit vector.
    pub closed spec fn is_large(&self) -> bool {
        self.inner is Large
    }

    /// The bit-packed storage.
    pub closed spec fn storage_view(&self) -> CompactBallot {
        self.inner
    }

    /// The bit-packed storage of the preferences.
    pub fn storage(&self) -> (r: &CompactBallot)
        ensures
            *r == self.storage_view(),
    {
        &self.inner
    }

    /// A reversed pair reads as the reversed preference.
    pub proof fn lemma_antisymmetric(&self, i: int, j: int)
        ensures
            self.pref_of(j, i) == self.pref_of(i, j).flipped(),
            self.pref_of(i, i) == PairPreference::Abstain,
    {
    }

    /// A ballot over `n` candidates with every pair set to `Abstain`.
    pub fn new(n: usize) -> (r: PairwiseBallot)
        requires
            n * (if n >= 1 { n - 1 } else { 0 }) <= usize::MAX,
            2 * pair_count(n as int) <= usize::MAX,
        ensures
            r.wf(),
            r.count() == n,
            2 * pair_count(n as int) <= 32 ==> r.is_tiny(),
            64 < 2 * pair_count(n as int) ==> r.is_large(),
            forall|i: int, j: int|
                0 <= i < n && 0 <= j < n ==> #[trigger] r.pref_of(i, j) == PairPreference::Abstain,
    {
        let r = PairwiseBallot { n, inner: CompactBallot::new(n) };
        proof {
            assert forall|i: int, j: int| 0 <= i < n && 0 <= j < n implies #[trigger] r.pref_of(
                i,
                j,
            ) == PairPreference::Abstain by {
                if i < j {
                    lemma_pair_slot_bounds(i, j, n as int);
                } else if j < i {
                    lemma_pair_slot_bounds(j, i, n as int);
                }
            }
        }
        r
    }

    /// Sets the preference for the ordered pair `(i, j)`: afterwards `(i, j)`
    /// reads `pref`, `(j, i)` reads its reverse, and every other pair is
    /// unchanged.
    pub fn set_preference(&mut self, i: Candidate, j: Candidate, pref: PairPreference)
        requires
            old(self).wf(),
            i.0 != j.0,
            i.0 < old(self).count(),
            j.0 < old(self).count(),
        ensures
            final(self).wf(),
            final(self).count() == old(self).count(),
            final(self).is_tiny() == old(self).is_tiny(),
            final(self).is_large() == old(self).is_large(),
            final(self).pref_of(i.0 as int, j.0 as int) == pref,
            final(self).pref_of(j.0 as int, i.0 as int) == pref.flipped(),
            forall|a: int, b: int|
                0 <= a < old(self).count() && 0 <= b < old(self).count() && !(a == i.0 && b
                    == j.0) && !(a == j.0 && b == i.0) ==> #[trigger] final(self).pref_of(a, b)
                    == old(self).pref_of(a, b),
    {
        let ghost before = *self;
        let (left, right, swap) = if i.0 < j.0 {
            (i.0, j.0, false)
        } else {
            (j.0, i.0, true)
        };
        let pref = if swap {
            pref.reversed()
        } else {
            pref
        };
        proof {
            lemma_pair_slot_bounds(left as int, right as int, self.n as int);
        }
        self.inner.set_preference(left, right, self.n, pref);
        proof {
            lemma_code_roundtrip(pref);
            let n = self.n as int;
            assert forall|a: int, b: int|
                0 <= a < n && 0 <= b < n && !(a == i.0 && b == j.0) && !(a == j.0 && b
                    == i.0) implies #[trigger] self.pref_of(a, b) == before.pref_of(a, b) by {
                if a < b {
                    lemma_pair_slot_bounds(a, b, n);
                    if pair_slot(a, b, n) == pair_slot(left as int, right as int, n) {
                        lemma_pair_slot_injective(a, b, left as int, right as int, n);
                    }
                } else if b < a {
                    lemma_pair_slot_bounds(b, a, n);
                    if pair_slot(b, a, n) == pair_slot(left as int, right as int, n) {
                        lemma_pair_slot_injective(b, a, left as int, right as int, n);
                    }
                }
            }
        }
    }

    /// A ballot over `n` candidates built from the entries `(i, j, pref)`,
    /// applied in order as by [`set_preference`](PairwiseBallot::set_preference).
    ///
    /// The first entry that names a candidate outside `0..n` gives
    /// `InvalidCandidate` with the larger of its two candidates; the first
    /// entry that contradicts a preference set by an earlier entry gives
    /// `ContradictoryPair` with its two candidates in increasing order.
    pub fn from_pairs(pairs: &[(Candidate, Candidate, PairPreference)], n: usize) -> (r: Result<
        PairwiseBallot,
        Error,
    >)
        requires
            n * (if n >= 1 { n - 1 } else { 0 }) <= usize::MAX,
            2 * pair_count(n as int) <= usize::MAX,
            forall|k: int|
                0 <= k < pairs@.len() && accepted_before(pairs@, k, n as int) && entry_in_range(
                    #[trigger] pairs@[k],
                    n as int,
                ) ==> pairs@[k].0.0 != pairs@[k].1.0,
        ensures
            r is Ok <==> accepted_before(pairs@, pairs@.len() as int, n as int),
            r matches Ok(b) ==> {
                &&& b.wf()
                &&& b.count() == n
                &&& forall|i: int, j: int|
                    0 <= i < n && 0 <= j < n ==> #[trigger] b.pref_of(i, j) == assigned_preference(
                        pairs@,
                        i,
                        j,
                    )
            },
            r matches Err(e) ==> exists|k: int|
                0 <= k < pairs@.len() && accepted_before(pairs@, k, n as int) && !entry_accepted(
                    pairs@,
                    k,
                    n as int,
                ) && e == rejection(#[trigger] pairs@[k], n),
            forall|k: int, l: int|
                #![trigger pairs@[k], pairs@[l]]
                0 <= k < l < pairs@.len() && same_pair(pairs@[k], pairs@[l]) && pairs@[k].2
                    != PairPreference::Abstain && oriented_pref(pairs@[l], pairs@[k]) != pairs@[k].2 ==> r is Err,
            forall|k: int, l: int|
                #![trigger pairs@[k], pairs@[l]]
                0 <= k < l < pairs@.len() && same_pair(pairs@[k], pairs@[l]) && entry_winner(pairs@[k]) is Some
                    && entry_winner(pairs@[l]) is Some && entry_winner(pairs@[k]) != entry_winner(pairs@[l]) ==> r is Err,
            no_contradiction(pairs@, n as int) ==> r is Ok,
            r matches Ok(b) ==> forall|k: int|
                0 <= k < pairs@.len() && (forall|l: int|
                    #![trigger pairs@[l]]
                    k < l < pairs@.len() ==> !same_pair(pairs@[l], pairs@[k])) ==> #[trigger] b.pref_of(
                    pairs@[k].0.0 as int,
                    pairs@[k].1.0 as int,
                ) == pairs@[k].2,
    {
        let mut ballot = Self::new(n);
        proof {
            assert forall|a: int, b: int| 0 <= a < n && 0 <= b < n implies #[trigger] ballot.pref_of(
                a,
                b,
            ) == assigned_preference(pairs@.take(0), a, b) by {}
        }
        let mut k: usize = 0;
        while k < pairs.len()
            invariant
                k <= pairs@.len(),
                ballot.wf(),
                ballot.count() == n,
                accepted_before(pairs@, k as int, n as int),
                forall|m: int|
                    0 <= m < pairs@.len() && accepted_before(pairs@, m, n as int) && entry_in_range(
                        #[trigger] pairs@[m],
                        n as int,
                    ) ==> pairs@[m].0.0 != pairs@[m].1.0,
                forall|a: int, b: int|
                    0 <= a < n && 0 <= b < n ==> #[trigger] ballot.pref_of(a, b)
                        == assigned_preference(pairs@.take(k as int), a, b),
            decreases pairs@.len() - k,
        {
            let (i, j, pref) = pairs[k];
            let (lo, hi) = if i.0 <= j.0 {
                (i, j)
            } else {
                (j, i)
            };
            if i.0 >= n || j.0 >= n {
                proof {
                    assert(!entry_accepted(pairs@, k as int, n as int));
                    if no_contradiction(pairs@, n as int) {
                        lemma_consistent_accepted(pairs@, n as int, pairs@.len() as int);
                    }
                }
                return Err(Error::InvalidCandidate(hi, n));
            }
            let existing = ballot.preference(i, j);
            if existing != PairPreference::Abstain && existing != pref {
                proof {
                    assert(!entry_accepted(pairs@, k as int, n as int));
                    if no_contradiction(pairs@, n as int) {
                        lemma_consistent_accepted(pairs@, n as int, pairs@.len() as int);
                    }
                }
                return Err(Error::ContradictoryPair(lo, hi));
            }
            let ghost before = ballot;
            ballot.set_preference(i, j, pref);
            proof {
                let prefix = pairs@.take(k as int + 1);
                assert(prefix.drop_last() =~= pairs@.take(k as int));
                assert(prefix.last() == pairs@[k as int]);
                assert(entry_accepted(pairs@, k as int, n as int));
                assert forall|m: int| 0 <= m < k + 1 implies #[trigger] entry_accepted(
                    pairs@,
                    m,
                    n as int,
                ) by {
                    if m < k {
                        assert(accepted_before(pairs@, k as int, n as int));
                    }
                }
                assert forall|a: int, b: int| 0 <= a < n && 0 <= b < n implies #[trigger] ballot.pref_of(
                    a,
                    b,
                ) == assigned_preference(prefix, a, b) by {
                    if a == b {
                        before.lemma_antisymmetric(a, b);
                        ballot.lemma_antisymmetric(a, b);
                    } else if !(a == i.0 && b == j.0) && !(a == j.0 && b == i.0) {
                        assert(before.pref_of(a, b) == assigned_preference(
                            pairs@.take(k as int),
                            a,
                            b,
                        ));
                    }
                }
            }
            k += 1;
        }
        assert(pairs@.take(pairs@.len() as int) =~= pairs@);
        proof {
            assert forall|k: int, l: int|
                #![trigger pairs@[k], pairs@[l]]
                0 <= k < l < pairs@.len() && same_pair(pairs@[k], pairs@[l]) && pairs@[k].2
                    != PairPreference::Abstain implies oriented_pref(pairs@[l], pairs@[k]) == pairs@[k].2
                && entry_winner(pairs@[l]) == entry_winner(pairs@[k]) by {
                assert(entry_accepted(pairs@, k, n as int));
                assert(accepted_before(pairs@, k, n as int));
                lemma_accepted_entries_agree(pairs@, n as int, k, l);
            }
            assert forall|k: int|
                0 <= k < pairs@.len() && (forall|l: int|
                    #![trigger pairs@[l]]
                    k < l < pairs@.len() ==> !same_pair(pairs@[l], pairs@[k])) implies #[trigger] ballot.pref_of(
                pairs@[k].0.0 as int,
                pairs@[k].1.0 as int,
            ) == pairs@[k].2 by {
                assert(entry_accepted(pairs@, k, n as int));
                assert(accepted_before(pairs@, k, n as int));
                lemma_last_entry_decides(pairs@, k);
            }
        }
        Ok(ballot)
    }
}

impl Ballot for PairwiseBallot {
    open spec fn candidate_count(&self) -> nat {
        self.count()
    }

    open spec fn pref(&self, i: nat, j: nat) -> PairPreference {
        self.pref_of(i as int, j as int)
    }

    open spec fn well_formed(&self) -> bool {
        self.wf()
    }

    /// No pair outside `0..n`.
    open spec fn accepts(&self, i: nat, j: nat) -> bool {
        false
    }

    fn n_candidates(&self) -> (r: usize) {
        self.n
    }

    fn preference(&self, i: Candidate, j: Candidate) -> (r: PairPreference) {
        proof {
            if i.0 < j.0 {
                lemma_pair_slot_bounds(i.0 as int, j.0 as int, self.n as int);
            } else if j.0 < i.0 {
                lemma_pair_slot_bounds(j.0 as int, i.0 as int, self.n as int);
            }
        }
        self.inner.preference(i.0, j.0, self.n)
    }
}

} // verus!
