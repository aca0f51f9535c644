//! Bit-packed storage of one voter's pairwise preferences.
//!
//! The `n * (n - 1) / 2` unordered pairs `(i, j)` with `i < j < n` are laid out
//! row by row; pair `(i, j)` occupies slot `pair_index(i, j, n)`, and each slot
//! holds a two-bit code.
use vstd::prelude::*;

use crate::bitstore::{bit_contents, BitStorage};

pub use crate::ballot::PairPreference;
use crate::ballot::lemma_code_roundtrip;

verus! {

/// Number of unordered pairs among `n` candidates, as a mathematical integer.
pub open spec fn pair_count(n: int) -> int {
    n * (if n >= 1 { n - 1 } else { 0 }) / 2
}

/// First slot of row `i` in the row-by-row layout.
pub open spec fn row_start(i: int, n: int) -> int {
    i * n - i * (i + 1) / 2
}

/// Slot of the pair `(i, j)`, `i < j < n`.
pub open spec fn pair_slot(i: int, j: int, n: int) -> int {
    row_start(i, n) + (j - i - 1)
}

/// Consecutive rows: row `i + 1` starts `n - i - 1` slots after row `i`.
pub proof fn lemma_row_start_step(i: int, n: int)
    requires
        0 <= i,
    ensures
        row_start(i + 1, n) == row_start(i, n) + (n - i - 1),
{
    assert((i + 1) * n == i * n + n) by (nonlinear_arith);
    assert((i + 1) * (i + 2) == i * (i + 1) + 2 * (i + 1)) by (nonlinear_arith);
    assert(i * (i + 1) >= 0) by (nonlinear_arith) requires i >= 0;
    assert((i * (i + 1) + 2 * (i + 1)) / 2 == i * (i + 1) / 2 + (i + 1));
}

/// Row starts grow with the row while rows are non-empty.
pub proof fn lemma_row_start_mono(i: int, k: int, n: int)
    requires
        0 <= i <= k < n,
    ensures
        row_start(i, n) <= row_start(k, n),
        i < k ==> row_start(i + 1, n) <= row_start(k, n),
    decreases k - i,
{
    if i < k {
        lemma_row_start_mono(i + 1, k, n);
        lemma_row_start_step(i, n);
    }
}

/// The last row start is the pair count.
pub proof fn lemma_row_start_last(n: int)
    requires
        n >= 1,
    ensures
        row_start(n - 1, n) == pair_count(n),
{
    assert((n - 1) * n == n * (n - 1)) by (nonlinear_arith);
    assert((n - 1) * (n - 1 + 1) == n * (n - 1)) by (nonlinear_arith);
    lemma_consecutive_product_even(n);
}

/// The product of two consecutive integers is even.
pub proof fn lemma_consecutive_product_even(n: int)
    ensures
        (n * (n - 1)) % 2 == 0,
{
    let a = n / 2;
    if n % 2 == 0 {
        assert(n * (n - 1) == 2 * (a * (n - 1))) by (nonlinear_arith) requires n == 2 * a;
    } else {
        assert(n * (n - 1) == 2 * (n * a)) by (nonlinear_arith) requires n - 1 == 2 * a;
    }
}

/// Every pair gets a slot below the pair count, and distinct pairs get
/// distinct slots.
pub proof fn lemma_pair_slot_bounds(i: int, j: int, n: int)
    requires
        0 <= i < j < n,
    ensures
        row_start(i, n) <= pair_slot(i, j, n) < row_start(i + 1, n),
        0 <= pair_slot(i, j, n) < pair_count(n),
{
    lemma_row_start_step(i, n);
    lemma_row_start_mono(0, i, n);
    lemma_row_start_mono(i, n - 1, n);
    lemma_row_start_last(n);
    if i + 1 <= n - 1 {
        lemma_row_start_mono(i + 1, n - 1, n);
    }
}

/// The layout is injective.
pub proof fn lemma_pair_slot_injective(i: int, j: int, k: int, l: int, n: int)
    requires
        0 <= i < j < n,
        0 <= k < l < n,
        pair_slot(i, j, n) == pair_slot(k, l, n),
    ensures
        i == k && j == l,
{
    lemma_pair_slot_bounds(i, j, n);
    lemma_pair_slot_bounds(k, l, n);
    if i < k {
        lemma_row_start_mono(i, k, n);
    } else if k < i {
        lemma_row_start_mono(k, i, n);
    }
}

/// The product `i * n` is at most twice the slot of `(i, j)` plus one.
pub proof fn lemma_pair_slot_dominates(i: int, j: int, n: int)
    requires
        0 <= i < j < n,
    ensures
        i * n <= 2 * pair_slot(i, j, n) + 1,
{
    assert(i * (i + 1) <= i * n) by (nonlinear_arith) requires 0 <= i, i + 1 <= n;
    assert(i * (i + 1) >= 0) by (nonlinear_arith) requires i >= 0;
}

/// Number of unordered pairs among `n` candidates.
pub fn num_pairs(n: usize) -> (r: usize)
    requires
        n * (if n >= 1 { n - 1 } else { 0 }) <= usize::MAX,
    ensures
        r == pair_count(n as int),
{
    let m = n.saturating_sub(1);
    n * m / 2
}

/// Number of bits that a ballot over `n` candidates needs: two per pair.
pub fn ballot_bits(n: usize) -> (r: usize)
    requires
        n * (if n >= 1 { n - 1 } else { 0 }) <= usize::MAX,
        2 * pair_count(n as int) <= usize::MAX,
    ensures
        r == 2 * pair_count(n as int),
{
    num_pairs(n) * 2
}

/// The least `n` with `n * (n + 1) > 32`.
pub fn max_n_u32() -> (r: usize)
    ensures
        r * (r + 1) > 32,
        forall|k: int| 0 <= k < r ==> #[trigger] (k * (k + 1)) <= 32,
{
    let mut n: usize = 0;
    while n * (n + 1) <= 32
        invariant
            n <= 6,
            n * (n + 1) <= 42,
            forall|k: int| 0 <= k < n ==> #[trigger] (k * (k + 1)) <= 32,
        decreases 6 - n,
    {
        assert(n < 6) by (nonlinear_arith)
            requires
                n * (n + 1) <= 32,
                n <= 6,
        ;
        n += 1;
        assert(n * (n + 1) <= 42) by (nonlinear_arith)
            requires
                n <= 6,
        ;
    }
    n
}

/// The least `n` with `n * (n + 1) > 64`.
pub fn max_n_u64() -> (r: usize)
    ensures
        r * (r + 1) > 64,
        forall|k: int| 0 <= k < r ==> #[trigger] (k * (k + 1)) <= 64,
{
    let mut n: usize = 0;
    while n * (n + 1) <= 64
        invariant
            n <= 8,
            n * (n + 1) <= 72,
            forall|k: int| 0 <= k < n ==> #[trigger] (k * (k + 1)) <= 64,
        decreases 8 - n,
    {
        assert(n < 8) by (nonlinear_arith)
            requires
                n * (n + 1) <= 64,
                n <= 8,
        ;
        n += 1;
        assert(n * (n + 1) <= 72) by (nonlinear_arith)
            requires
                n <= 8,
        ;
    }
    n
}

/// Slot of the pair `(i, j)`, `i < j < n`, in the row-by-row layout.
pub fn pair_index(i: usize, j: usize, n: usize) -> (r: usize)
    requires
        i < j < n,
        i * n <= usize::MAX,
        pair_slot(i as int, j as int, n as int) <= usize::MAX,
    ensures
        r == pair_slot(i as int, j as int, n as int),
{
    assert(i * (i + 1) <= i * n) by (nonlinear_arith)
        requires
            i + 1 <= n,
    ;
    assert(i * (i + 1) >= 0) by (nonlinear_arith);
    i * n - i * (i + 1) / 2 + (j - i - 1)
}

/// Writing a two-bit code into an even position of a `u32` changes that code
/// and no other.
proof fn lemma_u32_write_code(v: u32, b: u32, s: u32, t: u32)
    by (bit_vector)
    requires
        s % 2 == 0,
        t % 2 == 0,
        s <= 30,
        t <= 30,
        b <= 3,
    ensures
        (((v & !(3u32 << s)) | (b << s)) >> t) & 3u32 == if s == t {
            b
        } else {
            (v >> t) & 3u32
        },
{
}

/// Writing a two-bit code into an even position of a `u64` changes that code
/// and no other.
proof fn lemma_u64_write_code(v: u64, b: u64, s: u64, t: u64)
    by (bit_vector)
    requires
        s % 2 == 0,
        t % 2 == 0,
        s <= 62,
        t <= 62,
        b <= 3,
    ensures
        (((v & !(3u64 << s)) | (b << s)) >> t) & 3u64 == if s == t {
            b
        } else {
            (v >> t) & 3u64
        },
{
}

/// One voter's pairwise preferences in bit-packed form: in a `u32` or a `u64`
/// while the codes fit, in a bit vector beyond.
#[derive(Debug, Clone)]
pub enum CompactBallot {
    /// Up to 16 pairs.
    Tiny(u32),
    /// Up to 32 pairs.
    Small(u64),
    /// Any number of pairs.
    Large(BitStorage),
}

/// The preference that the last entry for the pair `(i, j)` sets, or
/// `Abstain` where no entry names it.
pub open spec fn last_assignment(
    pairs: Seq<(usize, usize, PairPreference)>,
    i: int,
    j: int,
) -> PairPreference
    decreases pairs.len(),
{
    if pairs.len() == 0 {
        PairPreference::Abstain
    } else if pairs.last().0 == i && pairs.last().1 == j {
        pairs.last().2
    } else {
        last_assignment(pairs.drop_last(), i, j)
    }
}

/// Applying entries in order leaves a pair with the preference of the last
/// entry that names it, whatever that preference is (`Abstain` included).
pub proof fn lemma_last_entry_decides(pairs: Seq<(usize, usize, PairPreference)>, k: int, i: int, j: int)
    requires
        0 <= k < pairs.len(),
        pairs[k].0 == i,
        pairs[k].1 == j,
        forall|l: int| #![trigger pairs[l]] k < l < pairs.len() ==> !(pairs[l].0 == i && pairs[l].1 == j),
    ensures
        last_assignment(pairs, i, j) == pairs[k].2,
    decreases pairs.len(),
{
    if k < pairs.len() - 1 {
        let rest = pairs.drop_last();
        assert(pairs[pairs.len() - 1] == pairs.last());
        assert forall|l: int| #![trigger rest[l]] k < l < rest.len() implies !(rest[l].0 == i && rest[l].1 == j) by {
            assert(rest[l] == pairs[l]);
        }
        lemma_last_entry_decides(rest, k, i, j);
    }
}

/// A pair that no entry names keeps `Abstain`.
pub proof fn lemma_unnamed_pair_abstains(pairs: Seq<(usize, usize, PairPreference)>, i: int, j: int)
    requires
        forall|l: int| #![trigger pairs[l]] 0 <= l < pairs.len() ==> !(pairs[l].0 == i && pairs[l].1 == j),
    ensures
        last_assignment(pairs, i, j) == PairPreference::Abstain,
    decreases pairs.len(),
{
    if pairs.len() > 0 {
        let rest = pairs.drop_last();
        assert(pairs[pairs.len() - 1] == pairs.last());
        assert forall|l: int| #![trigger rest[l]] 0 <= l < rest.len() implies !(rest[l].0 == i && rest[l].1 == j) by {
            assert(rest[l] == pairs[l]);
        }
        lemma_unnamed_pair_abstains(rest, i, j);
    }
}

impl CompactBallot {
    /// Number of bits the storage holds.
    pub open spec fn capacity(&self) -> int {
        match self {
            CompactBallot::Tiny(_) => 32,
            CompactBallot::Small(_) => 64,
            CompactBallot::Large(s) => bit_contents(*s).len() as int,
        }
    }

    /// The two-bit code stored for slot `k`.
    pub open spec fn slot_code(&self, k: int) -> u8 {
        match self {
            CompactBallot::Tiny(v) => ((*v >> ((2 * k) as u32)) & 3u32) as u8,
            CompactBallot::Small(v) => ((*v >> ((2 * k) as u64)) & 3u64) as u8,
            CompactBallot::Large(s) => {
                let b = bit_contents(*s);
                ((if b[2 * k] { 2int } else { 0int }) + (if b[2 * k + 1] { 1int } else { 0int })) as u8
            },
        }
    }

    /// Two ballots use the same kind and size of storage.
    pub open spec fn same_shape(&self, other: &CompactBallot) -> bool {
        &&& self.capacity() == other.capacity()
        &&& (self is Tiny <==> other is Tiny)
        &&& (self is Small <==> other is Small)
        &&& (self is Large <==> other is Large)
    }

    /// The storage holds the slot of the pair `(i, j)`, `i < j < n`.
    pub open spec fn holds_pair(&self, i: int, j: int, n: int) -> bool {
        &&& 0 <= i < j < n
        &&& 2 * pair_slot(i, j, n) + 2 <= self.capacity()
        &&& self.capacity() <= usize::MAX
    }

    /// The storage holds the slots of all pairs among `n` candidates.
    pub open spec fn holds_all_pairs(&self, n: int) -> bool {
        &&& 2 * pair_count(n) <= self.capacity()
        &&& self.capacity() <= usize::MAX
    }

    /// The preference for the ordered pair `(i, j)`: the stored code for
    /// `i < j`, the reverse of the stored code for `i > j`, and `Abstain` for
    /// `i == j`.
    pub open spec fn pref_spec(&self, i: int, j: int, n: int) -> PairPreference {
        if i == j {
            PairPreference::Abstain
        } else if i < j {
            PairPreference::from_code(self.slot_code(pair_slot(i, j, n)))
        } else {
            PairPreference::from_code(self.slot_code(pair_slot(j, i, n))).flipped()
        }
    }

    /// A reversed pair reads as the reversed preference, and a candidate
    /// against itself abstains, whatever the storage holds.
    pub proof fn lemma_antisymmetric(&self, i: int, j: int, n: int)
        ensures
            self.pref_spec(j, i, n) == self.pref_spec(i, j, n).flipped(),
            self.pref_spec(i, i, n) == PairPreference::Abstain,
    {
        if j < i {
            lemma_code_roundtrip(self.pref_spec(j, i, n));
        }
    }

    /// An empty ballot over `n` candidates: every code is `Abstain`, stored in
    /// a `u32` when `ballot_bits(n) <= 32`, in a `u64` when it is at most 64,
    /// and in a bit vector of `ballot_bits(n)` bits beyond.
    pub fn new(n: usize) -> (r: CompactBallot)
        requires
            n * (if n >= 1 { n - 1 } else { 0 }) <= usize::MAX,
            2 * pair_count(n as int) <= usize::MAX,
        ensures
            2 * pair_count(n as int) <= 32 ==> r == CompactBallot::Tiny(0),
            32 < 2 * pair_count(n as int) <= 64 ==> r == CompactBallot::Small(0),
            64 < 2 * pair_count(n as int) ==> (r matches CompactBallot::Large(s) && bit_contents(s)
                =~= Seq::new((2 * pair_count(n as int)) as nat, |k: int| false)),
            r.has_new_shape(n as int),
            r.holds_all_pairs(n as int),
            forall|k: int| 0 <= k < pair_count(n as int) ==> #[trigger] r.slot_code(k) == 0,
            forall|i: int, j: int|
                0 <= i < n && 0 <= j < n ==> #[trigger] r.pref_spec(i, j, n as int)
                    == PairPreference::Abstain,
    {
        let bits = ballot_bits(n);
        let r = if bits <= 32 {
            CompactBallot::Tiny(0)
        } else if bits <= 64 {
            CompactBallot::Small(0)
        } else {
            CompactBallot::Large(BitStorage::zeroed(bits))
        };
        proof {
            assert forall|k: int| 0 <= k < pair_count(n as int) implies #[trigger] r.slot_code(k)
                == 0 by {
                match r {
                    CompactBallot::Tiny(_) => {
                        let t = (2 * k) as u32;
                        assert((0u32 >> t) & 3u32 == 0) by (bit_vector);
                    },
                    CompactBallot::Small(_) => {
                        let t = (2 * k) as u64;
                        assert((0u64 >> t) & 3u64 == 0) by (bit_vector);
                    },
                    CompactBallot::Large(_) => {},
                }
            }
            assert forall|i: int, j: int| 0 <= i < n && 0 <= j < n implies #[trigger] r.pref_spec(
                i,
                j,
                n as int,
            ) == PairPreference::Abstain by {
                if i < j {
                    lemma_pair_slot_bounds(i, j, n as int);
                } else if j < i {
                    lemma_pair_slot_bounds(j, i, n as int);
                }
            }
        }
        r
    }

    /// The preference for the ordered pair `(i, j)`.
    pub fn preference(&self, i: usize, j: usize, n: usize) -> (r: PairPreference)
        requires
            i == j || (i < n && j < n && (if i < j {
                self.holds_pair(i as int, j as int, n as int)
            } else {
                self.holds_pair(j as int, i as int, n as int)
            })),
        ensures
            r == self.pref_spec(i as int, j as int, n as int),
    {
        if i == j {
            return PairPreference::Abstain;
        }
        let (left, right, swap) = if i < j {
            (i, j, false)
        } else {
            (j, i, true)
        };
        proof {
            lemma_pair_slot_dominates(left as int, right as int, n as int);
        }
        let idx = pair_index(left, right, n) * 2;
        let bits: u8 = match self {
            CompactBallot::Tiny(bits) => ((*bits >> idx) & 0b11) as u8,
            CompactBallot::Small(bits) => ((*bits >> idx) & 0b11) as u8,
            CompactBallot::Large(bv) => {
                let hi: u8 = if bv.get(idx) {
                    1
                } else {
                    0
                };
                let lo: u8 = if bv.get(idx + 1) {
                    1
                } else {
                    0
                };
                assert((hi << 1u8) | lo == 2 * hi + lo) by (bit_vector)
                    requires
                        hi <= 1,
                        lo <= 1,
                ;
                (hi << 1) | lo
            },
        };
        let pref = PairPreference::decode(bits);
        if swap {
            pref.reversed()
        } else {
            pref
        }
    }

    /// Stores `pref` as the preference for the pair `(i, j)`, `i < j < n`.
    pub fn set_preference(&mut self, i: usize, j: usize, n: usize, pref: PairPreference)
        requires
            old(self).holds_pair(i as int, j as int, n as int),
        ensures
            final(self).same_shape(old(self)),
            final(self).slot_code(pair_slot(i as int, j as int, n as int)) == pref.code(),
            forall|k: int|
                0 <= k && 2 * k + 2 <= old(self).capacity() && k != pair_slot(
                    i as int,
                    j as int,
                    n as int,
                ) ==> #[trigger] final(self).slot_code(k) == old(self).slot_code(k),
    {
        proof {
            lemma_pair_slot_dominates(i as int, j as int, n as int);
        }
        let idx = pair_index(i, j, n) * 2;
        let bits = pref.to_code();
        let ghost slot = pair_slot(i as int, j as int, n as int);
        match self {
            CompactBallot::Tiny(val) => {
                let ghost v0 = *val;
                *val &= !(0b11 << idx);
                *val |= (bits as u32) << idx;
                proof {
                    assert forall|k: int|
                        0 <= k && 2 * k + 2 <= 32 implies #[trigger] ((*val >> ((2 * k) as u32))
                        & 3u32) == if k == slot {
                        bits as u32
                    } else {
                        (v0 >> ((2 * k) as u32)) & 3u32
                    } by {
                        lemma_u32_write_code(v0, bits as u32, idx as u32, (2 * k) as u32);
                    }
                }
            },
            CompactBallot::Small(val) => {
                let ghost v0 = *val;
                *val &= !(0b11 << idx);
                *val |= (bits as u64) << idx;
                proof {
                    assert forall|k: int|
                        0 <= k && 2 * k + 2 <= 64 implies #[trigger] ((*val >> ((2 * k) as u64))
                        & 3u64) == if k == slot {
                        bits as u64
                    } else {
                        (v0 >> ((2 * k) as u64)) & 3u64
                    } by {
                        lemma_u64_write_code(v0, bits as u64, idx as u64, (2 * k) as u64);
                    }
                }
            },
            CompactBallot::Large(bv) => {
                let hi = (bits >> 1) & 1 == 1;
                let lo = (bits & 1) == 1;
                assert(hi == (bits == 2) && lo == (bits == 1)) by (bit_vector)
                    requires
                        bits <= 2,
                        hi == ((bits >> 1u8) & 1u8 == 1u8),
                        lo == (bits & 1u8 == 1u8),
                ;
                bv.set(idx, hi);
                bv.set(idx + 1, lo);
            },
        }
    }

    /// A ballot over `n` candidates with the preferences `pairs` applied in
    /// order; each entry `(i, j, pref)` names a pair with `i < j < n`.
    pub fn from_pairs(pairs: &[(usize, usize, PairPreference)], n: usize) -> (r: CompactBallot)
        requires
            n * (if n >= 1 { n - 1 } else { 0 }) <= usize::MAX,
            2 * pair_count(n as int) <= usize::MAX,
            forall|k: int| 0 <= k < pairs@.len() ==> #[trigger] pairs@[k].0 < pairs@[k].1 < n,
        ensures
            r.has_new_shape(n as int),
            r.holds_all_pairs(n as int),
            forall|i: int, j: int|
                0 <= i < j < n ==> #[trigger] r.pref_spec(i, j, n as int) == last_assignment(
                    pairs@,
                    i,
                    j,
                ),
            forall|k: int|
                0 <= k < pairs@.len() && (forall|l: int|
                    #![trigger pairs@[l]]
                    k < l < pairs@.len() ==> !(pairs@[l].0 == pairs@[k].0 && pairs@[l].1 == pairs@[k].1))
                    ==> #[trigger] r.pref_spec(pairs@[k].0 as int, pairs@[k].1 as int, n as int) == pairs@[k].2,
            forall|i: int, j: int|
                0 <= i < j < n && (forall|l: int|
                    #![trigger pairs@[l]]
                    0 <= l < pairs@.len() ==> !(pairs@[l].0 == i && pairs@[l].1 == j)) ==> #[trigger] r.pref_spec(
                    i,
                    j,
                    n as int,
                ) == PairPreference::Abstain,
    {
        let mut ballot = Self::new(n);
        proof {
            assert forall|a: int, b: int| 0 <= a < b < n implies #[trigger] ballot.pref_spec(
                a,
                b,
                n as int,
            ) == last_assignment(pairs@.take(0), a, b) by {
                lemma_pair_slot_bounds(a, b, n as int);
            }
        }
        let mut k: usize = 0;
        while k < pairs.len()
            invariant
                k <= pairs@.len(),
                ballot.has_new_shape(n as int),
                ballot.holds_all_pairs(n as int),
                forall|m: int| 0 <= m < pairs@.len() ==> #[trigger] pairs@[m].0 < pairs@[m].1 < n,
                forall|a: int, b: int|
                    0 <= a < b < n ==> #[trigger] ballot.pref_spec(a, b, n as int)
                        == last_assignment(pairs@.take(k as int), a, b),
            decreases pairs@.len() - k,
        {
            let (i, j, pref) = pairs[k];
            proof {
                lemma_pair_slot_bounds(i as int, j as int, n as int);
            }
            let ghost before = ballot;
            ballot.set_preference(i, j, n, pref);
            proof {
                let prefix = pairs@.take(k as int + 1);
                assert(prefix.drop_last() =~= pairs@.take(k as int));
                assert(prefix.last() == pairs@[k as int]);
                assert forall|a: int, b: int| 0 <= a < b < n implies #[trigger] ballot.pref_spec(
                    a,
                    b,
                    n as int,
                ) == last_assignment(prefix, a, b) by {
                    lemma_pair_slot_bounds(a, b, n as int);
                    if a == i && b == j {
                        lemma_code_roundtrip(pref);
                        assert(last_assignment(prefix, a, b) == pref);
                        assert(ballot.slot_code(pair_slot(a, b, n as int)) == pref.code());
                    } else {
                        assert(last_assignment(prefix, a, b) == last_assignment(
                            pairs@.take(k as int),
                            a,
                            b,
                        ));
                        if pair_slot(a, b, n as int) == pair_slot(i as int, j as int, n as int) {
                            lemma_pair_slot_injective(a, b, i as int, j as int, n as int);
                        }
                        assert(ballot.slot_code(pair_slot(a, b, n as int)) == before.slot_code(
                            pair_slot(a, b, n as int),
                        ));
                        assert(before.pref_spec(a, b, n as int) == last_assignment(
                            pairs@.take(k as int),
                            a,
                            b,
                        ));
                    }
                }
            }
            k += 1;
        }
        assert(pairs@.take(pairs@.len() as int) =~= pairs@);
        proof {
            assert forall|k: int|
                0 <= k < pairs@.len() && (forall|l: int|
                    #![trigger pairs@[l]]
                    k < l < pairs@.len() ==> !(pairs@[l].0 == pairs@[k].0 && pairs@[l].1 == pairs@[k].1))
                    implies #[trigger] ballot.pref_spec(pairs@[k].0 as int, pairs@[k].1 as int, n as int)
                == pairs@[k].2 by {
                lemma_last_entry_decides(pairs@, k, pairs@[k].0 as int, pairs@[k].1 as int);
            }
            assert forall|i: int, j: int|
                0 <= i < j < n && (forall|l: int|
                    #![trigger pairs@[l]]
                    0 <= l < pairs@.len() ==> !(pairs@[l].0 == i && pairs@[l].1 == j)) implies #[trigger] ballot.pref_spec(
                i,
                j,
                n as int,
            ) == PairPreference::Abstain by {
                lemma_unnamed_pair_abstains(pairs@, i, j);
            }
        }
        ballot
    }

    /// The kind and size of storage that `new(n)` picks.
    pub open spec fn has_new_shape(&self, n: int) -> bool {
        &&& 2 * pair_count(n) <= 32 ==> self is Tiny
        &&& 32 < 2 * pair_count(n) <= 64 ==> self is Small
        &&& 64 < 2 * pair_count(n) ==> self is Large && self.capacity() == 2 * pair_count(n)
    }
}

} // verus!
