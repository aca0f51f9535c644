# maximal-lottery

Maximal lotteries from preference profiles, with exact rational arithmetic,
verified with Verus.

Voters express pairwise preferences between candidates (explicitly, or by a
ranking), the profile is tallied into a skew-symmetric margin matrix, and a
maximal lottery — a probability distribution over the candidates that no
candidate beats in expectation — is computed as the centroid of the extreme
points of the maximin strategies of the margin game.

## Layout

- `src/ballot/`: `PairPreference`, the `Ballot` trait, `PairwiseBallot` and
  `RankedBallot`.
- `src/compact.rs`, `src/bitstore.rs`: bit-packed storage of one voter's
  pairwise preferences (in a `u32`, a `u64`, or a `bitvec` bit vector).
- `src/profile.rs`: `Candidate`, `Lottery`, `MarginMatrix` (skew-symmetric by
  its type invariant) and `PreferenceProfile` with its tally.
- `src/margins.rs`, `src/types.rs`: the tally of bit-packed ballots and the
  facts about margin matrices (skew-symmetry, Condorcet winners).
- `src/maximal_lottery.rs`: `maximal_lottery` on raw margins, and what a
  maximal lottery is (`is_maximal_lottery`).
- `src/solver/`: the `LotterySolver` trait and `CentroidSolver`; exact
  Gauss–Jordan elimination (`gauss.rs`); the search for the extreme points
  and their centroid (`extreme.rs`).
- `src/simplex/`: a two-phase simplex method over rationals, the laws of
  its pivots, and the runs of its pivot rule (`runs.rs`): a run that never
  repeats a basis is bounded in length, and an entering column without a
  positive entry makes the objective unbounded.
- `src/rational.rs`: exact rationals, computed by `num-rational`.
- `src/linear.rs`: sums and dot products over the reals and the facts about
  row operations that the proofs use.
- `app/`: a small program that prints the maximal lottery of a Condorcet
  cycle, with printing helpers and error messages.
- `tests/`: tests of the library on concrete values.
