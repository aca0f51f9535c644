//! A two-phase simplex method over exact rationals.
//!
//! A [`Tableau`] holds a system `a · x = b` in canonical form with respect to
//! its basis (column `basis[i]` is the `i`-th unit vector), an objective `c`
//! to maximise, and the basic solution `x[basis[i]] = b[i]`. Pivots are row
//! operations: they keep the solutions of the system, the canonical form,
//! and, with the ratio test, the feasibility `b >= 0`.
use vstd::prelude::*;

use crate::linear::{dot, lemma_mul_unit, vals};
use crate::rational::Rational;
use crate::solver::gauss::{all_wf, is_matrix};
use crate::simplex::runs::{is_run, lemma_run_length, power, repeats_basis, rule_cycles, rule_step, run_state};

pub mod laws;
pub mod lp;
pub mod runs;

pub use self::laws::{
    lemma_pivot_keeps_canonical, lemma_pivot_keeps_feasible, lemma_pivot_keeps_solutions, lemma_pivot_objective,
};
pub use self::lp::solve_lp;

verus! {

/// A simplex tableau.
#[derive(Debug)]
pub struct Tableau {
    /// Constraint matrix in canonical form (B^{-1} * A), m rows, n cols.
    pub a: Vec<Vec<Rational>>,
    /// Right-hand side vector (values of basic variables).
    pub b: Vec<Rational>,
    /// Objective coefficients.
    pub c: Vec<Rational>,
    /// Indices of basic variables.
    pub basis: Vec<usize>,
}

impl Tableau {
    /// The number of columns, that of the objective.
    pub open spec fn cols(&self) -> int {
        self.c@.len() as int
    }

    /// The number of rows.
    pub open spec fn rows(&self) -> int {
        self.a@.len() as int
    }

    /// Every row has one entry per column, every entry is well formed, and
    /// the basis names at most one column per row, each in range.
    pub open spec fn well_shaped(&self) -> bool {
        &&& is_matrix(self.a@, self.rows(), self.cols())
        &&& self.b@.len() == self.rows()
        &&& all_wf(self.b@)
        &&& all_wf(self.c@)
        &&& self.basis@.len() <= self.rows()
        &&& forall|i: int| 0 <= i < self.basis@.len() ==> #[trigger] self.basis@[i] < self.cols()
    }

    /// Entry `(i, j)` of the constraint matrix.
    pub open spec fn entry(&self, i: int, j: int) -> real {
        self.a@[i]@[j].val()
    }

    /// `sum_{i < k} c[basis[i]] * a[i][col]`.
    pub open spec fn basic_cost(&self, col: int, k: int) -> real
        decreases k,
    {
        if k <= 0 {
            0real
        } else {
            self.basic_cost(col, k - 1) + self.c@[self.basis@[k - 1] as int].val() * self.entry(k - 1, col)
        }
    }

    /// The reduced cost of column `col`: `c[col] - sum_i c[basis[i]] * a[i][col]`.
    pub open spec fn reduced_cost_of(&self, col: int) -> real {
        self.c@[col].val() - self.basic_cost(col, self.basis@.len() as int)
    }

    /// Row `i` is zero in the columns `0..limit`.
    pub open spec fn row_zero_below(&self, i: int, limit: int) -> bool {
        forall|j: int| 0 <= j < limit ==> #[trigger] self.entry(i, j) == 0real
    }

    /// The ratio `b[i] / a[i][col]` of the ratio test.
    pub open spec fn ratio(&self, i: int, col: int) -> real {
        self.b@[i].val() / self.entry(i, col)
    }

    /// Row `i` of the constraint matrix, as reals.
    pub open spec fn row(&self, i: int) -> Seq<real> {
        vals(self.a@[i]@)
    }

    /// `x` solves the system: `sum_j a[i][j] * x[j] == b[i]` for every row.
    pub open spec fn solves(&self, x: Seq<real>) -> bool {
        forall|i: int| 0 <= i < self.rows() ==> #[trigger] dot(self.row(i), x, self.cols()) == self.b@[i].val()
    }

    /// The basis has one column per row, and column `basis[i]` is the
    /// `i`-th unit vector.
    pub open spec fn is_canonical(&self) -> bool {
        &&& self.basis@.len() == self.rows()
        &&& forall|i: int, k: int|
            0 <= i < self.rows() && 0 <= k < self.rows() ==> #[trigger] self.entry(k, self.basis@[i] as int) == (if k
                == i {
                1real
            } else {
                0real
            })
    }

    /// The basic solution is non-negative: `b >= 0`.
    pub open spec fn is_feasible(&self) -> bool {
        forall|i: int| 0 <= i < self.rows() ==> #[trigger] self.b@[i].val() >= 0real
    }

    /// No column has a positive reduced cost (over the columns that
    /// [`Tableau::n_cols`] counts).
    pub open spec fn is_optimal(&self) -> bool {
        forall|k: int| 0 <= k < (if self.rows() == 0 { 0 } else { self.cols() }) ==> #[trigger] self.reduced_cost_of(k) <= 0real
    }

    /// Row `l` is the one the ratio test picks for column `e`, or its
    /// right-hand side is zero.
    pub open spec fn ratio_ok(&self, e: int, l: int) -> bool {
        ||| self.b@[l].val() == 0real
        ||| (self.entry(l, e) > 0real && forall|i: int|
            0 <= i < self.rows() && #[trigger] self.entry(i, e) > 0real ==> self.ratio(l, e) <= self.ratio(i, e))
    }

    /// `sum_{i < k} c[basis[i]] * b[i]`.
    pub open spec fn objective_of(&self, k: int) -> real
        decreases k,
    {
        if k <= 0 {
            0real
        } else {
            self.objective_of(k - 1) + self.c@[self.basis@[k - 1] as int].val() * self.b@[k - 1].val()
        }
    }

    /// A tableau of `constraints` rows and `variables` columns, all zero,
    /// with an empty basis.
    pub fn new(constraints: usize, variables: usize) -> (r: Self)
        ensures
            r.well_shaped(),
            r.rows() == constraints,
            r.cols() == variables,
            r.basis@.len() == 0,
            forall|i: int, j: int| 0 <= i < constraints && 0 <= j < variables ==> #[trigger] r.entry(i, j) == 0real,
            forall|i: int| 0 <= i < constraints ==> #[trigger] r.b@[i].val() == 0real,
            forall|j: int| 0 <= j < variables ==> #[trigger] r.c@[j].val() == 0real,
    {
        let mut a: Vec<Vec<Rational>> = Vec::new();
        let mut i: usize = 0;
        while i < constraints
            invariant
                i <= constraints,
                is_matrix(a@, i as int, variables as int),
                forall|i2: int, j: int| 0 <= i2 < i && 0 <= j < variables ==> #[trigger] a@[i2]@[j].val() == 0real,
            decreases constraints - i,
        {
            a.push(zeros(variables));
            i += 1;
        }
        Tableau { a, b: zeros(constraints), c: zeros(variables), basis: Vec::new() }
    }

    /// The number of rows.
    pub fn n_rows(&self) -> (r: usize)
        ensures
            r == self.rows(),
    {
        self.a.len()
    }

    /// The number of columns: the length of the first row, zero for no rows.
    pub fn n_cols(&self) -> (r: usize)
        ensures
            r == (if self.rows() == 0 {
                0
            } else {
                self.a@[0]@.len()
            }),
    {
        if self.a.len() == 0 {
            0
        } else {
            self.a[0].len()
        }
    }

    /// The reduced cost of column `col`.
    fn reduced_cost(&self, col: usize) -> (r: Rational)
        requires
            self.well_shaped(),
            col < self.cols(),
        ensures
            r.wf(),
            r.val() == self.reduced_cost_of(col as int),
    {
        assert(self.c@[col as int].wf());
        let mut rc = self.c[col].clone();
        let mut i: usize = 0;
        while i < self.basis.len()
            invariant
                self.well_shaped(),
                col < self.cols(),
                i <= self.basis@.len(),
                rc.wf(),
                rc.val() == self.c@[col as int].val() - self.basic_cost(col as int, i as int),
            decreases self.basis@.len() - i,
        {
            let basis_col = self.basis[i];
            assert(self.c@[basis_col as int].wf());
            assert(self.a@[i as int]@[col as int].wf());
            let term = self.c[basis_col].mul(&self.a[i][col]);
            rc = rc.sub(&term);
            i += 1;
        }
        rc
    }

    /// The first column with a positive reduced cost.
    fn entering_column(&self) -> (r: Option<usize>)
        requires
            self.well_shaped(),
        ensures
            r matches Some(j) ==> j < (if self.rows() == 0 { 0 } else { self.cols() }) && self.reduced_cost_of(
                j as int,
            ) > 0real && forall|k: int|
                0 <= k < j ==> #[trigger] self.reduced_cost_of(k) <= 0real,
            r is None ==> forall|k: int|
                0 <= k < (if self.rows() == 0 { 0 } else { self.cols() }) ==> #[trigger] self.reduced_cost_of(k)
                    <= 0real,
    {
        let n = self.n_cols();
        self.entering_among(n)
    }

    /// The first of the columns `0..limit` with a positive reduced cost.
    fn entering_among(&self, limit: usize) -> (r: Option<usize>)
        requires
            self.well_shaped(),
            limit <= self.cols(),
        ensures
            r matches Some(j) ==> j < limit && self.reduced_cost_of(j as int) > 0real && forall|k: int|
                0 <= k < j ==> #[trigger] self.reduced_cost_of(k) <= 0real,
            r is None ==> forall|k: int| 0 <= k < limit ==> #[trigger] self.reduced_cost_of(k) <= 0real,
    {
        let mut j: usize = 0;
        while j < limit
            invariant
                self.well_shaped(),
                limit <= self.cols(),
                j <= limit,
                forall|k: int| 0 <= k < j ==> #[trigger] self.reduced_cost_of(k) <= 0real,
            decreases limit - j,
        {
            let rc = self.reduced_cost(j);
            if rc.is_positive() {
                return Some(j);
            }
            j += 1;
        }
        None
    }

    /// The row of the ratio test for column `entering`: among the rows with
    /// a positive entry in that column, the first with the least ratio.
    fn leaving_row(&self, entering: usize) -> (r: Option<usize>)
        requires
            self.well_shaped(),
            entering < self.cols(),
        ensures
            r is None <==> forall|i: int| 0 <= i < self.rows() ==> #[trigger] self.entry(i, entering as int) <= 0real,
            r matches Some(l) ==> self.leaves_at(entering as int, l as int),
    {
        let ghost e = entering as int;
        let mut min_ratio: Option<Rational> = None;
        let mut min_row: Option<usize> = None;
        let mut i: usize = 0;
        while i < self.n_rows()
            invariant
                self.well_shaped(),
                entering < self.cols(),
                e == entering as int,
                i <= self.rows(),
                min_row is None <==> min_ratio is None,
                min_row is None ==> forall|k: int| 0 <= k < i ==> #[trigger] self.entry(k, e) <= 0real,
                min_row matches Some(l) ==> {
                    &&& l < i
                    &&& self.entry(l as int, e) > 0real
                    &&& min_ratio matches Some(q) && q.wf() && q.val() == self.ratio(l as int, e)
                    &&& forall|k: int|
                        0 <= k < i && #[trigger] self.entry(k, e) > 0real ==> self.ratio(l as int, e) <= self.ratio(
                            k,
                            e,
                        )
                    &&& forall|k: int|
                        0 <= k < l && #[trigger] self.entry(k, e) > 0real ==> self.ratio(l as int, e) < self.ratio(
                            k,
                            e,
                        )
                },
            decreases self.rows() - i,
        {
            assert(self.a@[i as int]@[e].wf());
            assert(self.b@[i as int].wf());
            let a_ij = &self.a[i][entering];
            if a_ij.is_positive() {
                let ratio = self.b[i].div(a_ij);
                match &min_ratio {
                    None => {
                        min_ratio = Some(ratio);
                        min_row = Some(i);
                    },
                    Some(current) => {
                        if ratio.less_than(current) {
                            min_ratio = Some(ratio);
                            min_row = Some(i);
                        }
                    },
                }
            }
            i += 1;
        }
        min_row
    }

    /// Row `l` is the row of the ratio test for column `e`: its entry there
    /// is positive, its ratio is the least, and every row before it with a
    /// positive entry has a larger ratio.
    pub open spec fn leaves_at(&self, e: int, l: int) -> bool {
        &&& 0 <= l < self.rows()
        &&& self.entry(l, e) > 0real
        &&& forall|i: int|
            0 <= i < self.rows() && #[trigger] self.entry(i, e) > 0real ==> self.ratio(l, e) <= self.ratio(i, e)
        &&& forall|i: int| 0 <= i < l && #[trigger] self.entry(i, e) > 0real ==> self.ratio(l, e) < self.ratio(i, e)
    }
}

/// `new` is `old` after a pivot on row `l` and column `e`: row `l` divided
/// by the pivot `old.entry(l, e)`, that row's multiple eliminated from every
/// other row, and `e` entering the basis at row `l`.
pub open spec fn is_pivot(old: Tableau, new: Tableau, e: int, l: int) -> bool {
    &&& new.well_shaped()
    &&& new.rows() == old.rows()
    &&& new.c@ == old.c@
    &&& new.basis@ == old.basis@.update(l, e as usize)
    &&& forall|j: int| 0 <= j < old.cols() ==> #[trigger] new.entry(l, j) == old.entry(l, j) / old.entry(l, e)
    &&& new.b@[l].val() == old.b@[l].val() / old.entry(l, e)
    &&& forall|i: int, j: int|
        0 <= i < old.rows() && i != l && 0 <= j < old.cols() ==> #[trigger] new.entry(i, j) == old.entry(i, j)
            - old.entry(i, e) * new.entry(l, j)
    &&& forall|i: int|
        0 <= i < old.rows() && i != l ==> #[trigger] new.b@[i].val() == old.b@[i].val() - old.entry(i, e)
            * new.b@[l].val()
}

impl Tableau {
    /// Pivots on row `leaving_row` and column `entering`.
    fn pivot(&mut self, entering: usize, leaving_row: usize)
        requires
            old(self).well_shaped(),
            entering < old(self).cols(),
            leaving_row < old(self).basis@.len(),
            old(self).entry(leaving_row as int, entering as int) != 0real,
        ensures
            is_pivot(*old(self), *final(self), entering as int, leaving_row as int),
    {
        let ghost (a0, b0) = (self.a@, self.b@);
        let ghost l = leaving_row as int;
        let ghost e = entering as int;
        let ghost pv = self.entry(l, e);
        let n = self.n_cols();
        assert(self.a@[l]@[e].wf());
        let pivot_val = self.a[leaving_row][entering].clone();
        // Normalize the pivot row.
        let mut j: usize = 0;
        while j < n
            invariant
                self.well_shaped(),
                n == self.cols(),
                self.rows() == a0.len(),
                l == leaving_row as int,
                e == entering as int,
                0 <= l < self.basis@.len(),
                0 <= e < n,
                j <= n,
                pivot_val.wf(),
                pivot_val.val() == pv,
                pv != 0real,
                self.c@ == old(self).c@,
                self.basis@ == old(self).basis@,
                self.b@ == b0,
                forall|r: int| 0 <= r < a0.len() && r != l ==> #[trigger] self.a@[r] == a0[r],
                forall|k: int| 0 <= k < j ==> #[trigger] self.a@[l]@[k].val() == a0[l]@[k].val() / pv,
                forall|k: int| j <= k < n ==> #[trigger] self.a@[l]@[k] == a0[l]@[k],
            decreases n - j,
        {
            assert(self.a@[l]@[j as int].wf());
            let q = self.a[leaving_row][j].div(&pivot_val);
            self.a[leaving_row][j] = q;
            j += 1;
        }
        assert(self.b@[l].wf());
        let q = self.b[leaving_row].div(&pivot_val);
        self.b[leaving_row] = q;
        let ghost (al, bl) = (self.a@[l], self.b@[l]);
        // Eliminate the entering column from all other rows.
        let mut i: usize = 0;
        while i < self.n_rows()
            invariant
                self.well_shaped(),
                n == self.cols(),
                self.rows() == a0.len(),
                b0.len() == a0.len(),
                l == leaving_row as int,
                e == entering as int,
                0 <= l < self.basis@.len(),
                0 <= e < n,
                i <= self.rows(),
                self.c@ == old(self).c@,
                self.basis@ == old(self).basis@,
                self.a@[l] == al,
                self.b@[l] == bl,
                forall|k: int| 0 <= k < n ==> #[trigger] al@[k].val() == a0[l]@[k].val() / pv,
                bl.val() == b0[l].val() / pv,
                forall|r: int| i <= r < a0.len() && r != l ==> #[trigger] self.a@[r] == a0[r],
                forall|r: int| i <= r < a0.len() && r != l ==> #[trigger] self.b@[r] == b0[r],
                forall|r: int, k: int|
                    0 <= r < i && r != l && 0 <= k < n ==> #[trigger] self.a@[r]@[k].val() == a0[r]@[k].val()
                        - a0[r]@[e].val() * al@[k].val(),
                forall|r: int|
                    0 <= r < i && r != l ==> #[trigger] self.b@[r].val() == b0[r].val() - a0[r]@[e].val() * bl.val(),
            decreases self.rows() - i,
        {
            if i != leaving_row {
                let ghost (a1, b1) = (self.a@, self.b@);
                assert(self.a@[i as int] == a0[i as int]);
                assert(self.a@[i as int]@[e].wf());
                let factor = self.a[i][entering].clone();
                if factor.is_zero() {
                    proof {
                        assert forall|k: int| 0 <= k < n implies #[trigger] self.a@[i as int]@[k].val()
                            == a0[i as int]@[k].val() - a0[i as int]@[e].val() * al@[k].val() by {
                            lemma_mul_unit(al@[k].val());
                        }
                        lemma_mul_unit(bl.val());
                    }
                } else {
                    let mut k: usize = 0;
                    while k < n
                        invariant
                            self.well_shaped(),
                            n == self.cols(),
                            self.rows() == a0.len(),
                            l == leaving_row as int,
                            e == entering as int,
                            0 <= l < self.basis@.len(),
                            0 <= e < n,
                            i < self.rows(),
                            i != l,
                            k <= n,
                            factor.wf(),
                            factor.val() == a0[i as int]@[e].val(),
                            self.c@ == old(self).c@,
                            self.basis@ == old(self).basis@,
                            self.b@ == b1,
                            forall|r: int| 0 <= r < a0.len() && r != i ==> #[trigger] self.a@[r] == a1[r],
                            a1[l] == al,
                            forall|q: int|
                                0 <= q < k ==> #[trigger] self.a@[i as int]@[q].val() == a0[i as int]@[q].val()
                                    - a0[i as int]@[e].val() * al@[q].val(),
                            forall|q: int| k <= q < n ==> #[trigger] self.a@[i as int]@[q] == a0[i as int]@[q],
                        decreases n - k,
                    {
                        assert(self.a@[l]@[k as int].wf());
                        assert(self.a@[i as int]@[k as int].wf());
                        let term = factor.mul(&self.a[leaving_row][k]);
                        let d = self.a[i][k].sub(&term);
                        self.a[i][k] = d;
                        k += 1;
                    }
                    assert(self.b@[l].wf());
                    assert(self.b@[i as int].wf());
                    let br = self.b[leaving_row].clone();
                    let t = factor.mul(&br);
                    let d = self.b[i].sub(&t);
                    self.b[i] = d;
                }
            }
            i += 1;
        }
        self.basis.set(leaving_row, entering);
    }
}

/// Row `i` of `old`, if its basic column is not among `0..limit` and its
/// entries there are all zero, keeps its right-hand side and those zeros in
/// `new`.
pub open spec fn keeps_frozen_row(old: Tableau, new: Tableau, i: int, limit: int) -> bool {
    old.basis@[i] >= limit && old.row_zero_below(i, limit) ==> new.b@[i].val() == old.b@[i].val()
        && new.row_zero_below(i, limit)
}

impl Tableau {
    /// Runs the simplex method from a canonical feasible basis: pivots on
    /// the first column with a positive reduced cost, at the first row of the
    /// ratio test, until no column has a positive reduced cost (`true`) or
    /// the entering column has no positive entry, so the objective is
    /// unbounded (`false`). Pivots keep the solutions of the system, the
    /// canonical form and the feasibility of the basic solution, and never
    /// lower the objective value of the basis.
    ///
    /// On some degenerate tableaux this rule comes back to a basis it has
    /// already had, and from there would repeat the same pivots without end;
    /// the method notices the repeated basis and returns `false` there too.
    pub fn optimize(&mut self) -> (r: bool)
        requires
            old(self).well_shaped(),
            old(self).is_canonical(),
            old(self).is_feasible(),
        ensures
            final(self).well_shaped(),
            final(self).rows() == old(self).rows(),
            final(self).cols() == old(self).cols(),
            final(self).c@ == old(self).c@,
            final(self).basis@.len() == old(self).basis@.len(),
            forall|x: Seq<real>| #[trigger] final(self).solves(x) <==> old(self).solves(x),
            final(self).is_canonical(),
            final(self).is_feasible(),
            final(self).objective_of(final(self).basis@.len() as int) >= old(self).objective_of(
                old(self).basis@.len() as int,
            ),
            r ==> final(self).is_optimal(),
            !r ==> (exists|k: int|
                0 <= k < final(self).cols() && #[trigger] final(self).reduced_cost_of(k) > 0real && forall|i: int|
                    0 <= i < final(self).rows() ==> #[trigger] final(self).entry(i, k) <= 0real) || rule_cycles(
                *old(self),
                if old(self).rows() == 0 {
                    0
                } else {
                    old(self).cols()
                },
            ),
    {
        let n = self.n_cols();
        self.optimize_among(n)
    }

    /// The simplex method with only the columns `0..limit` allowed to enter
    /// the basis. Rows whose basic column is not among them and whose entries
    /// there are all zero are left as they are.
    fn optimize_among(&mut self, limit: usize) -> (r: bool)
        requires
            old(self).well_shaped(),
            old(self).is_canonical(),
            old(self).is_feasible(),
            limit <= old(self).cols(),
        ensures
            final(self).well_shaped(),
            final(self).rows() == old(self).rows(),
            final(self).cols() == old(self).cols(),
            final(self).c@ == old(self).c@,
            final(self).basis@.len() == old(self).basis@.len(),
            forall|x: Seq<real>| #[trigger] final(self).solves(x) <==> old(self).solves(x),
            final(self).is_canonical(),
            final(self).is_feasible(),
            final(self).objective_of(final(self).basis@.len() as int) >= old(self).objective_of(
                old(self).basis@.len() as int,
            ),
            r ==> forall|k: int| 0 <= k < limit ==> #[trigger] final(self).reduced_cost_of(k) <= 0real,
            !r ==> (exists|k: int|
                0 <= k < limit && #[trigger] final(self).reduced_cost_of(k) > 0real && forall|i: int|
                    0 <= i < final(self).rows() ==> #[trigger] final(self).entry(i, k) <= 0real) || rule_cycles(
                *old(self),
                limit as int,
            ),
            forall|i: int|
                0 <= i < final(self).rows() && final(self).basis@[i] >= limit ==> #[trigger] final(self).basis@[i]
                    == old(self).basis@[i],
            forall|i: int| 0 <= i < old(self).rows() ==> #[trigger] keeps_frozen_row(*old(self), *final(self), i, limit as int),
    {
        let ghost bound = power(old(self).cols(), old(self).rows() as nat);
        let ghost mut hs: Seq<Tableau> = seq![*self];
        let ghost mut es: Seq<int> = Seq::empty();
        let ghost mut ls: Seq<int> = Seq::empty();
        let mut seen: Vec<Vec<usize>> = Vec::new();
        seen.push(copy_indices(&self.basis));
        proof {
            assert(run_state(hs[0], hs[0], limit as int));
            assert(is_run(hs, es, ls, limit as int));
            lemma_run_length(hs, es, ls, limit as int);
        }
        loop
            invariant
                self.well_shaped(),
                limit <= self.cols(),
                self.rows() == old(self).rows(),
                self.cols() == old(self).cols(),
                self.c@ == old(self).c@,
                self.basis@.len() == old(self).basis@.len(),
                self.basis@.len() == self.rows(),
                forall|x: Seq<real>| #[trigger] self.solves(x) <==> old(self).solves(x),
                self.is_canonical(),
                self.is_feasible(),
                self.objective_of(self.basis@.len() as int) >= old(self).objective_of(old(self).basis@.len() as int),
                forall|i: int|
                    0 <= i < self.rows() && self.basis@[i] >= limit ==> #[trigger] self.basis@[i] == old(self).basis@[i],
                forall|i: int| 0 <= i < old(self).rows() ==> #[trigger] keeps_frozen_row(*old(self), *self, i, limit as int),
                is_run(hs, es, ls, limit as int),
                hs[0] == *old(self),
                hs.last() == *self,
                bound == power(old(self).cols(), old(self).rows() as nat),
                hs.len() <= bound,
                !repeats_basis(hs),
                seen@.len() == hs.len(),
                forall|k: int| 0 <= k < seen@.len() ==> #[trigger] seen@[k]@ == hs[k].basis@,
            decreases bound - hs.len(),
        {
            let entering = match self.entering_among(limit) {
                Some(col) => col,
                None => return true,
            };
            let leaving = match self.leaving_row(entering) {
                Some(row) => row,
                None => return false,
            };
            let ghost before = *self;
            self.pivot(entering, leaving);
            proof {
                let (e, l) = (entering as int, leaving as int);
                assert forall|x: Seq<real>| #[trigger] self.solves(x) <==> old(self).solves(x) by {
                    lemma_pivot_keeps_solutions(before, *self, e, l, x);
                    assert(before.solves(x) <==> old(self).solves(x));
                }
                assert(before.ratio_ok(e, l));
                lemma_pivot_keeps_canonical(before, *self, e, l);
                lemma_pivot_keeps_feasible(before, *self, e, l);
                lemma_pivot_objective(before, *self, e, l);
                assert forall|i: int|
                    0 <= i < self.rows() && self.basis@[i] >= limit implies #[trigger] self.basis@[i]
                        == old(self).basis@[i] by {
                    assert(i != l);
                    assert(self.basis@[i] == before.basis@[i]);
                }
                assert forall|i: int| 0 <= i < old(self).rows() implies #[trigger] keeps_frozen_row(
                    *old(self),
                    *self,
                    i,
                    limit as int,
                ) by {
                    assert(keeps_frozen_row(*old(self), before, i, limit as int));
                    if old(self).basis@[i] >= limit && old(self).row_zero_below(i, limit as int) {
                        assert(before.row_zero_below(i, limit as int));
                        assert(before.entry(i, e) == 0real);
                        assert(i != l);
                        lemma_mul_unit(self.b@[l].val());
                        assert forall|j: int| 0 <= j < limit implies #[trigger] self.entry(i, j) == 0real by {
                            assert(before.entry(i, j) == 0real);
                            lemma_mul_unit(self.entry(l, j));
                        }
                    }
                }
                let (hs0, es0, ls0) = (hs, es, ls);
                assert(rule_step(before, *self, e, l, limit as int));
                assert(run_state(hs0[0], *self, limit as int));
                hs = hs0.push(*self);
                es = es0.push(e);
                ls = ls0.push(l);
                assert forall|k: int| 0 <= k < hs.len() implies #[trigger] run_state(hs[0], hs[k], limit as int) by {
                    if k < hs0.len() {
                        assert(hs[k] == hs0[k]);
                        assert(run_state(hs0[0], hs0[k], limit as int));
                    }
                }
                assert forall|k: int| 0 <= k < es.len() implies #[trigger] rule_step(
                    hs[k],
                    hs[k + 1],
                    es[k],
                    ls[k],
                    limit as int,
                ) by {
                    if k < es0.len() {
                        assert(hs[k] == hs0[k]);
                        assert(hs[k + 1] == hs0[k + 1]);
                        assert(rule_step(hs0[k], hs0[k + 1], es0[k], ls0[k], limit as int));
                    } else {
                        assert(hs[k] == hs0.last());
                    }
                }
                assert(is_run(hs, es, ls, limit as int));
            }
            match find_indices(&seen, &self.basis) {
                Some(p) => {
                    proof {
                        let q = hs.len() - 1;
                        assert(hs[p as int].basis@ == hs[q].basis@);
                        assert(repeats_basis(hs));
                    }
                    return false;
                },
                None => {
                    let ghost seen0 = seen@;
                    seen.push(copy_indices(&self.basis));
                    proof {
                        assert forall|p: int, q: int| 0 <= p < q < hs.len() implies #[trigger] hs[p].basis@
                            != #[trigger] hs[q].basis@ by {
                            if q < hs.len() - 1 {
                                assert(seen0[p]@ == hs[p].basis@);
                                assert(!repeats_basis(hs.drop_last()));
                                assert(hs.drop_last()[p] == hs[p] && hs.drop_last()[q] == hs[q]);
                            } else {
                                assert(seen0[p]@ == hs[p].basis@);
                            }
                        }
                        lemma_run_length(hs, es, ls, limit as int);
                    }
                },
            }
        }
    }

    /// The basic solution: `x[basis[i]] = b[i]`, zero off the basis (a
    /// later row wins where the basis names a column twice).
    pub fn primal_solution(&self) -> (x: Vec<Rational>)
        requires
            self.well_shaped(),
        ensures
            x@.len() == (if self.rows() == 0 { 0 } else { self.cols() }),
            all_wf(x@),
            forall|j: int|
                0 <= j < x@.len() && (forall|i: int| 0 <= i < self.basis@.len() ==> self.basis@[i] != j)
                    ==> #[trigger] x@[j].val() == 0real,
            forall|i: int|
                0 <= i < self.basis@.len() && (forall|i2: int|
                    i < i2 < self.basis@.len() ==> self.basis@[i2] != self.basis@[i]) ==> #[trigger] x@[self.basis@[i] as int].val()
                    == self.b@[i].val(),
    {
        let mut x = zeros(self.n_cols());
        let mut k: usize = 0;
        while k < self.basis.len()
            invariant
                self.well_shaped(),
                k <= self.basis@.len(),
                x@.len() == (if self.rows() == 0 { 0 } else { self.cols() }),
                all_wf(x@),
                forall|j: int|
                    0 <= j < x@.len() && (forall|i: int| 0 <= i < k ==> self.basis@[i] != j) ==> #[trigger] x@[j].val()
                        == 0real,
                forall|i: int|
                    0 <= i < k && (forall|i2: int| i < i2 < k ==> self.basis@[i2] != self.basis@[i])
                        ==> #[trigger] x@[self.basis@[i] as int].val() == self.b@[i].val(),
            decreases self.basis@.len() - k,
        {
            let basis_col = self.basis[k];
            assert(self.b@[k as int].wf());
            x.set(basis_col, self.b[k].clone());
            proof {
                assert forall|i: int|
                    0 <= i < k + 1 && (forall|i2: int| i < i2 < k + 1 ==> self.basis@[i2] != self.basis@[i])
                        implies #[trigger] x@[self.basis@[i] as int].val() == self.b@[i].val() by {
                    if i < k {
                        assert(self.basis@[k as int] != self.basis@[i]);
                    }
                }
            }
            k += 1;
        }
        x
    }

    /// The objective value of the basic solution: `sum_i c[basis[i]] * b[i]`.
    pub fn objective_value(&self) -> (r: Rational)
        requires
            self.well_shaped(),
        ensures
            r.wf(),
            r.val() == self.objective_of(self.basis@.len() as int),
    {
        let mut obj = Rational::zero();
        let mut k: usize = 0;
        while k < self.basis.len()
            invariant
                self.well_shaped(),
                k <= self.basis@.len(),
                obj.wf(),
                obj.val() == self.objective_of(k as int),
            decreases self.basis@.len() - k,
        {
            let basis_col = self.basis[k];
            assert(self.c@[basis_col as int].wf());
            assert(self.b@[k as int].wf());
            let term = self.c[basis_col].mul(&self.b[k]);
            obj = obj.add(&term);
            k += 1;
        }
        obj
    }
}

impl Tableau {
    /// The objective coefficients, as reals.
    pub open spec fn costs(&self) -> Seq<real> {
        vals(self.c@)
    }

    /// The reduced costs of all columns.
    pub open spec fn reduced_costs(&self) -> Seq<real> {
        Seq::new(self.c@.len(), |j: int| self.reduced_cost_of(j))
    }

    /// The basic costs `basic_cost(j, k)` of all columns.
    pub open spec fn basic_costs(&self, k: int) -> Seq<real> {
        Seq::new(self.c@.len(), |j: int| self.basic_cost(j, k))
    }

    /// `sum_{i < k} c[basis[i]] * (row i · z)`.
    pub open spec fn weighted_rows(&self, z: Seq<real>, k: int) -> real
        decreases k,
    {
        if k <= 0 {
            0real
        } else {
            self.weighted_rows(z, k - 1) + self.c@[self.basis@[k - 1] as int].val() * dot(self.row(k - 1), z, self.cols())
        }
    }
}

/// A copy of `v`.
fn copy_indices(v: &Vec<usize>) -> (r: Vec<usize>)
    ensures
        r@ == v@,
{
    let mut r: Vec<usize> = Vec::new();
    let mut k: usize = 0;
    while k < v.len()
        invariant
            k <= v@.len(),
            r@ == v@.take(k as int),
        decreases v@.len() - k,
    {
        r.push(v[k]);
        k += 1;
        assert(r@ =~= v@.take(k as int));
    }
    assert(v@.take(v@.len() as int) =~= v@);
    r
}

/// Whether `a` and `b` hold the same indices.
fn same_indices(a: &Vec<usize>, b: &Vec<usize>) -> (r: bool)
    ensures
        r == (a@ == b@),
{
    if a.len() != b.len() {
        return false;
    }
    let mut k: usize = 0;
    while k < a.len()
        invariant
            a@.len() == b@.len(),
            k <= a@.len(),
            forall|q: int| 0 <= q < k ==> a@[q] == b@[q],
        decreases a@.len() - k,
    {
        if a[k] != b[k] {
            return false;
        }
        k += 1;
    }
    assert(a@ =~= b@);
    true
}

/// The position of `b` among the entries of `seen`, if it is one of them.
fn find_indices(seen: &Vec<Vec<usize>>, b: &Vec<usize>) -> (r: Option<usize>)
    ensures
        r is None ==> forall|k: int| 0 <= k < seen@.len() ==> #[trigger] seen@[k]@ != b@,
        r matches Some(p) ==> p < seen@.len() && seen@[p as int]@ == b@,
{
    let mut k: usize = 0;
    while k < seen.len()
        invariant
            k <= seen@.len(),
            forall|q: int| 0 <= q < k ==> #[trigger] seen@[q]@ != b@,
        decreases seen@.len() - k,
    {
        if same_indices(&seen[k], b) {
            return Some(k);
        }
        k += 1;
    }
    None
}

/// A vector of `len` zeros.
pub(crate) fn zeros(len: usize) -> (r: Vec<Rational>)
    ensures
        r@.len() == len,
        all_wf(r@),
        forall|k: int| 0 <= k < len ==> #[trigger] r@[k].val() == 0real,
{
    let mut r: Vec<Rational> = Vec::new();
    let mut k: usize = 0;
    while k < len
        invariant
            k <= len,
            r@.len() == k,
            all_wf(r@),
            forall|q: int| 0 <= q < k ==> #[trigger] r@[q].val() == 0real,
        decreases len - k,
    {
        r.push(Rational::zero());
        k += 1;
    }
    r
}

} // verus!
