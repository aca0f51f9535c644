//! The extreme points of the maximin strategies of a margin matrix, and
//! their centroid.
//!
//! The maximin strategies of the margin game are the points `p` with
//! `p >= 0`, `sum(p) = 1` and `sum_i M[i][j] * p[i] >= 0` for every `j`.
//! With slack variables `s[j] >= 0` these are the non-negative solutions of
//! the `(n + 1) × 2n` equality system
//!
//! ```text
//! sum_i M[i][j] * p[i] - s[j] = 0     (one row per candidate j)
//! sum_i p[i]                  = 1
//! ```
//!
//! Its extreme points are the non-negative basic solutions: `n - 1` variables
//! set to zero and the remaining square system solved exactly. The centroid
//! is the average of the distinct extreme points found.
use vstd::prelude::*;

use crate::linear::{
    dot, lemma_div_cancel, lemma_dot_add_right, lemma_dot_ext, lemma_dot_ones, lemma_dot_scale_right,
    lemma_dot_spread, lemma_dot_tail, lemma_mul_unit, lemma_positive_factor, lemma_spread_at,
    lemma_spread_between, lemma_spread_nonneg, lemma_sum_add, lemma_sum_ext, lemma_sum_scale, spread,
    strictly_increasing, sum, vals,
};
use crate::margins::rows_view;
use crate::maximal_lottery::{column, is_maximal_lottery, payoff};
use crate::rational::Rational;
use crate::solver::gauss::{all_wf, is_matrix, kernel_witness, solve_linear, solves_square};

verus! {

/// `s` is strictly increasing with entries below `bound`.
pub open spec fn increasing_below(s: Seq<usize>, bound: int) -> bool {
    &&& forall|a: int, b: int| 0 <= a < b < s.len() ==> s[a] < s[b]
    &&& forall|a: int| 0 <= a < s.len() ==> #[trigger] s[a] < bound
}

/// Entry `(r, c)` of the equality system whose non-negative solutions are
/// the maximin strategies of `m` with their slacks: rows `r < n` read
/// `sum_i m[i][r] * p[i] - s[r]`, row `n` reads `sum_i p[i]`.
pub open spec fn system_entry(m: Seq<Seq<i64>>, n: int, r: int, c: int) -> real {
    if r < n {
        if c < n {
            m[c][r] as real
        } else if c == n + r {
            -1real
        } else {
            0real
        }
    } else if c < n {
        1real
    } else {
        0real
    }
}

/// A non-negative solution `y` of the equality system of `m` gives, on its
/// first `n` entries, a maximal lottery of `m`.
proof fn lemma_basic_solution_is_maximal(
    m: Seq<Seq<i64>>,
    a: Seq<Vec<Rational>>,
    b: Seq<Rational>,
    y: Seq<real>,
    p: Seq<real>,
)
    requires
        m.len() >= 1,
        is_matrix(a, m.len() + 1int, 2 * m.len() as int),
        b.len() == m.len() + 1,
        forall|r: int, c: int|
            0 <= r <= m.len() && 0 <= c < 2 * m.len() ==> #[trigger] a[r]@[c].val() == system_entry(
                m,
                m.len() as int,
                r,
                c,
            ),
        forall|r: int| 0 <= r <= m.len() ==> #[trigger] b[r].val() == (if r == m.len() { 1real } else { 0real }),
        forall|c: int| 0 <= c < 2 * m.len() ==> #[trigger] y[c] >= 0real,
        forall|r: int| 0 <= r <= m.len() ==> #[trigger] dot(vals(a[r]@), y, 2 * m.len() as int) == b[r].val(),
        p.len() == m.len(),
        forall|i: int| 0 <= i < m.len() ==> #[trigger] p[i] == y[i],
    ensures
        is_maximal_lottery(m, p),
{
    let n = m.len() as int;
    let last = vals(a[n]@);
    assert(dot(last, y, 2 * n) == b[n].val());
    lemma_dot_tail(last, y, n, -1, 2 * n);
    lemma_dot_ones(last, y, n);
    lemma_sum_ext(p, y, n);
    assert forall|j: int| 0 <= j < n implies #[trigger] payoff(m, p, j) >= 0real by {
        let u = vals(a[j]@);
        assert(dot(u, y, 2 * n) == b[j].val());
        lemma_dot_tail(u, y, n, n + j, 2 * n);
        assert(u[n + j] == -1real);
        assert(y[n + j] >= 0real);
        lemma_dot_ext(u, column(m, j), y, p, n);
    }
}

/// The variables of `0..c` that are not in `zeros`, in increasing order.
pub open spec fn complement_upto(zeros: Seq<usize>, c: int) -> Seq<usize>
    decreases c,
{
    if c <= 0 {
        Seq::empty()
    } else if zeros.contains((c - 1) as usize) {
        complement_upto(zeros, c - 1)
    } else {
        complement_upto(zeros, c - 1).push((c - 1) as usize)
    }
}

/// The square subsystem of the equality system of `m` on the columns
/// `basis`.
pub open spec fn basis_matrix(m: Seq<Seq<i64>>, n: int, basis: Seq<usize>) -> Seq<Seq<real>> {
    Seq::new(
        (n + 1) as nat,
        |r: int| Seq::new((n + 1) as nat, |k: int| system_entry(m, n, r, basis[k] as int)),
    )
}

/// The right-hand side of the equality system: zeros, then a one.
pub open spec fn system_rhs(n: int) -> Seq<real> {
    Seq::new((n + 1) as nat, |r: int| if r == n { 1real } else { 0real })
}

/// `y` solves the `k × k` system `a · y = rhs`.
pub open spec fn solves_real(a: Seq<Seq<real>>, rhs: Seq<real>, y: Seq<real>, k: int) -> bool {
    forall|i: int| 0 <= i < k ==> #[trigger] dot(a[i], y, k) == rhs[i]
}

/// `x` is the only solution of the `k × k` system `a · y = rhs` (on the
/// first `k` entries).
pub open spec fn unique_solution(a: Seq<Seq<real>>, rhs: Seq<real>, x: Seq<real>, k: int) -> bool {
    &&& x.len() == k
    &&& forall|y: Seq<real>| #[trigger] solves_real(a, rhs, y, k) <==> forall|j: int| 0 <= j < k ==> y[j] == x[j]
}

/// The extreme point that setting the variables `zeros` to zero gives: where
/// the remaining `n + 1` columns have a unique solution, and it is
/// non-negative, its candidate part.
pub open spec fn point_of(m: Seq<Seq<i64>>, n: int, zeros: Seq<usize>) -> Option<Seq<real>> {
    let basis = complement_upto(zeros, 2 * n);
    let a = basis_matrix(m, n, basis);
    let rhs = system_rhs(n);
    if exists|x: Seq<real>| #[trigger] unique_solution(a, rhs, x, n + 1) {
        let x = choose|x: Seq<real>| #[trigger] unique_solution(a, rhs, x, n + 1);
        if forall|k: int| 0 <= k < n + 1 ==> #[trigger] x[k] >= 0real {
            Some(Seq::new(n as nat, |i: int| spread(x, basis, 2 * n)[i]))
        } else {
            None
        }
    } else {
        None
    }
}

/// Records the point `p`, if any, unless an equal one is already recorded.
pub open spec fn add_point(points: Seq<Seq<real>>, p: Option<Seq<real>>) -> Seq<Seq<real>> {
    match p {
        Some(q) => if points.contains(q) {
            points
        } else {
            points.push(q)
        },
        None => points,
    }
}

/// The values of recorded points.
pub open spec fn point_values(points: Seq<Vec<Rational>>) -> Seq<Seq<real>> {
    points.map_values(|v: Vec<Rational>| vals(v@))
}

/// Spreads of values that agree on the basis positions agree.
proof fn lemma_spread_ext(x1: Seq<real>, x2: Seq<real>, basis: Seq<usize>, len: int)
    requires
        forall|k: int| 0 <= k < basis.len() ==> #[trigger] x1[k] == x2[k],
    ensures
        spread(x1, basis, len) == spread(x2, basis, len),
{
    assert forall|c: int| 0 <= c < len implies #[trigger] spread(x1, basis, len)[c] == spread(x2, basis, len)[c] by {
        if basis.contains(c as usize) {
            let k = basis.index_of(c as usize);
            assert(0 <= k < basis.len());
        }
    }
    assert(spread(x1, basis, len) =~= spread(x2, basis, len));
}

/// A square system whose matrix is singular has no unique solution.
proof fn lemma_singular_not_unique(a: Seq<Seq<real>>, rhs: Seq<real>, k: int, y: Seq<real>, x: Seq<real>)
    requires
        y.len() == k,
        exists|j: int| 0 <= j < k && #[trigger] y[j] != 0real,
        forall|i: int| 0 <= i < k ==> #[trigger] dot(a[i], y, k) == 0real,
    ensures
        !unique_solution(a, rhs, x, k),
{
    if unique_solution(a, rhs, x, k) {
        assert(solves_real(a, rhs, x, k));
        let z = Seq::new(k as nat, |j: int| x[j] + y[j]);
        assert forall|i: int| 0 <= i < k implies #[trigger] dot(a[i], z, k) == rhs[i] by {
            lemma_dot_add_right(a[i], x, y, z, k);
            assert(dot(a[i], x, k) == rhs[i]);
        }
        assert(solves_real(a, rhs, z, k));
        let j = choose|j: int| 0 <= j < k && #[trigger] y[j] != 0real;
        assert(z[j] == x[j]);
    }
}

/// The state of the search for extreme points.
struct ExtremePointSearch {
    /// Number of candidates.
    n: usize,
    /// The margin matrix.
    m: Ghost<Seq<Seq<i64>>>,
    /// The equality system, `(n + 1) × 2n`.
    a: Vec<Vec<Rational>>,
    /// Its right-hand side.
    b: Vec<Rational>,
    /// The distinct extreme points found so far, restricted to the
    /// candidates.
    points: Vec<Vec<Rational>>,
}

impl ExtremePointSearch {
    spec fn wf(&self) -> bool {
        &&& 2 <= self.n
        &&& 2 * self.n + 2 < usize::MAX
        &&& self.m@.len() == self.n
        &&& is_matrix(self.a@, self.n + 1, 2 * self.n)
        &&& forall|r: int, c: int|
            0 <= r <= self.n && 0 <= c < 2 * self.n ==> #[trigger] self.a@[r]@[c].val() == system_entry(
                self.m@,
                self.n as int,
                r,
                c,
            )
        &&& self.b@.len() == self.n + 1
        &&& all_wf(self.b@)
        &&& forall|r: int| 0 <= r <= self.n ==> #[trigger] self.b@[r].val() == (if r == self.n {
            1real
        } else {
            0real
        })
        &&& is_matrix(self.points@, self.points@.len() as int, self.n as int)
        &&& forall|k: int| 0 <= k < self.points@.len() ==> #[trigger] is_maximal_lottery(self.m@, vals(self.points@[k]@))
    }

    /// Solves the square subsystem whose zero variables are `zeros` and
    /// records its solution as an extreme point when it is non-negative and
    /// new.
    fn visit(&mut self, zeros: &Vec<usize>)
        requires
            old(self).wf(),
            zeros@.len() == old(self).n - 1,
            increasing_below(zeros@, 2 * old(self).n),
        ensures
            final(self).wf(),
            final(self).n == old(self).n,
            final(self).m == old(self).m,
            final(self).a == old(self).a,
            final(self).b == old(self).b,
            point_values(final(self).points@) == add_point(
                point_values(old(self).points@),
                point_of(old(self).m@, old(self).n as int, zeros@),
            ),
    {
        let n = self.n;
        let total_vars = 2 * n;
        let rows = n + 1;
        // The basis: all variables not in `zeros`, in increasing order.
        let mut basis: Vec<usize> = Vec::new();
        let ghost mut zi: int = 0;
        let mut c: usize = 0;
        while c < total_vars
            invariant
                total_vars == 2 * n,
                zeros@.len() == n - 1,
                increasing_below(zeros@, total_vars as int),
                c <= total_vars,
                0 <= zi <= zeros@.len(),
                basis@.len() + zi == c,
                forall|k: int| 0 <= k < zi ==> #[trigger] zeros@[k] < c,
                zi < zeros@.len() ==> c <= zeros@[zi],
                forall|k: int| 0 <= k < basis@.len() ==> #[trigger] basis@[k] < c,
                strictly_increasing(basis@),
                basis@ == complement_upto(zeros@, c as int),
            decreases total_vars - c,
        {
            if !contains_index(zeros, c) {
                basis.push(c);
                proof {
                    if zi < zeros@.len() {
                        assert(zeros@[zi] != c);
                    }
                }
            } else {
                proof {
                    let w = choose|w: int| 0 <= w < zeros@.len() && zeros@[w] == c;
                    if w < zi {
                        assert(zeros@[w] < c);
                    } else if w > zi {
                        assert(zeros@[zi] < zeros@[w]);
                    }
                    zi = zi + 1;
                    if zi < zeros@.len() {
                        assert(zeros@[zi - 1] < zeros@[zi]);
                    }
                }
            }
            c += 1;
        }
        proof {
            if zi < zeros@.len() {
                assert(zeros@[zi] < total_vars);
            }
        }
        // The square subsystem on the basis columns.
        let mut sub: Vec<Vec<Rational>> = Vec::new();
        let mut r: usize = 0;
        while r < rows
            invariant
                self.wf(),
                n == self.n,
                rows == n + 1,
                basis@.len() == rows,
                forall|k: int| 0 <= k < basis@.len() ==> #[trigger] basis@[k] < 2 * n,
                r <= rows,
                is_matrix(sub@, r as int, rows as int),
                forall|r2: int, k: int|
                    0 <= r2 < r && 0 <= k < rows ==> #[trigger] sub@[r2]@[k].val() == self.a@[r2]@[basis@[k] as int].val(),
            decreases rows - r,
        {
            let mut row: Vec<Rational> = Vec::new();
            let mut ci: usize = 0;
            while ci < rows
                invariant
                    self.wf(),
                    n == self.n,
                    rows == n + 1,
                    r < rows,
                    basis@.len() == rows,
                    forall|k: int| 0 <= k < basis@.len() ==> #[trigger] basis@[k] < 2 * n,
                    ci <= rows,
                    row@.len() == ci,
                    all_wf(row@),
                    forall|k: int| 0 <= k < ci ==> #[trigger] row@[k].val() == self.a@[r as int]@[basis@[k] as int].val(),
                decreases rows - ci,
            {
                let var = basis[ci];
                assert(self.a@[r as int]@[var as int].wf());
                row.push(self.a[r][var].clone());
                ci += 1;
            }
            sub.push(row);
            r += 1;
        }
        let ghost am = basis_matrix(self.m@, n as int, basis@);
        let ghost rhs = system_rhs(n as int);
        let ghost old_points = point_values(self.points@);
        proof {
            assert forall|r2: int, k: int| 0 <= r2 < rows && 0 <= k < rows implies #[trigger] sub@[r2]@[k].val()
                == am[r2][k] by {
                assert(sub@[r2]@[k].val() == self.a@[r2]@[basis@[k] as int].val());
            }
            assert forall|r2: int| 0 <= r2 < rows implies #[trigger] self.b@[r2].val() == rhs[r2] by {}
            assert forall|r2: int| 0 <= r2 < rows implies #[trigger] sub@[r2]@.len() == rows by {}
            lemma_sub_solves(sub@, self.b@, am, rhs, rows as int);
        }
        match solve_linear(&sub, &self.b) {
            None => {
                proof {
                    let w = choose|w: Seq<real>| #[trigger] kernel_witness(sub@, w);
                    assert(kernel_witness(sub@, w));
                    assert forall|i: int| 0 <= i < rows implies #[trigger] dot(am[i], w, rows as int) == 0real by {
                        assert(dot(vals(sub@[i]@), w, rows as int) == 0real);
                    }
                    assert forall|x: Seq<real>| !#[trigger] unique_solution(am, rhs, x, rows as int) by {
                        lemma_singular_not_unique(am, rhs, rows as int, w, x);
                    }
                    assert(point_of(self.m@, n as int, zeros@) is None);
                }
            },
            Some(x_basis) => {
                let ghost xv = vals(x_basis@);
                proof {
                    assert forall|w: Seq<real>| #[trigger] solves_real(am, rhs, w, rows as int) <==> forall|j: int|
                        0 <= j < rows ==> w[j] == xv[j] by {
                        assert(solves_square(sub@, self.b@, w) <==> solves_real(am, rhs, w, rows as int));
                    }
                    assert(unique_solution(am, rhs, xv, rows as int));
                    let x2 = choose|x: Seq<real>| #[trigger] unique_solution(am, rhs, x, rows as int);
                    assert(unique_solution(am, rhs, x2, rows as int));
                    assert(solves_real(am, rhs, xv, rows as int));
                    assert forall|j: int| 0 <= j < rows implies #[trigger] xv[j] == x2[j] by {}
                    lemma_spread_ext(xv, x2, basis@, 2 * n);
                }
                if all_nonnegative(&x_basis) {
                    let ghost y = spread(xv, basis@, 2 * n);
                    proof {
                        assert forall|r: int| 0 <= r <= n implies #[trigger] dot(vals(self.a@[r]@), y, 2 * n)
                            == self.b@[r].val() by {
                            assert(dot(vals(sub@[r]@), xv, rows as int) == self.b@[r].val());
                            lemma_dot_spread(
                                vals(self.a@[r]@),
                                vals(sub@[r]@),
                                xv,
                                basis@,
                                2 * n,
                                2 * n,
                                rows as int,
                            );
                        }
                        assert forall|c: int| 0 <= c < 2 * n implies #[trigger] y[c] >= 0real by {
                            lemma_spread_nonneg(xv, basis@, 2 * n, c);
                        }
                    }
                    let mut p: Vec<Rational> = Vec::new();
                    let mut i: usize = 0;
                    while i < n
                        invariant
                            i <= n,
                            p@.len() == i,
                            all_wf(p@),
                            forall|k: int| 0 <= k < i ==> #[trigger] p@[k].val() == 0real,
                        decreases n - i,
                    {
                        p.push(Rational::zero());
                        i += 1;
                    }
                    proof {
                        assert forall|k: int| 0 <= k < n implies #[trigger] p@[k].val() == (if 0 < rows && k
                            >= basis@[0] {
                            0real
                        } else {
                            y[k]
                        }) by {
                            if k < basis@[0] {
                                lemma_spread_between(xv, basis@, 2 * n, 0, k);
                            }
                        }
                    }
                    let mut ci: usize = 0;
                    while ci < rows
                        invariant
                            ci <= rows,
                            rows == n + 1,
                            2 * n + 2 < usize::MAX,
                            x_basis@.len() == rows,
                            xv == vals(x_basis@),
                            y == spread(xv, basis@, 2 * n),
                            all_wf(x_basis@),
                            basis@.len() == rows,
                            strictly_increasing(basis@),
                            forall|k: int| 0 <= k < basis@.len() ==> #[trigger] basis@[k] < 2 * n,
                            p@.len() == n,
                            all_wf(p@),
                            forall|k: int| 0 <= k < n ==> #[trigger] p@[k].val() == (if ci < rows && k
                                >= basis@[ci as int] {
                                0real
                            } else {
                                y[k]
                            }),
                        decreases rows - ci,
                    {
                        let var = basis[ci];
                        if var < n {
                            assert(x_basis@[ci as int].wf());
                            p[var] = x_basis[ci].clone();
                            proof {
                                lemma_spread_at(xv, basis@, 2 * n, ci as int);
                            }
                        }
                        proof {
                            assert forall|k: int| 0 <= k < n implies #[trigger] p@[k].val() == (if ci + 1 < rows
                                && k >= basis@[ci + 1] {
                                0real
                            } else {
                                y[k]
                            }) by {
                                if ci + 1 < rows {
                                    assert(basis@[ci as int] < basis@[ci + 1]);
                                }
                                if basis@[ci as int] < k && !(ci + 1 < rows && k >= basis@[ci + 1]) {
                                    lemma_spread_between(xv, basis@, 2 * n, ci + 1, k);
                                }
                            }
                        }
                        ci += 1;
                    }
                    proof {
                        assert forall|k: int| 0 <= k < n implies #[trigger] vals(p@)[k] == y[k] by {}
                        lemma_basic_solution_is_maximal(self.m@, self.a@, self.b@, y, vals(p@));
                    }
                    proof {
                        let x2 = choose|x: Seq<real>| #[trigger] unique_solution(am, rhs, x, rows as int);
                        assert forall|k: int| 0 <= k < rows implies #[trigger] x2[k] >= 0real by {
                            assert(xv[k] == x2[k]);
                            assert(x_basis@[k].val() >= 0real);
                        }
                        assert(vals(p@) =~= Seq::new(n as nat, |i: int| spread(x2, basis@, 2 * n)[i]));
                        assert(point_of(self.m@, n as int, zeros@) == Some(vals(p@)));
                    }
                    if !contains_point(&self.points, &p) {
                        let ghost before = self.points@;
                        let ghost pv = vals(p@);
                        self.points.push(p);
                        proof {
                            assert(point_values(self.points@) =~= old_points.push(pv));
                        }
                        proof {
                            assert forall|k: int| 0 <= k < self.points@.len() implies #[trigger] is_maximal_lottery(
                                self.m@,
                                vals(self.points@[k]@),
                            ) by {
                                if k < before.len() {
                                    assert(self.points@[k] == before[k]);
                                }
                            }
                        }
                    }
                } else {
                    proof {
                        let x2 = choose|x: Seq<real>| #[trigger] unique_solution(am, rhs, x, rows as int);
                        let k = choose|k: int| 0 <= k < x_basis@.len() && !(#[trigger] x_basis@[k].val() >= 0real);
                        assert(xv[k] == x2[k]);
                        assert(point_of(self.m@, n as int, zeros@) is None);
                    }
                }
            },
        }
    }
}

/// `zeros` contains `c`.
pub(crate) fn contains_index(zeros: &Vec<usize>, c: usize) -> (r: bool)
    ensures
        r == zeros@.contains(c),
{
    let mut k: usize = 0;
    while k < zeros.len()
        invariant
            k <= zeros@.len(),
            forall|q: int| 0 <= q < k ==> zeros@[q] != c,
        decreases zeros@.len() - k,
    {
        if zeros[k] == c {
            return true;
        }
        k += 1;
    }
    false
}

/// Every entry of `x` is at least zero.
fn all_nonnegative(x: &Vec<Rational>) -> (r: bool)
    requires
        all_wf(x@),
    ensures
        r == forall|k: int| 0 <= k < x@.len() ==> #[trigger] x@[k].val() >= 0real,
{
    let mut k: usize = 0;
    while k < x.len()
        invariant
            all_wf(x@),
            k <= x@.len(),
            forall|q: int| 0 <= q < k ==> #[trigger] x@[q].val() >= 0real,
        decreases x@.len() - k,
    {
        assert(x@[k as int].wf());
        if !x[k].is_nonnegative() {
            return false;
        }
        k += 1;
    }
    true
}

/// The two vectors are equal in value, entry by entry.
fn same_point(p: &Vec<Rational>, q: &Vec<Rational>) -> (r: bool)
    requires
        all_wf(p@),
        all_wf(q@),
        p@.len() == q@.len(),
    ensures
        r == forall|k: int| 0 <= k < p@.len() ==> #[trigger] q_eq_at(p@, q@, k),
{
    let mut k: usize = 0;
    while k < p.len()
        invariant
            all_wf(p@),
            all_wf(q@),
            p@.len() == q@.len(),
            k <= p@.len(),
            forall|i: int| 0 <= i < k ==> #[trigger] q_eq_at(p@, q@, i),
        decreases p@.len() - k,
    {
        assert(p@[k as int].wf() && q@[k as int].wf());
        if !p[k].equals(&q[k]) {
            assert(!q_eq_at(p@, q@, k as int));
            return false;
        }
        k += 1;
    }
    true
}

/// Entries `k` of the two vectors are equal in value.
pub open spec fn q_eq_at(p: Seq<Rational>, q: Seq<Rational>, k: int) -> bool {
    p[k].val() == q[k].val()
}

/// Some recorded point equals `p` in value, entry by entry.
fn contains_point(points: &Vec<Vec<Rational>>, p: &Vec<Rational>) -> (r: bool)
    requires
        is_matrix(points@, points@.len() as int, p@.len() as int),
        all_wf(p@),
    ensures
        r == point_values(points@).contains(vals(p@)),
{
    let mut k: usize = 0;
    while k < points.len()
        invariant
            is_matrix(points@, points@.len() as int, p@.len() as int),
            all_wf(p@),
            k <= points@.len(),
            forall|q: int| 0 <= q < k ==> #[trigger] point_values(points@)[q] != vals(p@),
        decreases points@.len() - k,
    {
        let same = same_point(&points[k], p);
        proof {
            assert(point_values(points@)[k as int] == vals(points@[k as int]@));
            if same {
                assert(vals(points@[k as int]@) =~= vals(p@)) by {
                    assert forall|i: int| 0 <= i < p@.len() implies #[trigger] vals(points@[k as int]@)[i]
                        == vals(p@)[i] by {
                        assert(q_eq_at(points@[k as int]@, p@, i));
                    }
                }
            } else {
                let i = choose|i: int| 0 <= i < points@[k as int]@.len() && !#[trigger] q_eq_at(points@[k as int]@, p@, i);
                assert(vals(points@[k as int]@)[i] != vals(p@)[i]);
            }
        }
        if same {
            return true;
        }
        k += 1;
    }
    false
}

/// The square subsystem holds in value exactly where its real model does.
proof fn lemma_sub_solves(sub: Seq<Vec<Rational>>, b: Seq<Rational>, a: Seq<Seq<real>>, rhs: Seq<real>, k: int)
    requires
        sub.len() == k,
        b.len() == k,
        forall|r: int, c: int| 0 <= r < k && 0 <= c < k ==> #[trigger] sub[r]@[c].val() == a[r][c],
        forall|r: int| 0 <= r < k ==> #[trigger] sub[r]@.len() == k,
        forall|r: int| 0 <= r < k ==> #[trigger] b[r].val() == rhs[r],
    ensures
        forall|y: Seq<real>| #[trigger] solves_square(sub, b, y) <==> solves_real(a, rhs, y, k),
        forall|y: Seq<real>, i: int| 0 <= i < k ==> #[trigger] dot(vals(sub[i]@), y, k) == dot(a[i], y, k),
{
    assert forall|y: Seq<real>, i: int| 0 <= i < k implies #[trigger] dot(vals(sub[i]@), y, k) == dot(a[i], y, k) by {
        assert forall|c: int| 0 <= c < k implies vals(sub[i]@)[c] == a[i][c] && y[c] == y[c] by {
            assert(sub[i]@[c].val() == a[i][c]);
        }
        lemma_dot_ext(vals(sub[i]@), a[i], y, y, k);
    }
    assert forall|y: Seq<real>| #[trigger] solves_square(sub, b, y) <==> solves_real(a, rhs, y, k) by {
        if solves_square(sub, b, y) {
            assert forall|i: int| 0 <= i < k implies #[trigger] dot(a[i], y, k) == rhs[i] by {
                assert(dot(vals(sub[i]@), y, k) == b[i].val());
                assert(dot(vals(sub[i]@), y, k) == dot(a[i], y, k));
            }
        }
        if solves_real(a, rhs, y, k) {
            assert forall|i: int| 0 <= i < sub.len() implies #[trigger] dot(vals(sub[i]@), y, sub.len() as int)
                == b[i].val() by {
                assert(dot(a[i], y, k) == rhs[i]);
                assert(dot(vals(sub[i]@), y, k) == dot(a[i], y, k));
            }
        }
    }
}

/// The first variable that can extend `current`: one past its last entry.
pub open spec fn next_start(current: Seq<usize>) -> int {
    if current.len() == 0 {
        0
    } else {
        current.last() + 1
    }
}

/// The last variable that can extend `current` and leave room for the
/// `size - current.len() - 1` larger ones after it among `0..total`.
pub open spec fn next_end(current: Seq<usize>, size: int, total: int) -> int {
    let d = size - current.len();
    if total >= d {
        total - d
    } else {
        0
    }
}

/// The strictly increasing extensions of `current` to `size` variables out
/// of `0..total`, in lexicographic order.
pub open spec fn extensions(current: Seq<usize>, size: int, total: int) -> Seq<Seq<usize>>
    decreases size - current.len(), total + 2,
{
    if current.len() >= size {
        seq![current]
    } else if next_start(current) > next_end(current, size, total) || next_end(current, size, total) > total || next_start(current) < 0 {
        Seq::empty()
    } else {
        extensions_from(current, next_start(current), next_end(current, size, total), size, total)
    }
}

/// The extensions of `current` that continue with one of the variables
/// `i..=end`, in lexicographic order.
pub open spec fn extensions_from(current: Seq<usize>, i: int, end: int, size: int, total: int) -> Seq<
    Seq<usize>,
>
    decreases size - current.len(), end + 1 - i,
{
    if current.len() >= size || i > end {
        Seq::empty()
    } else {
        extensions(current.push(i as usize), size, total) + extensions_from(current, i + 1, end, size, total)
    }
}

/// The points recorded by visiting the zero sets `sets` in order, starting
/// from `points`.
pub open spec fn fold_points(m: Seq<Seq<i64>>, n: int, points: Seq<Seq<real>>, sets: Seq<Seq<usize>>) -> Seq<
    Seq<real>,
>
    decreases sets.len(),
{
    if sets.len() == 0 {
        points
    } else {
        fold_points(m, n, add_point(points, point_of(m, n, sets[0])), sets.drop_first())
    }
}

/// Visiting two lists of zero sets in turn visits their concatenation.
proof fn lemma_fold_points_concat(m: Seq<Seq<i64>>, n: int, points: Seq<Seq<real>>, s1: Seq<Seq<usize>>, s2: Seq<Seq<usize>>)
    ensures
        fold_points(m, n, points, s1 + s2) == fold_points(m, n, fold_points(m, n, points, s1), s2),
    decreases s1.len(),
{
    if s1.len() > 0 {
        assert((s1 + s2)[0] == s1[0]);
        assert((s1 + s2).drop_first() =~= s1.drop_first() + s2);
        lemma_fold_points_concat(m, n, add_point(points, point_of(m, n, s1[0])), s1.drop_first(), s2);
    } else {
        assert(s1 + s2 =~= s2);
    }
}

/// `s` extends `current` to `size` strictly increasing variables below
/// `total`.
pub open spec fn is_completion(current: Seq<usize>, s: Seq<usize>, size: int, total: int) -> bool {
    &&& s.len() == size
    &&& current.len() <= s.len()
    &&& forall|k: int| 0 <= k < current.len() ==> #[trigger] s[k] == current[k]
    &&& increasing_below(s, total)
}

/// In a strictly increasing sequence, entry `j` exceeds entry `l` by at
/// least `j - l`.
proof fn lemma_increasing_gap(s: Seq<usize>, total: int, l: int, j: int)
    requires
        increasing_below(s, total),
        0 <= l <= j < s.len(),
    ensures
        s[j] >= s[l] + (j - l),
    decreases j - l,
{
    if j > l {
        lemma_increasing_gap(s, total, l, j - 1);
        assert(s[j - 1] < s[j]);
    }
}

/// A completion of `current` continues it with a variable between
/// `next_start(current)` and `next_end(current, size, total)`.
proof fn lemma_completion_next(current: Seq<usize>, s: Seq<usize>, size: int, total: int)
    requires
        current.len() < size <= total,
        is_completion(current, s, size, total),
    ensures
        next_start(current) <= s[current.len() as int] <= next_end(current, size, total),
{
    let l = current.len() as int;
    lemma_increasing_gap(s, total, l, size - 1);
    if l > 0 {
        assert(s[l - 1] == current[l - 1]);
        assert(s[l - 1] < s[l]);
    }
}

/// An element of a concatenation comes from one of its parts.
proof fn lemma_concat_contains<A>(a: Seq<A>, b: Seq<A>, x: A)
    ensures
        (a + b).contains(x) <==> a.contains(x) || b.contains(x),
{
    if (a + b).contains(x) {
        let k = choose|k: int| 0 <= k < (a + b).len() && (a + b)[k] == x;
        if k < a.len() {
            assert(a[k] == x);
        } else {
            assert(b[k - a.len()] == x);
        }
    }
    if a.contains(x) {
        let k = choose|k: int| 0 <= k < a.len() && a[k] == x;
        assert((a + b)[k] == x);
    }
    if b.contains(x) {
        let k = choose|k: int| 0 <= k < b.len() && b[k] == x;
        assert((a + b)[k + a.len()] == x);
    }
}

/// The extensions of `current` are exactly its completions.
proof fn lemma_extensions_complete(current: Seq<usize>, size: int, total: int, s: Seq<usize>)
    requires
        increasing_below(current, total),
        current.len() <= size <= total,
        total <= usize::MAX,
    ensures
        extensions(current, size, total).contains(s) <==> is_completion(current, s, size, total),
    decreases size - current.len(), total + 2,
{
    let l = current.len() as int;
    if l >= size {
        let e = extensions(current, size, total);
        assert(e == seq![current]);
        if e.contains(s) {
            let k = choose|k: int| 0 <= k < e.len() && e[k] == s;
            assert(s == current);
        }
        if is_completion(current, s, size, total) {
            assert(s =~= current);
            assert(e[0] == s);
        }
    } else {
        let start = next_start(current);
        let end = next_end(current, size, total);
        if l > 0 {
            assert(current[l - 1] < total);
        }
        if start > end {
            if is_completion(current, s, size, total) {
                lemma_completion_next(current, s, size, total);
            }
        } else {
            lemma_extensions_from_complete(current, start, end, size, total, s);
            if is_completion(current, s, size, total) {
                lemma_completion_next(current, s, size, total);
            }
        }
    }
}

/// The extensions of `current` that continue with one of `i..=end` are
/// exactly its completions whose next variable is at least `i`.
proof fn lemma_extensions_from_complete(current: Seq<usize>, i: int, end: int, size: int, total: int, s: Seq<usize>)
    requires
        increasing_below(current, total),
        current.len() < size <= total,
        total <= usize::MAX,
        end == next_end(current, size, total),
        next_start(current) <= i,
    ensures
        extensions_from(current, i, end, size, total).contains(s) <==> (is_completion(current, s, size, total)
            && s[current.len() as int] >= i),
    decreases size - current.len(), end + 1 - i,
{
    let l = current.len() as int;
    if i > end {
        if is_completion(current, s, size, total) {
            lemma_completion_next(current, s, size, total);
        }
    } else {
        let next = current.push(i as usize);
        assert(0 <= i);
        assert(increasing_below(next, total)) by {
            assert forall|a: int, b: int| 0 <= a < b < next.len() implies next[a] < next[b] by {
                if b == l {
                    assert(current[l - 1] < i);
                    if a < l - 1 {
                        assert(current[a] < current[l - 1]);
                    }
                } else {
                    assert(current[a] < current[b]);
                }
            }
            assert forall|a: int| 0 <= a < next.len() implies #[trigger] next[a] < total by {
                if a < l {
                    assert(current[a] < total);
                }
            }
        }
        lemma_extensions_complete(next, size, total, s);
        lemma_extensions_from_complete(current, i + 1, end, size, total, s);
        lemma_concat_contains(extensions(next, size, total), extensions_from(current, i + 1, end, size, total), s);
        assert(is_completion(next, s, size, total) <==> (is_completion(current, s, size, total) && s[l] == i)) by {
            if is_completion(current, s, size, total) && s[l] == i {
                assert forall|k: int| 0 <= k < next.len() implies #[trigger] s[k] == next[k] by {}
            }
            if is_completion(next, s, size, total) {
                assert(s[l] == next[l]);
                assert forall|k: int| 0 <= k < current.len() implies #[trigger] s[k] == current[k] by {
                    assert(s[k] == next[k]);
                }
            }
        }
    }
}

/// What visiting the zero sets `sets` records: the points already recorded
/// and the points that the sets give, each once.
proof fn lemma_fold_points_contents(m: Seq<Seq<i64>>, n: int, points: Seq<Seq<real>>, sets: Seq<Seq<usize>>, p: Seq<real>)
    requires
        points.no_duplicates(),
    ensures
        fold_points(m, n, points, sets).no_duplicates(),
        fold_points(m, n, points, sets).contains(p) <==> (points.contains(p) || exists|k: int|
            0 <= k < sets.len() && #[trigger] point_of(m, n, sets[k]) == Some(p)),
    decreases sets.len(),
{
    if sets.len() > 0 {
        let next = add_point(points, point_of(m, n, sets[0]));
        assert(next.no_duplicates()) by {
            if let Some(q) = point_of(m, n, sets[0]) {
                if !points.contains(q) {
                    assert forall|a: int, b: int|
                        0 <= a < next.len() && 0 <= b < next.len() && a != b implies next[a] != next[b] by {
                        if a < points.len() && b < points.len() {
                        } else if a < points.len() {
                            assert(next[b] == q);
                            assert(next[a] == points[a]);
                        } else {
                            assert(next[a] == q);
                            assert(next[b] == points[b]);
                        }
                    }
                }
            }
        }
        lemma_fold_points_contents(m, n, next, sets.drop_first(), p);
        assert(next.contains(p) <==> (points.contains(p) || point_of(m, n, sets[0]) == Some(p))) by {
            if let Some(q) = point_of(m, n, sets[0]) {
                if !points.contains(q) {
                    if next.contains(p) {
                        let k = choose|k: int| 0 <= k < next.len() && next[k] == p;
                        if k < points.len() {
                            assert(points[k] == p);
                        }
                    }
                    if points.contains(p) {
                        let k = choose|k: int| 0 <= k < points.len() && points[k] == p;
                        assert(next[k] == p);
                    }
                    if q == p {
                        assert(next[points.len() as int] == p);
                    }
                }
            }
        }
        if exists|k: int| 0 <= k < sets.len() && #[trigger] point_of(m, n, sets[k]) == Some(p) {
            let k = choose|k: int| 0 <= k < sets.len() && #[trigger] point_of(m, n, sets[k]) == Some(p);
            if k > 0 {
                assert(sets.drop_first()[k - 1] == sets[k]);
            }
        }
        if exists|k: int| 0 <= k < sets.drop_first().len() && #[trigger] point_of(m, n, sets.drop_first()[k]) == Some(p) {
            let k = choose|k: int| 0 <= k < sets.drop_first().len() && #[trigger] point_of(m, n, sets.drop_first()[k]) == Some(p);
            assert(sets[k + 1] == sets.drop_first()[k]);
        }
    }
}

/// The extreme points found are exactly the points that setting some
/// `n - 1` of the `2n` variables to zero gives, each listed once.
pub proof fn lemma_extreme_points_exact(m: Seq<Seq<i64>>, p: Seq<real>)
    requires
        1 <= m.len(),
        2 * m.len() <= usize::MAX,
    ensures
        extreme_points(m).no_duplicates(),
        extreme_points(m).contains(p) <==> exists|zeros: Seq<usize>|
            zeros.len() == m.len() - 1 && increasing_below(zeros, 2 * m.len() as int) && #[trigger] point_of(
                m,
                m.len() as int,
                zeros,
            ) == Some(p),
{
    let n = m.len() as int;
    let sets = extensions(Seq::empty(), n - 1, 2 * n);
    lemma_fold_points_contents(m, n, Seq::empty(), sets, p);
    if extreme_points(m).contains(p) {
        let k = choose|k: int| 0 <= k < sets.len() && #[trigger] point_of(m, n, sets[k]) == Some(p);
        assert(sets.contains(sets[k]));
        lemma_extensions_complete(Seq::empty(), n - 1, 2 * n, sets[k]);
    }
    if exists|zeros: Seq<usize>|
        zeros.len() == n - 1 && increasing_below(zeros, 2 * n) && #[trigger] point_of(m, n, zeros) == Some(p) {
        let zeros = choose|zeros: Seq<usize>|
            zeros.len() == n - 1 && increasing_below(zeros, 2 * n) && #[trigger] point_of(m, n, zeros) == Some(p);
        lemma_extensions_complete(Seq::empty(), n - 1, 2 * n, zeros);
        let k = choose|k: int| 0 <= k < sets.len() && sets[k] == zeros;
        assert(point_of(m, n, sets[k]) == Some(p));
    }
}

/// Visits, in lexicographic order, every strictly increasing extension of
/// `current` to `size` variables out of `0..n_total`.
fn enumerate_subsets(
    size: usize,
    n_total: usize,
    current: &mut Vec<usize>,
    search: &mut ExtremePointSearch,
)
    requires
        old(search).wf(),
        size == old(search).n - 1,
        n_total == 2 * old(search).n,
        old(current)@.len() <= size,
        increasing_below(old(current)@, n_total as int),
    ensures
        final(current)@ == old(current)@,
        final(search).wf(),
        final(search).n == old(search).n,
        final(search).m == old(search).m,
        final(search).a == old(search).a,
        final(search).b == old(search).b,
        point_values(final(search).points@) == fold_points(
            old(search).m@,
            old(search).n as int,
            point_values(old(search).points@),
            extensions(old(current)@, size as int, n_total as int),
        ),
    decreases size - old(current)@.len(),
{
    let ghost m = search.m@;
    let ghost nn = search.n as int;
    if current.len() == size {
        search.visit(current);
        proof {
            let c = current@;
            assert(seq![c].drop_first() =~= Seq::<Seq<usize>>::empty());
            assert(extensions(c, size as int, n_total as int) == seq![c]);
            assert(seq![c][0] == c);
            reveal_with_fuel(fold_points, 2);
        }
        return;
    }
    let start = if current.len() == 0 {
        0
    } else {
        current[current.len() - 1] + 1
    };
    let end = n_total.saturating_sub(size - current.len());
    let ghost initial = current@;
    let ghost p0 = point_values(search.points@);
    let ghost (sz, tot) = (size as int, n_total as int);
    proof {
        assert(start == next_start(initial));
        assert(end == next_end(initial, sz, tot));
        if start <= end {
            assert(extensions(initial, sz, tot) == extensions_from(initial, start as int, end as int, sz, tot));
        } else {
            assert(extensions_from(initial, start as int, end as int, sz, tot) =~= Seq::<Seq<usize>>::empty());
        }
    }
    let mut i = start;
    while i <= end
        invariant
            sz == size as int,
            tot == n_total as int,
            m == search.m@,
            nn == search.n as int,
            fold_points(m, nn, p0, extensions(initial, sz, tot)) == fold_points(
                m,
                nn,
                point_values(search.points@),
                extensions_from(initial, i as int, end as int, sz, tot),
            ),
            search.wf(),
            size == search.n - 1,
            n_total == 2 * search.n,
            current@ == initial,
            initial == old(current)@,
            initial.len() < size,
            increasing_below(initial, n_total as int),
            initial.len() > 0 ==> i > initial[initial.len() - 1],
            end < n_total,
            search.n == old(search).n,
            search.m == old(search).m,
            search.a == old(search).a,
            search.b == old(search).b,
        decreases end + 1 - i,
    {
        let ghost before = point_values(search.points@);
        current.push(i);
        enumerate_subsets(size, n_total, current, search);
        current.pop();
        proof {
            let ext = extensions(initial.push(i), sz, tot);
            let rest = extensions_from(initial, i + 1, end as int, sz, tot);
            assert(extensions_from(initial, i as int, end as int, sz, tot) == ext + rest);
            lemma_fold_points_concat(m, nn, before, ext, rest);
        }
        i += 1;
    }
    proof {
        assert(extensions_from(initial, i as int, end as int, sz, tot) =~= Seq::<Seq<usize>>::empty());
    }
}

/// The distinct extreme points of the maximin strategies of `m` that the
/// search finds, in the order it finds them: one for each way of setting
/// `n - 1` of the `2n` variables to zero that leaves a uniquely solvable
/// square system with a non-negative solution, repeats dropped.
pub open spec fn extreme_points(m: Seq<Seq<i64>>) -> Seq<Seq<real>> {
    let n = m.len() as int;
    fold_points(m, n, Seq::empty(), extensions(Seq::empty(), n - 1, 2 * n))
}

/// `sum_{k < count} points[k][i]`.
pub open spec fn column_total(points: Seq<Seq<real>>, i: int, count: int) -> real
    decreases count,
{
    if count <= 0 {
        0real
    } else {
        column_total(points, i, count - 1) + points[count - 1][i]
    }
}

/// The centroid of `points` over `n` coordinates: entry `i` is the mean of
/// the points' entries `i`.
pub open spec fn centroid_of(points: Seq<Seq<real>>, n: int) -> Seq<real> {
    Seq::new(n as nat, |i: int| column_total(points, i, points.len() as int) / (points.len() as real))
}

/// `points[0][i] + points[1][i] + ...`: entry `i` summed over all points.
pub open spec fn entry_sum(points: Seq<Seq<real>>, i: int) -> real
    decreases points.len(),
{
    if points.len() == 0 {
        0real
    } else {
        points[0][i] + entry_sum(points.drop_first(), i)
    }
}

/// Summing the points one more at the end adds that point's entry.
proof fn lemma_entry_sum_push(points: Seq<Seq<real>>, p: Seq<real>, i: int)
    ensures
        entry_sum(points.push(p), i) == entry_sum(points, i) + p[i],
    decreases points.len(),
{
    if points.len() == 0 {
        assert(points.push(p).drop_first() =~= Seq::<Seq<real>>::empty());
        assert(points.push(p)[0] == p);
        assert(entry_sum(points.push(p).drop_first(), i) == 0real);
    } else {
        assert(points.push(p).drop_first() =~= points.drop_first().push(p));
        assert(points.push(p)[0] == points[0]);
        lemma_entry_sum_push(points.drop_first(), p, i);
    }
}

/// The running total of entry `i` over the first `count` points is their
/// sum.
proof fn lemma_column_total_is_sum(points: Seq<Seq<real>>, i: int, count: int)
    requires
        0 <= count <= points.len(),
    ensures
        column_total(points, i, count) == entry_sum(points.take(count), i),
    decreases count,
{
    if count == 0 {
        assert(points.take(0) =~= Seq::<Seq<real>>::empty());
    } else {
        lemma_column_total_is_sum(points, i, count - 1);
        assert(points.take(count) =~= points.take(count - 1).push(points[count - 1]));
        lemma_entry_sum_push(points.take(count - 1), points[count - 1], i);
    }
}

/// The centroid is the mean of the points: each entry, times the number of
/// points, is the sum of the points' entries.
pub proof fn lemma_centroid_is_mean(points: Seq<Seq<real>>, n: int, i: int)
    requires
        0 <= i < n,
        points.len() > 0,
    ensures
        centroid_of(points, n)[i] * (points.len() as real) == entry_sum(points, i),
{
    lemma_column_total_is_sum(points, i, points.len() as int);
    assert(points.take(points.len() as int) =~= points);
    let (t, c) = (column_total(points, i, points.len() as int), points.len() as real);
    assert((t / c) * c == t) by (nonlinear_arith)
        requires
            c > 0real,
    ;
}

/// The centroid of the extreme points of the maximin strategies of a margin
/// matrix over `n >= 2` candidates whose rows reach column `n - 1`; `None`
/// when no extreme point is found. What it returns is a maximal lottery.
pub fn centroid_points(margins: &[Vec<i64>]) -> (r: Option<Vec<Rational>>)
    requires
        2 <= margins@.len(),
        2 * margins@.len() + 2 < usize::MAX,
        forall|i: int| 0 <= i < margins@.len() ==> #[trigger] margins@[i]@.len() >= margins@.len(),
    ensures
        r is None <==> extreme_points(rows_view(margins@)).len() == 0,
        r matches Some(p) ==> p@.len() == margins@.len() && all_wf(p@) && is_maximal_lottery(
            rows_view(margins@),
            vals(p@),
        ),
        r matches Some(p) ==> vals(p@) == centroid_of(extreme_points(rows_view(margins@)), margins@.len() as int),
        r matches Some(p) ==> forall|i: int|
            0 <= i < margins@.len() ==> #[trigger] p@[i].val() * (extreme_points(rows_view(margins@)).len() as real)
                == entry_sum(extreme_points(rows_view(margins@)), i),
{
    let ghost m = rows_view(margins@);
    let n = margins.len();
    let total_vars = 2 * n;
    let zero_count = n.saturating_sub(1);
    let rows = n + 1;
    let cols = total_vars;
    let mut a: Vec<Vec<Rational>> = Vec::new();
    let mut r: usize = 0;
    while r < rows
        invariant
            n == margins@.len(),
            m == rows_view(margins@),
            rows == n + 1,
            cols == 2 * n,
            2 * n + 2 < usize::MAX,
            forall|i: int| 0 <= i < n ==> #[trigger] margins@[i]@.len() >= n,
            r <= rows,
            is_matrix(a@, r as int, cols as int),
            forall|r2: int, c2: int|
                0 <= r2 < r && 0 <= c2 < cols ==> #[trigger] a@[r2]@[c2].val() == system_entry(m, n as int, r2, c2),
        decreases rows - r,
    {
        let mut row: Vec<Rational> = Vec::new();
        let mut c: usize = 0;
        while c < cols
            invariant
                n == margins@.len(),
                m == rows_view(margins@),
                rows == n + 1,
                cols == 2 * n,
                2 * n + 2 < usize::MAX,
                forall|i: int| 0 <= i < n ==> #[trigger] margins@[i]@.len() >= n,
                r < rows,
                c <= cols,
                row@.len() == c,
                all_wf(row@),
                forall|c2: int| 0 <= c2 < c ==> #[trigger] row@[c2].val() == system_entry(m, n as int, r as int, c2),
            decreases cols - c,
        {
            let entry = if r < n {
                if c < n {
                    assert(margins@[c as int]@.len() >= n);
                    assert(m[c as int] == margins@[c as int]@);
                    Rational::from_integer(margins[c][r])
                } else if c == n + r {
                    Rational::one().neg()
                } else {
                    Rational::zero()
                }
            } else if c < n {
                Rational::one()
            } else {
                Rational::zero()
            };
            row.push(entry);
            c += 1;
        }
        a.push(row);
        r += 1;
    }
    let mut b: Vec<Rational> = Vec::new();
    let mut r: usize = 0;
    while r < rows
        invariant
            rows == n + 1,
            r <= rows,
            b@.len() == r,
            all_wf(b@),
            forall|r2: int| 0 <= r2 < r ==> #[trigger] b@[r2].val() == 0real,
        decreases rows - r,
    {
        b.push(Rational::zero());
        r += 1;
    }
    b[n] = Rational::one();
    let mut search = ExtremePointSearch { n, m: Ghost(m), a, b, points: Vec::new() };
    let mut subset: Vec<usize> = Vec::new();
    proof {
        assert(point_values(search.points@) =~= Seq::<Seq<real>>::empty());
        assert(subset@ =~= Seq::<usize>::empty());
    }
    enumerate_subsets(zero_count, total_vars, &mut subset, &mut search);
    let ghost ext = extreme_points(m);
    assert(point_values(search.points@) == ext);
    if search.points.len() == 0 {
        return None;
    }
    // Centroid: the average of all distinct extreme points.
    let m_count = search.points.len();
    let mut result: Vec<Rational> = Vec::new();
    let mut i: usize = 0;
    while i < n
        invariant
            i <= n,
            result@.len() == i,
            all_wf(result@),
            forall|k: int| 0 <= k < i ==> #[trigger] result@[k].val() == 0real,
        decreases n - i,
    {
        result.push(Rational::zero());
        i += 1;
    }
    proof {
        assert forall|j: int| 0 <= j < n implies #[trigger] payoff(m, vals(result@), j) >= 0real by {
            lemma_dot_scale_right(column(m, j), vals(result@), vals(result@), 0real, n as int);
            lemma_mul_unit(dot(column(m, j), vals(result@), n as int));
            assert forall|c: int| 0 <= c < n implies #[trigger] vals(result@)[c] * 0real == vals(result@)[c] by {
                lemma_mul_unit(vals(result@)[c]);
            }
        }
        lemma_sum_scale(vals(result@), vals(result@), 0real, n as int);
        lemma_mul_unit(sum(vals(result@), n as int));
        assert forall|c: int| 0 <= c < n implies #[trigger] vals(result@)[c] * 0real == vals(result@)[c] by {
            lemma_mul_unit(vals(result@)[c]);
        }
    }
    let mut k: usize = 0;
    while k < m_count
        invariant
            m_count == search.points@.len(),
            search.wf(),
            search.n == n,
            search.m@ == m,
            m.len() == n,
            k <= m_count,
            result@.len() == n,
            all_wf(result@),
            forall|c: int| 0 <= c < n ==> #[trigger] result@[c].val() >= 0real,
            sum(vals(result@), n as int) == k as real,
            forall|j: int| 0 <= j < n ==> #[trigger] payoff(m, vals(result@), j) >= 0real,
            point_values(search.points@) == ext,
            forall|c: int| 0 <= c < n ==> #[trigger] result@[c].val() == column_total(ext, c, k as int),
        decreases m_count - k,
    {
        let ghost before = result@;
        let ghost pt = vals(search.points@[k as int]@);
        let mut i: usize = 0;
        while i < n
            invariant
                m_count == search.points@.len(),
                search.wf(),
                search.n == n,
                k < m_count,
                pt == vals(search.points@[k as int]@),
                i <= n,
                result@.len() == n,
                all_wf(result@),
                forall|c: int| 0 <= c < i ==> #[trigger] result@[c].val() == before[c].val() + pt[c],
                forall|c: int| i <= c < n ==> #[trigger] result@[c] == before[c],
            decreases n - i,
        {
            assert(search.points@[k as int]@[i as int].wf());
            let s = result[i].add(&search.points[k][i]);
            result[i] = s;
            i += 1;
        }
        proof {
            assert(is_maximal_lottery(m, pt));
            assert forall|c: int| 0 <= c < n implies #[trigger] vals(result@)[c] == vals(before)[c] + pt[c] by {}
            lemma_sum_add(vals(before), pt, vals(result@), n as int);
            assert forall|j: int| 0 <= j < n implies #[trigger] payoff(m, vals(result@), j) >= 0real by {
                assert(payoff(m, pt, j) >= 0real);
                assert(payoff(m, vals(before), j) >= 0real);
                lemma_dot_add_right(column(m, j), vals(before), pt, vals(result@), n as int);
            }
            assert forall|c: int| 0 <= c < n implies #[trigger] result@[c].val() >= 0real by {
                assert(pt[c] >= 0real);
            }
            assert(ext[k as int] == pt);
            assert forall|c: int| 0 <= c < n implies #[trigger] result@[c].val() == column_total(ext, c, k + 1) by {
                assert(before[c].val() == column_total(ext, c, k as int));
            }
        }
        k += 1;
    }
    let count = Rational::from_count(m_count);
    let ghost total = result@;
    let mut i: usize = 0;
    while i < n
        invariant
            i <= n,
            result@.len() == n,
            total.len() == n,
            all_wf(result@),
            count.wf(),
            count.val() == m_count as real,
            m_count > 0,
            forall|c: int| 0 <= c < i ==> #[trigger] result@[c].val() == total[c].val() / count.val(),
            forall|c: int| i <= c < n ==> #[trigger] result@[c] == total[c],
            forall|c: int| 0 <= c < n ==> #[trigger] total[c].val() == column_total(ext, c, m_count as int),
            ext.len() == m_count,
        decreases n - i,
    {
        let q = result[i].div(&count);
        result[i] = q;
        i += 1;
    }
    proof {
        let kr = m_count as real;
        let (v, w) = (vals(total), vals(result@));
        assert forall|c: int| 0 <= c < n implies #[trigger] w[c] * kr == v[c] by {
            lemma_div_cancel(v[c], kr);
        }
        lemma_sum_scale(v, w, kr, n as int);
        lemma_positive_factor(sum(w, n as int), kr);
        assert forall|j: int| 0 <= j < n implies #[trigger] payoff(m, w, j) >= 0real by {
            assert(payoff(m, v, j) >= 0real);
            lemma_dot_scale_right(column(m, j), v, w, kr, n as int);
            lemma_positive_factor(payoff(m, w, j), kr);
        }
        assert forall|c: int| 0 <= c < n implies #[trigger] w[c] >= 0real by {
            lemma_positive_factor(v[c], kr);
        }
        assert(w =~= centroid_of(ext, n as int));
        assert forall|c: int| 0 <= c < n implies #[trigger] result@[c].val() * (ext.len() as real) == entry_sum(
            ext,
            c,
        ) by {
            lemma_centroid_is_mean(ext, n as int, c);
            assert(result@[c].val() == w[c]);
        }
    }
    Some(result)
}

} // verus!
