//! The two-phase simplex method on `a · x = b`, `x >= 0`.
use vstd::prelude::*;

use crate::linear::{dot, lemma_dot_ext, lemma_dot_tail, lemma_mul_unit, vals};
use crate::rational::Rational;
use crate::simplex::laws::{
    lemma_basic_solution_solves, lemma_basic_solution_value, lemma_canonical_distinct, lemma_dot_nonpos, lemma_dot_zero,
    lemma_objective_identity,
    lemma_optimal_bounds_objective, lemma_pivot_keeps_canonical, lemma_pivot_keeps_feasible,
    lemma_pivot_keeps_solutions,
};
use crate::simplex::runs::{lemma_unbounded_ray, obj, ray, rule_cycles};
use crate::simplex::{keeps_frozen_row, zeros, Tableau};
use crate::solver::extreme::contains_index;
use crate::solver::gauss::all_wf;

verus! {

/// Entry `(i, j)` of the system `[a | I]` over `n_var` variables and one
/// artificial variable per row.
pub open spec fn augmented_entry(a: Seq<Vec<Rational>>, n_var: int, i: int, j: int) -> real {
    if j < n_var {
        a[i]@[j].val()
    } else if j == n_var + i {
        1real
    } else {
        0real
    }
}

/// `z` solves `a · z[..n_var] + z[n_var + i] == b[i]` for every row `i`.
pub open spec fn solves_augmented(a: Seq<Vec<Rational>>, b: Seq<Rational>, n_var: int, z: Seq<real>) -> bool {
    forall|i: int|
        0 <= i < a.len() ==> #[trigger] dot(vals(a[i]@), z, n_var) + z[n_var + i] == b[i].val()
}

/// The phase II objective over `n_aug` columns: `obj[j]` for the first
/// `n_original` columns that `obj` covers, zero elsewhere.
pub open spec fn phase_two_costs(obj: Seq<Rational>, n_original: int, n_aug: int) -> Seq<real> {
    Seq::new(n_aug as nat, |j: int| if j < n_original && j < obj.len() { obj[j].val() } else { 0real })
}

/// `a · y = b` has a solution `y >= 0` over the first `n_var` columns.
pub open spec fn has_nonneg_solution(a: Seq<Vec<Rational>>, b: Seq<Rational>, n_var: int) -> bool {
    exists|y: Seq<real>|
        y.len() == n_var && (forall|j: int| 0 <= j < n_var ==> #[trigger] y[j] >= 0real) && #[trigger] solves_plain(
            a,
            b,
            n_var,
            y,
        )
}

/// The phase II objective is at most `ub` on the non-negative solutions of
/// `a · y = b` over the first `n_var` columns.
pub open spec fn phase_two_bounded_by(
    a: Seq<Vec<Rational>>,
    b: Seq<Rational>,
    obj: Seq<Rational>,
    n_original: int,
    n_var: int,
    ub: real,
) -> bool {
    forall|w: Seq<real>|
        w.len() == n_var && (forall|j: int| 0 <= j < n_var ==> #[trigger] w[j] >= 0real) && #[trigger] solves_plain(
            a,
            b,
            n_var,
            w,
        ) ==> dot(phase_two_costs(obj, n_original, n_var), w, n_var) <= ub
}

/// The phase II objective is bounded above on the non-negative solutions of
/// `a · y = b` over the first `n_var` columns.
pub open spec fn phase_two_bounded(
    a: Seq<Vec<Rational>>,
    b: Seq<Rational>,
    obj: Seq<Rational>,
    n_original: int,
    n_var: int,
) -> bool {
    exists|ub: real| #[trigger] phase_two_bounded_by(a, b, obj, n_original, n_var, ub)
}

/// Some run of the pivot rule, entering only the columns `0..limit`, from a
/// canonical feasible tableau of the system `[a | I] · z = b` over `n_var`
/// variables and one artificial per row, with the objective `costs`, comes
/// back to a basis it has already had.
pub open spec fn system_cycles(
    a: Seq<Vec<Rational>>,
    b: Seq<Rational>,
    n_var: int,
    costs: Seq<real>,
    limit: int,
) -> bool {
    exists|t: Tableau|
        #[trigger] rule_cycles(t, limit) && t.costs() == costs && t.cols() == n_var + a.len() && forall|
            z: Seq<real>,
        | z.len() == t.cols() ==> (#[trigger] t.solves(z) <==> solves_augmented(a, b, n_var, z))
}

/// `y` solves `a · y = b` over the first `n_var` columns.
pub open spec fn solves_plain(a: Seq<Vec<Rational>>, b: Seq<Rational>, n_var: int, y: Seq<real>) -> bool {
    forall|i: int| 0 <= i < a.len() ==> #[trigger] dot(vals(a[i]@), y, n_var) == b[i].val()
}

/// `sum_{lo <= k < hi} v[k]`.
pub open spec fn range_sum(v: Seq<real>, lo: int, hi: int) -> real
    decreases hi - lo,
{
    if hi <= lo {
        0real
    } else {
        range_sum(v, lo, hi - 1) + v[hi - 1]
    }
}

/// A sum of non-negative terms is at least each of its terms.
proof fn lemma_range_sum_bounds(v: Seq<real>, lo: int, hi: int, k: int)
    requires
        lo <= k < hi,
        forall|q: int| lo <= q < hi ==> #[trigger] v[q] >= 0real,
    ensures
        range_sum(v, lo, hi) >= v[k],
    decreases hi - lo,
{
    if k < hi - 1 {
        lemma_range_sum_bounds(v, lo, hi - 1, k);
    } else {
        lemma_range_sum_nonneg(v, lo, hi - 1);
    }
}

/// A sum of non-negative terms is non-negative.
proof fn lemma_range_sum_nonneg(v: Seq<real>, lo: int, hi: int)
    requires
        forall|q: int| lo <= q < hi ==> #[trigger] v[q] >= 0real,
    ensures
        range_sum(v, lo, hi) >= 0real,
    decreases hi - lo,
{
    if hi > lo {
        lemma_range_sum_nonneg(v, lo, hi - 1);
    }
}

/// Row `i` of `[a | I]` read at `z`.
proof fn lemma_augmented_row(t: Tableau, a: Seq<Vec<Rational>>, n_var: int, i: int, z: Seq<real>)
    requires
        t.well_shaped(),
        t.rows() == a.len(),
        t.cols() == n_var + a.len(),
        0 <= n_var,
        0 <= i < a.len(),
        a[i]@.len() >= n_var,
        forall|j: int| 0 <= j < t.cols() ==> #[trigger] t.entry(i, j) == augmented_entry(a, n_var, i, j),
    ensures
        dot(t.row(i), z, t.cols()) == dot(vals(a[i]@), z, n_var) + z[n_var + i],
{
    let u = t.row(i);
    assert forall|c: int| n_var <= c < t.cols() && c != n_var + i implies #[trigger] u[c] == 0real by {
        assert(t.entry(i, c) == augmented_entry(a, n_var, i, c));
    }
    lemma_dot_tail(u, z, n_var, n_var + i, t.cols());
    assert(t.entry(i, n_var + i) == augmented_entry(a, n_var, i, n_var + i));
    lemma_mul_unit(z[n_var + i]);
    assert forall|c: int| 0 <= c < n_var implies u[c] == vals(a[i]@)[c] && z[c] == z[c] by {
        assert(t.entry(i, c) == augmented_entry(a, n_var, i, c));
    }
    lemma_dot_ext(u, vals(a[i]@), z, z, n_var);
}

/// A dot product whose terms are all non-positive is non-positive.
pub(crate) proof fn lemma_dot_terms_nonpos(u: Seq<real>, y: Seq<real>, k: int)
    requires
        forall|c: int| #![trigger u[c]] 0 <= c < k ==> u[c] * y[c] <= 0real,
    ensures
        dot(u, y, k) <= 0real,
    decreases k,
{
    if k > 0 {
        lemma_dot_terms_nonpos(u, y, k - 1);
        assert(u[k - 1] * y[k - 1] <= 0real);
    }
}

/// The phase II objective over all `n_aug` columns reads only the first
/// `n_var`.
proof fn lemma_costs_restrict(costs: Seq<real>, costs2: Seq<real>, z: Seq<real>, y: Seq<real>, n_var: int, n_aug: int)
    requires
        0 <= n_var <= n_aug,
        costs.len() == n_aug,
        forall|c: int| n_var <= c < n_aug ==> #[trigger] costs[c] == 0real,
        forall|c: int| 0 <= c < n_var ==> #[trigger] costs2[c] == costs[c],
        forall|c: int| 0 <= c < n_var ==> #[trigger] y[c] == z[c],
    ensures
        dot(costs, z, n_aug) == dot(costs2, y, n_var),
{
    lemma_dot_tail(costs, z, n_var, -1, n_aug);
    lemma_dot_ext(costs, costs2, z, y, n_var);
}

/// Solves the linear program "find `x >= 0` with `a · x = b`", for
/// `b >= 0`, by the two-phase simplex method: phase I minimises the sum of
/// one artificial variable per row, phase II maximises `phase2_obj` over the
/// first `n_original` variables. Returns the first `n_original` entries of
/// the solution found; `None` when phase I ends with a positive sum of
/// artificials, when phase II finds the objective unbounded, or when a phase
/// stops on a repeated basis (see [`Tableau::optimize`]). With no rows, the
/// solution is empty.
///
/// Phase II lets only the original columns enter the basis, so the
/// artificials stay at zero. A solution is returned only when `a · y = b` has
/// a solution `y >= 0` (an infeasible system gives `None`); it is the first
/// `n_original` entries of such a `y` that maximises the phase II objective
/// among all of them, so the phase II objective is bounded above on the
/// solutions. Where a solution exists and that objective is bounded, `None`
/// comes only from a phase whose pivot rule comes back to a basis it has
/// already had (from where it would repeat the same pivots without end).
#[verifier::rlimit(60)]
pub fn solve_lp(a: &[Vec<Rational>], b: &[Rational], n_original: usize, phase2_obj: &[Rational]) -> (r: Option<
    Vec<Rational>,
>)
    requires
        a@.len() > 0 ==> {
            &&& forall|i: int| 0 <= i < a@.len() ==> #[trigger] a@[i]@.len() >= a@[0]@.len()
            &&& forall|i: int, j: int|
                0 <= i < a@.len() && 0 <= j < a@[0]@.len() ==> #[trigger] a@[i]@[j].wf()
            &&& b@.len() >= a@.len()
            &&& forall|i: int| 0 <= i < a@.len() ==> #[trigger] b@[i].wf() && b@[i].val() >= 0real
            &&& a@[0]@.len() + a@.len() < usize::MAX
            &&& n_original <= a@[0]@.len()
        },
        all_wf(phase2_obj@),
    ensures
        a@.len() == 0 ==> (r matches Some(x) && x@.len() == 0),
        a@.len() > 0 && r is Some ==> phase_two_bounded(
            a@,
            b@,
            phase2_obj@,
            n_original as int,
            a@[0]@.len() as int,
        ),
        a@.len() > 0 && r is None && has_nonneg_solution(a@, b@, a@[0]@.len() as int) && phase_two_bounded(
            a@,
            b@,
            phase2_obj@,
            n_original as int,
            a@[0]@.len() as int,
        ) ==> system_cycles(
            a@,
            b@,
            a@[0]@.len() as int,
            phase_one_costs(a@[0]@.len() as int, (a@[0]@.len() + a@.len()) as int),
            (a@[0]@.len() + a@.len()) as int,
        ) || system_cycles(
            a@,
            b@,
            a@[0]@.len() as int,
            phase_two_costs(phase2_obj@, n_original as int, (a@[0]@.len() + a@.len()) as int),
            a@[0]@.len() as int,
        ),
        r matches Some(x) ==> a@.len() > 0 ==> {
            &&& has_nonneg_solution(a@, b@, a@[0]@.len() as int)
            &&& x@.len() == n_original
            &&& all_wf(x@)
            &&& exists|y: Seq<real>|
                {
                    &&& y.len() == a@[0]@.len()
                    &&& (forall|j: int| 0 <= j < y.len() ==> #[trigger] y[j] >= 0real)
                    &&& solves_plain(a@, b@, a@[0]@.len() as int, y)
                    &&& (forall|j: int| 0 <= j < n_original ==> #[trigger] x@[j].val() == y[j])
                    &&& forall|w: Seq<real>|
                        w.len() == y.len() && (forall|j: int| 0 <= j < w.len() ==> #[trigger] w[j] >= 0real)
                            && #[trigger] solves_plain(a@, b@, a@[0]@.len() as int, w) ==> dot(
                            phase_two_costs(phase2_obj@, n_original as int, y.len() as int),
                            w,
                            y.len() as int,
                        ) <= dot(phase_two_costs(phase2_obj@, n_original as int, y.len() as int), y, y.len() as int)
                }
        },
{
    let m = a.len();
    if m == 0 {
        return Some(Vec::new());
    }
    let n_var = a[0].len();
    let n_aug = n_var + m;
    let ghost nv = n_var as int;
    assert(forall|i: int| 0 <= i < m ==> #[trigger] a@[i]@.len() >= n_var);
    // Build the augmented tableau [A | I].
    let mut tableau = Tableau::new(m, n_aug);
    proof {
        assert forall|i2: int, j: int| 0 <= i2 < m && 0 <= j < n_aug implies #[trigger] tableau.a@[i2]@[j].val()
            == 0real by {
            assert(tableau.entry(i2, j) == 0real);
        }
    }
    let mut i: usize = 0;
    while i < m
        invariant
            m == a@.len(),
            n_aug == n_var + m,
            nv == n_var as int,
            n_var == a@[0]@.len(),
            n_var + m < usize::MAX,
            forall|i2: int| 0 <= i2 < m ==> #[trigger] a@[i2]@.len() >= n_var,
            forall|i2: int, j: int| 0 <= i2 < m && 0 <= j < n_var ==> #[trigger] a@[i2]@[j].wf(),
            b@.len() >= m,
            forall|i2: int| 0 <= i2 < m ==> #[trigger] b@[i2].wf() && b@[i2].val() >= 0real,
            i <= m,
            tableau.well_shaped(),
            tableau.rows() == m,
            tableau.cols() == n_aug,
            tableau.basis@.len() == 0,
            forall|j: int| 0 <= j < n_aug ==> #[trigger] tableau.c@[j].val() == 0real,
            forall|i2: int, j: int|
                0 <= i2 < i && 0 <= j < n_aug ==> #[trigger] tableau.a@[i2]@[j].val() == augmented_entry(a@, nv, i2, j),
            forall|i2: int, j: int| i <= i2 < m && 0 <= j < n_aug ==> #[trigger] tableau.a@[i2]@[j].val() == 0real,
            forall|i2: int| 0 <= i2 < i ==> #[trigger] tableau.b@[i2].val() == b@[i2].val(),
            forall|i2: int| i <= i2 < m ==> #[trigger] tableau.b@[i2].val() == 0real,
        decreases m - i,
    {
        let mut j: usize = 0;
        while j < n_var
            invariant
                m == a@.len(),
                n_aug == n_var + m,
                nv == n_var as int,
                n_var + m < usize::MAX,
                forall|i2: int| 0 <= i2 < m ==> #[trigger] a@[i2]@.len() >= n_var,
                forall|i2: int, j2: int| 0 <= i2 < m && 0 <= j2 < n_var ==> #[trigger] a@[i2]@[j2].wf(),
                i < m,
                j <= n_var,
                tableau.well_shaped(),
                tableau.rows() == m,
                tableau.cols() == n_aug,
                tableau.basis@.len() == 0,
                forall|j2: int| 0 <= j2 < n_aug ==> #[trigger] tableau.c@[j2].val() == 0real,
                forall|i2: int, j2: int|
                    0 <= i2 < i && 0 <= j2 < n_aug ==> #[trigger] tableau.a@[i2]@[j2].val() == augmented_entry(
                        a@,
                        nv,
                        i2,
                        j2,
                    ),
                forall|i2: int, j2: int| i < i2 < m && 0 <= j2 < n_aug ==> #[trigger] tableau.a@[i2]@[j2].val() == 0real,
                forall|j2: int| 0 <= j2 < j ==> #[trigger] tableau.a@[i as int]@[j2].val() == a@[i as int]@[j2].val(),
                forall|j2: int| j <= j2 < n_aug ==> #[trigger] tableau.a@[i as int]@[j2].val() == 0real,
                forall|i2: int| 0 <= i2 < i ==> #[trigger] tableau.b@[i2].val() == b@[i2].val(),
                forall|i2: int| i <= i2 < m ==> #[trigger] tableau.b@[i2].val() == 0real,
            decreases n_var - j,
        {
            assert(a@[i as int]@[j as int].wf());
            let v = a[i][j].clone();
            tableau.a[i][j] = v;
            j += 1;
        }
        tableau.a[i][n_var + i] = Rational::one();
        assert(b@[i as int].wf());
        tableau.b[i] = b[i].clone();
        proof {
            assert forall|j2: int| 0 <= j2 < n_aug implies #[trigger] tableau.a@[i as int]@[j2].val()
                == augmented_entry(a@, nv, i as int, j2) by {}
        }
        i += 1;
    }
    // Phase I objective: maximise minus the sum of the artificials.
    let mut c = zeros(n_aug);
    let mut j: usize = 0;
    while j < m
        invariant
            n_aug == n_var + m,
            j <= m,
            c@.len() == n_aug,
            all_wf(c@),
            forall|k: int| 0 <= k < n_var + j ==> #[trigger] c@[k].val() == (if k < n_var { 0real } else { -1real }),
        decreases m - j,
    {
        c.set(n_var + j, Rational::one().neg());
        j += 1;
    }
    tableau.c = c;
    let mut basis: Vec<usize> = Vec::new();
    let mut k: usize = n_var;
    while k < n_var + m
        invariant
            n_var <= k <= n_var + m,
            n_var + m < usize::MAX,
            basis@.len() == k - n_var,
            forall|q: int| 0 <= q < basis@.len() ==> #[trigger] basis@[q] == n_var + q,
        decreases n_var + m - k,
    {
        basis.push(k);
        k += 1;
    }
    tableau.basis = basis;
    let ghost t0 = tableau;
    proof {
        assert forall|i2: int, k2: int| 0 <= i2 < t0.rows() && 0 <= k2 < t0.rows() implies #[trigger] t0.entry(
            k2,
            t0.basis@[i2] as int,
        ) == (if k2 == i2 {
            1real
        } else {
            0real
        }) by {
            assert(t0.entry(k2, n_var + i2) == augmented_entry(a@, nv, k2, n_var + i2));
        }
        assert(t0.is_canonical());
        assert forall|i2: int| 0 <= i2 < t0.rows() implies #[trigger] t0.b@[i2].val() >= 0real by {
            assert(b@[i2].wf());
        }
        assert(t0.is_feasible());
        assert forall|z2: Seq<real>| z2.len() == t0.cols() implies (#[trigger] t0.solves(z2) <==> solves_augmented(
            a@,
            b@,
            nv,
            z2,
        )) by {
            assert forall|i2: int| 0 <= i2 < m implies #[trigger] dot(t0.row(i2), z2, t0.cols()) == dot(
                vals(a@[i2]@),
                z2,
                nv,
            ) + z2[nv + i2] by {
                assert forall|j2: int| 0 <= j2 < t0.cols() implies #[trigger] t0.entry(i2, j2) == augmented_entry(
                    a@,
                    nv,
                    i2,
                    j2,
                ) by {}
                lemma_augmented_row(t0, a@, nv, i2, z2);
            }
            if t0.solves(z2) {
                assert forall|i2: int| 0 <= i2 < a@.len() implies #[trigger] dot(vals(a@[i2]@), z2, nv) + z2[nv
                    + i2] == b@[i2].val() by {
                    assert(dot(t0.row(i2), z2, t0.cols()) == t0.b@[i2].val());
                }
            }
            if solves_augmented(a@, b@, nv, z2) {
                assert forall|i2: int| 0 <= i2 < t0.rows() implies #[trigger] dot(t0.row(i2), z2, t0.cols())
                    == t0.b@[i2].val() by {
                    assert(dot(vals(a@[i2]@), z2, nv) + z2[nv + i2] == b@[i2].val());
                }
            }
        }
        assert(t0.costs() =~= phase_one_costs(nv, n_aug as int));
    }
    if !tableau.optimize() {
        proof {
            let t = tableau;
            let n = t.cols();
            if exists|k: int|
                0 <= k < t.cols() && #[trigger] t.reduced_cost_of(k) > 0real && forall|i2: int|
                    0 <= i2 < t.rows() ==> #[trigger] t.entry(i2, k) <= 0real {
                // Phase I is bounded: its objective is at most zero on every
                // non-negative solution, so no column is unbounded.
                let k = choose|k: int|
                    0 <= k < t.cols() && #[trigger] t.reduced_cost_of(k) > 0real && forall|i2: int|
                        0 <= i2 < t.rows() ==> #[trigger] t.entry(i2, k) <= 0real;
                assert forall|q: int| 0 <= q < n implies #[trigger] t.costs()[q] <= 0real by {
                    assert(t.c@[q].val() == t0.c@[q].val());
                }
                lemma_unbounded_ray(t, k, 0real);
                lemma_dot_nonpos(t.costs(), ray(t, k, 0real), n);
                let (o, rc) = (obj(t), t.reduced_cost_of(k));
                assert(o <= 0real) by (nonlinear_arith)
                    requires
                        o + 0real * rc <= 0real,
                ;
                let s = (1real - o) / rc;
                assert(s >= 0real && s * rc == 1real - o) by (nonlinear_arith)
                    requires
                        rc > 0real,
                        o <= 0real,
                        s == (1real - o) / rc,
                ;
                lemma_unbounded_ray(t, k, s);
                lemma_dot_nonpos(t.costs(), ray(t, k, s), n);
            }
            assert(rule_cycles(t0, n_aug as int));
            assert(system_cycles(a@, b@, nv, phase_one_costs(nv, n_aug as int), n_aug as int));
        }
        return None;
    }
    let solution = tableau.primal_solution();
    let ghost t1 = tableau;
    let ghost sv = vals(solution@);
    proof {
        assert forall|j2: int| 0 <= j2 < sv.len() && (forall|i2: int| 0 <= i2 < t1.rows() ==> t1.basis@[i2] != j2)
            implies #[trigger] sv[j2] == 0real by {}
        assert forall|i2: int| 0 <= i2 < t1.rows() implies #[trigger] sv[t1.basis@[i2] as int] == t1.b@[i2].val() by {
            assert forall|i3: int| i2 < i3 < t1.basis@.len() implies t1.basis@[i3] != t1.basis@[i2] by {
                lemma_canonical_distinct(t1, i2, i3);
            }
        }
        lemma_basic_solution_solves(t1, sv);
    }
    let mut art_sum = Rational::zero();
    let mut k: usize = n_var;
    while k < n_aug
        invariant
            n_var <= k <= n_aug,
            solution@.len() == n_aug,
            all_wf(solution@),
            sv == vals(solution@),
            art_sum.wf(),
            art_sum.val() == range_sum(sv, n_var as int, k as int),
        decreases n_aug - k,
    {
        assert(solution@[k as int].wf());
        art_sum = art_sum.add(&solution[k]);
        k += 1;
    }
    if art_sum.is_positive() {
        proof {
            if has_nonneg_solution(a@, b@, nv) {
                let y = choose|y: Seq<real>|
                    y.len() == nv && (forall|j2: int| 0 <= j2 < nv ==> #[trigger] y[j2] >= 0real)
                        && #[trigger] solves_plain(a@, b@, nv, y);
                assert(t1.costs() =~= phase_one_costs(nv, t1.cols()));
                assert forall|z2: Seq<real>| z2.len() == t1.cols() implies (#[trigger] t1.solves(z2)
                    <==> solves_augmented(a@, b@, nv, z2)) by {
                    assert(t1.solves(z2) <==> t0.solves(z2));
                    assert(t0.solves(z2) <==> solves_augmented(a@, b@, nv, z2));
                }
                lemma_phase_one_certificate(t1, a@, b@, nv, sv, y);
                let i2 = choose|i2: int| 0 <= i2 < a@.len() && #[trigger] dot(vals(a@[i2]@), y, nv) != b@[i2].val();
                assert(dot(vals(a@[i2]@), y, nv) == b@[i2].val());
            }
        }
        return None;
    }
    proof {
        assert forall|i2: int| 0 <= i2 < m && t1.basis@[i2] >= n_var implies #[trigger] t1.b@[i2].val() == 0real by {
            let q = t1.basis@[i2] as int;
            assert(sv[q] == t1.b@[i2].val());
            lemma_range_sum_bounds(sv, n_var as int, n_aug as int, q);
        }
        // The phase I solution has no artificial part: its original part
        // solves the system.
        let y = sv.take(nv);
        assert forall|i2: int| 0 <= i2 < m implies #[trigger] dot(vals(a@[i2]@), y, nv) == b@[i2].val() by {
            assert(t1.solves(sv));
            assert(t0.solves(sv));
            assert(dot(t0.row(i2), sv, t0.cols()) == t0.b@[i2].val());
            assert forall|j2: int| 0 <= j2 < t0.cols() implies #[trigger] t0.entry(i2, j2) == augmented_entry(
                a@,
                nv,
                i2,
                j2,
            ) by {}
            lemma_augmented_row(t0, a@, nv, i2, sv);
            lemma_range_sum_bounds(sv, nv, n_aug as int, nv + i2);
            lemma_dot_ext(vals(a@[i2]@), vals(a@[i2]@), sv, y, nv);
        }
        assert(solves_plain(a@, b@, nv, y));
        assert(has_nonneg_solution(a@, b@, nv));
    }
    // Drive the artificials that are still basic (at value zero) out of the
    // basis where an original column can take their place. A row where none
    // can is zero in every original column.
    let mut i: usize = 0;
    while i < m
        invariant
            m == tableau.rows(),
            n_aug == n_var + m,
            n_aug == tableau.cols(),
            i <= m,
            tableau.well_shaped(),
            tableau.is_canonical(),
            tableau.is_feasible(),
            tableau.basis@.len() == m,
            forall|x: Seq<real>| #[trigger] tableau.solves(x) <==> t1.solves(x),
            forall|i2: int| 0 <= i2 < m ==> #[trigger] tableau.b@[i2].val() == t1.b@[i2].val(),
            forall|i2: int| i <= i2 < m ==> #[trigger] tableau.basis@[i2] == t1.basis@[i2],
            forall|i2: int| 0 <= i2 < m && t1.basis@[i2] >= n_var ==> #[trigger] t1.b@[i2].val() == 0real,
            forall|i2: int|
                0 <= i2 < i && tableau.basis@[i2] >= n_var ==> #[trigger] tableau.basis@[i2] == t1.basis@[i2]
                    && tableau.row_zero_below(i2, n_var as int),
        decreases m - i,
    {
        if tableau.basis[i] >= n_var {
            let mut j: usize = 0;
            let mut done = false;
            while j < n_var && !done
                invariant
                    m == tableau.rows(),
                    n_aug == n_var + m,
                    n_aug == tableau.cols(),
                    i < m,
                    j <= n_var,
                    tableau.well_shaped(),
                    tableau.is_canonical(),
                    tableau.is_feasible(),
                    tableau.basis@.len() == m,
                    forall|x: Seq<real>| #[trigger] tableau.solves(x) <==> t1.solves(x),
                    forall|i2: int| 0 <= i2 < m ==> #[trigger] tableau.b@[i2].val() == t1.b@[i2].val(),
                    forall|i2: int| i < i2 < m ==> #[trigger] tableau.basis@[i2] == t1.basis@[i2],
                    forall|i2: int| 0 <= i2 < m && t1.basis@[i2] >= n_var ==> #[trigger] t1.b@[i2].val() == 0real,
                    forall|i2: int|
                        0 <= i2 < i && tableau.basis@[i2] >= n_var ==> #[trigger] tableau.basis@[i2] == t1.basis@[i2]
                            && tableau.row_zero_below(i2, n_var as int),
                    done ==> tableau.basis@[i as int] < n_var,
                    !done ==> tableau.basis@[i as int] >= n_var && tableau.basis@[i as int] == t1.basis@[i as int],
                    !done ==> forall|j2: int|
                        0 <= j2 < j ==> #[trigger] tableau.entry(i as int, j2) == 0real || tableau.basis@.contains(
                            j2 as usize,
                        ),
                decreases n_var + 1 - j - (if done { 1int } else { 0int }),
            {
                assert(tableau.a@[i as int]@[j as int].wf());
                if !tableau.a[i][j].is_zero() && !contains_index(&tableau.basis, j) {
                    let ghost before = tableau;
                    assert(before.b@[i as int].val() == 0real);
                    tableau.pivot(j, i);
                    proof {
                        let (e, l) = (j as int, i as int);
                        assert forall|x: Seq<real>| #[trigger] tableau.solves(x) <==> t1.solves(x) by {
                            lemma_pivot_keeps_solutions(before, tableau, e, l, x);
                            assert(before.solves(x) <==> t1.solves(x));
                        }
                        lemma_pivot_keeps_canonical(before, tableau, e, l);
                        lemma_pivot_keeps_feasible(before, tableau, e, l);
                        assert(0real / before.entry(l, e) == 0real) by (nonlinear_arith)
                            requires
                                before.entry(l, e) != 0real,
                        ;
                        assert forall|i2: int| 0 <= i2 < m implies #[trigger] tableau.b@[i2].val() == t1.b@[i2].val() by {
                            if i2 != l {
                                lemma_mul_unit(before.entry(i2, e));
                            }
                        }
                        assert forall|i2: int|
                            0 <= i2 < i && tableau.basis@[i2] >= n_var implies #[trigger] tableau.basis@[i2]
                                == t1.basis@[i2] && tableau.row_zero_below(i2, n_var as int) by {
                            assert(tableau.basis@[i2] == before.basis@[i2]);
                            assert(before.row_zero_below(i2, n_var as int));
                            assert(before.entry(i2, e) == 0real);
                            assert forall|j2: int| 0 <= j2 < n_var implies #[trigger] tableau.entry(i2, j2) == 0real by {
                                assert(before.entry(i2, j2) == 0real);
                                lemma_mul_unit(tableau.entry(l, j2));
                            }
                        }
                    }
                    done = true;
                } else {
                    j += 1;
                }
            }
            proof {
                if !done {
                    assert forall|j2: int| 0 <= j2 < n_var implies #[trigger] tableau.entry(i as int, j2) == 0real by {
                        if tableau.entry(i as int, j2) != 0real {
                            assert(tableau.basis@.contains(j2 as usize));
                            let k = choose|k: int| 0 <= k < tableau.basis@.len() && tableau.basis@[k] == j2 as usize;
                            assert(k != i);
                            assert(tableau.entry(i as int, tableau.basis@[k] as int) == 0real);
                        }
                    }
                    assert(tableau.row_zero_below(i as int, n_var as int));
                }
            }
        }
        i += 1;
    }
    // Phase II: the original objective over the first `n_original`
    // variables.
    let mut c = zeros(n_aug);
    let mut j: usize = 0;
    while j < n_original
        invariant
            n_original <= n_aug,
            j <= n_original,
            c@.len() == n_aug,
            all_wf(c@),
            all_wf(phase2_obj@),
            forall|q: int|
                0 <= q < n_aug ==> #[trigger] c@[q].val() == (if q < j && q < phase2_obj@.len() {
                    phase2_obj@[q].val()
                } else {
                    0real
                }),
        decreases n_original - j,
    {
        if j < phase2_obj.len() {
            assert(phase2_obj@[j as int].wf());
            c.set(j, phase2_obj[j].clone());
        }
        j += 1;
    }
    let ghost t2 = tableau;
    tableau.c = c;
    proof {
        assert forall|x: Seq<real>| #[trigger] tableau.solves(x) <==> t2.solves(x) by {
            if tableau.solves(x) {
                assert forall|i2: int| 0 <= i2 < t2.rows() implies #[trigger] dot(t2.row(i2), x, t2.cols())
                    == t2.b@[i2].val() by {
                    assert(dot(tableau.row(i2), x, tableau.cols()) == tableau.b@[i2].val());
                }
            }
            if t2.solves(x) {
                assert forall|i2: int| 0 <= i2 < tableau.rows() implies #[trigger] dot(tableau.row(i2), x, tableau.cols())
                    == tableau.b@[i2].val() by {
                    assert(dot(t2.row(i2), x, t2.cols()) == t2.b@[i2].val());
                }
            }
        }
    }
    let ghost t3 = tableau;
    proof {
        assert(t3.a == t2.a && t3.b == t2.b && t3.basis == t2.basis);
        assert forall|i2: int| 0 <= i2 < m && t3.basis@[i2] >= n_var implies #[trigger] t3.b@[i2].val() == 0real
            && t3.row_zero_below(i2, n_var as int) by {
            assert(t2.basis@[i2] == t1.basis@[i2]);
            assert(t2.row_zero_below(i2, n_var as int));
            assert forall|j2: int| 0 <= j2 < n_var implies #[trigger] t3.entry(i2, j2) == 0real by {
                assert(t2.entry(i2, j2) == 0real);
            }
        }
        assert forall|i2: int, k2: int| 0 <= i2 < t3.rows() && 0 <= k2 < t3.rows() implies #[trigger] t3.entry(
            k2,
            t3.basis@[i2] as int,
        ) == (if k2 == i2 {
            1real
        } else {
            0real
        }) by {
            assert(t2.entry(k2, t2.basis@[i2] as int) == (if k2 == i2 { 1real } else { 0real }));
        }
        assert(t3.is_canonical());
        assert(t3.is_feasible());
    }
    // Only original columns may enter: the artificials stay at zero.
    if !tableau.optimize_among(n_var) {
        proof {
            let t = tableau;
            assert(t3.costs() =~= phase_two_costs(phase2_obj@, n_original as int, n_aug as int));
            assert forall|z2: Seq<real>| z2.len() == t3.cols() implies (#[trigger] t3.solves(z2) <==> solves_augmented(
                a@,
                b@,
                nv,
                z2,
            )) by {
                assert(t3.solves(z2) <==> t0.solves(z2));
            }
            if phase_two_bounded(a@, b@, phase2_obj@, n_original as int, nv) && exists|k: int|
                0 <= k < nv && #[trigger] t.reduced_cost_of(k) > 0real && forall|i2: int|
                    0 <= i2 < t.rows() ==> #[trigger] t.entry(i2, k) <= 0real {
                // An unbounded original column gives solutions of `a · y = b`
                // with any phase II objective.
                let k = choose|k: int|
                    0 <= k < nv && #[trigger] t.reduced_cost_of(k) > 0real && forall|i2: int|
                        0 <= i2 < t.rows() ==> #[trigger] t.entry(i2, k) <= 0real;
                let ub = choose|ub: real| #[trigger] phase_two_bounded_by(a@, b@, phase2_obj@, n_original as int, nv, ub);
                let (o, rc) = (obj(t), t.reduced_cost_of(k));
                let gap = if ub - o >= 0real {
                    ub - o
                } else {
                    0real
                };
                let sc = (gap + 1real) / rc;
                assert(sc >= 0real && sc * rc == gap + 1real) by (nonlinear_arith)
                    requires
                        rc > 0real,
                        gap >= 0real,
                        sc == (gap + 1real) / rc,
                ;
                lemma_unbounded_ray(t, k, sc);
                let z = ray(t, k, sc);
                assert forall|q: int| nv <= q < n_aug implies #[trigger] z[q] == 0real by {
                    if exists|i2: int| 0 <= i2 < t.rows() && #[trigger] t.basis@[i2] as int == q {
                        let i2 = choose|i2: int| 0 <= i2 < t.rows() && #[trigger] t.basis@[i2] as int == q;
                        assert(keeps_frozen_row(t3, t, i2, nv));
                        assert(t.basis@[i2] >= n_var);
                        assert(t.basis@[i2] == t3.basis@[i2]);
                        assert(0 <= i2 < m && t3.basis@[i2] >= n_var);
                        assert(t3.b@[i2].val() == 0real);
                        assert(t3.row_zero_below(i2, nv));
                        assert(t.row_zero_below(i2, nv));
                        assert(t.entry(i2, k) == 0real);
                    }
                }
                assert(t3.solves(z));
                assert(t1.solves(z));
                assert(t0.solves(z));
                let w = z.take(nv);
                assert forall|i2: int| 0 <= i2 < m implies #[trigger] dot(vals(a@[i2]@), w, nv) == b@[i2].val() by {
                    assert(dot(t0.row(i2), z, t0.cols()) == t0.b@[i2].val());
                    assert forall|j2: int| 0 <= j2 < t0.cols() implies #[trigger] t0.entry(i2, j2) == augmented_entry(
                        a@,
                        nv,
                        i2,
                        j2,
                    ) by {}
                    lemma_augmented_row(t0, a@, nv, i2, z);
                    lemma_dot_ext(vals(a@[i2]@), vals(a@[i2]@), z, w, nv);
                    assert(z[nv + i2] == 0real);
                }
                assert(solves_plain(a@, b@, nv, w));
                assert(forall|j2: int| 0 <= j2 < nv ==> #[trigger] w[j2] >= 0real);
                let costs = phase_two_costs(phase2_obj@, n_original as int, n_aug as int);
                let costs2 = phase_two_costs(phase2_obj@, n_original as int, nv);
                assert(t.costs() =~= costs);
                lemma_costs_restrict(costs, costs2, z, w, nv, n_aug as int);
                assert(dot(costs2, w, nv) <= ub);
                assert(false);
            }
            if phase_two_bounded(a@, b@, phase2_obj@, n_original as int, nv) {
                assert(rule_cycles(t3, nv));
                assert(system_cycles(
                    a@,
                    b@,
                    nv,
                    phase_two_costs(phase2_obj@, n_original as int, n_aug as int),
                    nv,
                ));
            }
        }
        return None;
    }
    let sol = tableau.primal_solution();
    let ghost t4 = tableau;
    let ghost z = vals(sol@);
    proof {
        assert forall|j2: int| 0 <= j2 < z.len() && (forall|i2: int| 0 <= i2 < t4.rows() ==> t4.basis@[i2] != j2)
            implies #[trigger] z[j2] == 0real by {}
        assert forall|i2: int| 0 <= i2 < t4.rows() implies #[trigger] z[t4.basis@[i2] as int] == t4.b@[i2].val() by {
            assert forall|i3: int| i2 < i3 < t4.basis@.len() implies t4.basis@[i3] != t4.basis@[i2] by {
                lemma_canonical_distinct(t4, i2, i3);
            }
        }
        lemma_basic_solution_solves(t4, z);
        assert(t3.solves(z));
        assert(t1.solves(z));
        assert(t0.solves(z));
        assert forall|i2: int| 0 <= i2 < m implies #[trigger] dot(vals(a@[i2]@), z, nv) + z[nv + i2] == b@[i2].val() by {
            assert(dot(t0.row(i2), z, t0.cols()) == t0.b@[i2].val());
            assert forall|j2: int| 0 <= j2 < t0.cols() implies #[trigger] t0.entry(i2, j2) == augmented_entry(
                a@,
                nv,
                i2,
                j2,
            ) by {}
            lemma_augmented_row(t0, a@, nv, i2, z);
        }
    }
    let mut x: Vec<Rational> = Vec::new();
    let mut k: usize = 0;
    while k < n_original
        invariant
            n_original <= sol@.len(),
            all_wf(sol@),
            k <= n_original,
            x@.len() == k,
            all_wf(x@),
            forall|q: int| 0 <= q < k ==> #[trigger] x@[q].val() == sol@[q].val(),
        decreases n_original - k,
    {
        assert(sol@[k as int].wf());
        x.push(sol[k].clone());
        k += 1;
    }
    proof {
        let y = z.take(nv);
        assert(t4.is_feasible());
        // The artificial part of the basic solution is zero.
        assert forall|q: int| nv <= q < n_aug implies #[trigger] z[q] == 0real by {
            if exists|i2: int| 0 <= i2 < t4.rows() && t4.basis@[i2] == q {
                let i2 = choose|i2: int| 0 <= i2 < t4.rows() && t4.basis@[i2] == q;
                assert(keeps_frozen_row(t3, t4, i2, nv));
                assert(t4.basis@[i2] == t3.basis@[i2]);
                assert(t3.b@[i2].val() == 0real && t3.row_zero_below(i2, nv));
            }
        }
        assert forall|i2: int| 0 <= i2 < m implies #[trigger] dot(vals(a@[i2]@), y, nv) == b@[i2].val() by {
            lemma_dot_ext(vals(a@[i2]@), vals(a@[i2]@), z, y, nv);
            assert(z[nv + i2] == 0real);
        }
        assert(solves_plain(a@, b@, nv, y));
        assert(forall|q: int| 0 <= q < n_original ==> #[trigger] x@[q].val() == y[q]);
        let costs = phase_two_costs(phase2_obj@, n_original as int, n_aug as int);
        let costs2 = phase_two_costs(phase2_obj@, n_original as int, nv);
        assert(t4.costs() =~= costs);
        lemma_basic_solution_value(t4, z);
        lemma_costs_restrict(costs, costs2, z, y, nv, n_aug as int);
        assert forall|w: Seq<real>|
            w.len() == nv && (forall|j2: int| 0 <= j2 < nv ==> #[trigger] w[j2] >= 0real)
                && #[trigger] solves_plain(a@, b@, nv, w) implies dot(costs2, w, nv) <= dot(costs2, y, nv) by {
            let zw = w + Seq::new(m as nat, |q: int| 0real);
            assert forall|i2: int| 0 <= i2 < t0.rows() implies #[trigger] dot(t0.row(i2), zw, t0.cols())
                == t0.b@[i2].val() by {
                assert forall|j2: int| 0 <= j2 < t0.cols() implies #[trigger] t0.entry(i2, j2) == augmented_entry(
                    a@,
                    nv,
                    i2,
                    j2,
                ) by {}
                lemma_augmented_row(t0, a@, nv, i2, zw);
                lemma_dot_ext(vals(a@[i2]@), vals(a@[i2]@), zw, w, nv);
                assert(dot(vals(a@[i2]@), w, nv) == b@[i2].val());
                assert(zw[nv + i2] == 0real);
            }
            assert(t0.solves(zw));
            assert(t1.solves(zw));
            assert(t3.solves(zw));
            assert(t4.solves(zw));
            lemma_objective_identity(t4, zw);
            let rc = t4.reduced_costs();
            assert forall|q: int| #![trigger rc[q]] 0 <= q < n_aug implies rc[q] * zw[q] <= 0real by {
                if q < nv {
                    assert(t4.reduced_cost_of(q) <= 0real);
                    let (u, v) = (rc[q], zw[q]);
                    assert(u * v <= 0real) by (nonlinear_arith)
                        requires
                            u <= 0real,
                            v >= 0real,
                    ;
                } else {
                    lemma_mul_unit(rc[q]);
                }
            }
            lemma_dot_terms_nonpos(rc, zw, n_aug as int);
            lemma_costs_restrict(costs, costs2, zw, w, nv, n_aug as int);
        }
        assert(has_nonneg_solution(a@, b@, nv));
        assert(phase_two_bounded_by(a@, b@, phase2_obj@, n_original as int, nv, dot(costs2, y, nv)));
    }
    Some(x)
}

/// The phase I objective: zero on the `n_var` original columns, minus one
/// on the artificial columns.
pub open spec fn phase_one_costs(n_var: int, n_aug: int) -> Seq<real> {
    Seq::new(n_aug as nat, |j: int| if j < n_var { 0real } else { -1real })
}

/// The phase I objective at `x` is minus the sum of its artificial entries.
proof fn lemma_phase_one_value(x: Seq<real>, n_var: int, k: int)
    requires
        0 <= n_var <= k,
    ensures
        dot(phase_one_costs(n_var, k), x, k) == -range_sum(x, n_var, k),
    decreases k - n_var,
{
    let c = phase_one_costs(n_var, k);
    if k > n_var {
        lemma_phase_one_value(x, n_var, k - 1);
        lemma_dot_ext(phase_one_costs(n_var, k - 1), c, x, x, k - 1);
        lemma_mul_unit(x[k - 1]);
        assert(-1real * x[k - 1] == -x[k - 1]) by (nonlinear_arith);
    } else {
        assert forall|q: int| #![trigger c[q]] 0 <= q < k implies c[q] * x[q] == 0real by {
            lemma_mul_unit(x[q]);
        }
        lemma_dot_zero(c, x, k);
    }
}

/// A phase I that ends at an optimal canonical tableau whose basic solution
/// has a positive sum of artificials certifies that `a · y = b` has no
/// non-negative solution: every such `y` misses some row.
pub proof fn lemma_phase_one_certificate(
    t: Tableau,
    a: Seq<Vec<Rational>>,
    b: Seq<Rational>,
    n_var: int,
    x: Seq<real>,
    y: Seq<real>,
)
    requires
        t.well_shaped(),
        t.is_canonical(),
        t.is_optimal(),
        0 <= n_var,
        0 < t.rows(),
        t.rows() == a.len(),
        t.cols() == n_var + a.len(),
        t.costs() == phase_one_costs(n_var, t.cols()),
        forall|z: Seq<real>| z.len() == t.cols() ==> (#[trigger] t.solves(z) <==> solves_augmented(a, b, n_var, z)),
        x.len() == t.cols(),
        forall|j: int|
            0 <= j < t.cols() && (forall|i: int| 0 <= i < t.rows() ==> t.basis@[i] != j) ==> #[trigger] x[j]
                == 0real,
        forall|i: int| 0 <= i < t.rows() ==> #[trigger] x[t.basis@[i] as int] == t.b@[i].val(),
        range_sum(x, n_var, t.cols()) > 0real,
        y.len() == n_var,
        forall|j: int| 0 <= j < n_var ==> #[trigger] y[j] >= 0real,
    ensures
        exists|i: int| 0 <= i < a.len() && #[trigger] dot(vals(a[i]@), y, n_var) != b[i].val(),
{
    let n = t.cols();
    let z = y + Seq::new(a.len(), |q: int| 0real);
    if forall|i: int| 0 <= i < a.len() ==> #[trigger] dot(vals(a[i]@), y, n_var) == b[i].val() {
        assert forall|i: int| 0 <= i < a.len() implies #[trigger] dot(vals(a[i]@), z, n_var) + z[n_var + i]
            == b[i].val() by {
            lemma_dot_ext(vals(a[i]@), vals(a[i]@), z, y, n_var);
            assert(dot(vals(a[i]@), y, n_var) == b[i].val());
        }
        assert(solves_augmented(a, b, n_var, z));
        assert(z.len() == n);
        assert(t.solves(z));
        lemma_optimal_bounds_objective(t, z);
        let c = t.costs();
        assert forall|q: int| #![trigger c[q]] 0 <= q < n implies c[q] * z[q] == 0real by {
            lemma_mul_unit(z[q]);
            lemma_mul_unit(c[q]);
        }
        lemma_dot_zero(c, z, n);
        lemma_basic_solution_value(t, x);
        lemma_phase_one_value(x, n_var, n);
        assert(false);
    }
}

} // verus!
