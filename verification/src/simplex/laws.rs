//! What pivots keep, and what an optimal tableau certifies.
use vstd::prelude::*;

use crate::linear::{
    dot, lemma_div_cancel, lemma_dot_elim, lemma_dot_scale, lemma_mul_unit, lemma_positive_factor,
};
use crate::simplex::{is_pivot, Tableau};

verus! {

/// `a * p == b * p` with `p != 0` gives `a == b`.
proof fn lemma_cancel(a: real, b: real, p: real)
    requires
        p != 0real,
        a * p == b * p,
    ensures
        a == b,
{
    assert(a == b) by (nonlinear_arith)
        requires
            p != 0real,
            a * p == b * p,
    ;
}

/// A pivot keeps the solutions of the system: `x` solves the tableau
/// before the pivot exactly when it solves it after.
pub proof fn lemma_pivot_keeps_solutions(old: Tableau, new: Tableau, e: int, l: int, x: Seq<real>)
    requires
        old.well_shaped(),
        0 <= e < old.cols(),
        0 <= l < old.rows(),
        old.entry(l, e) != 0real,
        is_pivot(old, new, e, l),
    ensures
        old.solves(x) <==> new.solves(x),
{
    let pv = old.entry(l, e);
    let n = old.cols();
    assert forall|j: int| 0 <= j < n implies #[trigger] new.row(l)[j] * pv == old.row(l)[j] by {
        assert(new.entry(l, j) == old.entry(l, j) / pv);
        lemma_div_cancel(old.entry(l, j), pv);
    }
    lemma_dot_scale(old.row(l), new.row(l), x, pv, n);
    lemma_div_cancel(old.b@[l].val(), pv);
    let nl = dot(new.row(l), x, n);
    let nb = new.b@[l].val();
    assert((nl == nb) <==> (dot(old.row(l), x, n) == old.b@[l].val())) by {
        if dot(old.row(l), x, n) == old.b@[l].val() {
            lemma_cancel(nl, nb, pv);
        }
    }
    assert forall|i: int| 0 <= i < old.rows() && i != l && nl == nb implies (#[trigger] dot(old.row(i), x, n)
        == old.b@[i].val() <==> dot(new.row(i), x, n) == new.b@[i].val()) by {
        let f = old.entry(i, e);
        assert forall|j: int| 0 <= j < n implies #[trigger] new.row(i)[j] == old.row(i)[j] - f * new.row(l)[j] by {
            assert(new.entry(i, j) == old.entry(i, j) - f * new.entry(l, j));
        }
        lemma_dot_elim(old.row(i), new.row(l), new.row(i), x, f, n);
    }
    if old.solves(x) {
        assert forall|i: int| 0 <= i < new.rows() implies #[trigger] dot(new.row(i), x, new.cols())
            == new.b@[i].val() by {
            assert(dot(old.row(l), x, n) == old.b@[l].val());
            assert(dot(old.row(i), x, n) == old.b@[i].val());
        }
    }
    if new.solves(x) {
        assert forall|i: int| 0 <= i < old.rows() implies #[trigger] dot(old.row(i), x, old.cols())
            == old.b@[i].val() by {
            assert(dot(new.row(l), x, n) == new.b@[l].val());
            assert(dot(new.row(i), x, n) == new.b@[i].val());
        }
    }
}

/// A pivot on a non-zero entry keeps the canonical form: the entering
/// column becomes the unit vector of its row, the other basic columns stay.
pub proof fn lemma_pivot_keeps_canonical(old: Tableau, new: Tableau, e: int, l: int)
    requires
        old.well_shaped(),
        old.is_canonical(),
        0 <= e < old.cols(),
        e <= usize::MAX,
        0 <= l < old.rows(),
        old.entry(l, e) != 0real,
        is_pivot(old, new, e, l),
    ensures
        new.is_canonical(),
{
    let pv = old.entry(l, e);
    lemma_div_cancel(pv, pv);
    assert forall|i: int, k: int| 0 <= i < new.rows() && 0 <= k < new.rows() implies #[trigger] new.entry(
        k,
        new.basis@[i] as int,
    ) == (if k == i {
        1real
    } else {
        0real
    }) by {
        if i == l {
            assert(new.basis@[i] as int == e);
            assert(new.entry(l, e) == old.entry(l, e) / pv);
            if k != l {
                assert(new.entry(k, e) == old.entry(k, e) - old.entry(k, e) * new.entry(l, e));
                lemma_mul_unit(old.entry(k, e));
            }
        } else {
            let bi = old.basis@[i] as int;
            assert(old.entry(l, bi) == 0real);
            assert(bi < old.cols());
            assert(new.entry(l, bi) == 0real / pv);
            assert(0real / pv == 0real) by (nonlinear_arith)
                requires
                    pv != 0real,
            ;
            if k != l {
                assert(new.entry(k, bi) == old.entry(k, bi) - old.entry(k, e) * new.entry(l, bi));
                lemma_mul_unit(old.entry(k, e));
            }
        }
    }
}

/// `f * (b / p) <= c` when `b / p <= c / f` for positive `f` and `p`.
proof fn lemma_ratio_bound(b: real, p: real, c: real, f: real)
    requires
        p > 0real,
        f > 0real,
        b / p <= c / f,
    ensures
        f * (b / p) <= c,
{
    assert(f * (b / p) <= c) by (nonlinear_arith)
        requires
            p > 0real,
            f > 0real,
            b / p <= c / f,
    ;
}

/// A pivot on the row that the ratio test picks, or on a row whose
/// right-hand side is zero, keeps the basic solution non-negative.
pub proof fn lemma_pivot_keeps_feasible(old: Tableau, new: Tableau, e: int, l: int)
    requires
        old.well_shaped(),
        old.is_feasible(),
        0 <= e < old.cols(),
        0 <= l < old.rows(),
        old.entry(l, e) != 0real,
        old.ratio_ok(e, l),
        is_pivot(old, new, e, l),
    ensures
        new.is_feasible(),
{
    let pv = old.entry(l, e);
    let bl = old.b@[l].val();
    if bl == 0real {
        assert(0real / pv == 0real) by (nonlinear_arith)
            requires
                pv != 0real,
        ;
        assert forall|i: int| 0 <= i < new.rows() implies #[trigger] new.b@[i].val() >= 0real by {
            if i != l {
                lemma_mul_unit(old.entry(i, e));
            }
        }
    } else {
        lemma_positive_factor(bl, pv);
        assert forall|i: int| 0 <= i < new.rows() implies #[trigger] new.b@[i].val() >= 0real by {
            if i != l {
                let f = old.entry(i, e);
                let r = bl / pv;
                if f > 0real {
                    lemma_ratio_bound(bl, pv, old.b@[i].val(), f);
                } else {
                    assert(f * r <= 0real) by (nonlinear_arith)
                        requires
                            f <= 0real,
                            r >= 0real,
                    ;
                }
            }
        }
    }
}

/// The dot product of vectors whose products vanish except at `t`.
pub(crate) proof fn lemma_dot_single(u: Seq<real>, y: Seq<real>, t: int, k: int)
    requires
        0 <= t < k,
        forall|c: int| #![trigger u[c]] 0 <= c < k && c != t ==> u[c] * y[c] == 0real,
    ensures
        dot(u, y, k) == u[t] * y[t],
    decreases k,
{
    if k - 1 > t {
        lemma_dot_single(u, y, t, k - 1);
    } else {
        lemma_dot_zero(u, y, k - 1);
    }
}

/// The dot product of vectors whose products all vanish.
pub(crate) proof fn lemma_dot_zero(u: Seq<real>, y: Seq<real>, k: int)
    requires
        forall|c: int| #![trigger u[c]] 0 <= c < k ==> u[c] * y[c] == 0real,
    ensures
        dot(u, y, k) == 0real,
    decreases k,
{
    if k > 0 {
        lemma_dot_zero(u, y, k - 1);
    }
}

/// The basic solution of a canonical tableau solves its system, and is
/// non-negative when the tableau is feasible.
pub proof fn lemma_basic_solution_solves(t: Tableau, x: Seq<real>)
    requires
        t.well_shaped(),
        t.is_canonical(),
        x.len() == t.cols(),
        forall|j: int|
            0 <= j < t.cols() && (forall|i: int| 0 <= i < t.rows() ==> t.basis@[i] != j) ==> #[trigger] x[j]
                == 0real,
        forall|i: int| 0 <= i < t.rows() ==> #[trigger] x[t.basis@[i] as int] == t.b@[i].val(),
    ensures
        t.solves(x),
        t.is_feasible() ==> forall|j: int| 0 <= j < x.len() ==> #[trigger] x[j] >= 0real,
{
    assert forall|i: int| 0 <= i < t.rows() implies #[trigger] dot(t.row(i), x, t.cols()) == t.b@[i].val() by {
        let bi = t.basis@[i] as int;
        assert(t.entry(i, bi) == 1real);
        assert forall|c: int| 0 <= c < t.cols() && c != bi implies #[trigger] t.row(i)[c] * x[c] == 0real by {
            if exists|k: int| 0 <= k < t.rows() && t.basis@[k] == c {
                let k = choose|k: int| 0 <= k < t.rows() && t.basis@[k] == c;
                assert(t.entry(i, t.basis@[k] as int) == 0real);
                lemma_mul_unit(x[c]);
            } else {
                lemma_mul_unit(t.row(i)[c]);
            }
        }
        lemma_dot_single(t.row(i), x, bi, t.cols());
        lemma_mul_unit(x[bi]);
    }
    if t.is_feasible() {
        assert forall|j: int| 0 <= j < x.len() implies #[trigger] x[j] >= 0real by {
            if exists|k: int| 0 <= k < t.rows() && t.basis@[k] == j {
                let k = choose|k: int| 0 <= k < t.rows() && t.basis@[k] == j;
                assert(x[t.basis@[k] as int] == t.b@[k].val());
            }
        }
    }
}

/// The rows of a canonical tableau name distinct basic columns.
pub proof fn lemma_canonical_distinct(t: Tableau, i: int, k: int)
    requires
        t.well_shaped(),
        t.is_canonical(),
        0 <= i < t.rows(),
        0 <= k < t.rows(),
        i != k,
    ensures
        t.basis@[i] != t.basis@[k],
{
    assert(t.entry(i, t.basis@[i] as int) == 1real);
    assert(t.entry(i, t.basis@[k] as int) == 0real);
}

/// Adding vectors entry by entry on the left adds their dot products.
proof fn lemma_dot_add_left(u: Seq<real>, v: Seq<real>, w: Seq<real>, y: Seq<real>, k: int)
    requires
        forall|c: int| 0 <= c < k ==> #[trigger] w[c] == u[c] + v[c],
    ensures
        dot(w, y, k) == dot(u, y, k) + dot(v, y, k),
    decreases k,
{
    if k > 0 {
        lemma_dot_add_left(u, v, w, y, k - 1);
        let (a, b, x) = (u[k - 1], v[k - 1], y[k - 1]);
        assert((a + b) * x == a * x + b * x) by (nonlinear_arith);
    }
}

/// The dot product of the basic costs with `z` weighs each row's dot
/// product with `z` by the cost of its basic column.
proof fn lemma_basic_costs_dot(t: Tableau, z: Seq<real>, k: int)
    requires
        t.well_shaped(),
        0 <= k <= t.basis@.len(),
    ensures
        dot(t.basic_costs(k), z, t.cols()) == t.weighted_rows(z, k),
    decreases k,
{
    let n = t.cols();
    if k <= 0 {
        assert forall|c: int| #![trigger t.basic_costs(k)[c]] 0 <= c < n implies t.basic_costs(k)[c] * z[c] == 0real by {
            lemma_mul_unit(z[c]);
        }
        lemma_dot_zero(t.basic_costs(k), z, n);
    } else {
        lemma_basic_costs_dot(t, z, k - 1);
        let w = t.c@[t.basis@[k - 1] as int].val();
        let scaled = Seq::new(n as nat, |j: int| t.row(k - 1)[j] * w);
        assert forall|c: int| 0 <= c < n implies #[trigger] t.basic_costs(k)[c] == t.basic_costs(k - 1)[c] + scaled[c] by {
            let x = t.row(k - 1)[c];
            assert(w * x == x * w) by (nonlinear_arith);
        }
        lemma_dot_add_left(t.basic_costs(k - 1), scaled, t.basic_costs(k), z, n);
        lemma_dot_scale(scaled, t.row(k - 1), z, w, n);
        let d = dot(t.row(k - 1), z, n);
        assert(d * w == w * d) by (nonlinear_arith);
    }
}

/// For a solution `z` of the system, the weighted rows add up to the
/// objective value of the basis.
proof fn lemma_weighted_rows_objective(t: Tableau, z: Seq<real>, k: int)
    requires
        t.well_shaped(),
        t.solves(z),
        0 <= k <= t.basis@.len(),
    ensures
        t.weighted_rows(z, k) == t.objective_of(k),
    decreases k,
{
    if k > 0 {
        lemma_weighted_rows_objective(t, z, k - 1);
        assert(dot(t.row(k - 1), z, t.cols()) == t.b@[k - 1].val());
    }
}

/// The objective at any solution `z` of the system is the objective value of
/// the basis plus the reduced costs weighted by `z`:
/// `c · z == sum_i c[basis[i]] * b[i] + rc · z`.
pub proof fn lemma_objective_identity(t: Tableau, z: Seq<real>)
    requires
        t.well_shaped(),
        t.solves(z),
    ensures
        dot(t.costs(), z, t.cols()) == t.objective_of(t.basis@.len() as int) + dot(t.reduced_costs(), z, t.cols()),
{
    let m = t.basis@.len() as int;
    let n = t.cols();
    assert forall|c: int| 0 <= c < n implies #[trigger] t.reduced_costs()[c] == t.costs()[c] - 1real
        * t.basic_costs(m)[c] by {
        lemma_mul_unit(t.basic_costs(m)[c]);
    }
    lemma_dot_elim(t.costs(), t.basic_costs(m), t.reduced_costs(), z, 1real, n);
    lemma_mul_unit(dot(t.basic_costs(m), z, n));
    lemma_basic_costs_dot(t, z, m);
    lemma_weighted_rows_objective(t, z, m);
}

/// At an optimal tableau no non-negative solution of the system has a
/// larger objective than the objective value of the basis.
pub proof fn lemma_optimal_bounds_objective(t: Tableau, z: Seq<real>)
    requires
        t.well_shaped(),
        t.rows() > 0,
        t.is_optimal(),
        t.solves(z),
        forall|j: int| 0 <= j < t.cols() ==> #[trigger] z[j] >= 0real,
    ensures
        dot(t.costs(), z, t.cols()) <= t.objective_of(t.basis@.len() as int),
{
    lemma_objective_identity(t, z);
    lemma_dot_nonpos(t.reduced_costs(), z, t.cols());
}

/// The dot product of a non-positive vector with a non-negative one is
/// non-positive.
pub(crate) proof fn lemma_dot_nonpos(u: Seq<real>, y: Seq<real>, k: int)
    requires
        forall|c: int| 0 <= c < k ==> #[trigger] u[c] <= 0real,
        forall|c: int| 0 <= c < k ==> #[trigger] y[c] >= 0real,
    ensures
        dot(u, y, k) <= 0real,
    decreases k,
{
    if k > 0 {
        lemma_dot_nonpos(u, y, k - 1);
        let (a, x) = (u[k - 1], y[k - 1]);
        assert(a * x <= 0real) by (nonlinear_arith)
            requires
                a <= 0real,
                x >= 0real,
        ;
    }
}

/// In a canonical tableau the reduced cost of a basic column is zero.
pub(crate) proof fn lemma_basic_reduced_cost(t: Tableau, i: int)
    requires
        t.well_shaped(),
        t.is_canonical(),
        0 <= i < t.rows(),
    ensures
        t.reduced_cost_of(t.basis@[i] as int) == 0real,
{
    lemma_basic_cost_unit(t, t.basis@[i] as int, i, t.rows());
}

/// The basic cost of a column that is the `i`-th unit vector.
proof fn lemma_basic_cost_unit(t: Tableau, col: int, i: int, k: int)
    requires
        t.well_shaped(),
        t.basis@.len() == t.rows(),
        0 <= i < t.rows(),
        0 <= k <= t.rows(),
        forall|q: int| 0 <= q < t.rows() ==> #[trigger] t.entry(q, col) == (if q == i { 1real } else { 0real }),
    ensures
        t.basic_cost(col, k) == (if i < k { t.c@[t.basis@[i] as int].val() } else { 0real }),
    decreases k,
{
    if k > 0 {
        lemma_basic_cost_unit(t, col, i, k - 1);
        lemma_mul_unit(t.c@[t.basis@[k - 1] as int].val());
    }
}

/// The basic solution of a canonical tableau attains the objective value
/// of the basis.
pub proof fn lemma_basic_solution_value(t: Tableau, x: Seq<real>)
    requires
        t.well_shaped(),
        t.is_canonical(),
        x.len() == t.cols(),
        forall|j: int|
            0 <= j < t.cols() && (forall|i: int| 0 <= i < t.rows() ==> t.basis@[i] != j) ==> #[trigger] x[j]
                == 0real,
        forall|i: int| 0 <= i < t.rows() ==> #[trigger] x[t.basis@[i] as int] == t.b@[i].val(),
    ensures
        dot(t.costs(), x, t.cols()) == t.objective_of(t.rows()),
{
    lemma_basic_solution_solves(t, x);
    lemma_objective_identity(t, x);
    assert forall|c: int| #![trigger t.reduced_costs()[c]] 0 <= c < t.cols() implies t.reduced_costs()[c] * x[c]
        == 0real by {
        if exists|i: int| 0 <= i < t.rows() && t.basis@[i] == c {
            let i = choose|i: int| 0 <= i < t.rows() && t.basis@[i] == c;
            lemma_basic_reduced_cost(t, i);
            lemma_mul_unit(x[c]);
        } else {
            lemma_mul_unit(t.reduced_costs()[c]);
        }
    }
    lemma_dot_zero(t.reduced_costs(), x, t.cols());
}

/// The basic solution of a tableau, as reals: `b[i]` at column `basis[i]`,
/// zero off the basis.
pub open spec fn basic_vals(t: Tableau) -> Seq<real> {
    Seq::new(
        t.c@.len(),
        |j: int|
            if exists|i: int| 0 <= i < t.rows() && #[trigger] t.basis@[i] as int == j {
                t.b@[basic_row(t, j)].val()
            } else {
                0real
            },
    )
}

/// A row whose basic column is `j`.
pub open spec fn basic_row(t: Tableau, j: int) -> int {
    choose|i: int| 0 <= i < t.rows() && #[trigger] t.basis@[i] as int == j
}

/// In a canonical tableau the basic solution puts `b[i]` at `basis[i]`.
pub proof fn lemma_basic_vals(t: Tableau)
    requires
        t.well_shaped(),
        t.is_canonical(),
    ensures
        basic_vals(t).len() == t.cols(),
        forall|j: int|
            0 <= j < t.cols() && (forall|i: int| 0 <= i < t.rows() ==> t.basis@[i] != j) ==> #[trigger] basic_vals(
                t,
            )[j] == 0real,
        forall|i: int| 0 <= i < t.rows() ==> #[trigger] basic_vals(t)[t.basis@[i] as int] == t.b@[i].val(),
{
    assert forall|i: int| 0 <= i < t.rows() implies #[trigger] basic_vals(t)[t.basis@[i] as int] == t.b@[i].val() by {
        let j = t.basis@[i] as int;
        assert(0 <= j < t.cols());
        assert(0 <= i < t.rows() && t.basis@[i] as int == j);
        let k = basic_row(t, j);
        if k != i {
            lemma_canonical_distinct(t, i, k);
        }
        assert(basic_vals(t)[j] == t.b@[k].val());
    }
}

/// A pivot on a column with a positive reduced cost, at the row that the
/// ratio test picks, does not lower the objective value of the basis.
pub proof fn lemma_pivot_objective(old: Tableau, new: Tableau, e: int, l: int)
    requires
        old.well_shaped(),
        old.is_canonical(),
        old.is_feasible(),
        0 <= e < old.cols(),
        e <= usize::MAX,
        0 <= l < old.rows(),
        old.entry(l, e) > 0real,
        old.ratio_ok(e, l),
        old.reduced_cost_of(e) > 0real,
        is_pivot(old, new, e, l),
    ensures
        new.objective_of(new.basis@.len() as int) >= old.objective_of(old.basis@.len() as int),
        new.objective_of(new.basis@.len() as int) == old.objective_of(old.basis@.len() as int)
            + old.reduced_cost_of(e) * new.b@[l].val(),
{
    lemma_pivot_keeps_canonical(old, new, e, l);
    lemma_pivot_keeps_feasible(old, new, e, l);
    let x = basic_vals(new);
    lemma_basic_vals(new);
    lemma_basic_solution_solves(new, x);
    lemma_pivot_keeps_solutions(old, new, e, l, x);
    lemma_objective_identity(old, x);
    lemma_basic_solution_value(new, x);
    assert(new.costs() == old.costs());
    let rc = old.reduced_costs();
    assert forall|c: int| #![trigger rc[c]] 0 <= c < old.cols() && c != e implies rc[c] * x[c] == 0real by {
        if exists|i: int| 0 <= i < new.rows() && #[trigger] new.basis@[i] as int == c {
            let i = choose|i: int| 0 <= i < new.rows() && #[trigger] new.basis@[i] as int == c;
            assert(i != l);
            assert(new.basis@[i] == old.basis@[i]);
            lemma_basic_reduced_cost(old, i);
            lemma_mul_unit(x[c]);
        } else {
            lemma_mul_unit(rc[c]);
        }
    }
    lemma_dot_single(rc, x, e, old.cols());
    assert(new.basis@[l] == e as usize);
    assert(x[e] == new.b@[l].val());
    assert(new.b@[l].val() >= 0real);
    let (p, q) = (rc[e], x[e]);
    assert(p * q >= 0real) by (nonlinear_arith)
        requires
            p > 0real,
            q >= 0real,
    ;
}

} // verus!
