//! Runs of the pivot rule of [`Tableau::optimize`](crate::simplex::Tableau::optimize)
//! (the first column with a positive reduced cost enters, the first row of
//! the ratio test leaves): what one step keeps, how long a run without a
//! repeated basis can be, and the edge along which an unbounded column
//! raises the objective.
use vstd::prelude::*;

use crate::linear::{dot, lemma_dot_add_right, lemma_dot_scale_right, lemma_mul_unit};
use crate::simplex::laws::{
    basic_row, basic_vals, lemma_basic_reduced_cost, lemma_basic_solution_solves, lemma_basic_solution_value,
    lemma_basic_vals, lemma_canonical_distinct, lemma_dot_single, lemma_objective_identity,
};
use crate::simplex::{is_pivot, Tableau};

verus! {

/// The objective value of the basis of `t`.
pub open spec fn obj(t: Tableau) -> real {
    t.objective_of(t.basis@.len() as int)
}

/// Column `j` is basic in `t`.
pub open spec fn in_basis(t: Tableau, j: int) -> bool {
    exists|i: int| 0 <= i < t.rows() && #[trigger] t.basis@[i] as int == j
}

/// `t2` is `t` after one step of the rule on the columns `0..limit`: `e` is
/// the first of them with a positive reduced cost, and `l` the row of the
/// ratio test.
pub open spec fn rule_step(t: Tableau, t2: Tableau, e: int, l: int, limit: int) -> bool {
    &&& 0 <= e < limit
    &&& e <= usize::MAX
    &&& t.reduced_cost_of(e) > 0real
    &&& forall|k: int| 0 <= k < e ==> #[trigger] t.reduced_cost_of(k) <= 0real
    &&& t.leaves_at(e, l)
    &&& is_pivot(t, t2, e, l)
}

/// `t` is canonical and feasible, with the shape, costs and solutions of
/// `t0`.
pub open spec fn run_state(t0: Tableau, t: Tableau, limit: int) -> bool {
    &&& t.well_shaped()
    &&& t.is_canonical()
    &&& t.is_feasible()
    &&& t.rows() == t0.rows()
    &&& t.cols() == t0.cols()
    &&& t.c@ == t0.c@
    &&& limit <= t.cols()
    &&& forall|x: Seq<real>| #[trigger] t.solves(x) <==> t0.solves(x)
}

/// The tableaux `hs` are the steps of a run of the rule from `hs[0]`,
/// with entering columns `es` and leaving rows `ls`.
pub open spec fn is_run(hs: Seq<Tableau>, es: Seq<int>, ls: Seq<int>, limit: int) -> bool {
    &&& hs.len() == es.len() + 1
    &&& ls.len() == es.len()
    &&& forall|k: int| 0 <= k < hs.len() ==> #[trigger] run_state(hs[0], hs[k], limit)
    &&& forall|k: int| 0 <= k < es.len() ==> #[trigger] rule_step(hs[k], hs[k + 1], es[k], ls[k], limit)
}

/// In a canonical tableau the row whose basic column is `basis[i]` is `i`.
proof fn lemma_basic_row(t: Tableau, i: int)
    requires
        t.well_shaped(),
        t.is_canonical(),
        0 <= i < t.rows(),
    ensures
        basic_row(t, t.basis@[i] as int) == i,
{
    let j = t.basis@[i] as int;
    assert(0 <= i < t.rows() && t.basis@[i] as int == j);
    let k = basic_row(t, j);
    if k != i {
        lemma_canonical_distinct(t, i, k);
    }
}

/// The dot product of vectors whose products vanish except at `t1` and
/// `t2`.
proof fn lemma_dot_pair(u: Seq<real>, y: Seq<real>, t1: int, t2: int, k: int)
    requires
        0 <= t1 < k,
        0 <= t2 < k,
        t1 != t2,
        forall|c: int| #![trigger u[c]] 0 <= c < k && c != t1 && c != t2 ==> u[c] * y[c] == 0real,
    ensures
        dot(u, y, k) == u[t1] * y[t1] + u[t2] * y[t2],
    decreases k,
{
    if k - 1 == t1 {
        lemma_dot_single(u, y, t2, k - 1);
    } else if k - 1 == t2 {
        lemma_dot_single(u, y, t1, k - 1);
    } else {
        lemma_dot_pair(u, y, t1, t2, k - 1);
    }
}

/// The edge of the feasible region along which column `u` enters: one unit
/// of `u`, and each basic column moved by minus its row's entry in `u`.
pub open spec fn direction(t: Tableau, u: int) -> Seq<real> {
    Seq::new(
        t.c@.len(),
        |j: int|
            if j == u {
                1real
            } else if in_basis(t, j) {
                -t.entry(basic_row(t, j), u)
            } else {
                0real
            },
    )
}

/// Every row of a canonical tableau vanishes on the edge of a non-basic
/// column.
proof fn lemma_direction_kernel(t: Tableau, u: int)
    requires
        t.well_shaped(),
        t.is_canonical(),
        0 <= u < t.cols(),
        !in_basis(t, u),
    ensures
        forall|i: int| 0 <= i < t.rows() ==> #[trigger] dot(t.row(i), direction(t, u), t.cols()) == 0real,
{
    let (d, n) = (direction(t, u), t.cols());
    assert forall|i: int| 0 <= i < t.rows() implies #[trigger] dot(t.row(i), d, n) == 0real by {
        let bi = t.basis@[i] as int;
        lemma_basic_row(t, i);
        assert(in_basis(t, bi));
        assert(bi != u);
        assert(t.entry(i, bi) == 1real);
        assert forall|c: int| #![trigger t.row(i)[c]] 0 <= c < n && c != u && c != bi implies t.row(i)[c] * d[c]
            == 0real by {
            if in_basis(t, c) {
                let k = choose|k: int| 0 <= k < t.rows() && #[trigger] t.basis@[k] as int == c;
                assert(k != i);
                assert(t.entry(i, t.basis@[k] as int) == 0real);
                lemma_mul_unit(d[c]);
            } else {
                lemma_mul_unit(t.row(i)[c]);
            }
        }
        lemma_dot_pair(t.row(i), d, u, bi, n);
        lemma_mul_unit(t.entry(i, u));
        lemma_mul_unit(d[bi]);
    }
}

/// The reduced costs weigh the edge of a non-basic column `u` by the
/// reduced cost of `u`.
proof fn lemma_direction_reduced(t: Tableau, u: int)
    requires
        t.well_shaped(),
        t.is_canonical(),
        0 <= u < t.cols(),
        !in_basis(t, u),
    ensures
        dot(t.reduced_costs(), direction(t, u), t.cols()) == t.reduced_cost_of(u),
{
    let (rc, d, n) = (t.reduced_costs(), direction(t, u), t.cols());
    assert forall|c: int| #![trigger rc[c]] 0 <= c < n && c != u implies rc[c] * d[c] == 0real by {
        if in_basis(t, c) {
            let i = basic_row(t, c);
            lemma_basic_reduced_cost(t, i);
            lemma_mul_unit(d[c]);
        } else {
            lemma_mul_unit(rc[c]);
        }
    }
    lemma_dot_single(rc, d, u, n);
    lemma_mul_unit(rc[u]);
}

/// The point `s` units along the edge of column `k` from the basic
/// solution.
pub open spec fn ray(t: Tableau, k: int, s: real) -> Seq<real> {
    Seq::new(t.c@.len(), |j: int| basic_vals(t)[j] + s * direction(t, k)[j])
}

/// Where a column `k` with a positive reduced cost has no positive
/// entry, every point along its edge is a non-negative solution of the
/// system, whose objective exceeds that of the basis by `s` times the
/// reduced cost: the objective is unbounded.
pub proof fn lemma_unbounded_ray(t: Tableau, k: int, s: real)
    requires
        t.well_shaped(),
        t.is_canonical(),
        t.is_feasible(),
        0 <= k < t.cols(),
        t.reduced_cost_of(k) > 0real,
        forall|i: int| 0 <= i < t.rows() ==> #[trigger] t.entry(i, k) <= 0real,
        s >= 0real,
    ensures
        ray(t, k, s).len() == t.cols(),
        t.solves(ray(t, k, s)),
        forall|j: int| 0 <= j < t.cols() ==> #[trigger] ray(t, k, s)[j] >= 0real,
        dot(t.costs(), ray(t, k, s), t.cols()) == obj(t) + s * t.reduced_cost_of(k),
        forall|j: int|
            0 <= j < t.cols() && j != k && !in_basis(t, j) ==> #[trigger] ray(t, k, s)[j] == 0real,
        forall|i: int|
            0 <= i < t.rows() && t.entry(i, k) == 0real ==> #[trigger] ray(t, k, s)[t.basis@[i] as int]
                == t.b@[i].val(),
{
    let (x, d, n, z) = (basic_vals(t), direction(t, k), t.cols(), ray(t, k, s));
    if in_basis(t, k) {
        let i = choose|i: int| 0 <= i < t.rows() && #[trigger] t.basis@[i] as int == k;
        lemma_basic_reduced_cost(t, i);
    }
    lemma_basic_vals(t);
    lemma_basic_solution_solves(t, x);
    lemma_direction_kernel(t, k);
    let sd = Seq::new(n as nat, |j: int| s * d[j]);
    assert forall|j: int| 0 <= j < n implies #[trigger] z[j] == x[j] + sd[j] by {}
    assert forall|j: int| 0 <= j < n implies #[trigger] d[j] * s == sd[j] by {
        assert(d[j] * s == s * d[j]) by (nonlinear_arith);
    }
    assert forall|i: int| 0 <= i < t.rows() implies #[trigger] dot(t.row(i), z, n) == t.b@[i].val() by {
        lemma_dot_scale_right(t.row(i), sd, d, s, n);
        lemma_mul_unit(s);
        assert(dot(t.row(i), d, n) * s == 0real) by (nonlinear_arith)
            requires
                dot(t.row(i), d, n) == 0real,
        ;
        lemma_dot_add_right(t.row(i), x, sd, z, n);
    }
    assert forall|j: int| 0 <= j < n implies #[trigger] z[j] >= 0real by {
        assert(x[j] >= 0real);
        if j != k && in_basis(t, j) {
            let i = basic_row(t, j);
            assert(t.entry(i, k) <= 0real);
        }
        assert(d[j] >= 0real);
        let (a, b) = (s, d[j]);
        assert(a * b >= 0real) by (nonlinear_arith)
            requires
                a >= 0real,
                b >= 0real,
        ;
    }
    assert forall|j: int| 0 <= j < n && j != k && !in_basis(t, j) implies #[trigger] z[j] == 0real by {
        assert(forall|i: int| 0 <= i < t.rows() ==> t.basis@[i] != j);
        lemma_mul_unit(s);
    }
    assert forall|i: int| 0 <= i < t.rows() && t.entry(i, k) == 0real implies #[trigger] z[t.basis@[i] as int]
        == t.b@[i].val() by {
        let j = t.basis@[i] as int;
        lemma_basic_row(t, i);
        assert(in_basis(t, j));
        assert(j != k);
        lemma_mul_unit(s);
        assert(d[j] == 0real);
    }
    lemma_objective_identity(t, z);
    lemma_objective_identity(t, x);
    lemma_basic_solution_value(t, x);
    lemma_direction_reduced(t, k);
    let rc = t.reduced_costs();
    lemma_dot_add_right(rc, x, sd, z, n);
    lemma_dot_scale_right(rc, sd, d, s, n);
    assert(dot(rc, d, n) * s == s * t.reduced_cost_of(k)) by (nonlinear_arith)
        requires
            dot(rc, d, n) == t.reduced_cost_of(k),
    ;
}

/// `n` to the power `m`.
pub open spec fn power(n: int, m: nat) -> int
    decreases m,
{
    if m == 0 {
        1
    } else {
        n * power(n, (m - 1) as nat)
    }
}

/// The number whose digits in base `n` are the entries of `s`, least
/// significant first.
pub open spec fn code(s: Seq<usize>, n: int) -> int
    decreases s.len(),
{
    if s.len() == 0 {
        0
    } else {
        s[0] as int + n * code(s.drop_first(), n)
    }
}

/// A sequence of digits below `n` has a code in `0..power(n, len)`.
proof fn lemma_code_bound(s: Seq<usize>, n: int)
    requires
        forall|i: int| 0 <= i < s.len() ==> #[trigger] s[i] < n,
    ensures
        0 <= code(s, n) < power(n, s.len()),
    decreases s.len(),
{
    if s.len() > 0 {
        let r = s.drop_first();
        assert forall|i: int| 0 <= i < r.len() implies #[trigger] r[i] < n by {
            assert(r[i] == s[i + 1]);
        }
        lemma_code_bound(r, n);
        let (d, c, pw) = (s[0] as int, code(r, n), power(n, r.len()));
        assert(0 <= d + n * c < n * pw) by (nonlinear_arith)
            requires
                0 <= d < n,
                0 <= c < pw,
        ;
    }
}

/// Sequences of digits below `n` of one length with one code are equal.
proof fn lemma_code_injective(s: Seq<usize>, t: Seq<usize>, n: int)
    requires
        s.len() == t.len(),
        forall|i: int| 0 <= i < s.len() ==> #[trigger] s[i] < n,
        forall|i: int| 0 <= i < t.len() ==> #[trigger] t[i] < n,
        code(s, n) == code(t, n),
    ensures
        s == t,
    decreases s.len(),
{
    if s.len() > 0 {
        let (rs, rt) = (s.drop_first(), t.drop_first());
        assert forall|i: int| 0 <= i < rs.len() implies #[trigger] rs[i] < n by {
            assert(rs[i] == s[i + 1]);
        }
        assert forall|i: int| 0 <= i < rt.len() implies #[trigger] rt[i] < n by {
            assert(rt[i] == t[i + 1]);
        }
        lemma_code_bound(rs, n);
        lemma_code_bound(rt, n);
        let (a, b, x, y) = (s[0] as int, t[0] as int, code(rs, n), code(rt, n));
        assert(a == b && x == y) by (nonlinear_arith)
            requires
                0 <= a < n,
                0 <= b < n,
                0 <= x,
                0 <= y,
                a + n * x == b + n * y,
        ;
        lemma_code_injective(rs, rt, n);
        assert(s =~= rt.insert(0, t[0]));
        assert(t =~= rt.insert(0, t[0]));
    } else {
        assert(s =~= t);
    }
}

/// Some run of the rule from `t0` comes back to a basis it has already
/// had: from there the rule repeats the same pivots without end.
pub open spec fn rule_cycles(t0: Tableau, limit: int) -> bool {
    exists|hs: Seq<Tableau>, es: Seq<int>, ls: Seq<int>|
        #[trigger] is_run(hs, es, ls, limit) && hs[0] == t0 && repeats_basis(hs)
}

/// Two of the tableaux `hs` have the same basis.
pub open spec fn repeats_basis(hs: Seq<Tableau>) -> bool {
    exists|p: int, q: int| 0 <= p < q < hs.len() && #[trigger] hs[p].basis@ == #[trigger] hs[q].basis@
}

/// A run over `m` rows and `n` columns whose bases are distinct has at most
/// `n` to the power `m` steps: its bases are distinct sequences of `m`
/// columns.
pub proof fn lemma_run_length(hs: Seq<Tableau>, es: Seq<int>, ls: Seq<int>, limit: int)
    requires
        is_run(hs, es, ls, limit),
        !repeats_basis(hs),
    ensures
        hs.len() <= power(hs[0].cols(), hs[0].rows() as nat),
{
    let (n, m) = (hs[0].cols(), hs[0].rows());
    let pw = power(n, m as nat);
    let cs = Seq::new(hs.len(), |k: int| code(hs[k].basis@, n));
    assert forall|k: int| 0 <= k < hs.len() implies 0 <= #[trigger] cs[k] < pw by {
        assert(run_state(hs[0], hs[k], limit));
        lemma_code_bound(hs[k].basis@, n);
    }
    assert forall|a: int, b: int| 0 <= a < cs.len() && 0 <= b < cs.len() && a != b implies cs[a] != cs[b] by {
        assert(run_state(hs[0], hs[a], limit));
        assert(run_state(hs[0], hs[b], limit));
        if cs[a] == cs[b] {
            lemma_code_injective(hs[a].basis@, hs[b].basis@, n);
            if a < b {
                assert(hs[a].basis@ == hs[b].basis@);
            } else {
                assert(hs[b].basis@ == hs[a].basis@);
            }
        }
    }
    assert(0 <= cs[0] < pw);
    cs.unique_seq_to_set();
    let range = vstd::set_lib::set_int_range(0, pw);
    vstd::set_lib::lemma_int_range(0, pw);
    assert(cs.to_set().subset_of(range));
    vstd::set_lib::lemma_len_subset(cs.to_set(), range);
}

} // verus!
