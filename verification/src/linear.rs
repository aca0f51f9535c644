//! Sums and dot products of real values, and the linear-algebra facts that
//! the maximal-lottery computation rests on.
use vstd::prelude::*;

use crate::rational::Rational;

verus! {

/// The values of a vector of rationals.
pub open spec fn vals(v: Seq<Rational>) -> Seq<real> {
    Seq::new(v.len(), |c: int| v[c].val())
}

/// The values of the rows of a matrix of rationals.
pub open spec fn mvals(m: Seq<Vec<Rational>>) -> Seq<Seq<real>> {
    Seq::new(m.len(), |r: int| vals(m[r]@))
}

/// `sum_{c < k} a[c] * x[c]`.
pub open spec fn dot(a: Seq<real>, x: Seq<real>, k: int) -> real
    decreases k,
{
    if k <= 0 {
        0real
    } else {
        dot(a, x, k - 1) + a[k - 1] * x[k - 1]
    }
}

/// `sum_{c < k} s[c]`.
pub open spec fn sum(s: Seq<real>, k: int) -> real
    decreases k,
{
    if k <= 0 {
        0real
    } else {
        sum(s, k - 1) + s[k - 1]
    }
}

/// Row `row` of an augmented system holds at `y`:
/// `sum_{c < n} row[c] * y[c] == row[n]`.
pub open spec fn row_holds(row: Seq<real>, y: Seq<real>, n: int) -> bool {
    dot(row, y, n) == row[n]
}

/// Every row of the `n`-row augmented system holds at `y`.
pub open spec fn system_holds(m: Seq<Seq<real>>, y: Seq<real>, n: int) -> bool {
    forall|r: int| 0 <= r < n ==> #[trigger] row_holds(m[r], y, n)
}

/// Dot products only read the first `k` entries.
pub proof fn lemma_dot_ext(u: Seq<real>, v: Seq<real>, y: Seq<real>, z: Seq<real>, k: int)
    requires
        forall|c: int| 0 <= c < k ==> u[c] == v[c] && y[c] == z[c],
    ensures
        dot(u, y, k) == dot(v, z, k),
    decreases k,
{
    if k > 0 {
        lemma_dot_ext(u, v, y, z, k - 1);
    }
}

/// Scaling a row by `p` scales its dot products by `p`.
pub proof fn lemma_dot_scale(u: Seq<real>, v: Seq<real>, y: Seq<real>, p: real, k: int)
    requires
        forall|c: int| 0 <= c < k ==> #[trigger] v[c] * p == u[c],
    ensures
        dot(v, y, k) * p == dot(u, y, k),
    decreases k,
{
    if k > 0 {
        lemma_dot_scale(u, v, y, p, k - 1);
        lemma_mul_distrib(dot(v, y, k - 1), v[k - 1], y[k - 1], p);
    }
}

/// `(a + b * x) * p == a * p + (b * p) * x`.
pub proof fn lemma_mul_distrib(a: real, b: real, x: real, p: real)
    ensures
        (a + b * x) * p == a * p + (b * p) * x,
{
    assert((a + b * x) * p == a * p + (b * p) * x) by (nonlinear_arith);
}

/// Subtracting `f` times row `v` from row `u` subtracts `f` times the dot
/// product of `v`.
pub proof fn lemma_dot_elim(u: Seq<real>, v: Seq<real>, w: Seq<real>, y: Seq<real>, f: real, k: int)
    requires
        forall|c: int| 0 <= c < k ==> #[trigger] w[c] == u[c] - f * v[c],
    ensures
        dot(w, y, k) == dot(u, y, k) - f * dot(v, y, k),
    decreases k,
{
    if k > 0 {
        lemma_dot_elim(u, v, w, y, f, k - 1);
        lemma_elim_step(dot(u, y, k - 1), dot(v, y, k - 1), u[k - 1], v[k - 1], y[k - 1], f);
    }
}

/// `(du - f * dv) + (a - f * b) * x == (du + a * x) - f * (dv + b * x)`.
pub proof fn lemma_elim_step(du: real, dv: real, a: real, b: real, x: real, f: real)
    ensures
        (du - f * dv) + (a - f * b) * x == (du + a * x) - f * (dv + b * x),
{
    assert((a - f * b) * x == a * x - f * (b * x)) by (nonlinear_arith);
    assert(f * (dv + b * x) == f * dv + f * (b * x)) by (nonlinear_arith);
}

/// The dot product with the `i`-th unit vector picks entry `i`.
pub proof fn lemma_dot_unit(u: Seq<real>, y: Seq<real>, i: int, k: int)
    requires
        0 <= i,
        forall|c: int| 0 <= c < k ==> #[trigger] u[c] == (if c == i { 1real } else { 0real }),
    ensures
        dot(u, y, k) == (if i < k { y[i] } else { 0real }),
    decreases k,
{
    if k > 0 {
        lemma_dot_unit(u, y, i, k - 1);
        if k - 1 == i {
            assert(1real * y[k - 1] == y[k - 1]) by (nonlinear_arith);
        } else {
            assert(0real * y[k - 1] == 0real) by (nonlinear_arith);
        }
    }
}

/// `(a / p) * p == a` and `p / p == 1` for `p != 0`.
pub proof fn lemma_div_cancel(a: real, p: real)
    requires
        p != 0real,
    ensures
        (a / p) * p == a,
        p / p == 1real,
{
    assert((a / p) * p == a) by (nonlinear_arith)
        requires
            p != 0real,
    ;
    assert(p / p == 1real) by (nonlinear_arith)
        requires
            p != 0real,
    ;
}

/// `x * 1 == x` and `x * 0 == 0`, on both sides.
pub proof fn lemma_mul_unit(x: real)
    ensures
        x * 1real == x,
        1real * x == x,
        x * 0real == 0real,
        0real * x == 0real,
{
    assert(x * 1real == x) by (nonlinear_arith);
    assert(1real * x == x) by (nonlinear_arith);
    assert(x * 0real == 0real) by (nonlinear_arith);
    assert(0real * x == 0real) by (nonlinear_arith);
}

/// Every row of the `n`-row coefficient matrix vanishes at `y`:
/// `sum_{c < n} m[r][c] * y[c] == 0`.
pub open spec fn kernel_holds(m: Seq<Seq<real>>, y: Seq<real>, n: int) -> bool {
    forall|r: int| 0 <= r < n ==> #[trigger] dot(m[r], y, n) == 0real
}

/// Exchanging two rows keeps the solutions of a system, and those of its
/// homogeneous part.
pub proof fn lemma_swap_keeps_solutions(old_m: Seq<Seq<real>>, new_m: Seq<Seq<real>>, i: int, j: int, n: int)
    requires
        0 <= i < n,
        0 <= j < n,
        old_m.len() == n,
        new_m == old_m.update(i, old_m[j]).update(j, old_m[i]),
    ensures
        forall|y: Seq<real>| system_holds(new_m, y, n) <==> system_holds(old_m, y, n),
        forall|y: Seq<real>| kernel_holds(new_m, y, n) ==> kernel_holds(old_m, y, n),
{
    assert forall|y: Seq<real>| system_holds(new_m, y, n) <==> system_holds(old_m, y, n) by {
        if system_holds(new_m, y, n) {
            assert forall|r: int| 0 <= r < n implies #[trigger] row_holds(old_m[r], y, n) by {
                if r == i {
                    assert(row_holds(new_m[j], y, n));
                } else if r == j {
                    assert(row_holds(new_m[i], y, n));
                } else {
                    assert(row_holds(new_m[r], y, n));
                }
            }
        }
        if system_holds(old_m, y, n) {
            assert forall|r: int| 0 <= r < n implies #[trigger] row_holds(new_m[r], y, n) by {
                if r == i {
                    assert(row_holds(old_m[j], y, n));
                } else if r == j {
                    assert(row_holds(old_m[i], y, n));
                } else {
                    assert(row_holds(old_m[r], y, n));
                }
            }
        }
    }
    assert forall|y: Seq<real>| kernel_holds(new_m, y, n) implies kernel_holds(old_m, y, n) by {
        assert forall|r: int| 0 <= r < n implies #[trigger] dot(old_m[r], y, n) == 0real by {
            if r == i {
                assert(dot(new_m[j], y, n) == 0real);
            } else if r == j {
                assert(dot(new_m[i], y, n) == 0real);
            } else {
                assert(dot(new_m[r], y, n) == 0real);
            }
        }
    }
}

/// Scaling a row by a non-zero factor keeps the solutions of a system, and
/// those of its homogeneous part: here row `col` of `new_m` times `p` is row
/// `col` of `old_m`.
pub proof fn lemma_scale_keeps_solutions(old_m: Seq<Seq<real>>, new_m: Seq<Seq<real>>, col: int, p: real, n: int)
    requires
        0 <= col < n,
        p != 0real,
        old_m.len() == n,
        new_m.len() == n,
        forall|r: int| 0 <= r < n && r != col ==> #[trigger] new_m[r] == old_m[r],
        forall|c: int| 0 <= c <= n ==> #[trigger] new_m[col][c] * p == old_m[col][c],
    ensures
        forall|y: Seq<real>| system_holds(new_m, y, n) <==> system_holds(old_m, y, n),
        forall|y: Seq<real>| kernel_holds(new_m, y, n) ==> kernel_holds(old_m, y, n),
{
    assert forall|y: Seq<real>| system_holds(new_m, y, n) <==> system_holds(old_m, y, n) by {
        lemma_dot_scale(old_m[col], new_m[col], y, p, n);
        assert(new_m[col][n] * p == old_m[col][n]);
        if system_holds(new_m, y, n) {
            assert forall|r: int| 0 <= r < n implies #[trigger] row_holds(old_m[r], y, n) by {
                assert(row_holds(new_m[r], y, n));
            }
        }
        if system_holds(old_m, y, n) {
            assert forall|r: int| 0 <= r < n implies #[trigger] row_holds(new_m[r], y, n) by {
                assert(row_holds(old_m[r], y, n));
                if r == col {
                    lemma_cancel_factor(dot(new_m[col], y, n), new_m[col][n], p);
                }
            }
        }
    }
    assert forall|y: Seq<real>| kernel_holds(new_m, y, n) implies kernel_holds(old_m, y, n) by {
        lemma_dot_scale(old_m[col], new_m[col], y, p, n);
        assert forall|r: int| 0 <= r < n implies #[trigger] dot(old_m[r], y, n) == 0real by {
            assert(dot(new_m[r], y, n) == 0real);
            if r == col {
                lemma_mul_unit(p);
            }
        }
    }
}

/// `a * p == b * p` with `p != 0` gives `a == b`.
pub proof fn lemma_cancel_factor(a: real, b: real, p: real)
    requires
        p != 0real,
        a * p == b * p,
    ensures
        a == b,
{
    assert(a == b) by (nonlinear_arith)
        requires
            p != 0real,
            a * p == b * p,
    ;
}

/// Subtracting `f` times row `col` from another row keeps the solutions of a
/// system, and those of its homogeneous part.
pub proof fn lemma_elim_keeps_solutions(old_m: Seq<Seq<real>>, new_m: Seq<Seq<real>>, row: int, col: int, f: real, n: int)
    requires
        0 <= col < n,
        0 <= row < n,
        row != col,
        old_m.len() == n,
        new_m.len() == n,
        forall|r: int| 0 <= r < n && r != row ==> #[trigger] new_m[r] == old_m[r],
        forall|c: int| 0 <= c <= n ==> #[trigger] new_m[row][c] == old_m[row][c] - f * old_m[col][c],
    ensures
        forall|y: Seq<real>| system_holds(new_m, y, n) <==> system_holds(old_m, y, n),
        forall|y: Seq<real>| kernel_holds(new_m, y, n) ==> kernel_holds(old_m, y, n),
{
    assert forall|y: Seq<real>| system_holds(new_m, y, n) <==> system_holds(old_m, y, n) by {
        lemma_dot_elim(old_m[row], old_m[col], new_m[row], y, f, n);
        assert(new_m[row][n] == old_m[row][n] - f * old_m[col][n]);
        if system_holds(new_m, y, n) {
            assert(row_holds(new_m[col], y, n));
            assert forall|r: int| 0 <= r < n implies #[trigger] row_holds(old_m[r], y, n) by {
                assert(row_holds(new_m[r], y, n));
            }
        }
        if system_holds(old_m, y, n) {
            assert(row_holds(old_m[col], y, n));
            assert forall|r: int| 0 <= r < n implies #[trigger] row_holds(new_m[r], y, n) by {
                assert(row_holds(old_m[r], y, n));
            }
        }
    }
    assert forall|y: Seq<real>| kernel_holds(new_m, y, n) implies kernel_holds(old_m, y, n) by {
        lemma_dot_elim(old_m[row], old_m[col], new_m[row], y, f, n);
        assert(dot(new_m[col], y, n) == 0real);
        assert forall|r: int| 0 <= r < n implies #[trigger] dot(old_m[r], y, n) == 0real by {
            assert(dot(new_m[r], y, n) == 0real);
            lemma_mul_unit(f);
        }
    }
}

/// Adding vectors entry by entry adds their dot products.
pub proof fn lemma_dot_add_right(u: Seq<real>, v: Seq<real>, w: Seq<real>, z: Seq<real>, k: int)
    requires
        forall|c: int| 0 <= c < k ==> #[trigger] z[c] == v[c] + w[c],
    ensures
        dot(u, z, k) == dot(u, v, k) + dot(u, w, k),
    decreases k,
{
    if k > 0 {
        lemma_dot_add_right(u, v, w, z, k - 1);
        let (a, x, y) = (u[k - 1], v[k - 1], w[k - 1]);
        assert(a * (x + y) == a * x + a * y) by (nonlinear_arith);
    }
}

/// Scaling a vector by `m` scales its dot products by `m`.
pub proof fn lemma_dot_scale_right(u: Seq<real>, v: Seq<real>, w: Seq<real>, m: real, k: int)
    requires
        forall|c: int| 0 <= c < k ==> #[trigger] w[c] * m == v[c],
    ensures
        dot(u, w, k) * m == dot(u, v, k),
    decreases k,
{
    if k > 0 {
        lemma_dot_scale_right(u, v, w, m, k - 1);
        let (d, a, x) = (dot(u, w, k - 1), u[k - 1], w[k - 1]);
        assert((d + a * x) * m == d * m + a * (x * m)) by (nonlinear_arith);
    }
}

/// A dot product with ones is a sum.
pub proof fn lemma_dot_ones(u: Seq<real>, y: Seq<real>, k: int)
    requires
        forall|c: int| 0 <= c < k ==> #[trigger] u[c] == 1real,
    ensures
        dot(u, y, k) == sum(y, k),
    decreases k,
{
    if k > 0 {
        lemma_dot_ones(u, y, k - 1);
        lemma_mul_unit(y[k - 1]);
    }
}

/// Entries beyond `n` add only the single term at `t`, if any:
/// `dot(u, y, m) == dot(u, y, n) + (t < m ? u[t] * y[t] : 0)` when `u`
/// vanishes on `n..m` except at `t`.
pub proof fn lemma_dot_tail(u: Seq<real>, y: Seq<real>, n: int, t: int, m: int)
    requires
        0 <= n <= m,
        forall|c: int| n <= c < m && c != t ==> #[trigger] u[c] == 0real,
    ensures
        dot(u, y, m) == dot(u, y, n) + (if n <= t < m { u[t] * y[t] } else { 0real }),
    decreases m - n,
{
    if m > n {
        lemma_dot_tail(u, y, n, t, m - 1);
        if m - 1 != t {
            lemma_mul_unit(y[m - 1]);
        }
    }
}

/// Sums are monotone in each entry's sign: the dot product of two
/// non-negative vectors is non-negative.
pub proof fn lemma_dot_nonneg(u: Seq<real>, y: Seq<real>, k: int)
    requires
        forall|c: int| 0 <= c < k ==> #[trigger] u[c] >= 0real && y[c] >= 0real,
    ensures
        dot(u, y, k) >= 0real,
    decreases k,
{
    if k > 0 {
        lemma_dot_nonneg(u, y, k - 1);
        let (a, x) = (u[k - 1], y[k - 1]);
        assert(a * x >= 0real) by (nonlinear_arith)
            requires
                a >= 0real,
                x >= 0real,
        ;
    }
}

/// The vector over `0..len` that carries `x[k]` at position `basis[k]` and
/// zero elsewhere.
pub open spec fn spread(x: Seq<real>, basis: Seq<usize>, len: int) -> Seq<real> {
    Seq::new(
        len as nat,
        |c: int|
            if basis.contains(c as usize) {
                x[basis.index_of(c as usize)]
            } else {
                0real
            },
    )
}

/// `s` is strictly increasing.
pub open spec fn strictly_increasing(s: Seq<usize>) -> bool {
    forall|a: int, b: int| 0 <= a < b < s.len() ==> s[a] < s[b]
}

/// In a strictly increasing `basis`, `spread` puts `x[k]` at `basis[k]`.
pub proof fn lemma_spread_at(x: Seq<real>, basis: Seq<usize>, len: int, k: int)
    requires
        strictly_increasing(basis),
        0 <= k < basis.len(),
        basis[k] < len,
    ensures
        spread(x, basis, len)[basis[k] as int] == x[k],
{
    assert(basis.contains(basis[k]));
    let w = basis.index_of(basis[k]);
    if w < k {
        assert(basis[w] < basis[k]);
    } else if w > k {
        assert(basis[k] < basis[w]);
    }
}

/// Reading a row at the basis columns: the dot product of `u` with the spread
/// of `x` equals the dot product of `w` with `x`, where `w[k] == u[basis[k]]`.
pub proof fn lemma_dot_spread(u: Seq<real>, w: Seq<real>, x: Seq<real>, basis: Seq<usize>, len: int, m: int, k: int)
    requires
        strictly_increasing(basis),
        len <= usize::MAX,
        forall|q: int| 0 <= q < basis.len() ==> #[trigger] basis[q] < len,
        forall|q: int| 0 <= q < basis.len() ==> #[trigger] w[q] == u[basis[q] as int],
        0 <= m <= len,
        0 <= k <= basis.len(),
        forall|q: int| 0 <= q < k ==> #[trigger] basis[q] < m,
        k < basis.len() ==> basis[k] >= m,
    ensures
        dot(u, spread(x, basis, len), m) == dot(w, x, k),
    decreases m,
{
    let y = spread(x, basis, len);
    if m > 0 {
        if k > 0 && basis[k - 1] == m - 1 {
            assert forall|q: int| 0 <= q < k - 1 implies #[trigger] basis[q] < m - 1 by {
                assert(basis[q] < basis[k - 1]);
            }
            lemma_dot_spread(u, w, x, basis, len, m - 1, k - 1);
            lemma_spread_at(x, basis, len, k - 1);
        } else {
            assert forall|q: int| 0 <= q < k implies #[trigger] basis[q] < m - 1 by {
                if q < k - 1 {
                    assert(basis[q] < basis[k - 1]);
                }
            }
            lemma_dot_spread(u, w, x, basis, len, m - 1, k);
            let c: usize = (m - 1) as usize;
            assert(!basis.contains(c)) by {
                if basis.contains(c) {
                    let q = choose|q: int| 0 <= q < basis.len() && basis[q] == c;
                    if q < k {
                        assert(basis[q] < m - 1);
                    } else if q > k {
                        assert(basis[k] < basis[q]);
                    }
                }
            }
            assert(y[m - 1] == 0real);
            lemma_mul_unit(u[m - 1]);
        }
    } else {
        if k > 0 {
            assert(basis[0] < m);
        }
    }
}


/// Sums only read the first `k` entries.
pub proof fn lemma_sum_ext(y: Seq<real>, z: Seq<real>, k: int)
    requires
        forall|c: int| 0 <= c < k ==> #[trigger] y[c] == z[c],
    ensures
        sum(y, k) == sum(z, k),
    decreases k,
{
    if k > 0 {
        lemma_sum_ext(y, z, k - 1);
    }
}

/// Adding vectors entry by entry adds their sums.
pub proof fn lemma_sum_add(v: Seq<real>, w: Seq<real>, z: Seq<real>, k: int)
    requires
        forall|c: int| 0 <= c < k ==> #[trigger] z[c] == v[c] + w[c],
    ensures
        sum(z, k) == sum(v, k) + sum(w, k),
    decreases k,
{
    if k > 0 {
        lemma_sum_add(v, w, z, k - 1);
    }
}

/// Scaling a vector by `m` scales its sum by `m`.
pub proof fn lemma_sum_scale(v: Seq<real>, w: Seq<real>, m: real, k: int)
    requires
        forall|c: int| 0 <= c < k ==> #[trigger] w[c] * m == v[c],
    ensures
        sum(w, k) * m == sum(v, k),
    decreases k,
{
    if k > 0 {
        lemma_sum_scale(v, w, m, k - 1);
        let (d, x) = (sum(w, k - 1), w[k - 1]);
        assert((d + x) * m == d * m + x * m) by (nonlinear_arith);
    }
}

/// The sum of the `w`-th unit vector over `0..k` is one when `w < k`.
pub proof fn lemma_sum_unit(y: Seq<real>, w: int, k: int)
    requires
        0 <= w,
        forall|c: int| 0 <= c < k ==> #[trigger] y[c] == (if c == w { 1real } else { 0real }),
    ensures
        sum(y, k) == (if w < k { 1real } else { 0real }),
    decreases k,
{
    if k > 0 {
        lemma_sum_unit(y, w, k - 1);
    }
}

/// The dot product with the `w`-th unit vector on the right picks `u[w]`.
pub proof fn lemma_dot_unit_right(u: Seq<real>, y: Seq<real>, w: int, k: int)
    requires
        0 <= w,
        forall|c: int| 0 <= c < k ==> #[trigger] y[c] == (if c == w { 1real } else { 0real }),
    ensures
        dot(u, y, k) == (if w < k { u[w] } else { 0real }),
    decreases k,
{
    if k > 0 {
        lemma_dot_unit_right(u, y, w, k - 1);
        lemma_mul_unit(u[k - 1]);
    }
}

/// A quotient of a non-negative value by a positive one is non-negative,
/// and a value whose product with a positive one is non-negative is
/// non-negative.
pub proof fn lemma_positive_factor(a: real, k: real)
    requires
        k > 0real,
    ensures
        a >= 0real ==> a / k >= 0real,
        a * k >= 0real ==> a >= 0real,
        a * k == k ==> a == 1real,
{
    assert(a >= 0real ==> a / k >= 0real) by (nonlinear_arith)
        requires
            k > 0real,
    ;
    assert(a * k >= 0real ==> a >= 0real) by (nonlinear_arith)
        requires
            k > 0real,
    ;
    assert(a * k == k ==> a == 1real) by (nonlinear_arith)
        requires
            k > 0real,
    ;
}

/// A spread of non-negative values is non-negative.
pub proof fn lemma_spread_nonneg(x: Seq<real>, basis: Seq<usize>, len: int, c: int)
    requires
        basis.len() == x.len(),
        forall|k: int| 0 <= k < x.len() ==> #[trigger] x[k] >= 0real,
        0 <= c < len,
    ensures
        spread(x, basis, len)[c] >= 0real,
{
    if basis.contains(c as usize) {
        let k = basis.index_of(c as usize);
        assert(0 <= k < x.len());
    }
}

/// Between two consecutive basis columns a spread is zero.
pub proof fn lemma_spread_between(x: Seq<real>, basis: Seq<usize>, len: int, k: int, c: int)
    requires
        strictly_increasing(basis),
        len <= usize::MAX,
        0 <= c < len,
        0 <= k <= basis.len(),
        k > 0 ==> basis[k - 1] < c,
        k < basis.len() ==> c < basis[k],
    ensures
        spread(x, basis, len)[c] == 0real,
{
    let v: usize = c as usize;
    assert(!basis.contains(v)) by {
        if basis.contains(v) {
            let q = choose|q: int| 0 <= q < basis.len() && basis[q] == v;
            if q < k - 1 {
                assert(basis[q] < basis[k - 1]);
            } else if q > k {
                assert(basis[k] < basis[q]);
            }
        }
    }
}

} // verus!
