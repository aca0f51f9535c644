//! Exact Gauss–Jordan elimination on square rational systems.
use vstd::prelude::*;

use crate::linear::{
    dot, kernel_holds, lemma_div_cancel, lemma_dot_ext, lemma_dot_unit, lemma_elim_keeps_solutions,
    lemma_mul_unit, lemma_scale_keeps_solutions, lemma_swap_keeps_solutions, mvals, row_holds, system_holds,
    vals,
};
use crate::rational::Rational;

verus! {

/// The rows of a rational matrix have `cols` entries, all well formed.
pub open spec fn is_matrix(a: Seq<Vec<Rational>>, rows: int, cols: int) -> bool {
    &&& a.len() == rows
    &&& forall|r: int| 0 <= r < rows ==> #[trigger] a[r]@.len() == cols
    &&& forall|r: int, c: int| 0 <= r < rows && 0 <= c < cols ==> #[trigger] a[r]@[c].wf()
}

/// Every entry of the vector is well formed.
pub open spec fn all_wf(v: Seq<Rational>) -> bool {
    forall|k: int| 0 <= k < v.len() ==> #[trigger] v[k].wf()
}

/// Divides row `col` by its pivot `aug[col][col]`, over the columns from
/// `col` on.
fn scale_row(aug: &mut Vec<Vec<Rational>>, col: usize, n: usize)
    requires
        n < usize::MAX,
        col < n,
        is_matrix(old(aug)@, n as int, n as int + 1),
        old(aug)@[col as int]@[col as int].val() != 0real,
    ensures
        is_matrix(final(aug)@, n as int, n as int + 1),
        forall|r: int| 0 <= r < n && r != col ==> #[trigger] final(aug)@[r] == old(aug)@[r],
        forall|c: int|
            col <= c <= n ==> #[trigger] final(aug)@[col as int]@[c].val() * old(aug)@[col as int]@[col as int].val()
                == old(aug)@[col as int]@[c].val(),
        forall|c: int| 0 <= c < col ==> #[trigger] final(aug)@[col as int]@[c] == old(aug)@[col as int]@[c],
        final(aug)@[col as int]@[col as int].val() == 1real,
{
    let ghost before = aug@;
    let ghost pv = before[col as int]@[col as int].val();
    assert(aug@[col as int]@[col as int].wf());
    let pivot_val = aug[col][col].clone();
    let mut j = col;
    while j <= n
        invariant
            col <= j <= n + 1,
            col < n,
            n < usize::MAX,
            is_matrix(aug@, n as int, n as int + 1),
            pivot_val.wf(),
            pivot_val.val() == pv,
            pv != 0real,
            pv == before[col as int]@[col as int].val(),
            forall|r: int| 0 <= r < n && r != col ==> #[trigger] aug@[r] == before[r],
            forall|c: int| col <= c < j ==> #[trigger] aug@[col as int]@[c].val() * pv == before[col as int]@[c].val(),
            forall|c: int| 0 <= c <= n && !(col <= c < j) ==> #[trigger] aug@[col as int]@[c] == before[col as int]@[c],
            j > col ==> aug@[col as int]@[col as int].val() == 1real,
        decreases n + 1 - j,
    {
        assert(aug@[col as int]@[j as int].wf());
        let q = aug[col][j].div(&pivot_val);
        proof {
            lemma_div_cancel(before[col as int]@[j as int].val(), pv);
        }
        aug[col][j] = q;
        j += 1;
    }
}

/// Subtracts `aug[row][col]` times row `col` from row `row`, over the columns
/// from `col` on.
fn eliminate_row(aug: &mut Vec<Vec<Rational>>, row: usize, col: usize, n: usize)
    requires
        n < usize::MAX,
        col < n,
        row < n,
        row != col,
        is_matrix(old(aug)@, n as int, n as int + 1),
    ensures
        is_matrix(final(aug)@, n as int, n as int + 1),
        forall|r: int| 0 <= r < n && r != row ==> #[trigger] final(aug)@[r] == old(aug)@[r],
        forall|c: int|
            col <= c <= n ==> #[trigger] final(aug)@[row as int]@[c].val() == old(aug)@[row as int]@[c].val()
                - old(aug)@[row as int]@[col as int].val() * old(aug)@[col as int]@[c].val(),
        forall|c: int| 0 <= c < col ==> #[trigger] final(aug)@[row as int]@[c] == old(aug)@[row as int]@[c],
{
    let ghost before = aug@;
    let ghost f = before[row as int]@[col as int].val();
    assert(aug@[row as int]@[col as int].wf());
    let factor = aug[row][col].clone();
    if factor.is_zero() {
        proof {
            assert forall|c: int| col <= c <= n implies #[trigger] aug@[row as int]@[c].val() == before[row as int]@[c].val()
                - f * before[col as int]@[c].val() by {
                lemma_mul_unit(before[col as int]@[c].val());
            }
        }
        return;
    }
    let mut j = col;
    while j <= n
        invariant
            col <= j <= n + 1,
            col < n,
            row < n,
            row != col,
            n < usize::MAX,
            is_matrix(aug@, n as int, n as int + 1),
            factor.wf(),
            factor.val() == f,
            forall|r: int| 0 <= r < n && r != row ==> #[trigger] aug@[r] == before[r],
            forall|c: int|
                col <= c < j ==> #[trigger] aug@[row as int]@[c].val() == before[row as int]@[c].val() - f
                    * before[col as int]@[c].val(),
            forall|c: int| 0 <= c <= n && !(col <= c < j) ==> #[trigger] aug@[row as int]@[c] == before[row as int]@[c],
        decreases n + 1 - j,
    {
        assert(aug@[col as int]@[j as int].wf());
        assert(aug@[row as int]@[j as int].wf());
        let term = factor.mul(&aug[col][j]);
        let d = aug[row][j].sub(&term);
        aug[row][j] = d;
        j += 1;
    }
}

/// The values of a matrix after replacing one row.
proof fn lemma_mvals_update(m: Seq<Vec<Rational>>, i: int, v: Vec<Rational>)
    requires
        0 <= i < m.len(),
    ensures
        mvals(m.update(i, v)) == mvals(m).update(i, vals(v@)),
{
    assert(mvals(m.update(i, v)) =~= mvals(m).update(i, vals(v@)));
}

/// `y` solves the square system `a · y = b`.
pub open spec fn solves_square(a: Seq<Vec<Rational>>, b: Seq<Rational>, y: Seq<real>) -> bool {
    forall|i: int| 0 <= i < a.len() ==> #[trigger] dot(vals(a[i]@), y, a.len() as int) == b[i].val()
}

/// `y` is non-zero and `a · y = 0`.
pub open spec fn kernel_witness(a: Seq<Vec<Rational>>, y: Seq<real>) -> bool {
    &&& y.len() == a.len()
    &&& exists|k: int| 0 <= k < a.len() && #[trigger] y[k] != 0real
    &&& forall|i: int| 0 <= i < a.len() ==> #[trigger] dot(vals(a[i]@), y, a.len() as int) == 0real
}

/// The square matrix `a` is singular: some non-zero `y` has `a · y = 0`.
pub open spec fn is_singular(a: Seq<Vec<Rational>>) -> bool {
    exists|y: Seq<real>| #[trigger] kernel_witness(a, y)
}

/// Solves the square system `a · x = b` by Gauss–Jordan elimination with
/// exact arithmetic. Returns the unique solution, or `None` when some
/// column has no pivot, which happens exactly when `a` is singular.
pub(crate) fn solve_linear(a: &Vec<Vec<Rational>>, b: &Vec<Rational>) -> (r: Option<Vec<Rational>>)
    requires
        a@.len() < usize::MAX,
        is_matrix(a@, a@.len() as int, a@.len() as int),
        b@.len() == a@.len(),
        all_wf(b@),
    ensures
        r matches Some(x) ==> x@.len() == a@.len() && all_wf(x@) && forall|i: int|
            0 <= i < a@.len() ==> #[trigger] dot(vals(a@[i]@), vals(x@), a@.len() as int) == b@[i].val(),
        r matches Some(x) ==> forall|y: Seq<real>|
            #[trigger] solves_square(a@, b@, y) <==> forall|k: int| 0 <= k < a@.len() ==> y[k] == x@[k].val(),
        r is None ==> is_singular(a@),
{
    let n = a.len();
    let mut aug: Vec<Vec<Rational>> = Vec::new();
    let mut i: usize = 0;
    while i < n
        invariant
            n == a@.len(),
            is_matrix(a@, n as int, n as int),
            b@.len() == n,
            all_wf(b@),
            n < usize::MAX,
            i <= n,
            is_matrix(aug@, i as int, n as int + 1),
            forall|r: int, c: int| 0 <= r < i && 0 <= c < n ==> #[trigger] aug@[r]@[c].val() == a@[r]@[c].val(),
            forall|r: int| 0 <= r < i ==> #[trigger] aug@[r]@[n as int].val() == b@[r].val(),
        decreases n - i,
    {
        let mut extended: Vec<Rational> = Vec::new();
        let mut j: usize = 0;
        while j < n
            invariant
                n == a@.len(),
                is_matrix(a@, n as int, n as int),
                i < n,
                j <= n,
                extended@.len() == j,
                all_wf(extended@),
                forall|c: int| 0 <= c < j ==> #[trigger] extended@[c].val() == a@[i as int]@[c].val(),
            decreases n - j,
        {
            let e = a[i][j].clone();
            assert(a@[i as int]@[j as int].wf());
            extended.push(e);
            j += 1;
        }
        let e = b[i].clone();
        assert(b@[i as int].wf());
        extended.push(e);
        aug.push(extended);
        i += 1;
    }
    let ghost orig = mvals(aug@);
    proof {
        assert forall|r: int, c: int| 0 <= r < n && 0 <= c < n implies #[trigger] orig[r][c] == vals(a@[r]@)[c] by {
            assert(aug@[r]@[c].val() == a@[r]@[c].val());
        }
    }
    let mut col: usize = 0;
    while col < n
        invariant
            col <= n,
            n == a@.len(),
            n < usize::MAX,
            is_matrix(aug@, n as int, n as int + 1),
            orig.len() == n,
            forall|r: int, c: int| 0 <= r < n && 0 <= c < n ==> #[trigger] orig[r][c] == vals(a@[r]@)[c],
            forall|r: int, c: int|
                0 <= r < n && 0 <= c < col ==> #[trigger] aug@[r]@[c].val() == (if r == c {
                    1real
                } else {
                    0real
                }),
            forall|y: Seq<real>| #[trigger] system_holds(mvals(aug@), y, n as int) <==> system_holds(orig, y, n as int),
            forall|y: Seq<real>| #[trigger] kernel_holds(mvals(aug@), y, n as int) ==> kernel_holds(orig, y, n as int),
        decreases n - col,
    {
        let mut pivot_row = col;
        while pivot_row < n && aug[pivot_row][col].is_zero()
            invariant
                col <= pivot_row <= n,
                col < n,
                is_matrix(aug@, n as int, n as int + 1),
                forall|r: int| col <= r < pivot_row ==> #[trigger] aug@[r]@[col as int].val() == 0real,
            decreases n - pivot_row,
        {
            pivot_row += 1;
        }
        if pivot_row == n {
            proof {
                lemma_no_pivot_singular(a@, orig, mvals(aug@), col as int, n as int);
            }
            return None;
        }
        if pivot_row != col {
            let ghost before = aug@;
            let mut tmp: Vec<Rational> = Vec::new();
            std::mem::swap(&mut tmp, &mut aug[col]);
            std::mem::swap(&mut tmp, &mut aug[pivot_row]);
            std::mem::swap(&mut tmp, &mut aug[col]);
            proof {
                assert(aug@ =~= before.update(col as int, before[pivot_row as int]).update(
                    pivot_row as int,
                    before[col as int],
                ));
                lemma_mvals_update(before, col as int, before[pivot_row as int]);
                lemma_mvals_update(before.update(col as int, before[pivot_row as int]), pivot_row as int, before[col as int]);
                assert(mvals(before)[pivot_row as int] == vals(before[pivot_row as int]@));
                assert(mvals(before)[col as int] == vals(before[col as int]@));
                lemma_swap_keeps_solutions(mvals(before), mvals(aug@), col as int, pivot_row as int, n as int);
            }
        }
        let ghost before_scale = aug@;
        scale_row(&mut aug, col, n);
        proof {
            let pv = before_scale[col as int]@[col as int].val();
            assert forall|r: int| 0 <= r < n && r != col implies #[trigger] mvals(aug@)[r] == mvals(before_scale)[r] by {}
            assert forall|c: int| 0 <= c <= n implies #[trigger] mvals(aug@)[col as int][c] * pv == mvals(before_scale)[col as int][c] by {
                if c < col {
                    lemma_mul_unit(pv);
                }
            }
            lemma_scale_keeps_solutions(mvals(before_scale), mvals(aug@), col as int, pv, n as int);
        }
        let ghost scaled = aug@;
        let mut row: usize = 0;
        while row < n
            invariant
                col < n,
                row <= n,
                n == a@.len(),
                n < usize::MAX,
                is_matrix(aug@, n as int, n as int + 1),
                orig.len() == n,
                aug@[col as int] == scaled[col as int],
                scaled[col as int]@[col as int].val() == 1real,
                forall|r: int, c: int|
                    0 <= r < n && 0 <= c < col ==> #[trigger] aug@[r]@[c].val() == (if r == c {
                        1real
                    } else {
                        0real
                    }),
                forall|r: int| 0 <= r < row && r != col ==> #[trigger] aug@[r]@[col as int].val() == 0real,
                forall|y: Seq<real>| #[trigger] system_holds(mvals(aug@), y, n as int) <==> system_holds(orig, y, n as int),
                forall|y: Seq<real>| #[trigger] kernel_holds(mvals(aug@), y, n as int) ==> kernel_holds(orig, y, n as int),
            decreases n - row,
        {
            if row != col {
                let ghost before_elim = aug@;
                eliminate_row(&mut aug, row, col, n);
                proof {
                    let f = before_elim[row as int]@[col as int].val();
                    assert forall|r: int| 0 <= r < n && r != row implies #[trigger] mvals(aug@)[r] == mvals(before_elim)[r] by {}
                    assert forall|c: int| 0 <= c <= n implies #[trigger] mvals(aug@)[row as int][c] == mvals(before_elim)[row as int][c]
                        - f * mvals(before_elim)[col as int][c] by {
                        if c < col {
                            lemma_mul_unit(f);
                            assert(before_elim[col as int]@[c].val() == 0real);
                        }
                    }
                    lemma_elim_keeps_solutions(mvals(before_elim), mvals(aug@), row as int, col as int, f, n as int);
                    lemma_mul_unit(f);
                }
            }
            row += 1;
        }
        col += 1;
    }
    let mut x: Vec<Rational> = Vec::new();
    let mut i: usize = 0;
    while i < n
        invariant
            i <= n,
            is_matrix(aug@, n as int, n as int + 1),
            x@.len() == i,
            all_wf(x@),
            forall|k: int| 0 <= k < i ==> #[trigger] x@[k].val() == aug@[k]@[n as int].val(),
        decreases n - i,
    {
        assert(aug@[i as int]@[n as int].wf());
        x.push(aug[i][n].clone());
        i += 1;
    }
    proof {
        let y = vals(x@);
        assert forall|r: int| 0 <= r < n implies #[trigger] row_holds(mvals(aug@)[r], y, n as int) by {
            let row = mvals(aug@)[r];
            assert forall|c: int| 0 <= c < n implies #[trigger] row[c] == (if c == r { 1real } else { 0real }) by {}
            lemma_dot_unit(row, y, r, n as int);
        }
        assert(system_holds(mvals(aug@), y, n as int));
        assert(system_holds(orig, y, n as int));
        assert forall|r: int| 0 <= r < n implies #[trigger] dot(vals(a@[r]@), vals(x@), n as int) == b@[r].val() by {
            assert(row_holds(orig[r], y, n as int));
            lemma_dot_ext(orig[r], vals(a@[r]@), y, y, n as int);
        }
        assert forall|w: Seq<real>| #[trigger] solves_square(a@, b@, w) <==> forall|k: int|
            0 <= k < a@.len() ==> w[k] == x@[k].val() by {
            assert forall|r: int| 0 <= r < n implies #[trigger] row_holds(orig[r], w, n as int) == (dot(
                vals(a@[r]@),
                w,
                n as int,
            ) == b@[r].val()) by {
                lemma_dot_ext(orig[r], vals(a@[r]@), w, w, n as int);
            }
            assert forall|r: int| 0 <= r < n implies #[trigger] row_holds(mvals(aug@)[r], w, n as int) == (w[r]
                == x@[r].val()) by {
                let row = mvals(aug@)[r];
                assert forall|c: int| 0 <= c < n implies #[trigger] row[c] == (if c == r { 1real } else { 0real }) by {}
                lemma_dot_unit(row, w, r, n as int);
            }
            if solves_square(a@, b@, w) {
                assert(system_holds(orig, w, n as int));
                assert(system_holds(mvals(aug@), w, n as int));
                assert forall|k: int| 0 <= k < a@.len() implies w[k] == x@[k].val() by {
                    assert(row_holds(mvals(aug@)[k], w, n as int));
                }
            }
            if forall|k: int| 0 <= k < a@.len() ==> w[k] == x@[k].val() {
                assert forall|r: int| 0 <= r < n implies #[trigger] row_holds(mvals(aug@)[r], w, n as int) by {}
                assert(system_holds(mvals(aug@), w, n as int));
                assert(system_holds(orig, w, n as int));
                assert forall|r: int| 0 <= r < a@.len() implies #[trigger] dot(vals(a@[r]@), w, a@.len() as int)
                    == b@[r].val() by {
                    assert(row_holds(orig[r], w, n as int));
                }
            }
        }
    }
    Some(x)
}

/// Entries beyond `k` of `y` that vanish add nothing to a dot product.
proof fn lemma_dot_tail_right(u: Seq<real>, y: Seq<real>, k: int, m: int)
    requires
        0 <= k <= m,
        forall|c: int| k <= c < m ==> #[trigger] y[c] == 0real,
    ensures
        dot(u, y, m) == dot(u, y, k),
    decreases m - k,
{
    if m > k {
        lemma_dot_tail_right(u, y, k, m - 1);
        lemma_mul_unit(u[m - 1]);
    }
}

/// Gauss–Jordan elimination that finds no pivot in column `col` (the first
/// `col` columns reduced to unit vectors, zeros from row `col` down in
/// column `col`) proves the input matrix singular.
proof fn lemma_no_pivot_singular(a: Seq<Vec<Rational>>, orig: Seq<Seq<real>>, cur: Seq<Seq<real>>, col: int, n: int)
    requires
        0 <= col < n,
        a.len() == n,
        orig.len() == n,
        cur.len() == n,
        forall|r: int| 0 <= r < n ==> #[trigger] cur[r].len() == n + 1,
        forall|r: int, c: int| 0 <= r < n && 0 <= c < n ==> #[trigger] orig[r][c] == vals(a[r]@)[c],
        forall|r: int, c: int| 0 <= r < n && 0 <= c < col ==> #[trigger] cur[r][c] == (if r == c {
            1real
        } else {
            0real
        }),
        forall|r: int| col <= r < n ==> #[trigger] cur[r][col] == 0real,
        forall|y: Seq<real>| #[trigger] kernel_holds(cur, y, n) ==> kernel_holds(orig, y, n),
    ensures
        is_singular(a),
{
    let y = Seq::new(n as nat, |c: int| if c < col { -cur[c][col] } else if c == col { 1real } else { 0real });
    assert forall|r: int| 0 <= r < n implies #[trigger] dot(cur[r], y, n) == 0real by {
        let u = cur[r];
        lemma_dot_tail_right(u, y, col + 1, n);
        assert forall|c: int| 0 <= c < col implies #[trigger] u[c] == (if c == r { 1real } else { 0real }) by {}
        lemma_dot_unit(u, y, r, col);
        lemma_mul_unit(u[col]);
    }
    assert(kernel_holds(cur, y, n));
    assert(kernel_holds(orig, y, n));
    assert(y[col] != 0real);
    assert forall|i: int| 0 <= i < n implies #[trigger] dot(vals(a[i]@), y, n) == 0real by {
        assert(dot(orig[i], y, n) == 0real);
        lemma_dot_ext(orig[i], vals(a[i]@), y, y, n);
    }
    assert(kernel_witness(a, y));
}

} // verus!
