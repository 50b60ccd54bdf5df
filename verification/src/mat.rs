//! Dense matrices and vectors of fixed-point scalars, with the
//! factorization and solves the engine rests on.
//!
//! A [`Mat`] is stored row-major.  The Cholesky factorization returns a lower
//! triangular factor with a strictly positive diagonal or reports that the
//! input was not positive definite; the triangular solves and dot products
//! thread every arithmetic step through the guarded fixed-point operations, so
//! an overflow surfaces as a `NumericalInstability` failure instead of
//! wrapping.

use vstd::prelude::*;
use vstd::pervasive::VecAdditionalExecFns;
use crate::fx::{
    fx_add, fx_add_ok, fx_div, fx_div_o, fx_fits, fx_mul, fx_mul_o, fx_mul_ok, fx_mul_v, fx_sub,
    fx_sub_o, FX_MAX, FX_ONE,
};
use crate::trans::fx_sqrt;
use crate::GpError;

verus! {

/// Largest accepted extent of a matrix dimension; keeps every index
/// computation within machine range.
pub const MAX_DIM: usize = 16384;

/// Every element of the sequence is a well-formed fixed-point value.
pub open spec fn all_fits(s: Seq<i128>) -> bool {
    forall|i: int| 0 <= i < s.len() ==> fx_fits(#[trigger] s[i] as int)
}

/// A dense row-major matrix of fixed-point scalars.
pub struct Mat {
    rows: usize,
    cols: usize,
    data: Vec<i128>,
}

impl Mat {
    /// Number of rows.
    pub closed spec fn nrows(self) -> int {
        self.rows as int
    }

    /// Number of columns.
    pub closed spec fn ncols(self) -> int {
        self.cols as int
    }

    /// The entry in row `i`, column `j`.
    pub closed spec fn at(self, i: int, j: int) -> int {
        self.data@[i * (self.cols as int) + j] as int
    }

    /// Well-formed: the backing store matches the dimensions, the dimensions
    /// are within range, and every entry is a well-formed scalar.
    pub closed spec fn wf(self) -> bool {
        &&& self.data@.len() == self.rows * self.cols
        &&& self.rows <= MAX_DIM
        &&& self.cols <= MAX_DIM
        &&& all_fits(self.data@)
    }

    /// The number of rows, as a machine integer.
    pub fn rows(&self) -> (r: usize)
        ensures
            r as int == self.nrows(),
    {
        self.rows
    }

    /// The number of columns, as a machine integer.
    pub fn cols(&self) -> (r: usize)
        ensures
            r as int == self.ncols(),
    {
        self.cols
    }

    /// A matrix of zeros.
    pub fn zeros(rows: usize, cols: usize) -> (r: Mat)
        requires
            rows <= MAX_DIM,
            cols <= MAX_DIM,
        ensures
            r.wf(),
            r.nrows() == rows,
            r.ncols() == cols,
            forall|i: int, j: int|
                0 <= i < rows && 0 <= j < cols ==> #[trigger] r.at(i, j) == 0,
    {
        assert((rows as int) * (cols as int) <= 0x10000000) by (nonlinear_arith)
            requires
                rows as int <= 16384,
                cols as int <= 16384,
                0 <= rows as int,
                0 <= cols as int,
        ;
        let n: usize = rows * cols;
        let data: Vec<i128> = vec![0i128; n];
        let m = Mat { rows, cols, data };
        proof {
            assert forall|i: int, j: int|
                0 <= i < rows && 0 <= j < cols implies #[trigger] m.at(i, j) == 0 by {
                lemma_index_in_range(i, j, rows as int, cols as int);
            };
        }
        m
    }

    /// Read the entry in row `i`, column `j`.
    pub fn get(&self, i: usize, j: usize) -> (r: i128)
        requires
            self.wf(),
            i < self.nrows(),
            j < self.ncols(),
        ensures
            r as int == self.at(i as int, j as int),
            fx_fits(r as int),
    {
        proof {
            lemma_index_in_range(i as int, j as int, self.rows as int, self.cols as int);
        }
        let idx: usize = i * self.cols + j;
        self.data[idx]
    }

    /// Overwrite the entry in row `i`, column `j`; all other entries keep
    /// their values.
    pub fn set(&mut self, i: usize, j: usize, v: i128)
        requires
            old(self).wf(),
            i < old(self).nrows(),
            j < old(self).ncols(),
            fx_fits(v as int),
        ensures
            final(self).wf(),
            final(self).nrows() == old(self).nrows(),
            final(self).ncols() == old(self).ncols(),
            forall|r: int, c: int|
                0 <= r < final(self).nrows() && 0 <= c < final(self).ncols()
                    ==> #[trigger] final(self).at(r, c) == (if r == i && c == j {
                    v as int
                } else {
                    old(self).at(r, c)
                }),
    {
        proof {
            lemma_index_in_range(i as int, j as int, self.rows as int, self.cols as int);
        }
        let idx: usize = i * self.cols + j;
        self.data.set(idx, v);
        proof {
            assert forall|r: int, c: int|
                0 <= r < self.nrows() && 0 <= c < self.ncols() implies #[trigger] self.at(r, c)
                    == (if r == i as int && c == j as int {
                        v as int
                    } else {
                        old(self).at(r, c)
                    }) by {
                lemma_index_in_range(r, c, self.rows as int, self.cols as int);
                if !(r == i as int && c == j as int) {
                    lemma_index_injective(r, c, i as int, j as int, self.cols as int);
                }
            };
        }
    }
}

/// A row-major index stays within the backing store and within machine
/// range for in-range dimensions.
proof fn lemma_index_in_range(i: int, j: int, rows: int, cols: int)
    requires
        0 <= i < rows,
        0 <= j < cols,
        rows <= MAX_DIM,
        cols <= MAX_DIM,
    ensures
        0 <= i * cols + j < rows * cols,
        rows * cols <= 0x10000000,
{
    assert(0 <= i * cols + j < rows * cols) by (nonlinear_arith)
        requires
            0 <= i < rows,
            0 <= j < cols,
    ;
    assert(rows * cols <= 0x10000000) by (nonlinear_arith)
        requires
            0 < rows <= 16384,
            0 < cols <= 16384,
    ;
}

/// Distinct in-range coordinates map to distinct row-major indices.
proof fn lemma_index_injective(r: int, c: int, i: int, j: int, cols: int)
    requires
        0 <= c < cols,
        0 <= j < cols,
        0 <= r,
        0 <= i,
        !(r == i && c == j),
    ensures
        r * cols + c != i * cols + j,
{
    assert(r * cols + c != i * cols + j) by (nonlinear_arith)
        requires
            0 <= c < cols,
            0 <= j < cols,
            0 <= r,
            0 <= i,
            !(r == i && c == j),
    ;
}

/// The strict upper triangle is zero.
pub open spec fn lower_tri(m: Mat) -> bool {
    forall|i: int, j: int| 0 <= i < j < m.ncols() ==> #[trigger] m.at(i, j) == 0
}

/// Every diagonal entry is strictly positive.
pub open spec fn diag_pos(m: Mat) -> bool {
    forall|i: int| 0 <= i < m.nrows() ==> #[trigger] m.at(i, i) > 0
}

/// The running value of one factorization cell: the input entry minus the
/// first `k` products of the two relevant factor rows, every step guarded.
pub open spec fn chol_acc_o(l: Mat, a_ij: int, i: int, j: int, k: nat) -> Option<int>
    decreases k,
{
    if k == 0 {
        Some(a_ij)
    } else {
        match chol_acc_o(l, a_ij, i, j, (k - 1) as nat) {
            None => None,
            Some(s) => match fx_mul_o(l.at(i, k - 1), l.at(j, k - 1)) {
                None => None,
                Some(p) => fx_sub_o(s, p),
            },
        }
    }
}

/// The accumulation reads only the first `k` columns of the two rows.
proof fn lemma_chol_acc_cols(l1: Mat, l2: Mat, a_ij: int, i: int, j: int, k: nat)
    requires
        forall|t: int| 0 <= t < k ==> #[trigger] l1.at(i, t) == l2.at(i, t),
        forall|t: int| 0 <= t < k ==> #[trigger] l1.at(j, t) == l2.at(j, t),
    ensures
        chol_acc_o(l1, a_ij, i, j, k) == chol_acc_o(l2, a_ij, i, j, k),
    decreases k,
{
    if k > 0 {
        lemma_chol_acc_cols(l1, l2, a_ij, i, j, (k - 1) as nat);
    }
}

/// Cell `(i, j)` of the factor (for `j <= i`) satisfies the Cholesky
/// recurrence for an input entry `a_ij`: with `s` the accumulated value of
/// [`chol_acc_o`], a diagonal entry is the fixed-point square root of a
/// strictly positive `s`, and an entry below the diagonal is `s` divided by
/// the diagonal entry of its column.
pub open spec fn chol_cell_from(a_ij: int, l: Mat, i: int, j: int) -> bool {
    match chol_acc_o(l, a_ij, i, j, j as nat) {
        None => false,
        Some(s) => {
            if i == j {
                &&& s > 0
                &&& 0 <= l.at(i, i)
                &&& l.at(i, i) * l.at(i, i) <= s * (FX_ONE as int)
                &&& s * (FX_ONE as int) < (l.at(i, i) + 1) * (l.at(i, i) + 1)
            } else {
                fx_div_o(s, l.at(j, j)) == Some(l.at(i, j))
            }
        },
    }
}

/// [`chol_cell_from`] seeded with the matrix entry itself.
pub open spec fn chol_cell_ok(a: Mat, l: Mat, i: int, j: int) -> bool {
    chol_cell_from(a.at(i, j), l, i, j)
}

/// At a failed accumulation step of cell `(i, j)`, no full factor can
/// exist: any witness would agree with the partial factor on the columns
/// already solved, so its own accumulation fails too.
proof fn lemma_chol_unsolvable(a: Mat, l: Mat, i: int, j: int, k: nat)
    requires
        a.nrows() == a.ncols(),
        l.nrows() == a.nrows(),
        l.ncols() == a.ncols(),
        0 <= j <= i < a.nrows(),
        k <= j,
        forall|i2: int, j2: int|
            0 <= j2 <= i2 < a.nrows() && j2 < j ==> #[trigger] chol_cell_ok(a, l, i2, j2),
        chol_acc_o(l, a.at(i, j), i, j, k) is None,
    ensures
        !chol_solvable(a),
{
    if chol_solvable(a) {
        let lw = choose|lw: Mat| chol_factor(a, lw);
        lemma_chol_cols_agree(a, l, lw, j as nat);
        lemma_chol_acc_cols(l, lw, a.at(i, j), i, j, k);
        lemma_chol_acc_none(lw, a.at(i, j), i, j, k, j as nat);
        assert(chol_cell_ok(a, lw, i, j));
        assert(false);
    }
}

/// With a pivot accumulation that is not strictly positive, no full factor
/// can exist: any witness shares the accumulation and its diagonal cell
/// would demand a positive value.
proof fn lemma_chol_pivot_unsolvable(a: Mat, l: Mat, j: int, s: int)
    requires
        a.nrows() == a.ncols(),
        l.nrows() == a.nrows(),
        l.ncols() == a.ncols(),
        0 <= j < a.nrows(),
        forall|i2: int, j2: int|
            0 <= j2 <= i2 < a.nrows() && j2 < j ==> #[trigger] chol_cell_ok(a, l, i2, j2),
        chol_acc_o(l, a.at(j, j), j, j, j as nat) == Some(s),
        s <= 0,
    ensures
        !chol_solvable(a),
{
    if chol_solvable(a) {
        let lw = choose|lw: Mat| chol_factor(a, lw);
        lemma_chol_cols_agree(a, l, lw, j as nat);
        lemma_chol_acc_cols(l, lw, a.at(j, j), j, j, j as nat);
        assert(chol_cell_ok(a, lw, j, j));
        assert(false);
    }
}

/// With the division by the pivot failing, no full factor can exist: any
/// witness shares the accumulation and the pivot (by the square root's
/// uniqueness), and its cell below the diagonal would demand a quotient.
proof fn lemma_chol_div_unsolvable(a: Mat, l: Mat, i: int, j: int, s: int)
    requires
        a.nrows() == a.ncols(),
        l.nrows() == a.nrows(),
        l.ncols() == a.ncols(),
        0 <= j < i < a.nrows(),
        forall|i2: int, j2: int|
            0 <= j2 <= i2 < a.nrows() && j2 < j ==> #[trigger] chol_cell_ok(a, l, i2, j2),
        chol_cell_ok(a, l, j, j),
        chol_acc_o(l, a.at(i, j), i, j, j as nat) == Some(s),
        fx_div_o(s, l.at(j, j)) is None,
    ensures
        !chol_solvable(a),
{
    if chol_solvable(a) {
        let lw = choose|lw: Mat| chol_factor(a, lw);
        lemma_chol_cols_agree(a, l, lw, j as nat);
        lemma_chol_acc_cols(l, lw, a.at(i, j), i, j, j as nat);
        lemma_chol_acc_cols(l, lw, a.at(j, j), j, j, j as nat);
        assert(chol_cell_ok(a, lw, j, j));
        let sd = chol_acc_o(l, a.at(j, j), j, j, j as nat)->Some_0;
        lemma_isqrt_unique(l.at(j, j), lw.at(j, j), sd * (FX_ONE as int));
        assert(chol_cell_ok(a, lw, i, j));
        assert(false);
    }
}

/// Cholesky factorization of a square matrix: it succeeds exactly when a
/// full factor exists; on success the result `l` is that factor — well
/// formed, lower triangular with a strictly positive diagonal, of the
/// input's dimensions, every cell on or below the diagonal satisfying the
/// recurrence [`chol_cell_ok`], which determines it uniquely.  The
/// factorization fails with `NonPositiveDefinite` when a mirrored pivot
/// accumulation is not strictly positive (the failure carries that witness),
/// and with `NumericalInstability` when an intermediate value leaves the
/// representable range; it returns no other error.
#[verifier::rlimit(50)]
pub fn cholesky(a: &Mat) -> (r: Result<Mat, GpError>)
    requires
        a.wf(),
        a.nrows() == a.ncols(),
    ensures
        r is Ok <==> chol_solvable(*a),
        r == Err::<Mat, GpError>(GpError::NonPositiveDefinite) ==> exists|lw: Mat, jp: int|
            #[trigger] chol_blocked_at(*a, lw, jp),
        match r {
            Ok(l) => {
                &&& l.wf()
                &&& l.nrows() == a.nrows()
                &&& l.ncols() == a.ncols()
                &&& lower_tri(l)
                &&& diag_pos(l)
                &&& forall|i: int, j: int|
                    0 <= j <= i < a.nrows() ==> #[trigger] chol_cell_ok(*a, l, i, j)
            },
            Err(e) => e == GpError::NonPositiveDefinite || e == GpError::NumericalInstability,
        },
{
    let n: usize = a.rows();
    let mut l = Mat::zeros(n, n);
    let mut j: usize = 0;
    while j < n
        invariant
            a.wf(),
            a.nrows() == n,
            a.ncols() == n,
            n <= MAX_DIM,
            l.wf(),
            l.nrows() == n,
            l.ncols() == n,
            j <= n,
            forall|r2: int, c2: int| 0 <= r2 < c2 < n ==> #[trigger] l.at(r2, c2) == 0,
            forall|c2: int| 0 <= c2 < j ==> #[trigger] l.at(c2, c2) > 0,
            forall|i2: int, j2: int|
                0 <= j2 <= i2 < n && j2 < j ==> #[trigger] chol_cell_ok(*a, l, i2, j2),
        decreases n - j,
    {
        let mut i: usize = j;
        while i < n
            invariant
                a.wf(),
                a.nrows() == n,
                a.ncols() == n,
                n <= MAX_DIM,
                l.wf(),
                l.nrows() == n,
                l.ncols() == n,
                j < n,
                j <= i <= n,
                forall|r2: int, c2: int| 0 <= r2 < c2 < n ==> #[trigger] l.at(r2, c2) == 0,
                forall|c2: int| 0 <= c2 < j ==> #[trigger] l.at(c2, c2) > 0,
                i > j ==> l.at(j as int, j as int) > 0,
                forall|i2: int, j2: int|
                    0 <= j2 <= i2 < n && j2 < j ==> #[trigger] chol_cell_ok(*a, l, i2, j2),
                forall|i2: int| j <= i2 < i ==> #[trigger] chol_cell_ok(*a, l, i2, j as int),
            decreases n - i,
        {
            let mut s: i128 = a.get(i, j);
            let mut t: usize = 0;
            while t < j
                invariant
                    a.wf(),
                    a.nrows() == n,
                    a.ncols() == n,
                    l.wf(),
                    l.nrows() == n,
                    l.ncols() == n,
                    t <= j,
                    j <= i < n,
                    j < n,
                    fx_fits(s as int),
                    forall|i2: int, j2: int|
                        0 <= j2 <= i2 < n && j2 < j ==> #[trigger] chol_cell_ok(*a, l, i2, j2),
                    forall|i2: int| j <= i2 < i ==> #[trigger] chol_cell_ok(*a, l, i2, j as int),
                    i > j ==> l.at(j as int, j as int) > 0,
                    chol_acc_o(l, a.at(i as int, j as int), i as int, j as int, t as nat)
                        == Some(s as int),
                decreases j - t,
            {
                let p: i128 = match fx_mul(l.get(i, t), l.get(j, t)) {
                    Some(p) => p,
                    None => {
                        proof {
                            lemma_chol_unsolvable(*a, l, i as int, j as int, (t + 1) as nat);
                        }
                        return Err(GpError::NumericalInstability);
                    },
                };
                s = match fx_sub(s, p) {
                    Some(v2) => v2,
                    None => {
                        proof {
                            lemma_chol_unsolvable(*a, l, i as int, j as int, (t + 1) as nat);
                        }
                        return Err(GpError::NumericalInstability);
                    },
                };
                t = t + 1;
            }
            if i == j {
                if s <= 0 {
                    proof {
                        lemma_chol_pivot_unsolvable(*a, l, j as int, s as int);
                        assert(chol_blocked_at(*a, l, j as int));
                    }
                    return Err(GpError::NonPositiveDefinite);
                }
                let d: i128 = fx_sqrt(s);
                proof {
                    assert((s as int) * (FX_ONE as int) >= FX_ONE as int) by (nonlinear_arith)
                        requires
                            1 <= s as int,
                            0 < FX_ONE,
                    ;
                    if d == 0 {
                        assert((d as int + 1) * (d as int + 1) == 1) by (nonlinear_arith)
                            requires
                                d as int == 0,
                        ;
                        assert(false);
                    }
                }
                let ghost l_old = l;
                l.set(j, j, d);
                proof {
                    assert forall|i2: int, j2: int|
                        0 <= j2 <= i2 < n && j2 < j implies #[trigger] chol_cell_ok(
                        *a,
                        l,
                        i2,
                        j2,
                    ) by {
                        lemma_chol_acc_cols(l_old, l, a.at(i2, j2), i2, j2, j2 as nat);
                        assert(chol_cell_ok(*a, l_old, i2, j2));
                        assert(l.at(i2, j2) == l_old.at(i2, j2));
                        assert(l.at(j2, j2) == l_old.at(j2, j2));
                    };
                    lemma_chol_acc_cols(
                        l_old,
                        l,
                        a.at(i as int, j as int),
                        i as int,
                        j as int,
                        j as nat,
                    );
                    assert(chol_cell_ok(*a, l, j as int, j as int));
                }
            } else {
                let piv: i128 = l.get(j, j);
                let x: i128 = match fx_div(s, piv) {
                    Some(x) => x,
                    None => {
                        proof {
                            lemma_chol_div_unsolvable(*a, l, i as int, j as int, s as int);
                        }
                        return Err(GpError::NumericalInstability);
                    },
                };
                let ghost l_old = l;
                l.set(i, j, x);
                proof {
                    assert forall|i2: int, j2: int|
                        0 <= j2 <= i2 < n && j2 < j implies #[trigger] chol_cell_ok(
                        *a,
                        l,
                        i2,
                        j2,
                    ) by {
                        lemma_chol_acc_cols(l_old, l, a.at(i2, j2), i2, j2, j2 as nat);
                        assert(chol_cell_ok(*a, l_old, i2, j2));
                        assert(l.at(i2, j2) == l_old.at(i2, j2));
                        assert(l.at(j2, j2) == l_old.at(j2, j2));
                    };
                    assert forall|i2: int| j <= i2 < i + 1 implies #[trigger] chol_cell_ok(
                        *a,
                        l,
                        i2,
                        j as int,
                    ) by {
                        lemma_chol_acc_cols(l_old, l, a.at(i2, j as int), i2, j as int, j as nat);
                        if i2 == i {
                            assert(fx_div_o(s as int, l.at(j as int, j as int)) == Some(
                                x as int,
                            ));
                        } else {
                            assert(chol_cell_ok(*a, l_old, i2, j as int));
                            assert(l.at(i2, j as int) == l_old.at(i2, j as int));
                        }
                    };
                }
            }
            i = i + 1;
        }
        j = j + 1;
    }
    proof {
        assert(chol_factor(*a, l));
    }
    Ok(l)
}

/// The running value of one forward-substitution row: the right-hand side
/// minus the first `k` products of factor entries with already-solved
/// coordinates, every step guarded.
pub open spec fn solve_acc_o(l: Mat, z: Seq<i128>, b_i: int, row: int, k: nat) -> Option<int>
    decreases k,
{
    if k == 0 {
        Some(b_i)
    } else {
        match solve_acc_o(l, z, b_i, row, (k - 1) as nat) {
            None => None,
            Some(s) => match fx_mul_o(l.at(row, k - 1), z[k - 1] as int) {
                None => None,
                Some(p) => fx_sub_o(s, p),
            },
        }
    }
}

/// The accumulation reads only the first `k` solved coordinates.
proof fn lemma_solve_acc_prefix(l: Mat, z1: Seq<i128>, z2: Seq<i128>, b_i: int, row: int, k: nat)
    requires
        k <= z1.len(),
        k <= z2.len(),
        forall|t: int| 0 <= t < k ==> z1[t] == z2[t],
    ensures
        solve_acc_o(l, z1, b_i, row, k) == solve_acc_o(l, z2, b_i, row, k),
    decreases k,
{
    if k > 0 {
        lemma_solve_acc_prefix(l, z1, z2, b_i, row, (k - 1) as nat);
    }
}

/// Row `i` of a forward-substitution solution is correct: the accumulated
/// right-hand side divided by the diagonal entry gives the stored value.
pub open spec fn fwd_row_ok(l: Mat, z: Seq<i128>, b: Seq<i128>, i: int) -> bool {
    match solve_acc_o(l, z, b[i] as int, i, i as nat) {
        None => false,
        Some(s) => fx_div_o(s, l.at(i, i)) == Some(z[i] as int),
    }
}

/// Solve `l * z = b` for a square lower triangular system by forward
/// substitution.  It succeeds exactly when the substitution equations have a
/// solution; on success the result is that solution — every row satisfies
/// [`fwd_row_ok`], which determines it uniquely — and the only failure is
/// `NumericalInstability`.
#[verifier::rlimit(50)]
pub fn forward_solve(l: &Mat, b: &Vec<i128>) -> (r: Result<Vec<i128>, GpError>)
    requires
        l.wf(),
        l.nrows() == l.ncols(),
        b@.len() == l.nrows(),
        all_fits(b@),
    ensures
        r is Ok <==> fwd_solvable(*l, b@),
        match r {
            Ok(z) => {
                &&& z@.len() == b@.len()
                &&& all_fits(z@)
                &&& forall|i: int| 0 <= i < b@.len() ==> #[trigger] fwd_row_ok(*l, z@, b@, i)
            },
            Err(e) => e == GpError::NumericalInstability,
        },
{
    let n: usize = l.rows();
    let mut z: Vec<i128> = Vec::new();
    let mut i: usize = 0;
    while i < n
        invariant
            l.wf(),
            l.nrows() == n,
            l.ncols() == n,
            b@.len() == n,
            all_fits(b@),
            i <= n,
            z@.len() == i,
            all_fits(z@),
            forall|r2: int| 0 <= r2 < i ==> #[trigger] fwd_row_ok(*l, z@, b@, r2),
        decreases n - i,
    {
        let mut s: i128 = b[i];
        let mut t: usize = 0;
        while t < i
            invariant
                l.wf(),
                l.nrows() == n,
                l.ncols() == n,
                b@.len() == n,
                t <= i < n,
                z@.len() == i,
                all_fits(z@),
                fx_fits(s as int),
                forall|r2: int| 0 <= r2 < i ==> #[trigger] fwd_row_ok(*l, z@, b@, r2),
                solve_acc_o(*l, z@, b@[i as int] as int, i as int, t as nat) == Some(s as int),
            decreases i - t,
        {
            let p: i128 = match fx_mul(l.get(i, t), z[t]) {
                Some(p) => p,
                None => {
                    proof {
                        lemma_fwd_unsolvable(*l, z@, b@, i as int, (t + 1) as nat);
                    }
                    return Err(GpError::NumericalInstability);
                },
            };
            s = match fx_sub(s, p) {
                Some(v2) => v2,
                None => {
                    proof {
                        lemma_fwd_unsolvable(*l, z@, b@, i as int, (t + 1) as nat);
                    }
                    return Err(GpError::NumericalInstability);
                },
            };
            t = t + 1;
        }
        let zi: i128 = match fx_div(s, l.get(i, i)) {
            Some(v2) => v2,
            None => {
                proof {
                    if fwd_solvable(*l, b@) {
                        let zw = choose|zw: Seq<i128>| fwd_solution(*l, zw, b@);
                        lemma_fwd_prefix_agree(*l, z@, zw, b@, i as nat);
                        lemma_solve_acc_prefix(*l, z@, zw, b@[i as int] as int, i as int, i as nat);
                        assert(fwd_row_ok(*l, zw, b@, i as int));
                        assert(false);
                    }
                }
                return Err(GpError::NumericalInstability);
            },
        };
        let ghost z_old = z@;
        z.push(zi);
        proof {
            assert forall|r2: int| 0 <= r2 < i + 1 implies #[trigger] fwd_row_ok(*l, z@, b@, r2) by {
                lemma_solve_acc_prefix(*l, z_old, z@, b@[r2] as int, r2, r2 as nat);
                if r2 == i {
                    assert(solve_acc_o(*l, z@, b@[r2] as int, r2, r2 as nat) == Some(s as int));
                    assert(fx_div_o(s as int, l.at(r2, r2)) == Some(zi as int));
                    assert(z@[r2] == zi);
                } else {
                    assert(fwd_row_ok(*l, z_old, b@, r2));
                    assert(z@[r2] == z_old[r2]);
                }
            };
        }
        i = i + 1;
    }
    proof {
        assert(fwd_solution(*l, z@, b@));
    }
    Ok(z)
}

/// At a failed accumulation step of row `i`, no full solution can exist: any
/// witness would agree with the partial solution on the rows already solved,
/// so its own accumulation fails too.
proof fn lemma_fwd_unsolvable(l: Mat, z: Seq<i128>, b: Seq<i128>, i: int, k: nat)
    requires
        z.len() == i,
        0 <= i < b.len(),
        k <= i,
        forall|r2: int| 0 <= r2 < i ==> #[trigger] fwd_row_ok(l, z, b, r2),
        solve_acc_o(l, z, b[i] as int, i, k) is None,
    ensures
        !fwd_solvable(l, b),
{
    if fwd_solvable(l, b) {
        let zw = choose|zw: Seq<i128>| fwd_solution(l, zw, b);
        lemma_fwd_prefix_agree(l, z, zw, b, i as nat);
        lemma_solve_acc_prefix(l, z, zw, b[i] as int, i, k);
        lemma_solve_acc_none(l, zw, b[i] as int, i, k, i as nat);
        assert(fwd_row_ok(l, zw, b, i));
        assert(false);
    }
}

/// The running value of one back-substitution row: the right-hand side minus
/// the products of transposed factor entries with the already-solved
/// coordinates above `row`, through coordinate `up - 1`, every step guarded.
pub open spec fn back_acc_o(l: Mat, x: Seq<i128>, y_i: int, row: int, up: nat) -> Option<int>
    decreases up,
{
    if up == 0 || up <= row + 1 {
        Some(y_i)
    } else {
        match back_acc_o(l, x, y_i, row, (up - 1) as nat) {
            None => None,
            Some(s) => match fx_mul_o(l.at(up - 1, row), x[up - 1] as int) {
                None => None,
                Some(p) => fx_sub_o(s, p),
            },
        }
    }
}

/// The accumulation reads only the coordinates strictly between `row` and
/// `up`.
proof fn lemma_back_acc_range(l: Mat, x1: Seq<i128>, x2: Seq<i128>, y_i: int, row: int, up: nat)
    requires
        up <= x1.len(),
        up <= x2.len(),
        forall|t: int| row < t < up ==> x1[t] == x2[t],
    ensures
        back_acc_o(l, x1, y_i, row, up) == back_acc_o(l, x2, y_i, row, up),
    decreases up,
{
    if up > 0 && up > row + 1 {
        lemma_back_acc_range(l, x1, x2, y_i, row, (up - 1) as nat);
    }
}

/// Row `i` of a back-substitution solution is correct: the accumulated
/// right-hand side divided by the diagonal entry gives the stored value.
pub open spec fn back_row_ok(l: Mat, x: Seq<i128>, y: Seq<i128>, i: int) -> bool {
    match back_acc_o(l, x, y[i] as int, i, l.nrows() as nat) {
        None => false,
        Some(s) => fx_div_o(s, l.at(i, i)) == Some(x[i] as int),
    }
}

/// Solve `l^T * x = y` for a square lower triangular system by back
/// substitution.  On success the solution has the length of `y` and every
/// row satisfies the substitution equation [`back_row_ok`], which determines
/// it uniquely; the only failure is `NumericalInstability`.
#[verifier::rlimit(50)]
pub fn back_solve(l: &Mat, y: &Vec<i128>) -> (r: Result<Vec<i128>, GpError>)
    requires
        l.wf(),
        l.nrows() == l.ncols(),
        y@.len() == l.nrows(),
        all_fits(y@),
    ensures
        r is Ok <==> back_solvable(*l, y@),
        match r {
            Ok(x) => {
                &&& x@.len() == y@.len()
                &&& all_fits(x@)
                &&& forall|i: int| 0 <= i < y@.len() ==> #[trigger] back_row_ok(*l, x@, y@, i)
            },
            Err(e) => e == GpError::NumericalInstability,
        },
{
    let n: usize = l.rows();
    let mut x: Vec<i128> = vec![0i128; n];
    let mut ii: usize = n;
    while ii > 0
        invariant
            l.wf(),
            l.nrows() == n,
            l.ncols() == n,
            y@.len() == n,
            all_fits(y@),
            ii <= n,
            x@.len() == n,
            all_fits(x@),
            forall|r2: int| ii <= r2 < n ==> #[trigger] back_row_ok(*l, x@, y@, r2),
        decreases ii,
    {
        let i: usize = ii - 1;
        let mut s: i128 = y[i];
        let mut t: usize = ii;
        while t < n
            invariant
                l.wf(),
                l.nrows() == n,
                l.ncols() == n,
                y@.len() == n,
                ii <= t <= n,
                i == ii - 1,
                ii >= 1,
                x@.len() == n,
                all_fits(x@),
                fx_fits(s as int),
                forall|r2: int| ii <= r2 < n ==> #[trigger] back_row_ok(*l, x@, y@, r2),
                back_acc_o(*l, x@, y@[i as int] as int, i as int, t as nat) == Some(s as int),
            decreases n - t,
        {
            let p: i128 = match fx_mul(l.get(t, i), x[t]) {
                Some(p) => p,
                None => {
                    proof {
                        lemma_back_unsolvable(*l, x@, y@, i as int, (t + 1) as nat);
                    }
                    return Err(GpError::NumericalInstability);
                },
            };
            s = match fx_sub(s, p) {
                Some(v2) => v2,
                None => {
                    proof {
                        lemma_back_unsolvable(*l, x@, y@, i as int, (t + 1) as nat);
                    }
                    return Err(GpError::NumericalInstability);
                },
            };
            t = t + 1;
        }
        let xi: i128 = match fx_div(s, l.get(i, i)) {
            Some(v2) => v2,
            None => {
                proof {
                    if back_solvable(*l, y@) {
                        let xw = choose|xw: Seq<i128>| back_solution(*l, xw, y@);
                        lemma_back_suffix_agree(*l, x@, xw, y@, ii as nat);
                        lemma_back_acc_range(*l, x@, xw, y@[i as int] as int, i as int, n as nat);
                        assert(back_row_ok(*l, xw, y@, i as int));
                        assert(false);
                    }
                }
                return Err(GpError::NumericalInstability);
            },
        };
        let ghost x_old = x@;
        x.set(i, xi);
        proof {
            assert forall|r2: int| ii - 1 <= r2 < n implies #[trigger] back_row_ok(*l, x@, y@, r2) by {
                lemma_back_acc_range(*l, x_old, x@, y@[r2] as int, r2, n as nat);
                if r2 == i {
                    assert(back_acc_o(*l, x@, y@[r2] as int, r2, n as nat) == Some(s as int));
                    assert(fx_div_o(s as int, l.at(r2, r2)) == Some(xi as int));
                    assert(x@[r2] == xi);
                } else {
                    assert(back_row_ok(*l, x_old, y@, r2));
                    assert(x@[r2] == x_old[r2]);
                }
            };
        }
        ii = ii - 1;
    }
    proof {
        assert(back_solution(*l, x@, y@));
    }
    Ok(x)
}

/// At a failed accumulation step of row `i`, no full back-substitution
/// solution can exist: any witness would agree with the partial solution on
/// the rows already solved, so its own accumulation fails too.
proof fn lemma_back_unsolvable(l: Mat, x: Seq<i128>, y: Seq<i128>, i: int, up: nat)
    requires
        x.len() == y.len(),
        y.len() == l.nrows(),
        0 <= i < y.len(),
        i + 1 <= up <= y.len(),
        forall|r2: int| i < r2 < y.len() ==> #[trigger] back_row_ok(l, x, y, r2),
        back_acc_o(l, x, y[i] as int, i, up) is None,
    ensures
        !back_solvable(l, y),
{
    if back_solvable(l, y) {
        let xw = choose|xw: Seq<i128>| back_solution(l, xw, y);
        lemma_back_suffix_agree(l, x, xw, y, (i + 1) as nat);
        lemma_back_acc_range(l, x, xw, y[i] as int, i, up);
        lemma_back_acc_none(l, xw, y[i] as int, i, up, y.len() as nat);
        assert(back_row_ok(l, xw, y, i));
        assert(false);
    }
}

/// The forward-substitution equations determine the solution: two vectors
/// that both satisfy every row are equal.
pub proof fn lemma_fwd_solution_unique(l: Mat, z1: Seq<i128>, z2: Seq<i128>, b: Seq<i128>)
    requires
        z1.len() == b.len(),
        z2.len() == b.len(),
        forall|i: int| 0 <= i < b.len() ==> #[trigger] fwd_row_ok(l, z1, b, i),
        forall|i: int| 0 <= i < b.len() ==> #[trigger] fwd_row_ok(l, z2, b, i),
    ensures
        z1 == z2,
{
    lemma_fwd_prefix_agree(l, z1, z2, b, b.len() as nat);
    assert(z1 =~= z2);
}

/// Two vectors whose first `k` rows each satisfy the forward-substitution
/// equation agree on their first `k` coordinates.
proof fn lemma_fwd_prefix_agree(l: Mat, z1: Seq<i128>, z2: Seq<i128>, b: Seq<i128>, k: nat)
    requires
        k <= z1.len(),
        k <= z2.len(),
        k <= b.len(),
        forall|i: int| 0 <= i < k ==> #[trigger] fwd_row_ok(l, z1, b, i),
        forall|i: int| 0 <= i < k ==> #[trigger] fwd_row_ok(l, z2, b, i),
    ensures
        forall|t: int| 0 <= t < k ==> z1[t] == z2[t],
    decreases k,
{
    if k > 0 {
        let i = k - 1;
        lemma_fwd_prefix_agree(l, z1, z2, b, (k - 1) as nat);
        lemma_solve_acc_prefix(l, z1, z2, b[i] as int, i, i as nat);
        assert(fwd_row_ok(l, z1, b, i));
        assert(fwd_row_ok(l, z2, b, i));
        assert(z1[i] == z2[i]);
    }
}

/// The back-substitution equations determine the solution: two vectors that
/// both satisfy every row are equal.
pub proof fn lemma_back_solution_unique(l: Mat, x1: Seq<i128>, x2: Seq<i128>, y: Seq<i128>)
    requires
        x1.len() == y.len(),
        x2.len() == y.len(),
        y.len() == l.nrows(),
        forall|i: int| 0 <= i < y.len() ==> #[trigger] back_row_ok(l, x1, y, i),
        forall|i: int| 0 <= i < y.len() ==> #[trigger] back_row_ok(l, x2, y, i),
    ensures
        x1 == x2,
{
    lemma_back_suffix_agree(l, x1, x2, y, 0);
    assert(x1 =~= x2);
}

/// Two vectors whose rows from `k` up each satisfy the back-substitution
/// equation agree on their coordinates from `k` up.
proof fn lemma_back_suffix_agree(l: Mat, x1: Seq<i128>, x2: Seq<i128>, y: Seq<i128>, k: nat)
    requires
        x1.len() == y.len(),
        x2.len() == y.len(),
        y.len() == l.nrows(),
        k <= y.len(),
        forall|i: int| k <= i < y.len() ==> #[trigger] back_row_ok(l, x1, y, i),
        forall|i: int| k <= i < y.len() ==> #[trigger] back_row_ok(l, x2, y, i),
    ensures
        forall|t: int| k <= t < y.len() ==> x1[t] == x2[t],
    decreases y.len() - k,
{
    if k < y.len() {
        let i = k as int;
        lemma_back_suffix_agree(l, x1, x2, y, (k + 1) as nat);
        lemma_back_acc_range(l, x1, x2, y[i] as int, i, y.len() as nat);
        assert(back_row_ok(l, x1, y, i));
        assert(back_row_ok(l, x2, y, i));
        assert(x1[i] == x2[i]);
    }
}

/// An integer square root is unique: two nonnegative values whose squares
/// bracket the same quantity are equal.
pub proof fn lemma_isqrt_unique(r1: int, r2: int, v: int)
    requires
        0 <= r1,
        0 <= r2,
        r1 * r1 <= v < (r1 + 1) * (r1 + 1),
        r2 * r2 <= v < (r2 + 1) * (r2 + 1),
    ensures
        r1 == r2,
{
    if r1 < r2 {
        assert((r1 + 1) * (r1 + 1) <= r2 * r2) by (nonlinear_arith)
            requires
                0 <= r1 < r2,
        ;
    }
    if r2 < r1 {
        assert((r2 + 1) * (r2 + 1) <= r1 * r1) by (nonlinear_arith)
            requires
                0 <= r2 < r1,
        ;
    }
}

/// The Cholesky recurrence determines the factor: two lower triangular
/// matrices of the input's dimensions whose cells all satisfy it agree on
/// every entry.
pub proof fn lemma_chol_factor_unique(a: Mat, l1: Mat, l2: Mat)
    requires
        a.nrows() == a.ncols(),
        l1.nrows() == a.nrows() && l1.ncols() == a.ncols(),
        l2.nrows() == a.nrows() && l2.ncols() == a.ncols(),
        lower_tri(l1),
        lower_tri(l2),
        forall|i: int, j: int| 0 <= j <= i < a.nrows() ==> #[trigger] chol_cell_ok(a, l1, i, j),
        forall|i: int, j: int| 0 <= j <= i < a.nrows() ==> #[trigger] chol_cell_ok(a, l2, i, j),
    ensures
        forall|i: int, j: int|
            0 <= i < a.nrows() && 0 <= j < a.ncols() ==> #[trigger] l1.at(i, j) == l2.at(i, j),
{
    lemma_chol_cols_agree(a, l1, l2, a.nrows() as nat);
    assert forall|i: int, j: int|
        0 <= i < a.nrows() && 0 <= j < a.ncols() implies #[trigger] l1.at(i, j) == l2.at(
        i,
        j,
    ) by {
        if i < j {
            assert(l1.at(i, j) == 0);
            assert(l2.at(i, j) == 0);
        }
    };
}

/// Two factors whose cells in columns below `k` each satisfy the Cholesky
/// recurrence agree on those columns.
proof fn lemma_chol_cols_agree(a: Mat, l1: Mat, l2: Mat, k: nat)
    requires
        a.nrows() == a.ncols(),
        l1.nrows() == a.nrows() && l1.ncols() == a.ncols(),
        l2.nrows() == a.nrows() && l2.ncols() == a.ncols(),
        k <= a.nrows(),
        forall|i: int, j: int|
            0 <= j <= i < a.nrows() && j < k ==> #[trigger] chol_cell_ok(a, l1, i, j),
        forall|i: int, j: int|
            0 <= j <= i < a.nrows() && j < k ==> #[trigger] chol_cell_ok(a, l2, i, j),
    ensures
        forall|i: int, t: int| 0 <= t < k && t <= i < a.nrows() ==> #[trigger] l1.at(i, t)
            == l2.at(i, t),
    decreases k,
{
    if k > 0 {
        let j = k - 1;
        lemma_chol_cols_agree(a, l1, l2, (k - 1) as nat);
        lemma_chol_acc_cols(l1, l2, a.at(j, j), j, j, j as nat);
        assert(chol_cell_ok(a, l1, j, j));
        assert(chol_cell_ok(a, l2, j, j));
        let s = chol_acc_o(l1, a.at(j, j), j, j, j as nat)->Some_0;
        lemma_isqrt_unique(l1.at(j, j), l2.at(j, j), s * (FX_ONE as int));
        assert forall|i: int, t: int|
            0 <= t < k && t <= i < a.nrows() implies #[trigger] l1.at(i, t) == l2.at(i, t) by {
            if t == j && i != j {
                lemma_chol_acc_cols(l1, l2, a.at(i, t), i, t, t as nat);
                assert(chol_cell_ok(a, l1, i, t));
                assert(chol_cell_ok(a, l2, i, t));
            }
        };
    }
}

/// Once a forward-substitution accumulation has failed it stays failed.
proof fn lemma_solve_acc_none(l: Mat, z: Seq<i128>, b_i: int, row: int, k1: nat, k2: nat)
    requires
        solve_acc_o(l, z, b_i, row, k1) is None,
        k1 <= k2,
    ensures
        solve_acc_o(l, z, b_i, row, k2) is None,
    decreases k2,
{
    if k2 > k1 {
        lemma_solve_acc_none(l, z, b_i, row, k1, (k2 - 1) as nat);
    }
}

/// Once a back-substitution accumulation has failed it stays failed.
proof fn lemma_back_acc_none(l: Mat, x: Seq<i128>, y_i: int, row: int, up1: nat, up2: nat)
    requires
        back_acc_o(l, x, y_i, row, up1) is None,
        up1 <= up2,
    ensures
        back_acc_o(l, x, y_i, row, up2) is None,
    decreases up2,
{
    if up2 > up1 {
        lemma_back_acc_none(l, x, y_i, row, up1, (up2 - 1) as nat);
    }
}

/// Once a factorization accumulation has failed it stays failed.
proof fn lemma_chol_acc_none(l: Mat, a_ij: int, i: int, j: int, k1: nat, k2: nat)
    requires
        chol_acc_o(l, a_ij, i, j, k1) is None,
        k1 <= k2,
    ensures
        chol_acc_o(l, a_ij, i, j, k2) is None,
    decreases k2,
{
    if k2 > k1 {
        lemma_chol_acc_none(l, a_ij, i, j, k1, (k2 - 1) as nat);
    }
}

/// The forward accumulation reads the factor only on row `row`, columns
/// below `k`.
proof fn lemma_solve_acc_same_l(l1: Mat, l2: Mat, z: Seq<i128>, b_i: int, row: int, k: nat)
    requires
        forall|t: int| 0 <= t < k ==> #[trigger] l1.at(row, t) == l2.at(row, t),
    ensures
        solve_acc_o(l1, z, b_i, row, k) == solve_acc_o(l2, z, b_i, row, k),
    decreases k,
{
    if k > 0 {
        lemma_solve_acc_same_l(l1, l2, z, b_i, row, (k - 1) as nat);
    }
}

/// The back accumulation reads the factor only on column `row`, rows above
/// it.
proof fn lemma_back_acc_same_l(l1: Mat, l2: Mat, x: Seq<i128>, y_i: int, row: int, up: nat)
    requires
        forall|t: int| row < t < up ==> #[trigger] l1.at(t, row) == l2.at(t, row),
    ensures
        back_acc_o(l1, x, y_i, row, up) == back_acc_o(l2, x, y_i, row, up),
    decreases up,
{
    if up > 0 && up > row + 1 {
        lemma_back_acc_same_l(l1, l2, x, y_i, row, (up - 1) as nat);
    }
}

/// Two factors equal on the lower triangle support the same forward
/// solutions.
pub proof fn lemma_fwd_solution_same_l(l1: Mat, l2: Mat, z: Seq<i128>, b: Seq<i128>)
    requires
        b.len() <= l1.nrows(),
        l1.nrows() == l2.nrows(),
        forall|i: int, t: int| 0 <= t <= i < l1.nrows() ==> #[trigger] l1.at(i, t) == l2.at(i, t),
    ensures
        fwd_solution(l1, z, b) == fwd_solution(l2, z, b),
{
    if fwd_solution(l1, z, b) {
        assert forall|i: int| 0 <= i < b.len() implies #[trigger] fwd_row_ok(l2, z, b, i) by {
            assert(fwd_row_ok(l1, z, b, i));
            lemma_solve_acc_same_l(l1, l2, z, b[i] as int, i, i as nat);
        };
    }
    if fwd_solution(l2, z, b) {
        assert forall|i: int| 0 <= i < b.len() implies #[trigger] fwd_row_ok(l1, z, b, i) by {
            assert(fwd_row_ok(l2, z, b, i));
            lemma_solve_acc_same_l(l1, l2, z, b[i] as int, i, i as nat);
        };
    }
}

/// Two factors equal on the lower triangle support the same back
/// solutions.
pub proof fn lemma_back_solution_same_l(l1: Mat, l2: Mat, x: Seq<i128>, y: Seq<i128>)
    requires
        y.len() <= l1.nrows(),
        l1.nrows() == l2.nrows(),
        forall|i: int, t: int| 0 <= t <= i < l1.nrows() ==> #[trigger] l1.at(i, t) == l2.at(i, t),
    ensures
        back_solution(l1, x, y) == back_solution(l2, x, y),
{
    if back_solution(l1, x, y) {
        assert forall|i: int| 0 <= i < y.len() implies #[trigger] back_row_ok(l2, x, y, i) by {
            assert(back_row_ok(l1, x, y, i));
            lemma_back_acc_same_l(l1, l2, x, y[i] as int, i, l1.nrows() as nat);
        };
    }
    if back_solution(l2, x, y) {
        assert forall|i: int| 0 <= i < y.len() implies #[trigger] back_row_ok(l1, x, y, i) by {
            assert(back_row_ok(l2, x, y, i));
            lemma_back_acc_same_l(l1, l2, x, y[i] as int, i, l1.nrows() as nat);
        };
    }
}

/// A full solution of the forward-substitution equations.
pub open spec fn fwd_solution(l: Mat, z: Seq<i128>, b: Seq<i128>) -> bool {
    &&& z.len() == b.len()
    &&& forall|i: int| 0 <= i < b.len() ==> #[trigger] fwd_row_ok(l, z, b, i)
}

/// Some vector solves the forward-substitution equations: the exact success
/// condition of [`forward_solve`].
pub open spec fn fwd_solvable(l: Mat, b: Seq<i128>) -> bool {
    exists|z: Seq<i128>| #[trigger] fwd_solution(l, z, b)
}

/// A full solution of the back-substitution equations.
pub open spec fn back_solution(l: Mat, x: Seq<i128>, y: Seq<i128>) -> bool {
    &&& x.len() == y.len()
    &&& forall|i: int| 0 <= i < y.len() ==> #[trigger] back_row_ok(l, x, y, i)
}

/// Some vector solves the back-substitution equations: the exact success
/// condition of [`back_solve`].
pub open spec fn back_solvable(l: Mat, y: Seq<i128>) -> bool {
    exists|x: Seq<i128>| #[trigger] back_solution(l, x, y)
}

/// A full Cholesky factor of `a`: well formed, of `a`'s dimensions, lower
/// triangular with a positive diagonal, every cell on or below the diagonal
/// satisfying the recurrence.
pub open spec fn chol_factor(a: Mat, lw: Mat) -> bool {
    &&& lw.wf()
    &&& lw.nrows() == a.nrows()
    &&& lw.ncols() == a.ncols()
    &&& lower_tri(lw)
    &&& diag_pos(lw)
    &&& forall|i: int, j: int| 0 <= j <= i < a.nrows() ==> #[trigger] chol_cell_ok(a, lw, i, j)
}

/// Some factor satisfies the Cholesky recurrence over `a`: the exact success
/// condition of [`cholesky`].
pub open spec fn chol_solvable(a: Mat) -> bool {
    exists|lw: Mat| #[trigger] chol_factor(a, lw)
}

/// A partial factor of `a` whose columns below `jp` satisfy the recurrence
/// and whose pivot accumulation at `(jp, jp)` is not strictly positive: the
/// witness a `NonPositiveDefinite` failure carries.
pub open spec fn chol_blocked_at(a: Mat, lw: Mat, jp: int) -> bool {
    &&& 0 <= jp < a.nrows()
    &&& lw.nrows() == a.nrows()
    &&& lw.ncols() == a.ncols()
    &&& forall|i: int, j: int|
        0 <= j <= i < a.nrows() && j < jp ==> #[trigger] chol_cell_ok(a, lw, i, j)
    &&& match chol_acc_o(lw, a.at(jp, jp), jp, jp, jp as nat) {
        None => false,
        Some(s) => s <= 0,
    }
}

/// Guarded accumulation of a dot product through the first `k` coordinates:
/// `None` as soon as any step leaves the representable range.
pub open spec fn dot_v(u: Seq<i128>, v: Seq<i128>, k: nat) -> Option<int>
    decreases k,
{
    if k == 0 {
        Some(0)
    } else {
        match dot_v(u, v, (k - 1) as nat) {
            None => None,
            Some(s) => {
                if fx_mul_ok(u[k - 1] as int, v[k - 1] as int) {
                    if fx_add_ok(s, fx_mul_v(u[k - 1] as int, v[k - 1] as int)) {
                        Some(s + fx_mul_v(u[k - 1] as int, v[k - 1] as int))
                    } else {
                        None
                    }
                } else {
                    None
                }
            },
        }
    }
}

/// Once the accumulation has failed it stays failed.
proof fn lemma_dot_none(u: Seq<i128>, v: Seq<i128>, k1: nat, k2: nat)
    requires
        dot_v(u, v, k1) is None,
        k1 <= k2,
    ensures
        dot_v(u, v, k2) is None,
    decreases k2,
{
    if k2 > k1 {
        lemma_dot_none(u, v, k1, (k2 - 1) as nat);
    }
}

/// Dot product of two equal-length vectors.  Succeeds exactly when the
/// guarded accumulation does, and then returns its value.
pub fn dot(u: &Vec<i128>, v: &Vec<i128>) -> (r: Result<i128, GpError>)
    requires
        u@.len() == v@.len(),
    ensures
        match r {
            Ok(s) => dot_v(u@, v@, u@.len() as nat) == Some(s as int) && fx_fits(s as int),
            Err(e) => e == GpError::NumericalInstability && dot_v(u@, v@, u@.len() as nat) is None,
        },
{
    let n: usize = u.len();
    let mut s: i128 = 0;
    let mut t: usize = 0;
    while t < n
        invariant
            u@.len() == n,
            v@.len() == n,
            t <= n,
            fx_fits(s as int),
            dot_v(u@, v@, t as nat) == Some(s as int),
        decreases n - t,
    {
        let p: i128 = match fx_mul(u[t], v[t]) {
            Some(p) => p,
            None => {
                proof {
                    lemma_dot_none(u@, v@, (t + 1) as nat, n as nat);
                }
                return Err(GpError::NumericalInstability);
            },
        };
        s = match fx_add(s, p) {
            Some(v2) => v2,
            None => {
                proof {
                    lemma_dot_none(u@, v@, (t + 1) as nat, n as nat);
                }
                return Err(GpError::NumericalInstability);
            },
        };
        t = t + 1;
    }
    Ok(s)
}

} // verus!
