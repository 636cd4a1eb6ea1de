//! Damped Gauss-Newton / Levenberg-Marquardt step for the linear
//! least-squares model `f(x) = A*x - b` with Jacobian `J = k*A`.
//!
//! One call performs a single Newton step with backtracking line search:
//! form the normal-equations matrix `D = J^t*J + beta*I`, invert it exactly,
//! walk along the descent direction, and accept the first step scale that
//! strictly reduces the squared residual norm; if the scale falls below
//! `1/1000` the input vector is returned unchanged.
//!
//! See <https://en.wikipedia.org/wiki/Gauss%E2%80%93Newton_algorithm>
//! and <https://en.wikipedia.org/wiki/Levenberg%E2%80%93Marquardt_algorithm>.

use crate::matrix::{
    dot_acc, dot_ok, lemma_dot_acc, lemma_mat_view_wf, lemma_racc, lemma_vec_view_wf, mat_col,
    mat_transpose, q_dot, q_sumsq, racc, rok, MatError, SMatrix, SVector,
};
use crate::rat::{
    lemma_q_add_wf, lemma_q_eq_trans, lemma_q_lt_congr, lemma_q_mul_congr,
    lemma_q_norm, lemma_q_sub_congr, q_add, q_div, q_eq, q_lt, q_make, q_mul, q_neg, q_norm, q_ok,
    q_one,
    q_sub, q_wf, q_zero, Qv, Rat,
};
use vstd::prelude::*;

verus! {

/// The ideal residual `A*x - b`, entry by entry.
pub open spec fn q_res(a: Seq<Seq<Qv>>, b: Seq<Qv>, x: Seq<Qv>, m: int, n: int) -> Seq<Qv> {
    Seq::new(m as nat, |i: int| q_sub(q_dot(a[i], x, n), b[i]))
}

/// The ideal squared residual norm: the objective the solver decreases.
pub open spec fn q_err(a: Seq<Seq<Qv>>, b: Seq<Qv>, x: Seq<Qv>, m: int, n: int) -> Qv {
    q_sumsq(q_res(a, b, x, m, n), m)
}

/// The residual as the executable code computes it: each entry the reduced
/// dot product of a row with `x`, minus the bias entry, reduced again.
pub open spec fn res_acc(a: Seq<Seq<Qv>>, b: Seq<Qv>, x: Seq<Qv>, m: int, n: int) -> Seq<Qv> {
    Seq::new(m as nat, |i: int| q_norm(q_sub(dot_acc(a[i], x, n), b[i])))
}

/// Every reduced intermediate of the residual computation fits 64 bits.
pub open spec fn res_ok(a: Seq<Seq<Qv>>, b: Seq<Qv>, x: Seq<Qv>, m: int, n: int) -> bool {
    &&& (forall|i: int| 0 <= i < m ==> #[trigger] dot_ok(a[i], x, n))
    &&& (forall|i: int| 0 <= i < m ==> q_ok(#[trigger] q_sub(dot_acc(a[i], x, n), b[i])))
}

/// The squared residual norm as the executable code computes it.
pub open spec fn err_acc(a: Seq<Seq<Qv>>, b: Seq<Qv>, x: Seq<Qv>, m: int, n: int) -> Qv {
    racc(res_acc(a, b, x, m, n), m, q_zero())
}

/// Every reduced intermediate of the squared residual norm fits 64 bits.
pub open spec fn err_ok(a: Seq<Seq<Qv>>, b: Seq<Qv>, x: Seq<Qv>, m: int, n: int) -> bool {
    res_ok(a, b, x, m, n) && rok(res_acc(a, b, x, m, n), m, q_zero())
}

/// Entries of the ideal residual are well-formed.
pub proof fn lemma_q_res_wf(a: Seq<Seq<Qv>>, b: Seq<Qv>, x: Seq<Qv>, m: int, n: int)
    requires
        forall|i: int, j: int| 0 <= i < m && 0 <= j < n ==> q_wf(#[trigger] a[i][j]),
        forall|i: int| 0 <= i < m ==> q_wf(#[trigger] b[i]),
        forall|j: int| 0 <= j < n ==> q_wf(#[trigger] x[j]),
        0 <= m,
        0 <= n,
    ensures
        forall|i: int| 0 <= i < m ==> q_wf(#[trigger] q_res(a, b, x, m, n)[i]),
        q_wf(q_err(a, b, x, m, n)),
{
    assert forall|i: int| 0 <= i < m implies q_wf(#[trigger] q_res(a, b, x, m, n)[i]) by {
        assert(forall|j: int| 0 <= j < n ==> q_wf(#[trigger] a[i][j]));
        lemma_dot_acc(a[i], x, n);
        lemma_q_add_wf(q_dot(a[i], x, n), q_neg(b[i]));
    }
    lemma_racc(q_res(a, b, x, m, n), m, q_zero());
}

/// Sums of squares respect `q_eq`, entry by entry.
pub proof fn lemma_q_sumsq_congr(s1: Seq<Qv>, s2: Seq<Qv>, k: int)
    requires
        forall|j: int| 0 <= j < k ==> q_wf(#[trigger] s1[j]),
        forall|j: int| 0 <= j < k ==> q_wf(#[trigger] s2[j]),
        forall|j: int| 0 <= j < k ==> q_eq(#[trigger] s1[j], s2[j]),
    ensures
        q_eq(q_sumsq(s1, k), q_sumsq(s2, k)),
        q_wf(q_sumsq(s1, k)),
        q_wf(q_sumsq(s2, k)),
    decreases k,
{
    if k <= 0 {
    } else {
        lemma_q_sumsq_congr(s1, s2, k - 1);
        lemma_q_mul_congr(s1[k - 1], s2[k - 1], s1[k - 1], s2[k - 1]);
        crate::rat::lemma_q_add_congr(
            q_sumsq(s1, k - 1),
            q_sumsq(s2, k - 1),
            q_mul(s1[k - 1], s1[k - 1]),
            q_mul(s2[k - 1], s2[k - 1]),
        );
        lemma_q_add_wf(s1[k - 1], s1[k - 1]);
        lemma_q_add_wf(s2[k - 1], s2[k - 1]);
        lemma_q_add_wf(q_sumsq(s1, k - 1), q_mul(s1[k - 1], s1[k - 1]));
        lemma_q_add_wf(q_sumsq(s2, k - 1), q_mul(s2[k - 1], s2[k - 1]));
    }
}

/// The residual `f(x) = A*x - b` of the linear model.
pub fn residual<const M: usize, const N: usize>(
    equation: &SMatrix<M, N>,
    bias: &SVector<M>,
    x: &SVector<N>,
) -> (r: Result<SVector<M>, MatError>)
    requires
        equation.wf(),
        bias.wf(),
        x.wf(),
    ensures
        r matches Ok(v) ==> v.wf(),
        r matches Ok(v) ==> forall|i: int|
            0 <= i < M ==> q_eq(
                #[trigger] v@[i],
                q_res(equation@, bias@, x@, M as int, N as int)[i],
            ),
        r matches Ok(v) ==> v@ == res_acc(equation@, bias@, x@, M as int, N as int),
        r is Ok <==> res_ok(equation@, bias@, x@, M as int, N as int),
        r matches Err(e) ==> e == MatError::Overflow,
    {
    let ax = match equation.mul(x) {
        Ok(ax) => ax,
        Err(e) => {
            return Err(e);
        },
    };
    let v = match ax.sub(bias) {
        Ok(v) => v,
        Err(e) => {
            proof {
                assert(!(forall|i: int|
                    0 <= i < M ==> q_ok(
                        #[trigger] q_sub(dot_acc(equation@[i], x@, N as int), bias@[i]),
                    ))) by {
                    let w = choose|i: int|
                        0 <= i < M && !q_ok(#[trigger] q_sub(ax@[i], bias@[i]));
                    assert(ax@[w] == dot_acc(equation@[w], x@, N as int));
                    assert(!q_ok(q_sub(dot_acc(equation@[w], x@, N as int), bias@[w])));
                }
            }
            return Err(e);
        },
    };
    proof {
        assert forall|i: int| 0 <= i < M implies #[trigger] v@[i] == res_acc(
            equation@,
            bias@,
            x@,
            M as int,
            N as int,
        )[i] by {
            assert(ax@[i] == dot_acc(equation@[i], x@, N as int));
        }
        assert(v@ =~~= res_acc(equation@, bias@, x@, M as int, N as int));
        assert forall|i: int| 0 <= i < M implies q_ok(
            #[trigger] q_sub(dot_acc(equation@[i], x@, N as int), bias@[i]),
        ) by {
            assert(ax@[i] == dot_acc(equation@[i], x@, N as int));
            assert(q_ok(q_sub(ax@[i], bias@[i])));
        }
        assert forall|i: int| 0 <= i < M implies q_eq(
            #[trigger] v@[i],
            q_res(equation@, bias@, x@, M as int, N as int)[i],
        ) by {
            assert(forall|j: int| 0 <= j < N ==> q_wf(#[trigger] equation@[i][j]));
            lemma_dot_acc(equation@[i], x@, N as int);
            // v[i] ~ ax[i] - b[i] ~ dot - b[i]
            lemma_q_sub_congr(ax@[i], q_dot(equation@[i], x@, N as int), bias@[i], bias@[i]);
            lemma_q_add_wf(ax@[i], q_neg(bias@[i]));
            lemma_q_eq_trans(
                v@[i],
                q_sub(ax@[i], bias@[i]),
                q_sub(q_dot(equation@[i], x@, N as int), bias@[i]),
            );
        }
    }
    Ok(v)
}

/// The Jacobian of the model: the constant matrix `k*A` (the model is
/// linear, so it does not depend on `x`).
pub fn jacobian<const M: usize, const N: usize>(
    equation: &SMatrix<M, N>,
    jscale: &Rat,
) -> (r: Result<SMatrix<M, N>, MatError>)
    requires
        equation.wf(),
        jscale.wf(),
    ensures
        r matches Ok(j) ==> j.wf(),
        r matches Ok(j) ==> forall|i: int, c: int|
            0 <= i < M && 0 <= c < N ==> q_eq(#[trigger] j@[i][c], q_mul(jscale@, equation@[i][c])),
        r matches Ok(j) ==> j@ == scale_acc(jscale@, equation@, M as int, N as int),
        r is Ok <==> scale_ok(jscale@, equation@, M as int, N as int),
        r matches Err(e) ==> e == MatError::Overflow,
{
    match equation.scale(jscale) {
        Ok(jm) => {
            proof {
                assert(jm@ =~~= scale_acc(jscale@, equation@, M as int, N as int));
            }
            Ok(jm)
        },
        Err(e) => Err(e),
    }
}

/// The objective `d(x) = |f(x)|^2`: the squared norm of the residual.
pub fn objective<const M: usize, const N: usize>(
    equation: &SMatrix<M, N>,
    bias: &SVector<M>,
    x: &SVector<N>,
) -> (r: Result<Rat, MatError>)
    requires
        equation.wf(),
        bias.wf(),
        x.wf(),
    ensures
        r matches Ok(v) ==> v.wf() && q_eq(v@, q_err(equation@, bias@, x@, M as int, N as int)),
        r matches Ok(v) ==> v@ == err_acc(equation@, bias@, x@, M as int, N as int),
        r is Ok <==> err_ok(equation@, bias@, x@, M as int, N as int),
        r matches Err(e) ==> e == MatError::Overflow,
{
    let f_x = match residual(equation, bias, x) {
        Ok(f_x) => f_x,
        Err(e) => {
            return Err(e);
        },
    };
    let e = match f_x.norm_squared() {
        Ok(e) => e,
        Err(_) => {
            return Err(MatError::Overflow);
        },
    };
    proof {
        lemma_q_res_wf(equation@, bias@, x@, M as int, N as int);
        lemma_q_sumsq_congr(f_x@, q_res(equation@, bias@, x@, M as int, N as int), M as int);
        lemma_q_eq_trans(
            e@,
            q_sumsq(f_x@, M as int),
            q_err(equation@, bias@, x@, M as int, N as int),
        );
    }
    Ok(e)
}

/// The identity matrix view.
pub open spec fn identity_mat(n: int) -> Seq<Seq<Qv>> {
    Seq::new(
        n as nat,
        |i: int|
            Seq::new(
                n as nat,
                |j: int|
                    if i == j {
                        q_one()
                    } else {
                        q_zero()
                    },
            ),
    )
}

/// Outcome of the mirrored Gauss-Jordan elimination: the two work matrices
/// after the processed columns, a column without a pivot, or an intermediate
/// value outside the 64-bit range.
pub ghost enum GjState {
    Go { a: Seq<Seq<Qv>>, inv: Seq<Seq<Qv>> },
    Singular,
    Overflow,
}

/// First row at or below `r` with a nonzero entry in column `col`.
pub open spec fn find_pivot(a: Seq<Seq<Qv>>, col: int, r: int, n: int) -> Option<int>
    decreases n - r
        when r <= n
{
    if r >= n {
        None
    } else if a[r][col].num != 0 {
        Some(r)
    } else {
        find_pivot(a, col, r + 1, n)
    }
}

pub open spec fn swap_rows(m: Seq<Seq<Qv>>, i: int, j: int) -> Seq<Seq<Qv>> {
    m.update(i, m[j]).update(j, m[i])
}

/// A row divided entry by entry by the pivot `p`, reduced.
pub open spec fn div_row(s: Seq<Qv>, p: Qv, n: int) -> Seq<Qv> {
    Seq::new(n as nat, |j: int| q_norm(q_div(s[j], p)))
}

pub open spec fn div_row_ok(s: Seq<Qv>, p: Qv, n: int) -> bool {
    forall|j: int| 0 <= j < n ==> q_ok(#[trigger] q_div(s[j], p))
}

/// A row with `f` times the pivot row subtracted, entry by entry, reduced
/// after the multiplication and again after the subtraction.
pub open spec fn elim_row(s: Seq<Qv>, prow: Seq<Qv>, f: Qv, n: int) -> Seq<Qv> {
    Seq::new(n as nat, |j: int| q_norm(q_sub(s[j], q_norm(q_mul(f, prow[j])))))
}

pub open spec fn elim_row_ok(s: Seq<Qv>, prow: Seq<Qv>, f: Qv, n: int) -> bool {
    &&& (forall|j: int| 0 <= j < n ==> q_ok(#[trigger] q_mul(f, prow[j])))
    &&& (forall|j: int| 0 <= j < n ==> q_ok(#[trigger] q_sub(s[j], q_norm(q_mul(f, prow[j])))))
}

/// Clears column `col` of `m` outside the pivot row; the factors come from
/// column `col` of `fac` (the eliminated matrix itself for the left work
/// matrix, and the same factors again for its companion).
pub open spec fn elim_mat(m: Seq<Seq<Qv>>, fac: Seq<Seq<Qv>>, col: int, n: int) -> Seq<Seq<Qv>> {
    Seq::new(
        m.len(),
        |r: int|
            if r == col || fac[r][col].num == 0 {
                m[r]
            } else {
                elim_row(m[r], m[col], fac[r][col], n)
            },
    )
}

pub open spec fn elim_mat_ok(m: Seq<Seq<Qv>>, fac: Seq<Seq<Qv>>, col: int, n: int) -> bool {
    forall|r: int|
        0 <= r < n && r != col && fac[r][col].num != 0 ==> #[trigger] elim_row_ok(
            m[r],
            m[col],
            fac[r][col],
            n,
        )
}

/// One column of the mirrored elimination: pivot search, swap into place,
/// scale the pivot row, clear the column elsewhere.
pub open spec fn gj_col_step(a: Seq<Seq<Qv>>, inv: Seq<Seq<Qv>>, col: int, n: int) -> GjState {
    match find_pivot(a, col, col, n) {
        None => GjState::Singular,
        Some(piv) => {
            let a1 = if piv == col {
                a
            } else {
                swap_rows(a, col, piv)
            };
            let i1 = if piv == col {
                inv
            } else {
                swap_rows(inv, col, piv)
            };
            let p = a1[col][col];
            if !div_row_ok(a1[col], p, n) || !div_row_ok(i1[col], p, n) {
                GjState::Overflow
            } else {
                let a2 = a1.update(col, div_row(a1[col], p, n));
                let i2 = i1.update(col, div_row(i1[col], p, n));
                if !elim_mat_ok(a2, a2, col, n) || !elim_mat_ok(i2, a2, col, n) {
                    GjState::Overflow
                } else {
                    GjState::Go { a: elim_mat(a2, a2, col, n), inv: elim_mat(i2, a2, col, n) }
                }
            }
        },
    }
}

/// The mirrored elimination over the columns from `col` on.
pub open spec fn gj_run(a: Seq<Seq<Qv>>, inv: Seq<Seq<Qv>>, col: int, n: int) -> GjState
    decreases n - col
        when col <= n
{
    if col >= n {
        GjState::Go { a, inv }
    } else {
        match gj_col_step(a, inv, col, n) {
            GjState::Go { a: a2, inv: i2 } => gj_run(a2, i2, col + 1, n),
            GjState::Singular => GjState::Singular,
            GjState::Overflow => GjState::Overflow,
        }
    }
}

/// Matrix product as the executable code computes it.
pub open spec fn matmul_acc(x: Seq<Seq<Qv>>, y: Seq<Seq<Qv>>, inner: int, cols: int) -> Seq<
    Seq<Qv>,
> {
    Seq::new(x.len(), |i: int| Seq::new(cols as nat, |j: int| dot_acc(x[i], mat_col(y, j), inner)))
}

pub open spec fn matmul_ok(x: Seq<Seq<Qv>>, y: Seq<Seq<Qv>>, inner: int, cols: int) -> bool {
    forall|i: int, j: int|
        0 <= i < x.len() && 0 <= j < cols ==> #[trigger] dot_ok(x[i], mat_col(y, j), inner)
}

/// Every entry equals the identity's, as a rational value.
pub open spec fn is_ident(m: Seq<Seq<Qv>>, n: int) -> bool {
    forall|i: int, j: int|
        0 <= i < n && 0 <= j < n ==> q_eq(
            #[trigger] m[i][j],
            if i == j {
                q_one()
            } else {
                q_zero()
            },
        )
}

/// Outcome of the mirrored exact inversion: the elimination followed by the
/// multiply-back check of the candidate.
pub ghost enum InvOut {
    Inverse { inv: Seq<Seq<Qv>> },
    Singular,
    Overflow,
}

/// The exact inversion as the executable code computes it: Gauss-Jordan
/// elimination, then both products with the input, checked against the
/// identity.
pub open spec fn invert_spec(d: Seq<Seq<Qv>>, n: int) -> InvOut {
    match gj_run(d, identity_mat(n), 0, n) {
        GjState::Singular => InvOut::Singular,
        GjState::Overflow => InvOut::Overflow,
        GjState::Go { a: _, inv: c } => {
            if !matmul_ok(d, c, n, n) || !matmul_ok(c, d, n, n) {
                InvOut::Overflow
            } else if !is_ident(matmul_acc(d, c, n, n), n) || !is_ident(matmul_acc(c, d, n, n), n) {
                InvOut::Singular
            } else {
                InvOut::Inverse { inv: c }
            }
        },
    }
}

/// Outcome of the mirrored solver step: an accepted point, the unchanged
/// input after an exhausted line search, a singular normal-equations matrix,
/// or an intermediate value outside the 64-bit range.
pub ghost enum StepOut {
    Took { x: Seq<Qv> },
    Stalled,
    Singular,
    Overflow,
}

/// A matrix scaled entry by entry, as the executable code computes it.
pub open spec fn scale_acc(k: Qv, m: Seq<Seq<Qv>>, rows: int, cols: int) -> Seq<Seq<Qv>> {
    Seq::new(rows as nat, |i: int| Seq::new(cols as nat, |j: int| q_norm(q_mul(k, m[i][j]))))
}

pub open spec fn scale_ok(k: Qv, m: Seq<Seq<Qv>>, rows: int, cols: int) -> bool {
    forall|i: int, j: int| 0 <= i < rows && 0 <= j < cols ==> q_ok(#[trigger] q_mul(k, m[i][j]))
}

/// An entry-wise matrix sum, as the executable code computes it.
pub open spec fn madd_acc(x: Seq<Seq<Qv>>, y: Seq<Seq<Qv>>, rows: int, cols: int) -> Seq<
    Seq<Qv>,
> {
    Seq::new(rows as nat, |i: int| Seq::new(cols as nat, |j: int| q_norm(q_add(x[i][j], y[i][j]))))
}

pub open spec fn madd_ok(x: Seq<Seq<Qv>>, y: Seq<Seq<Qv>>, rows: int, cols: int) -> bool {
    forall|i: int, j: int|
        0 <= i < rows && 0 <= j < cols ==> q_ok(#[trigger] q_add(x[i][j], y[i][j]))
}

/// A matrix-vector product, as the executable code computes it.
pub open spec fn mulvec_acc(m: Seq<Seq<Qv>>, x: Seq<Qv>, rows: int, inner: int) -> Seq<Qv> {
    Seq::new(rows as nat, |i: int| dot_acc(m[i], x, inner))
}

pub open spec fn mulvec_ok(m: Seq<Seq<Qv>>, x: Seq<Qv>, rows: int, inner: int) -> bool {
    forall|i: int| 0 <= i < rows ==> #[trigger] dot_ok(m[i], x, inner)
}

/// The backtracking line search, as the executable code computes it: the
/// step scale is `1/den`, halved by doubling `den`, the first scale whose
/// point strictly decreases the squared residual norm is taken, and the
/// floor `1/1000` ends the search with the input unchanged.
pub open spec fn ls_run(
    a: Seq<Seq<Qv>>,
    b: Seq<Qv>,
    x0: Seq<Qv>,
    dv: Seq<Qv>,
    e0: Qv,
    den: int,
    m: int,
    n: int,
) -> StepOut
    decreases 1001 - den
        when 1 <= den <= 1000
{
    let alpha = q_make(1, den);
    if !(forall|i: int| 0 <= i < n ==> q_ok(#[trigger] q_mul(alpha, dv[i]))) {
        StepOut::Overflow
    } else {
        let st = Seq::new(n as nat, |i: int| q_norm(q_mul(alpha, dv[i])));
        if !(forall|i: int| 0 <= i < n ==> q_ok(#[trigger] q_add(x0[i], st[i]))) {
            StepOut::Overflow
        } else {
            let x1 = Seq::new(n as nat, |i: int| q_norm(q_add(x0[i], st[i])));
            if !err_ok(a, b, x1, m, n) {
                StepOut::Overflow
            } else if q_lt(err_acc(a, b, x1, m, n), e0) {
                StepOut::Took { x: x1 }
            } else if 2 * den > 1000 {
                StepOut::Stalled
            } else {
                ls_run(a, b, x0, dv, e0, 2 * den, m, n)
            }
        }
    }
}

/// The whole damped Gauss-Newton step, as the executable code computes it:
/// Jacobian, normal-equations matrix, exact inverse, descent direction, and
/// backtracking line search, in that order, each stage checked for 64-bit
/// representability.
pub open spec fn gn_spec(
    a: Seq<Seq<Qv>>,
    b: Seq<Qv>,
    x0: Seq<Qv>,
    beta: Qv,
    k: Qv,
    m: int,
    n: int,
) -> StepOut {
    if !scale_ok(k, a, m, n) {
        StepOut::Overflow
    } else {
        let jm = scale_acc(k, a, m, n);
        let jt = mat_transpose(jm, m, n);
        if !scale_ok(beta, identity_mat(n), n, n) {
            StepOut::Overflow
        } else {
            let damp = scale_acc(beta, identity_mat(n), n, n);
            if !matmul_ok(jt, jm, m, n) {
                StepOut::Overflow
            } else {
                let jtj = matmul_acc(jt, jm, m, n);
                if !madd_ok(jtj, damp, n, n) {
                    StepOut::Overflow
                } else {
                    let dmat = madd_acc(jtj, damp, n, n);
                    match invert_spec(dmat, n) {
                        InvOut::Singular => StepOut::Singular,
                        InvOut::Overflow => StepOut::Overflow,
                        InvOut::Inverse { inv: dinv } => {
                            if !res_ok(a, b, x0, m, n) {
                                StepOut::Overflow
                            } else {
                                let fv = res_acc(a, b, x0, m, n);
                                if !rok(fv, m, q_zero()) {
                                    StepOut::Overflow
                                } else {
                                    let e0 = racc(fv, m, q_zero());
                                    if !mulvec_ok(jt, fv, n, m) {
                                        StepOut::Overflow
                                    } else {
                                        let jtf = mulvec_acc(jt, fv, n, m);
                                        if !mulvec_ok(dinv, jtf, n, n) {
                                            StepOut::Overflow
                                        } else {
                                            let dv = Seq::new(
                                                n as nat,
                                                |i: int| q_neg(dot_acc(dinv[i], jtf, n)),
                                            );
                                            ls_run(a, b, x0, dv, e0, 1, m, n)
                                        }
                                    }
                                }
                            }
                        },
                    }
                }
            }
        }
    }
}

/// The identity matrix.
pub fn identity<const N: usize>() -> (m: SMatrix<N, N>)
    ensures
        m.wf(),
        forall|i: int, j: int|
            0 <= i < N && 0 <= j < N ==> #[trigger] m@[i][j] == (if i == j {
                q_one()
            } else {
                q_zero()
            }),
{
    let mut m = SMatrix::<N, N>::zeros();
    let one = Rat::one();
    let mut i: usize = 0;
    while i < N
        invariant
            i <= N,
            m.wf(),
            one.wf(),
            one@ == q_one(),
            forall|a: int, b: int|
                0 <= a < N && 0 <= b < N ==> #[trigger] m@[a][b] == (if a == b && a < i {
                    q_one()
                } else {
                    q_zero()
                }),
        decreases N - i,
    {
        m.set(i, i, one);
        i = i + 1;
    }
    m
}

/// True exactly when `m` is the identity matrix, entry by entry.
fn is_identity<const N: usize>(m: &SMatrix<N, N>) -> (r: bool)
    requires
        m.wf(),
    ensures
        r <==> (forall|i: int, j: int|
            0 <= i < N && 0 <= j < N ==> q_eq(
                #[trigger] m@[i][j],
                if i == j {
                    q_one()
                } else {
                    q_zero()
                },
            )),
{
    let one = Rat::one();
    let zero = Rat::zero();
    let mut i: usize = 0;
    while i < N
        invariant
            i <= N,
            m.wf(),
            one.wf(),
            zero.wf(),
            one@ == q_one(),
            zero@ == q_zero(),
            forall|a: int, b: int|
                0 <= a < i && 0 <= b < N ==> q_eq(
                    #[trigger] m@[a][b],
                    if a == b {
                        q_one()
                    } else {
                        q_zero()
                    },
                ),
        decreases N - i,
    {
        let mut j: usize = 0;
        while j < N
            invariant
                j <= N,
                i < N,
                m.wf(),
                one.wf(),
                zero.wf(),
                one@ == q_one(),
                zero@ == q_zero(),
                forall|b: int|
                    0 <= b < j ==> q_eq(
                        #[trigger] m@[i as int][b],
                        if i as int == b {
                            q_one()
                        } else {
                            q_zero()
                        },
                    ),
            decreases N - j,
        {
            let expected = if i == j {
                &one
            } else {
                &zero
            };
            if !m.get(i, j).eq_rat(expected) {
                return false;
            }
            j = j + 1;
        }
        i = i + 1;
    }
    true
}

/// Exact inverse of a square matrix by Gauss-Jordan elimination over the
/// rationals. The candidate is checked by multiplying back: on `Ok` both
/// products with the input are the identity, exactly — so every success is
/// proved to deliver a two-sided inverse. The whole computation is pinned by
/// the mirrored specification [`invert_spec`]: `SingularMatrix` is reported
/// exactly when the mirror finds no nonzero pivot or refutes the candidate
/// (algorithmically that is the singular case, though the contract states it
/// through the mirror, not through non-invertibility); `Overflow` exactly
/// when the mirror meets a reduced intermediate outside the 64-bit range.
pub fn invert_exact<const N: usize>(d: &SMatrix<N, N>) -> (r: Result<SMatrix<N, N>, MatError>)
    requires
        d.wf(),
    ensures
        r matches Ok(inv) ==> inv.wf(),
        r matches Ok(inv) ==> forall|i: int, j: int|
            0 <= i < N && 0 <= j < N ==> q_eq(
                #[trigger] q_dot(d@[i], mat_col(inv@, j), N as int),
                if i == j {
                    q_one()
                } else {
                    q_zero()
                },
            ),
        r matches Ok(inv) ==> forall|i: int, j: int|
            0 <= i < N && 0 <= j < N ==> q_eq(
                #[trigger] q_dot(inv@[i], mat_col(d@, j), N as int),
                if i == j {
                    q_one()
                } else {
                    q_zero()
                },
            ),
        r is Ok <==> invert_spec(d@, N as int) is Inverse,
        r matches Ok(c) ==> (invert_spec(d@, N as int) matches InvOut::Inverse { inv: iv } && iv
            == c@),
        r matches Err(e) ==> (e == MatError::SingularMatrix <==> invert_spec(
            d@,
            N as int,
        ) is Singular),
        r matches Err(e) ==> (e == MatError::Overflow <==> invert_spec(d@, N as int) is Overflow),
{
    let cand = match gauss_jordan(d) {
        Ok(cand) => cand,
        Err(e) => {
            return Err(e);
        },
    };
    let p1 = match d.matmul(&cand) {
        Ok(p) => p,
        Err(_) => {
            proof {
                assert(!matmul_ok(d@, cand@, N as int, N as int));
            }
            return Err(MatError::Overflow);
        },
    };
    let p2 = match cand.matmul(d) {
        Ok(p) => p,
        Err(_) => {
            proof {
                assert(!matmul_ok(cand@, d@, N as int, N as int));
            }
            return Err(MatError::Overflow);
        },
    };
    proof {
        assert(matmul_ok(d@, cand@, N as int, N as int));
        assert(matmul_ok(cand@, d@, N as int, N as int));
        assert(p1@ =~~= matmul_acc(d@, cand@, N as int, N as int));
        assert(p2@ =~~= matmul_acc(cand@, d@, N as int, N as int));
    }
    if !is_identity(&p1) || !is_identity(&p2) {
        proof {
            assert(!is_ident(matmul_acc(d@, cand@, N as int, N as int), N as int) || !is_ident(
                matmul_acc(cand@, d@, N as int, N as int),
                N as int,
            ));
        }
        return Err(MatError::SingularMatrix);
    }
    proof {
        assert(is_ident(matmul_acc(d@, cand@, N as int, N as int), N as int));
        assert(is_ident(matmul_acc(cand@, d@, N as int, N as int), N as int));
        assert(invert_spec(d@, N as int) == (InvOut::Inverse { inv: cand@ }));
        lemma_mat_view_wf(&p1);
        lemma_mat_view_wf(&p2);
        assert forall|i: int, j: int| 0 <= i < N && 0 <= j < N implies q_eq(
            #[trigger] q_dot(d@[i], mat_col(cand@, j), N as int),
            if i == j {
                q_one()
            } else {
                q_zero()
            },
        ) by {
            lemma_q_eq_trans(
                q_dot(d@[i], mat_col(cand@, j), N as int),
                p1@[i][j],
                if i == j {
                    q_one()
                } else {
                    q_zero()
                },
            );
        }
        assert forall|i: int, j: int| 0 <= i < N && 0 <= j < N implies q_eq(
            #[trigger] q_dot(cand@[i], mat_col(d@, j), N as int),
            if i == j {
                q_one()
            } else {
                q_zero()
            },
        ) by {
            lemma_q_eq_trans(
                q_dot(cand@[i], mat_col(d@, j), N as int),
                p2@[i][j],
                if i == j {
                    q_one()
                } else {
                    q_zero()
                },
            );
        }
    }
    Ok(cand)
}

/// Gauss-Jordan elimination: row-reduces a copy of `d` to the identity while
/// applying the same row operations to an identity matrix, which then holds
/// the inverse candidate. The outcome — candidate, missing pivot, or
/// overflow — is pinned exactly by the mirrored specification [`gj_run`];
/// the caller additionally checks the candidate by multiplying back.
fn gauss_jordan<const N: usize>(d: &SMatrix<N, N>) -> (r: Result<SMatrix<N, N>, MatError>)
    requires
        d.wf(),
    ensures
        r matches Ok(c) ==> c.wf(),
        r is Ok <==> gj_run(d@, identity_mat(N as int), 0, N as int) is Go,
        r matches Ok(c) ==> (gj_run(d@, identity_mat(N as int), 0, N as int) matches GjState::Go {
            a: _,
            inv: iv,
        } && iv == c@),
        r matches Err(e) ==> (e == MatError::SingularMatrix <==> gj_run(
            d@,
            identity_mat(N as int),
            0,
            N as int,
        ) is Singular),
        r matches Err(e) ==> (e == MatError::Overflow <==> gj_run(
            d@,
            identity_mat(N as int),
            0,
            N as int,
        ) is Overflow),
{
    let mut a = SMatrix::<N, N>::zeros();
    let mut inv = SMatrix::<N, N>::zeros();
    let one = Rat::one();
    let mut i: usize = 0;
    while i < N
        invariant
            i <= N,
            d.wf(),
            a.wf(),
            inv.wf(),
            one.wf(),
            one@ == q_one(),
            forall|r2: int, c2: int|
                0 <= r2 < N && 0 <= c2 < N ==> #[trigger] a@[r2][c2] == (if r2 < i {
                    d@[r2][c2]
                } else {
                    q_zero()
                }),
            forall|r2: int, c2: int|
                0 <= r2 < N && 0 <= c2 < N ==> #[trigger] inv@[r2][c2] == (if r2 < i && r2 == c2 {
                    q_one()
                } else {
                    q_zero()
                }),
        decreases N - i,
    {
        let mut j: usize = 0;
        while j < N
            invariant
                j <= N,
                i < N,
                d.wf(),
                a.wf(),
                inv.wf(),
                one.wf(),
                one@ == q_one(),
                forall|r2: int, c2: int|
                    0 <= r2 < N && 0 <= c2 < N && r2 != i ==> #[trigger] a@[r2][c2] == (if r2 < i {
                        d@[r2][c2]
                    } else {
                        q_zero()
                    }),
                forall|r2: int, c2: int|
                    0 <= r2 < N && 0 <= c2 < N && r2 != i ==> #[trigger] inv@[r2][c2] == (if r2 < i
                        && r2 == c2 {
                        q_one()
                    } else {
                        q_zero()
                    }),
                forall|c2: int|
                    0 <= c2 < N ==> #[trigger] a@[i as int][c2] == (if c2 < j {
                        d@[i as int][c2]
                    } else {
                        q_zero()
                    }),
                forall|c2: int|
                    0 <= c2 < N ==> #[trigger] inv@[i as int][c2] == (if c2 == i && c2 < j {
                        q_one()
                    } else {
                        q_zero()
                    }),
            decreases N - j,
        {
            a.set(i, j, d.get(i, j));
            if i == j {
                inv.set(i, j, one);
            }
            j = j + 1;
        }
        i = i + 1;
    }
    proof {
        assert(a@ =~~= d@);
        assert(inv@ =~~= identity_mat(N as int));
    }
    let ghost goal = gj_run(d@, identity_mat(N as int), 0, N as int);
    let mut col: usize = 0;
    while col < N
        invariant
            col <= N,
            a.wf(),
            inv.wf(),
            goal == gj_run(d@, identity_mat(N as int), 0, N as int),
            goal == gj_run(a@, inv@, col as int, N as int),
        decreases N - col,
    {
        let ghost a0 = a@;
        let ghost inv0 = inv@;
        // Find a row with a nonzero entry in this column.
        let mut piv: usize = col;
        let mut found = false;
        let mut r: usize = col;
        while r < N
            invariant
                col <= r <= N,
                col < N,
                a.wf(),
                a@ == a0,
                found ==> col <= piv < N,
                found ==> a0[piv as int][col as int].num != 0,
                found ==> find_pivot(a0, col as int, col as int, N as int) == Some(piv as int),
                !found ==> find_pivot(a0, col as int, col as int, N as int) == find_pivot(
                    a0,
                    col as int,
                    r as int,
                    N as int,
                ),
            decreases N - r,
        {
            if !found && !a.get(r, col).is_zero() {
                piv = r;
                found = true;
            }
            r = r + 1;
        }
        if !found {
            proof {
                assert(find_pivot(a0, col as int, col as int, N as int) is None);
                assert(gj_col_step(a0, inv0, col as int, N as int) == GjState::Singular);
            }
            return Err(MatError::SingularMatrix);
        }
        // Swap the pivot row into place, in both matrices.
        if piv != col {
            let ghost a_s = a@;
            let ghost i_s = inv@;
            let mut j: usize = 0;
            while j < N
                invariant
                    j <= N,
                    col < N,
                    piv < N,
                    piv != col,
                    a.wf(),
                    inv.wf(),
                    forall|c2: int|
                        0 <= c2 < j ==> #[trigger] a@[col as int][c2] == a_s[piv as int][c2],
                    forall|c2: int|
                        0 <= c2 < j ==> #[trigger] a@[piv as int][c2] == a_s[col as int][c2],
                    forall|c2: int|
                        j <= c2 < N ==> #[trigger] a@[col as int][c2] == a_s[col as int][c2],
                    forall|c2: int|
                        j <= c2 < N ==> #[trigger] a@[piv as int][c2] == a_s[piv as int][c2],
                    forall|r2: int, c2: int|
                        0 <= r2 < N && 0 <= c2 < N && r2 != col && r2 != piv
                            ==> #[trigger] a@[r2][c2] == a_s[r2][c2],
                    forall|c2: int|
                        0 <= c2 < j ==> #[trigger] inv@[col as int][c2] == i_s[piv as int][c2],
                    forall|c2: int|
                        0 <= c2 < j ==> #[trigger] inv@[piv as int][c2] == i_s[col as int][c2],
                    forall|c2: int|
                        j <= c2 < N ==> #[trigger] inv@[col as int][c2] == i_s[col as int][c2],
                    forall|c2: int|
                        j <= c2 < N ==> #[trigger] inv@[piv as int][c2] == i_s[piv as int][c2],
                    forall|r2: int, c2: int|
                        0 <= r2 < N && 0 <= c2 < N && r2 != col && r2 != piv
                            ==> #[trigger] inv@[r2][c2] == i_s[r2][c2],
                decreases N - j,
            {
                let t = a.get(col, j);
                a.set(col, j, a.get(piv, j));
                a.set(piv, j, t);
                let t2 = inv.get(col, j);
                inv.set(col, j, inv.get(piv, j));
                inv.set(piv, j, t2);
                j = j + 1;
            }
            proof {
                assert(a@ =~~= swap_rows(a_s, col as int, piv as int));
                assert(inv@ =~~= swap_rows(i_s, col as int, piv as int));
            }
        }
        let ghost a1 = if piv as int == col as int {
            a0
        } else {
            swap_rows(a0, col as int, piv as int)
        };
        let ghost i1 = if piv as int == col as int {
            inv0
        } else {
            swap_rows(inv0, col as int, piv as int)
        };
        proof {
            assert(a@ == a1);
            assert(inv@ == i1);
        }
        // Scale the pivot row so the pivot becomes one.
        let p = a.get(col, col);
        let ghost pv = p@;
        proof {
            assert(pv == a1[col as int][col as int]);
            assert(pv.num != 0);
        }
        let mut j: usize = 0;
        while j < N
            invariant
                j <= N,
                col < N,
                piv < N,
                p.wf(),
                a.wf(),
                inv.wf(),
                p@ == pv,
                pv == a1[col as int][col as int],
                pv.num != 0,
                goal == gj_run(d@, identity_mat(N as int), 0, N as int),
                goal == gj_run(a0, inv0, col as int, N as int),
                a0.len() == N,
                inv0.len() == N,
                forall|r2: int| 0 <= r2 < N ==> (#[trigger] a0[r2]).len() == N,
                forall|r2: int| 0 <= r2 < N ==> (#[trigger] inv0[r2]).len() == N,
                find_pivot(a0, col as int, col as int, N as int) == Some(piv as int),
                a1 == (if piv as int == col as int {
                    a0
                } else {
                    swap_rows(a0, col as int, piv as int)
                }),
                i1 == (if piv as int == col as int {
                    inv0
                } else {
                    swap_rows(inv0, col as int, piv as int)
                }),
                forall|c2: int|
                    0 <= c2 < j ==> #[trigger] a@[col as int][c2] == div_row(
                        a1[col as int],
                        pv,
                        N as int,
                    )[c2],
                forall|c2: int| 0 <= c2 < j ==> q_ok(#[trigger] q_div(a1[col as int][c2], pv)),
                forall|c2: int|
                    j <= c2 < N ==> #[trigger] a@[col as int][c2] == a1[col as int][c2],
                forall|r2: int, c2: int|
                    0 <= r2 < N && 0 <= c2 < N && r2 != col ==> #[trigger] a@[r2][c2]
                        == a1[r2][c2],
                forall|c2: int|
                    0 <= c2 < j ==> #[trigger] inv@[col as int][c2] == div_row(
                        i1[col as int],
                        pv,
                        N as int,
                    )[c2],
                forall|c2: int| 0 <= c2 < j ==> q_ok(#[trigger] q_div(i1[col as int][c2], pv)),
                forall|c2: int|
                    j <= c2 < N ==> #[trigger] inv@[col as int][c2] == i1[col as int][c2],
                forall|r2: int, c2: int|
                    0 <= r2 < N && 0 <= c2 < N && r2 != col ==> #[trigger] inv@[r2][c2]
                        == i1[r2][c2],
            decreases N - j,
        {
            let na = match a.get(col, j).checked_div(&p) {
                Some(v) => v,
                None => {
                    proof {
                        assert(!q_ok(q_div(a1[col as int][j as int], pv)));
                        assert(!div_row_ok(a1[col as int], pv, N as int));
                        assert(gj_col_step(a0, inv0, col as int, N as int)
                            == GjState::Overflow);
                    }
                    return Err(MatError::Overflow);
                },
            };
            a.set(col, j, na);
            let ni = match inv.get(col, j).checked_div(&p) {
                Some(v) => v,
                None => {
                    proof {
                        assert(!q_ok(q_div(i1[col as int][j as int], pv)));
                        assert(!div_row_ok(i1[col as int], pv, N as int));
                        assert(gj_col_step(a0, inv0, col as int, N as int)
                            == GjState::Overflow);
                    }
                    return Err(MatError::Overflow);
                },
            };
            inv.set(col, j, ni);
            j = j + 1;
        }
        let ghost a2 = a1.update(col as int, div_row(a1[col as int], pv, N as int));
        let ghost i2 = i1.update(col as int, div_row(i1[col as int], pv, N as int));
        proof {
            assert(div_row_ok(a1[col as int], pv, N as int));
            assert(div_row_ok(i1[col as int], pv, N as int));
            assert(a@ =~~= a2);
            assert(inv@ =~~= i2);
        }
        let ghost afinal = elim_mat(a2, a2, col as int, N as int);
        let ghost ifinal = elim_mat(i2, a2, col as int, N as int);
        // Clear the column everywhere else.
        let mut rr: usize = 0;
        while rr < N
            invariant
                rr <= N,
                col < N,
                piv < N,
                a.wf(),
                inv.wf(),
                goal == gj_run(d@, identity_mat(N as int), 0, N as int),
                goal == gj_run(a0, inv0, col as int, N as int),
                a0.len() == N,
                inv0.len() == N,
                forall|r2: int| 0 <= r2 < N ==> (#[trigger] a0[r2]).len() == N,
                forall|r2: int| 0 <= r2 < N ==> (#[trigger] inv0[r2]).len() == N,
                find_pivot(a0, col as int, col as int, N as int) == Some(piv as int),
                a1 == (if piv as int == col as int {
                    a0
                } else {
                    swap_rows(a0, col as int, piv as int)
                }),
                i1 == (if piv as int == col as int {
                    inv0
                } else {
                    swap_rows(inv0, col as int, piv as int)
                }),
                pv == a1[col as int][col as int],
                a2 == a1.update(col as int, div_row(a1[col as int], pv, N as int)),
                i2 == i1.update(col as int, div_row(i1[col as int], pv, N as int)),
                div_row_ok(a1[col as int], pv, N as int),
                div_row_ok(i1[col as int], pv, N as int),
                afinal == elim_mat(a2, a2, col as int, N as int),
                ifinal == elim_mat(i2, a2, col as int, N as int),
                forall|r2: int, c2: int|
                    0 <= r2 < rr && 0 <= c2 < N ==> #[trigger] a@[r2][c2] == afinal[r2][c2],
                forall|r2: int, c2: int|
                    rr <= r2 < N && 0 <= c2 < N ==> #[trigger] a@[r2][c2] == a2[r2][c2],
                forall|r2: int, c2: int|
                    0 <= r2 < rr && 0 <= c2 < N ==> #[trigger] inv@[r2][c2] == ifinal[r2][c2],
                forall|r2: int, c2: int|
                    rr <= r2 < N && 0 <= c2 < N ==> #[trigger] inv@[r2][c2] == i2[r2][c2],
                forall|r2: int|
                    0 <= r2 < rr && r2 != col && a2[r2][col as int].num != 0
                        ==> #[trigger] elim_row_ok(
                        a2[r2],
                        a2[col as int],
                        a2[r2][col as int],
                        N as int,
                    ),
                forall|r2: int|
                    0 <= r2 < rr && r2 != col && a2[r2][col as int].num != 0
                        ==> #[trigger] elim_row_ok(
                        i2[r2],
                        i2[col as int],
                        a2[r2][col as int],
                        N as int,
                    ),
            decreases N - rr,
        {
            if rr != col {
                let factor = a.get(rr, col);
                if !factor.is_zero() {
                    proof {
                        assert(factor@.num * 1 == factor@.num) by (nonlinear_arith);
                        assert(0 * factor@.den == 0) by (nonlinear_arith);
                        assert(factor@.num != 0);
                    }
                    let mut j2: usize = 0;
                    while j2 < N
                        invariant
                            j2 <= N,
                            col < N,
                            piv < N,
                            rr < N,
                            rr != col,
                            factor.wf(),
                            a.wf(),
                            inv.wf(),
                            factor@ == a2[rr as int][col as int],
                            factor@.num != 0,
                            goal == gj_run(d@, identity_mat(N as int), 0, N as int),
                            goal == gj_run(a0, inv0, col as int, N as int),
                            a0.len() == N,
                            inv0.len() == N,
                            forall|r2: int| 0 <= r2 < N ==> (#[trigger] a0[r2]).len() == N,
                            forall|r2: int| 0 <= r2 < N ==> (#[trigger] inv0[r2]).len() == N,
                a0.len() == N,
                inv0.len() == N,
                forall|r2: int| 0 <= r2 < N ==> (#[trigger] a0[r2]).len() == N,
                forall|r2: int| 0 <= r2 < N ==> (#[trigger] inv0[r2]).len() == N,
                            find_pivot(a0, col as int, col as int, N as int) == Some(piv as int),
                            a1 == (if piv as int == col as int {
                                a0
                            } else {
                                swap_rows(a0, col as int, piv as int)
                            }),
                            i1 == (if piv as int == col as int {
                                inv0
                            } else {
                                swap_rows(inv0, col as int, piv as int)
                            }),
                            pv == a1[col as int][col as int],
                            a2 == a1.update(col as int, div_row(a1[col as int], pv, N as int)),
                            i2 == i1.update(col as int, div_row(i1[col as int], pv, N as int)),
                            div_row_ok(a1[col as int], pv, N as int),
                            div_row_ok(i1[col as int], pv, N as int),
                            afinal == elim_mat(a2, a2, col as int, N as int),
                            ifinal == elim_mat(i2, a2, col as int, N as int),
                            forall|c2: int|
                                0 <= c2 < j2 ==> #[trigger] a@[rr as int][c2] == elim_row(
                                    a2[rr as int],
                                    a2[col as int],
                                    a2[rr as int][col as int],
                                    N as int,
                                )[c2],
                            forall|c2: int|
                                0 <= c2 < j2 ==> q_ok(
                                    #[trigger] q_mul(a2[rr as int][col as int], a2[col as int][c2]),
                                ),
                            forall|c2: int|
                                0 <= c2 < j2 ==> q_ok(
                                    #[trigger] q_sub(
                                        a2[rr as int][c2],
                                        q_norm(
                                            q_mul(a2[rr as int][col as int], a2[col as int][c2]),
                                        ),
                                    ),
                                ),
                            forall|c2: int|
                                j2 <= c2 < N ==> #[trigger] a@[rr as int][c2]
                                    == a2[rr as int][c2],
                            forall|c2: int|
                                0 <= c2 < j2 ==> #[trigger] inv@[rr as int][c2] == elim_row(
                                    i2[rr as int],
                                    i2[col as int],
                                    a2[rr as int][col as int],
                                    N as int,
                                )[c2],
                            forall|c2: int|
                                0 <= c2 < j2 ==> q_ok(
                                    #[trigger] q_mul(a2[rr as int][col as int], i2[col as int][c2]),
                                ),
                            forall|c2: int|
                                0 <= c2 < j2 ==> q_ok(
                                    #[trigger] q_sub(
                                        i2[rr as int][c2],
                                        q_norm(
                                            q_mul(a2[rr as int][col as int], i2[col as int][c2]),
                                        ),
                                    ),
                                ),
                            forall|c2: int|
                                j2 <= c2 < N ==> #[trigger] inv@[rr as int][c2]
                                    == i2[rr as int][c2],
                            forall|r2: int, c2: int|
                                0 <= r2 < N && 0 <= c2 < N && r2 != rr ==> #[trigger] a@[r2][c2]
                                    == (if r2 < rr {
                                    afinal[r2][c2]
                                } else {
                                    a2[r2][c2]
                                }),
                            forall|r2: int, c2: int|
                                0 <= r2 < N && 0 <= c2 < N && r2 != rr ==> #[trigger] inv@[r2][c2]
                                    == (if r2 < rr {
                                    ifinal[r2][c2]
                                } else {
                                    i2[r2][c2]
                                }),
                            forall|r2: int|
                                0 <= r2 < rr && r2 != col && a2[r2][col as int].num != 0
                                    ==> #[trigger] elim_row_ok(
                                    a2[r2],
                                    a2[col as int],
                                    a2[r2][col as int],
                                    N as int,
                                ),
                            forall|r2: int|
                                0 <= r2 < rr && r2 != col && a2[r2][col as int].num != 0
                                    ==> #[trigger] elim_row_ok(
                                    i2[r2],
                                    i2[col as int],
                                    a2[r2][col as int],
                                    N as int,
                                ),
                        decreases N - j2,
                    {
                        proof {
                            assert(a@[col as int][j2 as int] == a2[col as int][j2 as int]);
                            assert(inv@[col as int][j2 as int] == i2[col as int][j2 as int]);
                        }
                        let prod = match factor.checked_mul(&a.get(col, j2)) {
                            Some(v) => v,
                            None => {
                                proof {
                                    assert(!q_ok(
                                        q_mul(a2[rr as int][col as int], a2[col as int][j2 as int]),
                                    ));
                                    assert(!elim_row_ok(
                                        a2[rr as int],
                                        a2[col as int],
                                        a2[rr as int][col as int],
                                        N as int,
                                    ));
                                    assert(!elim_mat_ok(a2, a2, col as int, N as int));
                                    assert(gj_col_step(a0, inv0, col as int, N as int)
                                        == GjState::Overflow);
                                }
                                return Err(MatError::Overflow);
                            },
                        };
                        let na = match a.get(rr, j2).checked_sub(&prod) {
                            Some(v) => v,
                            None => {
                                proof {
                                    assert(!q_ok(
                                        q_sub(
                                            a2[rr as int][j2 as int],
                                            q_norm(
                                                q_mul(
                                                    a2[rr as int][col as int],
                                                    a2[col as int][j2 as int],
                                                ),
                                            ),
                                        ),
                                    ));
                                    assert(!elim_row_ok(
                                        a2[rr as int],
                                        a2[col as int],
                                        a2[rr as int][col as int],
                                        N as int,
                                    ));
                                    assert(!elim_mat_ok(a2, a2, col as int, N as int));
                                    assert(gj_col_step(a0, inv0, col as int, N as int)
                                        == GjState::Overflow);
                                }
                                return Err(MatError::Overflow);
                            },
                        };
                        a.set(rr, j2, na);
                        let prod2 = match factor.checked_mul(&inv.get(col, j2)) {
                            Some(v) => v,
                            None => {
                                proof {
                                    assert(!q_ok(
                                        q_mul(a2[rr as int][col as int], i2[col as int][j2 as int]),
                                    ));
                                    assert(!elim_row_ok(
                                        i2[rr as int],
                                        i2[col as int],
                                        a2[rr as int][col as int],
                                        N as int,
                                    ));
                                    assert(!elim_mat_ok(i2, a2, col as int, N as int));
                                    assert(gj_col_step(a0, inv0, col as int, N as int)
                                        == GjState::Overflow);
                                }
                                return Err(MatError::Overflow);
                            },
                        };
                        let ni = match inv.get(rr, j2).checked_sub(&prod2) {
                            Some(v) => v,
                            None => {
                                proof {
                                    assert(!q_ok(
                                        q_sub(
                                            i2[rr as int][j2 as int],
                                            q_norm(
                                                q_mul(
                                                    a2[rr as int][col as int],
                                                    i2[col as int][j2 as int],
                                                ),
                                            ),
                                        ),
                                    ));
                                    assert(!elim_row_ok(
                                        i2[rr as int],
                                        i2[col as int],
                                        a2[rr as int][col as int],
                                        N as int,
                                    ));
                                    assert(!elim_mat_ok(i2, a2, col as int, N as int));
                                    assert(gj_col_step(a0, inv0, col as int, N as int)
                                        == GjState::Overflow);
                                }
                                return Err(MatError::Overflow);
                            },
                        };
                        inv.set(rr, j2, ni);
                        j2 = j2 + 1;
                    }
                    proof {
                        assert(elim_row_ok(
                            a2[rr as int],
                            a2[col as int],
                            a2[rr as int][col as int],
                            N as int,
                        ));
                        assert(elim_row_ok(
                            i2[rr as int],
                            i2[col as int],
                            a2[rr as int][col as int],
                            N as int,
                        ));
                        assert(forall|c2: int|
                            0 <= c2 < N ==> #[trigger] a@[rr as int][c2]
                                == afinal[rr as int][c2]);
                        assert(forall|c2: int|
                            0 <= c2 < N ==> #[trigger] inv@[rr as int][c2]
                                == ifinal[rr as int][c2]);
                    }
                } else {
                    proof {
                        assert(a2[rr as int][col as int].num == 0);
                        assert(afinal[rr as int] == a2[rr as int]);
                        assert(ifinal[rr as int] == i2[rr as int]);
                    }
                }
            } else {
                proof {
                    assert(afinal[rr as int] == a2[rr as int]);
                    assert(ifinal[rr as int] == i2[rr as int]);
                }
            }
            rr = rr + 1;
        }
        proof {
            assert(a@ =~~= afinal);
            assert(inv@ =~~= ifinal);
            assert(elim_mat_ok(a2, a2, col as int, N as int));
            assert(elim_mat_ok(i2, a2, col as int, N as int));
            assert(gj_col_step(a0, inv0, col as int, N as int) == (GjState::Go {
                a: afinal,
                inv: ifinal,
            }));
        }
        col = col + 1;
    }
    Ok(inv)
}

/// One damped Gauss-Newton step with backtracking line search.
///
/// Forms `D = J^t*J + beta*I` with `J = jscale*equation`, inverts `D`
/// exactly, and walks from `x0` along `d = -(D^-1)*J^t*f(x0)` with step
/// scales `1, 1/2, 1/4, ...`, accepting the first scale that strictly
/// decreases the squared residual norm. When the scale falls below `1/1000`,
/// `x0` is returned unchanged: a no-progress outcome, not an error.
///
/// The whole step is pinned by the mirrored specification [`gn_spec`]: on
/// success the returned vector is exactly the mirrored point (the first
/// accepted halving scale, or `x0` unchanged when the search stalls), and it
/// either equals `x0` or has a strictly smaller ideal squared residual norm;
/// `SingularMatrix` is returned exactly when the mirror reports the
/// normal-equations matrix singular.
pub fn gauss_newton<const M: usize, const N: usize>(
    equation: &SMatrix<M, N>,
    bias: &SVector<M>,
    x0: &SVector<N>,
    beta: &Rat,
    jscale: &Rat,
) -> (r: Result<SVector<N>, MatError>)
    requires
        equation.wf(),
        bias.wf(),
        x0.wf(),
        beta.wf(),
        jscale.wf(),
    ensures
        r matches Ok(x1) ==> x1.wf(),
        r matches Ok(x1) ==> (x1@ == x0@ || q_lt(
            q_err(equation@, bias@, x1@, M as int, N as int),
            q_err(equation@, bias@, x0@, M as int, N as int),
        )),
        r is Ok <==> (gn_spec(equation@, bias@, x0@, beta@, jscale@, M as int, N as int) is Took
            || gn_spec(equation@, bias@, x0@, beta@, jscale@, M as int, N as int) is Stalled),
        r matches Ok(x1) ==> (gn_spec(equation@, bias@, x0@, beta@, jscale@, M as int, N as int)
            matches StepOut::Took { x } ==> x1@ == x),
        r matches Ok(x1) ==> (gn_spec(
            equation@,
            bias@,
            x0@,
            beta@,
            jscale@,
            M as int,
            N as int,
        ) is Stalled ==> x1@ == x0@),
        r matches Err(e) ==> (e == MatError::SingularMatrix <==> gn_spec(
            equation@,
            bias@,
            x0@,
            beta@,
            jscale@,
            M as int,
            N as int,
        ) is Singular),
        r matches Err(e) ==> (e == MatError::Overflow <==> gn_spec(
            equation@,
            bias@,
            x0@,
            beta@,
            jscale@,
            M as int,
            N as int,
        ) is Overflow),
{
    let ghost gl = gn_spec(equation@, bias@, x0@, beta@, jscale@, M as int, N as int);
    let j = match jacobian(equation, jscale) {
        Ok(j) => j,
        Err(e) => {
            proof {
                assert(gl == StepOut::Overflow);
            }
            return Err(e);
        },
    };
    let jt = j.transpose();
    let ident = identity::<N>();
    proof {
        assert(ident@ =~~= identity_mat(N as int));
    }
    let damp = match ident.scale(beta) {
        Ok(m) => m,
        Err(e) => {
            proof {
                assert(gl == StepOut::Overflow);
            }
            return Err(e);
        },
    };
    let jtj = match jt.matmul(&j) {
        Ok(m) => m,
        Err(e) => {
            proof {
                assert(gl == StepOut::Overflow);
            }
            return Err(e);
        },
    };
    proof {
        assert(damp@ =~~= scale_acc(beta@, identity_mat(N as int), N as int, N as int));
        assert(jtj@ =~~= matmul_acc(jt@, j@, M as int, N as int));
    }
    let d_mat = match jtj.add(&damp) {
        Ok(m) => m,
        Err(e) => {
            proof {
                assert(gl == StepOut::Overflow);
            }
            return Err(e);
        },
    };
    proof {
        assert(d_mat@ =~~= madd_acc(jtj@, damp@, N as int, N as int));
    }
    let dinv = match invert_exact(&d_mat) {
        Ok(m) => m,
        Err(e) => {
            proof {
                if e == MatError::SingularMatrix {
                    assert(gl == StepOut::Singular);
                } else {
                    assert(gl == StepOut::Overflow);
                }
            }
            return Err(e);
        },
    };
    let f_x0 = match residual(equation, bias, x0) {
        Ok(v) => v,
        Err(e) => {
            proof {
                assert(gl == StepOut::Overflow);
            }
            return Err(e);
        },
    };
    let error0 = match objective(equation, bias, x0) {
        Ok(v) => v,
        Err(e) => {
            proof {
                assert(gl == StepOut::Overflow);
            }
            return Err(e);
        },
    };
    let jtf = match jt.mul(&f_x0) {
        Ok(v) => v,
        Err(e) => {
            proof {
                assert(gl == StepOut::Overflow);
            }
            return Err(e);
        },
    };
    proof {
        assert(jtf@ =~~= mulvec_acc(jt@, f_x0@, N as int, M as int));
    }
    let dvec = match dinv.mul(&jtf) {
        Ok(v) => v.neg(),
        Err(e) => {
            proof {
                assert(gl == StepOut::Overflow);
            }
            return Err(e);
        },
    };
    proof {
        assert(dvec@ =~~= Seq::new(
            N as nat,
            |i: int| q_neg(dot_acc(dinv@[i], jtf@, N as int)),
        ));
        assert(gl == ls_run(equation@, bias@, x0@, dvec@, error0@, 1, M as int, N as int));
    }
    // Backtracking line search: the step scale is 1/den, halved by doubling
    // the denominator, with the floor `1/1000` of the original.
    let mut den: i64 = 1;
    loop
        invariant
            1 <= den <= 1000,
            equation.wf(),
            bias.wf(),
            x0.wf(),
            dvec.wf(),
            error0.wf(),
            q_eq(error0@, q_err(equation@, bias@, x0@, M as int, N as int)),
            gl == gn_spec(equation@, bias@, x0@, beta@, jscale@, M as int, N as int),
            gl == ls_run(
                equation@,
                bias@,
                x0@,
                dvec@,
                error0@,
                den as int,
                M as int,
                N as int,
            ),
        decreases 1001 - den,
    {
        let alpha = Rat { num: 1, den };
        let ghost stv = Seq::new(N as nat, |i: int| q_norm(q_mul(alpha@, dvec@[i])));
        let step = match dvec.scale(&alpha) {
            Ok(v) => v,
            Err(e) => {
                proof {
                    assert(gl == StepOut::Overflow);
                }
                return Err(e);
            },
        };
        proof {
            assert(step@ =~~= stv);
        }
        let x1 = match x0.add(&step) {
            Ok(v) => v,
            Err(e) => {
                proof {
                    assert(!(forall|i: int|
                        0 <= i < N ==> q_ok(#[trigger] q_add(x0@[i], stv[i]))));
                    assert(gl == StepOut::Overflow);
                }
                return Err(e);
            },
        };
        proof {
            assert(x1@ =~~= Seq::new(N as nat, |i: int| q_norm(q_add(x0@[i], stv[i]))));
        }
        let error1 = match objective(equation, bias, &x1) {
            Ok(v) => v,
            Err(e) => {
                proof {
                    assert(gl == StepOut::Overflow);
                }
                return Err(e);
            },
        };
        if error1.lt(&error0) {
            proof {
                assert(gl == (StepOut::Took { x: x1@ }));
                lemma_mat_view_wf(equation);
                lemma_vec_view_wf(bias);
                lemma_vec_view_wf(&x1);
                lemma_vec_view_wf(x0);
                lemma_q_res_wf(equation@, bias@, x1@, M as int, N as int);
                lemma_q_res_wf(equation@, bias@, x0@, M as int, N as int);
                lemma_q_lt_congr(
                    error1@,
                    q_err(equation@, bias@, x1@, M as int, N as int),
                    error0@,
                    q_err(equation@, bias@, x0@, M as int, N as int),
                );
            }
            return Ok(x1);
        }
        den = den * 2;
        if den > 1000 {
            // The step scale fell below the floor 1/1000: give up and
            // report no progress.
            proof {
                assert(gl == StepOut::Stalled);
            }
            return Ok(x0.cloned());
        }
    }
}

} // verus!
