//! Recursive flow-based approximate inverse.
//!
//! A heuristic approximation to a generalized inverse of a rectangular
//! coefficient matrix: positive entries carry direct contribution weight,
//! negative entries feed back into further rows, and the recursion is
//! truncated at a fixed depth. Each seed row `r` distributes `1/positiveSum`
//! of flow to destination column `r` of the result, then follows every
//! negative entry found in the touched columns with the scaled remainder.
//!
//! The executable code mirrors, step for step, the specification functions
//! [`inv_step`], [`cols_step`] and [`rows_step`]; accumulation order is kept
//! strictly sequential and depth-first, so the exact output values are
//! pinned by the contract. The routine is a diagnostic cross-check against
//! the exact inverter, not part of the solver's critical path.

use crate::matrix::{MatError, SMatrix};
use crate::rat::{
    q_add, q_div, q_lt, q_mul, q_neg, q_norm, q_ok, q_one, q_wf, q_zero, Qv, Rat,
};
use vstd::prelude::*;

verus! {

/// Reduced running sum of the strictly positive entries of the first `k`
/// entries of a row, as the executable loop computes it.
pub open spec fn psum_acc(s: Seq<Qv>, k: int) -> Qv
    decreases k,
{
    if k <= 0 {
        q_zero()
    } else if q_lt(q_zero(), s[k - 1]) {
        q_norm(q_add(psum_acc(s, k - 1), s[k - 1]))
    } else {
        psum_acc(s, k - 1)
    }
}

/// Every reduced intermediate of the positive-entry sum fits 64 bits.
pub open spec fn psum_ok(s: Seq<Qv>, k: int) -> bool
    decreases k,
{
    if k <= 0 {
        true
    } else if q_lt(q_zero(), s[k - 1]) {
        psum_ok(s, k - 1) && q_ok(q_add(psum_acc(s, k - 1), s[k - 1]))
    } else {
        psum_ok(s, k - 1)
    }
}

/// One seed of the flow recursion: distribute `factor`, divided by the
/// positive sum of row `row` of `x`, into destination column `destrow` of
/// the accumulator, and recurse through negative entries while `depth`
/// lasts. `None` reports an intermediate value outside the 64-bit range.
pub open spec fn inv_step(
    res: Seq<Seq<Qv>>,
    x: Seq<Seq<Qv>>,
    row: int,
    destrow: int,
    factor: Qv,
    depth: int,
    m: int,
    n: int,
) -> Option<Seq<Seq<Qv>>>
    decreases depth, 2int, 0int, 0int, 0int
        when depth >= 0
{
    let ps = psum_acc(x[row], n);
    if !psum_ok(x[row], n) {
        None
    } else if !q_lt(q_zero(), ps) {
        Some(res)
    } else if !q_ok(q_div(factor, ps)) {
        None
    } else {
        cols_step(res, x, row, destrow, q_norm(q_div(factor, ps)), depth, m, n, 0)
    }
}

/// Walks the columns of row `row` from `col` on: every strictly positive
/// entry receives `share` at `(col, destrow)` of the accumulator and, while
/// `depth` lasts, opens that column's negative entries.
pub open spec fn cols_step(
    res: Seq<Seq<Qv>>,
    x: Seq<Seq<Qv>>,
    row: int,
    destrow: int,
    share: Qv,
    depth: int,
    m: int,
    n: int,
    col: int,
) -> Option<Seq<Seq<Qv>>>
    decreases depth, 1int, n - col, 1int, 0int
        when depth >= 0 && col <= n
{
    if col >= n {
        Some(res)
    } else if q_lt(q_zero(), x[row][col]) {
        if !q_ok(q_add(res[col][destrow], share)) {
            None
        } else {
            let res1 = res.update(
                col,
                res[col].update(destrow, q_norm(q_add(res[col][destrow], share))),
            );
            if depth >= 1 {
                match rows_step(res1, x, col, destrow, share, depth, m, n, 0) {
                    Some(res2) => cols_step(res2, x, row, destrow, share, depth, m, n, col + 1),
                    None => None,
                }
            } else {
                cols_step(res1, x, row, destrow, share, depth, m, n, col + 1)
            }
        }
    } else {
        cols_step(res, x, row, destrow, share, depth, m, n, col + 1)
    }
}

/// Scans column `col` of `x` from row `row2` on: every strictly negative
/// entry `v` re-seeds the recursion one level deeper with factor
/// `(-v) * share`.
pub open spec fn rows_step(
    res: Seq<Seq<Qv>>,
    x: Seq<Seq<Qv>>,
    col: int,
    destrow: int,
    share: Qv,
    depth: int,
    m: int,
    n: int,
    row2: int,
) -> Option<Seq<Seq<Qv>>>
    decreases depth, 1int, n - col, 0int, m - row2
        when depth >= 1 && col < n && row2 <= m
{
    if row2 >= m {
        Some(res)
    } else if q_lt(x[row2][col], q_zero()) {
        if !q_ok(q_mul(q_neg(x[row2][col]), share)) {
            None
        } else {
            match inv_step(
                res,
                x,
                row2,
                destrow,
                q_norm(q_mul(q_neg(x[row2][col]), share)),
                depth - 1,
                m,
                n,
            ) {
                Some(res1) => rows_step(res1, x, col, destrow, share, depth, m, n, row2 + 1),
                None => None,
            }
        }
    } else {
        rows_step(res, x, col, destrow, share, depth, m, n, row2 + 1)
    }
}

/// Seeds the recursion once per row index `row`, `row` serving as source row
/// and destination column alike, at full incoming flow and depth `depth`.
pub open spec fn inv_rows(
    res: Seq<Seq<Qv>>,
    x: Seq<Seq<Qv>>,
    row: int,
    depth: int,
    m: int,
    n: int,
) -> Option<Seq<Seq<Qv>>>
    decreases m - row
        when depth >= 0
{
    if row < 0 || row >= m {
        Some(res)
    } else {
        match inv_step(res, x, row, row, q_one(), depth, m, n) {
            Some(r1) => inv_rows(r1, x, row + 1, depth, m, n),
            None => None,
        }
    }
}

/// The all-zero matrix view of `r` rows and `c` columns.
pub open spec fn zmat(r: int, c: int) -> Seq<Seq<Qv>> {
    Seq::new(r as nat, |i: int| Seq::new(c as nat, |j: int| q_zero()))
}

/// Every entry of the matrix view within the given bounds is strictly
/// positive.
pub open spec fn all_positive(x: Seq<Seq<Qv>>, m: int, n: int) -> bool {
    forall|i: int, j: int| 0 <= i < m && 0 <= j < n ==> q_lt(q_zero(), #[trigger] x[i][j])
}

/// With only positive entries the negative-entry scan contributes nothing.
proof fn lemma_rows_step_positive(
    res: Seq<Seq<Qv>>,
    x: Seq<Seq<Qv>>,
    col: int,
    destrow: int,
    share: Qv,
    depth: int,
    m: int,
    n: int,
    row2: int,
)
    requires
        0 <= row2 <= m,
        0 <= col < n,
        depth >= 1,
        all_positive(x, m, n),
    ensures
        rows_step(res, x, col, destrow, share, depth, m, n, row2) == Some(res),
    decreases m - row2,
{
    if row2 < m {
        assert(q_lt(q_zero(), x[row2][col]));
        lemma_rows_step_positive(res, x, col, destrow, share, depth, m, n, row2 + 1);
    }
}

/// With only positive entries the column walk does not depend on the depth.
proof fn lemma_cols_step_positive(
    res: Seq<Seq<Qv>>,
    x: Seq<Seq<Qv>>,
    row: int,
    destrow: int,
    share: Qv,
    d1: int,
    d2: int,
    m: int,
    n: int,
    col: int,
)
    requires
        0 <= col <= n,
        0 <= row < m,
        d1 >= 0,
        d2 >= 0,
        all_positive(x, m, n),
    ensures
        cols_step(res, x, row, destrow, share, d1, m, n, col) == cols_step(
            res,
            x,
            row,
            destrow,
            share,
            d2,
            m,
            n,
            col,
        ),
    decreases n - col,
{
    if col < n {
        assert(q_lt(q_zero(), x[row][col]));
        if q_ok(q_add(res[col][destrow], share)) {
            let res1 = res.update(
                col,
                res[col].update(destrow, q_norm(q_add(res[col][destrow], share))),
            );
            if d1 >= 1 {
                lemma_rows_step_positive(res1, x, col, destrow, share, d1, m, n, 0);
            }
            if d2 >= 1 {
                lemma_rows_step_positive(res1, x, col, destrow, share, d2, m, n, 0);
            }
            lemma_cols_step_positive(res1, x, row, destrow, share, d1, d2, m, n, col + 1);
        }
    }
}

/// With only positive entries one seed of the recursion does not depend on
/// the depth.
proof fn lemma_inv_step_positive(
    res: Seq<Seq<Qv>>,
    x: Seq<Seq<Qv>>,
    row: int,
    destrow: int,
    factor: Qv,
    d1: int,
    d2: int,
    m: int,
    n: int,
)
    requires
        0 <= row < m,
        0 <= n,
        d1 >= 0,
        d2 >= 0,
        all_positive(x, m, n),
    ensures
        inv_step(res, x, row, destrow, factor, d1, m, n) == inv_step(
            res,
            x,
            row,
            destrow,
            factor,
            d2,
            m,
            n,
        ),
{
    let ps = psum_acc(x[row], n);
    if psum_ok(x[row], n) && q_lt(q_zero(), ps) && q_ok(q_div(factor, ps)) {
        lemma_cols_step_positive(
            res,
            x,
            row,
            destrow,
            q_norm(q_div(factor, ps)),
            d1,
            d2,
            m,
            n,
            0,
        );
    }
}

/// Truncation law of the flow-based inverse: when every entry of the
/// coefficient matrix is strictly positive there are no negative entries to
/// recurse into, so the result at any depth equals the depth-zero result.
pub proof fn lemma_inv_rows_positive(
    res: Seq<Seq<Qv>>,
    x: Seq<Seq<Qv>>,
    row: int,
    d1: int,
    d2: int,
    m: int,
    n: int,
)
    requires
        0 <= n,
        d1 >= 0,
        d2 >= 0,
        all_positive(x, m, n),
    ensures
        inv_rows(res, x, row, d1, m, n) == inv_rows(res, x, row, d2, m, n),
    decreases m - row,
{
    if 0 <= row < m {
        lemma_inv_step_positive(res, x, row, row, q_one(), d1, d2, m, n);
        match inv_step(res, x, row, row, q_one(), d1, m, n) {
            Some(r1) => {
                lemma_inv_rows_positive(r1, x, row + 1, d1, d2, m, n);
            },
            None => {},
        }
    }
}

proof fn lemma_psum_ok_mono(s: Seq<Qv>, j: int, k: int)
    requires
        0 <= j <= k,
        psum_ok(s, k),
    ensures
        psum_ok(s, j),
    decreases k,
{
    if j < k {
        lemma_psum_ok_mono(s, j, k - 1);
    }
}

/// The reduced sum of the strictly positive entries of row `row`.
fn pos_sum<const M: usize, const N: usize>(x: &SMatrix<M, N>, row: usize) -> (r: Result<
    Rat,
    MatError,
>)
    requires
        x.wf(),
        row < M,
    ensures
        r matches Ok(v) ==> v.wf() && v@ == psum_acc(x@[row as int], N as int),
        r is Ok <==> psum_ok(x@[row as int], N as int),
        r matches Err(e) ==> e == MatError::Overflow,
{
    let zero = Rat::zero();
    let mut acc = Rat::zero();
    let mut j: usize = 0;
    while j < N
        invariant
            j <= N,
            x.wf(),
            row < M,
            zero.wf(),
            zero@ == q_zero(),
            acc.wf(),
            acc@ == psum_acc(x@[row as int], j as int),
            psum_ok(x@[row as int], j as int),
        decreases N - j,
    {
        let v = x.get(row, j);
        if zero.lt(&v) {
            acc = match acc.checked_add(&v) {
                Some(s) => s,
                None => {
                    proof {
                        if psum_ok(x@[row as int], N as int) {
                            lemma_psum_ok_mono(x@[row as int], j as int + 1, N as int);
                        }
                    }
                    return Err(MatError::Overflow);
                },
            };
        }
        j = j + 1;
    }
    Ok(acc)
}

/// One seed of the flow recursion, accumulating into `res` in place. On
/// `Ok` the accumulator holds exactly what the specification recursion
/// yields; `Overflow` is returned exactly when that recursion meets a value
/// outside the 64-bit range (the accumulator then holds a partial sum).
pub fn inv_recurse<const M: usize, const N: usize>(
    res: &mut SMatrix<N, M>,
    x: &SMatrix<M, N>,
    row: usize,
    destrow: usize,
    factor: Rat,
    depth: u32,
) -> (r: Result<(), MatError>)
    requires
        old(res).wf(),
        x.wf(),
        row < M,
        destrow < M,
        factor.wf(),
    ensures
        final(res).wf(),
        r is Ok <==> inv_step(
            old(res)@,
            x@,
            row as int,
            destrow as int,
            factor@,
            depth as int,
            M as int,
            N as int,
        ) is Some,
        r is Ok ==> Some(final(res)@) == inv_step(
            old(res)@,
            x@,
            row as int,
            destrow as int,
            factor@,
            depth as int,
            M as int,
            N as int,
        ),
        r matches Err(e) ==> e == MatError::Overflow,
    decreases depth,
{
    let ghost goal = inv_step(
        old(res)@,
        x@,
        row as int,
        destrow as int,
        factor@,
        depth as int,
        M as int,
        N as int,
    );
    let ps = match pos_sum(x, row) {
        Ok(v) => v,
        Err(e) => {
            return Err(e);
        },
    };
    let zero = Rat::zero();
    if !zero.lt(&ps) {
        return Ok(());
    }
    proof {
        assert(ps@.num > 0);
    }
    let share = match factor.checked_div(&ps) {
        Some(s) => s,
        None => {
            return Err(MatError::Overflow);
        },
    };
    let mut col: usize = 0;
    while col < N
        invariant
            col <= N,
            x.wf(),
            res.wf(),
            row < M,
            destrow < M,
            share.wf(),
            zero.wf(),
            zero@ == q_zero(),
            factor.wf(),
            goal == inv_step(
                old(res)@,
                x@,
                row as int,
                destrow as int,
                factor@,
                depth as int,
                M as int,
                N as int,
            ),
            goal == cols_step(
                res@,
                x@,
                row as int,
                destrow as int,
                share@,
                depth as int,
                M as int,
                N as int,
                col as int,
            ),
        decreases N - col,
    {
        let ghost res_at_col = res@;
        let xval = x.get(row, col);
        if zero.lt(&xval) {
            let cur = res.get(col, destrow);
            let nv = match cur.checked_add(&share) {
                Some(v) => v,
                None => {
                    proof {
                        assert(q_lt(q_zero(), x@[row as int][col as int]));
                        assert(!q_ok(q_add(res_at_col[col as int][destrow as int], share@)));
                        assert(cols_step(
                            res_at_col,
                            x@,
                            row as int,
                            destrow as int,
                            share@,
                            depth as int,
                            M as int,
                            N as int,
                            col as int,
                        ) is None);
                    }
                    return Err(MatError::Overflow);
                },
            };
            res.set(col, destrow, nv);
            proof {
                assert(res@ == res_at_col.update(
                    col as int,
                    res_at_col[col as int].update(
                        destrow as int,
                        q_norm(q_add(res_at_col[col as int][destrow as int], share@)),
                    ),
                ));
            }
            if depth >= 1 {
                let ghost res1 = res@;
                proof {
                    assert(goal == match rows_step(
                        res1,
                        x@,
                        col as int,
                        destrow as int,
                        share@,
                        depth as int,
                        M as int,
                        N as int,
                        0,
                    ) {
                        Some(res2) => cols_step(
                            res2,
                            x@,
                            row as int,
                            destrow as int,
                            share@,
                            depth as int,
                            M as int,
                            N as int,
                            col as int + 1,
                        ),
                        None => None,
                    });
                }
                let mut row2: usize = 0;
                while row2 < M
                    invariant
                        row2 <= M,
                        x.wf(),
                        res.wf(),
                        row < M,
                        col < N,
                        destrow < M,
                        depth >= 1,
                        share.wf(),
                        zero.wf(),
                        zero@ == q_zero(),
                        factor.wf(),
                        goal == inv_step(
                            old(res)@,
                            x@,
                            row as int,
                            destrow as int,
                            factor@,
                            depth as int,
                            M as int,
                            N as int,
                        ),
                        rows_step(
                            res@,
                            x@,
                            col as int,
                            destrow as int,
                            share@,
                            depth as int,
                            M as int,
                            N as int,
                            row2 as int,
                        ) == rows_step(
                            res1,
                            x@,
                            col as int,
                            destrow as int,
                            share@,
                            depth as int,
                            M as int,
                            N as int,
                            0,
                        ),
                        goal == match rows_step(
                            res1,
                            x@,
                            col as int,
                            destrow as int,
                            share@,
                            depth as int,
                            M as int,
                            N as int,
                            0,
                        ) {
                            Some(res2) => cols_step(
                                res2,
                                x@,
                                row as int,
                                destrow as int,
                                share@,
                                depth as int,
                                M as int,
                                N as int,
                                col as int + 1,
                            ),
                            None => None,
                        },
                    decreases M - row2,
                {
                    let ghost res_at_row2 = res@;
                    let v = x.get(row2, col);
                    if v.lt(&zero) {
                        let f2 = match v.neg().checked_mul(&share) {
                            Some(f) => f,
                            None => {
                                proof {
                                    assert(q_lt(x@[row2 as int][col as int], q_zero()));
                                    assert(!q_ok(
                                        q_mul(q_neg(x@[row2 as int][col as int]), share@),
                                    ));
                                    assert(rows_step(
                                        res_at_row2,
                                        x@,
                                        col as int,
                                        destrow as int,
                                        share@,
                                        depth as int,
                                        M as int,
                                        N as int,
                                        row2 as int,
                                    ) is None);
                                }
                                return Err(MatError::Overflow);
                            },
                        };
                        match inv_recurse(res, x, row2, destrow, f2, depth - 1) {
                            Ok(()) => {},
                            Err(e) => {
                                proof {
                                    assert(q_lt(x@[row2 as int][col as int], q_zero()));
                                    assert(inv_step(
                                        res_at_row2,
                                        x@,
                                        row2 as int,
                                        destrow as int,
                                        f2@,
                                        depth as int - 1,
                                        M as int,
                                        N as int,
                                    ) is None);
                                    assert(rows_step(
                                        res_at_row2,
                                        x@,
                                        col as int,
                                        destrow as int,
                                        share@,
                                        depth as int,
                                        M as int,
                                        N as int,
                                        row2 as int,
                                    ) is None);
                                }
                                return Err(e);
                            },
                        };
                    }
                    row2 = row2 + 1;
                }
            }
        }
        col = col + 1;
    }
    Ok(())
}

/// The flow-based approximate inverse: an `N x M` matrix approximating a
/// generalized inverse of the `M x N` coefficient matrix `x`, built by
/// seeding the flow recursion once per row at the given truncation depth.
pub fn my_inverse<const M: usize, const N: usize>(x: &SMatrix<M, N>, depth: u32) -> (r: Result<
    SMatrix<N, M>,
    MatError,
>)
    requires
        x.wf(),
    ensures
        r matches Ok(m) ==> m.wf(),
        r is Ok <==> inv_rows(
            zmat(N as int, M as int),
            x@,
            0,
            depth as int,
            M as int,
            N as int,
        ) is Some,
        r matches Ok(m) ==> Some(m@) == inv_rows(
            zmat(N as int, M as int),
            x@,
            0,
            depth as int,
            M as int,
            N as int,
        ),
        r matches Err(e) ==> e == MatError::Overflow,
{
    let mut res = SMatrix::<N, M>::zeros();
    proof {
        assert(res@ =~~= zmat(N as int, M as int));
    }
    let mut row: usize = 0;
    while row < M
        invariant
            row <= M,
            x.wf(),
            res.wf(),
            inv_rows(res@, x@, row as int, depth as int, M as int, N as int) == inv_rows(
                zmat(N as int, M as int),
                x@,
                0,
                depth as int,
                M as int,
                N as int,
            ),
        decreases M - row,
    {
        let one = Rat::one();
        match inv_recurse(&mut res, x, row, row, one, depth) {
            Ok(()) => {},
            Err(e) => {
                return Err(e);
            },
        };
        row = row + 1;
    }
    Ok(res)
}

} // verus!
