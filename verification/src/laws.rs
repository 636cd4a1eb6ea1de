//! Algebraic laws of the kernel, stated over the view-level model and proved
//! once and for all: the transpose round trip, linearity of the matrix-vector
//! product, and the sign of the squared norm.

use crate::matrix::{lemma_dot_acc, mat_transpose, q_dot, q_sumsq};
use crate::rat::{
    lemma_q_add_congr, lemma_q_add_comm, lemma_q_add_assoc, lemma_q_add_wf, lemma_q_eq_trans,
    lemma_q_mul_assoc, lemma_q_mul_distrib, lemma_q_nonneg_add, lemma_q_sq_nonneg,
    lemma_q_sq_zero_iff, q_add, q_eq, q_le, q_make, q_mul, q_wf, q_zero, Qv,
};
use vstd::prelude::*;

verus! {

/// Element-wise sum of two vector views.
pub open spec fn vec_add(x: Seq<Qv>, y: Seq<Qv>) -> Seq<Qv> {
    Seq::new(x.len(), |i: int| q_add(x[i], y[i]))
}

/// Every entry multiplied by the scalar `c`.
pub open spec fn vec_scale(c: Qv, x: Seq<Qv>) -> Seq<Qv> {
    Seq::new(x.len(), |i: int| q_mul(c, x[i]))
}

/// Round trip: transposing a matrix twice gives back the original matrix.
pub proof fn lemma_transpose_transpose(m: Seq<Seq<Qv>>, rows: int, cols: int)
    requires
        rows >= 0,
        cols >= 0,
        m.len() == rows,
        forall|i: int| 0 <= i < rows ==> (#[trigger] m[i]).len() == cols,
    ensures
        mat_transpose(mat_transpose(m, rows, cols), cols, rows) == m,
{
    assert(mat_transpose(mat_transpose(m, rows, cols), cols, rows) =~~= m);
}

/// Rearranging a sum of four values: `(a+b)+(c+d) = (a+c)+(b+d)`.
proof fn lemma_q_add_rearrange(a: Qv, b: Qv, c: Qv, d: Qv)
    requires
        q_wf(a),
        q_wf(b),
        q_wf(c),
        q_wf(d),
    ensures
        q_eq(q_add(q_add(a, b), q_add(c, d)), q_add(q_add(a, c), q_add(b, d))),
{
    lemma_q_add_wf(a, b);
    lemma_q_add_wf(c, d);
    lemma_q_add_wf(b, c);
    lemma_q_add_wf(a, c);
    lemma_q_add_wf(b, d);
    lemma_q_add_wf(q_add(a, b), q_add(c, d));
    // (a+b)+(c+d) ~ a+(b+(c+d))
    lemma_q_add_assoc(a, b, q_add(c, d));
    // b+(c+d) ~ (b+c)+d ~ (c+b)+d ~ c+(b+d)
    lemma_q_add_assoc(b, c, d);
    lemma_q_add_comm(b, c);
    lemma_q_add_congr(q_add(b, c), q_add(c, b), d, d);
    lemma_q_add_assoc(c, b, d);
    lemma_q_add_wf(q_add(b, c), d);
    lemma_q_add_wf(b, q_add(c, d));
    lemma_q_eq_trans(q_add(b, q_add(c, d)), q_add(q_add(b, c), d), q_add(q_add(c, b), d));
    lemma_q_add_wf(q_add(c, b), d);
    lemma_q_eq_trans(q_add(b, q_add(c, d)), q_add(q_add(c, b), d), q_add(c, q_add(b, d)));
    // a+(b+(c+d)) ~ a+(c+(b+d)) ~ (a+c)+(b+d)
    lemma_q_add_congr(a, a, q_add(b, q_add(c, d)), q_add(c, q_add(b, d)));
    lemma_q_add_wf(a, q_add(b, q_add(c, d)));
    lemma_q_eq_trans(
        q_add(q_add(a, b), q_add(c, d)),
        q_add(a, q_add(b, q_add(c, d))),
        q_add(a, q_add(c, q_add(b, d))),
    );
    lemma_q_add_assoc(a, c, q_add(b, d));
    lemma_q_add_wf(c, q_add(b, d));
    lemma_q_add_wf(a, q_add(c, q_add(b, d)));
    lemma_q_eq_trans(
        q_add(q_add(a, b), q_add(c, d)),
        q_add(a, q_add(c, q_add(b, d))),
        q_add(q_add(a, c), q_add(b, d)),
    );
}

/// Linearity in the vector argument: `r . (x + y) = r . x + r . y` for every
/// prefix length `k`.
pub proof fn lemma_dot_add(r: Seq<Qv>, x: Seq<Qv>, y: Seq<Qv>, k: int)
    requires
        k <= r.len(),
        k <= x.len(),
        k <= y.len(),
        forall|j: int| 0 <= j < k ==> q_wf(#[trigger] r[j]),
        forall|j: int| 0 <= j < k ==> q_wf(#[trigger] x[j]),
        forall|j: int| 0 <= j < k ==> q_wf(#[trigger] y[j]),
    ensures
        q_eq(q_dot(r, vec_add(x, y), k), q_add(q_dot(r, x, k), q_dot(r, y, k))),
    decreases k,
{
    if k <= 0 {
    } else {
        lemma_dot_add(r, x, y, k - 1);
        lemma_dot_acc(r, x, k - 1);
        lemma_dot_acc(r, y, k - 1);
        let d1 = q_dot(r, x, k - 1);
        let d2 = q_dot(r, y, k - 1);
        let px = q_mul(r[k - 1], x[k - 1]);
        let py = q_mul(r[k - 1], y[k - 1]);
        lemma_q_add_wf(r[k - 1], x[k - 1]);
        lemma_q_add_wf(r[k - 1], y[k - 1]);
        lemma_q_mul_distrib(r[k - 1], x[k - 1], y[k - 1]);
        // dot(r, x+y, k) = dot(r, x+y, k-1) + r[k-1]*(x[k-1]+y[k-1])
        //               ~ (d1 + d2) + (px + py) ~ (d1 + px) + (d2 + py)
        lemma_q_add_congr(
            q_dot(r, vec_add(x, y), k - 1),
            q_add(d1, d2),
            q_mul(r[k - 1], vec_add(x, y)[k - 1]),
            q_add(px, py),
        );
        lemma_q_add_wf(d1, d2);
        lemma_q_add_wf(px, py);
        lemma_q_add_wf(q_add(d1, d2), q_add(px, py));
        lemma_q_add_rearrange(d1, d2, px, py);
        lemma_q_eq_trans(
            q_dot(r, vec_add(x, y), k),
            q_add(q_add(d1, d2), q_add(px, py)),
            q_add(q_add(d1, px), q_add(d2, py)),
        );
    }
}

/// Linearity in the scalar: `(c*r) . x = c * (r . x)` for every prefix
/// length `k`.
pub proof fn lemma_dot_scale(c: Qv, r: Seq<Qv>, x: Seq<Qv>, k: int)
    requires
        k <= r.len(),
        k <= x.len(),
        q_wf(c),
        forall|j: int| 0 <= j < k ==> q_wf(#[trigger] r[j]),
        forall|j: int| 0 <= j < k ==> q_wf(#[trigger] x[j]),
    ensures
        q_eq(q_dot(vec_scale(c, r), x, k), q_mul(c, q_dot(r, x, k))),
    decreases k,
{
    if k <= 0 {
        assert(0 * (c.den * 1) == (c.num * 0) * 1) by (nonlinear_arith);
        assert(q_mul(c, q_zero()) == q_make(c.num * 0, c.den * 1));
    } else {
        lemma_dot_scale(c, r, x, k - 1);
        lemma_dot_acc(r, x, k - 1);
        let d = q_dot(r, x, k - 1);
        let p = q_mul(r[k - 1], x[k - 1]);
        lemma_q_add_wf(r[k - 1], x[k - 1]);
        lemma_q_mul_assoc(c, r[k - 1], x[k - 1]);
        // dot(c*r, x, k) = dot(c*r, x, k-1) + (c*r[k-1])*x[k-1]
        //               ~ c*d + c*p ~ c*(d + p)
        lemma_q_add_congr(
            q_dot(vec_scale(c, r), x, k - 1),
            q_mul(c, d),
            q_mul(vec_scale(c, r)[k - 1], x[k - 1]),
            q_mul(c, p),
        );
        lemma_q_add_wf(c, d);
        lemma_q_add_wf(c, p);
        lemma_q_add_wf(q_mul(c, d), q_mul(c, p));
        lemma_q_mul_distrib(c, d, p);
        lemma_q_eq_trans(
            q_dot(vec_scale(c, r), x, k),
            q_add(q_mul(c, d), q_mul(c, p)),
            q_mul(c, q_add(d, p)),
        );
        assert(q_dot(r, x, k) == q_add(d, p));
    }
}

/// The squared norm is never negative, and is zero exactly when every entry
/// is zero.
pub proof fn lemma_norm_squared_sign(s: Seq<Qv>, k: int)
    requires
        forall|j: int| 0 <= j < k ==> q_wf(#[trigger] s[j]),
    ensures
        q_wf(q_sumsq(s, k)),
        q_le(q_zero(), q_sumsq(s, k)),
        q_eq(q_sumsq(s, k), q_zero()) <==> (forall|j: int|
            0 <= j < k ==> q_eq(#[trigger] s[j], q_zero())),
    decreases k,
{
    if k <= 0 {
    } else {
        lemma_norm_squared_sign(s, k - 1);
        let sq = q_mul(s[k - 1], s[k - 1]);
        lemma_q_add_wf(s[k - 1], s[k - 1]);
        lemma_q_sq_nonneg(s[k - 1]);
        lemma_q_nonneg_add(q_sumsq(s, k - 1), sq);
        lemma_q_add_wf(q_sumsq(s, k - 1), sq);
        lemma_q_sq_zero_iff(s[k - 1]);
        if q_eq(q_sumsq(s, k), q_zero()) {
            // Both summands are zero, so the prefix entries and the last
            // entry are all zero.
            assert(forall|j: int| 0 <= j < k ==> q_eq(#[trigger] s[j], q_zero()));
        }
        if forall|j: int| 0 <= j < k ==> q_eq(#[trigger] s[j], q_zero()) {
            lemma_q_add_congr(q_sumsq(s, k - 1), q_zero(), sq, q_zero());
            lemma_q_eq_trans(q_sumsq(s, k), q_add(q_zero(), q_zero()), q_zero());
        }
    }
}

} // verus!
